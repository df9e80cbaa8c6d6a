//! A reader for DIMACS CNF text: a finite sequence of clauses drawn from a
//! byte buffer, one clause per line, each a run of whitespace-separated
//! signed decimal literals terminated by `0`.  Blank lines, comment lines
//! (`c`) and header lines (`p`) are skipped; the header's two counts are
//! remembered for reporting.

use vstd::prelude::*;

verus! {

/// Horizontal whitespace inside a line.
pub open spec fn is_ws(c: u8) -> bool {
    c == 32 || c == 9 || c == 13
}

/// An ASCII decimal digit.
pub open spec fn is_digit(c: u8) -> bool {
    48 <= c <= 57
}

/// Position of the newline (or the end) that closes the line at `p`.
pub open spec fn line_end(s: Seq<u8>, p: int) -> int
    decreases s.len() - p when 0 <= p <= s.len()
{
    if p >= s.len() || s[p] == 10 {
        p
    } else {
        line_end(s, p + 1)
    }
}

/// First non-whitespace position at or after `p`, capped at `end`.
pub open spec fn skip_ws(s: Seq<u8>, p: int, end: int) -> int
    decreases end - p when 0 <= p && p <= end
{
    if p >= end || !is_ws(s[p]) {
        p
    } else {
        skip_ws(s, p + 1, end)
    }
}

/// End of the token starting at `p`, capped at `end`.
pub open spec fn tok_end(s: Seq<u8>, p: int, end: int) -> int
    decreases end - p when 0 <= p && p <= end
{
    if p >= end || is_ws(s[p]) {
        p
    } else {
        tok_end(s, p + 1, end)
    }
}

/// Value of the digit run `s[p..q)`.
pub open spec fn digits_val(s: Seq<u8>, p: int, q: int) -> int
    decreases q - p,
{
    if p >= q {
        0
    } else {
        digits_val(s, p, q - 1) * 10 + (s[q - 1] - 48)
    }
}

/// Value of the token `s[p..q)`, with an optional leading minus sign.
pub open spec fn tok_val(s: Seq<u8>, p: int, q: int) -> int {
    if s[p] == 45 {
        -digits_val(s, p + 1, q)
    } else {
        digits_val(s, p, q)
    }
}

/// A well-formed literal token: digits after an optional sign, with a value
/// an `i32` can carry (and whose negation it can carry too).
pub open spec fn wf_tok(s: Seq<u8>, p: int, q: int) -> bool {
    let d0 = if s[p] == 45 {
        p + 1
    } else {
        p
    };
    &&& p < q
    &&& d0 < q
    &&& forall|j: int| d0 <= j < q ==> is_digit(#[trigger] s[j])
    &&& -2147483647 <= tok_val(s, p, q) <= 2147483647
}

/// The literals of the clause line `s[p..end)`: token values until the
/// first `0` or the end of the line.
pub open spec fn lits_in(s: Seq<u8>, p: int, end: int) -> Seq<i32>
    decreases end - p when 0 <= p && p <= end <= s.len() via lits_in_dec
{
    let q = skip_ws(s, p, end);
    if q >= end {
        Seq::empty()
    } else {
        let e = tok_end(s, q, end);
        if tok_val(s, q, e) == 0 {
            Seq::empty()
        } else {
            seq![tok_val(s, q, e) as i32] + lits_in(s, e, end)
        }
    }
}

/// Every token of the clause line up to and including its terminator is a
/// well-formed literal.
pub open spec fn wf_line(s: Seq<u8>, p: int, end: int) -> bool
    decreases end - p when 0 <= p && p <= end <= s.len() via wf_line_dec
{
    let q = skip_ws(s, p, end);
    if q >= end {
        true
    } else {
        let e = tok_end(s, q, end);
        wf_tok(s, q, e) && (tok_val(s, q, e) == 0 || wf_line(s, e, end))
    }
}

/// A line the reader skips: blank, comment, or header.
pub open spec fn skip_line(s: Seq<u8>, p: int, end: int) -> bool {
    let q = skip_ws(s, p, end);
    q >= end || s[q] == 99 || s[q] == 112
}

/// The clauses from position `p` to the end of the input.
pub open spec fn clauses_from(s: Seq<u8>, p: int) -> Seq<Seq<i32>>
    decreases s.len() - p when 0 <= p <= s.len() via clauses_from_dec
{
    if p >= s.len() {
        Seq::empty()
    } else {
        let end = line_end(s, p);
        let next = if end < s.len() {
            end + 1
        } else {
            end
        };
        if skip_line(s, p, end) {
            clauses_from(s, next)
        } else {
            seq![lits_in(s, p, end)] + clauses_from(s, next)
        }
    }
}

/// Every clause line from `p` on is well formed.
pub open spec fn wf_from(s: Seq<u8>, p: int) -> bool
    decreases s.len() - p when 0 <= p <= s.len() via wf_from_dec
{
    if p >= s.len() {
        true
    } else {
        let end = line_end(s, p);
        let next = if end < s.len() {
            end + 1
        } else {
            end
        };
        (skip_line(s, p, end) || wf_line(s, p, end)) && wf_from(s, next)
    }
}


/// `skip_ws` stays within its range.
proof fn lemma_skip_ws_bounds(s: Seq<u8>, p: int, end: int)
    requires
        0 <= p <= end,
    ensures
        p <= skip_ws(s, p, end) <= end,
    decreases end - p,
{
    if p < end && is_ws(s[p]) {
        lemma_skip_ws_bounds(s, p + 1, end);
    }
}

/// `tok_end` stays within its range, and moves when a token starts.
proof fn lemma_tok_end_bounds(s: Seq<u8>, p: int, end: int)
    requires
        0 <= p <= end,
    ensures
        p <= tok_end(s, p, end) <= end,
        p < end && !is_ws(s[p]) ==> tok_end(s, p, end) > p,
    decreases end - p,
{
    if p < end && !is_ws(s[p]) {
        lemma_tok_end_bounds(s, p + 1, end);
    }
}

#[via_fn]
proof fn lits_in_dec(s: Seq<u8>, p: int, end: int) {
    lemma_skip_ws_bounds(s, p, end);
    let q = skip_ws(s, p, end);
    if q < end {
        lemma_tok_end_bounds(s, q, end);
    }
}

#[via_fn]
proof fn wf_line_dec(s: Seq<u8>, p: int, end: int) {
    lemma_skip_ws_bounds(s, p, end);
    let q = skip_ws(s, p, end);
    if q < end {
        lemma_tok_end_bounds(s, q, end);
    }
}

#[via_fn]
proof fn clauses_from_dec(s: Seq<u8>, p: int) {
    if 0 <= p < s.len() {
        lemma_line_end_bounds(s, p);
    }
}

#[via_fn]
proof fn wf_from_dec(s: Seq<u8>, p: int) {
    if 0 <= p < s.len() {
        lemma_line_end_bounds(s, p);
    }
}

#[via_fn]
proof fn has_header_dec(s: Seq<u8>, p: int) {
    if 0 <= p < s.len() {
        lemma_line_end_bounds(s, p);
    }
}

#[via_fn]
proof fn header_next_dec(s: Seq<u8>, p: int) {
    if 0 <= p < s.len() {
        lemma_line_end_bounds(s, p);
    }
}

/// The reader: the whole input, a cursor, and the header's two counts.
pub struct Dimacs {
    input: Vec<u8>,
    pos: usize,
    var_count: usize,
    clause_count: usize,
}

impl Dimacs {
    /// The input bytes, as ghost state.
    pub closed spec fn text(self) -> Seq<u8> {
        self.input@
    }

    /// The cursor, as ghost state.
    pub closed spec fn at(self) -> int {
        self.pos as int
    }

    /// Reader well-formedness: the cursor is at a line start and every
    /// clause line from here on parses.
    pub open spec fn inv(self) -> bool {
        &&& 0 <= self.at() <= self.text().len()
        &&& wf_from(self.text(), self.at())
    }

    /// The clauses the reader has yet to yield.
    pub open spec fn remaining(self) -> Seq<Seq<i32>> {
        clauses_from(self.text(), self.at())
    }

    /// Position of the end of the line beginning at `p`.
    fn find_line_end(&self, p: usize) -> (r: usize)
        requires
            p <= self.text().len(),
        ensures
            r == line_end(self.text(), p as int),
            p <= r <= self.text().len(),
    {
        let n = self.input.len();
        let mut q = p;
        while q < n && self.input[q] != 10
            invariant
                n == self.text().len(),
                p <= q <= n,
                line_end(self.text(), p as int) == line_end(self.text(), q as int),
            decreases n - q,
        {
            q = q + 1;
        }
        q
    }

    /// First non-whitespace position in `[p, end)`.
    fn find_skip_ws(&self, p: usize, end: usize) -> (r: usize)
        requires
            p <= end <= self.text().len(),
        ensures
            r == skip_ws(self.text(), p as int, end as int),
            p <= r <= end,
    {
        let mut q = p;
        loop
            invariant
                p <= q <= end <= self.text().len(),
                skip_ws(self.text(), p as int, end as int) == skip_ws(
                    self.text(),
                    q as int,
                    end as int,
                ),
            ensures
                p <= q <= end,
                q == skip_ws(self.text(), p as int, end as int),
            decreases end - q,
        {
            if q >= end {
                proof {
                    assert(skip_ws(self.text(), q as int, end as int) == q);
                }
                break ;
            }
            let c = self.input[q];
            if !(c == 32 || c == 9 || c == 13) {
                proof {
                    assert(skip_ws(self.text(), q as int, end as int) == q);
                }
                break ;
            }
            q = q + 1;
        }
        q
    }

    /// End of the token starting at `p` within `[p, end)`.
    fn find_tok_end(&self, p: usize, end: usize) -> (r: usize)
        requires
            p <= end <= self.text().len(),
        ensures
            r == tok_end(self.text(), p as int, end as int),
            p <= r <= end,
    {
        let mut q = p;
        loop
            invariant
                p <= q <= end <= self.text().len(),
                tok_end(self.text(), p as int, end as int) == tok_end(
                    self.text(),
                    q as int,
                    end as int,
                ),
            ensures
                p <= q <= end,
                q == tok_end(self.text(), p as int, end as int),
            decreases end - q,
        {
            if q >= end {
                proof {
                    assert(tok_end(self.text(), q as int, end as int) == q);
                }
                break ;
            }
            let c = self.input[q];
            if c == 32 || c == 9 || c == 13 {
                proof {
                    assert(tok_end(self.text(), q as int, end as int) == q);
                }
                break ;
            }
            q = q + 1;
        }
        q
    }

    /// Parses the well-formed literal token `s[p..q)`.
    fn parse_tok(&self, p: usize, q: usize) -> (r: i32)
        requires
            q <= self.text().len(),
            wf_tok(self.text(), p as int, q as int),
        ensures
            r as int == tok_val(self.text(), p as int, q as int),
    {
        let neg = self.input[p] == 45;
        let d0 = if neg {
            p + 1
        } else {
            p
        };
        let mut acc: i64 = 0;
        let mut j = d0;
        proof {
            lemma_digits_prefix(self.text(), d0 as int, d0 as int, q as int);
        }
        while j < q
            invariant
                q <= self.text().len(),
                wf_tok(self.text(), p as int, q as int),
                d0 == (if self.text()[p as int] == 45 {
                    p + 1
                } else {
                    p as int
                }),
                neg == (self.text()[p as int] == 45),
                d0 <= j <= q,
                acc as int == digits_val(self.text(), d0 as int, j as int),
                0 <= acc <= 2147483647,
            decreases q - j,
        {
            proof {
                lemma_digits_prefix(self.text(), d0 as int, (j + 1) as int, q as int);
                lemma_digits_nonneg(self.text(), d0 as int, (j + 1) as int);
            }
            let d = self.input[j];
            acc = acc * 10 + ((d - 48) as i64);
            j = j + 1;
        }
        let v: i64 = if neg {
            -acc
        } else {
            acc
        };
        v as i32
    }

    /// Creates a reader positioned after the header line, remembering the
    /// header's variable and clause counts.
    pub fn new(input: Vec<u8>) -> (r: Dimacs)
        requires
            wf_from(input@, 0),
            has_header(input@, 0),
        ensures
            r.inv(),
            r.text() == input@,
            r.remaining() == clauses_from(input@, header_next(input@, 0)),
            r.spec_var_count() == header_counts(input@, 0).0,
            r.spec_clause_count() == header_counts(input@, 0).1,
    {
        let n = input.len();
        let mut dimacs = Dimacs { input, pos: 0, var_count: 0, clause_count: 0 };
        loop
            invariant
                dimacs.text() == input@,
                n == dimacs.text().len(),
                0 <= dimacs.at() <= n,
                wf_from(dimacs.text(), dimacs.at()),
                has_header(dimacs.text(), dimacs.at()),
                header_next(dimacs.text(), 0) == header_next(dimacs.text(), dimacs.at()),
                header_start(dimacs.text(), 0) == header_start(dimacs.text(), dimacs.at()),
                dimacs.spec_var_count() == 0,
                dimacs.spec_clause_count() == 0,
                clauses_from(dimacs.text(), header_next(dimacs.text(), 0)) == clauses_from(
                    dimacs.text(),
                    header_next(dimacs.text(), dimacs.at()),
                ),
            decreases n - dimacs.at(),
        {
            let p = dimacs.pos;
            let end = dimacs.find_line_end(p);
            let q = dimacs.find_skip_ws(p, end);
            let next = if end < n {
                end + 1
            } else {
                end
            };
            if q < end && dimacs.input[q] == 112 {
                // the header line: take its last two numeric tokens as the
                // variable and clause counts, when they parse
                let t1s = dimacs.find_skip_ws(q + 1, end);
                let t1e = dimacs.find_tok_end(t1s, end);
                let t2s = dimacs.find_skip_ws(t1e, end);
                let t2e = dimacs.find_tok_end(t2s, end);
                let t3s = dimacs.find_skip_ws(t2e, end);
                let t3e = dimacs.find_tok_end(t3s, end);
                proof {
                    assert(header_start(dimacs.text(), p as int) == p);
                }
                if counts_ok(&dimacs, t2s, t2e) && counts_ok(&dimacs, t3s, t3e) {
                    let v1 = dimacs.parse_tok(t2s, t2e);
                    let v2 = dimacs.parse_tok(t3s, t3e);
                    proof {
                        lemma_digits_small(dimacs.text(), t2s as int, t2e as int);
                        lemma_digits_small(dimacs.text(), t3s as int, t3e as int);
                        assert(dimacs.text()[t2s as int] != 45);
                        assert(dimacs.text()[t3s as int] != 45);
                        assert(v1 as int == digits_val(dimacs.text(), t2s as int, t2e as int));
                        assert(v2 as int == digits_val(dimacs.text(), t3s as int, t3e as int));
                    }
                    if v1 >= 0 && v2 >= 0 {
                        dimacs.var_count = v1 as usize;
                        dimacs.clause_count = v2 as usize;
                    }
                }
                dimacs.pos = next;
                proof {
                    assert(header_next(dimacs.text(), p as int) == next);
                    assert(header_start(dimacs.text(), 0) == p as int);
                    assert(line_end(dimacs.text(), p as int) == end as int);
                    assert(skip_ws(dimacs.text(), p as int, end as int) == q as int);
                    assert(tok_end(
                        dimacs.text(),
                        skip_ws(dimacs.text(), q as int + 1, end as int),
                        end as int,
                    ) == t1e as int);
                    assert(skip_ws(dimacs.text(), t1e as int, end as int) == t2s as int);
                    assert(tok_end(dimacs.text(), t2s as int, end as int) == t2e as int);
                    assert(skip_ws(dimacs.text(), t2e as int, end as int) == t3s as int);
                    assert(tok_end(dimacs.text(), t3s as int, end as int) == t3e as int);
                    let s = dimacs.text();
                    assert(header_start(s, 0) == p as int);
                    if count_tok_wf(s, t2s as int, t2e as int) && count_tok_wf(
                        s,
                        t3s as int,
                        t3e as int,
                    ) {
                        assert(header_counts(s, 0) == (
                            digits_val(s, t2s as int, t2e as int),
                            digits_val(s, t3s as int, t3e as int),
                        ));
                        assert(dimacs.var_count as int == digits_val(s, t2s as int, t2e as int));
                    } else {
                        assert(header_counts(s, 0) == (0int, 0int));
                        assert(dimacs.var_count == 0);
                    }
                    assert(dimacs.spec_var_count() == header_counts(s, 0).0);
                    assert(dimacs.spec_clause_count() == header_counts(s, 0).1);
                }
                return dimacs;
            }
            dimacs.pos = next;
            proof {
                assert(p < n);
                assert(header_start(dimacs.text(), p as int) == header_start(
                    dimacs.text(),
                    next as int,
                ));
            }
        }
    }

    /// Fills `literals` with the next clause; false at the end of input.
    pub fn next(&mut self, literals: &mut Vec<i32>) -> (r: bool)
        requires
            old(self).inv(),
        ensures
            final(self).inv(),
            final(self).text() == old(self).text(),
            r == (old(self).remaining().len() > 0),
            r ==> final(literals)@ == old(self).remaining()[0] && final(self).remaining()
                == old(self).remaining().drop_first(),
            !r ==> final(self).remaining() == old(self).remaining() && final(literals)@ == old(
                literals,
            )@,
    {
        let n = self.input.len();
        loop
            invariant
                self.inv(),
                n == self.text().len(),
                self.text() == old(self).text(),
                self.remaining() == old(self).remaining(),
                literals@ == old(literals)@,
            decreases n - self.at(),
        {
            let p = self.pos;
            if p >= n {
                return false;
            }
            let end = self.find_line_end(p);
            let q0 = self.find_skip_ws(p, end);
            let next = if end < n {
                end + 1
            } else {
                end
            };
            if q0 >= end || self.input[q0] == 99 || self.input[q0] == 112 {
                self.pos = next;
                continue ;
            }
            // a clause line
            literals.clear();
            let ghost s = self.text();
            let ghost line_endg = end as int;
            let mut cur = p;
            proof {
                lemma_wf_from_here(s, p as int);
                assert(wf_line(s, p as int, end as int));
                assert(lits_in(s, p as int, end as int) == literals@ + lits_in(
                    s,
                    cur as int,
                    end as int,
                ));
            }
            loop
                invariant
                    self.inv(),
                    n == self.text().len(),
                    s == self.text(),
                    self.text() == old(self).text(),
                    self.remaining() == old(self).remaining(),
                    p == self.at(),
                    p <= cur <= end,
                    end == line_end(s, p as int),
                    end <= n,
                    wf_line(s, cur as int, end as int),
                    lits_in(s, p as int, end as int) == literals@ + lits_in(
                        s,
                        cur as int,
                        end as int,
                    ),
                ensures
                    self.inv(),
                    s == self.text(),
                    self.text() == old(self).text(),
                    self.remaining() == old(self).remaining(),
                    p == self.at(),
                    literals@ == lits_in(s, p as int, end as int),
                decreases end - cur,
            {
                let q = self.find_skip_ws(cur, end);
                if q >= end {
                    proof {
                        assert(lits_in(s, cur as int, end as int) =~= Seq::<i32>::empty());
                        assert(literals@ =~= lits_in(s, p as int, end as int));
                    }
                    break ;
                }
                let e = self.find_tok_end(q, end);
                let v = self.parse_tok(q, e);
                if v == 0 {
                    proof {
                        assert(lits_in(s, cur as int, end as int) =~= Seq::<i32>::empty());
                        assert(literals@ =~= lits_in(s, p as int, end as int));
                    }
                    break ;
                }
                let ghost lits0 = literals@;
                literals.push(v);
                proof {
                    assert(e > q);
                    assert(lits_in(s, cur as int, end as int) == seq![v] + lits_in(
                        s,
                        e as int,
                        end as int,
                    ));
                    assert(lits0.push(v) =~= lits0 + seq![v]);
                    assert(literals@ + lits_in(s, e as int, end as int) =~= lits0 + lits_in(
                        s,
                        cur as int,
                        end as int,
                    ));
                }
                cur = e;
            }
            self.pos = next;
            proof {
                assert(clauses_from(s, p as int) == seq![lits_in(s, p as int, end as int)]
                    + clauses_from(s, next as int));
                lemma_wf_from_here(s, p as int);
            }
            return true;
        }
    }

    /// The variable count the header announced, as ghost state.
    pub closed spec fn spec_var_count(self) -> int {
        self.var_count as int
    }

    /// The clause count the header announced, as ghost state.
    pub closed spec fn spec_clause_count(self) -> int {
        self.clause_count as int
    }

    /// The variable count the header announced.
    pub fn var_count(&self) -> (r: usize)
        ensures
            r == self.spec_var_count(),
    {
        self.var_count
    }

    /// The clause count the header announced.
    pub fn clause_count(&self) -> (r: usize)
        ensures
            r == self.spec_clause_count(),
    {
        self.clause_count
    }
}

/// A header token parses as a count.
fn counts_ok(d: &Dimacs, p: usize, q: usize) -> (r: bool)
    requires
        q <= d.text().len(),
        p <= q,
    ensures
        r == count_tok_wf(d.text(), p as int, q as int),
        r ==> wf_tok(d.text(), p as int, q as int),
{
    if p >= q {
        return false;
    }
    let mut j = p;
    let mut ok = true;
    while j < q
        invariant
            p <= j <= q <= d.text().len(),
            p < q,
            ok == (forall|k: int| p <= k < j ==> is_digit(#[trigger] d.text()[k])),
        decreases q - j,
    {
        let c = d.byte_at(j);
        if !(48 <= c && c <= 57) {
            ok = false;
        }
        j = j + 1;
    }
    if !ok {
        return false;
    }
    // bound the value by bounding the length
    if q - p > 9 {
        return false;
    }
    proof {
        lemma_digits_small(d.text(), p as int, q as int);
    }
    true
}

/// A digit run of at most nine digits stays far below the `i32` range.
proof fn lemma_digits_small(s: Seq<u8>, p: int, q: int)
    requires
        p < q,
        q - p <= 9,
        forall|j: int| p <= j < q ==> is_digit(#[trigger] s[j]),
    ensures
        0 <= digits_val(s, p, q) <= 1999999999,
        wf_tok(s, p, q) || s[p] == 45,
    decreases q - p,
{
    lemma_digits_bound(s, p, q, 9);
}

/// Powers of ten, for bounding short digit runs.
spec fn ten_pow(k: nat) -> int
    decreases k,
{
    if k == 0 {
        1
    } else {
        10 * ten_pow((k - 1) as nat)
    }
}

/// A run of at most `k` digits is below `10^k`.
proof fn lemma_digits_bound(s: Seq<u8>, p: int, q: int, k: nat)
    requires
        p <= q,
        q - p <= k,
        k <= 9,
        forall|j: int| p <= j < q ==> is_digit(#[trigger] s[j]),
    ensures
        0 <= digits_val(s, p, q) < ten_pow((q - p) as nat),
        digits_val(s, p, q) <= 1999999999,
    decreases q - p,
{
    reveal_with_fuel(ten_pow, 11);
    assert(ten_pow(9) == 1000000000);
    if p < q {
        lemma_digits_bound(s, p, q - 1, (k - 1) as nat);
        assert(ten_pow((q - p) as nat) == 10 * ten_pow((q - 1 - p) as nat));
        assert(digits_val(s, p, q) == digits_val(s, p, q - 1) * 10 + (s[q - 1] - 48));
        assert(digits_val(s, p, q - 1) * 10 + (s[q - 1] - 48) < 10 * ten_pow(
            (q - 1 - p) as nat,
        )) by (nonlinear_arith)
            requires
                digits_val(s, p, q - 1) < ten_pow((q - 1 - p) as nat),
                0 <= s[q - 1] - 48 <= 9,
                digits_val(s, p, q - 1) >= 0,
        ;
        lemma_ten_pow_le(((q - p) as nat), 9);
    }
}

/// `ten_pow` grows with its argument.
proof fn lemma_ten_pow_le(a: nat, b: nat)
    requires
        a <= b,
        b <= 9,
    ensures
        ten_pow(a) <= ten_pow(b),
        ten_pow(a) >= 1,
    decreases b,
{
    reveal_with_fuel(ten_pow, 11);
}

/// A digit-run prefix never exceeds the full run's value.
proof fn lemma_digits_prefix(s: Seq<u8>, p: int, j: int, q: int)
    requires
        p <= j <= q,
        forall|k: int| p <= k < q ==> is_digit(#[trigger] s[k]),
    ensures
        0 <= digits_val(s, p, j) <= digits_val(s, p, q),
    decreases q - j,
{
    if j < q {
        lemma_digits_prefix(s, p, j + 1, q);
        lemma_digits_nonneg(s, p, j);
        assert(digits_val(s, p, j + 1) == digits_val(s, p, j) * 10 + (s[j] - 48));
        assert(digits_val(s, p, j) * 10 >= digits_val(s, p, j)) by (nonlinear_arith)
            requires
                digits_val(s, p, j) >= 0,
        ;
    } else {
        lemma_digits_nonneg(s, p, j);
    }
}

/// Digit runs are non-negative.
proof fn lemma_digits_nonneg(s: Seq<u8>, p: int, q: int)
    requires
        forall|k: int| p <= k < q ==> is_digit(#[trigger] s[k]),
    ensures
        digits_val(s, p, q) >= 0,
    decreases q - p,
{
    if p < q {
        lemma_digits_nonneg(s, p, q - 1);
        assert(digits_val(s, p, q - 1) * 10 >= 0) by (nonlinear_arith)
            requires
                digits_val(s, p, q - 1) >= 0,
        ;
    }
}

/// Unfolds `wf_from` at the current line.
proof fn lemma_wf_from_here(s: Seq<u8>, p: int)
    requires
        0 <= p < s.len(),
        wf_from(s, p),
    ensures
        skip_line(s, p, line_end(s, p)) || wf_line(s, p, line_end(s, p)),
        wf_from(
            s,
            if line_end(s, p) < s.len() {
                line_end(s, p) + 1
            } else {
                line_end(s, p)
            },
        ),
{
    lemma_line_end_bounds(s, p);
}

/// The line end lies between `p` and the end of input.
proof fn lemma_line_end_bounds(s: Seq<u8>, p: int)
    requires
        0 <= p <= s.len(),
    ensures
        p <= line_end(s, p) <= s.len(),
    decreases s.len() - p,
{
    if p < s.len() && s[p] != 10 {
        lemma_line_end_bounds(s, p + 1);
    }
}


/// A count token: a run of one to nine digits.
pub open spec fn count_tok_wf(s: Seq<u8>, p: int, q: int) -> bool {
    &&& p < q
    &&& q - p <= 9
    &&& forall|j: int| p <= j < q ==> is_digit(#[trigger] s[j])
}

/// Start position of the first header line at or after `p`.
pub open spec fn header_start(s: Seq<u8>, p: int) -> int
    decreases s.len() - p when 0 <= p <= s.len() via header_start_dec
{
    if p >= s.len() {
        p
    } else {
        let end = line_end(s, p);
        let q = skip_ws(s, p, end);
        if q < end && s[q] == 112 {
            p
        } else {
            header_start(
                s,
                if end < s.len() {
                    end + 1
                } else {
                    end
                },
            )
        }
    }
}

#[via_fn]
proof fn header_start_dec(s: Seq<u8>, p: int) {
    if 0 <= p < s.len() {
        lemma_line_end_bounds(s, p);
    }
}

/// The counts the first header line announces: the values of its second
/// and third tokens after the marker, when both are short digit runs;
/// zeroes otherwise.
pub open spec fn header_counts(s: Seq<u8>, p: int) -> (int, int) {
    let h = header_start(s, p);
    let end = line_end(s, h);
    let q = skip_ws(s, h, end);
    let t1e = tok_end(s, skip_ws(s, q + 1, end), end);
    let t2s = skip_ws(s, t1e, end);
    let t2e = tok_end(s, t2s, end);
    let t3s = skip_ws(s, t2e, end);
    let t3e = tok_end(s, t3s, end);
    if count_tok_wf(s, t2s, t2e) && count_tok_wf(s, t3s, t3e) {
        (digits_val(s, t2s, t2e), digits_val(s, t3s, t3e))
    } else {
        (0, 0)
    }
}

/// The header line starting at `h` is fully formed: its first token is
/// exactly `p`, its second token is exactly `cnf`, and its third and
/// fourth tokens are well-formed counts.
pub open spec fn header_line_wf(s: Seq<u8>, h: int) -> bool {
    let end = line_end(s, h);
    let q = skip_ws(s, h, end);
    let t1s = skip_ws(s, q + 1, end);
    let t1e = tok_end(s, t1s, end);
    let t2s = skip_ws(s, t1e, end);
    let t2e = tok_end(s, t2s, end);
    let t3s = skip_ws(s, t2e, end);
    let t3e = tok_end(s, t3s, end);
    &&& q < end && s[q] == 112
    &&& tok_end(s, q, end) == q + 1
    &&& t1e == t1s + 3 && t1s + 3 <= end
    &&& s[t1s] == 99 && s[t1s + 1] == 110 && s[t1s + 2] == 102
    &&& count_tok_wf(s, t2s, t2e)
    &&& count_tok_wf(s, t3s, t3e)
}

/// A header line (one whose first token is `p`) occurs at or after `p`,
/// and the first such line is fully formed.
pub open spec fn has_header(s: Seq<u8>, p: int) -> bool
    decreases s.len() - p when 0 <= p <= s.len() via has_header_dec
{
    if p >= s.len() {
        false
    } else {
        let end = line_end(s, p);
        let q = skip_ws(s, p, end);
        if q < end && s[q] == 112 {
            header_line_wf(s, p)
        } else {
            has_header(
                s,
                if end < s.len() {
                    end + 1
                } else {
                    end
                },
            )
        }
    }
}

/// Position just after the first header line at or after `p`.
pub open spec fn header_next(s: Seq<u8>, p: int) -> int
    decreases s.len() - p when 0 <= p <= s.len() via header_next_dec
{
    if p >= s.len() {
        p
    } else {
        let end = line_end(s, p);
        let next = if end < s.len() {
            end + 1
        } else {
            end
        };
        let q = skip_ws(s, p, end);
        if q < end && s[q] == 112 {
            next
        } else {
            header_next(s, next)
        }
    }
}


/// Every literal of a well-formed clause line is nonzero and fits an
/// `i32` both ways.
proof fn lemma_line_lits_wf(s: Seq<u8>, p: int, end: int)
    requires
        0 <= p <= end <= s.len(),
        wf_line(s, p, end),
    ensures
        forall|k: int|
            0 <= k < lits_in(s, p, end).len() ==> (#[trigger] lits_in(s, p, end)[k]) != 0
                && -2147483647 <= lits_in(s, p, end)[k] <= 2147483647,
    decreases end - p,
{
    lemma_skip_ws_bounds(s, p, end);
    let q = skip_ws(s, p, end);
    if q < end {
        lemma_tok_end_bounds(s, q, end);
        let e = tok_end(s, q, end);
        if tok_val(s, q, e) != 0 {
            lemma_line_lits_wf(s, e, end);
            assert forall|k: int|
                0 <= k < lits_in(s, p, end).len() implies (#[trigger] lits_in(s, p, end)[k])
                != 0 && -2147483647 <= lits_in(s, p, end)[k] <= 2147483647 by {
                if k == 0 {
                } else {
                    assert(lits_in(s, p, end)[k] == lits_in(s, e, end)[k - 1]);
                }
            }
        }
    }
}

/// Every literal of every remaining clause is nonzero and fits an `i32`
/// both ways.
pub proof fn lemma_remaining_lits_wf(s: Seq<u8>, p: int)
    requires
        0 <= p <= s.len(),
        wf_from(s, p),
    ensures
        forall|i: int, k: int|
            0 <= i < clauses_from(s, p).len() && 0 <= k < clauses_from(s, p)[i].len() ==> ({
                let l = #[trigger] clauses_from(s, p)[i][k];
                l != 0 && -2147483647 <= l <= 2147483647
            }),
    decreases s.len() - p,
{
    if p < s.len() {
        let end = line_end(s, p);
        lemma_line_end_bounds(s, p);
        let next = if end < s.len() {
            end + 1
        } else {
            end
        };
        lemma_remaining_lits_wf(s, next);
        if skip_line(s, p, end) {
            assert(clauses_from(s, p) == clauses_from(s, next));
        }
        if !skip_line(s, p, end) {
            lemma_line_lits_wf(s, p, end);
            assert forall|i: int, k: int|
                0 <= i < clauses_from(s, p).len() && 0 <= k < clauses_from(s, p)[i].len() implies ({
                let l = #[trigger] clauses_from(s, p)[i][k];
                l != 0 && -2147483647 <= l <= 2147483647
            }) by {
                if i == 0 {
                    assert(clauses_from(s, p)[0] == lits_in(s, p, end));
                } else {
                    assert(clauses_from(s, p)[i] == clauses_from(s, next)[i - 1]);
                }
            }
        }
    }
}


impl Dimacs {
    /// Conservative validity test for raw input: when it accepts, the
    /// bytes hold a header line and every clause line parses.  (Literal
    /// tokens of at most nine digits are accepted.)
    pub fn parses(input: &Vec<u8>) -> (r: bool)
        ensures
            r ==> wf_from(input@, 0) && has_header(input@, 0),
    {
        let probe = Dimacs { input: clone_bytes(input), pos: 0, var_count: 0, clause_count: 0 };
        let n = probe.input.len();
        let mut p: usize = 0;
        let mut seen_header = false;
        loop
            invariant
                probe.text() == input@,
                n == input@.len(),
                0 <= p <= n,
                wf_from(input@, p as int) ==> wf_from(input@, 0),
                seen_header ==> has_header(input@, 0),
                !seen_header ==> (has_header(input@, p as int) ==> has_header(input@, 0)),
            decreases n - p,
        {
            if p >= n {
                return seen_header;
            }
            let end = probe.find_line_end(p);
            let q0 = probe.find_skip_ws(p, end);
            let next = if end < n {
                end + 1
            } else {
                end
            };
            if q0 >= end || probe.input[q0] == 99 || probe.input[q0] == 112 {
                if q0 < end && probe.input[q0] == 112 && !seen_header {
                    if !header_line_ok(&probe, p, q0, end) {
                        return false;
                    }
                    seen_header = true;
                }
                p = next;
                continue ;
            }
            // a clause line: walk its tokens
            let mut cur = p;
            let mut line_ok = true;
            let mut done = false;
            while !done
                invariant
                    probe.text() == input@,
                    n == input@.len(),
                    p <= cur <= end,
                    end == line_end(input@, p as int),
                    end <= n,
                    !done ==> line_ok,
                    !done ==> (wf_line(input@, cur as int, end as int) ==> wf_line(
                        input@,
                        p as int,
                        end as int,
                    )),
                    done && line_ok ==> wf_line(input@, p as int, end as int),
                decreases end - cur + (if done {
                    0int
                } else {
                    1int
                }),
            {
                let q = probe.find_skip_ws(cur, end);
                if q >= end {
                    done = true;
                } else {
                    let e = probe.find_tok_end(q, end);
                    if !tok_ok(&probe, q, e) {
                        line_ok = false;
                        done = true;
                    } else {
                        let v = probe.parse_tok(q, e);
                        if v == 0 {
                            done = true;
                        } else {
                            cur = e;
                        }
                    }
                }
            }
            if !line_ok {
                return false;
            }
            p = next;
        }
    }
}

/// The full shape test behind `header_line_wf`, on a located header line.
fn header_line_ok(d: &Dimacs, p: usize, q0: usize, end: usize) -> (r: bool)
    requires
        p <= q0 < end <= d.text().len(),
        end == line_end(d.text(), p as int),
        q0 == skip_ws(d.text(), p as int, end as int),
        d.text()[q0 as int] == 112,
    ensures
        r == header_line_wf(d.text(), p as int),
{
    let t0e = d.find_tok_end(q0, end);
    if t0e != q0 + 1 {
        return false;
    }
    let t1s = d.find_skip_ws(q0 + 1, end);
    let t1e = d.find_tok_end(t1s, end);
    if t1e - t1s != 3 {
        return false;
    }
    if !(d.byte_at(t1s) == 99 && d.byte_at(t1s + 1) == 110 && d.byte_at(t1s + 2) == 102) {
        return false;
    }
    let t2s = d.find_skip_ws(t1e, end);
    let t2e = d.find_tok_end(t2s, end);
    if !counts_ok(d, t2s, t2e) {
        return false;
    }
    let t3s = d.find_skip_ws(t2e, end);
    let t3e = d.find_tok_end(t3s, end);
    counts_ok(d, t3s, t3e)
}

/// Copies the bytes; the probe reader owns its input.
fn clone_bytes(v: &Vec<u8>) -> (r: Vec<u8>)
    ensures
        r@ == v@,
{
    let mut out: Vec<u8> = Vec::new();
    let mut i: usize = 0;
    while i < v.len()
        invariant
            i <= v@.len(),
            out@ == v@.take(i as int),
        decreases v@.len() - i,
    {
        out.push(v[i]);
        i = i + 1;
        proof {
            assert(out@ =~= v@.take(i as int));
        }
    }
    proof {
        assert(v@.take(v@.len() as int) =~= v@);
    }
    out
}

/// A literal token of at most nine digits after an optional sign.
fn tok_ok(d: &Dimacs, p: usize, q: usize) -> (r: bool)
    requires
        q <= d.text().len(),
        p <= q,
    ensures
        r ==> wf_tok(d.text(), p as int, q as int),
{
    if p >= q {
        return false;
    }
    let neg = {
        let c0 = d.byte_at(p);
        c0 == 45
    };
    let d0 = if neg {
        p + 1
    } else {
        p
    };
    if d0 >= q {
        return false;
    }
    if q - d0 > 9 {
        return false;
    }
    let mut j = d0;
    while j < q
        invariant
            p <= d0 <= j <= q <= d.text().len(),
            forall|k: int| d0 <= k < j ==> is_digit(#[trigger] d.text()[k]),
        decreases q - j,
    {
        let c = d.byte_at(j);
        if !(48 <= c && c <= 57) {
            return false;
        }
        j = j + 1;
    }
    proof {
        lemma_digits_small(d.text(), d0 as int, q as int);
    }
    true
}

impl Dimacs {
    /// One input byte, by position.
    fn byte_at(&self, j: usize) -> (r: u8)
        requires
            j < self.text().len(),
        ensures
            r == self.text()[j as int],
    {
        self.input[j]
    }
}

} // verus!
