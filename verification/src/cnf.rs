//! A flat clause store: clauses are spans into one shared literal vector.

use vstd::prelude::*;

verus! {

/// Clauses in conjunctive normal form, stored as `(position, length)`
/// spans over one literal vector.
pub struct Cnf {
    clauses: Vec<(usize, usize)>,
    literals: Vec<i32>,
}

impl Cnf {
    /// The spans, as ghost state.
    pub closed spec fn spans(self) -> Seq<(usize, usize)> {
        self.clauses@
    }

    /// The literal pool, as ghost state.
    pub closed spec fn pool(self) -> Seq<i32> {
        self.literals@
    }

    /// Every span lies inside the pool.
    pub open spec fn inv(self) -> bool {
        forall|i: int|
            0 <= i < self.spans().len() ==> (#[trigger] self.spans()[i]).0 + self.spans()[i].1
                <= self.pool().len()
    }

    /// The contents of clause `i`.
    pub open spec fn clause_at(self, i: int) -> Seq<i32> {
        self.pool().subrange(
            self.spans()[i].0 as int,
            self.spans()[i].0 + self.spans()[i].1,
        )
    }

    /// An empty store.
    pub fn new() -> (r: Cnf)
        ensures
            r.inv(),
            r.spans().len() == 0,
            r.pool().len() == 0,
    {
        Cnf { clauses: Vec::new(), literals: Vec::new() }
    }

    /// Appends a clause; returns its index.
    pub fn add(&mut self, clause: &Vec<i32>) -> (r: usize)
        requires
            old(self).inv(),
            old(self).pool().len() + clause@.len() <= usize::MAX,
        ensures
            final(self).inv(),
            r == old(self).spans().len(),
            final(self).spans() == old(self).spans().push(
                (old(self).pool().len() as usize, clause@.len() as usize),
            ),
            final(self).pool() == old(self).pool() + clause@,
            final(self).clause_at(r as int) == clause@,
    {
        let pos = self.literals.len();
        let len = clause.len();
        let index = self.clauses.len();
        self.clauses.push((pos, len));
        let mut i: usize = 0;
        while i < len
            invariant
                len == clause@.len(),
                i <= len,
                self.literals@ == old(self).pool() + clause@.take(i as int),
                self.clauses@ == old(self).spans().push((pos, len)),
                pos == old(self).pool().len(),
            decreases len - i,
        {
            let ghost l0 = self.literals@;
            self.literals.push(clause[i]);
            i = i + 1;
            proof {
                assert(self.literals@ =~= old(self).pool() + clause@.take(i as int));
            }
        }
        proof {
            assert(clause@.take(len as int) =~= clause@);
            assert forall|i2: int|
                0 <= i2 < self.spans().len() implies (#[trigger] self.spans()[i2]).0
                + self.spans()[i2].1 <= self.pool().len() by {
                if i2 < old(self).spans().len() {
                    assert(old(self).spans()[i2].0 + old(self).spans()[i2].1 <= old(
                        self,
                    ).pool().len());
                }
            }
            assert(self.clause_at(index as int) =~= clause@);
        }
        index
    }

    /// The clause at `index`, copied out, or nothing past the end.
    pub fn get(&self, index: usize) -> (r: Option<Vec<i32>>)
        requires
            self.inv(),
        ensures
            match r {
                Some(v) => index < self.spans().len() && v@ == self.clause_at(index as int),
                None => index >= self.spans().len(),
            },
    {
        if index >= self.clauses.len() {
            return None;
        }
        let (pos, len) = self.clauses[index];
        let total = self.literals.len();
        let mut out: Vec<i32> = Vec::new();
        let mut i: usize = 0;
        proof {
            assert(self.spans()[index as int].0 + self.spans()[index as int].1
                <= self.pool().len());
            assert(out@ =~= self.pool().subrange(pos as int, pos as int));
        }
        while i < len
            invariant
                self.inv(),
                index < self.spans().len(),
                (pos, len) == self.spans()[index as int],
                pos + len <= self.pool().len(),
                total == self.pool().len(),
                i <= len,
                out@ == self.pool().subrange(pos as int, pos + i),
            decreases len - i,
        {
            out.push(self.literals[pos + i]);
            i = i + 1;
            proof {
                assert(out@ =~= self.pool().subrange(pos as int, pos + i));
            }
        }
        Some(out)
    }

    /// All clauses, copied out in order.
    pub fn clauses(&self) -> (r: Vec<Vec<i32>>)
        requires
            self.inv(),
        ensures
            r@.len() == self.spans().len(),
            forall|i: int| 0 <= i < r@.len() ==> (#[trigger] r@[i])@ == self.clause_at(i),
    {
        let mut out: Vec<Vec<i32>> = Vec::new();
        let mut i: usize = 0;
        while i < self.clauses.len()
            invariant
                self.inv(),
                i <= self.spans().len(),
                out@.len() == i,
                forall|j: int| 0 <= j < i ==> (#[trigger] out@[j])@ == self.clause_at(j),
            decreases self.spans().len() - i,
        {
            let c = self.get(i);
            match c {
                Some(v) => {
                    out.push(v);
                },
                None => {
                    proof {
                        assert(false);
                    }
                },
            }
            i = i + 1;
        }
        out
    }

    /// Number of clauses.
    pub fn nbclause(&self) -> (r: usize)
        ensures
            r == self.spans().len(),
    {
        self.clauses.len()
    }

    /// Number of distinct variables across all clauses, counted by the
    /// absolute value of the literals.
    pub fn nbvars(&self) -> (r: usize)
        ensures
            r == distinct_abs_upto(self.pool(), self.pool().len() as int),
    {
        let n = self.literals.len();
        let mut count: usize = 0;
        let mut i: usize = 0;
        while i < n
            invariant
                n == self.pool().len(),
                i <= n,
                count == distinct_abs_upto(self.pool(), i as int),
                count <= i,
            decreases n - i,
        {
            let li = self.literals[i];
            let mut fresh = true;
            let mut j: usize = 0;
            while j < i
                invariant
                    n == self.pool().len(),
                    i < n,
                    j <= i,
                    li == self.pool()[i as int],
                    fresh == (forall|j2: int|
                        0 <= j2 < j ==> abs_of(#[trigger] self.pool()[j2]) != abs_of(
                            self.pool()[i as int],
                        )),
                decreases i - j,
            {
                let a = self.literals[j] as i64;
                let b = self.literals[i] as i64;
                let aa = if a < 0 {
                    -a
                } else {
                    a
                };
                let bb = if b < 0 {
                    -b
                } else {
                    b
                };
                if aa == bb {
                    fresh = false;
                }
                j = j + 1;
            }
            if fresh {
                count = count + 1;
            }
            i = i + 1;
        }
        count
    }
}

/// The absolute value of a literal, wide enough to hold every `i32`.
pub open spec fn abs_of(l: i32) -> int {
    if l >= 0 {
        l as int
    } else {
        -(l as int)
    }
}

/// Number of positions that introduce a new absolute value.
pub open spec fn distinct_abs_upto(s: Seq<i32>, k: int) -> nat
    decreases k,
{
    if k <= 0 {
        0nat
    } else {
        distinct_abs_upto(s, k - 1) + (if forall|j: int|
            0 <= j < k - 1 ==> abs_of(#[trigger] s[j]) != abs_of(s[k - 1]) {
            1nat
        } else {
            0nat
        })
    }
}

} // verus!
