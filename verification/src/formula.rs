//! The word layer: fixed-width multi-bit values over a shared bit arena.
//!
//! A `Word` is an ordered vector of slot indices, least significant first.
//! A word owns one arena reference per position; operations that build a new
//! word hand out exactly the references the result carries and release every
//! temporary before returning.  Contracts state this exactly: the external
//! reference count of each slot grows by precisely the number of times the
//! result mentions it.
//!
//! Values: a word over constant bits denotes a natural number below
//! two to its width (`Formula::value`), and every combinator's contract pins
//! the resulting value down.

use vstd::prelude::*;
use vstd::arithmetic::power2::pow2;
use crate::arith::nbit;
use crate::arith::lemma_nbit_mod_pow2;
use crate::arith::lemma_nbit_add_pow2;
use crate::arith::lemma_mod_pow2_small;
use crate::bits::Bit;
use crate::bits::Bits;
use crate::bits::count_of;
use crate::bits::bounded_growth;
use crate::bits::lemma_growth_trans;
use crate::bits::lemma_room_growth;
use crate::bits::lemma_ext_live;
use crate::bits::lemma_ext_nonneg;
use crate::bits::lemma_n_bound;
use crate::bits::lemma_rc_le_total;
use crate::bits::lemma_count_push;
use crate::bits::lemma_count_member;
use crate::bits::lemma_count_split;
use crate::bits::lemma_count_first;
use crate::bits::lemma_quiescent;
use crate::bits::lemma_word_value_bits;
use crate::bits::lemma_bits_word_value;
use crate::bits::lemma_word_value_none;
use crate::bits::lemma_word_value_stable;
use crate::bits::lemma_word_value_bound;

verus! {

/// A fixed-width word: slot indices of its bits, least significant first.
pub struct Word {
    ids: Vec<u32>,
}

impl View for Word {
    type V = Seq<u32>;

    closed spec fn view(&self) -> Seq<u32> {
        self.ids@
    }
}

impl Word {
    /// The width of the word.
    pub fn width(&self) -> (r: usize)
        ensures
            r == self@.len(),
    {
        self.ids.len()
    }
}

/// The formula store: a bit arena that words of this layer share.
pub struct Formula {
    bits: Bits,
}

impl Formula {
    /// The underlying arena, as ghost state.
    pub closed spec fn arena(self) -> Bits {
        self.bits
    }

    /// Well-formedness: the arena invariant.
    pub open spec fn inv(self) -> bool {
        self.arena().inv()
    }

    /// Headroom for `k` more allocations and reference-count increments.
    pub open spec fn room(self, k: nat) -> bool {
        self.arena().room(k)
    }

    /// External references to a slot (what words and callers hold).
    pub open spec fn ext_or0(self, t: u32) -> int {
        self.arena().ext_or0(t)
    }

    /// A well-formed word of this formula: every bit is in range and the
    /// word's references are covered by the slots' external counts.
    pub open spec fn wf_word(self, w: Word) -> bool {
        &&& forall|k: int| 0 <= k < w@.len() ==> (#[trigger] w@[k]) < self.arena().n()
        &&& forall|t: u32| self.arena().ext_or0(t) >= #[trigger] count_of(w@, t)
    }

    /// The value a word denotes, when all its bits are constants.
    pub open spec fn value(self, w: Word) -> Option<nat> {
        self.arena().word_value(w@)
    }

    /// Number of live arena slots.
    pub open spec fn live_count(self) -> nat {
        live_count_upto(self.arena().slots(), self.arena().n() as int)
    }

    /// Creates an empty formula store.
    pub fn new() -> (r: Formula)
        ensures
            r.inv(),
            r.arena().n() == 0,
            r.live_count() == 0,
    {
        Formula { bits: Bits::new() }
    }
}

/// Number of live slots among the first `k`.
pub open spec fn live_count_upto(s: Seq<(u32, Bit)>, k: int) -> nat
    decreases k,
{
    if k <= 0 {
        0nat
    } else {
        live_count_upto(s, k - 1) + (if s[k - 1].0 >= 1 {
            1nat
        } else {
            0nat
        })
    }
}

/// What every word-producing operation guarantees: the arena stays well
/// formed, the result is a well-formed word, each slot's external count
/// grows by exactly the number of references the result carries, and every
/// slot with outstanding external references keeps its kind.
pub open spec fn wresult(pre: Formula, post: Formula, r: Word) -> bool {
    &&& post.inv()
    &&& pre.arena().n() <= post.arena().n()
    &&& post.wf_word(r)
    &&& forall|t: u32|
        #[trigger] post.arena().ext_or0(t) == pre.arena().ext_or0(t) + count_of(r@, t)
    &&& holders_kept(pre, post)
}

/// Slots that callers hold references to keep their kind.
pub open spec fn holders_kept(pre: Formula, post: Formula) -> bool {
    forall|t: u32|
        t < pre.arena().n() && pre.arena().ext_or0(t) >= 1 ==> #[trigger] post.arena().kind_at(t)
            == pre.arena().kind_at(t)
}

/// Arena growth bound, lifted to the formula layer.
pub open spec fn grown(pre: Formula, post: Formula, c: nat) -> bool {
    bounded_growth(pre.arena(), post.arena(), c)
}

/// Any other word stays well formed when external counts only grow.
pub proof fn lemma_wf_word_preserved(pre: Formula, post: Formula, w: Word)
    requires
        pre.wf_word(w),
        pre.arena().n() <= post.arena().n(),
        forall|t: u32| post.arena().ext_or0(t) >= #[trigger] pre.arena().ext_or0(t),
    ensures
        post.wf_word(w),
{
    assert forall|t: u32| post.arena().ext_or0(t) >= #[trigger] count_of(w@, t) by {
        assert(pre.arena().ext_or0(t) >= count_of(w@, t));
    }
}

/// A held word's bits — and hence its value — survive any operation.
pub proof fn lemma_value_preserved(pre: Formula, post: Formula, w: Word)
    requires
        pre.wf_word(w),
        pre.arena().n() <= post.arena().n(),
        holders_kept(pre, post),
    ensures
        post.value(w) == pre.value(w),
        forall|k: int|
            0 <= k < w@.len() ==> post.arena().bit_const(#[trigger] w@[k])
                == pre.arena().bit_const(w@[k]),
{
    assert forall|k: int|
        0 <= k < w@.len() implies post.arena().bit_const(#[trigger] w@[k])
        == pre.arena().bit_const(w@[k]) by {
        lemma_count_member(w@, k);
        assert(pre.arena().ext_or0(w@[k]) >= 1);
        assert(post.arena().kind_at(w@[k]) == pre.arena().kind_at(w@[k]));
    }
    lemma_word_value_stable(pre.arena(), post.arena(), w@);
}

/// After the last external reference is returned, nothing is live: the
/// arena's refcounts, and with them their sum, are all zero.
pub proof fn lemma_all_released(f: Formula)
    requires
        f.inv(),
        forall|t: u32| t < f.arena().n() ==> #[trigger] f.arena().ext_at(t) == 0,
    ensures
        f.live_count() == 0,
        f.arena().rc_total() == 0,
{
    lemma_quiescent(f.arena());
    lemma_n_bound(f.arena());
    assert forall|i: int|
        0 <= i < f.arena().n() implies (#[trigger] f.arena().slots()[i].0) == 0 by {
        assert(f.arena().rc_at(i as u32) == 0);
    }
    lemma_live_count_zero(f.arena().slots(), f.arena().n() as int);
}

proof fn lemma_live_count_zero(s: Seq<(u32, Bit)>, k: int)
    requires
        k <= s.len(),
        forall|i: int| 0 <= i < k ==> (#[trigger] s[i].0) == 0,
    ensures
        live_count_upto(s, k) == 0,
    decreases k,
{
    if k > 0 {
        lemma_live_count_zero(s, k - 1);
    }
}

impl Formula {
    /// A fresh word of unconstrained variables.
    pub fn word(&mut self, width: usize) -> (r: Word)
        requires
            old(self).inv(),
            old(self).room(3 * (width as nat) + 3),
        ensures
            wresult(*old(self), *final(self), r),
            grown(*old(self), *final(self), 3 * (width as nat)),
            r@.len() == width,
            forall|k: int|
                0 <= k < width ==> final(self).arena().kind_at(#[trigger] r@[k]) == Bit::Var,
    {
        let ghost orig = *self;
        let mut ids: Vec<u32> = Vec::new();
        let mut i: usize = 0;
        while i < width
            invariant
                orig.inv(),
                orig.room(3 * (width as nat) + 3),
                i <= width,
                ids@.len() == i,
                self.inv(),
                orig.arena().n() <= self.arena().n(),
                bounded_growth(orig.arena(), self.arena(), (3 * i) as nat),
                forall|k: int| 0 <= k < i ==> (#[trigger] ids@[k]) < self.arena().n(),
                forall|t: u32|
                    #[trigger] self.arena().ext_or0(t) == orig.arena().ext_or0(t) + count_of(
                        ids@,
                        t,
                    ),
                holders_kept(orig, *self),
                forall|k: int|
                    0 <= k < i ==> self.arena().kind_at(#[trigger] ids@[k]) == Bit::Var,
            decreases width - i,
        {
            let ghost prev = *self;
            proof {
                lemma_room_growth(orig.arena(), self.arena(), (3 * i) as nat, 3);
            }
            let ghost ids0 = ids@;
            let id = self.bits.var();
            ids.push(id);
            i = i + 1;
            proof {
                lemma_growth_trans(
                    orig.arena(),
                    prev.arena(),
                    self.arena(),
                    (3 * (i - 1)) as nat,
                    3,
                );
                assert forall|t: u32|
                    #[trigger] self.arena().ext_or0(t) == orig.arena().ext_or0(t) + count_of(
                    ids@,
                    t,
                ) by {
                    lemma_count_push(ids0, id, t);
                    assert(self.arena().ext_or0(t) == prev.arena().ext_or0(t) + (if t == id {
                        1int
                    } else {
                        0int
                    }));
                    assert(prev.arena().ext_or0(t) == orig.arena().ext_or0(t) + count_of(
                        ids0,
                        t,
                    ));
                }
                assert forall|k: int|
                    0 <= k < i implies self.arena().kind_at(#[trigger] ids@[k]) == Bit::Var by {
                    if k < i - 1 {
                        assert(prev.arena().ext_or0(ids@[k]) >= 1) by {
                            lemma_count_member(ids0, k);
                            assert(ids0[k] == ids@[k]);
                            lemma_ext_nonneg(orig.arena(), ids@[k]);
                            assert(prev.arena().ext_or0(ids@[k]) == orig.arena().ext_or0(ids@[k])
                                + count_of(ids0, ids@[k]));
                        }
                    }
                }
            }
        }
        proof {
            assert forall|t: u32| self.arena().ext_or0(t) >= #[trigger] count_of(ids@, t) by {
                lemma_ext_nonneg(orig.arena(), t);
            }
        }
        Word { ids }
    }

    /// The word of constants spelling out `n` in `width` bits, low bit
    /// first; bits past the width of `n` are `false`.
    pub fn from_u64(&mut self, n: u64, width: usize) -> (r: Word)
        requires
            old(self).inv(),
            old(self).room(3 * (width as nat) + 3),
        ensures
            wresult(*old(self), *final(self), r),
            grown(*old(self), *final(self), 3 * (width as nat)),
            r@.len() == width,
            final(self).value(r) == Some((n as nat) % pow2(width as nat)),
    {
        let ghost orig = *self;
        let mut ids: Vec<u32> = Vec::new();
        let mut m: u64 = n;
        let mut i: usize = 0;
        proof {
            vstd::arithmetic::power2::lemma2_to64();
        }
        while i < width
            invariant
                orig.inv(),
                orig.room(3 * (width as nat) + 3),
                i <= width,
                ids@.len() == i,
                m as nat == (n as nat) / pow2(i as nat),
                self.inv(),
                orig.arena().n() <= self.arena().n(),
                bounded_growth(orig.arena(), self.arena(), (3 * i) as nat),
                forall|k: int| 0 <= k < i ==> (#[trigger] ids@[k]) < self.arena().n(),
                forall|t: u32|
                    #[trigger] self.arena().ext_or0(t) == orig.arena().ext_or0(t) + count_of(
                        ids@,
                        t,
                    ),
                holders_kept(orig, *self),
                forall|k: int|
                    0 <= k < i ==> self.arena().bit_const(#[trigger] ids@[k]) == Some(
                        nbit(n as nat, k as nat),
                    ),
            decreases width - i,
        {
            let ghost prev = *self;
            proof {
                lemma_room_growth(orig.arena(), self.arena(), (3 * i) as nat, 3);
                crate::arith::lemma_nbit_div_pow2(n as nat, i as nat, 0);
                crate::arith::lemma_nbit_zero((n as nat) / pow2(i as nat));
                vstd::arithmetic::power2::lemma2_to64();
                assert(nbit(n as nat, i as nat) == (m % 2 == 1));
            }
            let ghost ids0 = ids@;
            let id = self.bits.val(m % 2 == 1);
            ids.push(id);
            proof {
                lemma_growth_trans(orig.arena(), prev.arena(), self.arena(), (3 * i) as nat, 3);
                assert forall|t: u32|
                    #[trigger] self.arena().ext_or0(t) == orig.arena().ext_or0(t) + count_of(
                    ids@,
                    t,
                ) by {
                    lemma_count_push(ids0, id, t);
                    assert(self.arena().ext_or0(t) == prev.arena().ext_or0(t) + (if t == id {
                        1int
                    } else {
                        0int
                    }));
                    assert(prev.arena().ext_or0(t) == orig.arena().ext_or0(t) + count_of(
                        ids0,
                        t,
                    ));
                }
                assert forall|k: int|
                    0 <= k < i + 1 implies self.arena().bit_const(#[trigger] ids@[k]) == Some(
                    nbit(n as nat, k as nat),
                ) by {
                    if k < i {
                        assert(prev.arena().ext_or0(ids@[k]) >= 1) by {
                            lemma_count_member(ids0, k);
                            assert(ids0[k] == ids@[k]);
                            lemma_ext_nonneg(orig.arena(), ids@[k]);
                            assert(prev.arena().ext_or0(ids@[k]) == orig.arena().ext_or0(ids@[k])
                                + count_of(ids0, ids@[k]));
                        }
                        assert(self.arena().kind_at(ids@[k]) == prev.arena().kind_at(ids@[k]));
                    }
                }
                // the remaining value halves
                vstd::arithmetic::power2::lemma_pow2_pos(i as nat);
                vstd::arithmetic::div_mod::lemma_div_denominator(
                    n as int,
                    pow2(i as nat) as int,
                    2,
                );
                vstd::arithmetic::power2::lemma_pow2_adds(i as nat, 1);
                vstd::arithmetic::power2::lemma2_to64();
                assert(pow2((i + 1) as nat) == pow2(i as nat) * 2);
            }
            m = m / 2;
            i = i + 1;
        }
        proof {
            assert forall|k: int|
                0 <= k < width implies self.arena().bit_const(ids@[k]) == Some(
                nbit((n as nat) % pow2(width as nat), k as nat),
            ) by {
                lemma_nbit_mod_pow2(n as nat, width as nat, k as nat);
            }
            assert((n as nat) % pow2(width as nat) < pow2(width as nat)) by {
                vstd::arithmetic::power2::lemma_pow2_pos(width as nat);
                vstd::arithmetic::div_mod::lemma_mod_bound(
                    n as int,
                    pow2(width as nat) as int,
                );
            }
            lemma_bits_word_value(
                self.arena(),
                ids@,
                (n as nat) % pow2(width as nat),
            );
            assert forall|t: u32| self.arena().ext_or0(t) >= #[trigger] count_of(ids@, t) by {
                lemma_ext_nonneg(orig.arena(), t);
            }
        }
        Word { ids }
    }

    /// The zero word.
    pub fn zero(&mut self, width: usize) -> (r: Word)
        requires
            old(self).inv(),
            old(self).room(3 * (width as nat) + 3),
        ensures
            wresult(*old(self), *final(self), r),
            grown(*old(self), *final(self), 3 * (width as nat)),
            r@.len() == width,
            final(self).value(r) == Some(0nat),
    {
        let r = self.from_u64(0, width);
        proof {
            vstd::arithmetic::power2::lemma_pow2_pos(width as nat);
            vstd::arithmetic::div_mod::lemma_small_mod(0nat, pow2(width as nat));
        }
        r
    }

    /// Reads a word of constants back as a number.  Fails exactly when the
    /// word is wider than sixty-four bits or some bit is not a constant.
    pub fn try_to_u64(&self, a: &Word) -> (r: Option<u64>)
        requires
            self.inv(),
            self.wf_word(*a),
        ensures
            match r {
                Some(v) => a@.len() <= 64 && self.value(*a) == Some(v as nat),
                None => a@.len() > 64 || self.value(*a) is None,
            },
    {
        let width = a.ids.len();
        if width > 64 {
            return None;
        }
        let mut v: u64 = 0;
        let mut i: usize = 0;
        proof {
            vstd::arithmetic::power2::lemma2_to64();
        }
        while i < width
            invariant
                self.inv(),
                self.wf_word(*a),
                width == a@.len() <= 64,
                i <= width,
                (v as nat) < pow2(i as nat),
                forall|k: int|
                    0 <= k < i ==> self.arena().bit_const(#[trigger] a@[k]) == Some(
                        nbit(v as nat, k as nat),
                    ),
            decreases width - i,
        {
            let id = a.ids[i];
            proof {
                vstd::arithmetic::power2::lemma2_to64();
                vstd::arithmetic::power2::lemma2_to64_rest();
            }
            if self.bits.is_true(id) {
                let ghost v0 = v;
                proof {
                    assert((1u64 << (i as u64)) as nat == pow2(i as nat) && pow2(i as nat)
                        <= u64::MAX) by {
                        vstd::bits::lemma_u64_pow2_no_overflow(i as nat);
                        vstd::bits::lemma_u64_shl_is_mul(1u64, i as u64);
                    }
                    assert(v | (1u64 << (i as u64)) == v + (1u64 << (i as u64)))
                        by (bit_vector)
                        requires
                            v < (1u64 << (i as u64)),
                            i < 64,
                    ;
                }
                v = v | (1u64 << (i as u64));
                proof {
                    lemma_nbit_add_pow2(v0 as nat, i as nat);
                    assert forall|k: int|
                        0 <= k < i + 1 implies self.arena().bit_const(#[trigger] a@[k]) == Some(
                        nbit(v as nat, k as nat),
                    ) by {}
                }
            } else if !self.bits.is_false(id) {
                proof {
                    lemma_word_value_none(self.arena(), a@);
                }
                return None;
            } else {
                proof {
                    assert forall|k: int|
                        0 <= k < i + 1 implies self.arena().bit_const(#[trigger] a@[k]) == Some(
                        nbit(v as nat, k as nat),
                    ) by {
                        if k == i {
                            crate::arith::lemma_nbit_high(v as nat, i as nat, k as nat);
                        }
                    }
                    vstd::arithmetic::power2::lemma_pow2_strictly_increases(
                        i as nat,
                        (i + 1) as nat,
                    );
                }
            }
            i = i + 1;
        }
        proof {
            lemma_bits_word_value(self.arena(), a@, v as nat);
        }
        Some(v)
    }

    /// A second word aliasing the same bits; each bit gains one reference.
    pub fn clone_word(&mut self, w: &Word) -> (r: Word)
        requires
            old(self).inv(),
            old(self).wf_word(*w),
            old(self).room(w@.len() + 1),
        ensures
            wresult(*old(self), *final(self), r),
            grown(*old(self), *final(self), w@.len()),
            r@ == w@,
            final(self).wf_word(*w),
            final(self).value(*w) == old(self).value(*w),
    {
        let ghost orig = *self;
        let width = w.ids.len();
        let mut ids: Vec<u32> = Vec::new();
        let mut i: usize = 0;
        proof {
            assert(ids@ =~= w@.take(0));
        }
        while i < width
            invariant
                orig.inv(),
                orig.wf_word(*w),
                orig.room((width as nat) + 1),
                width == w@.len(),
                i <= width,
                ids@ == w@.take(i as int),
                self.inv(),
                self.arena().n() == orig.arena().n(),
                self.arena().ranks() == orig.arena().ranks(),
                forall|t: u32|
                    t < orig.arena().n() ==> #[trigger] self.arena().kind_at(t)
                        == orig.arena().kind_at(t),
                bounded_growth(orig.arena(), self.arena(), i as nat),
                forall|t: u32|
                    #[trigger] self.arena().ext_or0(t) == orig.arena().ext_or0(t) + count_of(
                        ids@,
                        t,
                    ),
            decreases width - i,
        {
            let ghost prev = *self;
            let id = w.ids[i];
            proof {
                lemma_count_member(w@, i as int);
                assert(orig.arena().ext_or0(id) >= 1);
                assert(self.arena().ext_or0(id) >= 1);
                lemma_ext_live(self.arena(), id);
                lemma_rc_le_total(self.arena(), id);
            }
            let ghost ids0 = ids@;
            self.bits.incr(id);
            ids.push(id);
            i = i + 1;
            proof {
                assert(ids@ =~= w@.take(i as int));
                assert forall|t: u32|
                    #[trigger] self.arena().ext_or0(t) == orig.arena().ext_or0(t) + count_of(
                    ids@,
                    t,
                ) by {
                    lemma_count_push(ids0, id, t);
                    assert(self.arena().ext_or0(t) == prev.arena().ext_or0(t) + (if t == id {
                        1int
                    } else {
                        0int
                    }));
                    assert(prev.arena().ext_or0(t) == orig.arena().ext_or0(t) + count_of(
                        ids0,
                        t,
                    ));
                }
            }
        }
        proof {
            assert(ids@ =~= w@);
            lemma_value_preserved(orig, *self, *w);
            assert forall|t: u32| self.arena().ext_or0(t) >= #[trigger] count_of(ids@, t) by {
                lemma_ext_nonneg(orig.arena(), t);
                assert(orig.arena().ext_or0(t) >= count_of(w@, t));
            }
        }
        Word { ids }
    }

    /// Releases a word: each of its bits gives one reference back, and
    /// whatever becomes unreferenced is reclaimed.
    pub fn drop_word(&mut self, w: Word)
        requires
            old(self).inv(),
            old(self).wf_word(w),
        ensures
            final(self).inv(),
            final(self).arena().n() == old(self).arena().n(),
            forall|t: u32|
                t < old(self).arena().n() ==> #[trigger] final(self).arena().kind_at(t) == old(
                    self,
                ).arena().kind_at(t),
            forall|t: u32|
                #[trigger] final(self).ext_or0(t) == old(self).ext_or0(t) - count_of(w@, t),
            grown(*old(self), *final(self), 0),
    {
        let ghost orig = *self;
        let ghost ws = w@;
        let Word { ids } = w;
        let width = ids.len();
        let mut i: usize = 0;
        proof {
            assert(ws.take(0) =~= Seq::<u32>::empty());
        }
        while i < width
            invariant
                orig.inv(),
                ids@ == ws,
                forall|k: int| 0 <= k < ws.len() ==> (#[trigger] ws[k]) < orig.arena().n(),
                forall|t: u32| orig.arena().ext_or0(t) >= #[trigger] count_of(ws, t),
                width == ws.len(),
                i <= width,
                self.inv(),
                self.arena().n() == orig.arena().n(),
                forall|t: u32|
                    t < orig.arena().n() ==> #[trigger] self.arena().kind_at(t)
                        == orig.arena().kind_at(t),
                bounded_growth(orig.arena(), self.arena(), 0),
                forall|t: u32|
                    #[trigger] self.arena().ext_or0(t) == orig.arena().ext_or0(t) - count_of(
                        ws.take(i as int),
                        t,
                    ),
            decreases width - i,
        {
            let id = ids[i];
            let ghost prev = *self;
            proof {
                lemma_count_split(ws, i as int, id);
                lemma_count_first(ws.skip(i as int), id);
                assert(ws.skip(i as int)[0] == id);
                assert(count_of(ws, id) >= count_of(ws.take(i as int), id) + 1);
                assert(orig.arena().ext_or0(id) >= count_of(ws, id));
                assert(self.arena().ext_or0(id) == orig.arena().ext_or0(id) - count_of(
                    ws.take(i as int),
                    id,
                ));
                assert(self.arena().ext_at(id) >= 1);
            }
            self.bits.decr(id);
            i = i + 1;
            proof {
                assert forall|t: u32|
                    #[trigger] self.arena().ext_or0(t) == orig.arena().ext_or0(t) - count_of(
                    ws.take(i as int),
                    t,
                ) by {
                    assert(ws.take(i as int) =~= ws.take((i - 1) as int).push(id));
                    lemma_count_push(ws.take((i - 1) as int), id, t);
                    assert(self.arena().ext_or0(t) == prev.arena().ext_or0(t) - (if t == id {
                        1int
                    } else {
                        0int
                    }));
                    assert(prev.arena().ext_or0(t) == orig.arena().ext_or0(t) - count_of(
                        ws.take((i - 1) as int),
                        t,
                    ));
                }
            }
        }
        proof {
            assert(ws.take(width as int) =~= ws);
        }
    }

    /// Number of slots the arena has ever allocated.
    pub fn size(&self) -> (r: usize)
        ensures
            r == self.arena().n(),
    {
        self.bits.size()
    }

    /// Number of live slots in the arena.
    pub fn gc_live_count(&self) -> (r: usize)
        requires
            self.inv(),
        ensures
            r == self.live_count(),
    {
        let n = self.bits.size();
        proof {
            lemma_n_bound(self.arena());
        }
        let mut count: usize = 0;
        let mut i: usize = 0;
        while i < n
            invariant
                self.inv(),
                n == self.arena().n(),
                self.arena().n() <= u32::MAX as nat,
                i <= n,
                count == live_count_upto(self.arena().slots(), i as int),
                count <= i,
            decreases n - i,
        {
            if self.bits.refcount(i as u32) > 0 {
                count = count + 1;
            }
            i = i + 1;
        }
        count
    }
}


/// Selector for the per-bit binary connectives.
#[derive(Clone, Copy)]
enum BinOp {
    Conj,
    Disj,
    Excl,
}

/// The Boolean meaning of a binary connective.
spec fn bin_sem(op: BinOp, x: bool, y: bool) -> bool {
    match op {
        BinOp::Conj => x && y,
        BinOp::Disj => x || y,
        BinOp::Excl => x != y,
    }
}

/// The numeric meaning of a binary connective, bit by bit.
spec fn bin_nat(op: BinOp, x: nat, y: nat) -> nat {
    match op {
        BinOp::Conj => crate::arith::nat_and(x, y),
        BinOp::Disj => crate::arith::nat_or(x, y),
        BinOp::Excl => crate::arith::nat_xor(x, y),
    }
}

proof fn lemma_bin_nat_bit(op: BinOp, x: nat, y: nat, k: nat)
    ensures
        nbit(bin_nat(op, x, y), k) == bin_sem(op, nbit(x, k), nbit(y, k)),
{
    match op {
        BinOp::Conj => crate::arith::lemma_nbit_nat_and(x, y, k),
        BinOp::Disj => crate::arith::lemma_nbit_nat_or(x, y, k),
        BinOp::Excl => crate::arith::lemma_nbit_nat_xor(x, y, k),
    }
}

impl Formula {
    /// Applies one binary connective position by position.
    #[verifier::rlimit(100)]
    #[verifier::spinoff_prover]
    fn bin_word(&mut self, op: BinOp, a: &Word, b: &Word) -> (r: Word)
        requires
            old(self).inv(),
            old(self).wf_word(*a),
            old(self).wf_word(*b),
            a@.len() == b@.len(),
            old(self).room(15 * a@.len() + 15),
        ensures
            wresult(*old(self), *final(self), r),
            grown(*old(self), *final(self), 15 * a@.len()),
            r@.len() == a@.len(),
            final(self).wf_word(*a),
            final(self).wf_word(*b),
            final(self).value(*a) == old(self).value(*a),
            final(self).value(*b) == old(self).value(*b),
            (old(self).value(*a) is Some && old(self).value(*b) is Some) ==> final(self).value(r)
                == Some(
                bin_nat(op, old(self).value(*a).unwrap(), old(self).value(*b).unwrap()),
            ),
    {
        let ghost orig = *self;
        let width = a.ids.len();
        let mut ids: Vec<u32> = Vec::new();
        let mut i: usize = 0;
        while i < width
            invariant
                orig.inv(),
                orig.wf_word(*a),
                orig.wf_word(*b),
                orig.room(15 * a@.len() + 15),
                width == a@.len() && width == b@.len(),
                i <= width,
                ids@.len() == i,
                self.inv(),
                orig.arena().n() <= self.arena().n(),
                bounded_growth(orig.arena(), self.arena(), (15 * i) as nat),
                forall|k: int| 0 <= k < i ==> (#[trigger] ids@[k]) < self.arena().n(),
                forall|t: u32|
                    #[trigger] self.arena().ext_or0(t) == orig.arena().ext_or0(t) + count_of(
                        ids@,
                        t,
                    ),
                holders_kept(orig, *self),
                forall|k: int|
                    0 <= k < a@.len() ==> self.arena().bit_const(#[trigger] a@[k])
                        == orig.arena().bit_const(a@[k]),
                forall|k: int|
                    0 <= k < b@.len() ==> self.arena().bit_const(#[trigger] b@[k])
                        == orig.arena().bit_const(b@[k]),
                forall|k: int|
                    0 <= k < i && orig.arena().bit_const(a@[k]) is Some && orig.arena().bit_const(
                        b@[k],
                    ) is Some ==> #[trigger] self.arena().bit_const(ids@[k]) == Some(
                        bin_sem(
                            op,
                            orig.arena().bit_const(a@[k]).unwrap(),
                            orig.arena().bit_const(b@[k]).unwrap(),
                        ),
                    ),
            decreases width - i,
        {
            let ghost prev = *self;
            proof {
                lemma_room_growth(orig.arena(), self.arena(), (15 * i) as nat, 15);
                lemma_count_member(a@, i as int);
                lemma_count_member(b@, i as int);
                lemma_ext_nonneg(orig.arena(), a@[i as int]);
                lemma_ext_nonneg(orig.arena(), b@[i as int]);
                assert(self.arena().ext_or0(a@[i as int]) >= 1);
                assert(self.arena().ext_or0(b@[i as int]) >= 1);
                assert(self.arena().held(a@[i as int]));
                assert(self.arena().held(b@[i as int]));
                lemma_ext_live(self.arena(), a@[i as int]);
                lemma_ext_live(self.arena(), b@[i as int]);
            }
            let ghost ids0 = ids@;
            let x = a.ids[i];
            let y = b.ids[i];
            let id = match op {
                BinOp::Conj => {
                    let id = self.bits.and(x, y);
                    proof {
                        assert((prev.arena().bit_const(x) is Some && prev.arena().bit_const(
                            y,
                        ) is Some) ==> self.arena().bit_const(id) == Some(
                            bin_sem(
                                op,
                                prev.arena().bit_const(x).unwrap(),
                                prev.arena().bit_const(y).unwrap(),
                            ),
                        ));
                    }
                    id
                },
                BinOp::Disj => {
                    let id = self.bits.or(x, y);
                    proof {
                        assert((prev.arena().bit_const(x) is Some && prev.arena().bit_const(
                            y,
                        ) is Some) ==> self.arena().bit_const(id) == Some(
                            bin_sem(
                                op,
                                prev.arena().bit_const(x).unwrap(),
                                prev.arena().bit_const(y).unwrap(),
                            ),
                        ));
                    }
                    id
                },
                BinOp::Excl => {
                    let id = self.bits.xor(x, y);
                    proof {
                        assert((prev.arena().bit_const(x) is Some && prev.arena().bit_const(
                            y,
                        ) is Some) ==> self.arena().bit_const(id) == Some(
                            bin_sem(
                                op,
                                prev.arena().bit_const(x).unwrap(),
                                prev.arena().bit_const(y).unwrap(),
                            ),
                        ));
                    }
                    id
                },
            };
            ids.push(id);
            i = i + 1;
            proof {
                lemma_growth_trans(
                    orig.arena(),
                    prev.arena(),
                    self.arena(),
                    (15 * (i - 1)) as nat,
                    15,
                );
                assert forall|t: u32|
                    #[trigger] self.arena().ext_or0(t) == orig.arena().ext_or0(t) + count_of(
                    ids@,
                    t,
                ) by {
                    lemma_count_push(ids0, id, t);
                    assert(self.arena().ext_or0(t) == prev.arena().ext_or0(t) + (if t == id {
                        1int
                    } else {
                        0int
                    }));
                    assert(prev.arena().ext_or0(t) == orig.arena().ext_or0(t) + count_of(
                        ids0,
                        t,
                    ));
                }
                assert forall|k: int|
                    0 <= k < a@.len() implies self.arena().bit_const(#[trigger] a@[k])
                    == orig.arena().bit_const(a@[k]) by {
                    lemma_count_member(a@, k);
                    lemma_ext_nonneg(orig.arena(), a@[k]);
                    assert(prev.arena().ext_or0(a@[k]) >= 1);
                    assert(self.arena().kind_at(a@[k]) == prev.arena().kind_at(a@[k]));
                }
                assert forall|k: int|
                    0 <= k < b@.len() implies self.arena().bit_const(#[trigger] b@[k])
                    == orig.arena().bit_const(b@[k]) by {
                    lemma_count_member(b@, k);
                    lemma_ext_nonneg(orig.arena(), b@[k]);
                    assert(prev.arena().ext_or0(b@[k]) >= 1);
                    assert(self.arena().kind_at(b@[k]) == prev.arena().kind_at(b@[k]));
                }
                assert forall|k: int|
                    0 <= k < i && orig.arena().bit_const(a@[k]) is Some && orig.arena().bit_const(
                        b@[k],
                    ) is Some implies #[trigger] self.arena().bit_const(ids@[k]) == Some(
                    bin_sem(
                        op,
                        orig.arena().bit_const(a@[k]).unwrap(),
                        orig.arena().bit_const(b@[k]).unwrap(),
                    ),
                ) by {
                    if k < i - 1 {
                        lemma_count_member(ids0, k);
                        lemma_ext_nonneg(orig.arena(), ids0[k]);
                        assert(prev.arena().ext_or0(ids0[k]) >= 1);
                        assert(ids0[k] == ids@[k]);
                        assert(self.arena().kind_at(ids@[k]) == prev.arena().kind_at(ids@[k]));
                        assert(self.arena().bit_const(ids@[k]) == prev.arena().bit_const(
                            ids0[k],
                        ));
                    } else {
                        assert(ids@[k] == id);
                        assert(prev.arena().bit_const(x) == orig.arena().bit_const(a@[k]));
                        assert(prev.arena().bit_const(y) == orig.arena().bit_const(b@[k]));
                    }
                }
            }
        }
        proof {
            assert forall|t: u32| self.arena().ext_or0(t) >= #[trigger] count_of(ids@, t) by {
                lemma_ext_nonneg(orig.arena(), t);
            }
            lemma_word_value_stable(orig.arena(), self.arena(), a@);
            lemma_word_value_stable(orig.arena(), self.arena(), b@);
            if orig.value(*a) is Some && orig.value(*b) is Some {
                let va = orig.value(*a).unwrap();
                let vb = orig.value(*b).unwrap();
                let vr = bin_nat(op, va, vb);
                lemma_word_value_bound(orig.arena(), a@);
                lemma_word_value_bound(orig.arena(), b@);
                assert(vr < pow2(width as nat)) by {
                    crate::arith::lemma_nat_bitop_bound(va, vb, width as nat);
                    match op {
                        BinOp::Conj => {},
                        BinOp::Disj => {},
                        BinOp::Excl => {},
                    }
                }
                assert forall|k: int|
                    0 <= k < width implies self.arena().bit_const(ids@[k]) == Some(
                    nbit(vr, k as nat),
                ) by {
                    lemma_word_value_bits(orig.arena(), a@, k);
                    lemma_word_value_bits(orig.arena(), b@, k);
                    lemma_bin_nat_bit(op, va, vb, k as nat);
                }
                lemma_bits_word_value(self.arena(), ids@, vr);
            }
        }
        Word { ids }
    }

    /// Bitwise conjunction of two words of equal width.
    pub fn and(&mut self, a: &Word, b: &Word) -> (r: Word)
        requires
            old(self).inv(),
            old(self).wf_word(*a),
            old(self).wf_word(*b),
            a@.len() == b@.len(),
            old(self).room(15 * a@.len() + 15),
        ensures
            wresult(*old(self), *final(self), r),
            grown(*old(self), *final(self), 15 * a@.len()),
            r@.len() == a@.len(),
            final(self).wf_word(*a),
            final(self).wf_word(*b),
            final(self).value(*a) == old(self).value(*a),
            final(self).value(*b) == old(self).value(*b),
            (old(self).value(*a) is Some && old(self).value(*b) is Some) ==> final(self).value(r)
                == Some(
                crate::arith::nat_and(old(self).value(*a).unwrap(), old(self).value(*b).unwrap()),
            ),
    {
        self.bin_word(BinOp::Conj, a, b)
    }

    /// Bitwise disjunction of two words of equal width.
    pub fn or(&mut self, a: &Word, b: &Word) -> (r: Word)
        requires
            old(self).inv(),
            old(self).wf_word(*a),
            old(self).wf_word(*b),
            a@.len() == b@.len(),
            old(self).room(15 * a@.len() + 15),
        ensures
            wresult(*old(self), *final(self), r),
            grown(*old(self), *final(self), 15 * a@.len()),
            r@.len() == a@.len(),
            final(self).wf_word(*a),
            final(self).wf_word(*b),
            final(self).value(*a) == old(self).value(*a),
            final(self).value(*b) == old(self).value(*b),
            (old(self).value(*a) is Some && old(self).value(*b) is Some) ==> final(self).value(r)
                == Some(
                crate::arith::nat_or(old(self).value(*a).unwrap(), old(self).value(*b).unwrap()),
            ),
    {
        self.bin_word(BinOp::Disj, a, b)
    }

    /// Bitwise exclusive disjunction of two words of equal width.
    pub fn xor(&mut self, a: &Word, b: &Word) -> (r: Word)
        requires
            old(self).inv(),
            old(self).wf_word(*a),
            old(self).wf_word(*b),
            a@.len() == b@.len(),
            old(self).room(15 * a@.len() + 15),
        ensures
            wresult(*old(self), *final(self), r),
            grown(*old(self), *final(self), 15 * a@.len()),
            r@.len() == a@.len(),
            final(self).wf_word(*a),
            final(self).wf_word(*b),
            final(self).value(*a) == old(self).value(*a),
            final(self).value(*b) == old(self).value(*b),
            (old(self).value(*a) is Some && old(self).value(*b) is Some) ==> final(self).value(r)
                == Some(
                crate::arith::nat_xor(old(self).value(*a).unwrap(), old(self).value(*b).unwrap()),
            ),
    {
        self.bin_word(BinOp::Excl, a, b)
    }

    /// Bitwise complement, width preserved.
    #[verifier::rlimit(100)]
    #[verifier::spinoff_prover]
    pub fn not(&mut self, a: &Word) -> (r: Word)
        requires
            old(self).inv(),
            old(self).wf_word(*a),
            old(self).room(3 * a@.len() + 3),
        ensures
            wresult(*old(self), *final(self), r),
            grown(*old(self), *final(self), 3 * a@.len()),
            r@.len() == a@.len(),
            final(self).wf_word(*a),
            final(self).value(*a) == old(self).value(*a),
            old(self).value(*a) is Some ==> final(self).value(r) == Some(
                (pow2(a@.len()) - 1 - old(self).value(*a).unwrap()) as nat,
            ),
    {
        let ghost orig = *self;
        let width = a.ids.len();
        let mut ids: Vec<u32> = Vec::new();
        let mut i: usize = 0;
        while i < width
            invariant
                orig.inv(),
                orig.wf_word(*a),
                orig.room(3 * a@.len() + 3),
                width == a@.len(),
                i <= width,
                ids@.len() == i,
                self.inv(),
                orig.arena().n() <= self.arena().n(),
                bounded_growth(orig.arena(), self.arena(), (3 * i) as nat),
                forall|k: int| 0 <= k < i ==> (#[trigger] ids@[k]) < self.arena().n(),
                forall|t: u32|
                    #[trigger] self.arena().ext_or0(t) == orig.arena().ext_or0(t) + count_of(
                        ids@,
                        t,
                    ),
                holders_kept(orig, *self),
                forall|k: int|
                    0 <= k < a@.len() ==> self.arena().bit_const(#[trigger] a@[k])
                        == orig.arena().bit_const(a@[k]),
                forall|k: int|
                    0 <= k < i && orig.arena().bit_const(a@[k]) is Some
                        ==> #[trigger] self.arena().bit_const(ids@[k]) == Some(
                        !orig.arena().bit_const(a@[k]).unwrap(),
                    ),
            decreases width - i,
        {
            let ghost prev = *self;
            proof {
                lemma_room_growth(orig.arena(), self.arena(), (3 * i) as nat, 3);
                lemma_count_member(a@, i as int);
                lemma_ext_nonneg(orig.arena(), a@[i as int]);
                assert(self.arena().ext_or0(a@[i as int]) >= 1);
                lemma_ext_live(self.arena(), a@[i as int]);
            }
            let ghost ids0 = ids@;
            let id = self.bits.not(a.ids[i]);
            ids.push(id);
            i = i + 1;
            proof {
                lemma_growth_trans(
                    orig.arena(),
                    prev.arena(),
                    self.arena(),
                    (3 * (i - 1)) as nat,
                    3,
                );
                assert forall|t: u32|
                    #[trigger] self.arena().ext_or0(t) == orig.arena().ext_or0(t) + count_of(
                    ids@,
                    t,
                ) by {
                    lemma_count_push(ids0, id, t);
                    assert(self.arena().ext_or0(t) == prev.arena().ext_or0(t) + (if t == id {
                        1int
                    } else {
                        0int
                    }));
                    assert(prev.arena().ext_or0(t) == orig.arena().ext_or0(t) + count_of(
                        ids0,
                        t,
                    ));
                }
                assert forall|k: int|
                    0 <= k < a@.len() implies self.arena().bit_const(#[trigger] a@[k])
                    == orig.arena().bit_const(a@[k]) by {
                    lemma_count_member(a@, k);
                    lemma_ext_nonneg(orig.arena(), a@[k]);
                    assert(prev.arena().ext_or0(a@[k]) >= 1);
                    assert(self.arena().kind_at(a@[k]) == prev.arena().kind_at(a@[k]));
                }
                assert forall|k: int|
                    0 <= k < i && orig.arena().bit_const(a@[k]) is Some implies #[trigger] self.arena().bit_const(
                    ids@[k],
                ) == Some(!orig.arena().bit_const(a@[k]).unwrap()) by {
                    if k < i - 1 {
                        lemma_count_member(ids0, k);
                        lemma_ext_nonneg(orig.arena(), ids0[k]);
                        assert(prev.arena().ext_or0(ids0[k]) >= 1);
                        assert(ids0[k] == ids@[k]);
                        assert(self.arena().kind_at(ids@[k]) == prev.arena().kind_at(ids@[k]));
                        assert(self.arena().bit_const(ids@[k]) == prev.arena().bit_const(
                            ids0[k],
                        ));
                    } else {
                        assert(ids@[k] == id);
                        assert(prev.arena().bit_const(a@[k]) == orig.arena().bit_const(a@[k]));
                    }
                }
            }
        }
        proof {
            assert forall|t: u32| self.arena().ext_or0(t) >= #[trigger] count_of(ids@, t) by {
                lemma_ext_nonneg(orig.arena(), t);
            }
            lemma_word_value_stable(orig.arena(), self.arena(), a@);
            if orig.value(*a) is Some {
                let va = orig.value(*a).unwrap();
                lemma_word_value_bound(orig.arena(), a@);
                let vr = (pow2(width as nat) - 1 - va) as nat;
                assert forall|k: int|
                    0 <= k < width implies self.arena().bit_const(ids@[k]) == Some(
                    nbit(vr, k as nat),
                ) by {
                    lemma_word_value_bits(orig.arena(), a@, k);
                    crate::arith::lemma_nbit_complement(va, width as nat, k as nat);
                }
                assert(vr < pow2(width as nat)) by {
                    vstd::arithmetic::power2::lemma_pow2_pos(width as nat);
                }
                lemma_bits_word_value(self.arena(), ids@, vr);
            }
        }
        Word { ids }
    }
}

/// The complement written as a mask: flipping every bit of a `w`-wide value
/// is the exclusive disjunction with `2^w - 1`.
pub proof fn lemma_not_is_mask_xor(x: nat, w: nat)
    requires
        x < pow2(w),
    ensures
        (pow2(w) - 1 - x) as nat == crate::arith::nat_xor((pow2(w) - 1) as nat, x),
{
    crate::arith::lemma_xor_mask(x, w);
}


impl Formula {
    /// Pushes copies of positions `lo..hi` of `w`, taking one reference per
    /// copied bit.
    #[verifier::rlimit(100)]
    #[verifier::spinoff_prover]
    fn append_copy(&mut self, ids: &mut Vec<u32>, w: &Word, lo: usize, hi: usize)
        requires
            old(self).inv(),
            old(self).wf_word(*w),
            lo <= hi <= w@.len(),
            old(self).room((hi - lo) as nat + 1),
        ensures
            final(self).inv(),
            final(self).arena().n() == old(self).arena().n(),
            forall|t: u32|
                t < old(self).arena().n() ==> #[trigger] final(self).arena().kind_at(t) == old(
                    self,
                ).arena().kind_at(t),
            final(ids)@ == old(ids)@ + w@.subrange(lo as int, hi as int),
            forall|t: u32|
                #[trigger] final(self).ext_or0(t) == old(self).ext_or0(t) + count_of(
                    w@.subrange(lo as int, hi as int),
                    t,
                ),
            grown(*old(self), *final(self), (hi - lo) as nat),
    {
        let ghost orig = *self;
        let ghost base = ids@;
        let mut i: usize = lo;
        proof {
            assert(w@.subrange(lo as int, lo as int) =~= Seq::<u32>::empty());
            assert(ids@ =~= base + w@.subrange(lo as int, lo as int));
        }
        while i < hi
            invariant
                orig.inv(),
                orig.wf_word(*w),
                lo <= i <= hi <= w@.len(),
                orig.room((hi - lo) as nat + 1),
                self.inv(),
                self.arena().n() == orig.arena().n(),
                forall|t: u32|
                    t < orig.arena().n() ==> #[trigger] self.arena().kind_at(t)
                        == orig.arena().kind_at(t),
                ids@ == base + w@.subrange(lo as int, i as int),
                forall|t: u32|
                    #[trigger] self.arena().ext_or0(t) == orig.arena().ext_or0(t) + count_of(
                        w@.subrange(lo as int, i as int),
                        t,
                    ),
                bounded_growth(orig.arena(), self.arena(), (i - lo) as nat),
            decreases hi - i,
        {
            let ghost prev = *self;
            let id = w.ids[i];
            proof {
                lemma_count_member(w@, i as int);
                lemma_ext_nonneg(orig.arena(), id);
                assert(self.arena().ext_or0(id) >= 1) by {
                    lemma_count_nonneg(w@.subrange(lo as int, i as int), id);
                }
                lemma_ext_live(self.arena(), id);
                lemma_rc_le_total(self.arena(), id);
            }
            self.bits.incr(id);
            ids.push(id);
            i = i + 1;
            proof {
                assert(ids@ =~= base + w@.subrange(lo as int, i as int));
                assert forall|t: u32|
                    #[trigger] self.arena().ext_or0(t) == orig.arena().ext_or0(t) + count_of(
                    w@.subrange(lo as int, i as int),
                    t,
                ) by {
                    assert(w@.subrange(lo as int, i as int) =~= w@.subrange(
                        lo as int,
                        (i - 1) as int,
                    ).push(id));
                    lemma_count_push(w@.subrange(lo as int, (i - 1) as int), id, t);
                    assert(self.arena().ext_or0(t) == prev.arena().ext_or0(t) + (if t == id {
                        1int
                    } else {
                        0int
                    }));
                }
            }
        }
    }

    /// Pushes `k` fresh `false` constants.
    #[verifier::rlimit(100)]
    #[verifier::spinoff_prover]
    fn append_zeros(&mut self, ids: &mut Vec<u32>, k: usize) -> (fresh: Ghost<Seq<u32>>)
        requires
            old(self).inv(),
            old(self).room(3 * (k as nat) + 3),
        ensures
            final(self).inv(),
            old(self).arena().n() <= final(self).arena().n(),
            holders_kept(*old(self), *final(self)),
            final(ids)@.len() == old(ids)@.len() + k,
            final(ids)@ == old(ids)@ + fresh@,
            fresh@.len() == k,
            forall|j: int|
                0 <= j < k ==> final(self).arena().bit_const(#[trigger] fresh@[j]) == Some(
                    false,
                ),
            forall|t: u32|
                #[trigger] final(self).ext_or0(t) == old(self).ext_or0(t) + count_of(fresh@, t),
            grown(*old(self), *final(self), 3 * (k as nat)),
    {
        let ghost orig = *self;
        let ghost base = ids@;
        let ghost mut fresh: Seq<u32> = Seq::empty();
        let mut i: usize = 0;
        proof {
            assert(ids@ =~= base + fresh);
        }
        while i < k
            invariant
                orig.inv(),
                orig.room(3 * (k as nat) + 3),
                i <= k,
                self.inv(),
                orig.arena().n() <= self.arena().n(),
                holders_kept(orig, *self),
                fresh.len() == i,
                ids@ == base + fresh,
                forall|j: int|
                    0 <= j < i ==> self.arena().bit_const(#[trigger] fresh[j]) == Some(false),
                forall|t: u32|
                    #[trigger] self.arena().ext_or0(t) == orig.arena().ext_or0(t) + count_of(
                        fresh,
                        t,
                    ),
                bounded_growth(orig.arena(), self.arena(), (3 * i) as nat),
            decreases k - i,
        {
            let ghost prev = *self;
            proof {
                lemma_room_growth(orig.arena(), self.arena(), (3 * i) as nat, 3);
            }
            let ghost fresh0 = fresh;
            let id = self.bits.val(false);
            ids.push(id);
            proof {
                fresh = fresh.push(id);
            }
            i = i + 1;
            proof {
                lemma_growth_trans(
                    orig.arena(),
                    prev.arena(),
                    self.arena(),
                    (3 * (i - 1)) as nat,
                    3,
                );
                assert(ids@ =~= base + fresh);
                assert forall|t: u32|
                    #[trigger] self.arena().ext_or0(t) == orig.arena().ext_or0(t) + count_of(
                    fresh,
                    t,
                ) by {
                    lemma_count_push(fresh0, id, t);
                    assert(self.arena().ext_or0(t) == prev.arena().ext_or0(t) + (if t == id {
                        1int
                    } else {
                        0int
                    }));
                }
                assert forall|j: int|
                    0 <= j < i implies self.arena().bit_const(#[trigger] fresh[j]) == Some(
                    false,
                ) by {
                    if j < i - 1 {
                        lemma_count_member(fresh0, j);
                        lemma_ext_nonneg(orig.arena(), fresh0[j]);
                        assert(prev.arena().ext_or0(fresh0[j]) >= 1);
                        assert(fresh0[j] == fresh[j]);
                        assert(self.arena().kind_at(fresh[j]) == prev.arena().kind_at(fresh[j]));
                    }
                }
            }
        }
        Ghost(fresh)
    }

    /// Logical left shift by `k` positions, zero fill, width preserved.
    #[verifier::rlimit(100)]
    #[verifier::spinoff_prover]
    pub fn shl(&mut self, a: &Word, k: usize) -> (r: Word)
        requires
            old(self).inv(),
            old(self).wf_word(*a),
            k <= a@.len(),
            old(self).room(3 * a@.len() + 6),
        ensures
            wresult(*old(self), *final(self), r),
            grown(*old(self), *final(self), 3 * a@.len() + 1),
            r@.len() == a@.len(),
            final(self).wf_word(*a),
            final(self).value(*a) == old(self).value(*a),
            old(self).value(*a) is Some ==> final(self).value(r) == Some(
                (old(self).value(*a).unwrap() * pow2(k as nat)) % pow2(a@.len()),
            ),
    {
        let ghost orig = *self;
        let width = a.ids.len();
        let mut ids: Vec<u32> = Vec::new();
        let fresh_g = self.append_zeros(&mut ids, k);
        let ghost fresh = fresh_g@;
        let ghost mid = *self;
        proof {
            lemma_room_growth(orig.arena(), mid.arena(), (3 * k) as nat, (width - k) as nat + 1);
            assert forall|t: u32| #[trigger] mid.arena().ext_or0(t) >= orig.arena().ext_or0(
                t,
            ) by {
                assert(mid.ext_or0(t) == orig.ext_or0(t) + count_of(fresh, t));
            }
            lemma_wf_word_preserved(orig, mid, *a);
        }
        self.append_copy(&mut ids, a, 0, width - k);
        proof {
            assert(ids@ == fresh + a@.subrange(0, (width - k) as int));
            lemma_growth_trans(
                orig.arena(),
                mid.arena(),
                self.arena(),
                (3 * k) as nat,
                (width - k) as nat,
            );
            // external counts add up across both phases
            assert forall|t: u32|
                #[trigger] self.arena().ext_or0(t) == orig.arena().ext_or0(t) + count_of(
                ids@,
                t,
            ) by {
                lemma_count_concat(fresh, a@.subrange(0, (width - k) as int), t);
                assert(self.ext_or0(t) == mid.ext_or0(t) + count_of(
                    a@.subrange(0, (width - k) as int),
                    t,
                ));
                assert(mid.ext_or0(t) == orig.ext_or0(t) + count_of(fresh, t));
            }
            assert forall|t: u32| self.arena().ext_or0(t) >= #[trigger] count_of(ids@, t) by {
                lemma_ext_nonneg(orig.arena(), t);
            }
            assert forall|kk: int| 0 <= kk < ids@.len() implies (#[trigger] ids@[kk])
                < self.arena().n() by {
                lemma_count_member(ids@, kk);
                lemma_ext_nonneg(orig.arena(), ids@[kk]);
                assert(self.arena().ext_or0(ids@[kk]) >= 1);
                lemma_ext_live(self.arena(), ids@[kk]);
            }
            lemma_value_preserved_chain(orig, mid, *self, *a);
            if orig.value(*a) is Some {
                let x = orig.value(*a).unwrap();
                lemma_word_value_bound(orig.arena(), a@);
                // the copied low part of `a` has value x mod 2^(width-k)
                crate::bits::lemma_word_value_split(self.arena(), a@, (width - k) as int);
                assert(a@.take((width - k) as int) =~= a@.subrange(0, (width - k) as int));
                assert(self.arena().word_value(a@) == Some(x));
                let l = self.arena().word_value(a@.take((width - k) as int)).unwrap();
                let h = self.arena().word_value(a@.skip((width - k) as int)).unwrap();
                crate::bits::lemma_word_value_bound(self.arena(), a@.take((width - k) as int));
                crate::bits::lemma_word_value_bound(self.arena(), a@.skip((width - k) as int));
                crate::arith::lemma_base_decomp(x, l, h, 0, (width - k) as nat, k as nat);
                assert(l == x % pow2((width - k) as nat));
                // the zero prefix contributes nothing
                crate::bits::lemma_word_value_split(self.arena(), ids@, k as int);
                assert(ids@.take(k as int) =~= fresh);
                assert(ids@.skip(k as int) =~= a@.subrange(0, (width - k) as int));
                lemma_zero_word_value(self.arena(), fresh);
                assert(self.arena().word_value(ids@) == Some(
                    0 + pow2(k as nat) * (x % pow2((width - k) as nat)),
                ));
                crate::arith::lemma_shl_mod(x, k as nat, width as nat);
            }
        }
        Word { ids }
    }

    /// Logical right shift by `k` positions, zero fill, width preserved.
    #[verifier::rlimit(100)]
    #[verifier::spinoff_prover]
    pub fn shr(&mut self, a: &Word, k: usize) -> (r: Word)
        requires
            old(self).inv(),
            old(self).wf_word(*a),
            k <= a@.len(),
            old(self).room(3 * a@.len() + 6),
        ensures
            wresult(*old(self), *final(self), r),
            grown(*old(self), *final(self), 3 * a@.len() + 1),
            r@.len() == a@.len(),
            final(self).wf_word(*a),
            final(self).value(*a) == old(self).value(*a),
            old(self).value(*a) is Some ==> final(self).value(r) == Some(
                old(self).value(*a).unwrap() / pow2(k as nat),
            ),
    {
        let ghost orig = *self;
        let width = a.ids.len();
        let mut ids: Vec<u32> = Vec::new();
        self.append_copy(&mut ids, a, k, width);
        let ghost mid = *self;
        proof {
            lemma_room_growth(
                orig.arena(),
                mid.arena(),
                (width - k) as nat,
                3 * (k as nat) + 3,
            );
        }
        let fresh_g = self.append_zeros(&mut ids, k);
        let ghost fresh = fresh_g@;
        proof {
            assert(ids@ == a@.subrange(k as int, width as int) + fresh);
            lemma_growth_trans(
                orig.arena(),
                mid.arena(),
                self.arena(),
                (width - k) as nat,
                (3 * k) as nat,
            );
            assert forall|t: u32|
                #[trigger] self.arena().ext_or0(t) == orig.arena().ext_or0(t) + count_of(
                ids@,
                t,
            ) by {
                lemma_count_concat(a@.subrange(k as int, width as int), fresh, t);
                assert(self.ext_or0(t) == mid.ext_or0(t) + count_of(fresh, t));
                assert(mid.ext_or0(t) == orig.ext_or0(t) + count_of(
                    a@.subrange(k as int, width as int),
                    t,
                ));
            }
            assert forall|t: u32| self.arena().ext_or0(t) >= #[trigger] count_of(ids@, t) by {
                lemma_ext_nonneg(orig.arena(), t);
            }
            assert forall|kk: int| 0 <= kk < ids@.len() implies (#[trigger] ids@[kk])
                < self.arena().n() by {
                lemma_count_member(ids@, kk);
                lemma_ext_nonneg(orig.arena(), ids@[kk]);
                assert(self.arena().ext_or0(ids@[kk]) >= 1);
                lemma_ext_live(self.arena(), ids@[kk]);
            }
            assert(holders_kept(orig, *self)) by {
                assert forall|t: u32|
                    t < orig.arena().n() && orig.arena().ext_or0(t) >= 1 implies #[trigger] self.arena().kind_at(
                    t,
                ) == orig.arena().kind_at(t) by {
                    assert(mid.arena().kind_at(t) == orig.arena().kind_at(t));
                    assert(mid.ext_or0(t) == orig.ext_or0(t) + count_of(
                        a@.subrange(k as int, width as int),
                        t,
                    ));
                }
            }
            assert forall|t: u32| #[trigger] mid.arena().ext_or0(t) >= orig.arena().ext_or0(
                t,
            ) by {
                assert(mid.ext_or0(t) == orig.ext_or0(t) + count_of(
                    a@.subrange(k as int, width as int),
                    t,
                ));
            }
            lemma_value_preserved_chain(orig, mid, *self, *a);
            if orig.value(*a) is Some {
                let x = orig.value(*a).unwrap();
                lemma_word_value_bound(orig.arena(), a@);
                crate::bits::lemma_word_value_split(self.arena(), a@, k as int);
                assert(a@.skip(k as int) =~= a@.subrange(k as int, width as int));
                assert(self.arena().word_value(a@) == Some(x));
                let l = self.arena().word_value(a@.take(k as int)).unwrap();
                let h = self.arena().word_value(a@.skip(k as int)).unwrap();
                crate::bits::lemma_word_value_bound(self.arena(), a@.take(k as int));
                crate::bits::lemma_word_value_bound(self.arena(), a@.skip(k as int));
                vstd::arithmetic::power2::lemma_pow2_pos(k as nat);
                vstd::arithmetic::mul::lemma_mul_is_commutative(pow2(k as nat) as int, h as int);
                vstd::arithmetic::div_mod::lemma_fundamental_div_mod_converse(
                    x as int,
                    pow2(k as nat) as int,
                    h as int,
                    l as int,
                );
                assert(h == x / pow2(k as nat));
                crate::bits::lemma_word_value_split(self.arena(), ids@, (width - k) as int);
                assert(ids@.take((width - k) as int) =~= a@.subrange(k as int, width as int));
                assert(ids@.skip((width - k) as int) =~= fresh);
                lemma_zero_word_value(self.arena(), fresh);
                assert(self.arena().word_value(ids@) == Some(
                    h + pow2((width - k) as nat) * 0,
                ));
            }
        }
        Word { ids }
    }

    /// The bits `lo..=hi` of a word, as a word of width `hi - lo + 1`.
    #[verifier::rlimit(100)]
    #[verifier::spinoff_prover]
    pub fn slice(&mut self, a: &Word, lo: usize, hi: usize) -> (r: Word)
        requires
            old(self).inv(),
            old(self).wf_word(*a),
            lo <= hi < a@.len(),
            old(self).room(a@.len() + 1),
        ensures
            wresult(*old(self), *final(self), r),
            grown(*old(self), *final(self), a@.len()),
            r@.len() == hi - lo + 1,
            r@ == a@.subrange(lo as int, hi + 1),
            final(self).wf_word(*a),
            final(self).value(*a) == old(self).value(*a),
            old(self).value(*a) is Some ==> final(self).value(r) == Some(
                (old(self).value(*a).unwrap() / pow2(lo as nat)) % pow2((hi - lo + 1) as nat),
            ),
    {
        let ghost orig = *self;
        let width = a.ids.len();
        let mut ids: Vec<u32> = Vec::new();
        self.append_copy(&mut ids, a, lo, hi + 1);
        proof {
            assert(ids@ == a@.subrange(lo as int, hi + 1));
            assert forall|t: u32|
                #[trigger] self.arena().ext_or0(t) == orig.arena().ext_or0(t) + count_of(
                ids@,
                t,
            ) by {
                assert(self.ext_or0(t) == orig.ext_or0(t) + count_of(
                    a@.subrange(lo as int, hi + 1),
                    t,
                ));
            }
            assert forall|t: u32| self.arena().ext_or0(t) >= #[trigger] count_of(ids@, t) by {
                lemma_ext_nonneg(orig.arena(), t);
            }
            assert forall|t: u32| self.arena().ext_or0(t) >= #[trigger] count_of(a@, t) by {
                assert(orig.arena().ext_or0(t) >= count_of(a@, t));
            }
            assert forall|kk: int| 0 <= kk < ids@.len() implies (#[trigger] ids@[kk])
                < self.arena().n() by {
                lemma_count_member(ids@, kk);
                lemma_ext_nonneg(orig.arena(), ids@[kk]);
                assert(self.arena().ext_or0(ids@[kk]) >= 1);
                lemma_ext_live(self.arena(), ids@[kk]);
            }
            lemma_value_preserved(orig, *self, *a);
            if orig.value(*a) is Some {
                let x = orig.value(*a).unwrap();
                crate::bits::lemma_word_value_split(self.arena(), a@, lo as int);
                let l = self.arena().word_value(a@.take(lo as int)).unwrap();
                let rest = self.arena().word_value(a@.skip(lo as int)).unwrap();
                crate::bits::lemma_word_value_split(self.arena(), a@.skip(lo as int), (hi + 1
                    - lo) as int);
                assert(a@.skip(lo as int).take((hi + 1 - lo) as int) =~= a@.subrange(
                    lo as int,
                    hi + 1,
                ));
                let m = self.arena().word_value(a@.subrange(lo as int, hi + 1)).unwrap();
                let h = self.arena().word_value(a@.skip(lo as int).skip((hi + 1 - lo) as int)).unwrap();
                crate::bits::lemma_word_value_bound(self.arena(), a@.take(lo as int));
                crate::bits::lemma_word_value_bound(
                    self.arena(),
                    a@.subrange(lo as int, hi + 1),
                );
                assert(x == l + pow2(lo as nat) * (m + pow2((hi + 1 - lo) as nat) * h));
                vstd::arithmetic::power2::lemma_pow2_adds(lo as nat, (hi + 1 - lo) as nat);
                assert(x == l + pow2(lo as nat) * m + pow2(lo as nat + (hi + 1 - lo) as nat)
                    * h) by (nonlinear_arith)
                    requires
                        x == l + pow2(lo as nat) * (m + pow2((hi + 1 - lo) as nat) * h),
                        pow2(lo as nat + (hi + 1 - lo) as nat) == pow2(lo as nat) * pow2(
                            (hi + 1 - lo) as nat,
                        ),
                ;
                crate::arith::lemma_base_decomp(
                    x,
                    l,
                    m,
                    h,
                    lo as nat,
                    (hi + 1 - lo) as nat,
                );
            }
        }
        Word { ids }
    }

    /// Concatenation: the result carries `a`'s bits in the low positions and
    /// `b`'s bits above them.
    #[verifier::rlimit(100)]
    #[verifier::spinoff_prover]
    pub fn concat(&mut self, a: &Word, b: &Word) -> (r: Word)
        requires
            old(self).inv(),
            old(self).wf_word(*a),
            old(self).wf_word(*b),
            old(self).room(a@.len() + b@.len() + 1),
        ensures
            wresult(*old(self), *final(self), r),
            grown(*old(self), *final(self), a@.len() + b@.len()),
            r@.len() == a@.len() + b@.len(),
            r@ == a@ + b@,
            final(self).wf_word(*a),
            final(self).wf_word(*b),
            final(self).value(*a) == old(self).value(*a),
            final(self).value(*b) == old(self).value(*b),
            (old(self).value(*a) is Some && old(self).value(*b) is Some) ==> final(self).value(r)
                == Some(
                old(self).value(*a).unwrap() + pow2(a@.len()) * old(self).value(*b).unwrap(),
            ),
    {
        let ghost orig = *self;
        let wa = a.ids.len();
        let wb = b.ids.len();
        let mut ids: Vec<u32> = Vec::new();
        self.append_copy(&mut ids, a, 0, wa);
        let ghost mid = *self;
        proof {
            lemma_room_growth(orig.arena(), mid.arena(), wa as nat, (wb as nat) + 1);
            assert forall|t: u32| #[trigger] mid.arena().ext_or0(t) >= orig.arena().ext_or0(
                t,
            ) by {
                assert(mid.ext_or0(t) == orig.ext_or0(t) + count_of(
                    a@.subrange(0, wa as int),
                    t,
                ));
            }
            lemma_wf_word_preserved(orig, mid, *b);
        }
        self.append_copy(&mut ids, b, 0, wb);
        proof {
            assert(a@.subrange(0, wa as int) =~= a@);
            assert(b@.subrange(0, wb as int) =~= b@);
            assert(ids@ == a@ + b@);
            lemma_growth_trans(orig.arena(), mid.arena(), self.arena(), wa as nat, wb as nat);
            assert forall|t: u32|
                #[trigger] self.arena().ext_or0(t) == orig.arena().ext_or0(t) + count_of(
                ids@,
                t,
            ) by {
                lemma_count_concat(a@, b@, t);
                assert(self.ext_or0(t) == mid.ext_or0(t) + count_of(
                    b@.subrange(0, wb as int),
                    t,
                ));
                assert(mid.ext_or0(t) == orig.ext_or0(t) + count_of(
                    a@.subrange(0, wa as int),
                    t,
                ));
            }
            assert forall|t: u32| self.arena().ext_or0(t) >= #[trigger] count_of(ids@, t) by {
                lemma_ext_nonneg(orig.arena(), t);
            }
            assert forall|kk: int| 0 <= kk < ids@.len() implies (#[trigger] ids@[kk])
                < self.arena().n() by {
                lemma_count_member(ids@, kk);
                lemma_ext_nonneg(orig.arena(), ids@[kk]);
                assert(self.arena().ext_or0(ids@[kk]) >= 1);
                lemma_ext_live(self.arena(), ids@[kk]);
            }
            lemma_value_preserved_chain(orig, mid, *self, *a);
            lemma_value_preserved_chain(orig, mid, *self, *b);
            if orig.value(*a) is Some && orig.value(*b) is Some {
                crate::bits::lemma_word_value_split(self.arena(), ids@, wa as int);
                assert(ids@.take(wa as int) =~= a@);
                assert(ids@.skip(wa as int) =~= b@);
            }
        }
        Word { ids }
    }

    /// Rotation left by `k` positions, `k` taken modulo the width.
    #[verifier::rlimit(100)]
    #[verifier::spinoff_prover]
    pub fn rotl(&mut self, a: &Word, k: usize) -> (r: Word)
        requires
            old(self).inv(),
            old(self).wf_word(*a),
            a@.len() >= 1,
            old(self).room(21 * a@.len() + 27),
        ensures
            wresult(*old(self), *final(self), r),
            grown(*old(self), *final(self), 21 * a@.len() + 2),
            r@.len() == a@.len(),
            final(self).wf_word(*a),
            final(self).value(*a) == old(self).value(*a),
            old(self).value(*a) is Some ==> final(self).value(r) == Some(
                (old(self).value(*a).unwrap() % pow2((a@.len() - ((k as nat) % a@.len())) as nat)) * pow2(
                    ((k as nat) % a@.len()) as nat,
                ) + old(self).value(*a).unwrap() / pow2((a@.len() - ((k as nat) % a@.len())) as nat),
            ),
    {
        let ghost orig = *self;
        let width = a.ids.len();
        let kr = k % width;
        let x = self.shl(a, kr);
        let ghost s1 = *self;
        proof {
            lemma_room_growth(orig.arena(), s1.arena(), 3 * a@.len() + 1, 3 * a@.len() + 5);
            assert forall|t: u32| #[trigger] s1.arena().ext_or0(t) >= orig.arena().ext_or0(
                t,
            ) by {
                assert(s1.arena().ext_or0(t) == orig.arena().ext_or0(t) + count_of(x@, t));
            }
            lemma_wf_word_preserved(orig, s1, *a);
        }
        let y = self.shr(a, width - kr);
        let ghost s2 = *self;
        proof {
            lemma_growth_trans(
                orig.arena(),
                s1.arena(),
                s2.arena(),
                3 * a@.len() + 1,
                3 * a@.len() + 1,
            );
            lemma_room_growth(orig.arena(), s2.arena(), 6 * a@.len() + 2, 15 * a@.len() + 15);
            assert forall|t: u32| #[trigger] s2.arena().ext_or0(t) >= s1.arena().ext_or0(t) by {
                assert(s2.arena().ext_or0(t) == s1.arena().ext_or0(t) + count_of(y@, t));
            }
            lemma_wf_word_preserved(s1, s2, x);
            lemma_value_preserved(s1, s2, x);
        }
        let r = self.or(&x, &y);
        let ghost s3 = *self;
        proof {
            lemma_growth_trans(
                orig.arena(),
                s2.arena(),
                s3.arena(),
                6 * a@.len() + 2,
                15 * a@.len(),
            );
        }
        self.drop_word(x);
        let ghost s4 = *self;
        proof {
            // `y` and `r` keep their own references after `x` is released
            assert forall|t: u32| s4.arena().ext_or0(t) >= #[trigger] count_of(y@, t) by {
                assert(s4.ext_or0(t) == s3.ext_or0(t) - count_of(x@, t));
                assert(s3.arena().ext_or0(t) == s2.arena().ext_or0(t) + count_of(r@, t));
                assert(s2.arena().ext_or0(t) == s1.arena().ext_or0(t) + count_of(y@, t));
                assert(s1.arena().ext_or0(t) == orig.arena().ext_or0(t) + count_of(x@, t));
                lemma_ext_nonneg(orig.arena(), t);
            }
            assert forall|kk: int| 0 <= kk < y@.len() implies (#[trigger] y@[kk])
                < s4.arena().n() by {
                assert(y@[kk] < s2.arena().n());
            }
        }
        self.drop_word(y);
        proof {
            lemma_growth_trans(orig.arena(), s3.arena(), self.arena(), 21 * a@.len() + 2, 0);
            assert forall|t: u32|
                #[trigger] self.arena().ext_or0(t) == orig.arena().ext_or0(t) + count_of(
                r@,
                t,
            ) by {
                assert(self.ext_or0(t) == s4.ext_or0(t) - count_of(y@, t));
                assert(s4.ext_or0(t) == s3.ext_or0(t) - count_of(x@, t));
                assert(s3.arena().ext_or0(t) == s2.arena().ext_or0(t) + count_of(r@, t));
                assert(s2.arena().ext_or0(t) == s1.arena().ext_or0(t) + count_of(y@, t));
                assert(s1.arena().ext_or0(t) == orig.arena().ext_or0(t) + count_of(x@, t));
            }
            assert forall|t: u32| self.arena().ext_or0(t) >= #[trigger] count_of(r@, t) by {
                lemma_ext_nonneg(orig.arena(), t);
            }
            assert forall|kk: int| 0 <= kk < r@.len() implies (#[trigger] r@[kk])
                < self.arena().n() by {
                assert(r@[kk] < s3.arena().n());
            }
            assert(holders_kept(orig, *self)) by {
                assert forall|t: u32|
                    t < orig.arena().n() && orig.arena().ext_or0(t) >= 1 implies #[trigger] self.arena().kind_at(
                    t,
                ) == orig.arena().kind_at(t) by {
                    assert(s1.arena().ext_or0(t) == orig.arena().ext_or0(t) + count_of(x@, t));
                    assert(s2.arena().ext_or0(t) == s1.arena().ext_or0(t) + count_of(y@, t));
                    assert(s1.arena().kind_at(t) == orig.arena().kind_at(t));
                    assert(s2.arena().kind_at(t) == s1.arena().kind_at(t));
                    assert(s3.arena().kind_at(t) == s2.arena().kind_at(t));
                    assert(s4.arena().kind_at(t) == s3.arena().kind_at(t));
                    assert(self.arena().kind_at(t) == s4.arena().kind_at(t));
                }
            }
            // value: the released temporaries do not disturb the result
            assert forall|t: u32| s4.arena().ext_or0(t) >= #[trigger] count_of(r@, t) by {
                assert(s4.ext_or0(t) == s3.ext_or0(t) - count_of(x@, t));
                assert(s3.arena().ext_or0(t) == s2.arena().ext_or0(t) + count_of(r@, t));
                assert(s2.arena().ext_or0(t) == s1.arena().ext_or0(t) + count_of(y@, t));
                assert(s1.arena().ext_or0(t) == orig.arena().ext_or0(t) + count_of(x@, t));
                lemma_ext_nonneg(orig.arena(), t);
            }
            assert forall|kk: int| 0 <= kk < r@.len() implies (#[trigger] r@[kk])
                < s3.arena().n() by {}
            assert(s4.value(r) == s3.value(r)) by {
                lemma_value_preserved(s3, s4, r);
            }
            assert(self.value(r) == s4.value(r)) by {
                assert(s4.wf_word(r));
                lemma_value_preserved(s4, *self, r);
            }
            assert(self.value(*a) == orig.value(*a)) by {
                assert(s2.value(*a) == orig.value(*a));
                assert forall|t: u32| s3.arena().ext_or0(t) >= #[trigger] count_of(a@, t) by {
                    assert(s3.arena().ext_or0(t) == s2.arena().ext_or0(t) + count_of(r@, t));
                    assert(s2.arena().ext_or0(t) >= count_of(a@, t));
                }
                assert forall|kk: int| 0 <= kk < a@.len() implies (#[trigger] a@[kk])
                    < s3.arena().n() by {
                    assert(a@[kk] < s2.arena().n());
                }
                assert(s3.wf_word(*a));
                lemma_value_preserved(s2, s3, *a);
                assert forall|t: u32| s4.arena().ext_or0(t) >= #[trigger] count_of(a@, t) by {
                    assert(s4.ext_or0(t) == s3.ext_or0(t) - count_of(x@, t));
                    assert(s3.arena().ext_or0(t) == s2.arena().ext_or0(t) + count_of(r@, t));
                    assert(s2.arena().ext_or0(t) == s1.arena().ext_or0(t) + count_of(y@, t));
                    assert(s1.arena().ext_or0(t) == orig.arena().ext_or0(t) + count_of(x@, t));
                    assert(orig.arena().ext_or0(t) >= count_of(a@, t));
                }
                lemma_value_preserved(s3, s4, *a);
                lemma_value_preserved(s4, *self, *a);
            }
            if orig.value(*a) is Some {
                let v = orig.value(*a).unwrap();
                lemma_word_value_bound(orig.arena(), a@);
                let sx = (v * pow2(kr as nat)) % pow2(width as nat);
                let sy = v / pow2((width - kr) as nat);
                let mm = v % pow2((width - kr) as nat);
                assert(kr < width);
                assert(s3.value(r) == Some(crate::arith::nat_or(sx, sy)));
                assert(sx == pow2(kr as nat) * mm) by {
                    crate::arith::lemma_shl_mod(v, kr as nat, width as nat);
                }
                assert(sy < pow2(kr as nat)) by {
                    vstd::arithmetic::power2::lemma_pow2_adds((width - kr) as nat, kr as nat);
                    vstd::arithmetic::power2::lemma_pow2_pos((width - kr) as nat);
                    vstd::arithmetic::div_mod::lemma_multiply_divide_lt(
                        v as int,
                        pow2((width - kr) as nat) as int,
                        pow2(kr as nat) as int,
                    );
                }
                assert(sx % pow2(kr as nat) == 0) by {
                    crate::arith::lemma_mul_pow2_mod_zero(mm, kr as nat);
                }
                crate::arith::lemma_nat_or_add(sx, sy, kr as nat);
                vstd::arithmetic::mul::lemma_mul_is_commutative(
                    pow2(kr as nat) as int,
                    (v % pow2((width - kr) as nat)) as int,
                );
            }
        }
        r
    }

    /// Rotation right by `k` positions, `k` taken modulo the width.
    pub fn rotr(&mut self, a: &Word, k: usize) -> (r: Word)
        requires
            old(self).inv(),
            old(self).wf_word(*a),
            a@.len() >= 1,
            old(self).room(21 * a@.len() + 27),
        ensures
            wresult(*old(self), *final(self), r),
            grown(*old(self), *final(self), 21 * a@.len() + 2),
            r@.len() == a@.len(),
            final(self).wf_word(*a),
            final(self).value(*a) == old(self).value(*a),
            old(self).value(*a) is Some ==> final(self).value(r) == Some(
                (old(self).value(*a).unwrap() % pow2(((k as nat) % a@.len()) as nat)) * pow2(
                    (a@.len() - ((k as nat) % a@.len())) as nat,
                ) + old(self).value(*a).unwrap() / pow2(((k as nat) % a@.len()) as nat),
            ),
    {
        let ghost orig = *self;
        let width = a.ids.len();
        let kr = k % width;
        let r = self.rotl(a, width - kr);
        proof {
            vstd::arithmetic::power2::lemma2_to64();
            assert(kr as nat == (k as nat) % a@.len());
            if kr == 0 {
                assert(((width - kr) as nat) % a@.len() == 0) by {
                    vstd::arithmetic::div_mod::lemma_mod_self_0(width as int);
                }
                if orig.value(*a) is Some {
                    let v = orig.value(*a).unwrap();
                    lemma_word_value_bound(orig.arena(), a@);
                    lemma_mod_pow2_small(v, width as nat);
                    vstd::arithmetic::power2::lemma_pow2_pos(width as nat);
                    vstd::arithmetic::div_mod::lemma_basic_div(
                        v as int,
                        pow2(width as nat) as int,
                    );
                    assert(pow2(0) == 1);
                    assert(v % pow2(0) == 0 && v / pow2(0) == v) by {
                        vstd::arithmetic::div_mod::lemma_fundamental_div_mod_converse(
                            v as int,
                            1,
                            v as int,
                            0,
                        );
                    }
                }
            } else {
                assert(((width - kr) as nat) % a@.len() == (width - kr) as nat) by {
                    vstd::arithmetic::div_mod::lemma_small_mod(
                        (width - kr) as nat,
                        width as nat,
                    );
                }
            }
        }
        r
    }
}

/// Value preserved across two stable steps.
pub proof fn lemma_value_preserved_chain(a: Formula, b: Formula, c: Formula, w: Word)
    requires
        a.wf_word(w),
        a.arena().n() <= b.arena().n(),
        b.arena().n() <= c.arena().n(),
        holders_kept(a, b),
        holders_kept(b, c),
        forall|t: u32| #[trigger] b.arena().ext_or0(t) >= a.arena().ext_or0(t),
    ensures
        c.value(w) == a.value(w),
{
    lemma_wf_word_preserved(a, b, w);
    lemma_value_preserved(a, b, w);
    lemma_value_preserved(b, c, w);
}



/// Counting distributes over concatenation.
pub proof fn lemma_count_concat(s1: Seq<u32>, s2: Seq<u32>, t: u32)
    ensures
        count_of(s1 + s2, t) == count_of(s1, t) + count_of(s2, t),
    decreases s2.len(),
{
    if s2.len() == 0 {
        assert(s1 + s2 =~= s1);
    } else {
        lemma_count_concat(s1, s2.drop_last(), t);
        assert((s1 + s2).drop_last() =~= s1 + s2.drop_last());
        assert((s1 + s2).last() == s2.last());
    }
}

/// Counts are never negative (a trivial bridge for arithmetic).
pub proof fn lemma_count_nonneg(s: Seq<u32>, t: u32)
    ensures
        count_of(s, t) >= 0,
{
}

/// A word of `false` constants has value zero.
pub proof fn lemma_zero_word_value(b: Bits, ids: Seq<u32>)
    requires
        forall|j: int| 0 <= j < ids.len() ==> b.bit_const(#[trigger] ids[j]) == Some(false),
    ensures
        b.word_value(ids) == Some(0nat),
    decreases ids.len(),
{
    if ids.len() > 0 {
        assert forall|j: int|
            0 <= j < ids.drop_first().len() implies b.bit_const(#[trigger] ids.drop_first()[j])
            == Some(false) by {
            assert(ids.drop_first()[j] == ids[j + 1]);
        }
        lemma_zero_word_value(b, ids.drop_first());
    }
}


impl Formula {
    /// Ripple-carry addition: the sum (low bits) and the carry-out as a
    /// one-bit word.
    #[verifier::rlimit(100)]
    #[verifier::spinoff_prover]
    pub fn addc(&mut self, a: &Word, b: &Word) -> (r: (Word, Word))
        requires
            old(self).inv(),
            old(self).wf_word(*a),
            old(self).wf_word(*b),
            a@.len() == b@.len(),
            old(self).room(45 * a@.len() + 45),
        ensures
            final(self).inv(),
            old(self).arena().n() <= final(self).arena().n(),
            final(self).wf_word(r.0),
            final(self).wf_word(r.1),
            r.0@.len() == a@.len(),
            r.1@.len() == 1,
            forall|t: u32|
                #[trigger] final(self).ext_or0(t) == old(self).ext_or0(t) + count_of(r.0@, t)
                    + count_of(r.1@, t),
            holders_kept(*old(self), *final(self)),
            grown(*old(self), *final(self), 45 * a@.len() + 3),
            final(self).wf_word(*a),
            final(self).wf_word(*b),
            final(self).value(*a) == old(self).value(*a),
            final(self).value(*b) == old(self).value(*b),
            (old(self).value(*a) is Some && old(self).value(*b) is Some) ==> final(self).value(
                r.0,
            ) == Some(
                (old(self).value(*a).unwrap() + old(self).value(*b).unwrap()) % pow2(a@.len()),
            ) && final(self).value(r.1) == Some(
                if old(self).value(*a).unwrap() + old(self).value(*b).unwrap() >= pow2(a@.len()) {
                    1nat
                } else {
                    0nat
                },
            ),
    {
        let ghost orig = *self;
        let width = a.ids.len();
        let mut ids: Vec<u32> = Vec::new();
        let mut carry = self.bits.val(false);
        let ghost s_start = *self;
        let mut i: usize = 0;
        proof {
            assert forall|t: u32|
                #[trigger] self.arena().ext_or0(t) == orig.arena().ext_or0(t) + count_of(
                ids@,
                t,
            ) + (if t == carry {
                1int
            } else {
                0int
            }) by {}
            assert forall|k: int|
                0 <= k < a@.len() implies self.arena().bit_const(#[trigger] a@[k])
                == orig.arena().bit_const(a@[k]) by {
                lemma_count_member(a@, k);
                lemma_ext_nonneg(orig.arena(), a@[k]);
                assert(orig.arena().ext_or0(a@[k]) >= 1);
                assert(self.arena().kind_at(a@[k]) == orig.arena().kind_at(a@[k]));
            }
            assert forall|k: int|
                0 <= k < b@.len() implies self.arena().bit_const(#[trigger] b@[k])
                == orig.arena().bit_const(b@[k]) by {
                lemma_count_member(b@, k);
                lemma_ext_nonneg(orig.arena(), b@[k]);
                assert(orig.arena().ext_or0(b@[k]) >= 1);
                assert(self.arena().kind_at(b@[k]) == orig.arena().kind_at(b@[k]));
            }
            if orig.value(*a) is Some && orig.value(*b) is Some {
                let va = orig.value(*a).unwrap();
                let vb = orig.value(*b).unwrap();
                vstd::arithmetic::power2::lemma2_to64();
                assert(va % pow2(0) == 0 && vb % pow2(0) == 0) by {
                    vstd::arithmetic::div_mod::lemma_fundamental_div_mod_converse(
                        va as int,
                        1,
                        va as int,
                        0,
                    );
                    vstd::arithmetic::div_mod::lemma_fundamental_div_mod_converse(
                        vb as int,
                        1,
                        vb as int,
                        0,
                    );
                }
                assert(!crate::arith::carry_at(va, vb, 0));
            }
        }
        while i < width
            invariant
                orig.inv(),
                orig.wf_word(*a),
                orig.wf_word(*b),
                orig.room(45 * a@.len() + 45),
                width == a@.len() && width == b@.len(),
                i <= width,
                ids@.len() == i,
                self.inv(),
                orig.arena().n() <= self.arena().n(),
                carry < self.arena().n(),
                bounded_growth(orig.arena(), self.arena(), (45 * i) as nat + 3),
                forall|k: int| 0 <= k < i ==> (#[trigger] ids@[k]) < self.arena().n(),
                forall|t: u32|
                    #[trigger] self.arena().ext_or0(t) == orig.arena().ext_or0(t) + count_of(
                        ids@,
                        t,
                    ) + (if t == carry {
                        1int
                    } else {
                        0int
                    }),
                holders_kept(orig, *self),
                forall|k: int|
                    0 <= k < a@.len() ==> self.arena().bit_const(#[trigger] a@[k])
                        == orig.arena().bit_const(a@[k]),
                forall|k: int|
                    0 <= k < b@.len() ==> self.arena().bit_const(#[trigger] b@[k])
                        == orig.arena().bit_const(b@[k]),
                (orig.value(*a) is Some && orig.value(*b) is Some) ==> self.arena().bit_const(
                    carry,
                ) == Some(
                    crate::arith::carry_at(
                        orig.value(*a).unwrap(),
                        orig.value(*b).unwrap(),
                        i as nat,
                    ),
                ),
                forall|k: int|
                    0 <= k < i && orig.value(*a) is Some && orig.value(*b) is Some
                        ==> #[trigger] self.arena().bit_const(ids@[k]) == Some(
                        nbit(
                            (orig.value(*a).unwrap() + orig.value(*b).unwrap()) as nat,
                            k as nat,
                        ),
                    ),
            decreases width - i,
        {
            let ghost prev = *self;
            proof {
                lemma_room_growth(orig.arena(), self.arena(), (45 * i) as nat + 3, 42);
                lemma_count_member(a@, i as int);
                lemma_count_member(b@, i as int);
                lemma_ext_nonneg(orig.arena(), a@[i as int]);
                lemma_ext_nonneg(orig.arena(), b@[i as int]);
                assert(self.arena().ext_or0(a@[i as int]) >= 1) by {
                    assert(count_of(ids@, a@[i as int]) >= 0);
                }
                assert(self.arena().ext_or0(b@[i as int]) >= 1) by {
                    assert(count_of(ids@, b@[i as int]) >= 0);
                }
                assert(self.arena().held(a@[i as int]));
                assert(self.arena().held(b@[i as int]));
                assert(self.arena().held(carry)) by {
                    lemma_ext_nonneg(orig.arena(), carry);
                    assert(count_of(ids@, carry) >= 0);
                    assert(self.arena().ext_or0(carry) == orig.arena().ext_or0(carry) + count_of(
                        ids@,
                        carry,
                    ) + 1);
                }
            }
            let x = a.ids[i];
            let y = b.ids[i];
            let sc = self.bits.full_adder(x, y, carry);
            let s = sc.0;
            let c = sc.1;
            let ghost mid = *self;
            proof {
                lemma_growth_trans(orig.arena(), prev.arena(), self.arena(), (45 * i) as nat + 3, 39);
                assert(self.arena().ext_at(carry) >= 1) by {
                    lemma_ext_nonneg(orig.arena(), carry);
                    assert(self.arena().ext_or0(carry) == prev.arena().ext_or0(carry) + (if carry
                        == s {
                        1int
                    } else {
                        0int
                    }) + (if carry == c {
                        1int
                    } else {
                        0int
                    }));
                }
            }
            self.bits.decr(carry);
            let ghost old_carry = carry;
            carry = c;
            let ghost ids0 = ids@;
            ids.push(s);
            i = i + 1;
            proof {
                lemma_growth_trans(
                    orig.arena(),
                    mid.arena(),
                    self.arena(),
                    (45 * (i - 1)) as nat + 42,
                    0,
                );
                assert(bounded_growth(orig.arena(), self.arena(), (45 * i) as nat + 3));
                assert(self.arena().live(c) && self.arena().live(s)) by {
                    lemma_ext_nonneg(orig.arena(), c);
                    lemma_ext_nonneg(orig.arena(), s);
                    assert(count_of(ids0, c) >= 0 && count_of(ids0, s) >= 0);
                    assert(prev.arena().ext_or0(c) == orig.arena().ext_or0(c) + count_of(
                        ids0,
                        c,
                    ) + (if c == old_carry {
                        1int
                    } else {
                        0int
                    }));
                    assert(prev.arena().ext_or0(s) == orig.arena().ext_or0(s) + count_of(
                        ids0,
                        s,
                    ) + (if s == old_carry {
                        1int
                    } else {
                        0int
                    }));
                    assert(mid.arena().ext_or0(c) == prev.arena().ext_or0(c) + (if c == s {
                        1int
                    } else {
                        0int
                    }) + 1);
                    assert(mid.arena().ext_or0(s) == prev.arena().ext_or0(s) + 1 + (if s == c {
                        1int
                    } else {
                        0int
                    }));
                    assert(self.arena().ext_or0(c) == mid.arena().ext_or0(c) - (if c == old_carry {
                        1int
                    } else {
                        0int
                    }));
                    assert(self.arena().ext_or0(s) == mid.arena().ext_or0(s) - (if s == old_carry {
                        1int
                    } else {
                        0int
                    }));
                    lemma_ext_live(self.arena(), c);
                    lemma_ext_live(self.arena(), s);
                }
                assert forall|t: u32|
                    #[trigger] self.arena().ext_or0(t) == orig.arena().ext_or0(t) + count_of(
                    ids@,
                    t,
                ) + (if t == carry {
                    1int
                } else {
                    0int
                }) by {
                    lemma_count_push(ids0, s, t);
                    assert(mid.arena().ext_or0(t) == prev.arena().ext_or0(t) + (if t == s {
                        1int
                    } else {
                        0int
                    }) + (if t == c {
                        1int
                    } else {
                        0int
                    }));
                    assert(self.arena().ext_or0(t) == mid.arena().ext_or0(t) - (if t == old_carry {
                        1int
                    } else {
                        0int
                    }));
                    assert(prev.arena().ext_or0(t) == orig.arena().ext_or0(t) + count_of(ids0, t)
                        + (if t == old_carry {
                        1int
                    } else {
                        0int
                    }));
                }
                assert forall|k: int|
                    0 <= k < a@.len() implies self.arena().bit_const(#[trigger] a@[k])
                    == orig.arena().bit_const(a@[k]) by {
                    lemma_count_member(a@, k);
                    lemma_ext_nonneg(orig.arena(), a@[k]);
                    assert(prev.arena().ext_or0(a@[k]) >= 1);
                    assert(mid.arena().kind_at(a@[k]) == prev.arena().kind_at(a@[k]));
                    assert(mid.arena().ext_or0(a@[k]) >= 1);
                    assert(self.arena().kind_at(a@[k]) == mid.arena().kind_at(a@[k]));
                }
                assert forall|k: int|
                    0 <= k < b@.len() implies self.arena().bit_const(#[trigger] b@[k])
                    == orig.arena().bit_const(b@[k]) by {
                    lemma_count_member(b@, k);
                    lemma_ext_nonneg(orig.arena(), b@[k]);
                    assert(prev.arena().ext_or0(b@[k]) >= 1);
                    assert(mid.arena().kind_at(b@[k]) == prev.arena().kind_at(b@[k]));
                    assert(mid.arena().ext_or0(b@[k]) >= 1);
                    assert(self.arena().kind_at(b@[k]) == mid.arena().kind_at(b@[k]));
                }
                if orig.value(*a) is Some && orig.value(*b) is Some {
                    let va = orig.value(*a).unwrap();
                    let vb = orig.value(*b).unwrap();
                    lemma_word_value_bits(orig.arena(), a@, i - 1);
                    lemma_word_value_bits(orig.arena(), b@, i - 1);
                    crate::arith::lemma_add_bit(va, vb, (i - 1) as nat);
                    assert(prev.arena().bit_const(x) == Some(nbit(va, (i - 1) as nat)));
                    assert(prev.arena().bit_const(y) == Some(nbit(vb, (i - 1) as nat)));
                    assert(mid.arena().bit_const(s) == Some(nbit((va + vb) as nat, (i - 1) as nat)));
                    assert(mid.arena().bit_const(c) == Some(
                        crate::arith::carry_at(va, vb, i as nat),
                    ));
                    assert(self.arena().kind_at(s) == mid.arena().kind_at(s)
                        && self.arena().kind_at(c) == mid.arena().kind_at(c)) by {
                        lemma_ext_nonneg(orig.arena(), c);
                        lemma_ext_nonneg(orig.arena(), s);
                        assert(count_of(ids0, c) >= 0 && count_of(ids0, s) >= 0);
                        assert(prev.arena().ext_or0(c) == orig.arena().ext_or0(c) + count_of(
                            ids0,
                            c,
                        ) + (if c == old_carry {
                            1int
                        } else {
                            0int
                        }));
                        assert(prev.arena().ext_or0(s) == orig.arena().ext_or0(s) + count_of(
                            ids0,
                            s,
                        ) + (if s == old_carry {
                            1int
                        } else {
                            0int
                        }));
                        assert(mid.arena().ext_or0(c) == prev.arena().ext_or0(c) + (if c == s {
                            1int
                        } else {
                            0int
                        }) + 1);
                        assert(mid.arena().ext_or0(s) == prev.arena().ext_or0(s) + 1 + (if s == c {
                            1int
                        } else {
                            0int
                        }));
                        assert(mid.arena().ext_or0(s) >= 1);
                        assert(mid.arena().ext_or0(c) >= 1);
                    }
                    assert forall|k: int|
                        0 <= k < i implies #[trigger] self.arena().bit_const(ids@[k]) == Some(
                        nbit((va + vb) as nat, k as nat),
                    ) by {
                        if k < i - 1 {
                            lemma_count_member(ids0, k);
                            lemma_ext_nonneg(orig.arena(), ids0[k]);
                            assert(prev.arena().ext_or0(ids0[k]) == orig.arena().ext_or0(
                                ids0[k],
                            ) + count_of(ids0, ids0[k]) + (if ids0[k] == old_carry {
                                1int
                            } else {
                                0int
                            }));
                            assert(prev.arena().ext_or0(ids0[k]) >= 1);
                            assert(mid.arena().kind_at(ids0[k]) == prev.arena().kind_at(ids0[k]));
                            assert(mid.arena().ext_or0(ids0[k]) >= 1) by {
                                assert(mid.arena().ext_or0(ids0[k]) == prev.arena().ext_or0(
                                    ids0[k],
                                ) + (if ids0[k] == s {
                                    1int
                                } else {
                                    0int
                                }) + (if ids0[k] == c {
                                    1int
                                } else {
                                    0int
                                }));
                            }
                            assert(self.arena().kind_at(ids0[k]) == mid.arena().kind_at(ids0[k]));
                            assert(ids0[k] == ids@[k]);
                            assert(self.arena().bit_const(ids@[k]) == prev.arena().bit_const(
                                ids0[k],
                            ));
                        } else {
                            assert(ids@[k] == s);
                        }
                    }
                }
            }
        }
        let cw_ids = {
            let mut cw: Vec<u32> = Vec::new();
            cw.push(carry);
            cw
        };
        let carry_word = Word { ids: cw_ids };
        let sum = Word { ids };
        proof {
            assert(carry_word@ =~= Seq::<u32>::empty().push(carry));
            assert forall|t: u32|
                #[trigger] self.arena().ext_or0(t) == orig.arena().ext_or0(t) + count_of(
                sum@,
                t,
            ) + count_of(carry_word@, t) by {
                lemma_count_push(Seq::<u32>::empty(), carry, t);
                assert(count_of(Seq::<u32>::empty(), t) == 0);
                assert(count_of(carry_word@, t) == (if t == carry {
                    1int
                } else {
                    0int
                }));
            }
            assert forall|t: u32| self.arena().ext_or0(t) >= #[trigger] count_of(sum@, t) by {
                lemma_ext_nonneg(orig.arena(), t);
                assert(count_of(carry_word@, t) >= 0);
            }
            assert forall|t: u32| self.arena().ext_or0(t) >= #[trigger] count_of(
                carry_word@,
                t,
            ) by {
                lemma_ext_nonneg(orig.arena(), t);
                assert(count_of(Seq::<u32>::empty(), t) == 0);
                lemma_count_push(Seq::<u32>::empty(), carry, t);
                assert(count_of(carry_word@, t) == (if t == carry {
                    1int
                } else {
                    0int
                }));
            }
            assert forall|t: u32| self.arena().ext_or0(t) >= #[trigger] count_of(a@, t) by {
                lemma_ext_nonneg(orig.arena(), t);
                assert(orig.arena().ext_or0(t) >= count_of(a@, t));
                assert(count_of(carry_word@, t) >= 0);
            }
            assert forall|t: u32| self.arena().ext_or0(t) >= #[trigger] count_of(b@, t) by {
                lemma_ext_nonneg(orig.arena(), t);
                assert(orig.arena().ext_or0(t) >= count_of(b@, t));
                assert(count_of(carry_word@, t) >= 0);
            }
            lemma_word_value_stable(orig.arena(), self.arena(), a@);
            lemma_word_value_stable(orig.arena(), self.arena(), b@);
            if orig.value(*a) is Some && orig.value(*b) is Some {
                let va = orig.value(*a).unwrap();
                let vb = orig.value(*b).unwrap();
                let sv = ((va + vb) as nat) % pow2(width as nat);
                assert forall|k: int|
                    0 <= k < width implies self.arena().bit_const(sum@[k]) == Some(
                    nbit(sv, k as nat),
                ) by {
                    crate::arith::lemma_nbit_mod_pow2((va + vb) as nat, width as nat, k as nat);
                }
                assert(sv < pow2(width as nat)) by {
                    vstd::arithmetic::power2::lemma_pow2_pos(width as nat);
                    vstd::arithmetic::div_mod::lemma_mod_bound(
                        (va + vb) as int,
                        pow2(width as nat) as int,
                    );
                }
                lemma_bits_word_value(self.arena(), sum@, sv);
                // the carry-out bit
                lemma_word_value_bound(orig.arena(), a@);
                lemma_word_value_bound(orig.arena(), b@);
                lemma_mod_pow2_small(va, width as nat);
                lemma_mod_pow2_small(vb, width as nat);
                assert(crate::arith::carry_at(va, vb, width as nat) == (va + vb >= pow2(
                    width as nat,
                )));
                let cb = if va + vb >= pow2(width as nat) {
                    1nat
                } else {
                    0nat
                };
                assert forall|k: int|
                    0 <= k < 1 implies self.arena().bit_const(carry_word@[k]) == Some(
                    nbit(cb, k as nat),
                ) by {
                    crate::arith::lemma_nbit_zero(cb);
                }
                assert(cb < pow2(1)) by {
                    vstd::arithmetic::power2::lemma2_to64();
                }
                lemma_bits_word_value(self.arena(), carry_word@, cb);
            }
        }
        (sum, carry_word)
    }

    /// Addition modulo two to the width: the low bits of the sum.
    pub fn add(&mut self, a: &Word, b: &Word) -> (r: Word)
        requires
            old(self).inv(),
            old(self).wf_word(*a),
            old(self).wf_word(*b),
            a@.len() == b@.len(),
            old(self).room(45 * a@.len() + 45),
        ensures
            wresult(*old(self), *final(self), r),
            grown(*old(self), *final(self), 45 * a@.len() + 3),
            r@.len() == a@.len(),
            final(self).wf_word(*a),
            final(self).wf_word(*b),
            final(self).value(*a) == old(self).value(*a),
            final(self).value(*b) == old(self).value(*b),
            (old(self).value(*a) is Some && old(self).value(*b) is Some) ==> final(self).value(r)
                == Some(
                (old(self).value(*a).unwrap() + old(self).value(*b).unwrap()) % pow2(a@.len()),
            ),
    {
        let ghost orig = *self;
        let sc = self.addc(a, b);
        let sum = sc.0;
        let carry = sc.1;
        let ghost s1 = *self;
        self.drop_word(carry);
        proof {
            assert forall|t: u32|
                #[trigger] self.arena().ext_or0(t) == orig.arena().ext_or0(t) + count_of(
                sum@,
                t,
            ) by {
                assert(self.ext_or0(t) == s1.ext_or0(t) - count_of(carry@, t));
                assert(s1.ext_or0(t) == orig.ext_or0(t) + count_of(sum@, t) + count_of(
                    carry@,
                    t,
                ));
            }
            assert forall|t: u32| self.arena().ext_or0(t) >= #[trigger] count_of(sum@, t) by {
                lemma_ext_nonneg(orig.arena(), t);
            }
            assert forall|kk: int| 0 <= kk < sum@.len() implies (#[trigger] sum@[kk])
                < self.arena().n() by {
                assert(sum@[kk] < s1.arena().n());
            }
            assert(holders_kept(orig, *self)) by {
                assert forall|t: u32|
                    t < orig.arena().n() && orig.arena().ext_or0(t) >= 1 implies #[trigger] self.arena().kind_at(
                    t,
                ) == orig.arena().kind_at(t) by {
                    assert(s1.arena().kind_at(t) == orig.arena().kind_at(t));
                    assert(self.arena().kind_at(t) == s1.arena().kind_at(t));
                }
            }
            assert(s1.wf_word(sum));
            lemma_value_preserved(s1, *self, sum);
            assert forall|t: u32| self.arena().ext_or0(t) >= #[trigger] count_of(a@, t) by {
                lemma_ext_nonneg(orig.arena(), t);
                assert(orig.arena().ext_or0(t) >= count_of(a@, t));
                assert(self.ext_or0(t) == s1.ext_or0(t) - count_of(carry@, t));
                assert(s1.ext_or0(t) == orig.ext_or0(t) + count_of(sum@, t) + count_of(
                    carry@,
                    t,
                ));
            }
            assert forall|t: u32| self.arena().ext_or0(t) >= #[trigger] count_of(b@, t) by {
                lemma_ext_nonneg(orig.arena(), t);
                assert(orig.arena().ext_or0(t) >= count_of(b@, t));
                assert(self.ext_or0(t) == s1.ext_or0(t) - count_of(carry@, t));
                assert(s1.ext_or0(t) == orig.ext_or0(t) + count_of(sum@, t) + count_of(
                    carry@,
                    t,
                ));
            }
            assert(s1.wf_word(*a));
            assert(s1.wf_word(*b));
            lemma_value_preserved(s1, *self, *a);
            lemma_value_preserved(s1, *self, *b);
        }
        sum
    }
}


/// The running value of a bit-fold over the low `i` bits of `x`.
spec fn fold_sem(op: BinOp, x: nat, i: nat) -> bool {
    match op {
        BinOp::Conj => x % pow2(i) == pow2(i) - 1,
        BinOp::Disj => x % pow2(i) != 0,
        BinOp::Excl => crate::arith::nat_parity(x % pow2(i)),
    }
}

impl Formula {
    /// Reduces a word across its bits with one connective; the running
    /// accumulator is released at each step.
    #[verifier::rlimit(100)]
    #[verifier::spinoff_prover]
    fn fold_word(&mut self, op: BinOp, a: &Word) -> (r: Word)
        requires
            old(self).inv(),
            old(self).wf_word(*a),
            old(self).room(15 * a@.len() + 18),
        ensures
            wresult(*old(self), *final(self), r),
            grown(*old(self), *final(self), 15 * a@.len() + 3),
            r@.len() == 1,
            final(self).wf_word(*a),
            final(self).value(*a) == old(self).value(*a),
            old(self).value(*a) is Some ==> final(self).value(r) == Some(
                if fold_sem(op, old(self).value(*a).unwrap(), a@.len()) {
                    1nat
                } else {
                    0nat
                },
            ),
    {
        let ghost orig = *self;
        let width = a.ids.len();
        let init = match op {
            BinOp::Conj => true,
            BinOp::Disj => false,
            BinOp::Excl => false,
        };
        let mut acc = self.bits.val(init);
        let mut i: usize = 0;
        proof {
            vstd::arithmetic::power2::lemma2_to64();
            if orig.value(*a) is Some {
                let x = orig.value(*a).unwrap();
                assert(x % pow2(0) == 0) by {
                    vstd::arithmetic::div_mod::lemma_fundamental_div_mod_converse(
                        x as int,
                        1,
                        x as int,
                        0,
                    );
                }
            }
            assert forall|k: int|
                0 <= k < a@.len() implies self.arena().bit_const(#[trigger] a@[k])
                == orig.arena().bit_const(a@[k]) by {
                lemma_count_member(a@, k);
                lemma_ext_nonneg(orig.arena(), a@[k]);
                assert(orig.arena().ext_or0(a@[k]) >= 1);
                assert(self.arena().kind_at(a@[k]) == orig.arena().kind_at(a@[k]));
            }
        }
        while i < width
            invariant
                orig.inv(),
                orig.wf_word(*a),
                orig.room(15 * a@.len() + 18),
                width == a@.len(),
                i <= width,
                self.inv(),
                orig.arena().n() <= self.arena().n(),
                acc < self.arena().n(),
                bounded_growth(orig.arena(), self.arena(), (15 * i) as nat + 3),
                forall|t: u32|
                    #[trigger] self.arena().ext_or0(t) == orig.arena().ext_or0(t) + (if t == acc {
                        1int
                    } else {
                        0int
                    }),
                holders_kept(orig, *self),
                forall|k: int|
                    0 <= k < a@.len() ==> self.arena().bit_const(#[trigger] a@[k])
                        == orig.arena().bit_const(a@[k]),
                orig.value(*a) is Some ==> self.arena().bit_const(acc) == Some(
                    fold_sem(op, orig.value(*a).unwrap(), i as nat),
                ),
            decreases width - i,
        {
            let ghost prev = *self;
            proof {
                lemma_room_growth(orig.arena(), self.arena(), (15 * i) as nat + 3, 15);
                lemma_count_member(a@, i as int);
                lemma_ext_nonneg(orig.arena(), a@[i as int]);
                assert(self.arena().ext_or0(a@[i as int]) >= 1);
                assert(self.arena().held(a@[i as int]));
                lemma_ext_nonneg(orig.arena(), acc);
                assert(self.arena().ext_or0(acc) >= 1);
                assert(self.arena().held(acc));
                lemma_ext_live(self.arena(), acc);
                lemma_ext_live(self.arena(), a@[i as int]);
            }
            let bit = a.ids[i];
            let nb = match op {
                BinOp::Conj => self.bits.and(acc, bit),
                BinOp::Disj => self.bits.or(acc, bit),
                BinOp::Excl => self.bits.xor(acc, bit),
            };
            let ghost mid = *self;
            proof {
                lemma_growth_trans(orig.arena(), prev.arena(), self.arena(), (15 * i) as nat + 3, 15);
                assert(self.arena().ext_at(acc) >= 1) by {
                    lemma_ext_nonneg(orig.arena(), acc);
                    assert(mid.arena().ext_or0(acc) == prev.arena().ext_or0(acc) + (if acc == nb {
                        1int
                    } else {
                        0int
                    }));
                }
                if orig.value(*a) is Some {
                    let x = orig.value(*a).unwrap();
                    lemma_word_value_bits(orig.arena(), a@, i as int);
                    assert(prev.arena().bit_const(bit) == Some(nbit(x, i as nat)));
                    match op {
                        BinOp::Conj => {
                            crate::arith::lemma_fold_and_step(x, i as nat);
                        },
                        BinOp::Disj => {
                            crate::arith::lemma_fold_or_step(x, i as nat);
                        },
                        BinOp::Excl => {
                            crate::arith::lemma_parity_step(x, i as nat);
                        },
                    }
                    assert(mid.arena().bit_const(nb) == Some(
                        fold_sem(op, x, (i + 1) as nat),
                    ));
                }
            }
            self.bits.decr(acc);
            let ghost old_acc = acc;
            acc = nb;
            i = i + 1;
            proof {
                assert forall|t: u32|
                    #[trigger] self.arena().ext_or0(t) == orig.arena().ext_or0(t) + (if t == acc {
                    1int
                } else {
                    0int
                }) by {
                    assert(mid.arena().ext_or0(t) == prev.arena().ext_or0(t) + (if t == nb {
                        1int
                    } else {
                        0int
                    }));
                    assert(self.arena().ext_or0(t) == mid.arena().ext_or0(t) - (if t == old_acc {
                        1int
                    } else {
                        0int
                    }));
                }
                assert(self.arena().live(acc)) by {
                    lemma_ext_nonneg(orig.arena(), acc);
                    assert(self.arena().ext_or0(acc) == orig.arena().ext_or0(acc) + 1);
                    lemma_ext_live(self.arena(), acc);
                }
                assert forall|k: int|
                    0 <= k < a@.len() implies self.arena().bit_const(#[trigger] a@[k])
                    == orig.arena().bit_const(a@[k]) by {
                    lemma_count_member(a@, k);
                    lemma_ext_nonneg(orig.arena(), a@[k]);
                    assert(prev.arena().ext_or0(a@[k]) >= 1);
                    assert(mid.arena().kind_at(a@[k]) == prev.arena().kind_at(a@[k]));
                    assert(mid.arena().ext_or0(a@[k]) == prev.arena().ext_or0(a@[k]) + (if a@[k]
                        == nb {
                        1int
                    } else {
                        0int
                    }));
                    assert(self.arena().kind_at(a@[k]) == mid.arena().kind_at(a@[k]));
                }
                if orig.value(*a) is Some {
                    assert(self.arena().bit_const(acc) == mid.arena().bit_const(acc)) by {
                        assert(self.arena().kind_at(acc) == mid.arena().kind_at(acc));
                    }
                }
            }
        }
        let ids = {
            let mut v: Vec<u32> = Vec::new();
            v.push(acc);
            v
        };
        let r = Word { ids };
        proof {
            assert(r@ =~= Seq::<u32>::empty().push(acc));
            assert forall|t: u32|
                #[trigger] self.arena().ext_or0(t) == orig.arena().ext_or0(t) + count_of(
                r@,
                t,
            ) by {
                lemma_count_push(Seq::<u32>::empty(), acc, t);
                assert(count_of(Seq::<u32>::empty(), t) == 0);
            }
            assert forall|t: u32| self.arena().ext_or0(t) >= #[trigger] count_of(r@, t) by {
                lemma_ext_nonneg(orig.arena(), t);
                lemma_count_push(Seq::<u32>::empty(), acc, t);
                assert(count_of(Seq::<u32>::empty(), t) == 0);
            }
            assert forall|t: u32| self.arena().ext_or0(t) >= #[trigger] count_of(a@, t) by {
                lemma_ext_nonneg(orig.arena(), t);
                assert(orig.arena().ext_or0(t) >= count_of(a@, t));
            }
            lemma_word_value_stable(orig.arena(), self.arena(), a@);
            if orig.value(*a) is Some {
                let x = orig.value(*a).unwrap();
                let bv: nat = if fold_sem(op, x, width as nat) {
                    1nat
                } else {
                    0nat
                };
                assert forall|k: int|
                    0 <= k < 1 implies self.arena().bit_const(r@[k]) == Some(
                    nbit(bv, k as nat),
                ) by {
                    crate::arith::lemma_nbit_zero(bv);
                }
                assert(bv < pow2(1)) by {
                    vstd::arithmetic::power2::lemma2_to64();
                }
                lemma_bits_word_value(self.arena(), r@, bv);
            }
        }
        r
    }

    /// Conjunction across all bits: one exactly when every bit is set.
    pub fn fold_and(&mut self, a: &Word) -> (r: Word)
        requires
            old(self).inv(),
            old(self).wf_word(*a),
            old(self).room(15 * a@.len() + 18),
        ensures
            wresult(*old(self), *final(self), r),
            grown(*old(self), *final(self), 15 * a@.len() + 3),
            r@.len() == 1,
            final(self).wf_word(*a),
            final(self).value(*a) == old(self).value(*a),
            old(self).value(*a) is Some ==> final(self).value(r) == Some(
                if old(self).value(*a).unwrap() == pow2(a@.len()) - 1 {
                    1nat
                } else {
                    0nat
                },
            ),
    {
        let ghost orig = *self;
        let r = self.fold_word(BinOp::Conj, a);
        proof {
            if orig.value(*a) is Some {
                lemma_word_value_bound(orig.arena(), a@);
                lemma_mod_pow2_small(orig.value(*a).unwrap(), a@.len());
            }
        }
        r
    }

    /// Disjunction across all bits: one exactly when some bit is set.
    pub fn fold_or(&mut self, a: &Word) -> (r: Word)
        requires
            old(self).inv(),
            old(self).wf_word(*a),
            old(self).room(15 * a@.len() + 18),
        ensures
            wresult(*old(self), *final(self), r),
            grown(*old(self), *final(self), 15 * a@.len() + 3),
            r@.len() == 1,
            final(self).wf_word(*a),
            final(self).value(*a) == old(self).value(*a),
            old(self).value(*a) is Some ==> final(self).value(r) == Some(
                if old(self).value(*a).unwrap() == 0 {
                    0nat
                } else {
                    1nat
                },
            ),
    {
        let ghost orig = *self;
        let r = self.fold_word(BinOp::Disj, a);
        proof {
            if orig.value(*a) is Some {
                lemma_word_value_bound(orig.arena(), a@);
                lemma_mod_pow2_small(orig.value(*a).unwrap(), a@.len());
            }
        }
        r
    }

    /// Exclusive disjunction across all bits: the word's parity.
    pub fn fold_xor(&mut self, a: &Word) -> (r: Word)
        requires
            old(self).inv(),
            old(self).wf_word(*a),
            old(self).room(15 * a@.len() + 18),
        ensures
            wresult(*old(self), *final(self), r),
            grown(*old(self), *final(self), 15 * a@.len() + 3),
            r@.len() == 1,
            final(self).wf_word(*a),
            final(self).value(*a) == old(self).value(*a),
            old(self).value(*a) is Some ==> final(self).value(r) == Some(
                if crate::arith::nat_parity(old(self).value(*a).unwrap()) {
                    1nat
                } else {
                    0nat
                },
            ),
    {
        let ghost orig = *self;
        let r = self.fold_word(BinOp::Excl, a);
        proof {
            if orig.value(*a) is Some {
                lemma_word_value_bound(orig.arena(), a@);
                lemma_mod_pow2_small(orig.value(*a).unwrap(), a@.len());
            }
        }
        r
    }
}


impl Formula {
    /// Two's-complement negation: complement plus one, modulo the width.
    #[verifier::rlimit(100)]
    #[verifier::spinoff_prover]
    pub fn neg(&mut self, b: &Word) -> (r: Word)
        requires
            old(self).inv(),
            old(self).wf_word(*b),
            old(self).room(51 * b@.len() + 60),
        ensures
            wresult(*old(self), *final(self), r),
            grown(*old(self), *final(self), 51 * b@.len() + 9),
            r@.len() == b@.len(),
            final(self).wf_word(*b),
            final(self).value(*b) == old(self).value(*b),
            old(self).value(*b) is Some ==> final(self).value(r) == Some(
                ((pow2(b@.len()) - old(self).value(*b).unwrap()) as nat) % pow2(b@.len()),
            ),
    {
        let ghost orig = *self;
        let width = b.ids.len();
        let n1 = self.not(b);
        let ghost s1 = *self;
        proof {
            lemma_room_growth(orig.arena(), s1.arena(), 3 * b@.len() + 3, 48 * b@.len() + 57);
        }
        let one = self.from_u64(1, width);
        let ghost s2 = *self;
        proof {
            lemma_growth_trans(
                orig.arena(),
                s1.arena(),
                s2.arena(),
                3 * b@.len() + 3,
                3 * b@.len(),
            );
            lemma_room_growth(orig.arena(), s2.arena(), 6 * b@.len() + 3, 45 * b@.len() + 57);
            assert forall|t: u32| #[trigger] s2.arena().ext_or0(t) >= s1.arena().ext_or0(t) by {
                assert(s2.arena().ext_or0(t) == s1.arena().ext_or0(t) + count_of(one@, t));
            }
            lemma_wf_word_preserved(s1, s2, n1);
            lemma_value_preserved(s1, s2, n1);
        }
        let s = self.add(&n1, &one);
        let ghost s3 = *self;
        proof {
            lemma_growth_trans(
                orig.arena(),
                s2.arena(),
                s3.arena(),
                6 * b@.len() + 3,
                45 * b@.len() + 3,
            );
        }
        self.drop_word(n1);
        let ghost s4 = *self;
        proof {
            assert forall|t: u32| s4.arena().ext_or0(t) >= #[trigger] count_of(one@, t) by {
                assert(s4.ext_or0(t) == s3.ext_or0(t) - count_of(n1@, t));
                assert(s3.arena().ext_or0(t) == s2.arena().ext_or0(t) + count_of(s@, t));
                assert(s2.ext_or0(t) == s1.ext_or0(t) + count_of(one@, t));
                assert(s1.ext_or0(t) == orig.ext_or0(t) + count_of(n1@, t));
                lemma_ext_nonneg(orig.arena(), t);
            }
            assert forall|kk: int| 0 <= kk < one@.len() implies (#[trigger] one@[kk])
                < s4.arena().n() by {
                assert(one@[kk] < s2.arena().n());
            }
        }
        self.drop_word(one);
        proof {
            lemma_growth_trans(orig.arena(), s3.arena(), self.arena(), 51 * b@.len() + 9, 0);
            assert forall|t: u32|
                #[trigger] self.arena().ext_or0(t) == orig.arena().ext_or0(t) + count_of(
                s@,
                t,
            ) by {
                assert(self.ext_or0(t) == s4.ext_or0(t) - count_of(one@, t));
                assert(s4.ext_or0(t) == s3.ext_or0(t) - count_of(n1@, t));
                assert(s3.arena().ext_or0(t) == s2.arena().ext_or0(t) + count_of(s@, t));
                assert(s2.ext_or0(t) == s1.ext_or0(t) + count_of(one@, t));
                assert(s1.ext_or0(t) == orig.ext_or0(t) + count_of(n1@, t));
            }
            assert forall|t: u32| self.arena().ext_or0(t) >= #[trigger] count_of(s@, t) by {
                lemma_ext_nonneg(orig.arena(), t);
            }
            assert forall|t: u32| self.arena().ext_or0(t) >= #[trigger] count_of(b@, t) by {
                lemma_ext_nonneg(orig.arena(), t);
                assert(orig.arena().ext_or0(t) >= count_of(b@, t));
                assert(self.ext_or0(t) == s4.ext_or0(t) - count_of(one@, t));
                assert(s4.ext_or0(t) == s3.ext_or0(t) - count_of(n1@, t));
                assert(s3.arena().ext_or0(t) == s2.arena().ext_or0(t) + count_of(s@, t));
                assert(s2.ext_or0(t) == s1.ext_or0(t) + count_of(one@, t));
                assert(s1.ext_or0(t) == orig.ext_or0(t) + count_of(n1@, t));
            }
            assert forall|kk: int| 0 <= kk < s@.len() implies (#[trigger] s@[kk])
                < self.arena().n() by {
                assert(s@[kk] < s3.arena().n());
            }
            assert forall|kk: int| 0 <= kk < b@.len() implies (#[trigger] b@[kk])
                < self.arena().n() by {
                assert(b@[kk] < orig.arena().n());
            }
            assert(holders_kept(orig, *self)) by {
                assert forall|t: u32|
                    t < orig.arena().n() && orig.arena().ext_or0(t) >= 1 implies #[trigger] self.arena().kind_at(
                    t,
                ) == orig.arena().kind_at(t) by {
                    assert(s1.ext_or0(t) == orig.ext_or0(t) + count_of(n1@, t));
                    assert(s2.ext_or0(t) == s1.ext_or0(t) + count_of(one@, t));
                    assert(s1.arena().kind_at(t) == orig.arena().kind_at(t));
                    assert(s2.arena().kind_at(t) == s1.arena().kind_at(t));
                    assert(s3.arena().kind_at(t) == s2.arena().kind_at(t));
                    assert(s4.arena().kind_at(t) == s3.arena().kind_at(t));
                    assert(self.arena().kind_at(t) == s4.arena().kind_at(t));
                }
            }
            assert(s3.wf_word(s));
            lemma_value_preserved(s3, s4, s);
            assert(s4.wf_word(s)) by {
                assert forall|t: u32| s4.arena().ext_or0(t) >= #[trigger] count_of(s@, t) by {
                    assert(s4.ext_or0(t) == s3.ext_or0(t) - count_of(n1@, t));
                    assert(s3.arena().ext_or0(t) == s2.arena().ext_or0(t) + count_of(s@, t));
                    assert(s2.ext_or0(t) == s1.ext_or0(t) + count_of(one@, t));
                    assert(s1.ext_or0(t) == orig.ext_or0(t) + count_of(n1@, t));
                    lemma_ext_nonneg(orig.arena(), t);
                }
            }
            lemma_value_preserved(s4, *self, s);
            assert(self.value(*b) == orig.value(*b)) by {
                assert(s1.value(*b) == orig.value(*b));
                assert(s1.wf_word(*b));
                assert forall|t: u32| #[trigger] s2.arena().ext_or0(t) >= s1.arena().ext_or0(
                    t,
                ) by {
                    assert(s2.ext_or0(t) == s1.ext_or0(t) + count_of(one@, t));
                }
                lemma_wf_word_preserved(s1, s2, *b);
                lemma_value_preserved(s1, s2, *b);
                assert forall|t: u32| #[trigger] s3.arena().ext_or0(t) >= s2.arena().ext_or0(
                    t,
                ) by {
                    assert(s3.arena().ext_or0(t) == s2.arena().ext_or0(t) + count_of(s@, t));
                }
                lemma_wf_word_preserved(s2, s3, *b);
                lemma_value_preserved(s2, s3, *b);
                assert(s3.wf_word(*b));
                assert(s4.wf_word(*b)) by {
                    assert forall|t: u32| s4.arena().ext_or0(t) >= #[trigger] count_of(
                        b@,
                        t,
                    ) by {
                        assert(s4.ext_or0(t) == s3.ext_or0(t) - count_of(n1@, t));
                        assert(s3.arena().ext_or0(t) == s2.arena().ext_or0(t) + count_of(s@, t));
                        assert(s2.ext_or0(t) == s1.ext_or0(t) + count_of(one@, t));
                        assert(s1.ext_or0(t) == orig.ext_or0(t) + count_of(n1@, t));
                        lemma_ext_nonneg(orig.arena(), t);
                        assert(orig.arena().ext_or0(t) >= count_of(b@, t));
                    }
                }
                lemma_value_preserved(s3, s4, *b);
                lemma_value_preserved(s4, *self, *b);
            }
            if orig.value(*b) is Some {
                let vb = orig.value(*b).unwrap();
                lemma_word_value_bound(orig.arena(), b@);
                vstd::arithmetic::power2::lemma2_to64();
                if width == 0 {
                    assert(pow2(0) == 1);
                } else {
                    vstd::arithmetic::power2::lemma_pow2_pos(width as nat);
                    assert((1nat) % pow2(width as nat) == 1) by {
                        vstd::arithmetic::power2::lemma_pow2_strictly_increases(
                            0,
                            width as nat,
                        );
                        vstd::arithmetic::div_mod::lemma_small_mod(1nat, pow2(width as nat));
                    }
                    if vb == 0 {
                        vstd::arithmetic::div_mod::lemma_mod_self_0(pow2(width as nat) as int);
                        vstd::arithmetic::div_mod::lemma_small_mod(0nat, pow2(width as nat));
                    } else {
                        vstd::arithmetic::div_mod::lemma_small_mod(
                            (pow2(width as nat) - vb) as nat,
                            pow2(width as nat),
                        );
                    }
                }
            }
        }
        s
    }

    /// Subtraction modulo two to the width.
    #[verifier::rlimit(100)]
    #[verifier::spinoff_prover]
    pub fn sub(&mut self, a: &Word, b: &Word) -> (r: Word)
        requires
            old(self).inv(),
            old(self).wf_word(*a),
            old(self).wf_word(*b),
            a@.len() == b@.len(),
            old(self).room(100 * a@.len() + 120),
        ensures
            wresult(*old(self), *final(self), r),
            grown(*old(self), *final(self), 100 * a@.len() + 12),
            r@.len() == a@.len(),
            final(self).wf_word(*a),
            final(self).wf_word(*b),
            final(self).value(*a) == old(self).value(*a),
            final(self).value(*b) == old(self).value(*b),
            (old(self).value(*a) is Some && old(self).value(*b) is Some) ==> final(self).value(r)
                == Some(
                (((old(self).value(*a).unwrap() + pow2(a@.len())) - old(self).value(
                    *b,
                ).unwrap()) as nat) % pow2(a@.len()),
            ),
    {
        let ghost orig = *self;
        let width = a.ids.len();
        let t = self.neg(b);
        let ghost s1 = *self;
        proof {
            lemma_room_growth(orig.arena(), s1.arena(), 51 * a@.len() + 9, 45 * a@.len() + 45);
            assert forall|t2: u32| #[trigger] s1.arena().ext_or0(t2) >= orig.arena().ext_or0(
                t2,
            ) by {
                assert(s1.arena().ext_or0(t2) == orig.arena().ext_or0(t2) + count_of(t@, t2));
            }
            lemma_wf_word_preserved(orig, s1, *a);
            lemma_value_preserved(orig, s1, *a);
        }
        let r = self.add(a, &t);
        let ghost s2 = *self;
        self.drop_word(t);
        proof {
            lemma_growth_trans(
                orig.arena(),
                s1.arena(),
                s2.arena(),
                51 * a@.len() + 9,
                45 * a@.len() + 3,
            );
            lemma_growth_trans(orig.arena(), s2.arena(), self.arena(), 100 * a@.len() + 12, 0);
            assert forall|t2: u32|
                #[trigger] self.arena().ext_or0(t2) == orig.arena().ext_or0(t2) + count_of(
                r@,
                t2,
            ) by {
                assert(self.ext_or0(t2) == s2.ext_or0(t2) - count_of(t@, t2));
                assert(s2.arena().ext_or0(t2) == s1.arena().ext_or0(t2) + count_of(r@, t2));
                assert(s1.arena().ext_or0(t2) == orig.arena().ext_or0(t2) + count_of(t@, t2));
            }
            assert forall|t2: u32| self.arena().ext_or0(t2) >= #[trigger] count_of(r@, t2) by {
                lemma_ext_nonneg(orig.arena(), t2);
            }
            assert forall|t2: u32| self.arena().ext_or0(t2) >= #[trigger] count_of(a@, t2) by {
                lemma_ext_nonneg(orig.arena(), t2);
                assert(self.ext_or0(t2) == s2.ext_or0(t2) - count_of(t@, t2));
                assert(s2.arena().ext_or0(t2) == s1.arena().ext_or0(t2) + count_of(r@, t2));
                assert(s1.arena().ext_or0(t2) == orig.arena().ext_or0(t2) + count_of(t@, t2));
                assert(orig.arena().ext_or0(t2) >= count_of(a@, t2));
            }
            assert forall|t2: u32| self.arena().ext_or0(t2) >= #[trigger] count_of(b@, t2) by {
                lemma_ext_nonneg(orig.arena(), t2);
                assert(self.ext_or0(t2) == s2.ext_or0(t2) - count_of(t@, t2));
                assert(s2.arena().ext_or0(t2) == s1.arena().ext_or0(t2) + count_of(r@, t2));
                assert(s1.arena().ext_or0(t2) == orig.arena().ext_or0(t2) + count_of(t@, t2));
                assert(orig.arena().ext_or0(t2) >= count_of(b@, t2));
            }
            assert forall|kk: int| 0 <= kk < r@.len() implies (#[trigger] r@[kk])
                < self.arena().n() by {
                assert(r@[kk] < s2.arena().n());
            }
            assert forall|kk: int| 0 <= kk < b@.len() implies (#[trigger] b@[kk])
                < self.arena().n() by {
                assert(b@[kk] < orig.arena().n());
            }
            assert(holders_kept(orig, *self)) by {
                assert forall|t2: u32|
                    t2 < orig.arena().n() && orig.arena().ext_or0(t2) >= 1 implies #[trigger] self.arena().kind_at(
                    t2,
                ) == orig.arena().kind_at(t2) by {
                    assert(s1.arena().ext_or0(t2) == orig.arena().ext_or0(t2) + count_of(
                        t@,
                        t2,
                    ));
                    assert(s1.arena().kind_at(t2) == orig.arena().kind_at(t2));
                    assert(s2.arena().kind_at(t2) == s1.arena().kind_at(t2));
                    assert(self.arena().kind_at(t2) == s2.arena().kind_at(t2));
                }
            }
            assert(s2.wf_word(r));
            lemma_value_preserved(s2, *self, r);
            assert(self.value(*b) == orig.value(*b)) by {
                assert(s1.value(*b) == orig.value(*b));
                assert(s1.wf_word(*b));
                assert forall|t2: u32| #[trigger] s2.arena().ext_or0(t2) >= s1.arena().ext_or0(
                    t2,
                ) by {
                    assert(s2.arena().ext_or0(t2) == s1.arena().ext_or0(t2) + count_of(r@, t2));
                }
                lemma_wf_word_preserved(s1, s2, *b);
                lemma_value_preserved(s1, s2, *b);
                assert(s2.wf_word(*b)) by {
                    assert forall|t2: u32| s2.arena().ext_or0(t2) >= #[trigger] count_of(
                        b@,
                        t2,
                    ) by {
                        assert(s2.arena().ext_or0(t2) == s1.arena().ext_or0(t2) + count_of(
                            r@,
                            t2,
                        ));
                        assert(s1.arena().ext_or0(t2) == orig.arena().ext_or0(t2) + count_of(
                            t@,
                            t2,
                        ));
                        lemma_ext_nonneg(orig.arena(), t2);
                        assert(orig.arena().ext_or0(t2) >= count_of(b@, t2));
                    }
                }
                lemma_value_preserved(s2, *self, *b);
            }
            assert(self.value(*a) == orig.value(*a)) by {
                assert(s2.wf_word(*a));
                lemma_value_preserved(s2, *self, *a);
            }
            if orig.value(*a) is Some && orig.value(*b) is Some {
                let va = orig.value(*a).unwrap();
                let vb = orig.value(*b).unwrap();
                lemma_word_value_bound(orig.arena(), b@);
                let nv = ((pow2(width as nat) - vb) as nat) % pow2(width as nat);
                assert(s2.value(r) == Some((va + nv) % pow2(width as nat)));
                vstd::arithmetic::div_mod::lemma_add_mod_noop_right(
                    va as int,
                    (pow2(width as nat) - vb) as int,
                    pow2(width as nat) as int,
                );
            }
        }
        r
    }

    /// Strictly-below comparison, scanning from the low bit; a one-bit word.
    #[verifier::rlimit(100)]
    #[verifier::spinoff_prover]
    pub fn less_than(&mut self, a: &Word, b: &Word) -> (r: Word)
        requires
            old(self).inv(),
            old(self).wf_word(*a),
            old(self).wf_word(*b),
            a@.len() == b@.len(),
            old(self).room(30 * a@.len() + 33),
        ensures
            wresult(*old(self), *final(self), r),
            grown(*old(self), *final(self), 30 * a@.len() + 3),
            r@.len() == 1,
            final(self).wf_word(*a),
            final(self).wf_word(*b),
            final(self).value(*a) == old(self).value(*a),
            final(self).value(*b) == old(self).value(*b),
            (old(self).value(*a) is Some && old(self).value(*b) is Some) ==> final(self).value(r)
                == Some(
                if old(self).value(*a).unwrap() < old(self).value(*b).unwrap() {
                    1nat
                } else {
                    0nat
                },
            ),
    {
        let ghost orig = *self;
        let width = a.ids.len();
        let mut acc = self.bits.val(false);
        let mut i: usize = 0;
        proof {
            vstd::arithmetic::power2::lemma2_to64();
            if orig.value(*a) is Some && orig.value(*b) is Some {
                let x = orig.value(*a).unwrap();
                let y = orig.value(*b).unwrap();
                assert(x % pow2(0) == 0 && y % pow2(0) == 0) by {
                    vstd::arithmetic::div_mod::lemma_fundamental_div_mod_converse(
                        x as int,
                        1,
                        x as int,
                        0,
                    );
                    vstd::arithmetic::div_mod::lemma_fundamental_div_mod_converse(
                        y as int,
                        1,
                        y as int,
                        0,
                    );
                }
            }
            assert forall|k: int|
                0 <= k < a@.len() implies self.arena().bit_const(#[trigger] a@[k])
                == orig.arena().bit_const(a@[k]) by {
                lemma_count_member(a@, k);
                lemma_ext_nonneg(orig.arena(), a@[k]);
                assert(orig.arena().ext_or0(a@[k]) >= 1);
                assert(self.arena().kind_at(a@[k]) == orig.arena().kind_at(a@[k]));
            }
            assert forall|k: int|
                0 <= k < b@.len() implies self.arena().bit_const(#[trigger] b@[k])
                == orig.arena().bit_const(b@[k]) by {
                lemma_count_member(b@, k);
                lemma_ext_nonneg(orig.arena(), b@[k]);
                assert(orig.arena().ext_or0(b@[k]) >= 1);
                assert(self.arena().kind_at(b@[k]) == orig.arena().kind_at(b@[k]));
            }
        }
        while i < width
            invariant
                orig.inv(),
                orig.wf_word(*a),
                orig.wf_word(*b),
                orig.room(30 * a@.len() + 33),
                width == a@.len() && width == b@.len(),
                i <= width,
                self.inv(),
                orig.arena().n() <= self.arena().n(),
                acc < self.arena().n(),
                bounded_growth(orig.arena(), self.arena(), (30 * i) as nat + 3),
                forall|t: u32|
                    #[trigger] self.arena().ext_or0(t) == orig.arena().ext_or0(t) + (if t == acc {
                        1int
                    } else {
                        0int
                    }),
                holders_kept(orig, *self),
                forall|k: int|
                    0 <= k < a@.len() ==> self.arena().bit_const(#[trigger] a@[k])
                        == orig.arena().bit_const(a@[k]),
                forall|k: int|
                    0 <= k < b@.len() ==> self.arena().bit_const(#[trigger] b@[k])
                        == orig.arena().bit_const(b@[k]),
                (orig.value(*a) is Some && orig.value(*b) is Some) ==> self.arena().bit_const(
                    acc,
                ) == Some(
                    orig.value(*a).unwrap() % pow2(i as nat) < orig.value(*b).unwrap() % pow2(
                        i as nat,
                    ),
                ),
            decreases width - i,
        {
            let ghost prev = *self;
            proof {
                lemma_room_growth(orig.arena(), self.arena(), (30 * i) as nat + 3, 27);
                lemma_count_member(a@, i as int);
                lemma_count_member(b@, i as int);
                lemma_ext_nonneg(orig.arena(), a@[i as int]);
                lemma_ext_nonneg(orig.arena(), b@[i as int]);
                lemma_ext_nonneg(orig.arena(), acc);
                assert(self.arena().ext_or0(a@[i as int]) >= 1);
                assert(self.arena().ext_or0(b@[i as int]) >= 1);
                assert(self.arena().ext_or0(acc) >= 1);
                assert(self.arena().held(a@[i as int]) && self.arena().held(b@[i as int])
                    && self.arena().held(acc));
            }
            let xb = self.bits.xor(a.ids[i], b.ids[i]);
            let ghost m1 = *self;
            proof {
                lemma_growth_trans(orig.arena(), prev.arena(), self.arena(), (30 * i) as nat + 3, 15);
                lemma_room_growth(orig.arena(), self.arena(), (30 * i) as nat + 18, 12);
                lemma_ext_nonneg(orig.arena(), xb);
                lemma_ext_nonneg(orig.arena(), acc);
                lemma_ext_nonneg(orig.arena(), b@[i as int]);
                lemma_count_member(b@, i as int);
                assert(m1.arena().ext_or0(xb) == prev.arena().ext_or0(xb) + 1);
                assert(m1.arena().ext_or0(acc) == prev.arena().ext_or0(acc) + (if acc == xb {
                    1int
                } else {
                    0int
                }));
                assert(m1.arena().ext_or0(b@[i as int]) == prev.arena().ext_or0(b@[i as int]) + (
                if b@[i as int] == xb {
                    1int
                } else {
                    0int
                }));
                assert(m1.arena().held(xb) && m1.arena().held(acc) && m1.arena().held(
                    b@[i as int],
                ));
            }
            let nb = self.bits.cond(xb, b.ids[i], acc);
            let ghost m2 = *self;
            proof {
                lemma_growth_trans(orig.arena(), m1.arena(), self.arena(), (30 * i) as nat + 18, 12);
                assert(m2.arena().ext_or0(xb) == m1.arena().ext_or0(xb) + (if xb == nb {
                    1int
                } else {
                    0int
                }));
                assert(self.arena().ext_at(xb) >= 1);
            }
            self.bits.decr(xb);
            let ghost m3 = *self;
            proof {
                assert(m3.arena().ext_or0(acc) == m2.arena().ext_or0(acc) - (if acc == xb {
                    1int
                } else {
                    0int
                }));
                assert(m2.arena().ext_or0(acc) == m1.arena().ext_or0(acc) + (if acc == nb {
                    1int
                } else {
                    0int
                }));
                assert(self.arena().ext_at(acc) >= 1) by {
                    lemma_ext_nonneg(orig.arena(), acc);
                }
            }
            self.bits.decr(acc);
            let ghost old_acc = acc;
            acc = nb;
            i = i + 1;
            proof {
                assert forall|t: u32|
                    #[trigger] self.arena().ext_or0(t) == orig.arena().ext_or0(t) + (if t == acc {
                    1int
                } else {
                    0int
                }) by {
                    assert(m1.arena().ext_or0(t) == prev.arena().ext_or0(t) + (if t == xb {
                        1int
                    } else {
                        0int
                    }));
                    assert(m2.arena().ext_or0(t) == m1.arena().ext_or0(t) + (if t == nb {
                        1int
                    } else {
                        0int
                    }));
                    assert(m3.arena().ext_or0(t) == m2.arena().ext_or0(t) - (if t == xb {
                        1int
                    } else {
                        0int
                    }));
                    assert(self.arena().ext_or0(t) == m3.arena().ext_or0(t) - (if t == old_acc {
                        1int
                    } else {
                        0int
                    }));
                }
                assert(self.arena().live(acc)) by {
                    lemma_ext_nonneg(orig.arena(), acc);
                    assert(self.arena().ext_or0(acc) == orig.arena().ext_or0(acc) + 1);
                    lemma_ext_live(self.arena(), acc);
                }
                assert(bounded_growth(orig.arena(), self.arena(), (30 * i) as nat + 3)) by {
                    lemma_growth_trans(
                        orig.arena(),
                        m2.arena(),
                        self.arena(),
                        (30 * (i - 1)) as nat + 30,
                        0,
                    );
                }
                assert forall|k: int|
                    0 <= k < a@.len() implies self.arena().bit_const(#[trigger] a@[k])
                    == orig.arena().bit_const(a@[k]) by {
                    lemma_count_member(a@, k);
                    lemma_ext_nonneg(orig.arena(), a@[k]);
                    assert(prev.arena().ext_or0(a@[k]) >= 1);
                    assert(m1.arena().kind_at(a@[k]) == prev.arena().kind_at(a@[k]));
                    assert(m1.arena().ext_or0(a@[k]) == prev.arena().ext_or0(a@[k]) + (if a@[k]
                        == xb {
                        1int
                    } else {
                        0int
                    }));
                    assert(m2.arena().kind_at(a@[k]) == m1.arena().kind_at(a@[k]));
                    assert(m3.arena().kind_at(a@[k]) == m2.arena().kind_at(a@[k]));
                    assert(self.arena().kind_at(a@[k]) == m3.arena().kind_at(a@[k]));
                }
                assert forall|k: int|
                    0 <= k < b@.len() implies self.arena().bit_const(#[trigger] b@[k])
                    == orig.arena().bit_const(b@[k]) by {
                    lemma_count_member(b@, k);
                    lemma_ext_nonneg(orig.arena(), b@[k]);
                    assert(prev.arena().ext_or0(b@[k]) >= 1);
                    assert(m1.arena().kind_at(b@[k]) == prev.arena().kind_at(b@[k]));
                    assert(m1.arena().ext_or0(b@[k]) == prev.arena().ext_or0(b@[k]) + (if b@[k]
                        == xb {
                        1int
                    } else {
                        0int
                    }));
                    assert(m2.arena().kind_at(b@[k]) == m1.arena().kind_at(b@[k]));
                    assert(m3.arena().kind_at(b@[k]) == m2.arena().kind_at(b@[k]));
                    assert(self.arena().kind_at(b@[k]) == m3.arena().kind_at(b@[k]));
                }
                if orig.value(*a) is Some && orig.value(*b) is Some {
                    let x = orig.value(*a).unwrap();
                    let y = orig.value(*b).unwrap();
                    lemma_word_value_bits(orig.arena(), a@, i - 1);
                    lemma_word_value_bits(orig.arena(), b@, i - 1);
                    crate::arith::lemma_lt_step(x, y, (i - 1) as nat);
                    assert(prev.arena().bit_const(a@[i - 1]) == Some(nbit(x, (i - 1) as nat)));
                    assert(prev.arena().bit_const(b@[i - 1]) == Some(nbit(y, (i - 1) as nat)));
                    assert(m1.arena().bit_const(xb) == Some(
                        nbit(x, (i - 1) as nat) != nbit(y, (i - 1) as nat),
                    ));
                    assert(m1.arena().bit_const(b@[i - 1]) == prev.arena().bit_const(
                        b@[i - 1],
                    )) by {
                        lemma_count_member(b@, i - 1);
                        lemma_ext_nonneg(orig.arena(), b@[i - 1]);
                        assert(prev.arena().ext_or0(b@[i - 1]) >= 1);
                        assert(m1.arena().kind_at(b@[i - 1]) == prev.arena().kind_at(b@[i - 1]));
                    }
                    assert(m1.arena().bit_const(old_acc) == prev.arena().bit_const(old_acc)) by {
                        lemma_ext_nonneg(orig.arena(), old_acc);
                        assert(prev.arena().ext_or0(old_acc) >= 1);
                        assert(m1.arena().kind_at(old_acc) == prev.arena().kind_at(old_acc));
                    }
                    assert(m2.arena().bit_const(nb) == Some(
                        x % pow2(i as nat) < y % pow2(i as nat),
                    ));
                    assert(m3.arena().kind_at(nb) == m2.arena().kind_at(nb));
                    assert(self.arena().kind_at(nb) == m3.arena().kind_at(nb));
                }
            }
        }
        let ids = {
            let mut v: Vec<u32> = Vec::new();
            v.push(acc);
            v
        };
        let r = Word { ids };
        proof {
            assert(r@ =~= Seq::<u32>::empty().push(acc));
            assert forall|t: u32|
                #[trigger] self.arena().ext_or0(t) == orig.arena().ext_or0(t) + count_of(
                r@,
                t,
            ) by {
                lemma_count_push(Seq::<u32>::empty(), acc, t);
                assert(count_of(Seq::<u32>::empty(), t) == 0);
            }
            assert forall|t: u32| self.arena().ext_or0(t) >= #[trigger] count_of(r@, t) by {
                lemma_ext_nonneg(orig.arena(), t);
                lemma_count_push(Seq::<u32>::empty(), acc, t);
                assert(count_of(Seq::<u32>::empty(), t) == 0);
            }
            assert forall|t: u32| self.arena().ext_or0(t) >= #[trigger] count_of(a@, t) by {
                lemma_ext_nonneg(orig.arena(), t);
                assert(orig.arena().ext_or0(t) >= count_of(a@, t));
            }
            assert forall|t: u32| self.arena().ext_or0(t) >= #[trigger] count_of(b@, t) by {
                lemma_ext_nonneg(orig.arena(), t);
                assert(orig.arena().ext_or0(t) >= count_of(b@, t));
            }
            lemma_word_value_stable(orig.arena(), self.arena(), a@);
            lemma_word_value_stable(orig.arena(), self.arena(), b@);
            if orig.value(*a) is Some && orig.value(*b) is Some {
                let x = orig.value(*a).unwrap();
                let y = orig.value(*b).unwrap();
                lemma_word_value_bound(orig.arena(), a@);
                lemma_word_value_bound(orig.arena(), b@);
                lemma_mod_pow2_small(x, width as nat);
                lemma_mod_pow2_small(y, width as nat);
                let bv: nat = if x < y {
                    1nat
                } else {
                    0nat
                };
                assert forall|k: int|
                    0 <= k < 1 implies self.arena().bit_const(r@[k]) == Some(
                    nbit(bv, k as nat),
                ) by {
                    crate::arith::lemma_nbit_zero(bv);
                }
                assert(bv < pow2(1)) by {
                    vstd::arithmetic::power2::lemma2_to64();
                }
                lemma_bits_word_value(self.arena(), r@, bv);
            }
        }
        r
    }
}


impl Formula {
    /// Equality test: one exactly when the words denote the same value.
    #[verifier::rlimit(100)]
    #[verifier::spinoff_prover]
    pub fn equal_to(&mut self, a: &Word, b: &Word) -> (r: Word)
        requires
            old(self).inv(),
            old(self).wf_word(*a),
            old(self).wf_word(*b),
            a@.len() == b@.len(),
            old(self).room(33 * a@.len() + 60),
        ensures
            wresult(*old(self), *final(self), r),
            grown(*old(self), *final(self), 33 * a@.len() + 30),
            r@.len() == 1,
            final(self).wf_word(*a),
            final(self).wf_word(*b),
            final(self).value(*a) == old(self).value(*a),
            final(self).value(*b) == old(self).value(*b),
            (old(self).value(*a) is Some && old(self).value(*b) is Some) ==> final(self).value(r)
                == Some(
                if old(self).value(*a).unwrap() == old(self).value(*b).unwrap() {
                    1nat
                } else {
                    0nat
                },
            ),
    {
        let ghost orig = *self;
        let width = a.ids.len();
        let c = self.xor(a, b);
        let ghost s1 = *self;
        proof {
            lemma_room_growth(orig.arena(), s1.arena(), 15 * a@.len(), 18 * a@.len() + 60);
        }
        let d = self.fold_or(&c);
        let ghost s2 = *self;
        proof {
            lemma_growth_trans(
                orig.arena(),
                s1.arena(),
                s2.arena(),
                15 * a@.len(),
                15 * a@.len() + 3,
            );
            lemma_room_growth(orig.arena(), s2.arena(), 30 * a@.len() + 3, 3 * a@.len() + 57);
        }
        let r = self.not(&d);
        let ghost s3 = *self;
        proof {
            lemma_growth_trans(
                orig.arena(),
                s2.arena(),
                s3.arena(),
                30 * a@.len() + 3,
                3,
            );
        }
        self.drop_word(c);
        let ghost s4 = *self;
        proof {
            assert forall|t: u32| s4.arena().ext_or0(t) >= #[trigger] count_of(d@, t) by {
                assert(s4.ext_or0(t) == s3.ext_or0(t) - count_of(c@, t));
                assert(s3.arena().ext_or0(t) == s2.arena().ext_or0(t) + count_of(r@, t));
                assert(s2.arena().ext_or0(t) == s1.arena().ext_or0(t) + count_of(d@, t));
                assert(s1.arena().ext_or0(t) == orig.arena().ext_or0(t) + count_of(c@, t));
                lemma_ext_nonneg(orig.arena(), t);
            }
            assert forall|kk: int| 0 <= kk < d@.len() implies (#[trigger] d@[kk])
                < s4.arena().n() by {
                assert(d@[kk] < s2.arena().n());
            }
        }
        self.drop_word(d);
        proof {
            lemma_growth_trans(orig.arena(), s3.arena(), self.arena(), 33 * a@.len() + 30, 0);
            assert forall|t: u32|
                #[trigger] self.arena().ext_or0(t) == orig.arena().ext_or0(t) + count_of(
                r@,
                t,
            ) by {
                assert(self.ext_or0(t) == s4.ext_or0(t) - count_of(d@, t));
                assert(s4.ext_or0(t) == s3.ext_or0(t) - count_of(c@, t));
                assert(s3.arena().ext_or0(t) == s2.arena().ext_or0(t) + count_of(r@, t));
                assert(s2.arena().ext_or0(t) == s1.arena().ext_or0(t) + count_of(d@, t));
                assert(s1.arena().ext_or0(t) == orig.arena().ext_or0(t) + count_of(c@, t));
            }
            assert forall|t: u32| self.arena().ext_or0(t) >= #[trigger] count_of(r@, t) by {
                lemma_ext_nonneg(orig.arena(), t);
            }
            assert forall|t: u32| self.arena().ext_or0(t) >= #[trigger] count_of(a@, t) by {
                lemma_ext_nonneg(orig.arena(), t);
                assert(orig.arena().ext_or0(t) >= count_of(a@, t));
                assert(self.ext_or0(t) == s4.ext_or0(t) - count_of(d@, t));
                assert(s4.ext_or0(t) == s3.ext_or0(t) - count_of(c@, t));
                assert(s3.arena().ext_or0(t) == s2.arena().ext_or0(t) + count_of(r@, t));
                assert(s2.arena().ext_or0(t) == s1.arena().ext_or0(t) + count_of(d@, t));
                assert(s1.arena().ext_or0(t) == orig.arena().ext_or0(t) + count_of(c@, t));
            }
            assert forall|t: u32| self.arena().ext_or0(t) >= #[trigger] count_of(b@, t) by {
                lemma_ext_nonneg(orig.arena(), t);
                assert(orig.arena().ext_or0(t) >= count_of(b@, t));
                assert(self.ext_or0(t) == s4.ext_or0(t) - count_of(d@, t));
                assert(s4.ext_or0(t) == s3.ext_or0(t) - count_of(c@, t));
                assert(s3.arena().ext_or0(t) == s2.arena().ext_or0(t) + count_of(r@, t));
                assert(s2.arena().ext_or0(t) == s1.arena().ext_or0(t) + count_of(d@, t));
                assert(s1.arena().ext_or0(t) == orig.arena().ext_or0(t) + count_of(c@, t));
            }
            assert forall|kk: int| 0 <= kk < r@.len() implies (#[trigger] r@[kk])
                < self.arena().n() by {
                assert(r@[kk] < s3.arena().n());
            }
            assert forall|kk: int| 0 <= kk < a@.len() implies (#[trigger] a@[kk])
                < self.arena().n() by {
                assert(a@[kk] < orig.arena().n());
            }
            assert forall|kk: int| 0 <= kk < b@.len() implies (#[trigger] b@[kk])
                < self.arena().n() by {
                assert(b@[kk] < orig.arena().n());
            }
            assert(holders_kept(orig, *self)) by {
                assert forall|t: u32|
                    t < orig.arena().n() && orig.arena().ext_or0(t) >= 1 implies #[trigger] self.arena().kind_at(
                    t,
                ) == orig.arena().kind_at(t) by {
                    assert(s1.arena().ext_or0(t) == orig.arena().ext_or0(t) + count_of(c@, t));
                    assert(s2.arena().ext_or0(t) == s1.arena().ext_or0(t) + count_of(d@, t));
                    assert(s1.arena().kind_at(t) == orig.arena().kind_at(t));
                    assert(s2.arena().kind_at(t) == s1.arena().kind_at(t));
                    assert(s3.arena().kind_at(t) == s2.arena().kind_at(t));
                    assert(s4.arena().kind_at(t) == s3.arena().kind_at(t));
                    assert(self.arena().kind_at(t) == s4.arena().kind_at(t));
                }
            }
            assert(s3.wf_word(r));
            lemma_value_preserved(s3, s4, r);
            assert(s4.wf_word(r)) by {
                assert forall|t: u32| s4.arena().ext_or0(t) >= #[trigger] count_of(r@, t) by {
                    assert(s4.ext_or0(t) == s3.ext_or0(t) - count_of(c@, t));
                    assert(s3.arena().ext_or0(t) == s2.arena().ext_or0(t) + count_of(r@, t));
                    assert(s2.arena().ext_or0(t) == s1.arena().ext_or0(t) + count_of(d@, t));
                    assert(s1.arena().ext_or0(t) == orig.arena().ext_or0(t) + count_of(c@, t));
                    lemma_ext_nonneg(orig.arena(), t);
                }
            }
            lemma_value_preserved(s4, *self, r);
            assert(self.value(*a) == orig.value(*a) && self.value(*b) == orig.value(*b)) by {
                assert(s2.value(*a) == orig.value(*a) && s2.value(*b) == orig.value(*b)) by {
                    assert(s1.value(*a) == orig.value(*a) && s1.value(*b) == orig.value(*b));
                    assert(s1.wf_word(*a) && s1.wf_word(*b));
                    assert forall|t: u32| #[trigger] s2.arena().ext_or0(t)
                        >= s1.arena().ext_or0(t) by {
                        assert(s2.arena().ext_or0(t) == s1.arena().ext_or0(t) + count_of(
                            d@,
                            t,
                        ));
                    }
                    lemma_wf_word_preserved(s1, s2, *a);
                    lemma_wf_word_preserved(s1, s2, *b);
                    lemma_value_preserved(s1, s2, *a);
                    lemma_value_preserved(s1, s2, *b);
                }
                assert forall|t: u32| #[trigger] s3.arena().ext_or0(t) >= s2.arena().ext_or0(
                    t,
                ) by {
                    assert(s3.arena().ext_or0(t) == s2.arena().ext_or0(t) + count_of(r@, t));
                }
                assert(s2.wf_word(*a) && s2.wf_word(*b)) by {
                    assert(s1.wf_word(*a) && s1.wf_word(*b));
                    assert forall|t: u32| #[trigger] s2.arena().ext_or0(t)
                        >= s1.arena().ext_or0(t) by {
                        assert(s2.arena().ext_or0(t) == s1.arena().ext_or0(t) + count_of(
                            d@,
                            t,
                        ));
                    }
                    lemma_wf_word_preserved(s1, s2, *a);
                    lemma_wf_word_preserved(s1, s2, *b);
                }
                lemma_wf_word_preserved(s2, s3, *a);
                lemma_wf_word_preserved(s2, s3, *b);
                lemma_value_preserved(s2, s3, *a);
                lemma_value_preserved(s2, s3, *b);
                assert(s4.wf_word(*a) && s4.wf_word(*b)) by {
                    assert forall|t: u32| s4.arena().ext_or0(t) >= #[trigger] count_of(
                        a@,
                        t,
                    ) by {
                        assert(s4.ext_or0(t) == s3.ext_or0(t) - count_of(c@, t));
                        assert(s3.arena().ext_or0(t) == s2.arena().ext_or0(t) + count_of(
                            r@,
                            t,
                        ));
                        assert(s2.arena().ext_or0(t) == s1.arena().ext_or0(t) + count_of(
                            d@,
                            t,
                        ));
                        assert(s1.arena().ext_or0(t) == orig.arena().ext_or0(t) + count_of(
                            c@,
                            t,
                        ));
                        lemma_ext_nonneg(orig.arena(), t);
                        assert(orig.arena().ext_or0(t) >= count_of(a@, t));
                    }
                    assert forall|t: u32| s4.arena().ext_or0(t) >= #[trigger] count_of(
                        b@,
                        t,
                    ) by {
                        assert(s4.ext_or0(t) == s3.ext_or0(t) - count_of(c@, t));
                        assert(s3.arena().ext_or0(t) == s2.arena().ext_or0(t) + count_of(
                            r@,
                            t,
                        ));
                        assert(s2.arena().ext_or0(t) == s1.arena().ext_or0(t) + count_of(
                            d@,
                            t,
                        ));
                        assert(s1.arena().ext_or0(t) == orig.arena().ext_or0(t) + count_of(
                            c@,
                            t,
                        ));
                        lemma_ext_nonneg(orig.arena(), t);
                        assert(orig.arena().ext_or0(t) >= count_of(b@, t));
                    }
                    assert forall|kk: int| 0 <= kk < a@.len() implies (#[trigger] a@[kk])
                        < s4.arena().n() by {
                        assert(a@[kk] < orig.arena().n());
                    }
                    assert forall|kk: int| 0 <= kk < b@.len() implies (#[trigger] b@[kk])
                        < s4.arena().n() by {
                        assert(b@[kk] < orig.arena().n());
                    }
                }
                lemma_value_preserved(s3, s4, *a);
                lemma_value_preserved(s3, s4, *b);
                lemma_value_preserved(s4, *self, *a);
                lemma_value_preserved(s4, *self, *b);
            }
            if orig.value(*a) is Some && orig.value(*b) is Some {
                let x = orig.value(*a).unwrap();
                let y = orig.value(*b).unwrap();
                crate::arith::lemma_nat_xor_zero_iff(x, y);
                vstd::arithmetic::power2::lemma2_to64();
                assert(s1.value(c) == Some(crate::arith::nat_xor(x, y)));
                assert(s2.value(d) == Some(
                    if crate::arith::nat_xor(x, y) == 0 {
                        0nat
                    } else {
                        1nat
                    },
                ));
                assert(s3.value(r) == Some(
                    (pow2(1) - 1 - (if crate::arith::nat_xor(x, y) == 0 {
                        0nat
                    } else {
                        1nat
                    })) as nat,
                ));
            }
        }
        r
    }

    /// Strictly-above comparison: neither below nor equal.
    #[verifier::rlimit(100)]
    #[verifier::spinoff_prover]
    pub fn greater_than(&mut self, a: &Word, b: &Word) -> (r: Word)
        requires
            old(self).inv(),
            old(self).wf_word(*a),
            old(self).wf_word(*b),
            a@.len() == b@.len(),
            old(self).room(70 * a@.len() + 120),
        ensures
            wresult(*old(self), *final(self), r),
            grown(*old(self), *final(self), 70 * a@.len() + 60),
            r@.len() == 1,
            final(self).wf_word(*a),
            final(self).wf_word(*b),
            final(self).value(*a) == old(self).value(*a),
            final(self).value(*b) == old(self).value(*b),
            (old(self).value(*a) is Some && old(self).value(*b) is Some) ==> final(self).value(r)
                == Some(
                if old(self).value(*a).unwrap() > old(self).value(*b).unwrap() {
                    1nat
                } else {
                    0nat
                },
            ),
    {
        let ghost orig = *self;
        let t1 = self.less_than(a, b);
        let ghost s1 = *self;
        proof {
            lemma_room_growth(orig.arena(), s1.arena(), 30 * a@.len() + 3, 40 * a@.len() + 117);
            assert forall|t: u32| #[trigger] s1.arena().ext_or0(t) >= orig.arena().ext_or0(
                t,
            ) by {
                assert(s1.arena().ext_or0(t) == orig.arena().ext_or0(t) + count_of(t1@, t));
            }
            lemma_wf_word_preserved(orig, s1, *a);
            lemma_wf_word_preserved(orig, s1, *b);
        }
        let t2 = self.equal_to(a, b);
        let ghost s2 = *self;
        proof {
            lemma_growth_trans(
                orig.arena(),
                s1.arena(),
                s2.arena(),
                30 * a@.len() + 3,
                33 * a@.len() + 30,
            );
            lemma_room_growth(orig.arena(), s2.arena(), 63 * a@.len() + 33, 78);
            assert forall|t: u32| #[trigger] s2.arena().ext_or0(t) >= s1.arena().ext_or0(t) by {
                assert(s2.arena().ext_or0(t) == s1.arena().ext_or0(t) + count_of(t2@, t));
            }
            lemma_wf_word_preserved(s1, s2, t1);
            lemma_value_preserved(s1, s2, t1);
        }
        let t3 = self.or(&t1, &t2);
        let ghost s3 = *self;
        proof {
            lemma_growth_trans(
                orig.arena(),
                s2.arena(),
                s3.arena(),
                63 * a@.len() + 33,
                15,
            );
            lemma_room_growth(orig.arena(), s3.arena(), 63 * a@.len() + 48, 6);
        }
        let r = self.not(&t3);
        let ghost s4 = *self;
        proof {
            lemma_growth_trans(orig.arena(), s3.arena(), s4.arena(), 63 * a@.len() + 48, 3);
        }
        self.drop_word(t1);
        let ghost s5 = *self;
        proof {
            assert forall|t: u32| s5.arena().ext_or0(t) >= #[trigger] count_of(t2@, t) by {
                assert(s5.ext_or0(t) == s4.ext_or0(t) - count_of(t1@, t));
                assert(s4.arena().ext_or0(t) == s3.arena().ext_or0(t) + count_of(r@, t));
                assert(s3.arena().ext_or0(t) == s2.arena().ext_or0(t) + count_of(t3@, t));
                assert(s2.arena().ext_or0(t) == s1.arena().ext_or0(t) + count_of(t2@, t));
                assert(s1.arena().ext_or0(t) == orig.arena().ext_or0(t) + count_of(t1@, t));
                lemma_ext_nonneg(orig.arena(), t);
            }
            assert forall|kk: int| 0 <= kk < t2@.len() implies (#[trigger] t2@[kk])
                < s5.arena().n() by {
                assert(t2@[kk] < s2.arena().n());
            }
        }
        self.drop_word(t2);
        let ghost s6 = *self;
        proof {
            assert forall|t: u32| s6.arena().ext_or0(t) >= #[trigger] count_of(t3@, t) by {
                assert(s6.ext_or0(t) == s5.ext_or0(t) - count_of(t2@, t));
                assert(s5.ext_or0(t) == s4.ext_or0(t) - count_of(t1@, t));
                assert(s4.arena().ext_or0(t) == s3.arena().ext_or0(t) + count_of(r@, t));
                assert(s3.arena().ext_or0(t) == s2.arena().ext_or0(t) + count_of(t3@, t));
                assert(s2.arena().ext_or0(t) == s1.arena().ext_or0(t) + count_of(t2@, t));
                assert(s1.arena().ext_or0(t) == orig.arena().ext_or0(t) + count_of(t1@, t));
                lemma_ext_nonneg(orig.arena(), t);
            }
            assert forall|kk: int| 0 <= kk < t3@.len() implies (#[trigger] t3@[kk])
                < s6.arena().n() by {
                assert(t3@[kk] < s3.arena().n());
            }
        }
        self.drop_word(t3);
        proof {
            lemma_growth_trans(orig.arena(), s4.arena(), self.arena(), 70 * a@.len() + 60, 0);
            assert forall|t: u32|
                #[trigger] self.arena().ext_or0(t) == orig.arena().ext_or0(t) + count_of(
                r@,
                t,
            ) by {
                assert(self.ext_or0(t) == s6.ext_or0(t) - count_of(t3@, t));
                assert(s6.ext_or0(t) == s5.ext_or0(t) - count_of(t2@, t));
                assert(s5.ext_or0(t) == s4.ext_or0(t) - count_of(t1@, t));
                assert(s4.arena().ext_or0(t) == s3.arena().ext_or0(t) + count_of(r@, t));
                assert(s3.arena().ext_or0(t) == s2.arena().ext_or0(t) + count_of(t3@, t));
                assert(s2.arena().ext_or0(t) == s1.arena().ext_or0(t) + count_of(t2@, t));
                assert(s1.arena().ext_or0(t) == orig.arena().ext_or0(t) + count_of(t1@, t));
            }
            assert forall|t: u32| self.arena().ext_or0(t) >= #[trigger] count_of(r@, t) by {
                lemma_ext_nonneg(orig.arena(), t);
            }
            assert forall|t: u32| self.arena().ext_or0(t) >= #[trigger] count_of(a@, t) by {
                lemma_ext_nonneg(orig.arena(), t);
                assert(self.arena().ext_or0(t) == orig.arena().ext_or0(t) + count_of(r@, t));
                assert(orig.arena().ext_or0(t) >= count_of(a@, t));
            }
            assert forall|t: u32| self.arena().ext_or0(t) >= #[trigger] count_of(b@, t) by {
                lemma_ext_nonneg(orig.arena(), t);
                assert(self.arena().ext_or0(t) == orig.arena().ext_or0(t) + count_of(r@, t));
                assert(orig.arena().ext_or0(t) >= count_of(b@, t));
            }
            assert forall|kk: int| 0 <= kk < r@.len() implies (#[trigger] r@[kk])
                < self.arena().n() by {
                assert(r@[kk] < s4.arena().n());
            }
            assert forall|kk: int| 0 <= kk < a@.len() implies (#[trigger] a@[kk])
                < self.arena().n() by {
                assert(a@[kk] < orig.arena().n());
            }
            assert forall|kk: int| 0 <= kk < b@.len() implies (#[trigger] b@[kk])
                < self.arena().n() by {
                assert(b@[kk] < orig.arena().n());
            }
            assert(holders_kept(orig, *self)) by {
                assert forall|t: u32|
                    t < orig.arena().n() && orig.arena().ext_or0(t) >= 1 implies #[trigger] self.arena().kind_at(
                    t,
                ) == orig.arena().kind_at(t) by {
                    assert(s1.arena().ext_or0(t) == orig.arena().ext_or0(t) + count_of(t1@, t));
                    assert(s2.arena().ext_or0(t) == s1.arena().ext_or0(t) + count_of(t2@, t));
                    assert(s3.arena().ext_or0(t) == s2.arena().ext_or0(t) + count_of(t3@, t));
                    assert(s1.arena().kind_at(t) == orig.arena().kind_at(t));
                    assert(s2.arena().kind_at(t) == s1.arena().kind_at(t));
                    assert(s3.arena().kind_at(t) == s2.arena().kind_at(t));
                    assert(s4.arena().kind_at(t) == s3.arena().kind_at(t));
                    assert(s5.arena().kind_at(t) == s4.arena().kind_at(t));
                    assert(s6.arena().kind_at(t) == s5.arena().kind_at(t));
                    assert(self.arena().kind_at(t) == s6.arena().kind_at(t));
                }
            }
            assert(s4.wf_word(r));
            lemma_value_preserved(s4, s5, r);
            assert(s5.wf_word(r)) by {
                assert forall|t: u32| s5.arena().ext_or0(t) >= #[trigger] count_of(r@, t) by {
                    assert(s5.ext_or0(t) == s4.ext_or0(t) - count_of(t1@, t));
                    assert(s4.arena().ext_or0(t) == s3.arena().ext_or0(t) + count_of(r@, t));
                    assert(s3.arena().ext_or0(t) == s2.arena().ext_or0(t) + count_of(t3@, t));
                    assert(s2.arena().ext_or0(t) == s1.arena().ext_or0(t) + count_of(t2@, t));
                    assert(s1.arena().ext_or0(t) == orig.arena().ext_or0(t) + count_of(t1@, t));
                    lemma_ext_nonneg(orig.arena(), t);
                }
            }
            lemma_value_preserved(s5, s6, r);
            assert(s6.wf_word(r)) by {
                assert forall|t: u32| s6.arena().ext_or0(t) >= #[trigger] count_of(r@, t) by {
                    assert(s6.ext_or0(t) == s5.ext_or0(t) - count_of(t2@, t));
                    assert(s5.ext_or0(t) == s4.ext_or0(t) - count_of(t1@, t));
                    assert(s4.arena().ext_or0(t) == s3.arena().ext_or0(t) + count_of(r@, t));
                    assert(s3.arena().ext_or0(t) == s2.arena().ext_or0(t) + count_of(t3@, t));
                    assert(s2.arena().ext_or0(t) == s1.arena().ext_or0(t) + count_of(t2@, t));
                    assert(s1.arena().ext_or0(t) == orig.arena().ext_or0(t) + count_of(t1@, t));
                    lemma_ext_nonneg(orig.arena(), t);
                }
            }
            lemma_value_preserved(s6, *self, r);
            assert(self.value(*a) == orig.value(*a) && self.value(*b) == orig.value(*b)) by {
                assert forall|k: int|
                    0 <= k < a@.len() implies self.arena().bit_const(#[trigger] a@[k])
                    == orig.arena().bit_const(a@[k]) by {
                    lemma_count_member(a@, k);
                    lemma_ext_nonneg(orig.arena(), a@[k]);
                    assert(orig.arena().ext_or0(a@[k]) >= 1);
                    assert(self.arena().kind_at(a@[k]) == orig.arena().kind_at(a@[k]));
                }
                assert forall|k: int|
                    0 <= k < b@.len() implies self.arena().bit_const(#[trigger] b@[k])
                    == orig.arena().bit_const(b@[k]) by {
                    lemma_count_member(b@, k);
                    lemma_ext_nonneg(orig.arena(), b@[k]);
                    assert(orig.arena().ext_or0(b@[k]) >= 1);
                    assert(self.arena().kind_at(b@[k]) == orig.arena().kind_at(b@[k]));
                }
                lemma_word_value_stable(orig.arena(), self.arena(), a@);
                lemma_word_value_stable(orig.arena(), self.arena(), b@);
            }
            if orig.value(*a) is Some && orig.value(*b) is Some {
                let x = orig.value(*a).unwrap();
                let y = orig.value(*b).unwrap();
                let v1: nat = if x < y {
                    1nat
                } else {
                    0nat
                };
                let v2: nat = if x == y {
                    1nat
                } else {
                    0nat
                };
                assert(s1.value(t1) == Some(v1));
                assert(s2.value(t2) == Some(v2));
                assert(s2.value(t1) == Some(v1));
                assert(s3.value(t3) == Some(crate::arith::nat_or(v1, v2)));
                assert(crate::arith::nat_or(v1, v2) == (if x <= y {
                    1nat
                } else {
                    0nat
                })) by {
                    assert(crate::arith::nat_or(0, 0) == 0);
                    assert(crate::arith::nat_or(0, 1) == 1 + 2 * crate::arith::nat_or(0, 0));
                    assert(crate::arith::nat_or(1, 0) == 1 + 2 * crate::arith::nat_or(0, 0));
                    assert(crate::arith::nat_or(1, 1) == 1 + 2 * crate::arith::nat_or(0, 0));
                }
                vstd::arithmetic::power2::lemma2_to64();
                assert(s4.value(r) == Some(
                    (pow2(1) - 1 - (if x <= y {
                        1nat
                    } else {
                        0nat
                    })) as nat,
                ));
            }
        }
        r
    }
}

impl Formula {
    /// Per-bit multiplexer: `test` (one bit wide) selects `yes` or `no`.
    #[verifier::rlimit(100)]
    #[verifier::spinoff_prover]
    pub fn cond(&mut self, test: &Word, yes: &Word, no: &Word) -> (r: Word)
        requires
            old(self).inv(),
            old(self).wf_word(*test),
            old(self).wf_word(*yes),
            old(self).wf_word(*no),
            test@.len() == 1,
            yes@.len() == no@.len(),
            old(self).room(12 * yes@.len() + 15),
        ensures
            wresult(*old(self), *final(self), r),
            grown(*old(self), *final(self), 12 * yes@.len() + 3),
            r@.len() == yes@.len(),
            final(self).wf_word(*test),
            final(self).wf_word(*yes),
            final(self).wf_word(*no),
            final(self).value(*test) == old(self).value(*test),
            final(self).value(*yes) == old(self).value(*yes),
            final(self).value(*no) == old(self).value(*no),
            (old(self).value(*test) is Some && old(self).value(*yes) is Some && old(self).value(
                *no,
            ) is Some) ==> final(self).value(r) == (if old(self).value(*test).unwrap() == 1 {
                old(self).value(*yes)
            } else {
                old(self).value(*no)
            }),
    {
        let ghost orig = *self;
        let width = yes.ids.len();
        let test_bit = test.ids[0];
        let mut ids: Vec<u32> = Vec::new();
        let mut i: usize = 0;
        while i < width
            invariant
                orig.inv(),
                orig.wf_word(*test),
                orig.wf_word(*yes),
                orig.wf_word(*no),
                orig.room(12 * yes@.len() + 15),
                test@.len() == 1,
                test_bit == test@[0],
                width == yes@.len() && width == no@.len(),
                i <= width,
                ids@.len() == i,
                self.inv(),
                orig.arena().n() <= self.arena().n(),
                bounded_growth(orig.arena(), self.arena(), (12 * i) as nat),
                forall|k: int| 0 <= k < i ==> (#[trigger] ids@[k]) < self.arena().n(),
                forall|t: u32|
                    #[trigger] self.arena().ext_or0(t) == orig.arena().ext_or0(t) + count_of(
                        ids@,
                        t,
                    ),
                holders_kept(orig, *self),
                forall|k: int|
                    0 <= k < yes@.len() ==> self.arena().bit_const(#[trigger] yes@[k])
                        == orig.arena().bit_const(yes@[k]),
                forall|k: int|
                    0 <= k < no@.len() ==> self.arena().bit_const(#[trigger] no@[k])
                        == orig.arena().bit_const(no@[k]),
                self.arena().bit_const(test_bit) == orig.arena().bit_const(test_bit),
                forall|k: int|
                    0 <= k < i && orig.arena().bit_const(test_bit) == Some(true)
                        && orig.arena().bit_const(yes@[k]) is Some
                        ==> #[trigger] self.arena().bit_const(ids@[k]) == orig.arena().bit_const(
                        yes@[k],
                    ),
                forall|k: int|
                    0 <= k < i && orig.arena().bit_const(test_bit) == Some(false)
                        && orig.arena().bit_const(no@[k]) is Some
                        ==> #[trigger] self.arena().bit_const(ids@[k]) == orig.arena().bit_const(
                        no@[k],
                    ),
            decreases width - i,
        {
            let ghost prev = *self;
            proof {
                lemma_room_growth(orig.arena(), self.arena(), (12 * i) as nat, 12);
                lemma_count_member(test@, 0);
                lemma_count_member(yes@, i as int);
                lemma_count_member(no@, i as int);
                lemma_ext_nonneg(orig.arena(), test_bit);
                lemma_ext_nonneg(orig.arena(), yes@[i as int]);
                lemma_ext_nonneg(orig.arena(), no@[i as int]);
                assert(self.arena().ext_or0(test_bit) >= 1);
                assert(self.arena().ext_or0(yes@[i as int]) >= 1);
                assert(self.arena().ext_or0(no@[i as int]) >= 1);
                assert(self.arena().held(test_bit) && self.arena().held(yes@[i as int])
                    && self.arena().held(no@[i as int]));
            }
            let ghost ids0 = ids@;
            let id = self.bits.cond(test_bit, yes.ids[i], no.ids[i]);
            ids.push(id);
            i = i + 1;
            proof {
                lemma_growth_trans(
                    orig.arena(),
                    prev.arena(),
                    self.arena(),
                    (12 * (i - 1)) as nat,
                    12,
                );
                assert forall|t: u32|
                    #[trigger] self.arena().ext_or0(t) == orig.arena().ext_or0(t) + count_of(
                    ids@,
                    t,
                ) by {
                    lemma_count_push(ids0, id, t);
                    assert(self.arena().ext_or0(t) == prev.arena().ext_or0(t) + (if t == id {
                        1int
                    } else {
                        0int
                    }));
                    assert(prev.arena().ext_or0(t) == orig.arena().ext_or0(t) + count_of(
                        ids0,
                        t,
                    ));
                }
                assert forall|k: int|
                    0 <= k < yes@.len() implies self.arena().bit_const(#[trigger] yes@[k])
                    == orig.arena().bit_const(yes@[k]) by {
                    lemma_count_member(yes@, k);
                    lemma_ext_nonneg(orig.arena(), yes@[k]);
                    assert(prev.arena().ext_or0(yes@[k]) >= 1);
                    assert(self.arena().kind_at(yes@[k]) == prev.arena().kind_at(yes@[k]));
                }
                assert forall|k: int|
                    0 <= k < no@.len() implies self.arena().bit_const(#[trigger] no@[k])
                    == orig.arena().bit_const(no@[k]) by {
                    lemma_count_member(no@, k);
                    lemma_ext_nonneg(orig.arena(), no@[k]);
                    assert(prev.arena().ext_or0(no@[k]) >= 1);
                    assert(self.arena().kind_at(no@[k]) == prev.arena().kind_at(no@[k]));
                }
                assert(self.arena().bit_const(test_bit) == orig.arena().bit_const(test_bit)) by {
                    lemma_count_member(test@, 0);
                    lemma_ext_nonneg(orig.arena(), test_bit);
                    assert(prev.arena().ext_or0(test_bit) >= 1);
                    assert(self.arena().kind_at(test_bit) == prev.arena().kind_at(test_bit));
                }
                assert forall|k: int|
                    0 <= k < i && orig.arena().bit_const(test_bit) == Some(true)
                        && orig.arena().bit_const(yes@[k]) is Some implies #[trigger] self.arena().bit_const(
                    ids@[k],
                ) == orig.arena().bit_const(yes@[k]) by {
                    if k < i - 1 {
                        lemma_count_member(ids0, k);
                        lemma_ext_nonneg(orig.arena(), ids0[k]);
                        assert(prev.arena().ext_or0(ids0[k]) >= 1);
                        assert(self.arena().kind_at(ids0[k]) == prev.arena().kind_at(ids0[k]));
                        assert(ids0[k] == ids@[k]);
                        assert(self.arena().bit_const(ids@[k]) == prev.arena().bit_const(
                            ids0[k],
                        ));
                    } else {
                        assert(ids@[k] == id);
                        assert(prev.arena().bit_const(test_bit) == Some(true));
                        assert(prev.arena().bit_const(yes@[k]) is Some);
                    }
                }
                assert forall|k: int|
                    0 <= k < i && orig.arena().bit_const(test_bit) == Some(false)
                        && orig.arena().bit_const(no@[k]) is Some implies #[trigger] self.arena().bit_const(
                    ids@[k],
                ) == orig.arena().bit_const(no@[k]) by {
                    if k < i - 1 {
                        lemma_count_member(ids0, k);
                        lemma_ext_nonneg(orig.arena(), ids0[k]);
                        assert(prev.arena().ext_or0(ids0[k]) >= 1);
                        assert(self.arena().kind_at(ids0[k]) == prev.arena().kind_at(ids0[k]));
                        assert(ids0[k] == ids@[k]);
                        assert(self.arena().bit_const(ids@[k]) == prev.arena().bit_const(
                            ids0[k],
                        ));
                    } else {
                        assert(ids@[k] == id);
                        assert(prev.arena().bit_const(test_bit) == Some(false));
                        assert(prev.arena().bit_const(no@[k]) is Some);
                    }
                }
            }
        }
        let r = Word { ids };
        proof {
            assert forall|t: u32| self.arena().ext_or0(t) >= #[trigger] count_of(r@, t) by {
                lemma_ext_nonneg(orig.arena(), t);
            }
            assert forall|t: u32| self.arena().ext_or0(t) >= #[trigger] count_of(test@, t) by {
                lemma_ext_nonneg(orig.arena(), t);
                assert(orig.arena().ext_or0(t) >= count_of(test@, t));
                assert(count_of(r@, t) >= 0);
            }
            assert forall|t: u32| self.arena().ext_or0(t) >= #[trigger] count_of(yes@, t) by {
                lemma_ext_nonneg(orig.arena(), t);
                assert(orig.arena().ext_or0(t) >= count_of(yes@, t));
                assert(count_of(r@, t) >= 0);
            }
            assert forall|t: u32| self.arena().ext_or0(t) >= #[trigger] count_of(no@, t) by {
                lemma_ext_nonneg(orig.arena(), t);
                assert(orig.arena().ext_or0(t) >= count_of(no@, t));
                assert(count_of(r@, t) >= 0);
            }
            assert forall|k: int|
                0 <= k < test@.len() implies self.arena().bit_const(#[trigger] test@[k])
                == orig.arena().bit_const(test@[k]) by {
                assert(test@[k] == test_bit);
            }
            lemma_word_value_stable(orig.arena(), self.arena(), test@);
            lemma_word_value_stable(orig.arena(), self.arena(), yes@);
            lemma_word_value_stable(orig.arena(), self.arena(), no@);
            if orig.value(*test) is Some && orig.value(*yes) is Some && orig.value(*no) is Some {
                let vt = orig.value(*test).unwrap();
                lemma_word_value_bits(orig.arena(), test@, 0);
                lemma_word_value_bound(orig.arena(), test@);
                crate::arith::lemma_nbit_zero(vt);
                vstd::arithmetic::power2::lemma2_to64();
                assert(orig.arena().bit_const(test_bit) == Some(vt == 1)) by {
                    assert(vt < 2);
                }
                if vt == 1 {
                    let vy = orig.value(*yes).unwrap();
                    lemma_word_value_bound(orig.arena(), yes@);
                    assert forall|k: int|
                        0 <= k < width implies self.arena().bit_const(r@[k]) == Some(
                        nbit(vy, k as nat),
                    ) by {
                        lemma_word_value_bits(orig.arena(), yes@, k);
                    }
                    lemma_bits_word_value(self.arena(), r@, vy);
                } else {
                    let vn = orig.value(*no).unwrap();
                    lemma_word_value_bound(orig.arena(), no@);
                    assert forall|k: int|
                        0 <= k < width implies self.arena().bit_const(r@[k]) == Some(
                        nbit(vn, k as nat),
                    ) by {
                        lemma_word_value_bits(orig.arena(), no@, k);
                    }
                    lemma_bits_word_value(self.arena(), r@, vn);
                }
            }
        }
        r
    }
}



impl Formula {
    /// Shift-and-add multiplication; the low bits of the product.
    #[verifier::rlimit(100)]
    #[verifier::spinoff_prover]
    pub fn mul(&mut self, a: &Word, b: &Word) -> (r: Word)
        requires
            old(self).inv(),
            old(self).wf_word(*a),
            old(self).wf_word(*b),
            a@.len() == b@.len(),
            old(self).room((70 * a@.len() + 140) * (a@.len() + 1)),
        ensures
            wresult(*old(self), *final(self), r),
            grown(*old(self), *final(self), (70 * a@.len() + 140) * (a@.len() + 1)),
            r@.len() == a@.len(),
            final(self).wf_word(*a),
            final(self).wf_word(*b),
            final(self).value(*a) == old(self).value(*a),
            final(self).value(*b) == old(self).value(*b),
            (old(self).value(*a) is Some && old(self).value(*b) is Some) ==> final(self).value(r)
                == Some(
                (old(self).value(*a).unwrap() * old(self).value(*b).unwrap()) % pow2(a@.len()),
            ),
    {
        let ghost orig = *self;
        let width = a.ids.len();
        let ghost per = (70 * a@.len() + 140) as nat;
        proof {
            assert(per <= per * (a@.len() + 1)) by (nonlinear_arith)
                requires
                    per >= 1,
            ;
        }
        let zero = self.zero(width);
        let ghost s0 = *self;
        proof {
            lemma_room_growth(orig.arena(), s0.arena(), 3 * a@.len(), a@.len() + 1);
        }
        let mut sum = self.clone_word(&zero);
        let ghost sb = *self;
        proof {
            lemma_growth_trans(orig.arena(), s0.arena(), sb.arena(), 3 * a@.len(), a@.len());
            assert(bounded_growth(orig.arena(), sb.arena(), per * 1)) by {
                assert(per * 1 == per) by (nonlinear_arith);
                assert(4 * a@.len() <= per);
            }
            assert(holders_kept(orig, sb)) by {
                assert forall|t: u32|
                    t < orig.arena().n() && orig.arena().ext_or0(t) >= 1 implies #[trigger] sb.arena().kind_at(
                    t,
                ) == orig.arena().kind_at(t) by {
                    assert(s0.arena().kind_at(t) == orig.arena().kind_at(t));
                    assert(sb.arena().kind_at(t) == s0.arena().kind_at(t));
                }
            }
            lemma_wf_word_preserved(orig, sb, *a);
            lemma_wf_word_preserved(orig, sb, *b);
            lemma_value_preserved(orig, sb, *a);
            lemma_value_preserved(orig, sb, *b);
            assert(sb.wf_word(zero) && sb.wf_word(sum)) by {
                assert forall|t: u32| sb.arena().ext_or0(t) >= #[trigger] count_of(
                    zero@,
                    t,
                ) by {
                    lemma_ext_nonneg(orig.arena(), t);
                    assert(sb.arena().ext_or0(t) == orig.arena().ext_or0(t) + count_of(
                        zero@,
                        t,
                    ) + count_of(sum@, t));
                    assert(count_of(sum@, t) >= 0);
                }
                assert forall|t: u32| sb.arena().ext_or0(t) >= #[trigger] count_of(
                    sum@,
                    t,
                ) by {
                    lemma_ext_nonneg(orig.arena(), t);
                    assert(sb.arena().ext_or0(t) == orig.arena().ext_or0(t) + count_of(
                        zero@,
                        t,
                    ) + count_of(sum@, t));
                    assert(count_of(zero@, t) >= 0);
                }
                assert forall|kk: int| 0 <= kk < zero@.len() implies (#[trigger] zero@[kk])
                    < sb.arena().n() by {
                    assert(zero@[kk] < s0.arena().n());
                }
                assert forall|kk: int| 0 <= kk < sum@.len() implies (#[trigger] sum@[kk])
                    < sb.arena().n() by {
                    assert(sum@[kk] < sb.arena().n());
                }
            }
            assert(sb.value(zero) == Some(0nat) && sb.value(sum) == Some(0nat)) by {
                assert(s0.value(zero) == Some(0nat));
                assert(sb.value(zero) == s0.value(zero));
                assert(sb.value(sum) == sb.value(zero)) by {
                    assert(sum@ == zero@);
                }
            }
            assert forall|t: u32|
                #[trigger] sb.arena().ext_or0(t) == orig.arena().ext_or0(t) + count_of(
                zero@,
                t,
            ) + count_of(sum@, t) by {
                assert(sb.ext_or0(t) == s0.ext_or0(t) + count_of(sum@, t));
                assert(s0.arena().ext_or0(t) == orig.arena().ext_or0(t) + count_of(zero@, t));
            }
            if orig.value(*a) is Some && orig.value(*b) is Some {
                let x = orig.value(*a).unwrap();
                vstd::arithmetic::power2::lemma2_to64();
                assert(x * (orig.value(*b).unwrap() % pow2(0)) == x * 0) by {
                    assert(orig.value(*b).unwrap() % pow2(0) == 0) by {
                        vstd::arithmetic::div_mod::lemma_fundamental_div_mod_converse(
                            orig.value(*b).unwrap() as int,
                            1,
                            orig.value(*b).unwrap() as int,
                            0,
                        );
                    }
                }
                assert(x * 0 == 0) by (nonlinear_arith);
                vstd::arithmetic::power2::lemma_pow2_pos(width as nat);
                vstd::arithmetic::div_mod::lemma_small_mod(0nat, pow2(width as nat));
            }
        }
        let mut i: usize = 0;
        while i < width
            invariant
                orig.inv(),
                orig.wf_word(*a),
                orig.wf_word(*b),
                orig.room(per * (a@.len() + 1)),
                width == a@.len() && width == b@.len(),
                per == (70 * a@.len() + 140) as nat,
                i <= width,
                self.inv(),
                orig.arena().n() <= self.arena().n(),
                zero@.len() == width,
                sum@.len() == width,
                bounded_growth(orig.arena(), self.arena(), per * ((i + 1) as nat)),
                forall|t: u32|
                    #[trigger] self.arena().ext_or0(t) == orig.arena().ext_or0(t) + count_of(
                        zero@,
                        t,
                    ) + count_of(sum@, t),
                holders_kept(orig, *self),
                self.wf_word(*a),
                self.wf_word(*b),
                self.wf_word(zero),
                self.wf_word(sum),
                self.value(*a) == orig.value(*a),
                self.value(*b) == orig.value(*b),
                self.value(zero) == Some(0nat),
                (orig.value(*a) is Some && orig.value(*b) is Some) ==> self.value(sum) == Some(
                    (orig.value(*a).unwrap() * (orig.value(*b).unwrap() % pow2(i as nat))) % pow2(
                        width as nat,
                    ),
                ),
            decreases width - i,
        {
            let ghost prev = *self;
            proof {
                assert(per * ((i + 1) as nat) + per <= per * ((width + 1) as nat)) by (
                nonlinear_arith)
                    requires
                        i + 1 <= width,
                        per >= 1,
                ;
                lemma_room_growth(
                    orig.arena(),
                    self.arena(),
                    per * ((i + 1) as nat),
                    per,
                );
            }
            let test = self.slice(b, i, i);
            let ghost m1 = *self;
            proof {
                lemma_room_growth_step(
                    orig,
                    prev,
                    m1,
                    per,
                    (i + 1) as nat,
                    a@.len(),
                    (a@.len() + 1) as nat,
                );
                assert forall|t: u32| #[trigger] m1.arena().ext_or0(t) >= prev.arena().ext_or0(
                    t,
                ) by {
                    assert(m1.arena().ext_or0(t) == prev.arena().ext_or0(t) + count_of(
                        test@,
                        t,
                    ));
                }
                lemma_wf_word_preserved(prev, m1, *a);
                lemma_wf_word_preserved(prev, m1, zero);
                lemma_wf_word_preserved(prev, m1, sum);
                lemma_value_preserved(prev, m1, sum);
            }
            let v1 = self.cond(&test, a, &zero);
            let ghost m2 = *self;
            proof {
                lemma_growth_trans(
                    prev.arena(),
                    m1.arena(),
                    m2.arena(),
                    a@.len(),
                    12 * a@.len() + 3,
                );
                lemma_room_growth_step(
                    orig,
                    prev,
                    m2,
                    per,
                    (i + 1) as nat,
                    13 * a@.len() + 3,
                    (a@.len() + 1) as nat,
                );
                assert forall|t: u32| #[trigger] m2.arena().ext_or0(t) >= m1.arena().ext_or0(
                    t,
                ) by {
                    assert(m2.arena().ext_or0(t) == m1.arena().ext_or0(t) + count_of(v1@, t));
                }
                lemma_wf_word_preserved(m1, m2, sum);
                lemma_wf_word_preserved(m1, m2, test);
                lemma_value_preserved(m1, m2, sum);
            }
            let v2 = self.shl(&v1, i);
            let ghost m3 = *self;
            proof {
                lemma_growth_trans(
                    prev.arena(),
                    m2.arena(),
                    m3.arena(),
                    13 * a@.len() + 3,
                    3 * a@.len() + 1,
                );
                lemma_room_growth_step(
                    orig,
                    prev,
                    m3,
                    per,
                    (i + 1) as nat,
                    16 * a@.len() + 4,
                    (a@.len() + 1) as nat,
                );
                assert forall|t: u32| #[trigger] m3.arena().ext_or0(t) >= m2.arena().ext_or0(
                    t,
                ) by {
                    assert(m3.arena().ext_or0(t) == m2.arena().ext_or0(t) + count_of(v2@, t));
                }
                lemma_wf_word_preserved(m2, m3, sum);
                lemma_wf_word_preserved(m2, m3, test);
                lemma_wf_word_preserved(m2, m3, v1);
                lemma_value_preserved(m2, m3, sum);
            }
            let nsum = self.add(&sum, &v2);
            let ghost m4 = *self;
            proof {
                lemma_growth_trans(
                    prev.arena(),
                    m3.arena(),
                    m4.arena(),
                    16 * a@.len() + 4,
                    45 * a@.len() + 3,
                );
                assert(bounded_growth(prev.arena(), m4.arena(), per));
            }
            let ghost wtest = test@;
            let ghost wv1 = v1@;
            let ghost wv2 = v2@;
            let ghost wsum_old = sum@;
            self.drop_word(test);
            let ghost m5 = *self;
            proof {
                assert forall|t: u32| m5.arena().ext_or0(t) >= #[trigger] count_of(wv1, t) by {
                    lemma_ext_nonneg(prev.arena(), t);
                    assert(m5.ext_or0(t) == m4.ext_or0(t) - count_of(wtest, t));
                    assert(m4.arena().ext_or0(t) == m3.arena().ext_or0(t) + count_of(nsum@, t));
                    assert(m3.arena().ext_or0(t) == m2.arena().ext_or0(t) + count_of(wv2, t));
                    assert(m2.arena().ext_or0(t) == m1.arena().ext_or0(t) + count_of(wv1, t));
                    assert(m1.arena().ext_or0(t) == prev.arena().ext_or0(t) + count_of(
                        wtest,
                        t,
                    ));
                }
                assert forall|kk: int| 0 <= kk < wv1.len() implies (#[trigger] wv1[kk])
                    < m5.arena().n() by {
                    assert(wv1[kk] < m2.arena().n());
                }
                assert(m5.wf_word(v1));
            }
            self.drop_word(v1);
            let ghost m6 = *self;
            proof {
                assert forall|t: u32| m6.arena().ext_or0(t) >= #[trigger] count_of(wv2, t) by {
                    lemma_ext_nonneg(prev.arena(), t);
                    assert(m6.ext_or0(t) == m5.ext_or0(t) - count_of(wv1, t));
                    assert(m5.ext_or0(t) == m4.ext_or0(t) - count_of(wtest, t));
                    assert(m4.arena().ext_or0(t) == m3.arena().ext_or0(t) + count_of(nsum@, t));
                    assert(m3.arena().ext_or0(t) == m2.arena().ext_or0(t) + count_of(wv2, t));
                    assert(m2.arena().ext_or0(t) == m1.arena().ext_or0(t) + count_of(wv1, t));
                    assert(m1.arena().ext_or0(t) == prev.arena().ext_or0(t) + count_of(
                        wtest,
                        t,
                    ));
                }
                assert forall|kk: int| 0 <= kk < wv2.len() implies (#[trigger] wv2[kk])
                    < m6.arena().n() by {
                    assert(wv2[kk] < m3.arena().n());
                }
                assert(m6.wf_word(v2));
            }
            self.drop_word(v2);
            let ghost m7 = *self;
            proof {
                assert forall|t: u32| m7.arena().ext_or0(t) >= #[trigger] count_of(
                    wsum_old,
                    t,
                ) by {
                    lemma_ext_nonneg(orig.arena(), t);
                    assert(m7.ext_or0(t) == m6.ext_or0(t) - count_of(wv2, t));
                    assert(m6.ext_or0(t) == m5.ext_or0(t) - count_of(wv1, t));
                    assert(m5.ext_or0(t) == m4.ext_or0(t) - count_of(wtest, t));
                    assert(m4.arena().ext_or0(t) == m3.arena().ext_or0(t) + count_of(nsum@, t));
                    assert(m3.arena().ext_or0(t) == m2.arena().ext_or0(t) + count_of(wv2, t));
                    assert(m2.arena().ext_or0(t) == m1.arena().ext_or0(t) + count_of(wv1, t));
                    assert(m1.arena().ext_or0(t) == prev.arena().ext_or0(t) + count_of(
                        wtest,
                        t,
                    ));
                    assert(prev.arena().ext_or0(t) == orig.arena().ext_or0(t) + count_of(
                        zero@,
                        t,
                    ) + count_of(wsum_old, t));
                    assert(count_of(zero@, t) >= 0);
                }
                assert forall|kk: int| 0 <= kk < wsum_old.len() implies (#[trigger] wsum_old[kk])
                    < m7.arena().n() by {
                    assert(wsum_old[kk] < prev.arena().n());
                }
            }
            let old_sum = sum;
            sum = nsum;
            self.drop_word(old_sum);
            i = i + 1;
            proof {
                // one net word of references remains from this round
                assert forall|t: u32|
                    #[trigger] self.arena().ext_or0(t) == orig.arena().ext_or0(t) + count_of(
                    zero@,
                    t,
                ) + count_of(sum@, t) by {
                    assert(self.ext_or0(t) == m7.ext_or0(t) - count_of(wsum_old, t));
                    assert(m7.ext_or0(t) == m6.ext_or0(t) - count_of(wv2, t));
                    assert(m6.ext_or0(t) == m5.ext_or0(t) - count_of(wv1, t));
                    assert(m5.ext_or0(t) == m4.ext_or0(t) - count_of(wtest, t));
                    assert(m4.arena().ext_or0(t) == m3.arena().ext_or0(t) + count_of(sum@, t));
                    assert(m3.arena().ext_or0(t) == m2.arena().ext_or0(t) + count_of(wv2, t));
                    assert(m2.arena().ext_or0(t) == m1.arena().ext_or0(t) + count_of(wv1, t));
                    assert(m1.arena().ext_or0(t) == prev.arena().ext_or0(t) + count_of(
                        wtest,
                        t,
                    ));
                    assert(prev.arena().ext_or0(t) == orig.arena().ext_or0(t) + count_of(
                        zero@,
                        t,
                    ) + count_of(wsum_old, t));
                }
                assert(bounded_growth(orig.arena(), self.arena(), per * ((i + 1) as nat))) by {
                    assert(bounded_growth(m4.arena(), self.arena(), 0));
                    lemma_growth_trans(prev.arena(), m4.arena(), self.arena(), per, 0);
                    lemma_growth_trans(
                        orig.arena(),
                        prev.arena(),
                        self.arena(),
                        per * (i as nat),
                        per,
                    );
                    assert(per * (i as nat) + per == per * ((i + 1) as nat)) by (nonlinear_arith);
                }
                assert(holders_kept(orig, *self)) by {
                    assert forall|t: u32|
                        t < orig.arena().n() && orig.arena().ext_or0(t) >= 1 implies #[trigger] self.arena().kind_at(
                        t,
                    ) == orig.arena().kind_at(t) by {
                        assert(prev.arena().kind_at(t) == orig.arena().kind_at(t));
                        assert(prev.arena().ext_or0(t) == orig.arena().ext_or0(t) + count_of(
                            zero@,
                            t,
                        ) + count_of(wsum_old, t));
                        assert(m1.arena().kind_at(t) == prev.arena().kind_at(t));
                        assert(m1.arena().ext_or0(t) == prev.arena().ext_or0(t) + count_of(
                            wtest,
                            t,
                        ));
                        assert(m2.arena().kind_at(t) == m1.arena().kind_at(t));
                        assert(m2.arena().ext_or0(t) == m1.arena().ext_or0(t) + count_of(
                            wv1,
                            t,
                        ));
                        assert(m3.arena().kind_at(t) == m2.arena().kind_at(t));
                        assert(m3.arena().ext_or0(t) == m2.arena().ext_or0(t) + count_of(
                            wv2,
                            t,
                        ));
                        assert(m4.arena().kind_at(t) == m3.arena().kind_at(t));
                        assert(m5.arena().kind_at(t) == m4.arena().kind_at(t));
                        assert(m6.arena().kind_at(t) == m5.arena().kind_at(t));
                        assert(m7.arena().kind_at(t) == m6.arena().kind_at(t));
                        assert(self.arena().kind_at(t) == m7.arena().kind_at(t));
                    }
                }
                assert forall|kk: int| 0 <= kk < zero@.len() implies (#[trigger] zero@[kk])
                    < self.arena().n() by {
                    assert(zero@[kk] < prev.arena().n());
                }
                assert forall|kk: int| 0 <= kk < sum@.len() implies (#[trigger] sum@[kk])
                    < self.arena().n() by {
                    assert(sum@[kk] < m4.arena().n());
                }
                lemma_wf_word_preserved(orig, *self, *a);
                lemma_wf_word_preserved(orig, *self, *b);
                assert forall|t: u32|
                    self.arena().ext_or0(t) >= #[trigger] count_of(zero@, t) + count_of(
                    sum@,
                    t,
                ) by {
                    lemma_ext_nonneg(orig.arena(), t);
                    assert(self.arena().ext_or0(t) == orig.arena().ext_or0(t) + count_of(
                        zero@,
                        t,
                    ) + count_of(sum@, t));
                }
                lemma_wf_from_counts_z(orig, *self, zero, sum);
                assert(holders_kept(prev, *self)) by {
                    assert forall|t: u32|
                        t < prev.arena().n() && prev.arena().ext_or0(t) >= 1 implies #[trigger] self.arena().kind_at(
                        t,
                    ) == prev.arena().kind_at(t) by {
                        assert(m1.arena().ext_or0(t) == prev.arena().ext_or0(t) + count_of(
                            wtest,
                            t,
                        ));
                        assert(m2.arena().ext_or0(t) == m1.arena().ext_or0(t) + count_of(
                            wv1,
                            t,
                        ));
                        assert(m3.arena().ext_or0(t) == m2.arena().ext_or0(t) + count_of(
                            wv2,
                            t,
                        ));
                        assert(m1.arena().kind_at(t) == prev.arena().kind_at(t));
                        assert(m2.arena().kind_at(t) == m1.arena().kind_at(t));
                        assert(m3.arena().kind_at(t) == m2.arena().kind_at(t));
                        assert(m4.arena().kind_at(t) == m3.arena().kind_at(t));
                        assert(m5.arena().kind_at(t) == m4.arena().kind_at(t));
                        assert(m6.arena().kind_at(t) == m5.arena().kind_at(t));
                        assert(m7.arena().kind_at(t) == m6.arena().kind_at(t));
                        assert(self.arena().kind_at(t) == m7.arena().kind_at(t));
                    }
                }
                assert(holders_kept(m4, *self)) by {
                    assert forall|t: u32|
                        t < m4.arena().n() && m4.arena().ext_or0(t) >= 1 implies #[trigger] self.arena().kind_at(
                        t,
                    ) == m4.arena().kind_at(t) by {
                        assert(m5.arena().kind_at(t) == m4.arena().kind_at(t));
                        assert(m6.arena().kind_at(t) == m5.arena().kind_at(t));
                        assert(m7.arena().kind_at(t) == m6.arena().kind_at(t));
                        assert(self.arena().kind_at(t) == m7.arena().kind_at(t));
                    }
                }
                assert(self.value(*a) == orig.value(*a) && self.value(*b) == orig.value(*b)
                    && self.value(zero) == prev.value(zero)) by {
                    lemma_value_preserved(orig, *self, *a);
                    lemma_value_preserved(orig, *self, *b);
                    lemma_value_preserved(prev, *self, zero);
                }
                assert(self.value(sum) == m4.value(nsum)) by {
                    assert(m4.wf_word(nsum));
                    lemma_value_preserved(m4, *self, nsum);
                }
                if orig.value(*a) is Some && orig.value(*b) is Some {
                    let x = orig.value(*a).unwrap();
                    let y = orig.value(*b).unwrap();
                    let s_old: nat = (x * (y % pow2((i - 1) as nat))) % pow2(width as nat);
                    assert(m1.value(test) == Some((y / pow2((i - 1) as nat)) % pow2(1)));
                    assert((y / pow2((i - 1) as nat)) % pow2(1) == (if nbit(y, (i - 1) as nat) {
                        1nat
                    } else {
                        0nat
                    })) by {
                        vstd::arithmetic::power2::lemma2_to64();
                        crate::arith::lemma_nbit_zero(y / pow2((i - 1) as nat));
                    }
                    assert(m1.value(*a) == orig.value(*a) && m1.value(zero) == Some(0nat)) by {
                        lemma_value_preserved(orig, m1, *a);
                        lemma_value_preserved(prev, m1, zero);
                    }
                    assert(m2.value(v1) == Some(
                        if nbit(y, (i - 1) as nat) {
                            x
                        } else {
                            0nat
                        },
                    ));
                    assert(m3.value(v2) == Some(
                        ((if nbit(y, (i - 1) as nat) {
                            x
                        } else {
                            0nat
                        }) * pow2((i - 1) as nat)) % pow2(width as nat),
                    ));
                    assert(m3.arena().word_value(wsum_old) == Some(s_old));
                    assert(m4.value(nsum) == Some(
                        (s_old + ((if nbit(y, (i - 1) as nat) {
                            x
                        } else {
                            0nat
                        }) * pow2((i - 1) as nat)) % pow2(width as nat)) % pow2(width as nat),
                    ));
                    crate::arith::lemma_mul_step(x, y, (i - 1) as nat, width as nat);
                    assert((if nbit(y, (i - 1) as nat) {
                        (x * pow2((i - 1) as nat)) % pow2(width as nat)
                    } else {
                        0nat
                    }) == ((if nbit(y, (i - 1) as nat) {
                        x
                    } else {
                        0nat
                    }) * pow2((i - 1) as nat)) % pow2(width as nat)) by {
                        if !nbit(y, (i - 1) as nat) {
                            assert(0nat * pow2((i - 1) as nat) == 0) by (nonlinear_arith);
                            vstd::arithmetic::power2::lemma_pow2_pos(width as nat);
                            vstd::arithmetic::div_mod::lemma_small_mod(
                                0nat,
                                pow2(width as nat),
                            );
                        }
                    }
                    assert((s_old + (if nbit(y, (i - 1) as nat) {
                        (x * pow2((i - 1) as nat)) % pow2(width as nat)
                    } else {
                        0nat
                    })) % pow2(width as nat) == (x * (y % pow2(i as nat))) % pow2(
                        width as nat,
                    )) by {
                        if !nbit(y, (i - 1) as nat) {
                            vstd::arithmetic::power2::lemma_pow2_pos(width as nat);
                            vstd::arithmetic::div_mod::lemma_mod_twice(
                                (x * (y % pow2((i - 1) as nat))) as int,
                                pow2(width as nat) as int,
                            );
                        }
                    }
                }
            }
        }
        let ghost send = *self;
        self.drop_word(zero);
        proof {
            assert forall|t: u32|
                #[trigger] self.arena().ext_or0(t) == orig.arena().ext_or0(t) + count_of(
                sum@,
                t,
            ) by {
                assert(self.ext_or0(t) == send.ext_or0(t) - count_of(zero@, t));
                assert(send.arena().ext_or0(t) == orig.arena().ext_or0(t) + count_of(zero@, t)
                    + count_of(sum@, t));
            }
            assert forall|t: u32| self.arena().ext_or0(t) >= #[trigger] count_of(sum@, t) by {
                lemma_ext_nonneg(orig.arena(), t);
            }
            lemma_wf_word_preserved(orig, *self, *a);
            lemma_wf_word_preserved(orig, *self, *b);
            assert forall|kk: int| 0 <= kk < sum@.len() implies (#[trigger] sum@[kk])
                < self.arena().n() by {
                assert(sum@[kk] < send.arena().n());
            }
            assert(holders_kept(orig, *self)) by {
                assert forall|t: u32|
                    t < orig.arena().n() && orig.arena().ext_or0(t) >= 1 implies #[trigger] self.arena().kind_at(
                    t,
                ) == orig.arena().kind_at(t) by {
                    assert(send.arena().kind_at(t) == orig.arena().kind_at(t));
                    assert(self.arena().kind_at(t) == send.arena().kind_at(t));
                }
            }
            lemma_value_preserved(orig, *self, *a);
            lemma_value_preserved(orig, *self, *b);
            assert(self.value(sum) == send.value(sum)) by {
                assert(send.wf_word(sum));
                lemma_value_preserved(send, *self, sum);
            }
            if orig.value(*a) is Some && orig.value(*b) is Some {
                let y = orig.value(*b).unwrap();
                lemma_word_value_bound(orig.arena(), b@);
                lemma_mod_pow2_small(y, width as nat);
            }
            assert(bounded_growth(orig.arena(), self.arena(), (70 * a@.len() + 140) * (a@.len()
                + 1))) by {
                lemma_growth_trans(orig.arena(), send.arena(), self.arena(), per * ((width
                    + 1) as nat), 0);
            }
        }
        sum
    }
}

/// Room propagation inside a composed operation: `mid` has grown from
/// `prev` by at most `spent`, itself within one round's budget.
proof fn lemma_room_growth_step(
    orig: Formula,
    prev: Formula,
    mid: Formula,
    per: nat,
    rounds: nat,
    spent: nat,
    cap: nat,
)
    requires
        orig.room(per * cap),
        rounds + 1 <= cap,
        bounded_growth(orig.arena(), prev.arena(), per * rounds),
        bounded_growth(prev.arena(), mid.arena(), spent),
        spent <= per,
    ensures
        mid.room((per - spent) as nat),
        bounded_growth(orig.arena(), mid.arena(), per * rounds + spent),
{
    lemma_growth_trans(orig.arena(), prev.arena(), mid.arena(), per * rounds, spent);
    assert(per * rounds + per <= per * cap) by (nonlinear_arith)
        requires
            rounds + 1 <= cap,
    ;
    lemma_room_growth(
        orig.arena(),
        mid.arena(),
        per * rounds + spent,
        (per - spent) as nat,
    );
}



/// As above for the running accumulator words.
proof fn lemma_wf_from_counts_z(orig: Formula, cur: Formula, z: Word, s: Word)
    requires
        orig.arena().n() <= cur.arena().n(),
        forall|kk: int| 0 <= kk < z@.len() ==> (#[trigger] z@[kk]) < cur.arena().n(),
        forall|kk: int| 0 <= kk < s@.len() ==> (#[trigger] s@[kk]) < cur.arena().n(),
        forall|t: u32|
            #[trigger] cur.arena().ext_or0(t) >= count_of(z@, t) + count_of(s@, t),
    ensures
        cur.wf_word(z),
        cur.wf_word(s),
{
    assert forall|t: u32| cur.arena().ext_or0(t) >= #[trigger] count_of(z@, t) by {
        assert(cur.arena().ext_or0(t) >= count_of(z@, t) + count_of(s@, t));
    }
    assert forall|t: u32| cur.arena().ext_or0(t) >= #[trigger] count_of(s@, t) by {
        assert(cur.arena().ext_or0(t) >= count_of(z@, t) + count_of(s@, t));
    }
}



} // verus!
