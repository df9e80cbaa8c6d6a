//! A second word-value interface over the shared bit store: words carry
//! their arena handle-style operations as methods, and rotations are
//! shift-or circuits built over the rotation amount taken modulo the
//! width.

use vstd::prelude::*;
use vstd::arithmetic::power2::pow2;
use crate::formula::Formula;
use crate::formula::wresult;
use crate::formula::grown;
use crate::formula::holders_kept;

verus! {

/// The store words of this interface share.
pub struct Words {
    f: Formula,
}

/// A fixed-width word: a handle on bits of a `Words` store.
pub struct Word {
    inner: crate::formula::Word,
}

impl View for Word {
    type V = Seq<u32>;

    closed spec fn view(&self) -> Seq<u32> {
        self.inner@
    }
}

impl Word {
    /// The wrapped word, as ghost state.
    pub closed spec fn raw(self) -> crate::formula::Word {
        self.inner
    }

    /// The raw handle carries the same bit sequence as the word itself, so
    /// store-level accounting stated over raw handles can be read against
    /// this word's own view.
    pub proof fn lemma_raw_view(self)
        ensures
            self.raw()@ == self@,
    {
    }
}

impl Words {
    /// The underlying formula store, as ghost state.
    pub closed spec fn frm(self) -> Formula {
        self.f
    }

    /// Store well-formedness.
    pub open spec fn inv(self) -> bool {
        self.frm().inv()
    }

    /// Headroom for further allocations.
    pub open spec fn room(self, k: nat) -> bool {
        self.frm().room(k)
    }

    /// A word of this store that owns its references.
    pub open spec fn wf_word(self, w: Word) -> bool {
        self.frm().wf_word(w.raw())
    }

    /// The value a word denotes, when its bits are constants.
    pub open spec fn value(self, w: Word) -> Option<nat> {
        self.frm().value(w.raw())
    }

    /// Creates an empty store.
    pub fn new() -> (r: Words)
        ensures
            r.inv(),
            r.frm().arena().n() == 0,
    {
        Words { f: Formula::new() }
    }

    /// A fresh word of unconstrained variables.
    pub fn var(&mut self, width: usize) -> (r: Word)
        requires
            old(self).inv(),
            old(self).room(3 * (width as nat) + 3),
        ensures
            wresult(old(self).frm(), final(self).frm(), r.raw()),
            grown(old(self).frm(), final(self).frm(), 3 * (width as nat)),
            r@.len() == width,
    {
        let w = self.f.word(width);
        Word { inner: w }
    }

    /// The word of constants spelling out `n`, low bit first.
    pub fn from_u64(&mut self, width: usize, n: u64) -> (r: Word)
        requires
            old(self).inv(),
            old(self).room(3 * (width as nat) + 3),
        ensures
            wresult(old(self).frm(), final(self).frm(), r.raw()),
            grown(old(self).frm(), final(self).frm(), 3 * (width as nat)),
            r@.len() == width,
            final(self).value(r) == Some((n as nat) % pow2(width as nat)),
    {
        let w = self.f.from_u64(n, width);
        Word { inner: w }
    }

    /// A second word over the same bits.
    pub fn clone_word(&mut self, w: &Word) -> (r: Word)
        requires
            old(self).inv(),
            old(self).wf_word(*w),
            old(self).room(w@.len() + 1),
        ensures
            wresult(old(self).frm(), final(self).frm(), r.raw()),
            grown(old(self).frm(), final(self).frm(), w@.len()),
            r@ == w@,
            final(self).wf_word(*w),
            final(self).value(*w) == old(self).value(*w),
    {
        let c = self.f.clone_word(&w.inner);
        Word { inner: c }
    }

    /// Releases a word's references.
    pub fn drop_word(&mut self, w: Word)
        requires
            old(self).inv(),
            old(self).wf_word(w),
        ensures
            final(self).inv(),
            final(self).frm().arena().n() == old(self).frm().arena().n(),
            forall|t: u32|
                #[trigger] final(self).frm().ext_or0(t) == old(self).frm().ext_or0(t) - crate::bits::count_of(
                    w@,
                    t,
                ),
            grown(old(self).frm(), final(self).frm(), 0),
    {
        let Word { inner } = w;
        self.f.drop_word(inner);
    }

    /// Number of slots the shared store has ever allocated.
    pub fn size(&self) -> (r: usize)
        ensures
            r == self.frm().arena().n(),
    {
        self.f.size()
    }

    /// Number of live slots in the shared store.
    pub fn live_count(&self) -> (r: usize)
        requires
            self.inv(),
        ensures
            r == self.frm().live_count(),
    {
        self.f.gc_live_count()
    }

    /// Reads a word of constants back, when it is narrow enough.
    pub fn to_u64(&self, w: &Word) -> (r: Option<u64>)
        requires
            self.inv(),
            self.wf_word(*w),
        ensures
            match r {
                Some(v) => w@.len() <= 64 && self.value(*w) == Some(v as nat),
                None => w@.len() > 64 || self.value(*w) is None,
            },
    {
        self.f.try_to_u64(&w.inner)
    }

}

impl Word {
    /// The width of the word.
    pub fn width(&self) -> (r: usize)
        ensures
            r == self@.len(),
    {
        self.inner.width()
    }

    /// A rewriting hook: leaves the word as it stands.
    pub fn simplify(&mut self)
        ensures
            *final(self) == *old(self),
    {
    }

    /// Concatenation: `other`'s bits first (low), then this word's.
    pub fn concat(&self, w: &mut Words, other: &Word) -> (r: Word)
        requires
            old(w).inv(),
            old(w).wf_word(*self),
            old(w).wf_word(*other),
            old(w).room(self@.len() + other@.len() + 1),
        ensures
            wresult(old(w).frm(), final(w).frm(), r.raw()),
            grown(old(w).frm(), final(w).frm(), self@.len() + other@.len()),
            r@ == other@ + self@,
            final(w).wf_word(*self),
            final(w).wf_word(*other),
            final(w).value(*self) == old(w).value(*self),
            final(w).value(*other) == old(w).value(*other),
            (old(w).value(*self) is Some && old(w).value(*other) is Some) ==> final(w).value(r)
                == Some(
                old(w).value(*other).unwrap() + pow2(other@.len()) * old(w).value(
                    *self,
                ).unwrap(),
            ),
    {
        let c = w.f.concat(&other.inner, &self.inner);
        Word { inner: c }
    }

    /// The bits `lo..=hi`, as a word of width `hi - lo + 1`.
    pub fn slice(&self, w: &mut Words, lo: usize, hi: usize) -> (r: Word)
        requires
            old(w).inv(),
            old(w).wf_word(*self),
            lo <= hi < self@.len(),
            old(w).room(self@.len() + 1),
        ensures
            wresult(old(w).frm(), final(w).frm(), r.raw()),
            grown(old(w).frm(), final(w).frm(), self@.len()),
            r@ == self@.subrange(lo as int, hi + 1),
            final(w).wf_word(*self),
            final(w).value(*self) == old(w).value(*self),
            old(w).value(*self) is Some ==> final(w).value(r) == Some(
                (old(w).value(*self).unwrap() / pow2(lo as nat)) % pow2((hi - lo + 1) as nat),
            ),
    {
        let c = w.f.slice(&self.inner, lo, hi);
        Word { inner: c }
    }

    /// Rotation left by `k`, `k` taken modulo the width.
    pub fn rotl(&self, w: &mut Words, k: usize) -> (r: Word)
        requires
            old(w).inv(),
            old(w).wf_word(*self),
            self@.len() >= 1,
            old(w).room(21 * self@.len() + 27),
        ensures
            wresult(old(w).frm(), final(w).frm(), r.raw()),
            grown(old(w).frm(), final(w).frm(), 21 * self@.len() + 2),
            r@.len() == self@.len(),
            final(w).wf_word(*self),
            final(w).value(*self) == old(w).value(*self),
            old(w).value(*self) is Some ==> final(w).value(r) == Some(
                (old(w).value(*self).unwrap() % pow2(
                    (self@.len() - ((k as nat) % self@.len())) as nat,
                )) * pow2(((k as nat) % self@.len()) as nat) + old(w).value(*self).unwrap()
                    / pow2((self@.len() - ((k as nat) % self@.len())) as nat),
            ),
    {
        let c = w.f.rotl(&self.inner, k);
        Word { inner: c }
    }

    /// Rotation right by `k`, `k` taken modulo the width.
    pub fn rotr(&self, w: &mut Words, k: usize) -> (r: Word)
        requires
            old(w).inv(),
            old(w).wf_word(*self),
            self@.len() >= 1,
            old(w).room(21 * self@.len() + 27),
        ensures
            wresult(old(w).frm(), final(w).frm(), r.raw()),
            grown(old(w).frm(), final(w).frm(), 21 * self@.len() + 2),
            r@.len() == self@.len(),
            final(w).wf_word(*self),
            final(w).value(*self) == old(w).value(*self),
            old(w).value(*self) is Some ==> final(w).value(r) == Some(
                (old(w).value(*self).unwrap() % pow2(((k as nat) % self@.len()) as nat)) * pow2(
                    (self@.len() - ((k as nat) % self@.len())) as nat,
                ) + old(w).value(*self).unwrap() / pow2(((k as nat) % self@.len()) as nat),
            ),
    {
        let c = w.f.rotr(&self.inner, k);
        Word { inner: c }
    }

    /// Rotates this word left by `k` in place.
    pub fn rotl_assign(&mut self, w: &mut Words, k: usize)
        requires
            old(w).inv(),
            old(w).wf_word(*old(self)),
            old(self)@.len() >= 1,
            old(w).room(21 * old(self)@.len() + 27),
        ensures
            final(w).inv(),
            final(w).wf_word(*final(self)),
            final(self)@.len() == old(self)@.len(),
            holders_kept(old(w).frm(), final(w).frm()),
            old(w).value(*old(self)) is Some ==> final(w).value(*final(self)) == Some(
                (old(w).value(*old(self)).unwrap() % pow2(
                    (old(self)@.len() - ((k as nat) % old(self)@.len())) as nat,
                )) * pow2(((k as nat) % old(self)@.len()) as nat) + old(w).value(
                    *old(self),
                ).unwrap() / pow2((old(self)@.len() - ((k as nat) % old(self)@.len())) as nat),
            ),
    {
        let ghost w0 = *w;
        let ghost self0 = *self;
        let mut r = w.f.rotl(&self.inner, k);
        let ghost w1 = *w;
        let ghost rg = r;
        core::mem::swap(&mut self.inner, &mut r);
        w.f.drop_word(r);
        proof {
            lemma_assign_tail(w0, w1, *w, self0, Word { inner: rg }, *self);
        }
    }

    /// Rotates this word right by `k` in place.
    pub fn rotr_assign(&mut self, w: &mut Words, k: usize)
        requires
            old(w).inv(),
            old(w).wf_word(*old(self)),
            old(self)@.len() >= 1,
            old(w).room(21 * old(self)@.len() + 27),
        ensures
            final(w).inv(),
            final(w).wf_word(*final(self)),
            final(self)@.len() == old(self)@.len(),
            holders_kept(old(w).frm(), final(w).frm()),
            old(w).value(*old(self)) is Some ==> final(w).value(*final(self)) == Some(
                (old(w).value(*old(self)).unwrap() % pow2(
                    ((k as nat) % old(self)@.len()) as nat,
                )) * pow2((old(self)@.len() - ((k as nat) % old(self)@.len())) as nat) + old(
                    w,
                ).value(*old(self)).unwrap() / pow2(((k as nat) % old(self)@.len()) as nat),
            ),
    {
        let ghost w0 = *w;
        let ghost self0 = *self;
        let mut r = w.f.rotr(&self.inner, k);
        let ghost w1 = *w;
        let ghost rg = r;
        core::mem::swap(&mut self.inner, &mut r);
        w.f.drop_word(r);
        proof {
            lemma_assign_tail(w0, w1, *w, self0, Word { inner: rg }, *self);
        }
    }
}

/// After an in-place update: the freshly built word keeps its references
/// and its value once the replaced word is released.
proof fn lemma_assign_tail(
    w0: Words,
    w1: Words,
    w2: Words,
    old_word: Word,
    built: Word,
    now_held: Word,
)
    requires
        w0.inv(),
        w0.wf_word(old_word),
        wresult(w0.frm(), w1.frm(), built.inner),
        now_held@ == built@,
        now_held.inner == built.inner,
        w2.frm().arena().n() == w1.frm().arena().n(),
        forall|t: u32|
            t < w1.frm().arena().n() ==> #[trigger] w2.frm().arena().kind_at(t)
                == w1.frm().arena().kind_at(t),
        forall|t: u32|
            #[trigger] w2.frm().ext_or0(t) == w1.frm().ext_or0(t) - crate::bits::count_of(
                old_word@,
                t,
            ),
        w2.inv(),
    ensures
        w2.wf_word(now_held),
        holders_kept(w0.frm(), w2.frm()),
        w2.value(now_held) == w1.value(built),
{
    assert forall|t: u32| w2.frm().arena().ext_or0(t) >= #[trigger] crate::bits::count_of(
        built@,
        t,
    ) by {
        crate::bits::lemma_ext_nonneg(w0.frm().arena(), t);
        assert(w2.frm().ext_or0(t) == w1.frm().ext_or0(t) - crate::bits::count_of(
            old_word@,
            t,
        ));
        assert(w1.frm().arena().ext_or0(t) == w0.frm().arena().ext_or0(t)
            + crate::bits::count_of(built.raw()@, t));
        assert(built.raw()@ == built@);
        assert(w0.frm().arena().ext_or0(t) >= crate::bits::count_of(old_word.raw()@, t));
        assert(old_word.raw()@ == old_word@);
    }
    assert forall|kk: int| 0 <= kk < built@.len() implies (#[trigger] built@[kk])
        < w2.frm().arena().n() by {
        assert(built@[kk] < w1.frm().arena().n());
    }
    assert(w2.wf_word(now_held));
    assert(holders_kept(w0.frm(), w2.frm())) by {
        assert forall|t: u32|
            t < w0.frm().arena().n() && w0.frm().arena().ext_or0(t) >= 1
                implies #[trigger] w2.frm().arena().kind_at(t) == w0.frm().arena().kind_at(
            t,
        ) by {
            assert(w1.frm().arena().ext_or0(t) == w0.frm().arena().ext_or0(t)
                + crate::bits::count_of(built.raw()@, t));
            assert(crate::bits::count_of(built.raw()@, t) >= 0);
            assert(w1.frm().arena().kind_at(t) == w0.frm().arena().kind_at(t));
            assert(w2.frm().arena().kind_at(t) == w1.frm().arena().kind_at(t));
        }
    }
    assert(w2.value(now_held) == w1.value(built)) by {
        assert(w1.wf_word(built));
        crate::formula::lemma_value_preserved(w1.frm(), w2.frm(), built.inner);
    }
}

} // verus!
