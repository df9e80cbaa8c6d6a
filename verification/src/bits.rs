//! The node store for Boolean expressions.
//!
//! Every sub-expression lives in one shared arena as a `(refcount, kind)`
//! slot.  Slot indices (`u32`) are non-owning tokens; ownership is a matter
//! of reference counts.  A slot whose refcount reaches zero goes onto a free
//! list and is reused by later allocations.
//!
//! The central bookkeeping fact, kept as an invariant, is that every
//! refcount equals the number of references from live interior nodes plus
//! the number of references held by callers (the "external" references).
//! Each constructor hands its caller exactly one external reference to the
//! returned slot; `decr` gives one back.  From this the arena's main theorem
//! follows: once every external reference has been returned, every refcount
//! is zero (`lemma_quiescent`).

use vstd::prelude::*;
use vstd::arithmetic::power2::pow2;
use vstd::arithmetic::power2::lemma_pow2_adds;
use vstd::arithmetic::power2::lemma_pow2_pos;
use crate::arith::nbit;
use crate::arith::lemma_nbit_zero;
use crate::arith::lemma_nbit_half;

verus! {

/// One Boolean expression node.  Binary and unary nodes hold slot indices
/// of their operands.
#[derive(Clone, Copy, PartialEq, Eq)]
pub enum Bit {
    /// Reserved marker for freed slots; never observed on a live slot.
    Unused,
    /// An unconstrained Boolean variable.
    Var,
    /// A literal constant.
    Val(bool),
    /// Conjunction of two expressions.
    And(u32, u32),
    /// Disjunction of two expressions.
    Or(u32, u32),
    /// Complement of an expression.
    Not(u32),
}

/// How many references the node `b` holds to slot `t`.
pub open spec fn refs_in(b: Bit, t: u32) -> nat {
    match b {
        Bit::And(l, r) => (if l == t { 1nat } else { 0nat }) + (if r == t { 1nat } else { 0nat }),
        Bit::Or(l, r) => (if l == t { 1nat } else { 0nat }) + (if r == t { 1nat } else { 0nat }),
        Bit::Not(e) => if e == t { 1nat } else { 0nat },
        _ => 0nat,
    }
}

/// How many references one slot (live ones only) holds to slot `t`.
pub open spec fn slot_refs(entry: (u32, Bit), t: u32) -> nat {
    if entry.0 >= 1 { refs_in(entry.1, t) } else { 0nat }
}

/// Number of references to `t` from live slots among the first `k` slots.
pub open spec fn parents_upto(s: Seq<(u32, Bit)>, t: u32, k: int) -> nat
    decreases k,
{
    if k <= 0 { 0nat } else { parents_upto(s, t, k - 1) + slot_refs(s[k - 1], t) }
}

/// Sum of the refcounts of the first `k` slots.
pub open spec fn rc_total_upto(s: Seq<(u32, Bit)>, k: int) -> nat
    decreases k,
{
    if k <= 0 { 0nat } else { rc_total_upto(s, k - 1) + s[k - 1].0 as nat }
}

/// The arena: slots, a free list of reusable indices, and a ghost rank per
/// slot that decreases from a node to its operands (the structural witness
/// that the live graph is acyclic).
pub struct Bits {
    bits: Vec<(u32, Bit)>,
    garbage: Vec<u32>,
    rank: Ghost<Seq<nat>>,
}

impl Bits {
    /// The slots, as ghost state.
    pub closed spec fn slots(self) -> Seq<(u32, Bit)> {
        self.bits@
    }

    /// The free list, as ghost state.
    pub closed spec fn free_list(self) -> Seq<u32> {
        self.garbage@
    }

    /// The rank of a slot.
    pub closed spec fn rank_of(self, id: u32) -> nat {
        self.rank@[id as int]
    }

    /// All ranks, as ghost state.
    pub closed spec fn ranks(self) -> Seq<nat> {
        self.rank@
    }

    /// Number of slots ever allocated (free ones included).
    pub open spec fn n(self) -> nat {
        self.slots().len()
    }

    /// Refcount of a slot.
    pub open spec fn rc_at(self, id: u32) -> nat {
        self.slots()[id as int].0 as nat
    }

    /// Kind of a slot.
    pub open spec fn kind_at(self, id: u32) -> Bit {
        self.slots()[id as int].1
    }

    /// A live slot: in range, with a positive refcount.
    pub open spec fn live(self, id: u32) -> bool {
        id < self.n() && self.rc_at(id) >= 1
    }

    /// A slot the caller holds an external reference to.
    pub open spec fn held(self, t: u32) -> bool {
        t < self.n() && self.ext_at(t) >= 1
    }

    /// The constant a slot holds, if it is a constant.
    pub open spec fn bit_const(self, id: u32) -> Option<bool> {
        if id < self.n() {
            match self.kind_at(id) {
                Bit::Val(v) => Some(v),
                _ => None,
            }
        } else {
            None
        }
    }

    /// The numeric value of a sequence of bits, least significant first:
    /// defined exactly when every bit is a constant.
    pub open spec fn word_value(self, ids: Seq<u32>) -> Option<nat>
        decreases ids.len(),
    {
        if ids.len() == 0 {
            Some(0nat)
        } else {
            match (self.bit_const(ids[0]), self.word_value(ids.drop_first())) {
                (Some(b), Some(rest)) => Some(
                    (if b {
                        1nat
                    } else {
                        0nat
                    }) + 2 * rest,
                ),
                _ => None,
            }
        }
    }

    /// The Boolean value an expression denotes under an assignment of the
    /// variables (by slot index).
    pub open spec fn eval(self, id: u32, env: Map<u32, bool>) -> bool
        decreases self.rank_of(id) when self.inv() && self.live(id) via Self::eval_dec
    {
        match self.kind_at(id) {
            Bit::Unused => false,
            Bit::Var => env[id],
            Bit::Val(v) => v,
            Bit::And(l, r) => self.eval(l, env) && self.eval(r, env),
            Bit::Or(l, r) => self.eval(l, env) || self.eval(r, env),
            Bit::Not(e) => !self.eval(e, env),
        }
    }

    #[via_fn]
    proof fn eval_dec(self, id: u32, env: Map<u32, bool>) {
        assert(self.node_ok(id as int));
        assert forall|c: u32| refs_in(self.kind_at(id), c) >= 1 implies self.live(c) by {
            lemma_parents_upto_at_least(self.slots(), c, id as int, self.n() as int);
            assert(self.parents(c) >= 1);
        }
        match self.kind_at(id) {
            Bit::And(l, r) => {
                assert(refs_in(self.kind_at(id), l) >= 1);
                assert(refs_in(self.kind_at(id), r) >= 1);
            },
            Bit::Or(l, r) => {
                assert(refs_in(self.kind_at(id), l) >= 1);
                assert(refs_in(self.kind_at(id), r) >= 1);
            },
            Bit::Not(e) => {
                assert(refs_in(self.kind_at(id), e) >= 1);
            },
            _ => {},
        }
    }

    /// Number of references to `t` from live interior nodes.
    pub open spec fn parents(self, t: u32) -> nat {
        parents_upto(self.slots(), t, self.n() as int)
    }

    /// External references to `t`: the part of the refcount not explained by
    /// live interior nodes.  These are the references callers hold.
    pub open spec fn ext_at(self, t: u32) -> int {
        self.rc_at(t) - self.parents(t)
    }

    /// `ext_at`, extended by zero past the end of the arena.
    pub open spec fn ext_or0(self, t: u32) -> int {
        if t < self.n() { self.ext_at(t) } else { 0 }
    }

    /// Sum of all refcounts.
    pub open spec fn rc_total(self) -> nat {
        rc_total_upto(self.slots(), self.n() as int)
    }

    /// An operand position of a live node: in range, and of smaller rank.
    pub open spec fn child_ok(self, c: u32, r: nat) -> bool {
        c < self.n() && self.rank_of(c) < r
    }

    /// Well-formedness of one slot: a live slot is not `Unused`, and its
    /// operands are in range with smaller ranks.
    pub open spec fn node_ok(self, i: int) -> bool {
        self.slots()[i].0 >= 1 ==> match self.slots()[i].1 {
            Bit::Unused => false,
            Bit::Var => true,
            Bit::Val(_) => true,
            Bit::And(l, r) => self.child_ok(l, self.rank_of(i as u32)) && self.child_ok(
                r,
                self.rank_of(i as u32),
            ),
            Bit::Or(l, r) => self.child_ok(l, self.rank_of(i as u32)) && self.child_ok(
                r,
                self.rank_of(i as u32),
            ),
            Bit::Not(e) => self.child_ok(e, self.rank_of(i as u32)),
        }
    }

    /// The arena invariant.
    pub closed spec fn inv(self) -> bool {
        &&& self.n() <= u32::MAX as nat
        &&& self.rank@.len() == self.n()
        &&& forall|i: int| 0 <= i < self.n() ==> self.node_ok(i)
        &&& forall|t: u32| t < self.n() ==> #[trigger] self.parents(t) <= self.rc_at(t)
        &&& forall|j: int|
            0 <= j < self.free_list().len() ==> (#[trigger] self.free_list()[j]) < self.n()
                && self.slots()[self.free_list()[j] as int].0 == 0
        &&& forall|j1: int, j2: int|
            0 <= j1 < j2 < self.free_list().len() ==> self.free_list()[j1] != self.free_list()[j2]
        &&& forall|t: u32|
            t < self.n() && self.rc_at(t) == 0 ==> #[trigger] self.free_list().contains(t)
    }

    /// Headroom for `k` more allocations and `k` more refcount increments,
    /// without arithmetic overflow.
    pub open spec fn room(self, k: nat) -> bool {
        &&& self.n() + k <= u32::MAX as nat
        &&& self.rc_total() + k <= u32::MAX as nat
    }

    /// Creates a new container of Boolean expressions.
    pub fn new() -> (r: Bits)
        ensures
            r.inv(),
            r.n() == 0,
            r.free_list().len() == 0,
    {
        Bits { bits: Vec::new(), garbage: Vec::new(), rank: Ghost(Seq::empty()) }
    }
}

/// As `op_frame`, for an operation handing out references to two results.
pub open spec fn op_frame2(a: Bits, b: Bits, c1: u32, c2: u32) -> bool {
    &&& b.inv()
    &&& b.live(c1)
    &&& b.live(c2)
    &&& a.n() <= b.n()
    &&& forall|t: u32|
        t < b.n() ==> #[trigger] b.ext_or0(t) == a.ext_or0(t) + (if t == c1 {
            1int
        } else {
            0int
        }) + (if t == c2 {
            1int
        } else {
            0int
        })
    &&& forall|t: u32| t < a.n() && a.ext_or0(t) >= 1 ==> #[trigger] b.kind_at(t) == a.kind_at(t)
}

/// What every constructor guarantees: the arena stays well formed, the
/// result is live, the caller gains exactly one external reference to the
/// result and loses none, and every slot a caller holds keeps its kind.
pub open spec fn op_frame(a: Bits, b: Bits, c: u32) -> bool {
    &&& b.inv()
    &&& b.live(c)
    &&& a.n() <= b.n()
    &&& forall|t: u32|
        t < b.n() ==> #[trigger] b.ext_or0(t) == a.ext_or0(t) + (if t == c {
            1int
        } else {
            0int
        })
    &&& forall|t: u32| t < a.n() && a.ext_or0(t) >= 1 ==> #[trigger] b.kind_at(t) == a.kind_at(t)
}

/// The arena `b` grew out of `a` without disturbing what `a`'s callers hold:
/// no live slot of `a` died or changed kind.
pub open spec fn extends(a: Bits, b: Bits) -> bool {
    &&& a.n() <= b.n()
    &&& forall|t: u32| a.live(t) ==> b.live(t) && b.kind_at(t) == a.kind_at(t)
}

/// Slot count and refcount sum grew by at most `c`: enough to carry `room`
/// from caller to callee and back.
pub open spec fn bounded_growth(a: Bits, b: Bits, c: nat) -> bool {
    &&& b.n() <= a.n() + c
    &&& b.rc_total() <= a.rc_total() + c
}

/// `bounded_growth` composes along a chain of operations.
pub proof fn lemma_growth_trans(a: Bits, b: Bits, c: Bits, c1: nat, c2: nat)
    requires
        bounded_growth(a, b, c1),
        bounded_growth(b, c, c2),
    ensures
        bounded_growth(a, c, c1 + c2),
{
}

/// `room` survives bounded growth.
pub proof fn lemma_room_growth(a: Bits, b: Bits, c: nat, k: nat)
    requires
        bounded_growth(a, b, c),
        a.room(k + c),
    ensures
        b.room(k),
{
}

/// Effect on `parents_upto` of replacing one slot.
proof fn lemma_parents_upto_update(s: Seq<(u32, Bit)>, t: u32, j: int, e: (u32, Bit), k: int)
    requires
        0 <= j < s.len(),
        k <= s.len(),
    ensures
        parents_upto(s.update(j, e), t, k) + (if j < k {
            slot_refs(s[j], t)
        } else {
            0nat
        }) == parents_upto(s, t, k) + (if j < k {
            slot_refs(e, t)
        } else {
            0nat
        }),
    decreases k,
{
    if k > 0 {
        lemma_parents_upto_update(s, t, j, e, k - 1);
    }
}

/// Appending a slot does not change reference counts over a prefix.
proof fn lemma_parents_upto_push(s: Seq<(u32, Bit)>, t: u32, e: (u32, Bit), k: int)
    requires
        k <= s.len(),
    ensures
        parents_upto(s.push(e), t, k) == parents_upto(s, t, k),
    decreases k,
{
    if k > 0 {
        lemma_parents_upto_push(s, t, e, k - 1);
    }
}

/// One slot's references are part of the total.
proof fn lemma_parents_upto_at_least(s: Seq<(u32, Bit)>, t: u32, j: int, k: int)
    requires
        0 <= j < k <= s.len(),
    ensures
        parents_upto(s, t, k) >= slot_refs(s[j], t),
    decreases k,
{
    if j < k - 1 {
        lemma_parents_upto_at_least(s, t, j, k - 1);
    }
}

/// A referenced slot has a referencing slot.
proof fn lemma_parents_upto_witness(s: Seq<(u32, Bit)>, t: u32, k: int)
    requires
        k <= s.len(),
        parents_upto(s, t, k) >= 1,
    ensures
        exists|j: int| 0 <= j < k && slot_refs(s[j], t) >= 1,
    decreases k,
{
    if k > 0 {
        if slot_refs(s[k - 1], t) >= 1 {
            assert(0 <= k - 1 < k && slot_refs(s[k - 1], t) >= 1);
        } else {
            lemma_parents_upto_witness(s, t, k - 1);
        }
    }
}

/// Effect on the refcount sum of replacing one slot.
proof fn lemma_rc_total_upto_update(s: Seq<(u32, Bit)>, j: int, e: (u32, Bit), k: int)
    requires
        0 <= j < s.len(),
        k <= s.len(),
    ensures
        rc_total_upto(s.update(j, e), k) + (if j < k {
            s[j].0 as nat
        } else {
            0nat
        }) == rc_total_upto(s, k) + (if j < k {
            e.0 as nat
        } else {
            0nat
        }),
    decreases k,
{
    if k > 0 {
        lemma_rc_total_upto_update(s, j, e, k - 1);
    }
}

/// Appending a slot does not change the refcount sum over a prefix.
proof fn lemma_rc_total_upto_push(s: Seq<(u32, Bit)>, e: (u32, Bit), k: int)
    requires
        k <= s.len(),
    ensures
        rc_total_upto(s.push(e), k) == rc_total_upto(s, k),
    decreases k,
{
    if k > 0 {
        lemma_rc_total_upto_push(s, e, k - 1);
    }
}

/// A sum of all-zero refcounts is zero.
proof fn lemma_rc_total_upto_zero(s: Seq<(u32, Bit)>, k: int)
    requires
        k <= s.len(),
        forall|i: int| 0 <= i < k ==> (#[trigger] s[i].0) == 0,
    ensures
        rc_total_upto(s, k) == 0,
    decreases k,
{
    if k > 0 {
        lemma_rc_total_upto_zero(s, k - 1);
    }
}

/// Number of occurrences of `t` in a sequence of slot indices.
pub open spec fn count_of(s: Seq<u32>, t: u32) -> nat
    decreases s.len(),
{
    if s.len() == 0 {
        0nat
    } else {
        count_of(s.drop_last(), t) + if s.last() == t {
            1nat
        } else {
            0nat
        }
    }
}

/// One slot's refcount is part of the sum.
proof fn lemma_rc_total_upto_at_least(s: Seq<(u32, Bit)>, j: int, k: int)
    requires
        0 <= j < k <= s.len(),
    ensures
        rc_total_upto(s, k) >= s[j].0 as nat,
    decreases k,
{
    if j < k - 1 {
        lemma_rc_total_upto_at_least(s, j, k - 1);
    }
}

/// Appending an index raises its count by one.
pub proof fn lemma_count_push(s: Seq<u32>, x: u32, t: u32)
    ensures
        count_of(s.push(x), t) == count_of(s, t) + (if x == t {
            1nat
        } else {
            0nat
        }),
{
    assert(s.push(x).drop_last() =~= s);
}

/// No live slot references a position at or past the end.
proof fn lemma_parents_upto_oob(b: Bits, t: u32, k: int)
    requires
        forall|i: int| 0 <= i < b.n() ==> b.node_ok(i),
        k <= b.n(),
        t >= b.n(),
    ensures
        parents_upto(b.slots(), t, k) == 0,
    decreases k,
{
    if k > 0 {
        lemma_parents_upto_oob(b, t, k - 1);
        assert(b.node_ok(k - 1));
        assert(slot_refs(b.slots()[k - 1], t) == 0);
    }
}

/// The operands a node would hold are live.
pub open spec fn children_live(b: Bits, bit: Bit) -> bool {
    match bit {
        Bit::And(l, r) => b.live(l) && b.live(r),
        Bit::Or(l, r) => b.live(l) && b.live(r),
        Bit::Not(e) => b.live(e),
        _ => true,
    }
}

/// The rank a fresh node gets: above the ranks of its operands.
pub open spec fn node_rank(b: Bits, bit: Bit) -> nat {
    match bit {
        Bit::And(l, r) => 1 + if b.rank_of(l) >= b.rank_of(r) {
            b.rank_of(l)
        } else {
            b.rank_of(r)
        },
        Bit::Or(l, r) => 1 + if b.rank_of(l) >= b.rank_of(r) {
            b.rank_of(l)
        } else {
            b.rank_of(r)
        },
        Bit::Not(e) => 1 + b.rank_of(e),
        _ => 0,
    }
}

/// One slot's refcount is bounded by the refcount sum.
pub proof fn lemma_rc_le_total(b: Bits, i: u32)
    requires
        i < b.n(),
    ensures
        b.rc_at(i) <= b.rc_total(),
{
    lemma_rc_total_upto_at_least(b.slots(), i as int, b.n() as int);
}

/// Slot indices fit in a `u32`.
pub proof fn lemma_n_bound(b: Bits)
    requires
        b.inv(),
    ensures
        b.n() <= u32::MAX as nat,
{
}

/// External counts are never negative.
pub proof fn lemma_ext_nonneg(b: Bits, t: u32)
    requires
        b.inv(),
    ensures
        b.ext_or0(t) >= 0,
{
    if t < b.n() {
        assert(b.parents(t) <= b.rc_at(t));
    }
}

/// An external reference keeps a slot live.
pub proof fn lemma_ext_live(b: Bits, t: u32)
    requires
        b.inv(),
        t < b.n(),
        b.ext_at(t) >= 1,
    ensures
        b.live(t),
{
}

/// Joint finish of an allocation: `a` is the arena before, `mid` after the
/// operand refcounts were taken, `b` after slot `id` was written.
#[verifier::rlimit(100)]
proof fn lemma_alloc_finish(a: Bits, mid: Bits, b: Bits, bit: Bit, id: u32, nr: nat)
    requires
        a.inv(),
        a.room(3),
        bit != Bit::Unused,
        children_live(a, bit),
        mid.inv(),
        mid.n() == a.n(),
        mid.ranks() == a.ranks(),
        forall|t: u32|
            t < a.n() ==> #[trigger] mid.rc_at(t) == a.rc_at(t) + refs_in(bit, t) && mid.ext_at(t)
                == a.ext_at(t) + refs_in(bit, t) && mid.kind_at(t) == a.kind_at(t),
        children_live(mid, bit),
        nr == node_rank(a, bit),
        mid.n() <= b.n() <= mid.n() + 1,
        id < b.n(),
        id < mid.n() || id == mid.n(),
        id < mid.n() ==> mid.rc_at(id) == 0 && b.n() == mid.n(),
        id == mid.n() ==> b.n() == mid.n() + 1,
        mid.parents(id) == 0,
        b.ranks().len() == b.n(),
        b.slots()[id as int] == (1u32, bit),
        b.ranks()[id as int] == nr,
        forall|i: int|
            0 <= i < b.n() && i != id as int ==> b.slots()[i] == mid.slots()[i] && b.ranks()[i]
                == mid.ranks()[i],
        forall|t: u32| #[trigger] b.parents(t) == mid.parents(t) + refs_in(bit, t),
        forall|j: int|
            0 <= j < b.free_list().len() ==> (#[trigger] b.free_list()[j]) < b.n()
                && b.free_list()[j] != id && b.slots()[b.free_list()[j] as int].0 == 0,
        forall|j1: int, j2: int|
            0 <= j1 < j2 < b.free_list().len() ==> b.free_list()[j1] != b.free_list()[j2],
        forall|t: u32| t < b.n() && #[trigger] b.rc_at(t) == 0 ==> b.free_list().contains(t),
        mid.rc_total() <= a.rc_total() + 2,
        b.rc_total() <= mid.rc_total() + 1,
    ensures
        b.inv(),
        b.live(id),
        b.rc_at(id) == 1,
        b.kind_at(id) == bit,
        b.ext_at(id) == 1,
        forall|t: u32|
            t < a.n() && t != id ==> b.kind_at(t) == a.kind_at(t) && b.rc_at(t) == a.rc_at(t)
                + refs_in(bit, t),
        forall|t: u32| t < a.n() && t != id ==> b.ext_at(t) == a.ext_at(t),
        op_frame(a, b, id),
        bounded_growth(a, b, 3),
        extends(a, b),
{
    // the fresh node references only live slots, never itself
    match bit {
        Bit::And(l, r) => {
            assert(mid.live(l) && mid.live(r));
            assert(l != id && r != id);
        },
        Bit::Or(l, r) => {
            assert(mid.live(l) && mid.live(r));
            assert(l != id && r != id);
        },
        Bit::Not(e) => {
            assert(mid.live(e));
            assert(e != id);
        },
        _ => {},
    }
    assert(refs_in(bit, id) == 0);
    assert(b.parents(id) == 0);
    assert(b.ext_at(id) == 1);
    // every slot is well-formed
    assert(b.node_ok(id as int)) by {
        assert(b.rank_of(id) == nr);
        match bit {
            Bit::And(l, r) => {
                assert(b.rank_of(l) == a.rank_of(l));
                assert(b.rank_of(r) == a.rank_of(r));
            },
            Bit::Or(l, r) => {
                assert(b.rank_of(l) == a.rank_of(l));
                assert(b.rank_of(r) == a.rank_of(r));
            },
            Bit::Not(e) => {
                assert(b.rank_of(e) == a.rank_of(e));
            },
            _ => {},
        }
    }
    assert forall|i: int| 0 <= i < b.n() implies b.node_ok(i) by {
        if i != id as int {
            assert(mid.node_ok(i));
            assert(b.slots()[i] == mid.slots()[i]);
            if mid.slots()[i].0 >= 1 {
                // a live node's operands are themselves live (their refcount
                // covers the reference), so none of them is the new slot
                assert forall|c: u32|
                    refs_in(mid.slots()[i].1, c) >= 1 implies c != id && #[trigger] b.rank_of(c)
                    == mid.rank_of(c) by {
                    lemma_parents_upto_at_least(mid.slots(), c, i, mid.n() as int);
                    assert(mid.parents(c) >= 1);
                    assert(mid.rc_at(c) >= 1);
                }
                match mid.slots()[i].1 {
                    Bit::And(l, r) => {
                        assert(refs_in(mid.slots()[i].1, l) >= 1);
                        assert(refs_in(mid.slots()[i].1, r) >= 1);
                    },
                    Bit::Or(l, r) => {
                        assert(refs_in(mid.slots()[i].1, l) >= 1);
                        assert(refs_in(mid.slots()[i].1, r) >= 1);
                    },
                    Bit::Not(e) => {
                        assert(refs_in(mid.slots()[i].1, e) >= 1);
                    },
                    _ => {},
                }
            }
        }
    }
    // refcounts still cover interior references
    assert forall|t: u32| t < b.n() implies #[trigger] b.parents(t) <= b.rc_at(t) by {
        if t != id {
            if refs_in(bit, t) >= 1 {
                assert(mid.ext_at(t) >= refs_in(bit, t));
            }
            assert(mid.parents(t) <= mid.rc_at(t) - (if refs_in(bit, t) >= 1 {
                refs_in(bit, t) as int
            } else {
                0int
            }));
        }
    }
    assert forall|t: u32|
        t < a.n() && t != id implies b.kind_at(t) == a.kind_at(t) && b.rc_at(t) == a.rc_at(t)
            + refs_in(bit, t) by {
        assert(b.slots()[t as int] == mid.slots()[t as int]);
        assert(mid.rc_at(t) == a.rc_at(t) + refs_in(bit, t));
    }
    assert forall|t: u32| t < a.n() && t != id implies b.ext_at(t) == a.ext_at(t) by {
        assert(b.slots()[t as int] == mid.slots()[t as int]);
        assert(mid.rc_at(t) == a.rc_at(t) + refs_in(bit, t));
    }
    assert(bounded_growth(a, b, 3));
    assert(extends(a, b)) by {
        assert forall|t: u32| a.live(t) implies b.live(t) && b.kind_at(t) == a.kind_at(t) by {
            assert(t != id);
            assert(b.slots()[t as int] == mid.slots()[t as int]);
        }
    }
    assert(op_frame(a, b, id)) by {
        assert forall|t: u32|
            t < b.n() implies #[trigger] b.ext_or0(t) == a.ext_or0(t) + (if t == id {
                1int
            } else {
                0int
            }) by {
            if t == id {
                if id < a.n() {
                    assert(a.parents(id) <= a.rc_at(id));
                }
            } else {
                assert(t < a.n());
            }
        }
    }
}

impl Bits {
    /// Increment the reference counter for an expression.
    pub fn incr(&mut self, id: u32)
        requires
            old(self).inv(),
            old(self).live(id),
            old(self).rc_at(id) < u32::MAX as nat,
        ensures
            final(self).inv(),
            final(self).n() == old(self).n(),
            final(self).free_list() == old(self).free_list(),
            final(self).ranks() == old(self).ranks(),
            final(self).rc_at(id) == old(self).rc_at(id) + 1,
            forall|t: u32|
                t < old(self).n() && t != id ==> final(self).rc_at(t) == old(self).rc_at(t),
            forall|t: u32| t < old(self).n() ==> final(self).kind_at(t) == old(self).kind_at(t),
            forall|t: u32|
                t < old(self).n() ==> final(self).ext_at(t) == old(self).ext_at(t) + (if t == id {
                    1int
                } else {
                    0int
                }),
            forall|t: u32| t < old(self).n() ==> final(self).parents(t) == old(self).parents(t),
            final(self).rc_total() == old(self).rc_total() + 1,
            op_frame(*old(self), *final(self), id),
            bounded_growth(*old(self), *final(self), 1),
    {
        let e = self.bits[id as usize];
        self.bits[id as usize] = (e.0 + 1, e.1);
        proof {
            let s0 = old(self).slots();
            let s1 = self.slots();
            let e1 = s1[id as int];
            assert(s1 =~= s0.update(id as int, e1));
            assert forall|t: u32| t < old(self).n() implies #[trigger] self.parents(t)
                == old(self).parents(t) by {
                lemma_parents_upto_update(s0, t, id as int, e1, s0.len() as int);
                assert(slot_refs(s0[id as int], t) == slot_refs(e1, t));
            }
            assert forall|i: int| 0 <= i < self.n() implies self.node_ok(i) by {
                assert(old(self).node_ok(i));
            }
            assert forall|j: int|
                0 <= j < self.free_list().len() implies (#[trigger] self.free_list()[j])
                < self.n() && self.slots()[self.free_list()[j] as int].0 == 0 by {
                let g = old(self).free_list()[j];
                assert(old(self).slots()[g as int].0 == 0);
                assert(g != id);
            }
            lemma_rc_total_upto_update(s0, id as int, e1, s0.len() as int);
            assert forall|t: u32|
                t < self.n() && #[trigger] self.rc_at(t) == 0 implies self.free_list().contains(
                t,
            ) by {
                assert(t != id);
                assert(old(self).rc_at(t) == 0);
                assert(old(self).free_list().contains(t));
            }
        }
    }

    /// Allocates a live node holding `bit`, taking the operand references it
    /// needs by incrementing each operand's refcount.  Reuses a freed slot
    /// when one is available.
    #[verifier::rlimit(100)]
    #[verifier::spinoff_prover]
    fn alloc_bit(&mut self, bit: Bit) -> (id: u32)
        requires
            old(self).inv(),
            old(self).room(3),
            bit != Bit::Unused,
            children_live(*old(self), bit),
        ensures
            final(self).inv(),
            final(self).live(id),
            final(self).rc_at(id) == 1,
            final(self).kind_at(id) == bit,
            final(self).ext_at(id) == 1,
            old(self).n() <= final(self).n() <= old(self).n() + 1,
            id < old(self).n() ==> old(self).rc_at(id) == 0,
            forall|t: u32|
                t < old(self).n() && t != id ==> final(self).kind_at(t) == old(self).kind_at(t)
                    && final(self).rc_at(t) == old(self).rc_at(t) + refs_in(bit, t),
            forall|t: u32|
                t < old(self).n() && t != id ==> final(self).ext_at(t) == old(self).ext_at(t),
            op_frame(*old(self), *final(self), id),
            bounded_growth(*old(self), *final(self), 3),
            extends(*old(self), *final(self)),
            forall|t: u32|
                old(self).live(t) ==> final(self).rank_of(t) == old(self).rank_of(t),
            final(self).free_list().len() <= old(self).free_list().len(),
    {
        // The new node takes one reference to each operand position.
        match bit {
            Bit::And(l, r) => {
                proof {
                    lemma_rc_le_total(*self, l);
                }
                self.incr(l);
                proof {
                    lemma_rc_le_total(*self, r);
                }
                self.incr(r);
            },
            Bit::Or(l, r) => {
                proof {
                    lemma_rc_le_total(*self, l);
                }
                self.incr(l);
                proof {
                    lemma_rc_le_total(*self, r);
                }
                self.incr(r);
            },
            Bit::Not(e) => {
                proof {
                    lemma_rc_le_total(*self, e);
                }
                self.incr(e);
            },
            _ => {},
        }
        let ghost mid = *self;
        let ghost nr = node_rank(*old(self), bit);
        proof {
            assert(mid.inv());
            assert(mid.n() == old(self).n());
            assert(mid.ranks() == old(self).ranks());
            assert forall|t: u32|
                t < old(self).n() implies #[trigger] mid.rc_at(t) == old(self).rc_at(t) + refs_in(
                bit,
                t,
            ) && mid.ext_at(t) == old(self).ext_at(t) + refs_in(bit, t) && mid.kind_at(t) == old(self).kind_at(t) by {}
            assert(children_live(mid, bit));
        }
        let popped = self.garbage.pop();
        let id: u32;
        match popped {
            Some(g) => {
                id = g;
                self.bits[id as usize] = (1u32, bit);
                self.rank = Ghost(self.rank@.update(id as int, nr));
                proof {
                    let s0 = mid.slots();
                    let s1 = self.slots();
                    assert(s1 == s0.update(id as int, (1u32, bit)));
                    assert(mid.rc_at(id) == 0);
                    assert(mid.parents(id) <= mid.rc_at(id));
                    lemma_rc_total_upto_update(s0, id as int, (1u32, bit), s0.len() as int);
                    assert(self.rc_total() == mid.rc_total() + 1);
                    assert forall|t: u32| #[trigger]
                        self.parents(t) == mid.parents(t) + refs_in(bit, t) by {
                        lemma_parents_upto_update(s0, t, id as int, (1u32, bit), s0.len() as int);
                        assert(slot_refs(s0[id as int], t) == 0);
                        assert(slot_refs((1u32, bit), t) == refs_in(bit, t));
                    }
                    assert forall|j: int|
                        0 <= j < self.free_list().len() implies (#[trigger] self.free_list()[j])
                        < self.n() && self.free_list()[j] != id && self.slots()[self.free_list()[j] as int].0
                        == 0 by {
                        assert(self.free_list()[j] == mid.free_list()[j]);
                        assert(mid.free_list()[mid.free_list().len() - 1] == id);
                        assert(mid.free_list()[j] != id);
                        assert(mid.slots()[mid.free_list()[j] as int].0 == 0);
                    }
                    assert forall|j1: int, j2: int|
                        0 <= j1 < j2 < self.free_list().len() implies self.free_list()[j1]
                        != self.free_list()[j2] by {
                        assert(mid.free_list()[j1] != mid.free_list()[j2]);
                    }
                    assert forall|t: u32|
                        t < self.n() && #[trigger] self.rc_at(t) == 0 implies self.free_list().contains(
                        t,
                    ) by {
                        assert(t != id);
                        assert(mid.rc_at(t) == 0);
                        assert(mid.free_list().contains(t));
                        let j = choose|j: int|
                            0 <= j < mid.free_list().len() && mid.free_list()[j] == t;
                        assert(j != mid.free_list().len() - 1);
                        assert(self.free_list()[j] == t);
                    }
                }
            },
            None => {
                id = self.bits.len() as u32;
                self.bits.push((1u32, bit));
                self.rank = Ghost(self.rank@.push(nr));
                proof {
                    let s0 = mid.slots();
                    let s1 = self.slots();
                    assert(s1 == s0.push((1u32, bit)));
                    lemma_rc_total_upto_push(s0, (1u32, bit), s0.len() as int);
                    assert(self.rc_total() == mid.rc_total() + 1);
                    assert forall|t: u32| #[trigger]
                        self.parents(t) == mid.parents(t) + refs_in(bit, t) by {
                        lemma_parents_upto_push(s0, t, (1u32, bit), s0.len() as int);
                        assert(parents_upto(s1, t, s1.len() as int) == parents_upto(
                            s1,
                            t,
                            s0.len() as int,
                        ) + slot_refs((1u32, bit), t));
                    }
                    lemma_parents_upto_oob(mid, id, mid.n() as int);
                    assert(mid.parents(id) == 0);
                    assert forall|j: int|
                        0 <= j < self.free_list().len() implies (#[trigger] self.free_list()[j])
                        < self.n() && self.free_list()[j] != id && self.slots()[self.free_list()[j] as int].0
                        == 0 by {
                        assert(self.free_list()[j] == mid.free_list()[j]);
                        assert(mid.free_list()[j] < mid.n());
                        assert(mid.slots()[mid.free_list()[j] as int].0 == 0);
                    }
                    assert forall|t: u32|
                        t < self.n() && #[trigger] self.rc_at(t) == 0 implies self.free_list().contains(
                        t,
                    ) by {
                        assert(t != id);
                        assert(t < mid.n());
                        assert(mid.rc_at(t) == 0);
                        assert(mid.free_list().contains(t));
                        let j = choose|j: int|
                            0 <= j < mid.free_list().len() && mid.free_list()[j] == t;
                        assert(self.free_list()[j] == t);
                    }
                }
            },
        }
        proof {
            assert(mid.parents(id) == 0);
            assert forall|i: int|
                0 <= i < self.n() && i != id as int implies self.slots()[i] == mid.slots()[i]
                && self.ranks()[i] == mid.ranks()[i] by {}
            lemma_alloc_finish(*old(self), mid, *self, bit, id, nr);
            assert forall|t: u32| old(self).live(t) implies self.rank_of(t) == old(self).rank_of(
                t,
            ) by {
                assert(t != id);
                assert(self.ranks()[t as int] == mid.ranks()[t as int]);
            }
        }
        id
    }

    /// Decrement the reference counter for an expression.  If a counter
    /// reaches zero, the slot is freed and the references it held are given
    /// back in turn; the walk is iterative over an explicit work list.
    #[verifier::rlimit(100)]
    #[verifier::spinoff_prover]
    pub fn decr(&mut self, id: u32)
        requires
            old(self).inv(),
            id < old(self).n(),
            old(self).ext_at(id) >= 1,
        ensures
            final(self).inv(),
            final(self).n() == old(self).n(),
            final(self).ranks() == old(self).ranks(),
            forall|t: u32| t < old(self).n() ==> final(self).kind_at(t) == old(self).kind_at(t),
            forall|t: u32| t < old(self).n() ==> final(self).rc_at(t) <= old(self).rc_at(t),
            forall|t: u32|
                t < old(self).n() ==> final(self).ext_at(t) == old(self).ext_at(t) - (if t == id {
                    1int
                } else {
                    0int
                }),
            forall|t: u32|
                #[trigger] final(self).ext_or0(t) == old(self).ext_or0(t) - (if t == id {
                    1int
                } else {
                    0int
                }),
            bounded_growth(*old(self), *final(self), 0),
    {
        let mut pending: Vec<u32> = Vec::new();
        pending.push(id);
        proof {
            assert forall|t: u32| t < self.n() implies #[trigger] self.rc_at(t) == self.parents(t)
                + (old(self).ext_at(t) - (if t == id {
                1int
            } else {
                0int
            })) + count_of(pending@, t) by {
                assert(count_of(Seq::<u32>::empty(), t) == 0);
                assert(pending@.drop_last() =~= Seq::<u32>::empty());
                assert(count_of(pending@, t) == if t == id {
                    1nat
                } else {
                    0nat
                });
            }
        }
        while pending.len() > 0
            invariant
                old(self).inv(),
                id < old(self).n(),
                old(self).ext_at(id) >= 1,
                self.n() == old(self).n(),
                self.ranks() == old(self).ranks(),
                forall|t: u32|
                    t < old(self).n() ==> #[trigger] self.kind_at(t) == old(self).kind_at(t),
                forall|t: u32| t < old(self).n() ==> #[trigger] self.rc_at(t) <= old(self).rc_at(t),
                self.rc_total() <= old(self).rc_total(),
                forall|i: int| 0 <= i < self.n() ==> self.node_ok(i),
                forall|j: int|
                    0 <= j < self.free_list().len() ==> (#[trigger] self.free_list()[j]) < self.n()
                        && self.slots()[self.free_list()[j] as int].0 == 0,
                forall|j1: int, j2: int|
                    0 <= j1 < j2 < self.free_list().len() ==> self.free_list()[j1]
                        != self.free_list()[j2],
                forall|t: u32|
                    t < self.n() && #[trigger] self.rc_at(t) == 0 ==> self.free_list().contains(
                        t,
                    ),
                forall|j: int| 0 <= j < pending@.len() ==> (#[trigger] pending@[j]) < self.n(),
                forall|t: u32|
                    t < self.n() ==> #[trigger] self.rc_at(t) == self.parents(t) + (old(self).ext_at(t) - (if t == id {
                        1int
                    } else {
                        0int
                    })) + count_of(pending@, t),
            decreases self.rc_total(),
        {
            let ghost prev = *self;
            let ghost pending0 = pending@;
            let c_opt = pending.pop();
            let c = c_opt.unwrap();
            proof {
                assert(pending0.drop_last() =~= pending@);
                assert(count_of(pending0, c) == count_of(pending@, c) + 1);
                assert forall|t: u32| t != c implies count_of(pending0, t) == count_of(
                    pending@,
                    t,
                ) by {}
                assert(self.rc_at(c) >= 1) by {
                    assert(old(self).ext_at(c) >= 0);
                    assert(old(self).parents(c) <= old(self).rc_at(c));
                }
            }
            let e = self.bits[c as usize];
            let nrc = e.0 - 1;
            self.bits[c as usize] = (nrc, e.1);
            proof {
                let s0 = prev.slots();
                let s1 = self.slots();
                assert(s1 =~= s0.update(c as int, (nrc, e.1)));
                lemma_rc_total_upto_update(s0, c as int, (nrc, e.1), s0.len() as int);
                assert(self.rc_total() < prev.rc_total());
                assert(prev.node_ok(c as int));
            }
            if nrc == 0 {
                self.garbage.push(c);
                proof {
                    let s0 = prev.slots();
                    let s1 = self.slots();
                    // the freed slot's references to its operands lapse
                    assert forall|t: u32| #[trigger]
                        self.parents(t) + refs_in(e.1, t) == prev.parents(t) by {
                        lemma_parents_upto_update(s0, t, c as int, (nrc, e.1), s0.len() as int);
                        assert(slot_refs(s0[c as int], t) == refs_in(e.1, t));
                        assert(slot_refs((nrc, e.1), t) == 0);
                    }
                    assert(refs_in(e.1, c) == 0) by {
                        assert(prev.node_ok(c as int));
                    }
                    // the slot was live a moment ago, so it is not yet on the
                    // free list
                    assert forall|j: int|
                        0 <= j < prev.free_list().len() implies prev.free_list()[j] != c by {
                        assert(prev.slots()[prev.free_list()[j] as int].0 == 0);
                    }
                    assert forall|t: u32|
                        t < self.n() && #[trigger] self.rc_at(t) == 0 implies self.free_list().contains(
                        t,
                    ) by {
                        if t == c {
                            assert(self.free_list()[self.free_list().len() - 1] == c);
                        } else {
                            assert(prev.rc_at(t) == 0);
                            assert(prev.free_list().contains(t));
                            let j = choose|j: int|
                                0 <= j < prev.free_list().len() && prev.free_list()[j] == t;
                            assert(self.free_list()[j] == t);
                        }
                    }
                }
                match e.1 {
                    Bit::Unused => {
                        proof {
                            assert(prev.node_ok(c as int));
                            assert(false);
                        }
                    },
                    Bit::Var => {
                        proof {
                            assert forall|t: u32| #[trigger]
                                count_of(pending@, t) == count_of(pending0.drop_last(), t)
                                + refs_in(e.1, t) by {}
                        }
                    },
                    Bit::Val(_) => {
                        proof {
                            assert forall|t: u32| #[trigger]
                                count_of(pending@, t) == count_of(pending0.drop_last(), t)
                                + refs_in(e.1, t) by {}
                        }
                    },
                    Bit::And(l, r) => {
                        pending.push(l);
                        pending.push(r);
                        proof {
                            assert forall|t: u32| #[trigger]
                                count_of(pending@, t) == count_of(pending0.drop_last(), t)
                                + refs_in(e.1, t) by {
                                assert(pending@ =~= pending0.drop_last().push(l).push(r));
                                lemma_count_push(pending0.drop_last(), l, t);
                                lemma_count_push(pending0.drop_last().push(l), r, t);
                            }
                        }
                    },
                    Bit::Or(l, r) => {
                        pending.push(l);
                        pending.push(r);
                        proof {
                            assert forall|t: u32| #[trigger]
                                count_of(pending@, t) == count_of(pending0.drop_last(), t)
                                + refs_in(e.1, t) by {
                                assert(pending@ =~= pending0.drop_last().push(l).push(r));
                                lemma_count_push(pending0.drop_last(), l, t);
                                lemma_count_push(pending0.drop_last().push(l), r, t);
                            }
                        }
                    },
                    Bit::Not(x) => {
                        pending.push(x);
                        proof {
                            assert forall|t: u32| #[trigger]
                                count_of(pending@, t) == count_of(pending0.drop_last(), t)
                                + refs_in(e.1, t) by {
                                assert(pending@ =~= pending0.drop_last().push(x));
                                lemma_count_push(pending0.drop_last(), x, t);
                            }
                        }
                    },
                }
                proof {
                    // rebalance the accounting: the lapsed interior references
                    // reappear as pending work items
                    assert forall|t: u32|
                        t < self.n() implies #[trigger] self.rc_at(t) == self.parents(t) + (old(self).ext_at(t) - (if t == id {
                        1int
                    } else {
                        0int
                    })) + count_of(pending@, t) by {
                        assert(prev.rc_at(t) == prev.parents(t) + (old(self).ext_at(t) - (if t
                            == id {
                            1int
                        } else {
                            0int
                        })) + count_of(pending0, t));
                        assert(count_of(pending0, t) == count_of(pending0.drop_last(), t) + (if t
                            == c {
                            1nat
                        } else {
                            0nat
                        }));
                        assert(self.parents(t) + refs_in(e.1, t) == prev.parents(t));
                    }
                    assert forall|i: int| 0 <= i < self.n() implies self.node_ok(i) by {
                        if i != c as int {
                            assert(prev.node_ok(i));
                            assert(self.slots()[i] == prev.slots()[i]);
                        }
                    }
                }
            } else {
                proof {
                    let s0 = prev.slots();
                    let s1 = self.slots();
                    assert forall|t: u32| #[trigger] self.parents(t) == prev.parents(t) by {
                        lemma_parents_upto_update(s0, t, c as int, (nrc, e.1), s0.len() as int);
                        assert(slot_refs(s0[c as int], t) == slot_refs((nrc, e.1), t));
                    }
                    assert forall|j: int|
                        0 <= j < self.free_list().len() implies (#[trigger] self.free_list()[j])
                        < self.n() && self.slots()[self.free_list()[j] as int].0 == 0 by {
                        assert(prev.slots()[prev.free_list()[j] as int].0 == 0);
                        assert(prev.free_list()[j] != c);
                    }
                    assert forall|t: u32|
                        t < self.n() && #[trigger] self.rc_at(t) == 0 implies self.free_list().contains(
                        t,
                    ) by {
                        assert(t != c);
                        assert(prev.rc_at(t) == 0);
                        assert(prev.free_list().contains(t));
                        let j = choose|j: int|
                            0 <= j < prev.free_list().len() && prev.free_list()[j] == t;
                        assert(self.free_list()[j] == t);
                    }
                    assert forall|t: u32|
                        t < self.n() implies #[trigger] self.rc_at(t) == self.parents(t) + (old(self).ext_at(t) - (if t == id {
                        1int
                    } else {
                        0int
                    })) + count_of(pending@, t) by {
                        assert(prev.rc_at(t) == prev.parents(t) + (old(self).ext_at(t) - (if t
                            == id {
                            1int
                        } else {
                            0int
                        })) + count_of(pending0, t));
                        assert(count_of(pending0, t) == count_of(pending0.drop_last(), t) + (if t
                            == c {
                            1nat
                        } else {
                            0nat
                        }));
                    }
                    assert forall|i: int| 0 <= i < self.n() implies self.node_ok(i) by {
                        assert(prev.node_ok(i));
                        if i != c as int {
                            assert(self.slots()[i] == prev.slots()[i]);
                        }
                    }
                }
            }
            proof {
                assert forall|t: u32|
                    t < old(self).n() implies #[trigger] self.kind_at(t) == old(self).kind_at(
                    t,
                ) by {
                    assert(prev.kind_at(t) == old(self).kind_at(t));
                    if t != c {
                        assert(self.slots()[t as int] == prev.slots()[t as int]);
                    }
                }
                assert forall|t: u32|
                    t < old(self).n() implies #[trigger] self.rc_at(t) <= old(self).rc_at(t) by {
                    assert(prev.rc_at(t) <= old(self).rc_at(t));
                    if t != c {
                        assert(self.slots()[t as int] == prev.slots()[t as int]);
                    }
                }
            }
        }
        proof {
            assert forall|t: u32| t < self.n() implies #[trigger] self.parents(t) <= self.rc_at(
                t,
            ) by {
                assert(count_of(pending@, t) == 0);
                assert(old(self).ext_at(t) >= (if t == id {
                    1int
                } else {
                    0int
                }));
            }
            assert forall|i: int|
                0 <= i < self.n() implies (#[trigger] self.slots()[i].0 as nat) <= (if i < old(self).n() {
                    old(self).slots()[i].0 as nat
                } else {
                    0nat
                }) by {
                assert(self.rc_at(i as u32) <= old(self).rc_at(i as u32));
            }
        }
    }

    /// Create a Boolean variable.
    pub fn var(&mut self) -> (c: u32)
        requires
            old(self).inv(),
            old(self).room(3),
        ensures
            op_frame(*old(self), *final(self), c),
            extends(*old(self), *final(self)),
            bounded_growth(*old(self), *final(self), 3),
            final(self).kind_at(c) == Bit::Var,
            final(self).rc_at(c) == 1,
    {
        self.alloc_bit(Bit::Var)
    }

    /// Create a Boolean constant.  Constants are never shared: each call
    /// yields a fresh slot.
    pub fn val(&mut self, v: bool) -> (c: u32)
        requires
            old(self).inv(),
            old(self).room(3),
        ensures
            op_frame(*old(self), *final(self), c),
            extends(*old(self), *final(self)),
            bounded_growth(*old(self), *final(self), 3),
            final(self).kind_at(c) == Bit::Val(v),
            final(self).bit_const(c) == Some(v),
            final(self).rc_at(c) == 1,
            forall|t: u32|
                old(self).live(t) ==> final(self).rank_of(t) == old(self).rank_of(t),
    {
        self.alloc_bit(Bit::Val(v))
    }

    /// Create a conjunction of two expressions, folding constants away.
    pub fn and(&mut self, a: u32, b: u32) -> (c: u32)
        requires
            old(self).inv(),
            old(self).live(a),
            old(self).live(b),
            old(self).room(3),
        ensures
            op_frame(*old(self), *final(self), c),
            extends(*old(self), *final(self)),
            bounded_growth(*old(self), *final(self), 3),
            (old(self).bit_const(a) == Some(false) || old(self).bit_const(b) == Some(true)) ==> c
                == a,
            (!(old(self).bit_const(a) == Some(false) || old(self).bit_const(b) == Some(true)) && (
            old(self).bit_const(a) == Some(true) || old(self).bit_const(b) == Some(
                false,
            ))) ==> c == b,
            (!(old(self).bit_const(a) == Some(false) || old(self).bit_const(b) == Some(true)) && !(
            old(self).bit_const(a) == Some(true) || old(self).bit_const(b) == Some(false))) ==>
                final(self).kind_at(c) == Bit::And(a, b),
            (old(self).bit_const(a) is Some && old(self).bit_const(b) is Some) ==> final(self).bit_const(c) == Some(old(self).bit_const(a).unwrap() && old(self).bit_const(b).unwrap()),
            forall|t: u32|
                old(self).live(t) ==> final(self).rank_of(t) == old(self).rank_of(t),
            forall|env: Map<u32, bool>| #[trigger]
                final(self).eval(c, env) == (final(self).eval(a, env) && final(self).eval(
                    b,
                    env,
                )),
    {
        if self.is_false(a) || self.is_true(b) {
            proof {
                lemma_rc_le_total(*self, a);
            }
            let ghost folded_false = self.bit_const(a) == Some(false);
            self.incr(a);
            proof {
                assert forall|env: Map<u32, bool>| #[trigger]
                    self.eval(a, env) == (self.eval(a, env) && self.eval(b, env)) by {
                    if folded_false {
                        lemma_eval_const(*self, a, env);
                    } else {
                        lemma_eval_const(*self, b, env);
                    }
                }
            }
            return a;
        }
        if self.is_true(a) || self.is_false(b) {
            proof {
                lemma_rc_le_total(*self, b);
            }
            let ghost folded_true = self.bit_const(a) == Some(true);
            self.incr(b);
            proof {
                assert forall|env: Map<u32, bool>| #[trigger]
                    self.eval(b, env) == (self.eval(a, env) && self.eval(b, env)) by {
                    if folded_true {
                        lemma_eval_const(*self, a, env);
                    } else {
                        lemma_eval_const(*self, b, env);
                    }
                }
            }
            return b;
        }
        let c = self.alloc_bit(Bit::And(a, b));
        proof {
            assert forall|env: Map<u32, bool>| #[trigger]
                self.eval(c, env) == (self.eval(a, env) && self.eval(b, env)) by {
                assert(self.kind_at(c) == Bit::And(a, b));
            }
        }
        c
    }

    /// Create a disjunction of two expressions, folding constants away.
    pub fn or(&mut self, a: u32, b: u32) -> (c: u32)
        requires
            old(self).inv(),
            old(self).live(a),
            old(self).live(b),
            old(self).room(3),
        ensures
            op_frame(*old(self), *final(self), c),
            extends(*old(self), *final(self)),
            bounded_growth(*old(self), *final(self), 3),
            (old(self).bit_const(a) == Some(false) || old(self).bit_const(b) == Some(true)) ==> c
                == b,
            (!(old(self).bit_const(a) == Some(false) || old(self).bit_const(b) == Some(true)) && (
            old(self).bit_const(a) == Some(true) || old(self).bit_const(b) == Some(
                false,
            ))) ==> c == a,
            (!(old(self).bit_const(a) == Some(false) || old(self).bit_const(b) == Some(true)) && !(
            old(self).bit_const(a) == Some(true) || old(self).bit_const(b) == Some(false))) ==>
                final(self).kind_at(c) == Bit::Or(a, b),
            (old(self).bit_const(a) is Some && old(self).bit_const(b) is Some) ==> final(self).bit_const(c) == Some(old(self).bit_const(a).unwrap() || old(self).bit_const(b).unwrap()),
            forall|t: u32|
                old(self).live(t) ==> final(self).rank_of(t) == old(self).rank_of(t),
            forall|env: Map<u32, bool>| #[trigger]
                final(self).eval(c, env) == (final(self).eval(a, env) || final(self).eval(
                    b,
                    env,
                )),
    {
        if self.is_false(a) || self.is_true(b) {
            proof {
                lemma_rc_le_total(*self, b);
            }
            let ghost folded_false = self.bit_const(a) == Some(false);
            self.incr(b);
            proof {
                assert forall|env: Map<u32, bool>| #[trigger]
                    self.eval(b, env) == (self.eval(a, env) || self.eval(b, env)) by {
                    if folded_false {
                        lemma_eval_const(*self, a, env);
                    } else {
                        lemma_eval_const(*self, b, env);
                    }
                }
            }
            return b;
        }
        if self.is_true(a) || self.is_false(b) {
            proof {
                lemma_rc_le_total(*self, a);
            }
            let ghost folded_true = self.bit_const(a) == Some(true);
            self.incr(a);
            proof {
                assert forall|env: Map<u32, bool>| #[trigger]
                    self.eval(a, env) == (self.eval(a, env) || self.eval(b, env)) by {
                    if folded_true {
                        lemma_eval_const(*self, a, env);
                    } else {
                        lemma_eval_const(*self, b, env);
                    }
                }
            }
            return a;
        }
        let c = self.alloc_bit(Bit::Or(a, b));
        proof {
            assert forall|env: Map<u32, bool>| #[trigger]
                self.eval(c, env) == (self.eval(a, env) || self.eval(b, env)) by {
                assert(self.kind_at(c) == Bit::Or(a, b));
            }
        }
        c
    }

    /// Create the complement of an expression, folding constants away.
    pub fn not(&mut self, a: u32) -> (c: u32)
        requires
            old(self).inv(),
            old(self).live(a),
            old(self).room(3),
        ensures
            op_frame(*old(self), *final(self), c),
            extends(*old(self), *final(self)),
            bounded_growth(*old(self), *final(self), 3),
            old(self).bit_const(a) is Some ==> final(self).bit_const(c) == Some(!old(self).bit_const(a).unwrap()),
            old(self).bit_const(a) is None ==> final(self).kind_at(c) == Bit::Not(a),
            forall|t: u32|
                old(self).live(t) ==> final(self).rank_of(t) == old(self).rank_of(t),
            forall|env: Map<u32, bool>| #[trigger]
                final(self).eval(c, env) == !final(self).eval(a, env),
    {
        if self.is_false(a) {
            let c = self.val(true);
            proof {
                assert forall|env: Map<u32, bool>| #[trigger]
                    self.eval(c, env) == !self.eval(a, env) by {
                    lemma_eval_const(*self, c, env);
                    lemma_eval_const(*self, a, env);
                }
            }
            return c;
        }
        if self.is_true(a) {
            let c = self.val(false);
            proof {
                assert forall|env: Map<u32, bool>| #[trigger]
                    self.eval(c, env) == !self.eval(a, env) by {
                    lemma_eval_const(*self, c, env);
                    lemma_eval_const(*self, a, env);
                }
            }
            return c;
        }
        let c = self.alloc_bit(Bit::Not(a));
        proof {
            assert forall|env: Map<u32, bool>| #[trigger]
                self.eval(c, env) == !self.eval(a, env) by {
                assert(self.kind_at(c) == Bit::Not(a));
            }
        }
        c
    }

    /// Gets the `Bit` expression for the given expression.
    pub fn get(&self, id: u32) -> (r: Bit)
        requires
            id < self.n(),
        ensures
            r == self.kind_at(id),
    {
        self.bits[id as usize].1
    }

    /// Returns the reference counter for an expression.
    pub fn refcount(&self, id: u32) -> (r: u32)
        requires
            id < self.n(),
        ensures
            r as nat == self.rc_at(id),
    {
        self.bits[id as usize].0
    }

    /// Does the expression hold exactly the constant `v`?
    pub fn is_val(&self, id: u32, v: bool) -> (r: bool)
        requires
            id < self.n(),
        ensures
            r == (self.bit_const(id) == Some(v)),
    {
        match self.get(id) {
            Bit::Val(w) => w == v,
            _ => false,
        }
    }

    /// Is the expression the constant `false`?
    pub fn is_false(&self, id: u32) -> (r: bool)
        requires
            id < self.n(),
        ensures
            r == (self.bit_const(id) == Some(false)),
    {
        self.is_val(id, false)
    }

    /// Is the expression the constant `true`?
    pub fn is_true(&self, id: u32) -> (r: bool)
        requires
            id < self.n(),
        ensures
            r == (self.bit_const(id) == Some(true)),
    {
        self.is_val(id, true)
    }

    /// Number of slots ever allocated.
    pub fn size(&self) -> (r: usize)
        ensures
            r == self.n(),
    {
        self.bits.len()
    }

    /// Lengths and capacities of the slot store and the free list.
    pub fn gc_inf(&self) -> (r: (usize, usize, usize, usize))
        ensures
            r.0 == self.n(),
            r.0 <= r.1,
            r.2 == self.free_list().len(),
            r.2 <= r.3,
    {
        let bits_len = self.bits.len();
        let bits_cap = vec_capacity(&self.bits);
        let gc_len = self.garbage.len();
        let gc_cap = vec_capacity(&self.garbage);
        (bits_len, bits_cap, gc_len, gc_cap)
    }

    /// Builds the exclusive-or network for two bits, returning the four
    /// temporaries and the result, each with one reference handed out.
    #[verifier::rlimit(100)]
    #[verifier::spinoff_prover]
    fn xor_build(&mut self, a: u32, b: u32) -> (r: (u32, u32, u32, u32, u32))
        requires
            old(self).inv(),
            old(self).held(a),
            old(self).held(b),
            old(self).room(15),
        ensures
            final(self).inv(),
            old(self).n() <= final(self).n(),
            final(self).live(r.0) && final(self).live(r.1) && final(self).live(r.2) && final(self).live(r.3) && final(self).live(r.4),
            forall|t: u32|
                t < final(self).n() ==> #[trigger] final(self).ext_or0(t) == old(self).ext_or0(t)
                    + (if t == r.0 { 1int } else { 0int }) + (if t == r.1 { 1int } else { 0int })
                    + (if t == r.2 { 1int } else { 0int }) + (if t == r.3 { 1int } else { 0int })
                    + (if t == r.4 { 1int } else { 0int }),
            forall|t: u32|
                t < old(self).n() && old(self).ext_or0(t) >= 1 ==> #[trigger] final(self).kind_at(
                    t,
                ) == old(self).kind_at(t),
            bounded_growth(*old(self), *final(self), 15),
            (old(self).bit_const(a) is Some && old(self).bit_const(b) is Some) ==> final(self).bit_const(r.4) == Some(old(self).bit_const(a).unwrap() != old(self).bit_const(b).unwrap()),
            forall|t: u32|
                old(self).live(t) ==> final(self).rank_of(t) == old(self).rank_of(t),
            forall|env: Map<u32, bool>| #[trigger]
                final(self).eval(r.4, env) == (final(self).eval(a, env) != final(self).eval(
                    b,
                    env,
                )),
            forall|t: u32, env: Map<u32, bool>|
                old(self).ext_or0(t) >= 1 ==> #[trigger] final(self).eval(t, env) == old(
                self,
                ).eval(t, env),
    {
        let ghost s0 = *self;
        proof {
            lemma_ext_live(s0, a);
            lemma_ext_live(s0, b);
        }
        let t1 = self.not(a);
        let ghost s1 = *self;
        proof {
            lemma_room_growth(s0, s1, 3, 12);
            assert(s1.ext_or0(b) == s0.ext_or0(b) + (if b == t1 { 1int } else { 0int }));
            assert(s1.ext_or0(b) >= 1);
            lemma_ext_live(s1, b);
        }
        let t2 = self.not(b);
        let ghost s2 = *self;
        proof {
            lemma_growth_trans(s0, s1, s2, 3, 3);
            lemma_room_growth(s0, s2, 6, 9);
            assert(s2.ext_or0(t1) == s1.ext_or0(t1) + (if t1 == t2 { 1int } else { 0int }));
            assert(s0.parents(t1) <= s0.rc_at(t1) || t1 >= s0.n());
            assert(s1.ext_or0(t1) >= 1);
            assert(s2.ext_or0(b) >= 1);
            lemma_ext_live(s2, t1);
            lemma_ext_live(s2, b);
        }
        let t3 = self.and(t1, b);
        let ghost s3 = *self;
        proof {
            lemma_growth_trans(s0, s2, s3, 6, 3);
            lemma_room_growth(s0, s3, 9, 6);
            assert(s3.ext_or0(a) == s2.ext_or0(a) + (if a == t3 { 1int } else { 0int }));
            assert(s2.ext_or0(a) == s1.ext_or0(a) + (if a == t2 { 1int } else { 0int }));
            assert(s1.ext_or0(a) == s0.ext_or0(a) + (if a == t1 { 1int } else { 0int }));
            assert(s3.ext_or0(a) >= 1);
            assert(s0.parents(t2) <= s0.rc_at(t2) || t2 >= s0.n());
            assert(s3.ext_or0(t2) == s2.ext_or0(t2) + (if t2 == t3 { 1int } else { 0int }));
            assert(s3.ext_or0(t2) >= 1);
            lemma_ext_live(s3, a);
            lemma_ext_live(s3, t2);
        }
        let t4 = self.and(a, t2);
        let ghost s4 = *self;
        proof {
            lemma_growth_trans(s0, s3, s4, 9, 3);
            lemma_room_growth(s0, s4, 12, 3);
            assert(s0.parents(t3) <= s0.rc_at(t3) || t3 >= s0.n());
            assert(s4.ext_or0(t3) == s3.ext_or0(t3) + (if t3 == t4 { 1int } else { 0int }));
            assert(s3.ext_or0(t3) >= 1);
            assert(s4.ext_or0(t4) >= 1);
            lemma_ext_live(s4, t3);
            lemma_ext_live(s4, t4);
        }
        let c = self.or(t3, t4);
        let ghost s5 = *self;
        proof {
            lemma_growth_trans(s0, s4, s5, 12, 3);
            assert forall|t: u32|
                t < s5.n() implies #[trigger] s5.ext_or0(t) == s0.ext_or0(t) + (if t == t1 {
                1int
            } else {
                0int
            }) + (if t == t2 { 1int } else { 0int }) + (if t == t3 { 1int } else { 0int }) + (if t
                == t4 { 1int } else { 0int }) + (if t == c { 1int } else { 0int }) by {
                assert(s1.ext_or0(t) == s0.ext_or0(t) + (if t == t1 { 1int } else { 0int }));
                assert(s2.ext_or0(t) == s1.ext_or0(t) + (if t == t2 { 1int } else { 0int }));
                assert(s3.ext_or0(t) == s2.ext_or0(t) + (if t == t3 { 1int } else { 0int }));
                assert(s4.ext_or0(t) == s3.ext_or0(t) + (if t == t4 { 1int } else { 0int }));
                assert(s5.ext_or0(t) == s4.ext_or0(t) + (if t == c { 1int } else { 0int }));
            }
            assert forall|t: u32|
                t < s0.n() && s0.ext_or0(t) >= 1 implies #[trigger] s5.kind_at(t) == s0.kind_at(
                t,
            ) by {}
            assert(s5.live(t1) && s5.live(t2) && s5.live(t3) && s5.live(t4) && s5.live(c)) by {
                assert(s0.parents(t1) <= s0.rc_at(t1) || t1 >= s0.n());
                assert(s0.parents(t2) <= s0.rc_at(t2) || t2 >= s0.n());
                assert(s0.parents(t3) <= s0.rc_at(t3) || t3 >= s0.n());
                assert(s0.parents(t4) <= s0.rc_at(t4) || t4 >= s0.n());
                assert(s0.parents(c) <= s0.rc_at(c) || c >= s0.n());
                assert(s5.ext_or0(t1) >= 1 && s5.ext_or0(t2) >= 1 && s5.ext_or0(t3) >= 1
                    && s5.ext_or0(t4) >= 1 && s5.ext_or0(c) >= 1);
                lemma_ext_live(s5, t1);
                lemma_ext_live(s5, t2);
                lemma_ext_live(s5, t3);
                lemma_ext_live(s5, t4);
                lemma_ext_live(s5, c);
            }
            lemma_xor_const(s0, s1, s2, s3, s4, s5, s5, a, b, t1, t2, t3, t4, c);
            assert(s1.live(a) && s1.live(b) && s1.live(t1));
            assert(s2.live(a) && s2.live(b) && s2.live(t1) && s2.live(t2));
            assert(s3.live(a) && s3.live(b) && s3.live(t1) && s3.live(t2) && s3.live(t3));
            assert(s4.live(a) && s4.live(b) && s4.live(t2) && s4.live(t3) && s4.live(t4));
            assert forall|t: u32| s0.live(t) implies s5.rank_of(t) == s0.rank_of(t) by {}
            assert forall|env: Map<u32, bool>| #[trigger]
                s5.eval(c, env) == (s5.eval(a, env) != s5.eval(b, env)) by {
                lemma_eval_stable(s0, s1, a, env);
                lemma_eval_stable(s1, s2, a, env);
                lemma_eval_stable(s2, s3, a, env);
                lemma_eval_stable(s3, s4, a, env);
                lemma_eval_stable(s4, s5, a, env);
                lemma_eval_stable(s0, s1, b, env);
                lemma_eval_stable(s1, s2, b, env);
                lemma_eval_stable(s2, s3, b, env);
                lemma_eval_stable(s3, s4, b, env);
                lemma_eval_stable(s4, s5, b, env);
                lemma_eval_stable(s1, s2, t1, env);
                lemma_eval_stable(s2, s3, t1, env);
                lemma_eval_stable(s2, s3, t2, env);
                lemma_eval_stable(s3, s4, t2, env);
                lemma_eval_stable(s3, s4, t3, env);
                lemma_eval_stable(s4, s5, t3, env);
                lemma_eval_stable(s4, s5, t4, env);
            }
            assert forall|t: u32, env: Map<u32, bool>|
                s0.ext_or0(t) >= 1 implies #[trigger] s5.eval(t, env) == s0.eval(t, env) by {
                lemma_ext_live(s0, t);
                assert(s1.live(t) && s2.live(t) && s3.live(t) && s4.live(t));
                lemma_eval_stable(s0, s1, t, env);
                lemma_eval_stable(s1, s2, t, env);
                lemma_eval_stable(s2, s3, t, env);
                lemma_eval_stable(s3, s4, t, env);
                lemma_eval_stable(s4, s5, t, env);
            }
        }
        (t1, t2, t3, t4, c)
    }

    /// Exclusive disjunction, built from the primitive connectives; the
    /// temporaries are released before returning.
    #[verifier::rlimit(100)]
    #[verifier::spinoff_prover]
    pub fn xor(&mut self, a: u32, b: u32) -> (c: u32)
        requires
            old(self).inv(),
            old(self).held(a),
            old(self).held(b),
            old(self).room(15),
        ensures
            op_frame(*old(self), *final(self), c),
            bounded_growth(*old(self), *final(self), 15),
            (old(self).bit_const(a) is Some && old(self).bit_const(b) is Some) ==> final(self).bit_const(c) == Some(old(self).bit_const(a).unwrap() != old(self).bit_const(b).unwrap()),
            forall|t: u32|
                old(self).live(t) ==> final(self).rank_of(t) == old(self).rank_of(t),
            forall|env: Map<u32, bool>| #[trigger]
                final(self).eval(c, env) == (final(self).eval(a, env) != final(self).eval(
                    b,
                    env,
                )),
            forall|t: u32, env: Map<u32, bool>|
                old(self).ext_or0(t) >= 1 ==> #[trigger] final(self).eval(t, env) == old(
                self,
                ).eval(t, env),
    {
        let ghost s0 = *self;
        let r = self.xor_build(a, b);
        let t1 = r.0;
        let t2 = r.1;
        let t3 = r.2;
        let t4 = r.3;
        let c = r.4;
        let ghost sb = *self;
        proof {
            assert(s0.parents(t1) <= s0.rc_at(t1) || t1 >= s0.n());
            assert(s0.parents(t2) <= s0.rc_at(t2) || t2 >= s0.n());
            assert(s0.parents(t3) <= s0.rc_at(t3) || t3 >= s0.n());
            assert(s0.parents(t4) <= s0.rc_at(t4) || t4 >= s0.n());
            assert(s0.parents(c) <= s0.rc_at(c) || c >= s0.n());
            assert(sb.ext_or0(t1) >= 1 && sb.ext_or0(t2) >= 1 && sb.ext_or0(t3) >= 1
                && sb.ext_or0(t4) >= 1);
        }
        self.decr(t1);
        self.decr(t2);
        self.decr(t3);
        self.decr(t4);
        proof {
            assert forall|t: u32|
                t < self.n() implies #[trigger] self.ext_or0(t) == s0.ext_or0(t) + (if t == c {
                1int
            } else {
                0int
            }) by {
                assert(sb.ext_or0(t) == s0.ext_or0(t) + (if t == t1 { 1int } else { 0int }) + (
                if t == t2 { 1int } else { 0int }) + (if t == t3 { 1int } else { 0int }) + (if t
                    == t4 { 1int } else { 0int }) + (if t == c { 1int } else { 0int }));
                assert(self.ext_or0(t) == sb.ext_or0(t) - (if t == t1 { 1int } else { 0int }) - (
                if t == t2 { 1int } else { 0int }) - (if t == t3 { 1int } else { 0int }) - (if t
                    == t4 { 1int } else { 0int }));
            }
            assert(self.ext_or0(c) >= 1);
            lemma_ext_live(*self, c);
            assert forall|t: u32|
                t < s0.n() && s0.ext_or0(t) >= 1 implies #[trigger] self.kind_at(t) == s0.kind_at(
                t,
            ) by {
                assert(sb.kind_at(t) == s0.kind_at(t));
            }
            assert(bounded_growth(s0, *self, 15)) by {
                lemma_growth_trans(s0, sb, *self, 15, 0);
            }
            assert(self.kind_at(c) == sb.kind_at(c));
            assert(self.ext_or0(a) >= 1 && self.ext_or0(b) >= 1);
            lemma_ext_live(*self, a);
            lemma_ext_live(*self, b);
            assert(self.n() == sb.n() && self.ranks() == sb.ranks());
            assert forall|t: u32| s0.live(t) implies self.rank_of(t) == s0.rank_of(t) by {}
            assert forall|env: Map<u32, bool>| #[trigger]
                self.eval(c, env) == (self.eval(a, env) != self.eval(b, env)) by {
                lemma_eval_same_kinds(sb, *self, c, env);
                lemma_eval_same_kinds(sb, *self, a, env);
                lemma_eval_same_kinds(sb, *self, b, env);
            }
            assert forall|t: u32, env: Map<u32, bool>|
                s0.ext_or0(t) >= 1 implies #[trigger] self.eval(t, env) == s0.eval(t, env) by {
                lemma_ext_live(s0, t);
                assert(sb.ext_or0(t) >= 1);
                lemma_ext_live(sb, t);
                assert(self.ext_or0(t) >= 1);
                lemma_ext_live(*self, t);
                lemma_eval_same_kinds(sb, *self, t, env);
            }
        }
        c
    }

    /// Builds the full-adder network, returning the temporaries, the sum and
    /// the carry, each with one reference handed out.
    #[verifier::rlimit(100)]
    #[verifier::spinoff_prover]
    fn full_adder_build(&mut self, a: u32, b: u32, c_in: u32) -> (r: (u32, u32, u32, u32, u32))
        requires
            old(self).inv(),
            old(self).held(a),
            old(self).held(b),
            old(self).held(c_in),
            old(self).room(39),
        ensures
            final(self).inv(),
            old(self).n() <= final(self).n(),
            final(self).live(r.0) && final(self).live(r.1) && final(self).live(r.2) && final(self).live(r.3) && final(self).live(r.4),
            forall|t: u32|
                t < final(self).n() ==> #[trigger] final(self).ext_or0(t) == old(self).ext_or0(t)
                    + (if t == r.0 { 1int } else { 0int }) + (if t == r.1 { 1int } else { 0int })
                    + (if t == r.2 { 1int } else { 0int }) + (if t == r.3 { 1int } else { 0int })
                    + (if t == r.4 { 1int } else { 0int }),
            forall|t: u32|
                t < old(self).n() && old(self).ext_or0(t) >= 1 ==> #[trigger] final(self).kind_at(
                    t,
                ) == old(self).kind_at(t),
            bounded_growth(*old(self), *final(self), 39),
            (old(self).bit_const(a) is Some && old(self).bit_const(b) is Some && old(self).bit_const(c_in) is Some) ==> final(self).bit_const(r.1) == Some(
                (old(self).bit_const(a).unwrap() != old(self).bit_const(b).unwrap()) != old(self).bit_const(c_in).unwrap(),
            ) && final(self).bit_const(r.4) == Some(
                (old(self).bit_const(c_in).unwrap() && (old(self).bit_const(a).unwrap() != old(self).bit_const(b).unwrap())) || (old(self).bit_const(a).unwrap() && old(self).bit_const(b).unwrap()),
            ),
            forall|env: Map<u32, bool>| #[trigger]
                final(self).eval(r.1, env) == ((final(self).eval(a, env) != final(self).eval(
                    b,
                    env,
                )) != final(self).eval(c_in, env)),
            forall|env: Map<u32, bool>| #[trigger]
                final(self).eval(r.4, env) == ((final(self).eval(c_in, env) && (final(self).eval(
                    a,
                    env,
                ) != final(self).eval(b, env))) || (final(self).eval(a, env) && final(self).eval(
                    b,
                    env,
                ))),
            forall|t: u32, env: Map<u32, bool>|
                old(self).ext_or0(t) >= 1 ==> #[trigger] final(self).eval(t, env) == old(
                self,
                ).eval(t, env),
    {
        let ghost s0 = *self;
        let t1 = self.xor(a, b);
        let ghost s1 = *self;
        proof {
            lemma_room_growth(s0, s1, 15, 24);
            assert(s1.ext_or0(t1) >= 1 && s1.ext_or0(c_in) >= 1) by {
                assert(s0.parents(t1) <= s0.rc_at(t1) || t1 >= s0.n());
                assert(s1.ext_or0(t1) == s0.ext_or0(t1) + (if t1 == t1 { 1int } else { 0int }));
                assert(s1.ext_or0(c_in) == s0.ext_or0(c_in) + (if c_in == t1 {
                    1int
                } else {
                    0int
                }));
            }
            assert(s1.held(t1) && s1.held(c_in));
        }
        let s = self.xor(t1, c_in);
        let ghost s2 = *self;
        proof {
            lemma_growth_trans(s0, s1, s2, 15, 15);
            lemma_room_growth(s0, s2, 30, 9);
            assert(s2.ext_or0(c_in) == s1.ext_or0(c_in) + (if c_in == s { 1int } else { 0int }));
            assert(s2.ext_or0(t1) == s1.ext_or0(t1) + (if t1 == s { 1int } else { 0int }));
            assert(s2.ext_or0(c_in) >= 1 && s2.ext_or0(t1) >= 1);
            lemma_ext_live(s2, c_in);
            lemma_ext_live(s2, t1);
        }
        let t2 = self.and(c_in, t1);
        let ghost s3 = *self;
        proof {
            lemma_growth_trans(s0, s2, s3, 30, 3);
            lemma_room_growth(s0, s3, 33, 6);
            assert(s1.ext_or0(a) == s0.ext_or0(a) + (if a == t1 { 1int } else { 0int }));
            assert(s2.ext_or0(a) == s1.ext_or0(a) + (if a == s { 1int } else { 0int }));
            assert(s3.ext_or0(a) == s2.ext_or0(a) + (if a == t2 { 1int } else { 0int }));
            assert(s1.ext_or0(b) == s0.ext_or0(b) + (if b == t1 { 1int } else { 0int }));
            assert(s2.ext_or0(b) == s1.ext_or0(b) + (if b == s { 1int } else { 0int }));
            assert(s3.ext_or0(b) == s2.ext_or0(b) + (if b == t2 { 1int } else { 0int }));
            assert(s3.ext_or0(a) >= 1 && s3.ext_or0(b) >= 1);
            lemma_ext_live(s3, a);
            lemma_ext_live(s3, b);
        }
        let t3 = self.and(a, b);
        let ghost s4 = *self;
        proof {
            lemma_growth_trans(s0, s3, s4, 33, 3);
            lemma_room_growth(s0, s4, 36, 3);
            assert(s0.parents(t2) <= s0.rc_at(t2) || t2 >= s0.n());
            assert(s4.ext_or0(t2) == s3.ext_or0(t2) + (if t2 == t3 { 1int } else { 0int }));
            assert(s4.ext_or0(t2) >= 1 && s4.ext_or0(t3) >= 1);
            lemma_ext_live(s4, t2);
            lemma_ext_live(s4, t3);
        }
        let c = self.or(t2, t3);
        let ghost s5 = *self;
        proof {
            lemma_growth_trans(s0, s4, s5, 36, 3);
            assert forall|t: u32|
                t < s5.n() implies #[trigger] s5.ext_or0(t) == s0.ext_or0(t) + (if t == t1 {
                1int
            } else {
                0int
            }) + (if t == s { 1int } else { 0int }) + (if t == t2 { 1int } else { 0int }) + (if t
                == t3 { 1int } else { 0int }) + (if t == c { 1int } else { 0int }) by {
                assert(s1.ext_or0(t) == s0.ext_or0(t) + (if t == t1 { 1int } else { 0int }));
                assert(s2.ext_or0(t) == s1.ext_or0(t) + (if t == s { 1int } else { 0int }));
                assert(s3.ext_or0(t) == s2.ext_or0(t) + (if t == t2 { 1int } else { 0int }));
                assert(s4.ext_or0(t) == s3.ext_or0(t) + (if t == t3 { 1int } else { 0int }));
                assert(s5.ext_or0(t) == s4.ext_or0(t) + (if t == c { 1int } else { 0int }));
            }
            assert forall|t: u32|
                t < s0.n() && s0.ext_or0(t) >= 1 implies #[trigger] s5.kind_at(t) == s0.kind_at(
                t,
            ) by {}
            assert(s5.live(t1) && s5.live(s) && s5.live(t2) && s5.live(t3) && s5.live(c)) by {
                assert(s0.parents(t1) <= s0.rc_at(t1) || t1 >= s0.n());
                assert(s0.parents(s) <= s0.rc_at(s) || s >= s0.n());
                assert(s0.parents(t2) <= s0.rc_at(t2) || t2 >= s0.n());
                assert(s0.parents(t3) <= s0.rc_at(t3) || t3 >= s0.n());
                assert(s0.parents(c) <= s0.rc_at(c) || c >= s0.n());
                assert(s5.ext_or0(t1) >= 1 && s5.ext_or0(s) >= 1 && s5.ext_or0(t2) >= 1
                    && s5.ext_or0(t3) >= 1 && s5.ext_or0(c) >= 1);
                lemma_ext_live(s5, t1);
                lemma_ext_live(s5, s);
                lemma_ext_live(s5, t2);
                lemma_ext_live(s5, t3);
                lemma_ext_live(s5, c);
            }
            if s0.bit_const(a) is Some && s0.bit_const(b) is Some && s0.bit_const(c_in) is Some {
                assert(s1.kind_at(c_in) == s0.kind_at(c_in));
                assert(s1.bit_const(c_in) == s0.bit_const(c_in));
                assert(s2.kind_at(c_in) == s1.kind_at(c_in) && s2.kind_at(t1) == s1.kind_at(t1));
                assert(s2.bit_const(c_in) == s1.bit_const(c_in) && s2.bit_const(t1)
                    == s1.bit_const(t1));
                assert(s3.kind_at(a) == s2.kind_at(a) && s2.kind_at(a) == s1.kind_at(a)
                    && s1.kind_at(a) == s0.kind_at(a));
                assert(s3.kind_at(b) == s2.kind_at(b) && s2.kind_at(b) == s1.kind_at(b)
                    && s1.kind_at(b) == s0.kind_at(b));
                assert(s3.bit_const(a) == s0.bit_const(a) && s3.bit_const(b) == s0.bit_const(b));
                assert(s4.kind_at(t2) == s3.kind_at(t2));
                assert(s4.bit_const(t2) == s3.bit_const(t2));
                assert(s3.kind_at(s) == s2.kind_at(s) && s4.kind_at(s) == s3.kind_at(s)
                    && s5.kind_at(s) == s4.kind_at(s));
                assert(s5.bit_const(s) == s2.bit_const(s));
                lemma_full_adder_const(s0, s1, s2, s3, s4, s5, a, b, c_in, t1, s, t2, t3, c);
            }
            assert(s2.ext_or0(s) >= 1);
            assert(s3.ext_or0(t2) >= 1);
            lemma_full_adder_eval(s0, s1, s2, s3, s4, s5, a, b, c_in, t1, s, t2, t3, c);
        }
        (t1, s, t2, t3, c)
    }

    /// One-bit full adder: returns the sum and carry expressions.
    #[verifier::rlimit(100)]
    #[verifier::spinoff_prover]
    pub fn full_adder(&mut self, a: u32, b: u32, c_in: u32) -> (r: (u32, u32))
        requires
            old(self).inv(),
            old(self).held(a),
            old(self).held(b),
            old(self).held(c_in),
            old(self).room(39),
        ensures
            op_frame2(*old(self), *final(self), r.0, r.1),
            bounded_growth(*old(self), *final(self), 39),
            (old(self).bit_const(a) is Some && old(self).bit_const(b) is Some && old(self).bit_const(c_in) is Some) ==> final(self).bit_const(r.0) == Some(
                (old(self).bit_const(a).unwrap() != old(self).bit_const(b).unwrap()) != old(self).bit_const(c_in).unwrap(),
            ) && final(self).bit_const(r.1) == Some(
                (old(self).bit_const(c_in).unwrap() && (old(self).bit_const(a).unwrap() != old(self).bit_const(b).unwrap())) || (old(self).bit_const(a).unwrap() && old(self).bit_const(b).unwrap()),
            ),
            forall|env: Map<u32, bool>| #[trigger]
                final(self).eval(r.0, env) == ((final(self).eval(a, env) != final(self).eval(
                    b,
                    env,
                )) != final(self).eval(c_in, env)),
            forall|env: Map<u32, bool>| #[trigger]
                final(self).eval(r.1, env) == ((final(self).eval(c_in, env) && (final(self).eval(
                    a,
                    env,
                ) != final(self).eval(b, env))) || (final(self).eval(a, env) && final(self).eval(
                    b,
                    env,
                ))),
    {
        let ghost s0 = *self;
        let r = self.full_adder_build(a, b, c_in);
        let t1 = r.0;
        let s = r.1;
        let t2 = r.2;
        let t3 = r.3;
        let c = r.4;
        let ghost sb = *self;
        proof {
            assert(s0.parents(t1) <= s0.rc_at(t1) || t1 >= s0.n());
            assert(s0.parents(s) <= s0.rc_at(s) || s >= s0.n());
            assert(s0.parents(t2) <= s0.rc_at(t2) || t2 >= s0.n());
            assert(s0.parents(t3) <= s0.rc_at(t3) || t3 >= s0.n());
            assert(s0.parents(c) <= s0.rc_at(c) || c >= s0.n());
            assert(sb.ext_or0(t3) >= 1 && sb.ext_or0(t2) >= 1 && sb.ext_or0(t1) >= 1);
        }
        self.decr(t3);
        self.decr(t2);
        self.decr(t1);
        proof {
            assert forall|t: u32|
                t < self.n() implies #[trigger] self.ext_or0(t) == s0.ext_or0(t) + (if t == s {
                1int
            } else {
                0int
            }) + (if t == c { 1int } else { 0int }) by {
                assert(sb.ext_or0(t) == s0.ext_or0(t) + (if t == t1 { 1int } else { 0int }) + (
                if t == s { 1int } else { 0int }) + (if t == t2 { 1int } else { 0int }) + (if t
                    == t3 { 1int } else { 0int }) + (if t == c { 1int } else { 0int }));
                assert(self.ext_or0(t) == sb.ext_or0(t) - (if t == t3 { 1int } else { 0int }) - (
                if t == t2 { 1int } else { 0int }) - (if t == t1 { 1int } else { 0int }));
            }
            assert(self.ext_or0(s) >= 1 && self.ext_or0(c) >= 1);
            lemma_ext_live(*self, s);
            lemma_ext_live(*self, c);
            assert forall|t: u32|
                t < s0.n() && s0.ext_or0(t) >= 1 implies #[trigger] self.kind_at(t) == s0.kind_at(
                t,
            ) by {
                assert(sb.kind_at(t) == s0.kind_at(t));
            }
            assert(bounded_growth(s0, *self, 39)) by {
                lemma_growth_trans(s0, sb, *self, 39, 0);
            }
            assert(self.kind_at(c) == sb.kind_at(c) && self.kind_at(s) == sb.kind_at(s));
            assert(self.ext_or0(a) >= 1 && self.ext_or0(b) >= 1 && self.ext_or0(c_in) >= 1);
            lemma_ext_live(*self, a);
            lemma_ext_live(*self, b);
            lemma_ext_live(*self, c_in);
            assert(self.n() == sb.n() && self.ranks() == sb.ranks());
            assert forall|env: Map<u32, bool>| #[trigger]
                self.eval(s, env) == ((self.eval(a, env) != self.eval(b, env)) != self.eval(
                c_in,
                env,
            )) by {
                lemma_eval_same_kinds(sb, *self, s, env);
                lemma_eval_same_kinds(sb, *self, a, env);
                lemma_eval_same_kinds(sb, *self, b, env);
                lemma_eval_same_kinds(sb, *self, c_in, env);
            }
            assert forall|env: Map<u32, bool>| #[trigger]
                self.eval(c, env) == ((self.eval(c_in, env) && (self.eval(a, env) != self.eval(
                b,
                env,
            ))) || (self.eval(a, env) && self.eval(b, env))) by {
                lemma_eval_same_kinds(sb, *self, c, env);
                lemma_eval_same_kinds(sb, *self, a, env);
                lemma_eval_same_kinds(sb, *self, b, env);
                lemma_eval_same_kinds(sb, *self, c_in, env);
            }
        }
        (s, c)
    }

    /// Builds the multiplexer network, returning the temporaries and the
    /// result, each with one reference handed out.
    #[verifier::rlimit(100)]
    #[verifier::spinoff_prover]
    fn cond_build(&mut self, test: u32, yes: u32, no: u32) -> (r: (u32, u32, u32, u32))
        requires
            old(self).inv(),
            old(self).held(test),
            old(self).held(yes),
            old(self).held(no),
            old(self).room(12),
        ensures
            final(self).inv(),
            old(self).n() <= final(self).n(),
            final(self).live(r.0) && final(self).live(r.1) && final(self).live(r.2) && final(self).live(r.3),
            forall|t: u32|
                t < final(self).n() ==> #[trigger] final(self).ext_or0(t) == old(self).ext_or0(t)
                    + (if t == r.0 { 1int } else { 0int }) + (if t == r.1 { 1int } else { 0int })
                    + (if t == r.2 { 1int } else { 0int }) + (if t == r.3 { 1int } else { 0int }),
            forall|t: u32|
                t < old(self).n() && old(self).ext_or0(t) >= 1 ==> #[trigger] final(self).kind_at(
                    t,
                ) == old(self).kind_at(t),
            bounded_growth(*old(self), *final(self), 12),
            (old(self).bit_const(test) == Some(true) && old(self).bit_const(yes) is Some) ==>
                final(self).bit_const(r.3) == old(self).bit_const(yes),
            (old(self).bit_const(test) == Some(false) && old(self).bit_const(no) is Some) ==>
                final(self).bit_const(r.3) == old(self).bit_const(no),
            forall|env: Map<u32, bool>| #[trigger]
                final(self).eval(r.3, env) == (if final(self).eval(test, env) {
                    final(self).eval(yes, env)
                } else {
                    final(self).eval(no, env)
                }),
    {
        let ghost s0 = *self;
        proof {
            lemma_ext_live(s0, test);
            lemma_ext_live(s0, yes);
            lemma_ext_live(s0, no);
        }
        let t1 = self.and(test, yes);
        let ghost s1 = *self;
        proof {
            lemma_room_growth(s0, s1, 3, 9);
            assert(s0.parents(test) <= s0.rc_at(test) || test >= s0.n());
            assert(s1.ext_or0(test) == s0.ext_or0(test) + (if test == t1 { 1int } else { 0int }));
            assert(s1.ext_or0(test) >= 1);
            lemma_ext_live(s1, test);
        }
        let t2 = self.not(test);
        let ghost s2 = *self;
        proof {
            lemma_growth_trans(s0, s1, s2, 3, 3);
            lemma_room_growth(s0, s2, 6, 6);
            assert(s0.parents(t2) <= s0.rc_at(t2) || t2 >= s0.n());
            assert(s1.ext_or0(t2) == s0.ext_or0(t2) + (if t2 == t1 { 1int } else { 0int }));
            assert(s2.ext_or0(t2) == s1.ext_or0(t2) + (if t2 == t2 { 1int } else { 0int }));
            assert(s2.ext_or0(t2) >= 1);
            lemma_ext_live(s2, t2);
            assert(s0.parents(no) <= s0.rc_at(no) || no >= s0.n());
            assert(s1.ext_or0(no) == s0.ext_or0(no) + (if no == t1 { 1int } else { 0int }));
            assert(s2.ext_or0(no) == s1.ext_or0(no) + (if no == t2 { 1int } else { 0int }));
            assert(s2.ext_or0(no) >= 1);
            lemma_ext_live(s2, no);
        }
        let t3 = self.and(t2, no);
        let ghost s3 = *self;
        proof {
            lemma_growth_trans(s0, s2, s3, 6, 3);
            lemma_room_growth(s0, s3, 9, 3);
            assert(s0.parents(t1) <= s0.rc_at(t1) || t1 >= s0.n());
            assert(s1.ext_or0(t1) == s0.ext_or0(t1) + (if t1 == t1 { 1int } else { 0int }));
            assert(s2.ext_or0(t1) == s1.ext_or0(t1) + (if t1 == t2 { 1int } else { 0int }));
            assert(s3.ext_or0(t1) == s2.ext_or0(t1) + (if t1 == t3 { 1int } else { 0int }));
            assert(s3.ext_or0(t1) >= 1);
            lemma_ext_live(s3, t1);
            assert(s0.parents(t3) <= s0.rc_at(t3) || t3 >= s0.n());
            assert(s1.ext_or0(t3) == s0.ext_or0(t3) + (if t3 == t1 { 1int } else { 0int }));
            assert(s2.ext_or0(t3) == s1.ext_or0(t3) + (if t3 == t2 { 1int } else { 0int }));
            assert(s3.ext_or0(t3) == s2.ext_or0(t3) + (if t3 == t3 { 1int } else { 0int }));
            assert(s3.ext_or0(t3) >= 1);
            lemma_ext_live(s3, t3);
        }
        let c = self.or(t1, t3);
        let ghost s4 = *self;
        proof {
            lemma_growth_trans(s0, s3, s4, 9, 3);
            assert forall|t: u32|
                t < s4.n() implies #[trigger] s4.ext_or0(t) == s0.ext_or0(t) + (if t == t1 { 1int } else { 0int }) + (if t == t2 { 1int } else { 0int }) + (if t == t3 { 1int } else { 0int }) + (if t == c { 1int } else { 0int }) by {
                assert(s1.ext_or0(t) == s0.ext_or0(t) + (if t == t1 { 1int } else { 0int }));
                assert(s2.ext_or0(t) == s1.ext_or0(t) + (if t == t2 { 1int } else { 0int }));
                assert(s3.ext_or0(t) == s2.ext_or0(t) + (if t == t3 { 1int } else { 0int }));
                assert(s4.ext_or0(t) == s3.ext_or0(t) + (if t == c { 1int } else { 0int }));
            }
            assert(s4.ext_or0(t1) >= 1 && s4.ext_or0(t2) >= 1 && s4.ext_or0(t3) >= 1
                && s4.ext_or0(c) >= 1);
            lemma_ext_live(s4, t1);
            lemma_ext_live(s4, t2);
            lemma_ext_live(s4, t3);
            lemma_ext_live(s4, c);
            if s0.bit_const(test) == Some(true) && s0.bit_const(yes) is Some {
                let v = s0.bit_const(yes).unwrap();
                assert(s1.bit_const(t1) == Some(v));
                assert(s2.kind_at(test) == s0.kind_at(test));
                assert(s2.bit_const(t2) == Some(false));
                assert(s3.kind_at(no) == s0.kind_at(no) && s3.kind_at(t2) == s2.kind_at(t2));
                assert(s3.bit_const(t2) == Some(false));
                assert(s3.bit_const(t3) == Some(false));
                assert(s4.kind_at(t1) == s1.kind_at(t1) && s4.kind_at(t3) == s3.kind_at(t3));
                assert(s4.bit_const(t1) == Some(v) && s4.bit_const(t3) == Some(false));
                assert(s4.bit_const(c) == Some(v));
            }
            if s0.bit_const(test) == Some(false) && s0.bit_const(no) is Some {
                let v = s0.bit_const(no).unwrap();
                assert(s1.bit_const(t1) == Some(false));
                assert(s2.kind_at(test) == s0.kind_at(test));
                assert(s2.bit_const(t2) == Some(true));
                assert(s3.kind_at(no) == s0.kind_at(no) && s3.kind_at(t2) == s2.kind_at(t2));
                assert(s3.bit_const(no) == Some(v));
                assert(s3.bit_const(t3) == Some(v));
                assert(s4.kind_at(t1) == s1.kind_at(t1) && s4.kind_at(t3) == s3.kind_at(t3));
                assert(s4.bit_const(t1) == Some(false) && s4.bit_const(t3) == Some(v));
                assert(s4.bit_const(c) == Some(v));
            }
            assert(s2.ext_or0(test) == s1.ext_or0(test) + (if test == t2 { 1int } else { 0int }));
            assert(s3.ext_or0(test) == s2.ext_or0(test) + (if test == t3 { 1int } else { 0int }));
            assert(s1.ext_or0(yes) == s0.ext_or0(yes) + (if yes == t1 { 1int } else { 0int }));
            assert(s2.ext_or0(yes) == s1.ext_or0(yes) + (if yes == t2 { 1int } else { 0int }));
            assert(s3.ext_or0(yes) == s2.ext_or0(yes) + (if yes == t3 { 1int } else { 0int }));
            assert(s1.ext_or0(no) == s0.ext_or0(no) + (if no == t1 { 1int } else { 0int }));
            assert(s3.ext_or0(no) == s2.ext_or0(no) + (if no == t3 { 1int } else { 0int }));
            lemma_ext_live(s1, test);
            lemma_ext_live(s2, test);
            lemma_ext_live(s3, test);
            lemma_ext_live(s1, yes);
            lemma_ext_live(s2, yes);
            lemma_ext_live(s3, yes);
            lemma_ext_live(s1, no);
            lemma_ext_live(s3, no);
            lemma_ext_live(s1, t1);
            assert forall|env: Map<u32, bool>| #[trigger]
                s4.eval(c, env) == (if s4.eval(test, env) {
                    s4.eval(yes, env)
                } else {
                    s4.eval(no, env)
                }) by {
                assert(s1.eval(t1, env) == (s1.eval(test, env) && s1.eval(yes, env)));
                assert(s2.eval(t2, env) == !s2.eval(test, env));
                assert(s3.eval(t3, env) == (s3.eval(t2, env) && s3.eval(no, env)));
                assert(s4.eval(c, env) == (s4.eval(t1, env) || s4.eval(t3, env)));
                lemma_eval_stable(s0, s1, test, env);
                lemma_eval_stable(s1, s2, test, env);
                lemma_eval_stable(s2, s3, test, env);
                lemma_eval_stable(s3, s4, test, env);
                lemma_eval_stable(s0, s1, yes, env);
                lemma_eval_stable(s1, s2, yes, env);
                lemma_eval_stable(s2, s3, yes, env);
                lemma_eval_stable(s3, s4, yes, env);
                lemma_eval_stable(s0, s1, no, env);
                lemma_eval_stable(s1, s2, no, env);
                lemma_eval_stable(s2, s3, no, env);
                lemma_eval_stable(s3, s4, no, env);
                lemma_eval_stable(s1, s2, t1, env);
                lemma_eval_stable(s2, s3, t1, env);
                lemma_eval_stable(s3, s4, t1, env);
                lemma_eval_stable(s2, s3, t2, env);
                lemma_eval_stable(s3, s4, t3, env);
            }
        }
        (t1, t2, t3, c)
    }

    /// Two-way multiplexer over single bits: `test ? yes : no`.
    #[verifier::rlimit(100)]
    #[verifier::spinoff_prover]
    pub fn cond(&mut self, test: u32, yes: u32, no: u32) -> (c: u32)
        requires
            old(self).inv(),
            old(self).held(test),
            old(self).held(yes),
            old(self).held(no),
            old(self).room(12),
        ensures
            op_frame(*old(self), *final(self), c),
            bounded_growth(*old(self), *final(self), 12),
            (old(self).bit_const(test) == Some(true) && old(self).bit_const(yes) is Some) ==>
                final(self).bit_const(c) == old(self).bit_const(yes),
            (old(self).bit_const(test) == Some(false) && old(self).bit_const(no) is Some) ==>
                final(self).bit_const(c) == old(self).bit_const(no),
            forall|env: Map<u32, bool>| #[trigger]
                final(self).eval(c, env) == (if final(self).eval(test, env) {
                    final(self).eval(yes, env)
                } else {
                    final(self).eval(no, env)
                }),
    {
        let ghost s0 = *self;
        let r = self.cond_build(test, yes, no);
        let t1 = r.0;
        let t2 = r.1;
        let t3 = r.2;
        let c = r.3;
        let ghost sb = *self;
        proof {
            assert(s0.parents(t1) <= s0.rc_at(t1) || t1 >= s0.n());
            assert(s0.parents(t2) <= s0.rc_at(t2) || t2 >= s0.n());
            assert(s0.parents(t3) <= s0.rc_at(t3) || t3 >= s0.n());
            assert(s0.parents(c) <= s0.rc_at(c) || c >= s0.n());
            assert(sb.ext_or0(t1) >= 1 && sb.ext_or0(t2) >= 1 && sb.ext_or0(t3) >= 1);
        }
        self.decr(t1);
        self.decr(t2);
        self.decr(t3);
        proof {
            assert forall|t: u32|
                t < self.n() implies #[trigger] self.ext_or0(t) == s0.ext_or0(t) + (if t == c { 1int } else { 0int }) by {
                assert(sb.ext_or0(t) == s0.ext_or0(t) + (if t == t1 { 1int } else { 0int }) + (
                if t == t2 { 1int } else { 0int }) + (if t == t3 { 1int } else { 0int }) + (if t
                    == c { 1int } else { 0int }));
                assert(self.ext_or0(t) == sb.ext_or0(t) - (if t == t1 { 1int } else { 0int }) - (
                if t == t2 { 1int } else { 0int }) - (if t == t3 { 1int } else { 0int }));
            }
            assert(self.ext_or0(c) >= 1);
            lemma_ext_live(*self, c);
            assert forall|t: u32|
                t < s0.n() && s0.ext_or0(t) >= 1 implies #[trigger] self.kind_at(t) == s0.kind_at(
                t,
            ) by {
                assert(sb.kind_at(t) == s0.kind_at(t));
            }
            assert(bounded_growth(s0, *self, 12)) by {
                lemma_growth_trans(s0, sb, *self, 12, 0);
            }
            assert(self.kind_at(c) == sb.kind_at(c));
            assert(self.ext_or0(test) >= 1 && self.ext_or0(yes) >= 1 && self.ext_or0(no) >= 1);
            lemma_ext_live(*self, test);
            lemma_ext_live(*self, yes);
            lemma_ext_live(*self, no);
            assert(sb.live(test) && sb.live(yes) && sb.live(no));
            assert(self.n() == sb.n() && self.ranks() == sb.ranks());
            assert forall|env: Map<u32, bool>| #[trigger]
                self.eval(c, env) == (if self.eval(test, env) {
                    self.eval(yes, env)
                } else {
                    self.eval(no, env)
                }) by {
                lemma_eval_same_kinds(sb, *self, c, env);
                lemma_eval_same_kinds(sb, *self, test, env);
                lemma_eval_same_kinds(sb, *self, yes, env);
                lemma_eval_same_kinds(sb, *self, no, env);
            }
        }
        c
    }
}


/// Constant folding through the exclusive-or composition: if both operands
/// are constants, so is the result, bit by bit.
proof fn lemma_xor_const(
    s0: Bits,
    s1: Bits,
    s2: Bits,
    s3: Bits,
    s4: Bits,
    s5: Bits,
    sf: Bits,
    a: u32,
    b: u32,
    t1: u32,
    t2: u32,
    t3: u32,
    t4: u32,
    c: u32,
)
    requires
        s0.live(a),
        s0.live(b),
        extends(s0, s1),
        extends(s1, s2),
        extends(s2, s3),
        extends(s3, s4),
        extends(s4, s5),
        s1.live(t1),
        s2.live(t2),
        s3.live(t3),
        s4.live(t4),
        s5.live(c),
        s0.bit_const(a) is Some ==> s1.bit_const(t1) == Some(!s0.bit_const(a).unwrap()),
        s1.bit_const(b) is Some ==> s2.bit_const(t2) == Some(!s1.bit_const(b).unwrap()),
        (s2.bit_const(t1) is Some && s2.bit_const(b) is Some) ==> s3.bit_const(t3) == Some(
            s2.bit_const(t1).unwrap() && s2.bit_const(b).unwrap(),
        ),
        (s3.bit_const(a) is Some && s3.bit_const(t2) is Some) ==> s4.bit_const(t4) == Some(
            s3.bit_const(a).unwrap() && s3.bit_const(t2).unwrap(),
        ),
        (s4.bit_const(t3) is Some && s4.bit_const(t4) is Some) ==> s5.bit_const(c) == Some(
            s4.bit_const(t3).unwrap() || s4.bit_const(t4).unwrap(),
        ),
        sf.n() == s5.n(),
        forall|t: u32| t < s5.n() ==> #[trigger] sf.kind_at(t) == s5.kind_at(t),
    ensures
        (s0.bit_const(a) is Some && s0.bit_const(b) is Some) ==> sf.bit_const(c) == Some(
            s0.bit_const(a).unwrap() != s0.bit_const(b).unwrap(),
        ),
{
    if s0.bit_const(a) is Some && s0.bit_const(b) is Some {
        let x = s0.bit_const(a).unwrap();
        let y = s0.bit_const(b).unwrap();
        assert(s1.bit_const(b) == s0.bit_const(b));
        assert(s2.bit_const(t1) == s1.bit_const(t1) && s2.bit_const(b) == s1.bit_const(b));
        assert(s3.bit_const(a) == s0.bit_const(a));
        assert(s3.bit_const(t2) == s2.bit_const(t2));
        assert(s4.bit_const(t3) == s3.bit_const(t3));
        assert(s4.bit_const(t4) == s4.bit_const(t4));
        assert(s5.bit_const(c) == Some((!x && y) || (x && !y)));
        assert(sf.bit_const(c) == s5.bit_const(c));
        assert(sf.bit_const(c) == Some(x != y));
    }
}

/// Evaluation of the full-adder network under every assignment, chained
/// across the five store states its construction passes through.
#[verifier::rlimit(100)]
#[verifier::spinoff_prover]
proof fn lemma_full_adder_eval(
    s0: Bits,
    s1: Bits,
    s2: Bits,
    s3: Bits,
    s4: Bits,
    s5: Bits,
    a: u32,
    b: u32,
    c_in: u32,
    t1: u32,
    s: u32,
    t2: u32,
    t3: u32,
    c: u32,
)
    requires
        s0.inv(),
        s1.inv(),
        s2.inv(),
        s3.inv(),
        s4.inv(),
        s5.inv(),
        forall|env: Map<u32, bool>| #[trigger]
            s1.eval(t1, env) == (s1.eval(a, env) != s1.eval(b, env)),
        forall|t: u32, env: Map<u32, bool>|
            s0.ext_or0(t) >= 1 ==> #[trigger] s1.eval(t, env) == s0.eval(t, env),
        forall|env: Map<u32, bool>| #[trigger]
            s2.eval(s, env) == (s2.eval(t1, env) != s2.eval(c_in, env)),
        forall|t: u32, env: Map<u32, bool>|
            s1.ext_or0(t) >= 1 ==> #[trigger] s2.eval(t, env) == s1.eval(t, env),
        forall|env: Map<u32, bool>| #[trigger]
            s3.eval(t2, env) == (s3.eval(c_in, env) && s3.eval(t1, env)),
        forall|env: Map<u32, bool>| #[trigger]
            s4.eval(t3, env) == (s4.eval(a, env) && s4.eval(b, env)),
        forall|env: Map<u32, bool>| #[trigger]
            s5.eval(c, env) == (s5.eval(t2, env) || s5.eval(t3, env)),
        extends(s2, s3),
        extends(s3, s4),
        extends(s4, s5),
        forall|t: u32| s2.live(t) ==> s3.rank_of(t) == s2.rank_of(t),
        forall|t: u32| s3.live(t) ==> s4.rank_of(t) == s3.rank_of(t),
        forall|t: u32| s4.live(t) ==> s5.rank_of(t) == s4.rank_of(t),
        forall|t: u32|
            t < s1.n() ==> #[trigger] s1.ext_or0(t) == s0.ext_or0(t) + (if t == t1 {
                1int
            } else {
                0int
            }),
        forall|t: u32|
            t < s2.n() ==> #[trigger] s2.ext_or0(t) == s1.ext_or0(t) + (if t == s {
                1int
            } else {
                0int
            }),
        forall|t: u32|
            t < s3.n() ==> #[trigger] s3.ext_or0(t) == s2.ext_or0(t) + (if t == t2 {
                1int
            } else {
                0int
            }),
        forall|t: u32|
            t < s4.n() ==> #[trigger] s4.ext_or0(t) == s3.ext_or0(t) + (if t == t3 {
                1int
            } else {
                0int
            }),
        s0.n() <= s1.n() && s1.n() <= s2.n() && s2.n() <= s3.n() && s3.n() <= s4.n(),
        s0.ext_or0(a) >= 1,
        s0.ext_or0(b) >= 1,
        s0.ext_or0(c_in) >= 1,
        s1.ext_or0(t1) >= 1,
        s2.ext_or0(s) >= 1,
        s3.ext_or0(t2) >= 1,
        s4.ext_or0(t3) >= 1,
    ensures
        forall|t: u32, env: Map<u32, bool>|
            s0.ext_or0(t) >= 1 ==> #[trigger] s5.eval(t, env) == s0.eval(t, env),
        forall|env: Map<u32, bool>| #[trigger]
            s5.eval(s, env) == ((s5.eval(a, env) != s5.eval(b, env)) != s5.eval(c_in, env)),
        forall|env: Map<u32, bool>| #[trigger]
            s5.eval(c, env) == ((s5.eval(c_in, env) && (s5.eval(a, env) != s5.eval(b, env))) || (
            s5.eval(a, env) && s5.eval(b, env))),
{
    assert forall|t: u32, env: Map<u32, bool>|
        s0.ext_or0(t) >= 1 implies #[trigger] s5.eval(t, env) == s0.eval(t, env) by {
        assert(s1.ext_or0(t) >= 1 && s2.ext_or0(t) >= 1 && s3.ext_or0(t) >= 1 && s4.ext_or0(t)
            >= 1);
        lemma_ext_live(s2, t);
        lemma_ext_live(s3, t);
        lemma_ext_live(s4, t);
        assert(s1.eval(t, env) == s0.eval(t, env));
        assert(s2.eval(t, env) == s1.eval(t, env));
        lemma_eval_stable(s2, s3, t, env);
        lemma_eval_stable(s3, s4, t, env);
        lemma_eval_stable(s4, s5, t, env);
    }
    assert(s2.ext_or0(a) >= 1 && s3.ext_or0(a) >= 1 && s2.ext_or0(b) >= 1 && s3.ext_or0(b) >= 1);
    assert(s2.ext_or0(c_in) >= 1 && s3.ext_or0(c_in) >= 1);
    assert(s2.ext_or0(t1) >= 1 && s3.ext_or0(s) >= 1 && s4.ext_or0(s) >= 1);
    assert(s4.ext_or0(t2) >= 1);
    lemma_ext_live(s2, a);
    lemma_ext_live(s3, a);
    lemma_ext_live(s2, b);
    lemma_ext_live(s3, b);
    lemma_ext_live(s2, c_in);
    lemma_ext_live(s3, c_in);
    lemma_ext_live(s2, t1);
    lemma_ext_live(s2, s);
    lemma_ext_live(s3, s);
    lemma_ext_live(s3, t2);
    lemma_ext_live(s4, t3);
    assert(s4.ext_or0(a) >= 1 && s4.ext_or0(b) >= 1 && s4.ext_or0(c_in) >= 1 && s4.ext_or0(t2)
        >= 1 && s4.ext_or0(s) >= 1);
    lemma_ext_live(s4, a);
    lemma_ext_live(s4, b);
    lemma_ext_live(s4, c_in);
    lemma_ext_live(s4, t2);
    lemma_ext_live(s4, s);
    assert forall|env: Map<u32, bool>| #[trigger]
        s5.eval(s, env) == ((s5.eval(a, env) != s5.eval(b, env)) != s5.eval(c_in, env)) by {
        assert(s1.eval(t1, env) == (s1.eval(a, env) != s1.eval(b, env)));
        assert(s2.eval(s, env) == (s2.eval(t1, env) != s2.eval(c_in, env)));
        assert(s2.eval(t1, env) == s1.eval(t1, env));
        assert(s1.eval(a, env) == s0.eval(a, env));
        assert(s2.eval(a, env) == s1.eval(a, env));
        assert(s1.eval(b, env) == s0.eval(b, env));
        assert(s2.eval(b, env) == s1.eval(b, env));
        assert(s1.eval(c_in, env) == s0.eval(c_in, env));
        assert(s2.eval(c_in, env) == s1.eval(c_in, env));
        lemma_eval_stable(s2, s3, s, env);
        lemma_eval_stable(s3, s4, s, env);
        lemma_eval_stable(s4, s5, s, env);
        lemma_eval_stable(s2, s3, a, env);
        lemma_eval_stable(s3, s4, a, env);
        lemma_eval_stable(s4, s5, a, env);
        lemma_eval_stable(s2, s3, b, env);
        lemma_eval_stable(s3, s4, b, env);
        lemma_eval_stable(s4, s5, b, env);
        lemma_eval_stable(s2, s3, c_in, env);
        lemma_eval_stable(s3, s4, c_in, env);
        lemma_eval_stable(s4, s5, c_in, env);
    }
    assert forall|env: Map<u32, bool>| #[trigger]
        s5.eval(c, env) == ((s5.eval(c_in, env) && (s5.eval(a, env) != s5.eval(b, env))) || (
    s5.eval(a, env) && s5.eval(b, env))) by {
        assert(s1.eval(t1, env) == (s1.eval(a, env) != s1.eval(b, env)));
        assert(s2.eval(t1, env) == s1.eval(t1, env));
        assert(s3.eval(t2, env) == (s3.eval(c_in, env) && s3.eval(t1, env)));
        assert(s4.eval(t3, env) == (s4.eval(a, env) && s4.eval(b, env)));
        assert(s5.eval(c, env) == (s5.eval(t2, env) || s5.eval(t3, env)));
        lemma_eval_stable(s2, s3, t1, env);
        assert(s1.eval(a, env) == s0.eval(a, env));
        assert(s2.eval(a, env) == s1.eval(a, env));
        lemma_eval_stable(s2, s3, a, env);
        lemma_eval_stable(s3, s4, a, env);
        lemma_eval_stable(s4, s5, a, env);
        assert(s1.eval(b, env) == s0.eval(b, env));
        assert(s2.eval(b, env) == s1.eval(b, env));
        lemma_eval_stable(s2, s3, b, env);
        lemma_eval_stable(s3, s4, b, env);
        lemma_eval_stable(s4, s5, b, env);
        assert(s1.eval(c_in, env) == s0.eval(c_in, env));
        assert(s2.eval(c_in, env) == s1.eval(c_in, env));
        lemma_eval_stable(s2, s3, c_in, env);
        lemma_eval_stable(s3, s4, c_in, env);
        lemma_eval_stable(s4, s5, c_in, env);
        lemma_eval_stable(s3, s4, t2, env);
        lemma_eval_stable(s4, s5, t2, env);
        lemma_eval_stable(s4, s5, t3, env);
    }
}

/// Constant folding through the full-adder composition.
proof fn lemma_full_adder_const(
    s0: Bits,
    s1: Bits,
    s2: Bits,
    s3: Bits,
    s4: Bits,
    s5: Bits,
    a: u32,
    b: u32,
    c_in: u32,
    t1: u32,
    s: u32,
    t2: u32,
    t3: u32,
    c: u32,
)
    requires
        (s0.bit_const(a) is Some && s0.bit_const(b) is Some) ==> s1.bit_const(t1) == Some(
            s0.bit_const(a).unwrap() != s0.bit_const(b).unwrap(),
        ),
        (s1.bit_const(t1) is Some && s1.bit_const(c_in) is Some) ==> s2.bit_const(s) == Some(
            s1.bit_const(t1).unwrap() != s1.bit_const(c_in).unwrap(),
        ),
        (s2.bit_const(c_in) is Some && s2.bit_const(t1) is Some) ==> s3.bit_const(t2) == Some(
            s2.bit_const(c_in).unwrap() && s2.bit_const(t1).unwrap(),
        ),
        (s3.bit_const(a) is Some && s3.bit_const(b) is Some) ==> s4.bit_const(t3) == Some(
            s3.bit_const(a).unwrap() && s3.bit_const(b).unwrap(),
        ),
        (s4.bit_const(t2) is Some && s4.bit_const(t3) is Some) ==> s5.bit_const(c) == Some(
            s4.bit_const(t2).unwrap() || s4.bit_const(t3).unwrap(),
        ),
        s1.bit_const(c_in) == s0.bit_const(c_in),
        s2.bit_const(c_in) == s1.bit_const(c_in),
        s2.bit_const(t1) == s1.bit_const(t1),
        s3.bit_const(a) == s0.bit_const(a),
        s3.bit_const(b) == s0.bit_const(b),
        s4.bit_const(t2) == s3.bit_const(t2),
        s5.bit_const(s) == s2.bit_const(s),
    ensures
        (s0.bit_const(a) is Some && s0.bit_const(b) is Some && s0.bit_const(c_in) is Some)
            ==> s5.bit_const(s) == Some(
            (s0.bit_const(a).unwrap() != s0.bit_const(b).unwrap()) != s0.bit_const(c_in).unwrap(),
        ) && s5.bit_const(c) == Some(
            (s0.bit_const(c_in).unwrap() && (s0.bit_const(a).unwrap() != s0.bit_const(b).unwrap()))
                || (s0.bit_const(a).unwrap() && s0.bit_const(b).unwrap()),
        ),
{
    if s0.bit_const(a) is Some && s0.bit_const(b) is Some && s0.bit_const(c_in) is Some {
        let x = s0.bit_const(a).unwrap();
        let y = s0.bit_const(b).unwrap();
        let z = s0.bit_const(c_in).unwrap();
        assert(s1.bit_const(t1) == Some(x != y));
        assert(s2.bit_const(s) == Some((x != y) != z));
        assert(s3.bit_const(t2) == Some(z && (x != y)));
        assert(s4.bit_const(t3) == Some(x && y));
        assert(s5.bit_const(c) == Some((z && (x != y)) || (x && y)));
    }
}

/// Relies on `Vec::capacity`: a vector's capacity is at least its length.
#[verifier::external_body]
fn vec_capacity<T>(v: &Vec<T>) -> (r: usize)
    ensures
        r >= v@.len(),
{
    v.capacity()
}

/// Largest element of a sequence of naturals.
spec fn seq_max_nat(s: Seq<nat>) -> nat
    decreases s.len(),
{
    if s.len() == 0 {
        0nat
    } else {
        if s.last() >= seq_max_nat(s.drop_last()) {
            s.last()
        } else {
            seq_max_nat(s.drop_last())
        }
    }
}

proof fn lemma_seq_max_nat(s: Seq<nat>, i: int)
    requires
        0 <= i < s.len(),
    ensures
        s[i] <= seq_max_nat(s),
    decreases s.len(),
{
    if i < s.len() - 1 {
        lemma_seq_max_nat(s.drop_last(), i);
        assert(s.drop_last()[i] == s[i]);
    }
}

/// If no caller holds a reference and every live slot ranks below `r`,
/// nothing is live: a live slot would need a live parent of greater rank.
proof fn lemma_no_live_below(b: Bits, r: nat)
    requires
        b.inv(),
        forall|t: u32| t < b.n() ==> #[trigger] b.ext_at(t) == 0,
        forall|t: u32| b.live(t) ==> #[trigger] b.rank_of(t) < r,
    ensures
        forall|t: u32| t < b.n() ==> b.rc_at(t) == 0,
    decreases r,
{
    if r == 0 {
        assert forall|t: u32| t < b.n() implies b.rc_at(t) == 0 by {
            if b.rc_at(t) >= 1 {
                assert(b.live(t));
                assert(b.rank_of(t) < 0);
            }
        }
    } else {
        assert forall|t: u32| b.live(t) implies #[trigger] b.rank_of(t) < (r - 1) as nat by {
            assert(b.ext_at(t) == 0);
            assert(b.parents(t) >= 1);
            lemma_parents_upto_witness(b.slots(), t, b.n() as int);
            let j = choose|j: int| 0 <= j < b.n() && slot_refs(b.slots()[j], t) >= 1;
            assert(b.slots()[j].0 >= 1);
            assert(b.node_ok(j));
            assert(b.live(j as u32));
            assert(b.rank_of(j as u32) < r);
            match b.slots()[j].1 {
                Bit::And(l, rr) => {
                    assert(l == t || rr == t);
                },
                Bit::Or(l, rr) => {
                    assert(l == t || rr == t);
                },
                Bit::Not(e) => {
                    assert(e == t);
                },
                _ => {
                    assert(false);
                },
            }
            assert(b.rank_of(t) < b.rank_of(j as u32));
        }
        lemma_no_live_below(b, (r - 1) as nat);
    }
}

/// Evaluation reads only the stored expressions: two stores of the same
/// size, ranks and kinds evaluate every slot that is live in both alike,
/// under every assignment.
pub proof fn lemma_eval_same_kinds(a: Bits, b: Bits, id: u32, env: Map<u32, bool>)
    requires
        a.inv(),
        b.inv(),
        a.n() == b.n(),
        a.ranks() == b.ranks(),
        forall|t: u32| t < a.n() ==> #[trigger] a.kind_at(t) == b.kind_at(t),
        a.live(id),
        b.live(id),
    ensures
        b.eval(id, env) == a.eval(id, env),
    decreases a.rank_of(id),
{
    assert(a.node_ok(id as int));
    assert forall|c: u32| refs_in(a.kind_at(id), c) >= 1 implies a.live(c) && b.live(c) by {
        lemma_parents_upto_at_least(a.slots(), c, id as int, a.n() as int);
        assert(a.parents(c) >= 1);
        assert(slot_refs(b.slots()[id as int], c) >= 1);
        lemma_parents_upto_at_least(b.slots(), c, id as int, b.n() as int);
        assert(b.parents(c) >= 1);
    }
    match a.kind_at(id) {
        Bit::And(l, r) => {
            assert(refs_in(a.kind_at(id), l) >= 1);
            assert(refs_in(a.kind_at(id), r) >= 1);
            lemma_eval_same_kinds(a, b, l, env);
            lemma_eval_same_kinds(a, b, r, env);
        },
        Bit::Or(l, r) => {
            assert(refs_in(a.kind_at(id), l) >= 1);
            assert(refs_in(a.kind_at(id), r) >= 1);
            lemma_eval_same_kinds(a, b, l, env);
            lemma_eval_same_kinds(a, b, r, env);
        },
        Bit::Not(e) => {
            assert(refs_in(a.kind_at(id), e) >= 1);
            lemma_eval_same_kinds(a, b, e, env);
        },
        _ => {},
    }
}

/// A dead slot stands on the free list exactly once: the list carries
/// every slot whose refcount is zero, each of its entries is such a slot,
/// and it never repeats an entry.
pub proof fn lemma_free_list_exact(b: Bits, t: u32)
    requires
        b.inv(),
        t < b.n(),
        b.rc_at(t) == 0,
    ensures
        b.free_list().contains(t),
        forall|j: int|
            0 <= j < b.free_list().len() ==> (#[trigger] b.free_list()[j]) < b.n() && b.rc_at(
                b.free_list()[j],
            ) == 0,
        forall|j1: int, j2: int|
            0 <= j1 < j2 < b.free_list().len() ==> b.free_list()[j1] != b.free_list()[j2],
{
}

/// The arena's central theorem: once every external reference has been
/// returned, every refcount is zero, and so is their sum.
pub proof fn lemma_quiescent(b: Bits)
    requires
        b.inv(),
        forall|t: u32| t < b.n() ==> #[trigger] b.ext_at(t) == 0,
    ensures
        forall|t: u32| t < b.n() ==> b.rc_at(t) == 0,
        b.rc_total() == 0,
{
    let m = seq_max_nat(b.ranks());
    assert forall|t: u32| b.live(t) implies #[trigger] b.rank_of(t) < m + 1 by {
        lemma_seq_max_nat(b.ranks(), t as int);
    }
    lemma_no_live_below(b, m + 1);
    assert forall|i: int| 0 <= i < b.slots().len() implies (#[trigger] b.slots()[i].0) == 0 by {
        assert(b.rc_at(i as u32) == 0);
    }
    lemma_rc_total_upto_zero(b.slots(), b.n() as int);
}


/// A word's value fits in its width.
pub proof fn lemma_word_value_bound(b: Bits, ids: Seq<u32>)
    requires
        b.word_value(ids) is Some,
    ensures
        b.word_value(ids).unwrap() < pow2(ids.len()),
    decreases ids.len(),
{
    vstd::arithmetic::power2::lemma2_to64();
    if ids.len() == 0 {
    } else {
        lemma_word_value_bound(b, ids.drop_first());
        lemma_pow2_adds(1, (ids.len() - 1) as nat);
        assert(pow2(ids.len()) == 2 * pow2((ids.len() - 1) as nat));
    }
}

/// Each bit of a valued word is the corresponding bit of the value.
pub proof fn lemma_word_value_bits(b: Bits, ids: Seq<u32>, k: int)
    requires
        b.word_value(ids) is Some,
        0 <= k < ids.len(),
    ensures
        b.bit_const(ids[k]) == Some(nbit(b.word_value(ids).unwrap(), k as nat)),
    decreases ids.len(),
{
    let v = b.word_value(ids).unwrap();
    let rest = b.word_value(ids.drop_first()).unwrap();
    assert(v == (if b.bit_const(ids[0]).unwrap() {
        1nat
    } else {
        0nat
    }) + 2 * rest);
    if k == 0 {
        lemma_nbit_zero(v);
    } else {
        lemma_word_value_bits(b, ids.drop_first(), k - 1);
        lemma_nbit_half(v, k as nat);
        assert(v / 2 == rest);
        assert(ids.drop_first()[k - 1] == ids[k]);
    }
}

/// Conversely, a word whose bits spell out `v` has value `v`.
pub proof fn lemma_bits_word_value(b: Bits, ids: Seq<u32>, v: nat)
    requires
        v < pow2(ids.len()),
        forall|k: int| 0 <= k < ids.len() ==> b.bit_const(ids[k]) == Some(nbit(v, k as nat)),
    ensures
        b.word_value(ids) == Some(v),
    decreases ids.len(),
{
    vstd::arithmetic::power2::lemma2_to64();
    if ids.len() == 0 {
        assert(pow2(0) == 1);
    } else {
        lemma_nbit_zero(v);
        assert(b.bit_const(ids[0]) == Some(nbit(v, 0)));
        assert forall|k: int|
            0 <= k < ids.drop_first().len() implies b.bit_const(ids.drop_first()[k]) == Some(
            nbit(v / 2, k as nat),
        ) by {
            assert(ids.drop_first()[k] == ids[k + 1]);
            lemma_nbit_half(v, (k + 1) as nat);
        }
        assert(v / 2 < pow2((ids.len() - 1) as nat)) by {
            lemma_pow2_adds(1, (ids.len() - 1) as nat);
            assert(pow2(ids.len()) == 2 * pow2((ids.len() - 1) as nat));
            assert(v == 2 * (v / 2) + v % 2);
        }
        lemma_bits_word_value(b, ids.drop_first(), v / 2);
        assert(v == (if v % 2 == 1 {
            1nat
        } else {
            0nat
        }) + 2 * (v / 2));
    }
}

/// A word has no value exactly when one of its bits is not a constant.
pub proof fn lemma_word_value_none(b: Bits, ids: Seq<u32>)
    ensures
        (b.word_value(ids) is None) <==> exists|k: int|
            0 <= k < ids.len() && b.bit_const(ids[k]) is None,
    decreases ids.len(),
{
    if ids.len() == 0 {
    } else {
        lemma_word_value_none(b, ids.drop_first());
        if b.bit_const(ids[0]) is None {
            assert(0 <= 0 < ids.len() && b.bit_const(ids[0]) is None);
        } else {
            if b.word_value(ids.drop_first()) is None {
                let k = choose|k: int|
                    0 <= k < ids.drop_first().len() && b.bit_const(ids.drop_first()[k]) is None;
                assert(ids.drop_first()[k] == ids[k + 1]);
                assert(b.bit_const(ids[k + 1]) is None);
            } else {
                assert forall|k: int|
                    0 <= k < ids.len() implies b.bit_const(ids[k]) is Some by {
                    if k > 0 {
                        assert(ids.drop_first()[k - 1] == ids[k]);
                    }
                }
            }
        }
    }
}

/// Word values depend only on what the bits hold.
pub proof fn lemma_word_value_stable(b1: Bits, b2: Bits, ids: Seq<u32>)
    requires
        forall|k: int| 0 <= k < ids.len() ==> b2.bit_const(ids[k]) == b1.bit_const(ids[k]),
    ensures
        b2.word_value(ids) == b1.word_value(ids),
    decreases ids.len(),
{
    if ids.len() > 0 {
        assert forall|k: int|
            0 <= k < ids.drop_first().len() implies b2.bit_const(ids.drop_first()[k])
            == b1.bit_const(ids.drop_first()[k]) by {
            assert(ids.drop_first()[k] == ids[k + 1]);
        }
        lemma_word_value_stable(b1, b2, ids.drop_first());
    }
}

/// An element of a sequence is counted at least once.
pub proof fn lemma_count_member(s: Seq<u32>, k: int)
    requires
        0 <= k < s.len(),
    ensures
        count_of(s, s[k]) >= 1,
    decreases s.len(),
{
    if k == s.len() - 1 {
    } else {
        lemma_count_member(s.drop_last(), k);
        assert(s.drop_last()[k] == s[k]);
    }
}

/// A word's value splits at any position: low part plus shifted high part.
pub proof fn lemma_word_value_split(b: Bits, ids: Seq<u32>, k: int)
    requires
        0 <= k <= ids.len(),
    ensures
        b.word_value(ids) == (match (b.word_value(ids.take(k)), b.word_value(ids.skip(k))) {
            (Some(l), Some(h)) => Some(l + pow2(k as nat) * h),
            _ => None::<nat>,
        }),
    decreases k,
{
    vstd::arithmetic::power2::lemma2_to64();
    if k == 0 {
        assert(ids.take(0) =~= Seq::<u32>::empty());
        assert(ids.skip(0) =~= ids);
        if b.word_value(ids) is Some {
            let h = b.word_value(ids).unwrap();
            assert(pow2(0) == 1);
            assert(pow2(0) * h == h) by (nonlinear_arith)
                requires
                    pow2(0) == 1,
            ;
        }
    } else {
        assert(ids.len() >= 1);
        lemma_word_value_split(b, ids.drop_first(), k - 1);
        assert(ids.take(k).drop_first() =~= ids.drop_first().take(k - 1));
        assert(ids.skip(k) =~= ids.drop_first().skip(k - 1));
        assert(ids.take(k)[0] == ids[0]);
        lemma_pow2_adds(1, (k - 1) as nat);
        assert(pow2(k as nat) == 2 * pow2((k - 1) as nat));
        match (b.bit_const(ids[0]), b.word_value(ids.drop_first())) {
            (Some(bb), Some(rest)) => {
                let l1 = b.word_value(ids.drop_first().take(k - 1));
                let h1 = b.word_value(ids.drop_first().skip(k - 1));
                match (l1, h1) {
                    (Some(l), Some(h)) => {
                        assert(rest == l + pow2((k - 1) as nat) * h);
                        assert(b.word_value(ids.take(k)) == Some(
                            (if bb {
                                1nat
                            } else {
                                0nat
                            }) + 2 * l,
                        ));
                        assert((if bb {
                            1nat
                        } else {
                            0nat
                        }) + 2 * rest == (if bb {
                            1nat
                        } else {
                            0nat
                        }) + 2 * l + pow2(k as nat) * h) by (nonlinear_arith)
                            requires
                                rest == l + pow2((k - 1) as nat) * h,
                                pow2(k as nat) == 2 * pow2((k - 1) as nat),
                        ;
                    },
                    _ => {},
                }
            },
            _ => {
                if b.bit_const(ids[0]) is None {
                    assert(b.word_value(ids.take(k)) is None);
                }
            },
        }
    }
}

/// An index counted in a prefix is counted in the whole.
pub proof fn lemma_count_split(s: Seq<u32>, i: int, t: u32)
    requires
        0 <= i <= s.len(),
    ensures
        count_of(s, t) == count_of(s.take(i), t) + count_of(s.skip(i), t),
    decreases s.len() - i,
{
    if i == s.len() {
        assert(s.take(i) =~= s);
        assert(s.skip(i) =~= Seq::<u32>::empty());
    } else {
        lemma_count_split(s, i + 1, t);
        assert(s.take(i + 1) =~= s.take(i).push(s[i]));
        lemma_count_push(s.take(i), s[i], t);
        lemma_count_first(s.skip(i), t);
        assert(s.skip(i).drop_first() =~= s.skip(i + 1));
        assert(s.skip(i)[0] == s[i]);
    }
}

/// Counting from the front.
pub proof fn lemma_count_first(s: Seq<u32>, t: u32)
    requires
        s.len() >= 1,
    ensures
        count_of(s, t) == (if s[0] == t {
            1nat
        } else {
            0nat
        }) + count_of(s.drop_first(), t),
    decreases s.len(),
{
    if s.len() == 1 {
        assert(s.drop_first() =~= Seq::<u32>::empty());
        assert(s.drop_last() =~= Seq::<u32>::empty());
        assert(s.last() == s[0]);
    } else {
        lemma_count_first(s.drop_last(), t);
        assert(s.drop_last()[0] == s[0]);
        assert(s.drop_last().drop_first() =~= s.drop_first().drop_last());
        assert(s.drop_first().last() == s.last());
    }
}


/// A constant slot evaluates to its constant, whatever the assignment.
pub proof fn lemma_eval_const(b: Bits, id: u32, env: Map<u32, bool>)
    requires
        b.inv(),
        b.live(id),
        b.bit_const(id) is Some,
    ensures
        b.eval(id, env) == b.bit_const(id).unwrap(),
{
}

/// Two complements in a row: the outer node is a slot of its own, yet it
/// evaluates exactly as the expression beneath them does, under every
/// assignment.
pub proof fn lemma_double_complement(b: Bits, x: u32, n1: u32, n2: u32, env: Map<u32, bool>)
    requires
        b.inv(),
        b.live(x),
        b.live(n1),
        b.live(n2),
        b.kind_at(n1) == Bit::Not(x),
        b.kind_at(n2) == Bit::Not(n1),
    ensures
        n2 != x,
        b.eval(n2, env) == b.eval(x, env),
{
    assert(b.node_ok(n1 as int));
    assert(b.node_ok(n2 as int));
    assert(b.rank_of(x) < b.rank_of(n1));
    assert(b.rank_of(n1) < b.rank_of(n2));
    assert(b.eval(n2, env) == !b.eval(n1, env));
    assert(b.eval(n1, env) == !b.eval(x, env));
}

/// Evaluation is stable when the arena only grows: every slot a caller
/// kept alive evaluates as before.
pub proof fn lemma_eval_stable(a: Bits, b: Bits, id: u32, env: Map<u32, bool>)
    requires
        a.inv(),
        b.inv(),
        a.live(id),
        extends(a, b),
        forall|t: u32| a.live(t) ==> a.rank_of(t) == b.rank_of(t),
    ensures
        b.eval(id, env) == a.eval(id, env),
    decreases a.rank_of(id),
{
    assert(a.node_ok(id as int));
    assert forall|c: u32| refs_in(a.kind_at(id), c) >= 1 implies a.live(c) by {
        lemma_parents_upto_at_least(a.slots(), c, id as int, a.n() as int);
        assert(a.parents(c) >= 1);
    }
    match a.kind_at(id) {
        Bit::And(l, r) => {
            assert(refs_in(a.kind_at(id), l) >= 1);
            assert(refs_in(a.kind_at(id), r) >= 1);
            lemma_eval_stable(a, b, l, env);
            lemma_eval_stable(a, b, r, env);
        },
        Bit::Or(l, r) => {
            assert(refs_in(a.kind_at(id), l) >= 1);
            assert(refs_in(a.kind_at(id), r) >= 1);
            lemma_eval_stable(a, b, l, env);
            lemma_eval_stable(a, b, r, env);
        },
        Bit::Not(e) => {
            assert(refs_in(a.kind_at(id), e) >= 1);
            lemma_eval_stable(a, b, e, env);
        },
        _ => {},
    }
}

} // verus!
