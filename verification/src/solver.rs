//! A DPLL-style search over CNF clauses with non-chronological backjumping.
//!
//! The search is stepped by the caller: each `step` examines the next
//! clause under the current assignment and either records it as satisfied,
//! guesses or forces a literal, or, on a conflict, jumps back to the
//! deepest decision level that contributed to it.  Assignments carry the
//! depth at which they can be justified; a truncated stack shadows deeper
//! assignments without rewriting them.

use vstd::prelude::*;
use vstd::pervasive::VecAdditionalExecFns;
use crate::dimacs::Dimacs;
use crate::dimacs::lemma_remaining_lits_wf;

verus! {

/// Outcome of the search so far.
#[derive(Clone, Copy, PartialEq, Eq, Structural, Debug)]
pub enum Status {
    /// The search has not finished.
    Unknown,
    /// A satisfying assignment was found.
    Sat,
    /// The clauses are unsatisfiable.
    Unsat,
}

/// One variable's state: its value, if assigned, and the literal and
/// decision depth that justify it.
#[derive(Clone, Copy)]
struct Assignment {
    value: Option<bool>,
    resolve_literal: i32,
    resolve_depth: usize,
}

/// One clause under examination during the search.
#[derive(Clone, Copy)]
struct Frame {
    satisfied: bool,
    clause_index: usize,
    guess_index: usize,
    resolve_literal: i32,
    resolve_depth: usize,
}

/// The search state.
pub struct Solver {
    clauses: Vec<Vec<i32>>,
    status: Status,
    stack: Vec<Frame>,
    assignments: Vec<Assignment>,
}

/// Two clauses with the same literals, as sets.
pub open spec fn same_lits(a: Seq<i32>, b: Seq<i32>) -> bool {
    forall|x: i32| a.contains(x) <==> b.contains(x)
}

/// The variable a literal speaks about.
///
/// (The solver-level satisfaction and falsification predicates live in the
/// `Solver` impl below.)
pub open spec fn lit_var(l: i32) -> int {
    if l >= 0 {
        l as int
    } else {
        -(l as int)
    }
}

/// The largest variable among the first `k` literals of a clause, 0 when
/// there is none.
pub open spec fn max_var_clause(c: Seq<i32>, k: int) -> int
    decreases k,
{
    if k <= 0 {
        0
    } else if lit_var(c[k - 1]) > max_var_clause(c, k - 1) {
        lit_var(c[k - 1])
    } else {
        max_var_clause(c, k - 1)
    }
}

/// The largest variable among the first `i` clauses, 0 when there is none.
pub open spec fn max_var_clauses(cs: Seq<Seq<i32>>, i: int) -> int
    decreases i,
{
    if i <= 0 {
        0
    } else if max_var_clause(cs[i - 1], cs[i - 1].len() as int) > max_var_clauses(cs, i - 1) {
        max_var_clause(cs[i - 1], cs[i - 1].len() as int)
    } else {
        max_var_clauses(cs, i - 1)
    }
}

proof fn lemma_max_var_clause_bound(c: Seq<i32>, j: int, k: int)
    requires
        0 <= j < k <= c.len(),
    ensures
        lit_var(c[j]) <= max_var_clause(c, k),
    decreases k,
{
    if j < k - 1 {
        lemma_max_var_clause_bound(c, j, k - 1);
    }
}

proof fn lemma_max_var_clauses_bound(cs: Seq<Seq<i32>>, i: int, n: int)
    requires
        0 <= i < n <= cs.len(),
    ensures
        max_var_clause(cs[i], cs[i].len() as int) <= max_var_clauses(cs, n),
    decreases n,
{
    if i < n - 1 {
        lemma_max_var_clauses_bound(cs, i, n - 1);
    }
}

impl Solver {
    /// The clauses, as ghost state.
    pub closed spec fn spec_clauses(self) -> Seq<Seq<i32>> {
        Seq::new(self.clauses@.len(), |i: int| self.clauses@[i]@)
    }

    /// The status, as ghost state.
    pub closed spec fn spec_status(self) -> Status {
        self.status
    }

    /// The search depth: one frame per clause under consideration.
    pub closed spec fn depth(self) -> nat {
        self.stack@.len()
    }

    /// Number of variable slots.
    pub closed spec fn n_vars(self) -> nat {
        self.assignments@.len()
    }

    /// The value recorded for variable `v`.
    pub closed spec fn value_at(self, v: int) -> Option<bool> {
        self.assignments@[v].value
    }

    /// The whole assignment table, for stating that a step changed it.
    pub closed spec fn assigns(self) -> Seq<(Option<bool>, i32, usize)> {
        Seq::new(
            self.assignments@.len(),
            |i: int|
                (
                    self.assignments@[i].value,
                    self.assignments@[i].resolve_literal,
                    self.assignments@[i].resolve_depth,
                ),
        )
    }

    /// A literal the solver can index: nonzero, negatable, in range.
    pub open spec fn lit_ok(self, l: i32) -> bool {
        l != 0 && l != i32::MIN && lit_var(l) < self.n_vars()
    }

    /// Solver well-formedness.
    pub closed spec fn wf(self) -> bool {
        &&& forall|i: int, j: int|
            0 <= i < self.clauses@.len() && 0 <= j < self.clauses@[i]@.len() ==> self.lit_ok(
                #[trigger] self.clauses@[i]@[j],
            )
        &&& self.stack@.len() <= self.clauses@.len()
        &&& forall|k: int|
            0 <= k < self.stack@.len() ==> (#[trigger] self.stack@[k]).clause_index
                < self.clauses@.len() && (self.stack@[k].resolve_depth > 0 ==> self.lit_ok(
                self.stack@[k].resolve_literal,
            ))
        &&& forall|v: int|
            0 <= v < self.assignments@.len() ==> (((#[trigger] self.assignments@[v]).value
                is Some && self.assignments@[v].resolve_depth > 0) ==> self.lit_ok(
                self.assignments@[v].resolve_literal,
            ))
        &&& self.assignments@.len() <= 0x8000_0000
    }

    /// The status so far.
    pub fn status(&self) -> (r: Status)
        ensures
            r == self.spec_status(),
    {
        self.status
    }

    /// The search is over once the status is decided.
    pub fn finished(&self) -> (r: bool)
        ensures
            r == (self.spec_status() != Status::Unknown),
    {
        match self.status {
            Status::Unknown => false,
            _ => true,
        }
    }

    /// The clause the next step will take up, if any remains.
    pub fn next_clause_index(&self) -> (r: Option<usize>)
        requires
            self.wf(),
        ensures
            match r {
                Some(i) => self.depth() < self.spec_clauses().len() && i == self.depth(),
                None => self.depth() >= self.spec_clauses().len(),
            },
    {
        if self.stack.len() == self.clauses.len() {
            None
        } else {
            Some(self.stack.len())
        }
    }

    /// Marks the frame on top of the stack as satisfied.
    fn mark_satisfied(&mut self)
        requires
            old(self).wf(),
            old(self).depth() > 0,
        ensures
            final(self).wf(),
            final(self).spec_status() == old(self).spec_status(),
            final(self).depth() == old(self).depth(),
            final(self).assigns() == old(self).assigns(),
            final(self).n_vars() == old(self).n_vars(),
            final(self).spec_clauses() == old(self).spec_clauses(),
    {
        let k = self.stack.len() - 1;
        let mut f = self.stack[k];
        f.satisfied = true;
        self.stack.set(k, f);
        proof {
            assert(final(self).assigns() =~= old(self).assigns());
            assert(final(self).spec_clauses() =~= old(self).spec_clauses());
        }
    }

    /// Records a value for the variable of `literal`, justified by
    /// `resolve_literal` at `resolve_depth`.
    fn assign(&mut self, literal: i32, resolve_literal: i32, resolve_depth: usize)
        requires
            old(self).wf(),
            old(self).lit_ok(literal),
            resolve_depth > 0 ==> old(self).lit_ok(resolve_literal),
        ensures
            final(self).wf(),
            final(self).spec_status() == old(self).spec_status(),
            final(self).depth() == old(self).depth(),
            final(self).spec_clauses() == old(self).spec_clauses(),
            final(self).n_vars() == old(self).n_vars(),
            final(self).value_at(lit_var(literal)) == Some(literal > 0),
            forall|v: int|
                0 <= v < old(self).n_vars() && v != lit_var(literal)
                    ==> final(self).assigns()[v] == old(self).assigns()[v],
            final(self).assigns()[lit_var(literal)] == (
                Some(literal > 0),
                resolve_literal,
                resolve_depth,
            ),
    {
        let var = if literal >= 0 {
            literal as usize
        } else {
            (-(literal as i64)) as usize
        };
        self.assignments.set(
            var,
            Assignment { value: Some(literal > 0), resolve_literal, resolve_depth },
        );
        proof {
            assert(final(self).spec_clauses() =~= old(self).spec_clauses());
            assert(final(self).assigns()[lit_var(literal)] == (
                Some(literal > 0),
                resolve_literal,
                resolve_depth,
            ));
        }
    }

    /// Jumps back on a conflict resolved at `resolve_depth`: drops every
    /// frame from that level on, so the clause whose decision is being
    /// revised is examined afresh, and flips the conflicting literal,
    /// justified by that level's own resolution data (gathered at
    /// shallower depths).
    fn back_jump(&mut self, resolve_literal: i32, resolve_depth: usize)
        requires
            old(self).wf(),
            old(self).lit_ok(resolve_literal),
            0 < resolve_depth <= old(self).depth(),
        ensures
            final(self).wf(),
            final(self).spec_status() == old(self).spec_status(),
            final(self).spec_clauses() == old(self).spec_clauses(),
            final(self).n_vars() == old(self).n_vars(),
            final(self).depth() == resolve_depth - 1,
            (final(self).assigns()[lit_var(resolve_literal)]).0 == Some(resolve_literal > 0),
            forall|v: int|
                0 <= v < old(self).n_vars() && v != lit_var(resolve_literal)
                    ==> final(self).assigns()[v] == old(self).assigns()[v],
    {
        let f = self.stack[resolve_depth - 1];
        self.stack.truncate(resolve_depth - 1);
        self.assign(resolve_literal, f.resolve_literal, f.resolve_depth);
    }

    /// Whether `literal` is satisfied (`Some(true)`), falsified
    /// (`Some(false)`), or unassigned (`None`), counting only assignments
    /// justified at depth `bound` or shallower.
    fn literal_state(&self, literal: i32, bound: usize) -> (r: (Option<bool>, i32, usize))
        requires
            self.wf(),
            self.lit_ok(literal),
        ensures
            ({
                let v = lit_var(literal);
                let a = self.assigns()[v];
                if a.0 is Some && a.2 <= bound {
                    r.0 == Some(a.0.unwrap() == (literal > 0)) && r.1 == a.1 && r.2 == a.2
                } else {
                    r.0 is None
                }
            }),
    {
        let var = if literal >= 0 {
            literal as usize
        } else {
            (-(literal as i64)) as usize
        };
        let a = self.assignments[var];
        match a.value {
            Some(value) => {
                if a.resolve_depth <= bound {
                    (Some(value == (literal > 0)), a.resolve_literal, a.resolve_depth)
                } else {
                    (None, 0, 0)
                }
            },
            None => (None, 0, 0),
        }
    }

    /// A literal the assignment table makes true, read exactly as the
    /// witness reads it: by value, depth stamps ignored.
    pub open spec fn lit_matched(self, l: i32) -> bool {
        self.lit_ok(l) && (self.assigns()[lit_var(l)]).0 == Some(l > 0)
    }

    /// Clause `i` holds a literal the assignment table makes true.
    pub open spec fn clause_matched(self, i: int) -> bool {
        exists|j: int|
            0 <= j < self.spec_clauses()[i].len() && self.lit_matched(
                #[trigger] self.spec_clauses()[i][j],
            )
    }

    /// A literal falsified by a root-level assignment: opposite value,
    /// justified at depth zero.
    pub open spec fn lit_false_at_root(self, l: i32) -> bool {
        &&& self.lit_ok(l)
        &&& (self.assigns()[lit_var(l)]).0 == Some(!(l > 0))
        &&& (self.assigns()[lit_var(l)]).2 == 0
    }

    /// Every literal of clause `i` is falsified at the root level.
    pub open spec fn clause_false_at_root(self, i: int) -> bool {
        forall|j: int|
            0 <= j < self.spec_clauses()[i].len() ==> self.lit_false_at_root(
                #[trigger] self.spec_clauses()[i][j],
            )
    }

    /// Index of a clause the current values do not satisfy, if any.
    fn find_unmatched(&self) -> (r: Option<usize>)
        requires
            self.wf(),
        ensures
            match r {
                None => forall|i: int|
                    0 <= i < self.spec_clauses().len() ==> #[trigger] self.clause_matched(i),
                Some(c) => c < self.spec_clauses().len() && !self.clause_matched(c as int),
            },
    {
        let nc = self.clauses.len();
        let mut i: usize = 0;
        while i < nc
            invariant
                self.wf(),
                nc == self.spec_clauses().len(),
                i <= nc,
                forall|i2: int| 0 <= i2 < i ==> #[trigger] self.clause_matched(i2),
            decreases nc - i,
        {
            let clause = &self.clauses[i];
            let m = clause.len();
            let mut matched = false;
            let mut j: usize = 0;
            while j < m
                invariant
                    self.wf(),
                    i < nc,
                    nc == self.spec_clauses().len(),
                    m == self.spec_clauses()[i as int].len(),
                    clause@ == self.spec_clauses()[i as int],
                    j <= m,
                    matched ==> self.clause_matched(i as int),
                    !matched ==> forall|j2: int|
                        0 <= j2 < j ==> !self.lit_matched(
                            #[trigger] self.spec_clauses()[i as int][j2],
                        ),
                decreases m - j,
            {
                let l = clause[j];
                let var = if l >= 0 {
                    l as usize
                } else {
                    (-(l as i64)) as usize
                };
                let hit = match self.assignments[var].value {
                    Some(value) => value == (l > 0),
                    None => false,
                };
                if hit {
                    proof {
                        assert(self.lit_matched(self.spec_clauses()[i as int][j as int]));
                        assert(self.clause_matched(i as int));
                    }
                    matched = true;
                }
                j = j + 1;
            }
            if !matched {
                proof {
                    assert(!self.clause_matched(i as int));
                }
                return Some(i);
            }
            i = i + 1;
        }
        None
    }

    /// One step of the search: examine the next clause and advance.
    /// From `Unknown` a step decides the status, frames one more clause, or
    /// strictly shrinks the stack to re-examine a clause.  The status is
    /// only ever decided for cause: `Sat` when the assignment satisfies
    /// every clause, `Unsat` when some clause is falsified at the root
    /// level.
    #[verifier::rlimit(100)]
    #[verifier::spinoff_prover]
    pub fn step(&mut self)
        requires
            old(self).wf(),
        ensures
            final(self).wf(),
            final(self).spec_clauses() == old(self).spec_clauses(),
            final(self).n_vars() == old(self).n_vars(),
            old(self).spec_status() != Status::Unknown ==> *final(self) == *old(self),
            old(self).spec_status() == Status::Unknown ==> (final(self).spec_status()
                != Status::Unknown || final(self).depth() == old(self).depth() + 1 || final(self).depth() < old(self).depth()),
            final(self).spec_status() == Status::Sat && old(self).spec_status() != Status::Sat
                ==> forall|i: int|
                0 <= i < final(self).spec_clauses().len() ==> #[trigger] final(self).clause_matched(i),
            final(self).spec_status() == Status::Unsat && old(self).spec_status()
                != Status::Unsat ==> exists|i: int|
                0 <= i < final(self).spec_clauses().len() && #[trigger] final(self).clause_false_at_root(i),
    {
        if self.finished() {
            return ;
        }
        let clause_index = match self.next_clause_index() {
            Some(i) => i,
            None => {
                // every clause is framed: declare satisfaction only after
                // verifying it against the values the witness will emit
                let unmatched = self.find_unmatched();
                match unmatched {
                    None => {
                        let ghost checked = *self;
                        self.status = Status::Sat;
                        proof {
                            assert(final(self).spec_clauses() =~= old(self).spec_clauses());
                            assert(final(self).assigns() =~= old(self).assigns());
                            assert forall|i: int|
                                0 <= i < final(self).spec_clauses().len() implies #[trigger] final(self).clause_matched(i) by {
                                assert(checked.clause_matched(i));
                                let j = choose|j: int|
                                    0 <= j < checked.spec_clauses()[i].len()
                                        && checked.lit_matched(
                                        #[trigger] checked.spec_clauses()[i][j],
                                    );
                                assert(self.spec_clauses()[i][j] == checked.spec_clauses()[i][j]);
                                assert(self.lit_matched(self.spec_clauses()[i][j]));
                            }
                        }
                    },
                    Some(c) => {
                        // a framed clause lost its support to a later flip:
                        // take it up again
                        self.stack.truncate(c);
                        proof {
                            assert(final(self).spec_clauses() =~= old(self).spec_clauses());
                            assert(final(self).assigns() =~= old(self).assigns());
                            assert(final(self).depth() < old(self).depth());
                        }
                    },
                }
                return ;
            },
        };
        self.stack.push(
            Frame {
                satisfied: false,
                clause_index,
                guess_index: 0,
                resolve_literal: 0,
                resolve_depth: 0,
            },
        );
        let ghost pushed = *self;
        let n = self.clauses[clause_index].len();
        let mut satisfied = false;
        let mut unassigned: i32 = 0;
        let mut have_unassigned = false;
        let mut res_lit: i32 = 0;
        let mut res_depth: usize = 0;
        let mut is_final = false;
        let mut i: usize = 0;
        while i < n
            invariant
                self.wf(),
                *self == pushed,
                pushed.spec_status() == Status::Unknown,
                self.depth() > 0,
                self.depth() <= self.spec_clauses().len(),
                clause_index < self.spec_clauses().len(),
                clause_index + 1 == self.depth(),
                n == self.spec_clauses()[clause_index as int].len(),
                i <= n,
                have_unassigned ==> self.lit_ok(unassigned),
                res_depth > 0 ==> self.lit_ok(res_lit),
                res_depth <= clause_index,
                !satisfied && !have_unassigned ==> forall|j: int|
                    0 <= j < i ==> self.lit_false_within(
                        #[trigger] self.spec_clauses()[clause_index as int][j],
                        res_depth as int,
                    ),
            ensures
                self.wf(),
                *self == pushed,
                have_unassigned ==> self.lit_ok(unassigned),
                res_depth > 0 ==> self.lit_ok(res_lit),
                res_depth <= clause_index,
                i <= n,
                !satisfied && !have_unassigned ==> forall|j: int|
                    0 <= j < n ==> self.lit_false_within(
                        #[trigger] self.spec_clauses()[clause_index as int][j],
                        res_depth as int,
                    ),
            decreases n - i,
        {
            let literal = self.clauses[clause_index][i];
            let st = self.literal_state(literal, clause_index);
            match st.0 {
                Some(true) => {
                    satisfied = true;
                    break ;
                },
                Some(false) => {
                    if st.2 > res_depth {
                        res_depth = st.2;
                        res_lit = st.1;
                    }
                    proof {
                        assert(self.lit_false_within(
                            self.spec_clauses()[clause_index as int][i as int],
                            res_depth as int,
                        ));
                    }
                },
                None => {
                    unassigned = literal;
                    have_unassigned = true;
                    is_final = i + 1 == n;
                    break ;
                },
            }
            i = i + 1;
        }
        let ghost scanned = *self;
        let k = self.stack.len() - 1;
        let mut top = self.stack[k];
        top.guess_index = i;
        top.resolve_literal = res_lit;
        top.resolve_depth = res_depth;
        self.stack.set(k, top);
        proof {
            assert(self.assigns() =~= scanned.assigns());
            assert(self.spec_clauses() =~= scanned.spec_clauses());
        }
        if satisfied {
            self.mark_satisfied();
            return ;
        }
        if have_unassigned {
            if is_final {
                // the last literal standing: a propagation through resolution
                self.assign(unassigned, res_lit, res_depth);
            } else {
                // a decision at the current depth
                let d = self.stack.len();
                let neg = -unassigned;
                self.assign(unassigned, neg, d);
            }
            proof {
                assert(final(self).depth() == old(self).depth() + 1);
            }
            return ;
        }
        // conflict: nothing satisfied and nothing left to assign
        if res_depth == 0 {
            self.status = Status::Unsat;
            proof {
                assert(final(self).clause_false_at_root(clause_index as int)) by {
                    assert forall|j: int|
                        0 <= j < final(self).spec_clauses()[clause_index as int].len()
                            implies final(self).lit_false_at_root(
                        #[trigger] final(self).spec_clauses()[clause_index as int][j],
                    ) by {
                        assert(scanned.lit_false_within(
                            scanned.spec_clauses()[clause_index as int][j],
                            0,
                        ));
                    }
                }
            }
            return ;
        }
        self.back_jump(res_lit, res_depth);
        proof {
            assert(final(self).depth() < old(self).depth());
        }
    }

    /// A literal falsified by an assignment justified at depth `d` or
    /// shallower.
    pub open spec fn lit_false_within(self, l: i32, d: int) -> bool {
        &&& self.lit_ok(l)
        &&& (self.assigns()[lit_var(l)]).0 == Some(!(l > 0))
        &&& (self.assigns()[lit_var(l)]).2 <= d
    }

    /// Builds a solver from a DIMACS reader: clauses are read, sorted and
    /// deduplicated within themselves, and the assignment table is sized by
    /// the largest variable.
    #[verifier::rlimit(100)]
    #[verifier::spinoff_prover]
    pub fn from_dimacs(dimacs: Dimacs) -> (r: Solver)
        requires
            dimacs.inv(),
        ensures
            r.wf(),
            r.spec_status() == Status::Unknown,
            r.depth() == 0,
            forall|v: int| 0 <= v < r.n_vars() ==> (#[trigger] r.assigns()[v]).0 is None,
            forall|i: int, j: int|
                0 <= i < r.spec_clauses().len() && 0 <= j < r.spec_clauses()[i].len() - 1
                    ==> #[trigger] r.spec_clauses()[i][j] < r.spec_clauses()[i][j + 1],
            forall|i: int, j: int|
                0 <= i < j < r.spec_clauses().len() ==> (#[trigger] r.spec_clauses()[i]) != (
                #[trigger] r.spec_clauses()[j]),
            forall|i: int, j: int|
                0 <= i < j < r.spec_clauses().len() ==> (#[trigger] r.spec_clauses()[i]).len()
                    <= (#[trigger] r.spec_clauses()[j]).len(),
            forall|i: int|
                0 <= i < r.spec_clauses().len() ==> exists|j: int|
                    0 <= j < dimacs.remaining().len() && same_lits(
                        #[trigger] r.spec_clauses()[i],
                        dimacs.remaining()[j],
                    ),
            forall|j: int|
                0 <= j < dimacs.remaining().len() ==> exists|i: int|
                    0 <= i < r.spec_clauses().len() && same_lits(
                        r.spec_clauses()[i],
                        #[trigger] dimacs.remaining()[j],
                    ),
            r.n_vars() == max_var_clauses(
                r.spec_clauses(),
                r.spec_clauses().len() as int,
            ) + 1,
    {
        let mut d = dimacs;
        let ghost rem0 = dimacs.remaining();
        let mut clauses: Vec<Vec<i32>> = Vec::new();
        let mut literals: Vec<i32> = Vec::new();
        loop
            invariant
                d.inv(),
                clauses@.len() + d.remaining().len() == rem0.len(),
                forall|i: int|
                    0 <= i < d.remaining().len() ==> #[trigger] d.remaining()[i] == rem0[i
                        + clauses@.len()],
                forall|i: int|
                    0 <= i < clauses@.len() ==> same_lits(
                        (#[trigger] clauses@[i])@,
                        rem0[i],
                    ),
                forall|i: int, j: int|
                    0 <= i < clauses@.len() && 0 <= j < clauses@[i]@.len() ==> ({
                        let l = #[trigger] clauses@[i]@[j];
                        l != 0 && l != i32::MIN
                    }),
                forall|i: int, j: int|
                    0 <= i < clauses@.len() && 0 <= j < clauses@[i]@.len() - 1
                        ==> #[trigger] clauses@[i]@[j] < clauses@[i]@[j + 1],
            ensures
                clauses@.len() == rem0.len(),
                forall|i: int|
                    0 <= i < clauses@.len() ==> same_lits((#[trigger] clauses@[i])@, rem0[i]),
                forall|i: int, j: int|
                    0 <= i < clauses@.len() && 0 <= j < clauses@[i]@.len() ==> ({
                        let l = #[trigger] clauses@[i]@[j];
                        l != 0 && l != i32::MIN
                    }),
                forall|i: int, j: int|
                    0 <= i < clauses@.len() && 0 <= j < clauses@[i]@.len() - 1
                        ==> #[trigger] clauses@[i]@[j] < clauses@[i]@[j + 1],
            decreases d.remaining().len(),
        {
            let ghost d0 = d;
            let more = d.next(&mut literals);
            if !more {
                break ;
            }
            proof {
                lemma_remaining_lits_wf(d0.text(), d0.at());
                assert(literals@ == d0.remaining()[0]);
                assert forall|k: int|
                    0 <= k < literals@.len() implies (#[trigger] literals@[k]) != 0
                    && -2147483647 <= literals@[k] <= 2147483647 by {
                    assert(d0.remaining()[0][k] == literals@[k]);
                }
            }
            let ghost lits_pre = literals@;
            sort_clause(&mut literals);
            let cl = dedup_sorted(&literals);
            proof {
                assert forall|k: int|
                    0 <= k < cl@.len() implies ({
                    let l = #[trigger] cl@[k];
                    l != 0 && -2147483647 <= l <= 2147483647
                }) by {
                    assert(literals@.contains(cl@[k]));
                    let i1 = choose|i1: int| 0 <= i1 < literals@.len() && literals@[i1] == cl@[k];
                    assert(lits_pre.contains(literals@[i1]));
                    let i2 = choose|i2: int| 0 <= i2 < lits_pre.len() && lits_pre[i2]
                        == literals@[i1];
                }
            }
            let ghost cls0 = clauses@;
            clauses.push(cl);
            proof {
                assert(same_lits(cl@, rem0[cls0.len() as int])) by {
                    assert(same_lits(cl@, literals@));
                    assert(same_lits(literals@, lits_pre));
                    assert(lits_pre == d0.remaining()[0]);
                    assert(d0.remaining()[0] == rem0[cls0.len() as int]);
                }
                assert forall|i: int|
                    0 <= i < clauses@.len() implies same_lits(
                    (#[trigger] clauses@[i])@,
                    rem0[i],
                ) by {
                    if i < cls0.len() {
                        assert(clauses@[i] == cls0[i]);
                    } else {
                        assert(clauses@[i] == cl);
                    }
                }
                assert forall|i: int|
                    0 <= i < d.remaining().len() implies #[trigger] d.remaining()[i] == rem0[i
                    + clauses@.len()] by {
                    assert(d.remaining()[i] == d0.remaining().drop_first()[i]);
                }
                assert forall|i: int, j2: int|
                    0 <= i < clauses@.len() && 0 <= j2 < clauses@[i]@.len() implies ({
                    let l = #[trigger] clauses@[i]@[j2];
                    l != 0 && l != i32::MIN
                }) by {
                    if i < cls0.len() {
                        assert(clauses@[i] == cls0[i]);
                    } else {
                        assert(clauses@[i] == cl);
                    }
                }
                assert forall|i: int, j2: int|
                    0 <= i < clauses@.len() && 0 <= j2 < clauses@[i]@.len() - 1
                        implies #[trigger] clauses@[i]@[j2] < clauses@[i]@[j2 + 1] by {
                    if i < cls0.len() {
                        assert(clauses@[i] == cls0[i]);
                    } else {
                        assert(clauses@[i] == cl);
                    }
                }
            }
        }
        let (kept, gpos0) = dedup_indices(&clauses);
        let (keep, gpos) = sort_indices_by_len(&clauses, kept, gpos0);
        let ghost pos = gpos@;
        let mut out: Vec<Vec<i32>> = Vec::new();
        let mut p: usize = 0;
        while p < keep.len()
            invariant
                forall|q: int| 0 <= q < keep@.len() ==> (#[trigger] keep@[q]) < clauses@.len(),
                out@.len() == p,
                p <= keep@.len(),
                forall|q: int|
                    0 <= q < p ==> (#[trigger] out@[q])@ == (clauses@[keep@[q] as int])@,
            decreases keep@.len() - p,
        {
            let idx = keep[p];
            let c = copy_clause(&clauses[idx]);
            out.push(c);
            p = p + 1;
        }
        let ghost outs = Seq::new(out@.len(), |q: int| out@[q]@);
        let mut max: usize = 0;
        let mut ci: usize = 0;
        while ci < out.len()
            invariant
                outs == Seq::new(out@.len(), |q: int| out@[q]@),
                out@.len() == keep@.len(),
                forall|q: int| 0 <= q < keep@.len() ==> (#[trigger] keep@[q]) < clauses@.len(),
                forall|q: int|
                    0 <= q < out@.len() ==> (#[trigger] out@[q])@ == (clauses@[keep@[q]
                        as int])@,
                forall|i2: int, j2: int|
                    0 <= i2 < clauses@.len() && 0 <= j2 < clauses@[i2]@.len() ==> ({
                        let l = #[trigger] clauses@[i2]@[j2];
                        l != 0 && l != i32::MIN
                    }),
                ci <= out@.len(),
                max == max_var_clauses(outs, ci as int),
                max <= 0x7fff_ffff,
            decreases out@.len() - ci,
        {
            let ghost m0 = max;
            let mut j: usize = 0;
            let len_ci = out[ci].len();
            while j < len_ci
                invariant
                    outs == Seq::new(out@.len(), |q: int| out@[q]@),
                    out@.len() == keep@.len(),
                    forall|q: int|
                        0 <= q < keep@.len() ==> (#[trigger] keep@[q]) < clauses@.len(),
                    forall|q: int|
                        0 <= q < out@.len() ==> (#[trigger] out@[q])@ == (clauses@[keep@[q]
                            as int])@,
                    forall|i2: int, j2: int|
                        0 <= i2 < clauses@.len() && 0 <= j2 < clauses@[i2]@.len() ==> ({
                            let l = #[trigger] clauses@[i2]@[j2];
                            l != 0 && l != i32::MIN
                        }),
                    ci < out@.len(),
                    len_ci == out@[ci as int]@.len(),
                    j <= len_ci,
                    max as int == (if max_var_clause(outs[ci as int], j as int) > m0 as int {
                        max_var_clause(outs[ci as int], j as int)
                    } else {
                        m0 as int
                    }),
                    max <= 0x7fff_ffff,
                    m0 <= max,
                decreases len_ci - j,
            {
                let l = out[ci][j];
                proof {
                    assert(outs[ci as int] == out@[ci as int]@);
                    assert(out@[ci as int]@[j as int] == (clauses@[keep@[ci as int] as int])@[
                        j as int]);
                }
                let a = if l >= 0 {
                    l as i64
                } else {
                    -(l as i64)
                };
                if (a as usize) > max {
                    max = a as usize;
                }
                j = j + 1;
            }
            proof {
                assert(outs[ci as int] == out@[ci as int]@);
                assert(max as int == max_var_clauses(outs, ci + 1));
            }
            ci = ci + 1;
        }
        let mut assignments: Vec<Assignment> = Vec::new();
        let mut k: usize = 0;
        while k < max + 1
            invariant
                max <= 0x7fff_ffff,
                k <= max + 1,
                assignments@.len() == k,
                forall|v: int|
                    0 <= v < k ==> (#[trigger] assignments@[v]).value is None
                        && assignments@[v].resolve_depth == 0,
            decreases max + 1 - k,
        {
            assignments.push(Assignment { value: None, resolve_literal: 0, resolve_depth: 0 });
            k = k + 1;
        }
        let r = Solver { clauses: out, status: Status::Unknown, stack: Vec::new(), assignments };
        proof {
            assert(r.spec_clauses() =~= outs);
            assert forall|i: int, j: int|
                0 <= i < r.clauses@.len() && 0 <= j < r.clauses@[i]@.len() implies r.lit_ok(
                #[trigger] r.clauses@[i]@[j],
            ) by {
                assert(out@[i]@ == (clauses@[keep@[i] as int])@);
                assert(outs[i] == out@[i]@);
                lemma_max_var_clause_bound(outs[i], j, outs[i].len() as int);
                lemma_max_var_clauses_bound(outs, i, outs.len() as int);
            }
            assert forall|v: int|
                0 <= v < r.n_vars() implies (#[trigger] r.assigns()[v]).0 is None by {}
            assert forall|i: int, j: int|
                0 <= i < j < r.spec_clauses().len() implies (#[trigger] r.spec_clauses()[i]) != (
            #[trigger] r.spec_clauses()[j]) by {
                assert(r.spec_clauses()[i] == out@[i]@ && r.spec_clauses()[j] == out@[j]@);
                assert(out@[i]@ == (clauses@[keep@[i] as int])@ && out@[j]@ == (clauses@[keep@[
                j] as int])@);
            }
            assert forall|i: int, j: int|
                0 <= i < j < r.spec_clauses().len() implies (#[trigger] r.spec_clauses()[
            i]).len() <= (#[trigger] r.spec_clauses()[j]).len() by {
                assert(r.spec_clauses()[i] == out@[i]@ && r.spec_clauses()[j] == out@[j]@);
                assert(out@[i]@ == (clauses@[keep@[i] as int])@ && out@[j]@ == (clauses@[keep@[
                j] as int])@);
            }
            assert forall|i: int, j: int|
                0 <= i < r.spec_clauses().len() && 0 <= j < r.spec_clauses()[i].len() - 1
                    implies #[trigger] r.spec_clauses()[i][j] < r.spec_clauses()[i][j + 1] by {
                assert(r.spec_clauses()[i] == (clauses@[keep@[i] as int])@);
            }
            assert forall|i: int|
                0 <= i < r.spec_clauses().len() implies exists|j: int|
                    0 <= j < rem0.len() && same_lits(
                        #[trigger] r.spec_clauses()[i],
                        rem0[j],
                    ) by {
                let j = keep@[i] as int;
                assert(r.spec_clauses()[i] == (clauses@[j])@);
                assert(same_lits((clauses@[j])@, rem0[j]));
                assert(0 <= j < rem0.len() && same_lits(r.spec_clauses()[i], rem0[j]));
            }
            assert forall|j: int|
                0 <= j < rem0.len() implies exists|i: int|
                    0 <= i < r.spec_clauses().len() && same_lits(
                        r.spec_clauses()[i],
                        #[trigger] rem0[j],
                    ) by {
                let i = pos[j];
                assert(0 <= i < keep@.len() && (clauses@[keep@[i] as int])@ == (clauses@[j])@);
                assert(r.spec_clauses()[i] == out@[i]@ && out@[i]@ == (clauses@[keep@[i]
                    as int])@);
                assert(same_lits((clauses@[j])@, rem0[j]));
                assert(0 <= i < r.spec_clauses().len() && same_lits(r.spec_clauses()[i], rem0[
                j]));
            }
            assert(r.n_vars() == max + 1);
            assert(max as int == max_var_clauses(r.spec_clauses(), r.spec_clauses().len() as int));
        }
        r
    }

    /// Emits the assigned variables as signed literals.
    pub fn assignments(&mut self, literals: &mut Vec<i32>)
        requires
            old(self).wf(),
        ensures
            *final(self) == *old(self),
            final(literals)@ == old(literals)@ + witness_upto(
                old(self).assigns(),
                old(self).n_vars() as int,
            ),
    {
        let n = self.assignments.len();
        let mut v: usize = 0;
        proof {
            assert(literals@ =~= old(literals)@ + witness_upto(self.assigns(), 0));
        }
        while v < n
            invariant
                self.wf(),
                *self == *old(self),
                n == self.n_vars(),
                n <= 0x8000_0000,
                v <= n,
                literals@ == old(literals)@ + witness_upto(self.assigns(), v as int),
            decreases n - v,
        {
            let a = self.assignments[v];
            match a.value {
                Some(true) => {
                    literals.push(v as i32);
                },
                Some(false) => {
                    literals.push(-(v as i32));
                },
                None => {},
            }
            v = v + 1;
            proof {
                assert(witness_upto(self.assigns(), v as int) =~= witness_upto(
                    self.assigns(),
                    v - 1,
                ) + witness_one(self.assigns()[v - 1], v - 1));
                assert(literals@ =~= old(literals)@ + witness_upto(self.assigns(), v as int));
            }
        }
    }

    /// Whether the given literal set satisfies every clause: each clause
    /// shares at least one literal with the set.
    pub fn check(&self, literals: &Vec<i32>) -> (r: bool)
        ensures
            r == (forall|i: int|
                0 <= i < self.spec_clauses().len() ==> #[trigger] self.clause_sat(literals@, i)),
    {
        let nc = self.clauses.len();
        let mut i: usize = 0;
        while i < nc
            invariant
                nc == self.spec_clauses().len(),
                i <= nc,
                forall|i2: int| 0 <= i2 < i ==> #[trigger] self.clause_sat(literals@, i2),
            decreases nc - i,
        {
            let clause = &self.clauses[i];
            let m = clause.len();
            let mut sat = false;
            let mut j: usize = 0;
            while j < m
                invariant
                    i < nc,
                    nc == self.spec_clauses().len(),
                    m == self.spec_clauses()[i as int].len(),
                    clause@ == self.spec_clauses()[i as int],
                    j <= m,
                    sat ==> self.clause_sat(literals@, i as int),
                    !sat ==> forall|j2: int|
                        0 <= j2 < j ==> !literals@.contains(
                            #[trigger] self.spec_clauses()[i as int][j2],
                        ),
                decreases m - j,
            {
                if contains_lit(literals, clause[j]) {
                    proof {
                        assert(literals@.contains(self.spec_clauses()[i as int][j as int]));
                        assert(self.clause_sat(literals@, i as int));
                    }
                    sat = true;
                }
                j = j + 1;
            }
            if !sat {
                proof {
                    assert(!self.clause_sat(literals@, i as int));
                }
                return false;
            }
            i = i + 1;
        }
        true
    }

    /// Some literal of clause `i` is in `lits`.
    pub open spec fn clause_sat(self, lits: Seq<i32>, i: int) -> bool {
        exists|j: int|
            0 <= j < self.spec_clauses()[i].len() && lits.contains(
                #[trigger] self.spec_clauses()[i][j],
            )
    }
}

/// The literal a variable's record emits, if any.
pub open spec fn witness_one(a: (Option<bool>, i32, usize), v: int) -> Seq<i32> {
    match a.0 {
        Some(true) => seq![v as i32],
        Some(false) => seq![(-v) as i32],
        None => Seq::empty(),
    }
}

/// The literals emitted for the first `k` variables.
pub open spec fn witness_upto(assigns: Seq<(Option<bool>, i32, usize)>, k: int) -> Seq<i32>
    decreases k,
{
    if k <= 0 {
        Seq::empty()
    } else {
        witness_upto(assigns, k - 1) + witness_one(assigns[k - 1], k - 1)
    }
}

/// Linear membership test.
fn contains_lit(v: &Vec<i32>, x: i32) -> (r: bool)
    ensures
        r == v@.contains(x),
{
    let n = v.len();
    let mut i: usize = 0;
    while i < n
        invariant
            n == v@.len(),
            i <= n,
            forall|k: int| 0 <= k < i ==> v@[k] != x,
        decreases n - i,
    {
        if v[i] == x {
            return true;
        }
        i = i + 1;
    }
    false
}

/// Sorts a clause in place, ascending; the elements are drawn from the old
/// contents.
fn sort_clause(v: &mut Vec<i32>)
    ensures
        final(v)@.len() == old(v)@.len(),
        forall|i: int, j: int| 0 <= i < j < final(v)@.len() ==> final(v)@[i] <= final(v)@[j],
        same_lits(final(v)@, old(v)@),
{
    let n = v.len();
    let mut i: usize = 0;
    while i < n
        invariant
            n == v@.len(),
            i <= n,
            forall|a: int, b: int| 0 <= a < b < i ==> v@[a] <= v@[b],
            forall|a: int, b: int| 0 <= a < i && i <= b < n ==> v@[a] <= v@[b],
            same_lits(v@, old(v)@),
        decreases n - i,
    {
        let mut m = i;
        let mut j = i + 1;
        while j < n
            invariant
                n == v@.len(),
                i <= m < n,
                i < n,
                i + 1 <= j <= n,
                forall|k: int| i <= k < j ==> v@[m as int] <= v@[k],
            decreases n - j,
        {
            if v[j] < v[m] {
                m = j;
            }
            j = j + 1;
        }
        let ghost v0 = v@;
        let a = v[i];
        let b = v[m];
        v.set(i, b);
        v.set(m, a);
        proof {
            assert forall|x: i32| v@.contains(x) <==> v0.contains(x) by {
                if v@.contains(x) {
                    let k = choose|k: int| 0 <= k < v@.len() && v@[k] == x;
                    if k == i {
                        assert(v0[m as int] == x);
                    } else if k == m {
                        assert(v0[i as int] == x);
                    } else {
                        assert(v0[k] == x);
                    }
                }
                if v0.contains(x) {
                    let k = choose|k: int| 0 <= k < v0.len() && v0[k] == x;
                    if k == i {
                        assert(v@[m as int] == x);
                    } else if k == m {
                        assert(v@[i as int] == x);
                    } else {
                        assert(v@[k] == x);
                    }
                }
            }
        }
        i = i + 1;
    }
}

/// Removes adjacent duplicates from a sorted clause: the result is strictly
/// ascending and drawn from the input.
fn dedup_sorted(v: &Vec<i32>) -> (r: Vec<i32>)
    requires
        forall|i: int, j: int| 0 <= i < j < v@.len() ==> v@[i] <= v@[j],
    ensures
        forall|i: int, j: int| 0 <= i < j < r@.len() ==> r@[i] < r@[j],
        forall|i: int| 0 <= i < r@.len() ==> v@.contains(#[trigger] r@[i]),
        v@.len() > 0 ==> r@.len() > 0,
        forall|i: int| 0 <= i < v@.len() ==> r@.contains(#[trigger] v@[i]),
        same_lits(r@, v@),
{
    let n = v.len();
    let mut out: Vec<i32> = Vec::new();
    let mut i: usize = 0;
    while i < n
        invariant
            n == v@.len(),
            forall|a: int, b: int| 0 <= a < b < n ==> v@[a] <= v@[b],
            i <= n,
            forall|a: int, b: int| 0 <= a < b < out@.len() ==> out@[a] < out@[b],
            forall|k: int| 0 <= k < out@.len() ==> v@.contains(#[trigger] out@[k]),
            i > 0 ==> out@.len() > 0 && out@.last() == v@[i - 1],
            forall|k: int| 0 <= k < i ==> out@.contains(#[trigger] v@[k]),
            out@.len() <= i,
        decreases n - i,
    {
        let x = v[i];
        let push_it = if out.len() == 0 {
            true
        } else {
            out[out.len() - 1] != x
        };
        let ghost out0 = out@;
        if push_it {
            proof {
                assert forall|a: int, b: int|
                    0 <= a < b < out@.len() + 1 implies (out@.push(x))[a] < (out@.push(x))[b] by {
                    if b == out@.len() {
                        if out@.len() > 0 {
                            assert(out@.last() == v@[i - 1]);
                            assert(v@[i - 1] <= v@[i as int]);
                            if a < out@.len() - 1 {
                                assert(out@[a] < out@[out@.len() - 1]);
                            }
                        }
                    }
                }
            }
            out.push(x);
        }
        proof {
            assert(out@.len() > 0);
            assert(out@[out@.len() - 1] == x);
            assert(out@.contains(x));
        }
        i = i + 1;
        proof {
            assert forall|k: int| 0 <= k < i implies out@.contains(#[trigger] v@[k]) by {
                if k == i - 1 {
                    assert(v@[k] == x);
                } else {
                    assert(out0.contains(v@[k]));
                    let idx = choose|idx: int| 0 <= idx < out0.len() && out0[idx] == v@[k];
                    assert(out@[idx] == v@[k]);
                }
            }
            assert forall|k: int| 0 <= k < out@.len() implies v@.contains(#[trigger] out@[k]) by {
                if k < out0.len() {
                    assert(out0.contains(out@[k]) || v@.contains(out@[k]));
                    assert(out0[k] == out@[k]);
                } else {
                    assert(out@[k] == x);
                    assert(v@[i - 1] == x);
                }
            }
        }
    }
    proof {
        assert forall|x: i32| out@.contains(x) <==> v@.contains(x) by {
            if out@.contains(x) {
                let k = choose|k: int| 0 <= k < out@.len() && out@[k] == x;
                assert(v@.contains(out@[k]));
            }
            if v@.contains(x) {
                let k = choose|k: int| 0 <= k < v@.len() && v@[k] == x;
                assert(out@.contains(v@[k]));
            }
        }
    }
    out
}


/// A literal the table makes true occurs in the emitted witness.
proof fn lemma_witness_contains(assigns: Seq<(Option<bool>, i32, usize)>, k: int, v: int, b: bool)
    requires
        0 <= v < k,
        k <= 0x8000_0000,
        k <= assigns.len(),
        assigns[v].0 == Some(b),
    ensures
        witness_upto(assigns, k).contains(
            if b {
                v as i32
            } else {
                (-v) as i32
            },
        ),
    decreases k,
{
    let lit: i32 = if b {
        v as i32
    } else {
        (-v) as i32
    };
    if v == k - 1 {
        let w = witness_upto(assigns, k - 1);
        assert(witness_upto(assigns, k) == w + witness_one(assigns[k - 1], k - 1));
        assert(witness_one(assigns[k - 1], k - 1) == seq![lit]);
        assert(witness_upto(assigns, k)[w.len() as int] == lit);
    } else {
        lemma_witness_contains(assigns, k - 1, v, b);
        let idx = choose|idx: int|
            0 <= idx < witness_upto(assigns, k - 1).len() && #[trigger] witness_upto(
                assigns,
                k - 1,
            )[idx] == lit;
        assert(witness_upto(assigns, k)[idx] == lit);
    }
}

/// A satisfiable verdict round-trips through its witness: when every
/// clause holds a literal the assignment makes true — what `step`
/// guarantees whenever it decides `Sat` — every clause shares a literal
/// with the witness that `assignments` emits, which is exactly the
/// condition `check` accepts.
pub proof fn lemma_sat_witness_checks(s: Solver)
    requires
        s.wf(),
        forall|i: int| 0 <= i < s.spec_clauses().len() ==> #[trigger] s.clause_matched(i),
    ensures
        forall|i: int|
            0 <= i < s.spec_clauses().len() ==> #[trigger] s.clause_sat(
                witness_upto(s.assigns(), s.n_vars() as int),
                i,
            ),
{
    assert forall|i: int|
        0 <= i < s.spec_clauses().len() implies #[trigger] s.clause_sat(
        witness_upto(s.assigns(), s.n_vars() as int),
        i,
    ) by {
        assert(s.clause_matched(i));
        let j = choose|j: int|
            0 <= j < s.spec_clauses()[i].len() && s.lit_matched(
                #[trigger] s.spec_clauses()[i][j],
            );
        let l = s.spec_clauses()[i][j];
        let v = lit_var(l);
        lemma_witness_contains(s.assigns(), s.n_vars() as int, v, l > 0);
        if l > 0 {
            assert(v as i32 == l);
        } else {
            assert((-v) as i32 == l);
        }
        assert(witness_upto(s.assigns(), s.n_vars() as int).contains(l));
    }
}



/// Element-wise equality of two clauses.
fn eq_clause(a: &Vec<i32>, b: &Vec<i32>) -> (r: bool)
    ensures
        r == (a@ == b@),
{
    if a.len() != b.len() {
        proof {
            assert(a@ != b@);
        }
        return false;
    }
    let n = a.len();
    let mut i: usize = 0;
    while i < n
        invariant
            n == a@.len() && n == b@.len(),
            i <= n,
            forall|k: int| 0 <= k < i ==> a@[k] == b@[k],
        decreases n - i,
    {
        if a[i] != b[i] {
            proof {
                assert(a@ != b@);
            }
            return false;
        }
        i = i + 1;
    }
    proof {
        assert(a@ =~= b@);
    }
    true
}

/// A fresh copy of a clause.
fn copy_clause(v: &Vec<i32>) -> (r: Vec<i32>)
    ensures
        r@ == v@,
{
    let n = v.len();
    let mut r: Vec<i32> = Vec::new();
    let mut i: usize = 0;
    while i < n
        invariant
            n == v@.len(),
            i <= n,
            r@ == v@.subrange(0, i as int),
        decreases n - i,
    {
        r.push(v[i]);
        proof {
            assert(r@ =~= v@.subrange(0, i + 1));
        }
        i = i + 1;
    }
    proof {
        assert(r@ =~= v@);
    }
    r
}

/// Positions of the first occurrences of the distinct clauses, in order,
/// together with a ghost table sending every clause to the position whose
/// clause reads the same.
#[verifier::rlimit(100)]
#[verifier::spinoff_prover]
fn dedup_indices(clauses: &Vec<Vec<i32>>) -> (r: (Vec<usize>, Ghost<Seq<int>>))
    ensures
        forall|p: int| 0 <= p < r.0@.len() ==> (#[trigger] r.0@[p]) < clauses@.len(),
        forall|p1: int, p2: int|
            0 <= p1 < p2 < r.0@.len() ==> (clauses@[r.0@[p1] as int])@ != (clauses@[r.0@[p2]
                as int])@,
        r.1@.len() == clauses@.len(),
        forall|j: int|
            0 <= j < clauses@.len() ==> 0 <= (#[trigger] r.1@[j]) < r.0@.len() && (clauses@[
            r.0@[r.1@[j]] as int])@ == (clauses@[j])@,
{
    let n = clauses.len();
    let mut keep: Vec<usize> = Vec::new();
    let ghost mut pos: Seq<int> = Seq::<int>::empty();
    let mut j: usize = 0;
    while j < n
        invariant
            n == clauses@.len(),
            j <= n,
            forall|p: int| 0 <= p < keep@.len() ==> (#[trigger] keep@[p]) < n,
            forall|p1: int, p2: int|
                0 <= p1 < p2 < keep@.len() ==> (clauses@[keep@[p1] as int])@ != (clauses@[
                keep@[p2] as int])@,
            pos.len() == j,
            forall|j2: int|
                0 <= j2 < j ==> 0 <= (#[trigger] pos[j2]) < keep@.len() && (clauses@[keep@[
                pos[j2]] as int])@ == (clauses@[j2])@,
        decreases n - j,
    {
        let mut dup = false;
        let mut dp: usize = 0;
        let mut p: usize = 0;
        while p < keep.len()
            invariant
                n == clauses@.len(),
                j < n,
                p <= keep@.len(),
                forall|p2: int| 0 <= p2 < keep@.len() ==> (#[trigger] keep@[p2]) < n,
                dup ==> dp < keep@.len() && (clauses@[keep@[dp as int] as int])@ == (clauses@[
                j as int])@,
                !dup ==> forall|p2: int|
                    0 <= p2 < p ==> (clauses@[#[trigger] keep@[p2] as int])@ != (clauses@[
                    j as int])@,
            decreases keep@.len() - p,
        {
            if !dup && eq_clause(&clauses[keep[p]], &clauses[j]) {
                dup = true;
                dp = p;
            }
            p = p + 1;
        }
        let ghost keep0 = keep@;
        if dup {
            proof {
                pos = pos.push(dp as int);
            }
        } else {
            keep.push(j);
            proof {
                pos = pos.push(keep@.len() - 1);
            }
        }
        j = j + 1;
        proof {
            assert forall|p1: int, p2: int|
                0 <= p1 < p2 < keep@.len() implies (clauses@[keep@[p1] as int])@ != (clauses@[
            keep@[p2] as int])@ by {
                if p2 < keep0.len() {
                    assert(keep@[p1] == keep0[p1] && keep@[p2] == keep0[p2]);
                } else {
                    assert(keep@[p1] == keep0[p1] && keep@[p2] == j - 1);
                }
            }
            assert forall|j2: int|
                0 <= j2 < j implies 0 <= (#[trigger] pos[j2]) < keep@.len() && (clauses@[keep@[
            pos[j2]] as int])@ == (clauses@[j2])@ by {
                if j2 < j - 1 {
                    assert(keep@[pos[j2]] == keep0[pos[j2]]);
                } else {
                    if dup {
                        assert(pos[j2] == dp as int && keep@[pos[j2]] == keep0[dp as int]);
                    } else {
                        assert(keep@[pos[j2]] == j2);
                    }
                }
            }
        }
    }
    (keep, Ghost(pos))
}

/// Reorders clause positions so the clauses come shortest first; the
/// positions keep pointing at pairwise distinct clauses, and the ghost
/// table is remapped so it still covers every input clause.
#[verifier::rlimit(100)]
#[verifier::spinoff_prover]
fn sort_indices_by_len(clauses: &Vec<Vec<i32>>, keep: Vec<usize>, gpos: Ghost<Seq<int>>) -> (r: (
    Vec<usize>,
    Ghost<Seq<int>>,
))
    requires
        forall|p: int| 0 <= p < keep@.len() ==> (#[trigger] keep@[p]) < clauses@.len(),
        forall|p1: int, p2: int|
            0 <= p1 < p2 < keep@.len() ==> (clauses@[keep@[p1] as int])@ != (clauses@[keep@[p2]
                as int])@,
        gpos@.len() == clauses@.len(),
        forall|j: int|
            0 <= j < clauses@.len() ==> 0 <= (#[trigger] gpos@[j]) < keep@.len() && (clauses@[
            keep@[gpos@[j]] as int])@ == (clauses@[j])@,
    ensures
        r.0@.len() == keep@.len(),
        forall|p: int| 0 <= p < r.0@.len() ==> (#[trigger] r.0@[p]) < clauses@.len(),
        forall|p1: int, p2: int|
            0 <= p1 < p2 < r.0@.len() ==> (clauses@[r.0@[p1] as int])@.len() <= (clauses@[
            r.0@[p2] as int])@.len(),
        forall|p1: int, p2: int|
            0 <= p1 < p2 < r.0@.len() ==> (clauses@[r.0@[p1] as int])@ != (clauses@[r.0@[p2]
                as int])@,
        r.1@.len() == clauses@.len(),
        forall|j: int|
            0 <= j < clauses@.len() ==> 0 <= (#[trigger] r.1@[j]) < r.0@.len() && (clauses@[
            r.0@[r.1@[j]] as int])@ == (clauses@[j])@,
{
    let mut v = keep;
    let ghost mut pos: Seq<int> = gpos@;
    let n = v.len();
    let mut i: usize = 0;
    while i < n
        invariant
            n == v@.len(),
            i <= n,
            forall|p: int| 0 <= p < n ==> (#[trigger] v@[p]) < clauses@.len(),
            forall|a: int, b: int|
                0 <= a < b < i ==> (clauses@[v@[a] as int])@.len() <= (clauses@[v@[b]
                    as int])@.len(),
            forall|a: int, b: int|
                0 <= a < i && i <= b < n ==> (clauses@[v@[a] as int])@.len() <= (clauses@[
                v@[b] as int])@.len(),
            forall|a: int, b: int|
                0 <= a < b < n ==> (clauses@[v@[a] as int])@ != (clauses@[v@[b] as int])@,
            pos.len() == clauses@.len(),
            forall|j: int|
                0 <= j < clauses@.len() ==> 0 <= (#[trigger] pos[j]) < n && (clauses@[v@[
                pos[j]] as int])@ == (clauses@[j])@,
        decreases n - i,
    {
        let mut m = i;
        let mut q = i + 1;
        while q < n
            invariant
                n == v@.len(),
                i <= m < n,
                i < n,
                i + 1 <= q <= n,
                forall|p: int| 0 <= p < n ==> (#[trigger] v@[p]) < clauses@.len(),
                forall|p: int|
                    i <= p < q ==> (clauses@[v@[m as int] as int])@.len() <= (clauses@[
                    #[trigger] v@[p] as int])@.len(),
            decreases n - q,
        {
            if clauses[v[q]].len() < clauses[v[m]].len() {
                m = q;
            }
            q = q + 1;
        }
        let ghost v0 = v@;
        let ghost opos = pos;
        let a = v[i];
        let b = v[m];
        v.set(i, b);
        v.set(m, a);
        proof {
            pos = Seq::new(
                opos.len(),
                |j: int|
                    if opos[j] == i as int {
                        m as int
                    } else if opos[j] == m as int {
                        i as int
                    } else {
                        opos[j]
                    },
            );
            assert forall|a2: int, b2: int|
                0 <= a2 < b2 < n implies (clauses@[v@[a2] as int])@ != (clauses@[v@[b2]
                as int])@ by {
                let x = if a2 == i as int {
                    m as int
                } else if a2 == m as int {
                    i as int
                } else {
                    a2
                };
                let y = if b2 == i as int {
                    m as int
                } else if b2 == m as int {
                    i as int
                } else {
                    b2
                };
                assert(v@[a2] == v0[x] && v@[b2] == v0[y]);
                if x != y {
                    if x < y {
                        assert((clauses@[v0[x] as int])@ != (clauses@[v0[y] as int])@);
                    } else {
                        assert((clauses@[v0[y] as int])@ != (clauses@[v0[x] as int])@);
                    }
                }
            }
            assert forall|j: int|
                0 <= j < clauses@.len() implies 0 <= (#[trigger] pos[j]) < n && (clauses@[v@[
            pos[j]] as int])@ == (clauses@[j])@ by {
                let pj = opos[j];
                if pj == i as int {
                    assert(pos[j] == m as int && v@[m as int] == v0[i as int]);
                } else if pj == m as int {
                    assert(pos[j] == i as int && v@[i as int] == v0[m as int]);
                } else {
                    assert(pos[j] == pj && v@[pj] == v0[pj]);
                }
            }
        }
        i = i + 1;
    }
    (v, Ghost(pos))
}

} // verus!
