use vstd::prelude::*;
use crate::literal::SimpleLiteral;
use crate::clause::{Clause, TwoPointerClause, ClauseState, ClauseView, same_clause, updated_state};

verus! {

/// A CNF formula together with a partial assignment of its variables.
pub trait Formula: Sized {
    /// The clauses are pairwise distinct and each fits the assignment.
    spec fn spec_well_formed(&self) -> bool;

    /// The number of variables of the assignment.
    spec fn spec_num_vars(&self) -> nat;

    /// this method creates a sat instance which contains a list of clauses and "variable_amount"
    /// of unassigned continually enumerated variables
    fn new(variable_amount: usize, clauses: Vec<TwoPointerClause>) -> Self;

    /// this method adds a clause to the set of clauses
    fn add_clause(&mut self, clause: TwoPointerClause);

    /// this method removes the clause equal to "clause_to_remove" from the set of clauses
    fn remove_clause(&mut self, clause_to_remove: &TwoPointerClause);

    /// returns true if there are unassigned variables
    fn hasUnassignedVars(&mut self) -> bool;

    /// this method assigns the variable of index "variable" to the "assignment"
    fn choose_variable(&mut self, variable: usize, assignment: Option<bool>)
        requires
            (variable as nat) < old(self).spec_num_vars(),
    ;

    /// this method returns the current state of the sat instance, with the priority
    /// Conflict > Unit > Else
    fn form_state(&mut self) -> FormulaState
        requires
            old(self).spec_well_formed(),
    ;
}

/// The clauses (a set: no clause occurs twice) and the current partial assignment.
pub struct FormulaInstance {
    pub assignments: Vec<Option<bool>>,
    pub clauses: Vec<TwoPointerClause>,
}

/// What `form_state` found: a clause in conflict, else a unit clause, else neither.
#[derive(Debug)]
pub enum FormulaState {
    Conflict(TwoPointerClause),
    Unit(TwoPointerClause),
    Else,
}

impl FormulaInstance {
    /// The set of clauses, each taken by its view.
    pub open spec fn clause_set(&self) -> Set<ClauseView> {
        Set::new(|c: ClauseView| has_view(self.clauses@, c))
    }

    /// The set of clauses with each state brought up to date with the assignment.
    pub open spec fn updated_set(&self) -> Set<ClauseView> {
        Set::new(|c: ClauseView| has_updated(self.clauses@, self.assignments@, c))
    }

    /// No clause occurs twice.
    pub open spec fn distinct(&self) -> bool {
        forall|i: int, j: int|
            0 <= i < self.clauses@.len() && 0 <= j < self.clauses@.len() && i != j ==> self.clauses@[i]@
                != self.clauses@[j]@
    }

    /// Every clause fits the assignment.
    pub open spec fn clauses_fit(&self) -> bool {
        forall|i: int| 0 <= i < self.clauses@.len() ==> (#[trigger] self.clauses@[i])@.fits(self.assignments@.len())
    }

    pub open spec fn wf(&self) -> bool {
        self.distinct() && self.clauses_fit()
    }

    /// The stored state of every clause is the one its update computes under the assignment.
    pub open spec fn states_current(&self) -> bool {
        forall|i: int| 0 <= i < self.clauses@.len() ==> (#[trigger] self.clauses@[i]).state
            == updated_state(self.clauses@[i].literals@, self.assignments@, self.clauses@[i].pointer)
    }

    /// Some clause is stored as unsatisfiable.
    pub open spec fn has_conflict(&self) -> bool {
        exists|i: int| 0 <= i < self.clauses@.len() && (#[trigger] self.clauses@[i]).state == ClauseState::Unsatisfiable
    }

    /// Some clause is stored as unit.
    pub open spec fn has_unit(&self) -> bool {
        exists|i: int| 0 <= i < self.clauses@.len() && (#[trigger] self.clauses@[i]).state is Unit
    }

    /// Every variable is assigned.
    pub open spec fn all_assigned(&self) -> bool {
        forall|v: int| 0 <= v < self.assignments@.len() ==> (#[trigger] self.assignments@[v]) is Some
    }

    /// Every clause has a literal that holds under the assignment.
    pub open spec fn all_satisfied(&self) -> bool {
        forall|i: int| 0 <= i < self.clauses@.len() ==> (#[trigger] self.clauses@[i])@.satisfied_by(self.assignments@)
    }

    /// Every clause watches two different positions, or has a single literal: then a
    /// clause's state speaks of all of its literals.
    pub open spec fn honest(&self) -> bool {
        forall|i: int| 0 <= i < self.clauses@.len() ==> (#[trigger] self.clauses@[i]).pointer.0 != self.clauses@[i].pointer.1
            || self.clauses@[i].literals@.len() == 1
    }

    /// `m` assigns every variable and satisfies every clause.
    pub open spec fn is_model(&self, m: Seq<Option<bool>>) -> bool {
        &&& m.len() == self.assignments@.len()
        &&& forall|v: int| 0 <= v < m.len() ==> (#[trigger] m[v]) is Some
        &&& forall|i: int| 0 <= i < self.clauses@.len() ==> (#[trigger] self.clauses@[i])@.satisfied_by(m)
    }

    /// The number of unassigned variables.
    pub open spec fn unassigned_count(&self) -> nat {
        count_none(self.assignments@)
    }

    /// Whether the assignment has at least `n` variables, every clause fits it, and
    /// no two clauses are equal.
    pub fn is_well_formed(&self) -> (r: bool)
        ensures
            r == self.wf(),
    {
        let n = self.assignments.len();
        let mut i: usize = 0;
        while i < self.clauses.len()
            invariant
                i <= self.clauses@.len(),
                n == self.assignments@.len(),
                forall|k: int| 0 <= k < i ==> (#[trigger] self.clauses@[k])@.fits(n as nat),
                forall|k: int, l: int| 0 <= k < i && 0 <= l < self.clauses@.len() && k != l
                    ==> self.clauses@[k]@ != self.clauses@[l]@,
            decreases self.clauses.len() - i,
        {
            if !crate::clause::clause_fits(&self.clauses[i], n) {
                return false;
            }
            let mut j: usize = 0;
            while j < self.clauses.len()
                invariant
                    i < self.clauses@.len(),
                    j <= self.clauses@.len(),
                    forall|l: int| 0 <= l < j && l != i ==> self.clauses@[i as int]@ != self.clauses@[l]@,
                decreases self.clauses.len() - j,
            {
                if j != i && same_clause(&self.clauses[i], &self.clauses[j]) {
                    return false;
                }
                j += 1;
            }
            i += 1;
        }
        true
    }
}

impl Formula for FormulaInstance {
    open spec fn spec_well_formed(&self) -> bool {
        self.wf()
    }

    open spec fn spec_num_vars(&self) -> nat {
        self.assignments@.len()
    }

    /// The formula over the given clauses (each kept once) with `variable_amount`
    /// unassigned variables.
    fn new(variable_amount: usize, clauses: Vec<TwoPointerClause>) -> (r: FormulaInstance)
        ensures
            r.assignments@ == Seq::new(variable_amount as nat, |i: int| None::<bool>),
            r.clause_set() == Set::new(|c: ClauseView| has_view(clauses@, c)),
            r.distinct(),
    {
        let ghost input = clauses@;
        let mut pending = clauses;
        let mut kept: Vec<TwoPointerClause> = Vec::new();
        while pending.len() > 0
            invariant
                pending@ == input.take(pending@.len() as int),
                pending@.len() <= input.len(),
                forall|i: int, j: int| 0 <= i < kept@.len() && 0 <= j < kept@.len() && i != j ==> kept@[i]@ != kept@[j]@,
                forall|c: ClauseView| #[trigger] has_view(kept@, c) <==> has_view(input.subrange(pending@.len() as int, input.len() as int), c),
            decreases pending@.len(),
        {
            let c = pending.pop().unwrap();
            let ghost k = pending@.len() as int;
            let ghost kept_before = kept@;
            let ghost done_before = input.subrange(k + 1, input.len() as int);
            let ghost done_now = input.subrange(k, input.len() as int);
            assert(input[k] == c);
            assert(done_now =~= seq![c].add(done_before));
            if position_of(&kept, &c).is_none() {
                kept.push(c);
                assert forall|d: ClauseView| #[trigger] has_view(kept@, d) <==> has_view(done_now, d) by {
                    if has_view(done_now, d) {
                        let i = choose|i: int| 0 <= i < done_now.len() && done_now[i]@ == d;
                        if i > 0 {
                            assert(done_before[i - 1]@ == d);
                            assert(has_view(kept_before, d));
                            let i2 = choose|i2: int| 0 <= i2 < kept_before.len() && kept_before[i2]@ == d;
                            assert(kept@[i2]@ == d);
                        } else {
                            assert(kept@[kept@.len() - 1]@ == d);
                        }
                    }
                    if has_view(kept@, d) {
                        let i = choose|i: int| 0 <= i < kept@.len() && kept@[i]@ == d;
                        if i < kept@.len() - 1 {
                            assert(kept@[i] == kept_before[i]);
                            assert(has_view(kept_before, d));
                            let j = choose|j: int| 0 <= j < done_before.len() && done_before[j]@ == d;
                            assert(done_now[j + 1]@ == d);
                        } else {
                            assert(done_now[0]@ == d);
                        }
                    }
                }
            } else {
                assert(has_view(kept@, c@));
                assert forall|d: ClauseView| #[trigger] has_view(kept@, d) <==> has_view(done_now, d) by {
                    if has_view(done_now, d) {
                        let i = choose|i: int| 0 <= i < done_now.len() && done_now[i]@ == d;
                        if i > 0 {
                            assert(done_before[i - 1]@ == d);
                        }
                    }
                    if has_view(kept@, d) {
                        assert(has_view(done_before, d));
                        let j = choose|j: int| 0 <= j < done_before.len() && done_before[j]@ == d;
                        assert(done_now[j + 1]@ == d);
                    }
                }
            }
        }
        assert(input.subrange(0, input.len() as int) =~= input);
        let mut assignments: Vec<Option<bool>> = Vec::new();
        let mut v: usize = 0;
        while v < variable_amount
            invariant
                v <= variable_amount,
                assignments@ == Seq::new(v as nat, |i: int| None::<bool>),
            decreases variable_amount - v,
        {
            assignments.push(None);
            v += 1;
            assert(assignments@ =~= Seq::new(v as nat, |i: int| None::<bool>));
        }
        let r = FormulaInstance { assignments, clauses: kept };
        assert(r.clause_set() =~= Set::new(|c: ClauseView| has_view(clauses@, c)));
        r
    }

    /// Adds the clause unless an equal one is already there.
    fn add_clause(&mut self, clause: TwoPointerClause)
        ensures
            final(self).assignments@ == old(self).assignments@,
            final(self).clause_set() == old(self).clause_set().insert(clause@),
            final(self).clauses@ == old(self).clauses@ || final(self).clauses@ == old(self).clauses@.push(clause),
            old(self).distinct() ==> final(self).distinct(),
            old(self).clauses_fit() && clause@.fits(old(self).assignments@.len()) ==> final(self).clauses_fit(),
    {
        let ghost before = self.clauses@;
        if position_of(&self.clauses, &clause).is_none() {
            self.clauses.push(clause);
            assert(self.clauses@[before.len() as int] == clause);
            assert forall|d: ClauseView| #[trigger] has_view(self.clauses@, d) <==> (has_view(before, d) || d == clause@) by {
                if has_view(before, d) {
                    let i = choose|i: int| 0 <= i < before.len() && before[i]@ == d;
                    assert(self.clauses@[i]@ == d);
                }
                if has_view(self.clauses@, d) && d != clause@ {
                    let i = choose|i: int| 0 <= i < self.clauses@.len() && self.clauses@[i]@ == d;
                    assert(before[i]@ == d);
                }
            }
        }
        assert(self.clause_set() =~= old(self).clause_set().insert(clause@));
    }

    /// Removes the clause equal to `clause_to_remove`, if there is one.
    fn remove_clause(&mut self, clause_to_remove: &TwoPointerClause)
        ensures
            final(self).assignments@ == old(self).assignments@,
            old(self).distinct() ==> final(self).clause_set() == old(self).clause_set().remove(clause_to_remove@),
            old(self).distinct() ==> final(self).distinct(),
            old(self).clauses_fit() ==> final(self).clauses_fit(),
    {
        match position_of(&self.clauses, clause_to_remove) {
            Some(i) => {
                let ghost before = self.clauses@;
                self.clauses.remove(i);
                assert(forall|k: int| 0 <= k < self.clauses@.len() ==> self.clauses@[k] == (if k < i { before[k] } else { before[k + 1] }));
                proof {
                if old(self).distinct() {
                    assert forall|d: ClauseView| self.clause_set().contains(d) <==> old(self).clause_set().remove(clause_to_remove@).contains(d) by {
                        if old(self).clause_set().remove(clause_to_remove@).contains(d) {
                            let k = choose|k: int| 0 <= k < before.len() && before[k]@ == d;
                            assert(k != i);
                            if k < i {
                                assert(self.clauses@[k]@ == d);
                            } else {
                                assert(self.clauses@[k - 1]@ == d);
                            }
                        }
                        if self.clause_set().contains(d) {
                            let k = choose|k: int| 0 <= k < self.clauses@.len() && self.clauses@[k]@ == d;
                            if k < i {
                                assert(before[k]@ == d);
                            } else {
                                assert(before[k + 1]@ == d);
                            }
                        }
                    }
                    assert(self.clause_set() =~= old(self).clause_set().remove(clause_to_remove@));
                }
                }
            },
            None => {
                assert(self.clause_set() =~= old(self).clause_set().remove(clause_to_remove@));
            },
        }
    }

    /// Whether some variable is still unassigned.
    fn hasUnassignedVars(&mut self) -> (r: bool)
        ensures
            *final(self) == *old(self),
            r == !old(self).all_assigned(),
    {
        let mut i: usize = 0;
        while i < self.assignments.len()
            invariant
                i <= self.assignments@.len(),
                forall|v: int| 0 <= v < i ==> (#[trigger] self.assignments@[v]) is Some,
            decreases self.assignments.len() - i,
        {
            if self.assignments[i].is_none() {
                return true;
            }
            i += 1;
        }
        false
    }

    /// Sets the value of `variable` (`None` unassigns it); the clauses stay as they are.
    fn choose_variable(&mut self, variable: usize, assignment: Option<bool>)
        ensures
            final(self).assignments@ == old(self).assignments@.update(variable as int, assignment),
            final(self).clauses@ == old(self).clauses@,
    {
        self.assignments[variable] = assignment;
    }

    /// Brings every clause's state up to date with the assignment and reports a clause
    /// in conflict if there is one, else a unit clause if there is one, else `Else`.
    fn form_state(&mut self) -> (r: FormulaState)
        ensures
            final(self).assignments@ == old(self).assignments@,
            final(self).clause_set() == old(self).updated_set(),
            final(self).wf(),
            final(self).states_current(),
            match r {
                FormulaState::Conflict(c) => final(self).clause_set().contains(c@) && c.state
                    == ClauseState::Unsatisfiable,
                FormulaState::Unit(c) => final(self).clause_set().contains(c@) && c.state is Unit,
                FormulaState::Else => true,
            },
            r is Conflict <==> final(self).has_conflict(),
            r is Unit <==> !final(self).has_conflict() && final(self).has_unit(),
    {
        let ghost a = self.assignments@;
        let ghost orig = self.clauses@;
        let mut pending: Vec<TwoPointerClause> = Vec::new();
        std::mem::swap(&mut pending, &mut self.clauses);
        let mut new_set: Vec<TwoPointerClause> = Vec::new();
        let mut return_clause: Option<TwoPointerClause> = None;
        let mut return_clause_is_conflict: bool = false;
        let mut return_clause_is_unit: bool = false;

        while pending.len() > 0
            invariant
                pending@ == orig.take(pending@.len() as int),
                pending@.len() <= orig.len(),
                self.assignments@ == a,
                forall|i: int| 0 <= i < orig.len() ==> (#[trigger] orig[i])@.fits(a.len()),
                forall|i: int, j: int|
                    0 <= i < new_set@.len() && 0 <= j < new_set@.len() && i != j ==> new_set@[i]@ != new_set@[j]@,
                forall|k: int| 0 <= k < new_set@.len() ==> (#[trigger] new_set@[k])@.fits(a.len()),
                forall|k: int| 0 <= k < new_set@.len() ==> (#[trigger] new_set@[k]).state == updated_state(
                    new_set@[k].literals@, a, new_set@[k].pointer),
                forall|d: ClauseView| #[trigger] has_view(new_set@, d) <==> has_updated(
                    orig.subrange(pending@.len() as int, orig.len() as int), a, d),
                return_clause_is_conflict <==> exists|k: int| 0 <= k < new_set@.len()
                    && (#[trigger] new_set@[k]).state == ClauseState::Unsatisfiable,
                return_clause_is_unit <==> exists|k: int| 0 <= k < new_set@.len()
                    && ((#[trigger] new_set@[k]).state is Unit || new_set@[k].state == ClauseState::Unsatisfiable),
                return_clause matches Some(c) ==> has_view(new_set@, c@),
                return_clause_is_conflict ==> (return_clause matches Some(c) && has_view(new_set@, c@) && c.state
                    == ClauseState::Unsatisfiable),
                return_clause_is_unit && !return_clause_is_conflict ==> (return_clause matches Some(c) && has_view(
                    new_set@, c@) && c.state is Unit),
            decreases pending@.len(),
        {
            let mut clause = pending.pop().unwrap();
            let ghost k = pending@.len() as int;
            let ghost set_before = new_set@;
            let ghost done_before = orig.subrange(k + 1, orig.len() as int);
            let ghost done_now = orig.subrange(k, orig.len() as int);
            assert(orig[k] == clause);
            assert(done_now =~= seq![clause].add(done_before));
            let ghost before_update = clause@;
            clause.update_clause_state(&self.assignments);
            assert(clause@ == before_update.updated(a));
            let ghost prev_rc = return_clause;
            match clause.state {
                ClauseState::Open | ClauseState::Satisfied => {},
                ClauseState::Unit(_) => {
                    if !return_clause_is_unit {
                        return_clause = Some(clause.clone());
                        return_clause_is_unit = true;
                    }
                },
                ClauseState::Unsatisfiable => {
                    if !return_clause_is_conflict {
                        return_clause = Some(clause.clone());
                        return_clause_is_unit = true;
                        return_clause_is_conflict = true;
                    }
                },
            }
            let ghost c_view = clause@;
            let ghost c_state = clause.state;
            if position_of(&new_set, &clause).is_none() {
                new_set.push(clause);
                assert(new_set@[new_set@.len() - 1]@ == c_view);
                assert forall|d: ClauseView| #[trigger] has_view(new_set@, d) <==> has_updated(done_now, a, d) by {
                    if has_updated(done_now, a, d) {
                        let i = choose|i: int| 0 <= i < done_now.len() && done_now[i]@.updated(a) == d;
                        if i > 0 {
                            assert(done_before[i - 1]@.updated(a) == d);
                            assert(has_view(set_before, d));
                            let i2 = choose|i2: int| 0 <= i2 < set_before.len() && set_before[i2]@ == d;
                            assert(new_set@[i2]@ == d);
                        }
                    }
                    if has_view(new_set@, d) {
                        let i = choose|i: int| 0 <= i < new_set@.len() && new_set@[i]@ == d;
                        if i < new_set@.len() - 1 {
                            assert(new_set@[i] == set_before[i]);
                            assert(has_view(set_before, d));
                            let j = choose|j: int| 0 <= j < done_before.len() && done_before[j]@.updated(a) == d;
                            assert(done_now[j + 1]@.updated(a) == d);
                        } else {
                            assert(done_now[0]@.updated(a) == d);
                        }
                    }
                }
                assert(new_set@[new_set@.len() - 1].state == c_state);
                assert(forall|i: int| 0 <= i < set_before.len() ==> new_set@[i] == set_before[i]);
                proof {
                let last = new_set@.len() - 1;
                if c_state == ClauseState::Unsatisfiable {
                    assert(new_set@[last].state == ClauseState::Unsatisfiable);
                }
                if c_state is Unit {
                    assert(new_set@[last].state is Unit);
                }
                if exists|kk: int| 0 <= kk < new_set@.len() && (#[trigger] new_set@[kk]).state == ClauseState::Unsatisfiable {
                    let kk = choose|kk: int| 0 <= kk < new_set@.len() && (#[trigger] new_set@[kk]).state == ClauseState::Unsatisfiable;
                    if kk < last {
                        assert(set_before[kk].state == ClauseState::Unsatisfiable);
                    }
                }
                if exists|kk: int| 0 <= kk < new_set@.len() && ((#[trigger] new_set@[kk]).state is Unit || new_set@[kk].state == ClauseState::Unsatisfiable) {
                    let kk = choose|kk: int| 0 <= kk < new_set@.len() && ((#[trigger] new_set@[kk]).state is Unit || new_set@[kk].state == ClauseState::Unsatisfiable);
                    if kk < last {
                        assert(set_before[kk].state is Unit || set_before[kk].state == ClauseState::Unsatisfiable);
                    }
                }
                match &return_clause {
                    Some(rc) => {
                        if return_clause == prev_rc {
                            let i = choose|i: int| 0 <= i < set_before.len() && set_before[i]@ == rc@;
                            assert(new_set@[i]@ == rc@);
                        } else {
                            assert(new_set@[last]@ == rc@);
                        }
                    },
                    None => {},
                }
                }
                assert forall|kk: int| 0 <= kk < new_set@.len() implies (#[trigger] new_set@[kk])@.fits(a.len()) by {
                    if kk < new_set@.len() - 1 {
                        assert(new_set@[kk] == set_before[kk]);
                    }
                }
            } else {
                assert(has_view(new_set@, c_view));
                let ghost w = choose|w: int| 0 <= w < new_set@.len() && new_set@[w]@ == c_view;
                assert(new_set@[w].state == c_state);
                proof {
                match &return_clause {
                    Some(rc) => {
                        if return_clause != prev_rc {
                            assert(rc@ == c_view);
                        }
                    },
                    None => {},
                }
                }
                assert forall|d: ClauseView| #[trigger] has_view(new_set@, d) <==> has_updated(done_now, a, d) by {
                    if has_updated(done_now, a, d) {
                        let i = choose|i: int| 0 <= i < done_now.len() && done_now[i]@.updated(a) == d;
                        if i > 0 {
                            assert(done_before[i - 1]@.updated(a) == d);
                        }
                    }
                    if has_view(new_set@, d) {
                        assert(has_updated(done_before, a, d));
                        let j = choose|j: int| 0 <= j < done_before.len() && done_before[j]@.updated(a) == d;
                        assert(done_now[j + 1]@.updated(a) == d);
                    }
                }
            }
        }
        assert(orig.subrange(0, orig.len() as int) =~= orig);
        self.clauses = new_set;
        assert(self.clause_set() =~= old(self).updated_set());
        if return_clause_is_conflict {
            match return_clause {
                Some(c) => FormulaState::Conflict(c),
                None => vstd::pervasive::unreached(),
            }
        } else if return_clause_is_unit {
            match return_clause {
                Some(c) => FormulaState::Unit(c),
                None => vstd::pervasive::unreached(),
            }
        } else {
            FormulaState::Else
        }
    }
}

impl Clone for FormulaInstance {
    /// A copy with the same assignment and the same clauses, in the same order.
    fn clone(&self) -> (r: Self)
        ensures
            r.assignments@ == self.assignments@,
            r.clauses@.len() == self.clauses@.len(),
            forall|i: int| 0 <= i < self.clauses@.len() ==> (#[trigger] r.clauses@[i])@ == self.clauses@[i]@,
            r.wf() == self.wf(),
    {
        let mut assignments: Vec<Option<bool>> = Vec::new();
        let mut v: usize = 0;
        while v < self.assignments.len()
            invariant
                v <= self.assignments@.len(),
                assignments@ == self.assignments@.take(v as int),
            decreases self.assignments.len() - v,
        {
            assignments.push(self.assignments[v]);
            v += 1;
            assert(assignments@ =~= self.assignments@.take(v as int));
        }
        assert(assignments@ =~= self.assignments@);
        let mut clauses: Vec<TwoPointerClause> = Vec::new();
        let mut i: usize = 0;
        while i < self.clauses.len()
            invariant
                i <= self.clauses@.len(),
                clauses@.len() == i,
                assignments@ == self.assignments@,
                forall|k: int| 0 <= k < i ==> (#[trigger] clauses@[k])@ == self.clauses@[k]@,
            decreases self.clauses.len() - i,
        {
            clauses.push(self.clauses[i].clone());
            i += 1;
        }
        let r = FormulaInstance { assignments, clauses };
        proof {
            if self.distinct() {
                assert forall|i: int, j: int|
                    0 <= i < r.clauses@.len() && 0 <= j < r.clauses@.len() && i != j implies r.clauses@[i]@
                        != r.clauses@[j]@ by {
                    assert(r.clauses@[i]@ == self.clauses@[i]@);
                    assert(r.clauses@[j]@ == self.clauses@[j]@);
                }
            }
            if r.distinct() {
                assert forall|i: int, j: int|
                    0 <= i < self.clauses@.len() && 0 <= j < self.clauses@.len() && i != j implies self.clauses@[i]@
                        != self.clauses@[j]@ by {
                    assert(r.clauses@[i]@ == self.clauses@[i]@);
                    assert(r.clauses@[j]@ == self.clauses@[j]@);
                }
            }
            if self.clauses_fit() {
                assert forall|i: int| 0 <= i < r.clauses@.len() implies (#[trigger] r.clauses@[i])@.fits(r.assignments@.len()) by {
                    assert(r.clauses@[i]@ == self.clauses@[i]@);
                }
            }
            if r.clauses_fit() {
                assert forall|i: int| 0 <= i < self.clauses@.len() implies (#[trigger] self.clauses@[i])@.fits(self.assignments@.len()) by {
                    assert(r.clauses@[i]@ == self.clauses@[i]@);
                }
            }
        }
        r
    }
}

/// Some clause of `s`, brought up to date with `a`, has the view `c`.
pub open spec fn has_updated(s: Seq<TwoPointerClause>, a: Seq<Option<bool>>, c: ClauseView) -> bool {
    exists|i: int| 0 <= i < s.len() && s[i]@.updated(a) == c
}

/// Some clause of `s` has the view `c`.
pub open spec fn has_view(s: Seq<TwoPointerClause>, c: ClauseView) -> bool {
    exists|i: int| 0 <= i < s.len() && s[i]@ == c
}

/// The number of `None` entries of `a`.
pub open spec fn count_none(a: Seq<Option<bool>>) -> nat
    decreases a.len(),
{
    if a.len() == 0 {
        0
    } else {
        count_none(a.drop_last()) + if a.last() is None { 1nat } else { 0nat }
    }
}

/// Some clause of `f` has exactly the literals `lits`.
pub open spec fn has_literals(f: FormulaInstance, lits: Seq<SimpleLiteral>) -> bool {
    exists|i: int| 0 <= i < f.clauses@.len() && (#[trigger] f.clauses@[i]).literals@ == lits
}

/// A literal list holds under `m`: one of its literals does.
pub open spec fn list_satisfied(lits: Seq<SimpleLiteral>, m: Seq<Option<bool>>) -> bool {
    exists|i: int| 0 <= i < lits.len() && (#[trigger] lits[i]).holds(m)
}

/// A model of `f` satisfies every literal list that is a clause of `f`.
pub proof fn lemma_model_satisfies_member(f: FormulaInstance, lits: Seq<SimpleLiteral>, m: Seq<Option<bool>>)
    requires
        f.is_model(m),
        has_literals(f, lits),
    ensures
        list_satisfied(lits, m),
{
    let i = choose|i: int| 0 <= i < f.clauses@.len() && (#[trigger] f.clauses@[i]).literals@ == lits;
    assert(f.clauses@[i]@.satisfied_by(m));
}

/// Keeping literals keeps the clauses that a literal list is.
pub proof fn lemma_keeps_has_literals(new: FormulaInstance, old: FormulaInstance, lits: Seq<SimpleLiteral>)
    requires
        keeps_literals(new, old),
        has_literals(old, lits),
    ensures
        has_literals(new, lits),
{
    reveal(keeps_literals);
    let i = choose|i: int| 0 <= i < old.clauses@.len() && (#[trigger] old.clauses@[i]).literals@ == lits;
    let j = choose|j: int| 0 <= j < new.clauses@.len() && (#[trigger] new.clauses@[j]).literals@ == old.clauses@[i].literals@;
    assert(new.clauses@[j].literals@ == lits);
}

/// `m` agrees with `a` on every variable that `a` assigns.
pub open spec fn extends(m: Seq<Option<bool>>, a: Seq<Option<bool>>) -> bool {
    forall|v: int| 0 <= v < a.len() && (#[trigger] a[v]) is Some ==> m[v] == a[v]
}

/// Bringing the clause states up to date changes neither the models of the formula
/// nor the watched positions of its clauses.
pub proof fn lemma_update_keeps_models(new: FormulaInstance, old: FormulaInstance)
    requires
        new.clause_set() == old.updated_set(),
        new.assignments@ == old.assignments@,
    ensures
        forall|m: Seq<Option<bool>>| new.is_model(m) <==> old.is_model(m),
        old.honest() ==> new.honest(),
        new.honest() ==> old.honest(),
{
    if new.honest() {
        assert forall|i: int| 0 <= i < old.clauses@.len() implies (#[trigger] old.clauses@[i]).pointer.0
            != old.clauses@[i].pointer.1 || old.clauses@[i].literals@.len() == 1 by {
            let d = old.clauses@[i]@.updated(old.assignments@);
            assert(has_updated(old.clauses@, old.assignments@, d));
            assert(new.clause_set().contains(d));
            let j = choose|j: int| 0 <= j < new.clauses@.len() && new.clauses@[j]@ == d;
            assert(new.clauses@[j].pointer.0 != new.clauses@[j].pointer.1 || new.clauses@[j].literals@.len() == 1);
        }
    }
    assert forall|m: Seq<Option<bool>>| new.is_model(m) <==> old.is_model(m) by {
        if new.is_model(m) {
            assert forall|i: int| 0 <= i < old.clauses@.len() implies (#[trigger] old.clauses@[i])@.satisfied_by(m) by {
                let d = old.clauses@[i]@.updated(old.assignments@);
                assert(has_updated(old.clauses@, old.assignments@, d));
                assert(new.clause_set().contains(d));
                let j = choose|j: int| 0 <= j < new.clauses@.len() && new.clauses@[j]@ == d;
                assert(new.clauses@[j]@.satisfied_by(m));
                let w = choose|w: int| 0 <= w < d.literals.len() && (#[trigger] d.literals[w]).holds(m);
                assert(old.clauses@[i]@.literals[w].holds(m));
            }
        }
        if old.is_model(m) {
            assert forall|j: int| 0 <= j < new.clauses@.len() implies (#[trigger] new.clauses@[j])@.satisfied_by(m) by {
                let d = new.clauses@[j]@;
                assert(has_view(new.clauses@, d));
                assert(old.updated_set().contains(d));
                let i = choose|i: int| 0 <= i < old.clauses@.len() && old.clauses@[i]@.updated(old.assignments@) == d;
                assert(old.clauses@[i]@.satisfied_by(m));
                let w = choose|w: int| 0 <= w < old.clauses@[i]@.literals.len() && (#[trigger] old.clauses@[i]@.literals[w]).holds(m);
                assert(d.literals[w].holds(m));
            }
        }
    }
    if old.honest() {
        assert forall|j: int| 0 <= j < new.clauses@.len() implies (#[trigger] new.clauses@[j]).pointer.0
            != new.clauses@[j].pointer.1 || new.clauses@[j].literals@.len() == 1 by {
            let d = new.clauses@[j]@;
            assert(has_view(new.clauses@, d));
            assert(old.updated_set().contains(d));
            let i = choose|i: int| 0 <= i < old.clauses@.len() && old.clauses@[i]@.updated(old.assignments@) == d;
            assert(old.clauses@[i].pointer.0 != old.clauses@[i].pointer.1 || old.clauses@[i].literals@.len() == 1);
        }
    }
}

/// A formula whose clause set grows stays honest only if it was; a model of the
/// smaller formula that satisfies the added clauses is a model of the larger one.
pub proof fn lemma_grow_clauses(new: FormulaInstance, old: FormulaInstance)
    requires
        old.clause_set().subset_of(new.clause_set()),
        new.assignments@.len() == old.assignments@.len(),
    ensures
        new.honest() ==> old.honest(),
        forall|m: Seq<Option<bool>>|
            old.is_model(m) && (forall|c: ClauseView| #[trigger] new.clause_set().contains(c) && !old.clause_set().contains(c)
                ==> c.satisfied_by(m)) ==> #[trigger] new.is_model(m),
{
    if new.honest() {
        assert forall|i: int| 0 <= i < old.clauses@.len() implies (#[trigger] old.clauses@[i]).pointer.0
            != old.clauses@[i].pointer.1 || old.clauses@[i].literals@.len() == 1 by {
            let d = old.clauses@[i]@;
            assert(has_view(old.clauses@, d));
            assert(old.clause_set().contains(d));
            assert(new.clause_set().contains(d));
            let j = choose|j: int| 0 <= j < new.clauses@.len() && new.clauses@[j]@ == d;
            assert(new.clauses@[j].pointer.0 != new.clauses@[j].pointer.1 || new.clauses@[j].literals@.len() == 1);
        }
    }
    assert forall|m: Seq<Option<bool>>|
        old.is_model(m) && (forall|c: ClauseView| #[trigger] new.clause_set().contains(c) && !old.clause_set().contains(c)
            ==> c.satisfied_by(m)) implies #[trigger] new.is_model(m) by {
        assert forall|j: int| 0 <= j < new.clauses@.len() implies (#[trigger] new.clauses@[j])@.satisfied_by(m) by {
            let d = new.clauses@[j]@;
            assert(has_view(new.clauses@, d));
            assert(new.clause_set().contains(d));
            if old.clause_set().contains(d) {
                let i = choose|i: int| 0 <= i < old.clauses@.len() && old.clauses@[i]@ == d;
                assert(old.clauses@[i]@.satisfied_by(m));
            }
        }
    }
}

/// Formulas with the same clauses and assignment lengths have the same models and
/// are honest together.
pub proof fn lemma_same_clauses_models(a: FormulaInstance, b: FormulaInstance)
    requires
        a.clauses@ == b.clauses@,
        a.assignments@.len() == b.assignments@.len(),
    ensures
        forall|m: Seq<Option<bool>>| #[trigger] a.is_model(m) <==> b.is_model(m),
        a.honest() == b.honest(),
{
}

/// In a formula whose clause states are up to date and whose clauses are honest, a
/// unit clause forces its literal: every model that agrees with the assignment makes
/// that literal hold.
pub proof fn law_unit_clause_forces(f: FormulaInstance, c: ClauseView, m: Seq<Option<bool>>)
    requires
        f.wf(),
        f.honest(),
        f.states_current(),
        f.clause_set().contains(c),
        c.state is Unit,
        f.is_model(m),
        extends(m, f.assignments@),
    ensures
        c.state matches ClauseState::Unit(k) && k < c.literals.len() && c.literals[k as int].holds(m),
{
    let i = choose|i: int| 0 <= i < f.clauses@.len() && f.clauses@[i]@ == c;
    lemma_member_state_current(f, c);
    crate::clause::law_updated_state_meaning(c, f.assignments@);
    let k = match c.state {
        ClauseState::Unit(k) => k as int,
        _ => 0,
    };
    assert(f.clauses@[i]@.satisfied_by(m));
    let j = choose|j: int| 0 <= j < c.literals.len() && (#[trigger] c.literals[j]).holds(m);
    if j != k {
        if c.pointer.0 != c.pointer.1 {
            assert(c.literals[j].fails(f.assignments@));
            assert(f.assignments@[c.literals[j].var() as int] is Some);
        } else {
            assert(c.literals.len() == 1);
        }
    }
}

/// In a formula whose clause states are up to date and whose clauses are honest, a
/// clause in conflict rules out every model that agrees with the assignment.
pub proof fn law_conflict_refutes(f: FormulaInstance, c: ClauseView, m: Seq<Option<bool>>)
    requires
        f.wf(),
        f.honest(),
        f.states_current(),
        f.clause_set().contains(c),
        c.state == ClauseState::Unsatisfiable,
    ensures
        !(f.is_model(m) && extends(m, f.assignments@)),
{
    if f.is_model(m) && extends(m, f.assignments@) {
        let i = choose|i: int| 0 <= i < f.clauses@.len() && f.clauses@[i]@ == c;
        lemma_member_state_current(f, c);
        crate::clause::law_updated_state_meaning(c, f.assignments@);
        assert(f.clauses@[i]@.satisfied_by(m));
        let j = choose|j: int| 0 <= j < c.literals.len() && (#[trigger] c.literals[j]).holds(m);
        if c.pointer.0 != c.pointer.1 {
            assert(c.literals[j].fails(f.assignments@));
            assert(f.assignments@[c.literals[j].var() as int] is Some);
        } else {
            assert(c.literals.len() == 1);
            assert(c.literals[c.pointer.0 as int].fails(f.assignments@));
            assert(f.assignments@[c.literals[j].var() as int] is Some);
        }
    }
}

/// Every clause of `old` has a clause with the same literals in `new`.
#[verifier::opaque]
pub open spec fn keeps_literals(new: FormulaInstance, old: FormulaInstance) -> bool {
    forall|i: int| 0 <= i < old.clauses@.len() ==> exists|j: int|
        0 <= j < new.clauses@.len() && (#[trigger] new.clauses@[j]).literals@ == (#[trigger] old.clauses@[i]).literals@
}

/// Formulas with the same clauses keep each other's literals.
pub proof fn lemma_same_clauses_keep(a: FormulaInstance, b: FormulaInstance)
    requires
        a.clauses@ == b.clauses@,
    ensures
        keeps_literals(a, b),
        keeps_literals(b, a),
{
    reveal(keeps_literals);
    assert forall|i: int| 0 <= i < b.clauses@.len() implies exists|j: int|
        0 <= j < a.clauses@.len() && (#[trigger] a.clauses@[j]).literals@ == (#[trigger] b.clauses@[i]).literals@ by {
        assert(a.clauses@[i].literals@ == b.clauses@[i].literals@);
    }
    assert forall|i: int| 0 <= i < a.clauses@.len() implies exists|j: int|
        0 <= j < b.clauses@.len() && (#[trigger] b.clauses@[j]).literals@ == (#[trigger] a.clauses@[i]).literals@ by {
        assert(a.clauses@[i].literals@ == b.clauses@[i].literals@);
    }
}

/// Adding a clause keeps the literals of every clause already there.
pub proof fn lemma_add_keeps(new: FormulaInstance, old: FormulaInstance)
    requires
        new.clauses@ == old.clauses@ || exists|c: TwoPointerClause| new.clauses@ == old.clauses@.push(c),
    ensures
        keeps_literals(new, old),
{
    reveal(keeps_literals);
    assert forall|i: int| 0 <= i < old.clauses@.len() implies exists|j: int|
        0 <= j < new.clauses@.len() && (#[trigger] new.clauses@[j]).literals@ == (#[trigger] old.clauses@[i]).literals@ by {
        assert(new.clauses@[i] == old.clauses@[i]);
    }
}

/// Assigning a free variable lowers the number of free variables by one.
pub proof fn lemma_count_none_assign(a: Seq<Option<bool>>, v: int, b: bool)
    requires
        0 <= v < a.len(),
        a[v] is None,
    ensures
        count_none(a.update(v, Some(b))) + 1 == count_none(a),
    decreases a.len(),
{
    let u = a.update(v, Some(b));
    if v == a.len() - 1 {
        assert(u.drop_last() =~= a.drop_last());
    } else {
        assert(u.drop_last() =~= a.drop_last().update(v, Some(b)));
        lemma_count_none_assign(a.drop_last(), v, b);
    }
}

/// Keeping the literals of every clause is reflexive and transitive.
pub proof fn lemma_keeps_literals_trans(c: FormulaInstance, b: FormulaInstance, a: FormulaInstance)
    requires
        keeps_literals(c, b),
        keeps_literals(b, a),
    ensures
        keeps_literals(c, a),
{
    reveal(keeps_literals);
    assert forall|i: int| 0 <= i < a.clauses@.len() implies exists|j: int|
        0 <= j < c.clauses@.len() && (#[trigger] c.clauses@[j]).literals@ == (#[trigger] a.clauses@[i]).literals@ by {
        let k = choose|k: int| 0 <= k < b.clauses@.len() && (#[trigger] b.clauses@[k]).literals@ == a.clauses@[i].literals@;
        let j = choose|j: int| 0 <= j < c.clauses@.len() && (#[trigger] c.clauses@[j]).literals@ == b.clauses@[k].literals@;
        assert(c.clauses@[j].literals@ == a.clauses@[i].literals@);
    }
}

/// A formula keeps the literals of its own clauses.
pub proof fn lemma_keeps_literals_refl(a: FormulaInstance)
    ensures
        keeps_literals(a, a),
{
    reveal(keeps_literals);
    assert forall|i: int| 0 <= i < a.clauses@.len() implies exists|j: int|
        0 <= j < a.clauses@.len() && (#[trigger] a.clauses@[j]).literals@ == (#[trigger] a.clauses@[i]).literals@ by {
        assert(a.clauses@[i].literals@ == a.clauses@[i].literals@);
    }
}

/// Bringing the clause states up to date keeps the literals of every clause, and adds none.
pub proof fn law_update_keeps_literals(new: FormulaInstance, old: FormulaInstance)
    requires
        new.clause_set() == old.updated_set(),
    ensures
        keeps_literals(new, old),
        keeps_literals(old, new),
{
    reveal(keeps_literals);
    assert forall|i: int| 0 <= i < old.clauses@.len() implies exists|j: int|
        0 <= j < new.clauses@.len() && (#[trigger] new.clauses@[j]).literals@ == (#[trigger] old.clauses@[i]).literals@ by {
        let d = old.clauses@[i]@.updated(old.assignments@);
        assert(has_updated(old.clauses@, old.assignments@, d));
        assert(old.updated_set().contains(d));
        assert(new.clause_set().contains(d));
        let j = choose|j: int| 0 <= j < new.clauses@.len() && new.clauses@[j]@ == d;
        assert(new.clauses@[j].literals@ == old.clauses@[i].literals@);
    }
    assert forall|j: int| 0 <= j < new.clauses@.len() implies exists|i: int|
        0 <= i < old.clauses@.len() && (#[trigger] old.clauses@[i]).literals@ == (#[trigger] new.clauses@[j]).literals@ by {
        let d = new.clauses@[j]@;
        assert(has_view(new.clauses@, d));
        assert(new.clause_set().contains(d));
        assert(old.updated_set().contains(d));
        let i = choose|i: int| 0 <= i < old.clauses@.len() && old.clauses@[i]@.updated(old.assignments@) == d;
        assert(old.clauses@[i].literals@ == new.clauses@[j].literals@);
    }
}

/// A clause state that `form_state` reports as current is the one the update computes.
pub proof fn lemma_member_state_current(f: FormulaInstance, c: ClauseView)
    requires
        f.wf(),
        f.states_current(),
        f.clause_set().contains(c),
    ensures
        c.fits(f.assignments@.len()),
        c.state == updated_state(c.literals, f.assignments@, c.pointer),
        c.literals.len() <= usize::MAX,
{
    let i = choose|i: int| 0 <= i < f.clauses@.len() && f.clauses@[i]@ == c;
    assert(f.clauses@[i]@.fits(f.assignments@.len()));
    assert(c.literals.len() == f.clauses@[i].literals.len());
}

/// With every variable assigned, a formula in which no clause is in conflict or unit
/// has every clause satisfied.
pub proof fn law_quiet_complete_assignment_satisfies(f: FormulaInstance)
    requires
        f.wf(),
        f.states_current(),
        !f.has_conflict(),
        !f.has_unit(),
        f.all_assigned(),
    ensures
        f.all_satisfied(),
{
    assert forall|i: int| 0 <= i < f.clauses@.len() implies (#[trigger] f.clauses@[i])@.satisfied_by(f.assignments@) by {
        let c = f.clauses@[i]@;
        assert(c.fits(f.assignments@.len()));
        assert(c.literals.len() == f.clauses@[i].literals.len());
        crate::clause::law_updated_state_meaning(c, f.assignments@);
        assert(f.clauses@[i].state != ClauseState::Unsatisfiable);
        assert(!(f.clauses@[i].state is Unit));
        if f.clauses@[i].state == ClauseState::Open {
            let (x, y) = choose|x: int, y: int|
                0 <= x < c.literals.len() && 0 <= y < c.literals.len() && x != y
                    && (#[trigger] c.literals[x]).is_free(f.assignments@) && (#[trigger] c.literals[y]).is_free(f.assignments@);
            assert(c.literals[x].var() < f.assignments@.len());
            assert(f.assignments@[c.literals[x].var() as int] is Some);
        }
    }
}

/// A formula whose clause states are up to date is left as it is by bringing them up
/// to date again: a second `form_state` without a change of the assignment finds the
/// same clause set.
pub proof fn law_update_is_idempotent(f: FormulaInstance)
    requires
        f.states_current(),
    ensures
        f.updated_set() == f.clause_set(),
{
    assert forall|c: ClauseView| f.updated_set().contains(c) <==> f.clause_set().contains(c) by {
        if has_updated(f.clauses@, f.assignments@, c) {
            let i = choose|i: int| 0 <= i < f.clauses@.len() && f.clauses@[i]@.updated(f.assignments@) == c;
            assert(f.clauses@[i]@.updated(f.assignments@) == f.clauses@[i]@);
        }
        if has_view(f.clauses@, c) {
            let i = choose|i: int| 0 <= i < f.clauses@.len() && f.clauses@[i]@ == c;
            assert(f.clauses@[i]@.updated(f.assignments@) == f.clauses@[i]@);
        }
    }
    assert(f.updated_set() =~= f.clause_set());
}

/// Adding a clause that is not yet there and then removing it gives back the clause set.
pub proof fn law_add_then_remove(before: FormulaInstance, added: FormulaInstance, after: FormulaInstance, c: ClauseView)
    requires
        !before.clause_set().contains(c),
        added.clause_set() == before.clause_set().insert(c),
        after.clause_set() == added.clause_set().remove(c),
    ensures
        after.clause_set() == before.clause_set(),
{
    assert(after.clause_set() =~= before.clause_set());
}

/// Setting a variable back to the value it had undoes a change of it.
pub proof fn law_choose_undone(a: Seq<Option<bool>>, v: int, x: Option<bool>)
    requires
        0 <= v < a.len(),
    ensures
        a.update(v, x).update(v, a[v]) == a,
{
    assert(a.update(v, x).update(v, a[v]) =~= a);
}

/// The position of a clause equal to `c` in `v`, if any.
fn position_of(v: &Vec<TwoPointerClause>, c: &TwoPointerClause) -> (r: Option<usize>)
    ensures
        r matches Some(i) ==> i < v@.len() && v@[i as int]@ == c@,
        r is None ==> forall|i: int| 0 <= i < v@.len() ==> v@[i]@ != c@,
{
    let mut i: usize = 0;
    while i < v.len()
        invariant
            i <= v@.len(),
            forall|k: int| 0 <= k < i ==> v@[k]@ != c@,
        decreases v.len() - i,
    {
        if same_clause(&v[i], c) {
            return Some(i);
        }
        i += 1;
    }
    None
}

} // verus!
