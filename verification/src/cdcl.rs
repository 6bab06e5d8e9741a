use vstd::prelude::*;
use crate::literal::{Literal, SimpleLiteral};
use crate::clause::{Clause, TwoPointerClause, ClauseState, ClauseView, updated_state, resolvent_literals, clause_fits};
use crate::formula::{
    Formula, FormulaInstance, FormulaState, keeps_literals, lemma_keeps_literals_refl,
    lemma_keeps_literals_trans, law_update_keeps_literals, lemma_member_state_current,
    lemma_count_none_assign, lemma_same_clauses_keep, lemma_add_keeps, extends, lemma_update_keeps_models,
    law_unit_clause_forces, law_conflict_refutes, has_literals, list_satisfied, lemma_model_satisfies_member,
    lemma_same_clauses_models, lemma_grow_clauses,
};
use std::sync::mpsc::{Sender, Receiver};
use rand::ThreadRng;
use crate::randomness::{thread_generator, shuffle_indices, coin_flip};
use crate::messaging::{send_clause, receive_pending};
use crate::trail::{
    consistent, justified, lemma_justified_keeps, lemma_push_implied, lemma_cut_keeps, lemma_resolution_step,
    reasons_fail, lemma_resolvent_fails,
};

verus! {

/// A conflict-driven clause-learning solver that may share learnt clauses with others.
pub trait CdCl: Sized {
    /// The solver state is coherent.
    spec fn spec_ready(&self) -> bool;

    fn new(
        initialFormula: FormulaInstance,
        receiver: Option<Receiver<TwoPointerClause>>,
        senders: Vec<Sender<TwoPointerClause>>,
    ) -> Self
        requires
            initialFormula.wf(),
    ;

    fn sat(&mut self) -> Option<bool>
        requires
            old(self).spec_ready(),
    ;
}

/// An entry of the assignment trail: a literal set by unit propagation (with its
/// decision level and the clause that forced it) or chosen by a decision.
#[derive(Debug, Hash, PartialEq, Eq)]
pub enum StackElem {
    Implied(SimpleLiteral, isize, TwoPointerClause),
    Chosen(SimpleLiteral, isize),
}

impl StackElem {
    /// The literal that the entry sets.
    pub open spec fn lit(self) -> SimpleLiteral {
        match self {
            StackElem::Implied(l, _, _) => l,
            StackElem::Chosen(l, _) => l,
        }
    }

    /// The decision level recorded with the entry.
    pub open spec fn level(self) -> isize {
        match self {
            StackElem::Implied(_, lvl, _) => lvl,
            StackElem::Chosen(_, lvl) => lvl,
        }
    }
}

impl View for StackElem {
    type V = (SimpleLiteral, isize, Option<ClauseView>);

    open spec fn view(&self) -> (SimpleLiteral, isize, Option<ClauseView>) {
        match self {
            StackElem::Implied(l, lvl, c) => (*l, *lvl, Some(c@)),
            StackElem::Chosen(l, lvl) => (*l, *lvl, None),
        }
    }
}

impl Clone for StackElem {
    fn clone(&self) -> (r: Self)
        ensures
            r@ == self@,
    {
        match self {
            StackElem::Implied(l, lvl, c) => StackElem::Implied(*l, *lvl, c.clone()),
            StackElem::Chosen(l, lvl) => StackElem::Chosen(*l, *lvl),
        }
    }
}

/// Looking down from position `i - 1` of the trail `t` through the implied entries of
/// decision level `level`, the position of the first entry that sets variable `v`.
/// The search stops without result at a chosen entry or at an entry of another level.
pub open spec fn find_implied(t: Seq<StackElem>, v: usize, level: isize, i: int) -> Option<int>
    decreases i,
{
    if i <= 0 || i > t.len() {
        None
    } else {
        match t[i - 1] {
            StackElem::Implied(lit, lvl, _) => {
                if lvl != level {
                    None
                } else if lit.var() == v {
                    Some(i - 1)
                } else {
                    find_implied(t, v, level, i - 1)
                }
            },
            StackElem::Chosen(_, _) => None,
        }
    }
}

/// The decision level of the topmost entry below position `i` of the trail `t` that
/// sets variable `v`, if there is one.
pub open spec fn level_of(t: Seq<StackElem>, v: usize, i: int) -> Option<isize>
    decreases i,
{
    if i <= 0 || i > t.len() {
        None
    } else if t[i - 1].lit().var() == v {
        Some(t[i - 1].level())
    } else {
        level_of(t, v, i - 1)
    }
}

/// The position of the topmost chosen entry of decision level `level` below position
/// `i` of the trail `t`, if there is one.
pub open spec fn chosen_at(t: Seq<StackElem>, level: isize, i: int) -> Option<int>
    decreases i,
{
    if i <= 0 || i > t.len() {
        None
    } else if t[i - 1] matches StackElem::Chosen(_, lvl) && lvl == level {
        Some(i - 1)
    } else {
        chosen_at(t, level, i - 1)
    }
}

/// Some entry of `entries` sets variable `v`.
pub open spec fn sets_var(entries: Seq<StackElem>, v: int) -> bool {
    exists|k: int| 0 <= k < entries.len() && (#[trigger] entries[k]).lit().var() == v
}

/// The assignment `a` with the variable of every entry of `entries` unassigned.
pub open spec fn unassigned_from(a: Seq<Option<bool>>, entries: Seq<StackElem>) -> Seq<Option<bool>> {
    Seq::new(a.len(), |v: int| if sets_var(entries, v) { None } else { a[v] })
}

/// What `find_implied` finds is an implied entry of the trail.
pub proof fn lemma_find_implied(t: Seq<StackElem>, v: usize, level: isize, i: int)
    ensures
        find_implied(t, v, level, i) matches Some(k) ==> 0 <= k < t.len() && t[k] is Implied && t[k].lit().var() == v,
    decreases i,
{
    if 0 < i <= t.len() {
        lemma_find_implied(t, v, level, i - 1);
    }
}

/// What `pivot_entry` finds is an implied entry for a variable of the literals.
pub proof fn lemma_pivot_entry(t: Seq<StackElem>, lits: Seq<SimpleLiteral>, level: isize, from: int)
    requires
        0 <= from,
    ensures
        pivot_entry(t, lits, level, from) matches Some(k) ==> 0 <= k < t.len() && t[k] is Implied && exists|idx: int|
            from <= idx < lits.len() && t[k].lit().var() == (#[trigger] lits[idx]).var(),
    decreases lits.len() - from,
{
    if from < lits.len() {
        lemma_find_implied(t, lits[from].var(), level, t.len() as int);
        if find_implied(t, lits[from].var(), level, t.len() as int) is None {
            lemma_pivot_entry(t, lits, level, from + 1);
        }
    }
}

/// A level found on the trail is one of its entries' levels.
pub proof fn lemma_level_of_bounded(t: Seq<StackElem>, v: usize, i: int)
    ensures
        level_of(t, v, i) matches Some(l) ==> exists|k: int| 0 <= k < t.len() && #[trigger] t[k].level() == l,
    decreases i,
{
    if 0 < i <= t.len() {
        if t[i - 1].lit().var() == v {
            assert(t[i - 1].level() == t[i - 1].level());
        } else {
            lemma_level_of_bounded(t, v, i - 1);
        }
    }
}

/// Unassigning one more entry, from the top of the part already unassigned.
pub proof fn lemma_unassign_one_more(a: Seq<Option<bool>>, t: Seq<StackElem>, i: int)
    requires
        0 < i <= t.len(),
        t[i - 1].lit().var() < a.len(),
    ensures
        unassigned_from(a, t.skip(i - 1)) == unassigned_from(a, t.skip(i)).update(t[i - 1].lit().var() as int, None),
{
    let x = t[i - 1].lit().var() as int;
    let lhs = unassigned_from(a, t.skip(i - 1));
    let rhs = unassigned_from(a, t.skip(i)).update(x, None);
    assert forall|v: int| 0 <= v < a.len() implies #[trigger] lhs[v] == rhs[v] by {
        if sets_var(t.skip(i - 1), v) && v != x {
            let k = choose|k: int| 0 <= k < t.skip(i - 1).len() && (#[trigger] t.skip(i - 1)[k]).lit().var() == v;
            assert(t.skip(i)[k - 1].lit().var() == v);
        }
        if sets_var(t.skip(i), v) {
            let k = choose|k: int| 0 <= k < t.skip(i).len() && (#[trigger] t.skip(i)[k]).lit().var() == v;
            assert(t.skip(i - 1)[k + 1].lit().var() == v);
        }
        if v == x {
            assert(t.skip(i - 1)[0].lit().var() == v);
        }
    }
    assert(lhs =~= rhs);
}

/// The trail position of the implied entry (see `find_implied`) for the first literal
/// of `lits`, from position `from` on, whose variable has one.
pub open spec fn pivot_entry(t: Seq<StackElem>, lits: Seq<SimpleLiteral>, level: isize, from: int) -> Option<int>
    decreases lits.len() - from,
{
    if from < 0 || from >= lits.len() {
        None
    } else {
        match find_implied(t, lits[from].var(), level, t.len() as int) {
            Some(k) => Some(k),
            None => pivot_entry(t, lits, level, from + 1),
        }
    }
}

/// The resolvent of the antecedent of the trail entry `e` with the clause `c` on the
/// entry's variable; it keeps the antecedent's state and watched positions.
pub open spec fn resolve_with(e: (SimpleLiteral, isize, Option<ClauseView>), c: ClauseView) -> ClauseView {
    match e.2 {
        Some(ante) => ClauseView {
            literals: resolvent_literals(ante.literals, c.literals, e.0.var()),
            state: ante.state,
            pointer: ante.pointer,
        },
        None => c,
    }
}

/// The clause learnt from the conflict clause `c`: while a literal of the clause has
/// an implied entry of `level` on top of the trail, resolve with that entry's
/// antecedent. `None` when `budget` checks do not reach a clause without such a literal.
pub open spec fn learn(t: Seq<StackElem>, c: ClauseView, level: isize, budget: nat) -> Option<ClauseView>
    decreases budget,
{
    if budget == 0 {
        None
    } else {
        match pivot_entry(t, c.literals, level, 0) {
            None => Some(c),
            Some(k) => learn(t, resolve_with(t[k]@, c), level, (budget - 1) as nat),
        }
    }
}

/// The number of resolution checks conflict analysis makes before it gives up.
pub open spec fn analysis_budget() -> nat {
    2000
}

/// Every literal of `lits` has an entry on the trail `t`.
pub open spec fn levels_known(t: Seq<StackElem>, lits: Seq<SimpleLiteral>) -> bool {
    forall|i: int| 0 <= i < lits.len() ==> (#[trigger] level_of(t, lits[i].var(), t.len() as int)) is Some
}

/// The decision levels of the literals `lits` on the trail `t`.
pub open spec fn literal_levels(t: Seq<StackElem>, lits: Seq<SimpleLiteral>) -> Seq<isize> {
    Seq::new(
        lits.len(),
        |i: int|
            match level_of(t, lits[i].var(), t.len() as int) {
                Some(l) => l,
                None => -1isize,
            },
    )
}

/// The highest and second highest of `levels` (a level occurring twice counts twice),
/// each at least -1.
pub open spec fn top_two(levels: Seq<isize>) -> (isize, isize)
    decreases levels.len(),
{
    if levels.len() == 0 {
        (-1isize, -1isize)
    } else {
        let (h, s) = top_two(levels.drop_last());
        let l = levels.last();
        if l > h {
            (l, h)
        } else {
            (h, if s >= l { s } else { l })
        }
    }
}

/// The level to backtrack to for a learnt clause: one above the second highest level
/// of its literals, or -1 when the two highest levels coincide.
pub open spec fn backjump_level(levels: Seq<isize>) -> isize {
    let (h, s) = top_two(levels);
    if h == s {
        -1isize
    } else {
        (s + 1) as isize
    }
}

/// What `top_two` keeps of the levels: the highest `h` (or -1), a second highest `s`
/// below or equal to it (or -1), no two levels above `s`, and `s` taken by a level
/// beside the one taking `h` when it is above -1.
proof fn lemma_top_two(levels: Seq<isize>)
    ensures
        ({
            let (h, s) = top_two(levels);
            &&& -1 <= s <= h
            &&& forall|i: int| 0 <= i < levels.len() ==> levels[i] <= h
            &&& h == -1 || exists|i: int| 0 <= i < levels.len() && levels[i] == h
            &&& forall|i: int, j: int| 0 <= i < levels.len() && 0 <= j < levels.len() && i != j ==> levels[i] <= s
                || levels[j] <= s
            &&& s == -1 || exists|i: int, j: int|
                0 <= i < levels.len() && 0 <= j < levels.len() && i != j && levels[i] == h && levels[j] == s
        }),
    decreases levels.len(),
{
    if levels.len() > 0 {
        let pre = levels.drop_last();
        lemma_top_two(pre);
        let n = levels.len() - 1;
        let (h0, s0) = top_two(pre);
        let l = levels.last();
        let (h, s) = top_two(levels);
        assert forall|i: int| 0 <= i < n implies levels[i] == pre[i] by {}
        if l > h0 {
            assert(levels[n] == h);
            if s != -1 {
                let i0 = choose|i: int| 0 <= i < pre.len() && pre[i] == h0;
                assert(levels[i0] == s);
            }
        } else {
            if h != -1 {
                let i0 = choose|i: int| 0 <= i < pre.len() && pre[i] == h0;
                assert(levels[i0] == h);
            }
            if s != -1 {
                if s0 >= l {
                    let (i0, j0) = choose|i: int, j: int|
                        0 <= i < pre.len() && 0 <= j < pre.len() && i != j && pre[i] == h0 && pre[j] == s0;
                    assert(levels[i0] == h && levels[j0] == s);
                } else {
                    let i0 = choose|i: int| 0 <= i < pre.len() && pre[i] == h0;
                    assert(levels[i0] == h && levels[n] == s && i0 != n);
                }
            }
        }
    }
}

/// The backtrack level for a learnt clause whose literals have the decision levels
/// `levels`: when one literal's level stands above -1 and above every other, it is
/// one more than the highest of the others (0 when there are none above -1), so that
/// backtracking there unassigns that literal alone and keeps a literal of the level
/// just below; otherwise it is -1.
pub proof fn law_backjump_level(levels: Seq<isize>)
    ensures
        forall|i: int|
            0 <= i < levels.len() && -1 < #[trigger] levels[i] && (forall|j: int|
                0 <= j < levels.len() && j != i ==> levels[j] < levels[i]) ==> {
                let b = backjump_level(levels);
                &&& 0 <= b <= levels[i]
                &&& forall|j: int| 0 <= j < levels.len() && j != i ==> levels[j] < b
                &&& b == 0 || exists|j: int| 0 <= j < levels.len() && j != i && levels[j] == b - 1
            },
        (forall|i: int|
            0 <= i < levels.len() && -1 < levels[i] ==> exists|j: int|
                0 <= j < levels.len() && j != i && levels[j] >= levels[i]) ==> backjump_level(levels) == -1,
{
    lemma_top_two(levels);
    let (h, s) = top_two(levels);
    assert forall|i: int|
        0 <= i < levels.len() && -1 < #[trigger] levels[i] && (forall|j: int|
            0 <= j < levels.len() && j != i ==> levels[j] < levels[i]) implies {
            let b = backjump_level(levels);
            &&& 0 <= b <= levels[i]
            &&& forall|j: int| 0 <= j < levels.len() && j != i ==> levels[j] < b
            &&& b == 0 || exists|j: int| 0 <= j < levels.len() && j != i && levels[j] == b - 1
        } by {
        let k = choose|k: int| 0 <= k < levels.len() && levels[k] == h;
        if k != i {
            assert(levels[k] < levels[i]);
        }
        assert(h == levels[i]);
        if s == h {
            let (i0, j0) = choose|i0: int, j0: int|
                0 <= i0 < levels.len() && 0 <= j0 < levels.len() && i0 != j0 && levels[i0] == h && levels[j0] == s;
            if i0 != i {
                assert(levels[i0] < levels[i]);
            } else {
                assert(levels[j0] < levels[i]);
            }
        }
        assert forall|j: int| 0 <= j < levels.len() && j != i implies levels[j] < backjump_level(levels) by {
            assert(levels[i] <= s || levels[j] <= s);
        }
        if s != -1 {
            let (i0, j0) = choose|i0: int, j0: int|
                0 <= i0 < levels.len() && 0 <= j0 < levels.len() && i0 != j0 && levels[i0] == h && levels[j0] == s;
            assert(j0 != i);
            assert(levels[j0] == backjump_level(levels) - 1);
        }
    }
    if forall|i: int|
        0 <= i < levels.len() && -1 < levels[i] ==> exists|j: int|
            0 <= j < levels.len() && j != i && levels[j] >= levels[i] {
        if h != s {
            let k = choose|k: int| 0 <= k < levels.len() && levels[k] == h;
            let j = choose|j: int| 0 <= j < levels.len() && j != k && levels[j] >= levels[k];
            assert(levels[k] <= s || levels[j] <= s);
        }
    }
}

/// The trail holds a chosen entry.
pub open spec fn has_chosen(t: Seq<StackElem>) -> bool {
    exists|i: int| 0 <= i < t.len() && t[i] is Chosen
}

/// The first entry of `order` whose variable is unassigned in `assignments`, if any.
pub fn first_unassigned_in(order: &Vec<usize>, assignments: &Vec<Option<bool>>) -> (r: Option<usize>)
    requires
        forall|j: int| 0 <= j < order@.len() ==> (#[trigger] order@[j]) < assignments@.len(),
    ensures
        match r {
            Some(x) => exists|j: int|
                0 <= j < order@.len() && order@[j] == x && assignments@[x as int] is None && forall|k: int|
                    0 <= k < j ==> (#[trigger] assignments@[order@[k] as int]) is Some,
            None => forall|j: int| 0 <= j < order@.len() ==> (#[trigger] assignments@[order@[j] as int]) is Some,
        },
{
    let mut j: usize = 0;
    while j < order.len()
        invariant
            j <= order@.len(),
            forall|k: int| 0 <= k < j ==> (#[trigger] assignments@[order@[k] as int]) is Some,
            forall|j: int| 0 <= j < order@.len() ==> (#[trigger] order@[j]) < assignments@.len(),
        decreases order.len() - j,
    {
        if assignments[order[j]].is_none() {
            return Some(order[j]);
        }
        j += 1;
    }
    None
}

/// Every clause of `f` has a literal that holds under the assignment `a`.
pub open spec fn satisfies(a: Seq<Option<bool>>, f: FormulaInstance) -> bool {
    forall|i: int| 0 <= i < f.clauses@.len() ==> (#[trigger] f.clauses@[i])@.satisfied_by(a)
}

/// The entry is implied, its literal is one of its clause's literals, and every other
/// literal of the clause fails under `a`.
pub open spec fn forced_by_reason(e: StackElem, a: Seq<Option<bool>>) -> bool {
    match e {
        StackElem::Implied(l, _, c) => exists|k: int|
            0 <= k < c@.literals.len() && #[trigger] c@.literals[k] == l && forall|j: int|
                0 <= j < c@.literals.len() && j != k ==> (#[trigger] c@.literals[j]).fails(a) && c@.literals[j].var()
                    < a.len(),
        StackElem::Chosen(_, _) => false,
    }
}

/// `g` is what unit propagation at the root makes of the formula `f` before any
/// decision: the same clauses (states brought up to date), the assignment of `f`
/// extended by forced literals only, and either a clause in conflict or no unit clause
/// left.
pub open spec fn root_outcome(f: FormulaInstance, g: FormulaInstance) -> bool {
    &&& g.wf()
    &&& g.states_current()
    &&& keeps_literals(g, f)
    &&& keeps_literals(f, g)
    &&& g.assignments@.len() == f.assignments@.len()
    &&& g.honest() == f.honest()
    &&& forall|v: int| 0 <= v < f.assignments@.len() && (#[trigger] f.assignments@[v]) is Some ==> g.assignments@[v]
        == f.assignments@[v]
    &&& f.honest() ==> forall|m: Seq<Option<bool>>| #[trigger] f.is_model(m) && extends(m, f.assignments@) ==> extends(
        m,
        g.assignments@,
    )
    &&& g.has_conflict() || !g.has_unit()
}

/// The clause watches two different positions, or has a single literal.
pub open spec fn watches_two(c: ClauseView) -> bool {
    c.pointer.0 != c.pointer.1 || c.literals.len() == 1
}

/// The clause `c` with its watched positions kept where they are two positions of
/// the clause (or the one position of a single literal), and otherwise moved to the
/// first two positions (the first one, for a single literal), as a new clause has them.
pub open spec fn rewatch(c: ClauseView) -> ClauseView {
    let n = c.literals.len();
    if c.pointer.0 < n && c.pointer.1 < n && (c.pointer.0 != c.pointer.1 || n == 1) {
        c
    } else {
        ClauseView { literals: c.literals, state: c.state, pointer: (0usize, if n > 1 { 1usize } else { 0usize }) }
    }
}

/// What conflict analysis ends with.
#[derive(Debug)]
pub enum AnalysisOutcome {
    /// No decision is on the trail: the conflict cannot be undone.
    Unsatisfiable,
    /// The learnt clause and the level to backtrack to.
    Learnt(TwoPointerClause, isize),
    /// The resolution steps ran over their budget, a literal of the learnt clause has
    /// no entry on the trail, the learnt clause is empty, or it names a variable the
    /// formula does not have.
    GaveUp,
}

/// How a search ends. Apart from `Satisfiable`, `Unsatisfiable` and `PeerStopped`,
/// each names a point where the search cannot go on without breaking a rule of the
/// data (an index past a clause, a clause state that is not what the step needs) or a
/// machine limit.
#[derive(Clone, Copy, Debug, PartialEq, Eq, Structural)]
pub enum SearchEnd {
    /// Every variable is assigned and every clause satisfied.
    Satisfiable,
    /// A conflict that no decision on the trail can undo.
    Unsatisfiable,
    /// Sending a learnt clause failed: another solver has stopped listening.
    PeerStopped,
    /// Conflict analysis gave up (see `AnalysisOutcome::GaveUp`).
    AnalysisGaveUp,
    /// The learnt clause is not unit after backtracking.
    LearntNotUnit,
    /// The decision level would leave the range of `isize`.
    LevelOverflow,
    /// The budget of rounds ran out.
    RoundsSpent,
}

pub struct CdClInstance {
    pub formula: FormulaInstance,
    stack: Vec<StackElem>,
    receiver: Option<Receiver<TwoPointerClause>>,
    senders: Vec<Sender<TwoPointerClause>>,
    ending: Option<SearchEnd>,
}

impl CdClInstance {
    /// The formula with its current assignment.
    pub closed spec fn spec_formula(&self) -> FormulaInstance {
        self.formula
    }

    /// How the last run of `sat` ended; `None` before the first one.
    pub closed spec fn ending(&self) -> Option<SearchEnd> {
        self.ending
    }

    /// How the last run of `sat` ended; `None` before the first one.
    pub fn last_ending(&self) -> (r: Option<SearchEnd>)
        ensures
            r == self.ending(),
    {
        self.ending
    }

    /// The solver takes clauses from other solvers.
    pub closed spec fn listens(&self) -> bool {
        self.receiver is Some
    }

    /// The number of other solvers the solver sends its learnt clauses to.
    pub closed spec fn sender_count(&self) -> nat {
        self.senders@.len()
    }

    /// The trail is empty and no variable is assigned: nothing has been searched yet.
    pub open spec fn fresh(&self) -> bool {
        &&& self.trail().len() == 0
        &&& forall|v: int| 0 <= v < self.spec_formula().assignments@.len() ==> (#[trigger] self.spec_formula().assignments@[v]) is None
    }

    /// The assignment trail, oldest entry first.
    pub closed spec fn trail(&self) -> Seq<StackElem> {
        self.stack@
    }

    /// The solver state is coherent: the formula is well formed, every trail entry
    /// sets a variable of the formula, and every recorded level leaves room above it.
    pub closed spec fn inv(&self) -> bool {
        &&& self.formula.wf()
        &&& forall|i: int| 0 <= i < self.stack@.len() ==> (#[trigger] self.stack@[i]).lit().var()
            < self.formula.assignments@.len()
        &&& forall|i: int| 0 <= i < self.stack@.len() ==> (#[trigger] self.stack@[i]).level() < isize::MAX
    }

    ///makes unitPropagation until there is a conflict (returns the conflicting clause) else it returns None
    /// else means: either every variable is assigned or you have to choose one variable
    pub fn unitPropagation(&mut self, level: isize) -> (r: Option<TwoPointerClause>)
        requires
            old(self).inv(),
            level < isize::MAX,
        ensures
            final(self).inv(),
            final(self).spec_formula().wf(),
            final(self).spec_formula().states_current(),
            keeps_literals(final(self).spec_formula(), old(self).spec_formula()),
            keeps_literals(old(self).spec_formula(), final(self).spec_formula()),
            final(self).sender_count() == old(self).sender_count(),
            old(self).trail().len() <= final(self).trail().len(),
            final(self).trail().len() - old(self).trail().len() == old(self).spec_formula().unassigned_count()
                - final(self).spec_formula().unassigned_count(),
            forall|i: int| old(self).trail().len() <= i < final(self).trail().len() ==> (#[trigger] old(self).spec_formula().assignments@[
                final(self).trail()[i].lit().var() as int]) is None,
            old(self).spec_formula().honest() ==> forall|i: int| old(self).trail().len() <= i < final(self).trail().len()
                ==> forced_by_reason(#[trigger] final(self).trail()[i], final(self).spec_formula().assignments@),
            forall|v: int| 0 <= v < old(self).spec_formula().assignments@.len()
                && (#[trigger] final(self).spec_formula().assignments@[v]) != old(self).spec_formula().assignments@[v]
                ==> old(self).spec_formula().assignments@[v] is None && exists|i: int|
                    old(self).trail().len() <= i < final(self).trail().len() && (#[trigger] final(self).trail()[i]).lit().var() == v,
            forall|i: int| old(self).trail().len() <= i < final(self).trail().len() ==> ((#[trigger] final(self).trail()[i]) matches StackElem::Implied(_, _, c)
                && has_literals(final(self).spec_formula(), c@.literals)),
            forall|i: int| 0 <= i < old(self).trail().len() ==> final(self).trail()[i] == old(self).trail()[i],
            forall|i: int| old(self).trail().len() <= i < final(self).trail().len() ==> (#[trigger] final(self).trail()[i]) is Implied
                && final(self).trail()[i].level() == level
                && final(self).trail()[i].lit().holds(final(self).spec_formula().assignments@),
            final(self).spec_formula().assignments@.len() == old(self).spec_formula().assignments@.len(),
            forall|v: int| 0 <= v < old(self).spec_formula().assignments@.len() && (#[trigger] old(self).spec_formula().assignments@[v]) is Some
                ==> final(self).spec_formula().assignments@[v] == old(self).spec_formula().assignments@[v],
            forall|m: Seq<Option<bool>>| #[trigger] final(self).spec_formula().is_model(m) <==> old(self).spec_formula().is_model(m),
            final(self).spec_formula().honest() == old(self).spec_formula().honest(),
            final(self).listens() == old(self).listens(),
            consistent(old(self).trail(), old(self).spec_formula().assignments@) ==> consistent(
                final(self).trail(),
                final(self).spec_formula().assignments@,
            ),
            consistent(old(self).trail(), old(self).spec_formula().assignments@) && old(self).spec_formula().honest()
                && justified(old(self).trail(), old(self).spec_formula()) ==> justified(
                final(self).trail(),
                final(self).spec_formula(),
            ),
            old(self).spec_formula().honest() ==> forall|m: Seq<Option<bool>>|
                #[trigger] old(self).spec_formula().is_model(m) && extends(m, old(self).spec_formula().assignments@)
                    ==> extends(m, final(self).spec_formula().assignments@) && r is None,
            match r {
                Some(c) => final(self).spec_formula().clause_set().contains(c@) && c.state == ClauseState::Unsatisfiable,
                None => !final(self).spec_formula().has_conflict() && !final(self).spec_formula().has_unit(),
            },
    {
        proof {
            lemma_keeps_literals_refl(self.formula);
        }
        loop
            invariant
                self.inv(),
                keeps_literals(self.formula, old(self).formula),
                keeps_literals(old(self).formula, self.formula),
                old(self).trail().len() <= self.stack@.len(),
                forall|i: int| 0 <= i < old(self).trail().len() ==> self.stack@[i] == old(self).trail()[i],
                forall|i: int| old(self).trail().len() <= i < self.stack@.len() ==> (#[trigger] self.stack@[i]) is Implied
                    && self.stack@[i].level() == level
                    && self.stack@[i].lit().holds(self.formula.assignments@),
                self.formula.assignments@.len() == old(self).formula.assignments@.len(),
                forall|v: int| 0 <= v < old(self).formula.assignments@.len() && (#[trigger] old(self).formula.assignments@[v]) is Some
                    ==> self.formula.assignments@[v] == old(self).formula.assignments@[v],
                forall|m: Seq<Option<bool>>| #[trigger] self.formula.is_model(m) <==> old(self).formula.is_model(m),
                self.formula.honest() == old(self).formula.honest(),
                self.receiver == old(self).receiver,
                self.senders == old(self).senders,
                self.stack@.len() - old(self).trail().len() == old(self).formula.unassigned_count()
                    - self.formula.unassigned_count(),
                forall|i: int| old(self).trail().len() <= i < self.stack@.len() ==> (#[trigger] old(self).formula.assignments@[
                    self.stack@[i].lit().var() as int]) is None,
                old(self).formula.honest() ==> forall|i: int| old(self).trail().len() <= i < self.stack@.len()
                    ==> forced_by_reason(#[trigger] self.stack@[i], self.formula.assignments@),
                forall|v: int| 0 <= v < old(self).formula.assignments@.len()
                    && (#[trigger] self.formula.assignments@[v]) != old(self).formula.assignments@[v]
                    ==> old(self).formula.assignments@[v] is None && exists|i: int|
                        old(self).trail().len() <= i < self.stack@.len() && (#[trigger] self.stack@[i]).lit().var() == v,
                forall|i: int| old(self).trail().len() <= i < self.stack@.len() ==> ((#[trigger] self.stack@[i]) matches StackElem::Implied(_, _, c)
                    && has_literals(self.formula, c@.literals)),
                old(self).formula.honest() ==> forall|m: Seq<Option<bool>>|
                    #[trigger] old(self).formula.is_model(m) && extends(m, old(self).formula.assignments@)
                        ==> extends(m, self.formula.assignments@),
                consistent(old(self).trail(), old(self).formula.assignments@) ==> consistent(
                    self.stack@,
                    self.formula.assignments@,
                ),
                consistent(old(self).trail(), old(self).formula.assignments@) && old(self).formula.honest()
                    && justified(old(self).trail(), old(self).formula) ==> justified(self.stack@, self.formula),
                level < isize::MAX,
            decreases self.formula.unassigned_count(),
        {
            let ghost before = self.formula;
            let state = self.formula.form_state();
            proof {
                if justified(self.stack@, before) {
                    law_update_keeps_literals(self.formula, before);
                    lemma_justified_keeps(self.stack@, self.formula, before);
                }
                lemma_update_keeps_models(self.formula, before);
                law_update_keeps_literals(self.formula, before);
                lemma_keeps_literals_trans(self.formula, before, old(self).formula);
                lemma_keeps_literals_trans(old(self).formula, before, self.formula);
                assert forall|i: int| old(self).trail().len() <= i < self.stack@.len() implies ((#[trigger] self.stack@[i]) matches StackElem::Implied(_, _, c)
                    && has_literals(self.formula, c@.literals)) by {
                    if let StackElem::Implied(_, _, c) = self.stack@[i] {
                        crate::formula::lemma_keeps_has_literals(self.formula, before, c@.literals);
                    }
                }
            }
            match state {
                FormulaState::Unit(clause) => {
                    let ghost a = self.formula.assignments@;
                    proof {
                        lemma_member_state_current(self.formula, clause@);
                        crate::clause::law_updated_state_meaning(clause@, a);
                    }
                    let ghost quiet = self.formula;
                    let l = clause.chooseUnit(&mut self.formula.assignments);
                    proof {
                        if old(self).formula.honest() {
                            assert forall|m: Seq<Option<bool>>|
                                #[trigger] old(self).formula.is_model(m) && extends(m, old(self).formula.assignments@)
                                    implies extends(m, self.formula.assignments@) by {
                                assert(quiet.is_model(m));
                                assert(extends(m, a));
                                law_unit_clause_forces(quiet, clause@, m);
                            }
                        }
                        lemma_same_clauses_models(self.formula, quiet);
                        lemma_count_none_assign(a, l.var() as int, l.polarity());
                        lemma_same_clauses_keep(self.formula, quiet);
                        lemma_keeps_literals_trans(self.formula, quiet, old(self).formula);
                        lemma_keeps_literals_trans(old(self).formula, quiet, self.formula);
                    }
                    let ghost t_before = self.stack@;
                    let ghost cv = clause@;
                    proof {
                        let w = choose|w: int| 0 <= w < quiet.clauses@.len() && quiet.clauses@[w]@ == cv;
                        assert(quiet.clauses@[w].literals@ == cv.literals);
                        assert(self.formula.clauses@[w].literals@ == cv.literals);
                        assert(has_literals(self.formula, cv.literals));
                        assert forall|i: int| old(self).trail().len() <= i < t_before.len() implies ((#[trigger] t_before[i]) matches StackElem::Implied(_, _, c)
                            && has_literals(self.formula, c@.literals)) by {
                            if let StackElem::Implied(_, _, c) = t_before[i] {
                                assert(has_literals(quiet, c@.literals));
                                let w2 = choose|w2: int| 0 <= w2 < quiet.clauses@.len() && (#[trigger] quiet.clauses@[w2]).literals@ == c@.literals;
                                assert(self.formula.clauses@[w2].literals@ == c@.literals);
                            }
                        }
                    }
                    self.stack.push(StackElem::Implied(l, level, clause));
                    proof {
                        assert forall|v: int| 0 <= v < old(self).formula.assignments@.len()
                            && (#[trigger] self.formula.assignments@[v]) != old(self).formula.assignments@[v]
                            implies old(self).formula.assignments@[v] is None && exists|i: int|
                                old(self).trail().len() <= i < self.stack@.len() && (#[trigger] self.stack@[i]).lit().var() == v by {
                            if v == l.var() {
                                assert(self.stack@[self.stack@.len() - 1].lit().var() == v);
                            } else {
                                assert(a[v] != old(self).formula.assignments@[v]);
                                let i = choose|i: int| old(self).trail().len() <= i < t_before.len() && (#[trigger] t_before[i]).lit().var() == v;
                                assert(self.stack@[i].lit().var() == v);
                            }
                        }
                        assert forall|i: int| old(self).trail().len() <= i < self.stack@.len() implies ((#[trigger] self.stack@[i]) matches StackElem::Implied(_, _, c)
                            && has_literals(self.formula, c@.literals)) by {
                            if i < t_before.len() {
                                assert(self.stack@[i] == t_before[i]);
                            }
                        }
                        if consistent(old(self).trail(), old(self).formula.assignments@) {
                            let k = match cv.state {
                                ClauseState::Unit(k) => k as int,
                                _ => 0,
                            };
                            let e = self.stack@[self.stack@.len() - 1];
                            assert(self.stack@ == t_before.push(e));
                            let w = choose|w: int| 0 <= w < quiet.clauses@.len() && quiet.clauses@[w]@ == cv;
                            assert(quiet.clauses@[w].literals@ == cv.literals);
                            assert(has_literals(quiet, cv.literals));
                            if old(self).formula.honest() && justified(old(self).trail(), old(self).formula) {
                                assert(quiet.clauses@[w].pointer.0 != quiet.clauses@[w].pointer.1
                                    || quiet.clauses@[w].literals@.len() == 1);
                                lemma_push_implied(t_before, a, quiet, e, cv, k);
                                lemma_same_clauses_keep(self.formula, quiet);
                                lemma_justified_keeps(self.stack@, self.formula, quiet);
                            } else {
                                crate::trail::lemma_push_keeps_consistent(t_before, a, e);
                            }
                        }
                        assert forall|i: int| old(self).trail().len() <= i < self.stack@.len() implies (#[trigger] self.stack@[i]).lit().holds(self.formula.assignments@) by {
                            if i < self.stack@.len() - 1 {
                                assert(self.stack@[i].lit().holds(a));
                                assert(a[l.var() as int] is None);
                            }
                        }
                    }
                },
                FormulaState::Conflict(clause) => {
                    proof {
                        if old(self).formula.honest() {
                            assert forall|m: Seq<Option<bool>>|
                                !(#[trigger] old(self).formula.is_model(m) && extends(m, old(self).formula.assignments@)) by {
                                law_conflict_refutes(self.formula, clause@, m);
                            }
                        }
                    }
                    return Some(clause);
                },
                FormulaState::Else => {
                    return None;
                },
            }
        }
    }

    /// chooses the variable which should be tried next (in a Choose-step): the first
    /// unassigned variable in a random order of all variables
    pub fn getUnassignedVariable(&mut self, random: &mut ThreadRng) -> (r: usize)
        requires
            exists|v: int| 0 <= v < old(self).spec_formula().assignments@.len() && old(self).spec_formula().assignments@[v] is None,
        ensures
            *final(self) == *old(self),
            r < final(self).spec_formula().assignments@.len(),
            final(self).spec_formula().assignments@[r as int] is None,
    {
        let n = self.formula.assignments.len();
        let mut order: Vec<usize> = Vec::new();
        let mut i: usize = 0;
        while i < n
            invariant
                i <= n,
                order@.len() == i,
                forall|k: int| 0 <= k < i ==> order@[k] == k,
            decreases n - i,
        {
            order.push(i);
            i += 1;
        }
        let ghost ordered = order@;
        shuffle_indices(random, &mut order);
        proof {
            ordered.to_multiset_ensures();
            order@.to_multiset_ensures();
            assert forall|j: int| 0 <= j < order@.len() implies (#[trigger] order@[j]) < n by {
                assert(order@.contains(order@[j]));
                assert(order@.to_multiset().count(order@[j]) > 0);
                assert(ordered.to_multiset().count(order@[j]) > 0);
                assert(ordered.contains(order@[j]));
            }
        }
        match first_unassigned_in(&order, &self.formula.assignments) {
            Some(x) => x,
            None => {
                proof {
                    let v = choose|v: int| 0 <= v < n && self.formula.assignments@[v] is None;
                    assert(ordered[v] == v);
                    assert(ordered.contains(v as usize));
                    assert(ordered.to_multiset().count(v as usize) > 0);
                    assert(order@.to_multiset().count(v as usize) > 0);
                    assert(order@.contains(v as usize));
                }
                vstd::pervasive::unreached()
            },
        }
    }

    /// adds the clause to the own formula and notifies the other threads that a new clause was found
    /// returns if one of the other Threads has terminated (then the formula is left as it is)
    pub fn foundNewClause(&mut self, clausee: &TwoPointerClause) -> (r: bool)
        requires
            old(self).inv(),
            clausee@.fits(old(self).spec_formula().assignments@.len()),
        ensures
            final(self).inv(),
            final(self).trail() == old(self).trail(),
            final(self).spec_formula().assignments@ == old(self).spec_formula().assignments@,
            keeps_literals(final(self).spec_formula(), old(self).spec_formula()),
            final(self).listens() == old(self).listens(),
            final(self).sender_count() == old(self).sender_count(),
            old(self).sender_count() == 0 ==> !r,
            old(self).spec_formula().honest() && watches_two(clausee@) ==> final(self).spec_formula().honest(),
            r ==> final(self).spec_formula() == old(self).spec_formula(),
            !r ==> final(self).spec_formula().clause_set() == old(self).spec_formula().clause_set().insert(clausee@),
    {
        let mut i: usize = 0;
        while i < self.senders.len()
            invariant
                *self == *old(self),
                self.inv(),
                clausee@.fits(self.formula.assignments@.len()),
            decreases self.senders.len() - i,
        {
            if !send_clause(&self.senders[i], clausee.clone()) {
                proof {
                    lemma_keeps_literals_refl(self.formula);
                }
                return true;
            }
            i += 1;
        }
        let ghost before = self.formula;
        let added = clausee.clone();
        self.formula.add_clause(added);
        proof {
            lemma_add_keeps(self.formula, before);
            if before.honest() && watches_two(clausee@) {
                assert forall|i: int| 0 <= i < self.formula.clauses@.len() implies (#[trigger] self.formula.clauses@[i]).pointer.0
                    != self.formula.clauses@[i].pointer.1 || self.formula.clauses@[i].literals@.len() == 1 by {
                    if i >= before.clauses@.len() {
                        assert(self.formula.clauses@[i] == added);
                    } else {
                        assert(self.formula.clauses@[i] == before.clauses@[i]);
                    }
                }
            }
        }
        false
    }

    /// checks if the channel received new clauses from other threads and adds them
    /// (those the formula can hold; see `add_received_clauses`);
    /// returns true if new clauses are found from other threads
    pub fn checkReceiverForNewClauses(&mut self) -> (r: bool)
        requires
            old(self).inv(),
        ensures
            final(self).inv(),
            final(self).trail() == old(self).trail(),
            final(self).spec_formula().assignments@ == old(self).spec_formula().assignments@,
            keeps_literals(final(self).spec_formula(), old(self).spec_formula()),
            old(self).spec_formula().clause_set().subset_of(final(self).spec_formula().clause_set()),
            final(self).listens() == old(self).listens(),
            final(self).sender_count() == old(self).sender_count(),
            !old(self).listens() ==> final(self).spec_formula() == old(self).spec_formula() && !r,
    {
        let received = match &self.receiver {
            None => {
                proof {
                    lemma_keeps_literals_refl(self.formula);
                }
                return false;
            },
            Some(receiver) => receive_pending(receiver),
        };
        self.add_received_clauses(received)
    }

    /// Adds the clauses that other solvers sent, each that the formula can hold: a
    /// clause that names a variable the formula does not have, or watches a position it
    /// does not have, is left out (updating its state would index past the clause or
    /// the assignment). Returns whether any clause arrived.
    pub fn add_received_clauses(&mut self, received: Vec<TwoPointerClause>) -> (r: bool)
        requires
            old(self).inv(),
        ensures
            final(self).inv(),
            final(self).trail() == old(self).trail(),
            final(self).spec_formula().assignments@ == old(self).spec_formula().assignments@,
            keeps_literals(final(self).spec_formula(), old(self).spec_formula()),
            final(self).listens() == old(self).listens(),
            final(self).sender_count() == old(self).sender_count(),
            final(self).spec_formula().clause_set() == old(self).spec_formula().clause_set().union(
                Set::new(|c: ClauseView| crate::formula::has_view(received@, c) && c.fits(old(self).spec_formula().assignments@.len())),
            ),
            r == (received@.len() > 0),
    {
        let ghost n0 = self.formula.assignments@.len();
        proof {
            lemma_keeps_literals_refl(self.formula);
        }
        let n = self.formula.assignments.len();
        let mut i: usize = 0;
        while i < received.len()
            invariant
                self.inv(),
                self.stack@ == old(self).trail(),
                self.formula.assignments@ == old(self).formula.assignments@,
                n == self.formula.assignments@.len(),
                n0 == n,
                i <= received@.len(),
                keeps_literals(self.formula, old(self).formula),
                self.receiver == old(self).receiver,
                self.senders == old(self).senders,
                self.formula.clause_set() == old(self).formula.clause_set().union(
                    Set::new(|c: ClauseView| crate::formula::has_view(received@.take(i as int), c) && c.fits(n0)),
                ),
            decreases received.len() - i,
        {
            let ghost pre = received@.take(i as int);
            let ghost post = received@.take(i + 1);
            let ghost before = self.formula;
            let fits = clause_fits(&received[i], n);
            if fits {
                self.formula.add_clause(received[i].clone());
                proof {
                    lemma_add_keeps(self.formula, before);
                    lemma_keeps_literals_trans(self.formula, before, old(self).formula);
                }
            }
            proof {
                assert forall|c: ClauseView| #[trigger] crate::formula::has_view(post, c) <==> (crate::formula::has_view(pre, c)
                    || c == received@[i as int]@) by {
                    if crate::formula::has_view(post, c) {
                        let j = choose|j: int| 0 <= j < post.len() && post[j]@ == c;
                        if j < i {
                            assert(pre[j]@ == c);
                        }
                    }
                    if crate::formula::has_view(pre, c) {
                        let j = choose|j: int| 0 <= j < pre.len() && pre[j]@ == c;
                        assert(post[j]@ == c);
                    }
                    if c == received@[i as int]@ {
                        assert(post[i as int]@ == c);
                    }
                }
                assert(self.formula.clause_set() =~= old(self).formula.clause_set().union(
                    Set::new(|c: ClauseView| crate::formula::has_view(post, c) && c.fits(n0)),
                ));
            }
            i += 1;
        }
        proof {
            assert(received@.take(i as int) =~= received@);
        }
        received.len() > 0
    }

    /// finds possibly a new clause and adds it to the formula: resolves the conflict
    /// clause with the antecedents of the implied entries of `level` on top of the
    /// trail, and computes the level to backtrack to. The learnt clause keeps the
    /// watched positions of the last antecedent where they are two positions of it;
    /// otherwise it watches its first two positions, as a new clause does (see
    /// `rewatch`). `Unsatisfiable` when the trail holds no decision; `GaveUp` where the
    /// search for the clause or its levels fails, or the clause is empty.
    pub fn conflictAnalysis(&mut self, clause: TwoPointerClause, level: isize) -> (r: AnalysisOutcome)
        requires
            old(self).inv(),
        ensures
            final(self).inv(),
            final(self).trail() == old(self).trail(),
            final(self).spec_formula().assignments@ == old(self).spec_formula().assignments@,
            final(self).listens() == old(self).listens(),
            final(self).sender_count() == old(self).sender_count(),
            keeps_literals(final(self).spec_formula(), old(self).spec_formula()),
            match r {
                AnalysisOutcome::Learnt(lc, _) => {
                    &&& final(self).spec_formula().clause_set() == old(self).spec_formula().clause_set().insert(lc@)
                    &&& lc@.fits(old(self).spec_formula().assignments@.len())
                    &&& watches_two(lc@)
                    &&& old(self).spec_formula().honest() ==> final(self).spec_formula().honest()
                },
                _ => *final(self) == *old(self),
            },
            !has_chosen(old(self).trail()) <==> r is Unsatisfiable,
            has_chosen(old(self).trail()) ==> match learn(old(self).trail(), clause@, level, analysis_budget()) {
                None => r is GaveUp,
                Some(c) => if levels_known(old(self).trail(), c.literals) && c.literals.len() > 0 && rewatch(c).fits(
                    old(self).spec_formula().assignments@.len(),
                ) {
                    r matches AnalysisOutcome::Learnt(lc, b) && lc@ == rewatch(c) && b == backjump_level(
                        literal_levels(old(self).trail(), c.literals),
                    )
                } else {
                    r is GaveUp
                },
            },
            r matches AnalysisOutcome::Learnt(_, b) ==> -1 <= b,
            r matches AnalysisOutcome::Learnt(lc, b) ==> ({
                let lv = literal_levels(old(self).trail(), lc@.literals);
                forall|i: int|
                    0 <= i < lv.len() && -1 < #[trigger] lv[i] && (forall|j: int| 0 <= j < lv.len() && j != i ==> lv[j] < lv[i])
                        ==> {
                        &&& 0 <= b <= lv[i]
                        &&& forall|j: int| 0 <= j < lv.len() && j != i ==> lv[j] < b
                        &&& b == 0 || exists|j: int| 0 <= j < lv.len() && j != i && lv[j] == b - 1
                    }
            }),
            consistent(old(self).trail(), old(self).spec_formula().assignments@) && justified(
                old(self).trail(),
                old(self).spec_formula(),
            ) && has_literals(old(self).spec_formula(), clause@.literals) && (forall|i: int|
                0 <= i < clause@.literals.len() ==> (#[trigger] clause@.literals[i]).fails(
                    old(self).spec_formula().assignments@,
                ) && clause@.literals[i].var() < old(self).spec_formula().assignments@.len()) ==> (r matches AnalysisOutcome::Learnt(
                lc,
                _,
            ) ==> (forall|m: Seq<Option<bool>>| #[trigger] old(self).spec_formula().is_model(m) ==> list_satisfied(
                lc@.literals,
                m,
            )) && (forall|i: int| 0 <= i < lc@.literals.len() ==> (#[trigger] lc@.literals[i]).fails(
                old(self).spec_formula().assignments@,
            ))),
            reasons_fail(old(self).trail(), old(self).spec_formula().assignments@) && (forall|i: int|
                0 <= i < clause@.literals.len() ==> (#[trigger] clause@.literals[i]).fails(
                    old(self).spec_formula().assignments@,
                )) ==> (r matches AnalysisOutcome::Learnt(lc, _) ==> forall|i: int| 0 <= i < lc@.literals.len()
                ==> (#[trigger] lc@.literals[i]).fails(old(self).spec_formula().assignments@)),
    {
        proof {
            lemma_keeps_literals_refl(self.formula);
        }
        let ghost t = self.stack@;
        let ghost f = self.formula;
        let ghost a = self.formula.assignments@;
        let ghost sound = consistent(t, a) && justified(t, f) && has_literals(f, clause@.literals) && (forall|i: int|
            0 <= i < clause@.literals.len() ==> (#[trigger] clause@.literals[i]).fails(a) && clause@.literals[i].var()
                < a.len());
        let ghost weak = reasons_fail(t, a) && (forall|i: int|
            0 <= i < clause@.literals.len() ==> (#[trigger] clause@.literals[i]).fails(a));
        proof {
            if sound {
                assert forall|m: Seq<Option<bool>>| #[trigger] f.is_model(m) implies list_satisfied(clause@.literals, m) by {
                    lemma_model_satisfies_member(f, clause@.literals, m);
                }
            }
        }
        let mut foundNonImplied = false;
        let mut s: usize = 0;
        while s < self.stack.len()
            invariant_except_break
                !foundNonImplied,
            invariant
                s <= self.stack@.len(),
                forall|k: int| 0 <= k < s ==> !(self.stack@[k] is Chosen),
            ensures
                foundNonImplied ==> has_chosen(self.stack@),
                !foundNonImplied ==> !has_chosen(self.stack@),
            decreases self.stack.len() - s,
        {
            if let StackElem::Chosen(_, _) = &self.stack[s] {
                foundNonImplied = true;
                break;
            }
            s += 1;
        }
        if !foundNonImplied {
            return AnalysisOutcome::Unsatisfiable;
        }

        let ghost c0 = clause@;
        let mut current = clause;
        let mut counter: u32 = 0;
        loop
            invariant_except_break
                counter <= analysis_budget(),
                learn(t, c0, level, analysis_budget()) == learn(t, current@, level, (analysis_budget() - counter) as nat),
            invariant
                self.stack@ == t,
                t == old(self).trail(),
                has_chosen(t),
                c0 == clause@,
                old(self).inv(),
                *self == *old(self),
                f == old(self).formula,
                a == f.assignments@,
                sound ==> consistent(t, a) && justified(t, f),
                weak ==> forall|i: int| 0 <= i < current@.literals.len() ==> (#[trigger] current@.literals[i]).fails(a),
                weak == (reasons_fail(t, a) && (forall|i: int|
                    0 <= i < clause@.literals.len() ==> (#[trigger] clause@.literals[i]).fails(a))),
                sound ==> forall|i: int| 0 <= i < current@.literals.len() ==> (#[trigger] current@.literals[i]).fails(a)
                    && current@.literals[i].var() < a.len(),
                sound ==> forall|m: Seq<Option<bool>>| #[trigger] f.is_model(m) ==> list_satisfied(current@.literals, m),
            ensures
                learn(t, c0, level, analysis_budget()) == Some(current@),
            decreases analysis_budget() + 1 - counter,
        {
            counter += 1;
            if counter > 2000 {
                proof {
                    lemma_keeps_literals_refl(self.formula);
                }
                return AnalysisOutcome::GaveUp;
            }
            let mut stackElem: Option<StackElem> = None;
            let mut i: usize = 0;
            while i < current.literals.len()
                invariant_except_break
                    stackElem is None,
                    pivot_entry(t, current@.literals, level, 0) == pivot_entry(t, current@.literals, level, i as int),
                invariant
                    i <= current.literals@.len(),
                    self.stack@ == t,
                ensures
                    match pivot_entry(t, current@.literals, level, 0) {
                        Some(k) => stackElem matches Some(e) && e@ == t[k]@ && t[k] is Implied && 0 <= k < t.len()
                            && exists|idx: int| 0 <= idx < current@.literals.len() && t[k].lit().var() == (#[trigger] current@.literals[idx]).var(),
                        None => stackElem is None,
                    },
                decreases current.literals.len() - i,
            {
                stackElem = self.findInStack(current.literals[i].value(), level);
                proof {
                    lemma_find_implied(t, current.literals@[i as int].var(), level, t.len() as int);
                    lemma_pivot_entry(t, current@.literals, level, i as int);
                }
                if stackElem.is_some() {
                    break;
                }
                i += 1;
            }
            match stackElem {
                Some(elem) => {
                    let ghost before = current@;
                    current = current.resolute(&elem);
                    assert(current@ == resolve_with(elem@, before));
                    proof {
                        if sound {
                            let k = pivot_entry(t, before.literals, level, 0)->0;
                            let idx = choose|idx: int| 0 <= idx < before.literals.len() && t[k].lit().var() == (#[trigger] before.literals[idx]).var();
                            lemma_resolution_step(t, a, f, before.literals, k, idx);
                        }
                        if weak {
                            let k = pivot_entry(t, before.literals, level, 0)->0;
                            let ante = t[k]@.2->0.literals;
                            assert forall|i: int| 0 <= i < ante.len() && (#[trigger] ante[i]).var() != t[k].lit().var()
                                implies ante[i].fails(a) by {
                                assert((t[k]@.2->0).literals[i] == ante[i]);
                            }
                            lemma_resolvent_fails(ante, before.literals, t[k].lit().var(), a);
                        }
                    }
                },
                None => {
                    break;
                },
            }
        }

        let ghost lits = current@.literals;
        let mut highest: isize = -1;
        let mut secondHighest: isize = -1;
        let mut i: usize = 0;
        while i < current.literals.len()
            invariant
                i <= lits.len(),
                current@.literals == lits,
                self.stack@ == t,
                t == old(self).trail(),
                has_chosen(t),
                c0 == clause@,
                f == old(self).formula,
                sound ==> forall|m: Seq<Option<bool>>| #[trigger] f.is_model(m) ==> list_satisfied(current@.literals, m),
                sound ==> forall|i: int| 0 <= i < current@.literals.len() ==> (#[trigger] current@.literals[i]).fails(a),
                weak ==> forall|i: int| 0 <= i < current@.literals.len() ==> (#[trigger] current@.literals[i]).fails(a),
                weak == (reasons_fail(t, a) && (forall|i: int|
                    0 <= i < clause@.literals.len() ==> (#[trigger] clause@.literals[i]).fails(a))),
                a == f.assignments@,
                learn(t, c0, level, analysis_budget()) == Some(current@),
                *self == *old(self),
                old(self).inv(),
                forall|k: int| 0 <= k < i ==> (#[trigger] level_of(t, lits[k].var(), t.len() as int)) is Some,
                (highest, secondHighest) == top_two(literal_levels(t, lits).take(i as int)),
                -1 <= secondHighest < isize::MAX,
                -1 <= highest < isize::MAX,
            decreases current.literals.len() - i,
        {
            let lv = match self.level_on_trail(current.literals[i].value()) {
                Some(lv) => lv,
                None => {
                    proof {
                        lemma_keeps_literals_refl(self.formula);
                    }
                    return AnalysisOutcome::GaveUp;
                },
            };
            proof {
                lemma_level_of_bounded(t, lits[i as int].var(), t.len() as int);
                assert(literal_levels(t, lits).take(i + 1).drop_last() =~= literal_levels(t, lits).take(i as int));
            }
            if lv > highest {
                secondHighest = highest;
                highest = lv;
            } else {
                secondHighest = if secondHighest >= lv { secondHighest } else { lv };
            }
            i += 1;
        }
        assert(literal_levels(t, lits).take(lits.len() as int) =~= literal_levels(t, lits));
        let backjump: isize = if highest == secondHighest { -1 } else { secondHighest + 1 };
        proof {
            law_backjump_level(literal_levels(t, lits));
        }
        let len = current.literals.len();
        if len == 0 {
            proof {
                lemma_keeps_literals_refl(self.formula);
            }
            return AnalysisOutcome::GaveUp;
        }
        let (p0, p1) = current.pointer;
        if !(p0 < len && p1 < len && (p0 != p1 || len == 1)) {
            current.pointer = (0, if len > 1 { 1 } else { 0 });
        }
        assert(current@ == rewatch(learn(t, c0, level, analysis_budget())->0));
        if !clause_fits(&current, self.formula.assignments.len()) {
            proof {
                lemma_keeps_literals_refl(self.formula);
            }
            return AnalysisOutcome::GaveUp;
        }
        let ghost before = self.formula;
        let added = current.clone();
        self.formula.add_clause(added);
        proof {
            lemma_add_keeps(self.formula, before);
            if before.honest() {
                assert forall|i: int| 0 <= i < self.formula.clauses@.len() implies (#[trigger] self.formula.clauses@[i]).pointer.0
                    != self.formula.clauses@[i].pointer.1 || self.formula.clauses@[i].literals@.len() == 1 by {
                    if i >= before.clauses@.len() {
                        assert(self.formula.clauses@[i] == added);
                        assert(added@ == current@);
                    } else {
                        assert(self.formula.clauses@[i] == before.clauses@[i]);
                    }
                }
            }
        }
        AnalysisOutcome::Learnt(current, backjump)
    }

    /// backtracks until the choice of the passed level: every entry down to and
    /// including the topmost chosen entry of `level` is removed and its variable
    /// unassigned; then the learnt clause, brought up to date, must be unit, and its
    /// literal is set as implied one level below. Without a chosen entry of `level`
    /// the whole trail is removed. `false` when the learnt clause is not unit there.
    pub fn backtrack(&mut self, level: isize, learntClause: TwoPointerClause) -> (r: bool)
        requires
            old(self).inv(),
            chosen_at(old(self).trail(), level, old(self).trail().len() as int) is Some ==> learntClause@.fits(
                old(self).spec_formula().assignments@.len(),
            ),
            level > isize::MIN,
        ensures
            final(self).inv(),
            final(self).spec_formula().clauses@ == old(self).spec_formula().clauses@,
            final(self).spec_formula().assignments@.len() == old(self).spec_formula().assignments@.len(),
            final(self).listens() == old(self).listens(),
            final(self).sender_count() == old(self).sender_count(),
            ({
                let t = old(self).trail();
                match chosen_at(t, level, t.len() as int) {
                    None => r && final(self).trail() == Seq::<StackElem>::empty() && final(self).spec_formula().assignments@
                        == unassigned_from(old(self).spec_formula().assignments@, t),
                    Some(j) => {
                        let a1 = unassigned_from(old(self).spec_formula().assignments@, t.skip(j));
                        let st = updated_state(learntClause@.literals, a1, learntClause@.pointer);
                        &&& final(self).trail().take(j) == t.take(j)
                        &&& (r <==> st is Unit)
                        &&& r ==> (st matches ClauseState::Unit(k) && {
                            let l = learntClause@.literals[k as int];
                            &&& final(self).trail().len() == j + 1
                            &&& final(self).trail()[j]@ == (l, (level - 1) as isize, Some(
                                ClauseView { literals: learntClause@.literals, state: st, pointer: learntClause@.pointer },
                            ))
                            &&& final(self).spec_formula().assignments@ == a1.update(l.var() as int, Some(l.polarity()))
                        })
                        &&& !r ==> final(self).trail() == t.take(j) && final(self).spec_formula().assignments@ == a1
                    },
                }
            }),
            consistent(old(self).trail(), old(self).spec_formula().assignments@) ==> consistent(
                final(self).trail(),
                final(self).spec_formula().assignments@,
            ),
            consistent(old(self).trail(), old(self).spec_formula().assignments@) && justified(
                old(self).trail(),
                old(self).spec_formula(),
            ) && old(self).spec_formula().honest() && old(self).spec_formula().clause_set().contains(learntClause@)
                ==> justified(final(self).trail(), final(self).spec_formula()),
    {
        let ghost t = self.stack@;
        let ghost a0 = self.formula.assignments@;
        let ghost n = a0.len();
        let ghost learnt0 = learntClause@;
        let mut learnt = learntClause;
        assert(t.skip(t.len() as int) =~= Seq::<StackElem>::empty());
        assert(unassigned_from(a0, t.skip(t.len() as int)) =~= a0);
        while !self.stack.is_empty()
            invariant
                self.stack@ == t.take(self.stack@.len() as int),
                self.stack@.len() <= t.len(),
                t == old(self).trail(),
                a0 == old(self).formula.assignments@,
                n == a0.len(),
                self.formula.clauses@ == old(self).formula.clauses@,
                self.formula.assignments@ == unassigned_from(a0, t.skip(self.stack@.len() as int)),
                chosen_at(t, level, t.len() as int) == chosen_at(t, level, self.stack@.len() as int),
                old(self).inv(),
                chosen_at(t, level, t.len() as int) is Some ==> learnt@.fits(n),
                learnt@ == learnt0,
                learnt0 == learntClause@,
                level > isize::MIN,
                self.receiver == old(self).receiver,
                self.senders == old(self).senders,
            decreases self.stack@.len(),
        {
            let ghost i = self.stack@.len() as int;
            let elem = self.stack.pop().unwrap();
            assert(elem == t[i - 1]);
            let ghost before = self.formula.assignments@;
            proof {
                assert(t.skip(i - 1) =~= seq![t[i - 1]].add(t.skip(i)));
                assert(self.stack@ =~= t.take(i - 1));
            }
            match elem {
                StackElem::Chosen(literal, currentLevel) => {
                    self.formula.choose_variable(literal.value(), None);
                    proof {
                        lemma_unassign_one_more(a0, t, i);
                    }
                    if currentLevel == level {
                        assert(chosen_at(t, level, i) == Some(i - 1));
                        learnt.update_clause_state(&self.formula.assignments);
                        let ghost a1 = self.formula.assignments@;
                        proof {
                            assert(learnt@.literals.len() == learnt.literals.len());
                            crate::clause::law_updated_state_meaning(learnt@, a1);
                        }
                        if let ClauseState::Unit(_) = learnt.state {
                            let ghost lv = learnt@;
                            let l = learnt.chooseUnit(&mut self.formula.assignments);
                            let ghost t2 = self.stack@;
                            self.stack.push(StackElem::Implied(l, level - 1, learnt));
                            proof {
                                assert(chosen_at(t, level, i) == Some(i - 1));
                                assert(self.stack@.take(i - 1) =~= t.take(i - 1));
                                if consistent(t, a0) {
                                    let f0 = old(self).formula;
                                    lemma_cut_keeps(t, a0, f0, i - 1);
                                    let k = match lv.state {
                                        ClauseState::Unit(k) => k as int,
                                        _ => 0,
                                    };
                                    let e = self.stack@[i - 1];
                                    assert(self.stack@ == t2.push(e));
                                    if justified(t, f0) && f0.honest() && f0.clause_set().contains(learnt0) {
                                        let w = choose|w: int| 0 <= w < f0.clauses@.len() && f0.clauses@[w]@ == learnt0;
                                        assert(f0.clauses@[w].literals@ == lv.literals);
                                        assert(has_literals(f0, lv.literals));
                                        assert(f0.clauses@[w].pointer.0 != f0.clauses@[w].pointer.1
                                            || f0.clauses@[w].literals@.len() == 1);
                                        lemma_push_implied(t2, a1, f0, e, lv, k);
                                        lemma_same_clauses_keep(self.formula, f0);
                                        lemma_justified_keeps(self.stack@, self.formula, f0);
                                    } else {
                                        crate::trail::lemma_push_keeps_consistent(t2, a1, e);
                                    }
                                }
                            }
                            return true;
                        } else {
                            proof {
                                assert(chosen_at(t, level, i) == Some(i - 1));
                                assert(self.stack@.take(i - 1) =~= t.take(i - 1));
                                if consistent(t, a0) {
                                    let f0 = old(self).formula;
                                    lemma_cut_keeps(t, a0, f0, i - 1);
                                    if justified(t, f0) {
                                        lemma_same_clauses_keep(self.formula, f0);
                                        lemma_justified_keeps(self.stack@, self.formula, f0);
                                    }
                                }
                            }
                            return false;
                        }
                    }
                },
                StackElem::Implied(literal, _, _) => {
                    self.formula.choose_variable(literal.value(), None);
                    proof {
                        lemma_unassign_one_more(a0, t, i);
                    }
                },
            }
        }
        assert(t.skip(0) =~= t);
        proof {
            if consistent(t, a0) {
                lemma_cut_keeps(t, a0, old(self).formula, 0);
                assert(t.take(0) =~= self.stack@);
                if justified(t, old(self).formula) {
                    lemma_same_clauses_keep(self.formula, old(self).formula);
                    lemma_justified_keeps(self.stack@, self.formula, old(self).formula);
                }
            }
        }
        true
    }

    /// finds the literal with the level in the Stack: the topmost implied entry of
    /// `level` above every chosen entry and every entry of another level that sets
    /// variable `literalValue`
    pub fn findInStack(&self, literalValue: usize, level: isize) -> (r: Option<StackElem>)
        ensures
            match find_implied(self.trail(), literalValue, level, self.trail().len() as int) {
                Some(k) => r matches Some(e) && e@ == self.trail()[k]@,
                None => r is None,
            },
    {
        let mut i = self.stack.len();
        while i > 0
            invariant
                i <= self.stack@.len(),
                find_implied(self.stack@, literalValue, level, self.stack@.len() as int) == find_implied(
                    self.stack@, literalValue, level, i as int),
            decreases i,
        {
            match &self.stack[i - 1] {
                StackElem::Implied(lit, lvl, _) => {
                    if *lvl != level {
                        return None;
                    }
                    if lit.value() == literalValue {
                        return Some(self.stack[i - 1].clone());
                    }
                },
                StackElem::Chosen(_, _) => {
                    return None;
                },
            }
            i -= 1;
        }
        None
    }

    /// The decision level of the topmost entry that sets variable `literalValue`,
    /// `None` if no entry does.
    pub fn level_on_trail(&self, literalValue: usize) -> (r: Option<isize>)
        ensures
            r == level_of(self.trail(), literalValue, self.trail().len() as int),
    {
        let mut i = self.stack.len();
        while i > 0
            invariant
                i <= self.stack@.len(),
                level_of(self.stack@, literalValue, self.stack@.len() as int) == level_of(
                    self.stack@, literalValue, i as int),
            decreases i,
        {
            match &self.stack[i - 1] {
                StackElem::Implied(lit, level, _) => {
                    if lit.value() == literalValue {
                        return Some(*level);
                    }
                },
                StackElem::Chosen(lit, level) => {
                    if lit.value() == literalValue {
                        return Some(*level);
                    }
                },
            }
            i -= 1;
        }
        None
    }

    /// finds the decision level of a literal in the stack: the level of the topmost
    /// entry that sets variable `literalValue`, which must be on the trail
    pub fn getLevel(&self, literalValue: usize) -> (r: isize)
        requires
            level_of(self.trail(), literalValue, self.trail().len() as int) is Some,
        ensures
            level_of(self.trail(), literalValue, self.trail().len() as int) == Some(r),
    {
        match self.level_on_trail(literalValue) {
            Some(l) => l,
            None => vstd::pervasive::unreached(),
        }
    }

    /// The clause that forced an implied entry; `None` for a chosen one.
    pub fn getAntecedent(elem: &StackElem) -> (r: Option<TwoPointerClause>)
        ensures
            match elem {
                StackElem::Implied(_, _, c) => r is Some && r->0@ == c@,
                StackElem::Chosen(_, _) => r is None,
            },
    {
        match elem {
            StackElem::Implied(_, _, c) => Some(c.clone()),
            StackElem::Chosen(_, _) => None,
        }
    }

    /// Runs the search: `Satisfiable` with every variable assigned and every clause,
    /// the initial ones among them, satisfied; `Unsatisfiable` on a conflict that no
    /// decision on the trail can undo; otherwise the reason the search stopped without
    /// an answer. Only a solver with someone to send to meets `PeerStopped`.
    ///
    /// An `Unsatisfiable` of a fresh solver that takes no clauses from others and
    /// starts from honest clauses (two distinct watched positions, or a single literal)
    /// is sound: the clauses it started with have no model. Learnt clauses stay honest
    /// (see `rewatch`); a received clause may not be, and may not follow from the
    /// formula, so for a listening solver the same holds only of the clauses it ends
    /// with, and only while they are honest.
    pub fn search(&mut self) -> (r: SearchEnd)
        requires
            old(self).inv(),
        ensures
            final(self).inv(),
            keeps_literals(final(self).spec_formula(), old(self).spec_formula()),
            final(self).spec_formula().assignments@.len() == old(self).spec_formula().assignments@.len(),
            r is Satisfiable ==> final(self).spec_formula().all_assigned() && final(self).spec_formula().all_satisfied(),
            r is Satisfiable ==> satisfies(final(self).spec_formula().assignments@, old(self).spec_formula()),
            r is Unsatisfiable ==> final(self).spec_formula().has_conflict(),
            r is Unsatisfiable ==> (has_chosen(final(self).trail()) ==> has_chosen(old(self).trail())),
            r is Unsatisfiable && old(self).fresh() && final(self).spec_formula().honest() ==> forall|m: Seq<Option<bool>>|
                !(#[trigger] final(self).spec_formula().is_model(m)),
            r is Unsatisfiable && old(self).fresh() && !old(self).listens() && old(self).spec_formula().honest()
                ==> forall|m: Seq<Option<bool>>| !(#[trigger] old(self).spec_formula().is_model(m)),
            r is PeerStopped ==> old(self).sender_count() > 0,
            exists|g: FormulaInstance| #[trigger] root_outcome(old(self).spec_formula(), g) && {
                &&& g.has_conflict() ==> r is Unsatisfiable
                &&& !g.has_conflict() && g.all_assigned() ==> r is Satisfiable
                &&& !(r is Satisfiable || r is Unsatisfiable) ==> !g.has_conflict() && !g.all_assigned()
            },
    {
        let ghost fr = old(self).fresh();
        let ghost lis = old(self).listens();
        let ghost f0 = old(self).formula;
        proof {
            if fr {
                assert(self.stack@.len() == 0);
                assert(consistent(self.stack@, self.formula.assignments@));
                assert(justified(self.stack@, self.formula));
            }
        }
        let mut random = thread_generator();
        let mut level: isize = -1;
        let first = self.unitPropagation(level);
        let ghost g = self.formula;
        proof {
            if first.is_some() {
                lemma_conflict_in_formula(self.formula);
            }
            assert(root_outcome(f0, g));
        }
        if first.is_some() {
            proof {
                lemma_conflict_in_formula(self.formula);
                lemma_appended_implied_keeps_no_chosen(old(self).trail(), self.trail());
                if fr && self.formula.honest() {
                    assert forall|m: Seq<Option<bool>>| !(#[trigger] f0.is_model(m)) by {
                        if f0.is_model(m) {
                            assert(extends(m, f0.assignments@));
                        }
                    }
                }
            }
            return SearchEnd::Unsatisfiable;
        }
        if !self.formula.hasUnassignedVars() {
            proof {
                crate::formula::law_quiet_complete_assignment_satisfies(self.formula);
                law_kept_clauses_satisfied(self.formula, old(self).formula);
            }
            return SearchEnd::Satisfiable;
        }
        let mut rounds: u64 = u64::MAX;
        while self.formula.hasUnassignedVars()
            invariant
                root_outcome(f0, g),
                !g.has_conflict(),
                !g.all_assigned(),
                self.inv(),
                self.formula.states_current(),
                !self.formula.has_conflict(),
                !self.formula.has_unit(),
                keeps_literals(self.formula, old(self).formula),
                -2 <= level < isize::MAX,
                fr == old(self).fresh(),
                lis == old(self).listens(),
                f0 == old(self).formula,
                self.formula.assignments@.len() == f0.assignments@.len(),
                self.listens() == lis,
                self.sender_count() == old(self).sender_count(),
                fr ==> consistent(self.stack@, self.formula.assignments@),
                fr && self.formula.honest() ==> justified(self.stack@, self.formula),
                self.formula.honest() ==> f0.honest(),
                !lis && f0.honest() ==> self.formula.honest(),
                fr && !lis && self.formula.honest() ==> forall|m: Seq<Option<bool>>| #[trigger] f0.is_model(m) ==> self.formula.is_model(m),
            decreases rounds,
        {
            if rounds == 0 {
                return SearchEnd::RoundsSpent;
            }
            rounds -= 1;
            let ghost round_budget = rounds;
            let unassigned = self.getUnassignedVariable(&mut random);
            let chosen: SimpleLiteral;
            let ghost before_choice = self.formula;
            let ghost a_before = self.formula.assignments@;
            if coin_flip(&mut random) {
                chosen = SimpleLiteral::Positive(unassigned);
                self.formula.choose_variable(chosen.value(), Some(true));
            } else {
                chosen = SimpleLiteral::Negative(unassigned);
                self.formula.choose_variable(chosen.value(), Some(false));
            }
            proof {
                lemma_same_clauses_keep(self.formula, before_choice);
                lemma_keeps_literals_trans(self.formula, before_choice, old(self).formula);
                lemma_same_clauses_models(self.formula, before_choice);
            }
            if level >= isize::MAX - 1 {
                return SearchEnd::LevelOverflow;
            }
            level += 1;
            let ghost t_before = self.stack@;
            self.stack.push(StackElem::Chosen(chosen, level));
            proof {
                let e = self.stack@[self.stack@.len() - 1];
                assert(self.stack@ == t_before.push(e));
                if fr {
                    crate::trail::lemma_push_keeps_consistent(t_before, a_before, e);
                    if self.formula.honest() {
                        lemma_justified_keeps(t_before, self.formula, before_choice);
                        crate::trail::lemma_push_chosen_justified(t_before, self.formula, e);
                    }
                }
            }

            let ghost before_receive = self.formula;
            self.checkReceiverForNewClauses();
            proof {
                lemma_keeps_literals_trans(self.formula, before_receive, old(self).formula);
                lemma_grow_clauses(self.formula, before_receive);
                if fr && self.formula.honest() {
                    lemma_justified_keeps(self.stack@, self.formula, before_receive);
                }
            }
            let ghost before_propagation = self.formula;
            let mut conflict = self.unitPropagation(level);
            proof {
                lemma_keeps_literals_trans(self.formula, before_propagation, old(self).formula);
            }
            while conflict.is_some()
                invariant
                    root_outcome(f0, g),
                    !g.has_conflict(),
                    !g.all_assigned(),
                    self.inv(),
                    self.formula.states_current(),
                    conflict is None ==> !self.formula.has_conflict() && !self.formula.has_unit(),
                    conflict matches Some(c) ==> self.formula.clause_set().contains(c@) && c.state
                        == ClauseState::Unsatisfiable,
                    keeps_literals(self.formula, old(self).formula),
                    -2 <= level < isize::MAX,
                    rounds <= round_budget,
                    fr == old(self).fresh(),
                    lis == old(self).listens(),
                    f0 == old(self).formula,
                    self.formula.assignments@.len() == f0.assignments@.len(),
                    self.listens() == lis,
                    self.sender_count() == old(self).sender_count(),
                    fr ==> consistent(self.stack@, self.formula.assignments@),
                    fr && self.formula.honest() ==> justified(self.stack@, self.formula),
                    self.formula.honest() ==> f0.honest(),
                    !lis && f0.honest() ==> self.formula.honest(),
                    fr && !lis && self.formula.honest() ==> forall|m: Seq<Option<bool>>| #[trigger] f0.is_model(m) ==> self.formula.is_model(m),
                decreases rounds,
            {
                if rounds == 0 {
                    return SearchEnd::RoundsSpent;
                }
                rounds -= 1;
                let current = match conflict {
                    Some(c) => c,
                    None => vstd::pervasive::unreached(),
                };
                let ghost f = self.formula;
                let ghost cv = current@;
                proof {
                    lemma_conflict_clause_fails(f, cv);
                }
                match self.conflictAnalysis(current, level) {
                    AnalysisOutcome::Unsatisfiable => {
                        proof {
                            if fr && f.honest() {
                                crate::trail::law_conflict_without_decision_refutes(
                                    self.stack@,
                                    f.assignments@,
                                    f,
                                    cv.literals,
                                );
                            }
                        }
                        return SearchEnd::Unsatisfiable;
                    },
                    AnalysisOutcome::GaveUp => {
                        return SearchEnd::AnalysisGaveUp;
                    },
                    AnalysisOutcome::Learnt(newClause, backtrackLevel) => {
                        level = backtrackLevel - 1;
                        let ghost lc = newClause@;
                        proof {
                            lemma_keeps_literals_trans(self.formula, f, old(self).formula);
                            assert(f.clause_set().subset_of(self.formula.clause_set()));
                            lemma_grow_clauses(self.formula, f);
                            if fr && self.formula.honest() {
                                lemma_justified_keeps(self.stack@, self.formula, f);
                            }
                            if fr && !lis && self.formula.honest() {
                                lemma_learning_keeps_models(f0, f, self.formula, lc);
                            }
                        }
                        let ghost before_learning = self.formula;
                        if self.foundNewClause(&newClause) {
                            return SearchEnd::PeerStopped;
                        }
                        proof {
                            lemma_keeps_literals_trans(self.formula, before_learning, old(self).formula);
                            assert(self.formula.clause_set() =~= before_learning.clause_set());
                            lemma_grow_clauses(self.formula, before_learning);
                            if fr && self.formula.honest() {
                                lemma_justified_keeps(self.stack@, self.formula, before_learning);
                            }
                        }
                        let ghost before_backtrack = self.formula;
                        let backtracked = self.backtrack(backtrackLevel, newClause);
                        proof {
                            lemma_same_clauses_keep(self.formula, before_backtrack);
                            lemma_keeps_literals_trans(self.formula, before_backtrack, old(self).formula);
                            lemma_same_clauses_models(self.formula, before_backtrack);
                        }
                        if !backtracked {
                            return SearchEnd::LearntNotUnit;
                        }
                        let ghost before_propagation = self.formula;
                        conflict = self.unitPropagation(level);
                        proof {
                            lemma_keeps_literals_trans(self.formula, before_propagation, old(self).formula);
                        }
                    },
                }
            }
        }
        proof {
            crate::formula::law_quiet_complete_assignment_satisfies(self.formula);
            law_kept_clauses_satisfied(self.formula, old(self).formula);
        }
        SearchEnd::Satisfiable
    }
}

impl CdCl for CdClInstance {
    open spec fn spec_ready(&self) -> bool {
        self.inv()
    }

    /// Constructor: a solver for the formula with an empty trail.
    fn new(
        initialFormula: FormulaInstance,
        receiver: Option<Receiver<TwoPointerClause>>,
        senders: Vec<Sender<TwoPointerClause>>,
    ) -> (r: CdClInstance)
        ensures
            r.inv(),
            r.spec_formula() == initialFormula,
            r.trail() == Seq::<StackElem>::empty(),
            r.listens() == receiver is Some,
            r.sender_count() == senders@.len(),
            r.ending() is None,
    {
        CdClInstance { formula: initialFormula, stack: Vec::new(), receiver, senders, ending: None }
    }

    /// checks whether the formula is satisfiable: `Some(true)` and `Some(false)` as
    /// `search` ends with `Satisfiable` and `Unsatisfiable`, `None` when it stops
    /// without an answer; how it ended is kept (`last_ending`).
    fn sat(&mut self) -> (r: Option<bool>)
        ensures
            final(self).inv(),
            keeps_literals(final(self).spec_formula(), old(self).spec_formula()),
            final(self).spec_formula().assignments@.len() == old(self).spec_formula().assignments@.len(),
            final(self).ending() matches Some(e) && {
                &&& (r == Some(true) <==> e is Satisfiable)
                &&& (r == Some(false) <==> e is Unsatisfiable)
                &&& (e is PeerStopped ==> old(self).sender_count() > 0)
            },
            r == Some(true) ==> final(self).spec_formula().all_assigned() && final(self).spec_formula().all_satisfied(),
            r == Some(true) ==> satisfies(final(self).spec_formula().assignments@, old(self).spec_formula()),
            r == Some(false) ==> final(self).spec_formula().has_conflict(),
            r == Some(false) ==> (has_chosen(final(self).trail()) ==> has_chosen(old(self).trail())),
            r == Some(false) && old(self).fresh() && final(self).spec_formula().honest() ==> forall|m: Seq<Option<bool>>|
                !(#[trigger] final(self).spec_formula().is_model(m)),
            r == Some(false) && old(self).fresh() && !old(self).listens() && old(self).spec_formula().honest()
                ==> forall|m: Seq<Option<bool>>| !(#[trigger] old(self).spec_formula().is_model(m)),
            exists|g: FormulaInstance| #[trigger] root_outcome(old(self).spec_formula(), g) && {
                &&& g.has_conflict() ==> r == Some(false)
                &&& !g.has_conflict() && g.all_assigned() ==> r == Some(true)
                &&& r is None ==> !g.has_conflict() && !g.all_assigned()
            },
    {
        let e = self.search();
        self.ending = Some(e);
        match e {
            SearchEnd::Satisfiable => Some(true),
            SearchEnd::Unsatisfiable => Some(false),
            _ => None,
        }
    }
}

/// Once a formula satisfies all of its clauses, it satisfies every clause of a formula
/// whose clauses' literals it keeps.
pub proof fn law_kept_clauses_satisfied(new: FormulaInstance, old: FormulaInstance)
    requires
        keeps_literals(new, old),
        new.all_satisfied(),
    ensures
        satisfies(new.assignments@, old),
{
    reveal(keeps_literals);
    assert forall|i: int| 0 <= i < old.clauses@.len() implies (#[trigger] old.clauses@[i])@.satisfied_by(new.assignments@) by {
        let j = choose|j: int| 0 <= j < new.clauses@.len() && (#[trigger] new.clauses@[j]).literals@ == old.clauses@[i].literals@;
        assert(new.clauses@[j]@.satisfied_by(new.assignments@));
        let k = choose|k: int| 0 <= k < new.clauses@[j]@.literals.len() && (#[trigger] new.clauses@[j]@.literals[k]).holds(new.assignments@);
        assert(old.clauses@[i]@.literals[k].holds(new.assignments@));
    }
}

/// A clause in conflict in a well-formed, up-to-date formula is one of its clauses, and
/// in an honest formula every one of its literals fails.
proof fn lemma_conflict_clause_fails(f: FormulaInstance, cv: ClauseView)
    requires
        f.wf(),
        f.states_current(),
        f.clause_set().contains(cv),
        cv.state == ClauseState::Unsatisfiable,
    ensures
        f.has_conflict(),
        has_literals(f, cv.literals),
        f.honest() ==> forall|i: int| 0 <= i < cv.literals.len() ==> (#[trigger] cv.literals[i]).fails(f.assignments@)
            && cv.literals[i].var() < f.assignments@.len(),
{
    lemma_conflict_in_formula(f);
    lemma_member_state_current(f, cv);
    crate::clause::law_updated_state_meaning(cv, f.assignments@);
    let w = choose|w: int| 0 <= w < f.clauses@.len() && f.clauses@[w]@ == cv;
    assert(f.clauses@[w].literals@ == cv.literals);
    if f.honest() {
        assert(f.clauses@[w].pointer.0 != f.clauses@[w].pointer.1 || f.clauses@[w].literals@.len() == 1);
        assert forall|i: int| 0 <= i < cv.literals.len() implies (#[trigger] cv.literals[i]).fails(f.assignments@)
            && cv.literals[i].var() < f.assignments@.len() by {
            if cv.pointer.0 == cv.pointer.1 {
                assert(i == cv.pointer.0);
            }
        }
    }
}

/// Adding a clause that every model of `f` satisfies keeps every model of `f0` that
/// `f` has.
proof fn lemma_learning_keeps_models(f0: FormulaInstance, f: FormulaInstance, g: FormulaInstance, lc: ClauseView)
    requires
        g.clause_set() == f.clause_set().insert(lc),
        g.assignments@.len() == f.assignments@.len(),
        forall|m: Seq<Option<bool>>| #[trigger] f.is_model(m) ==> list_satisfied(lc.literals, m),
        forall|m: Seq<Option<bool>>| #[trigger] f0.is_model(m) ==> f.is_model(m),
    ensures
        forall|m: Seq<Option<bool>>| #[trigger] f0.is_model(m) ==> g.is_model(m),
{
    assert(f.clause_set().subset_of(g.clause_set()));
    lemma_grow_clauses(g, f);
    assert forall|m: Seq<Option<bool>>| #[trigger] f0.is_model(m) implies g.is_model(m) by {
        assert(f.is_model(m));
        assert(list_satisfied(lc.literals, m));
        assert forall|c: ClauseView| #[trigger] g.clause_set().contains(c) && !f.clause_set().contains(c)
            implies c.satisfied_by(m) by {
            assert(c == lc);
        }
    }
}

/// A clause reported in conflict by an up-to-date formula makes the formula hold a conflict.
proof fn lemma_conflict_in_formula(f: FormulaInstance)
    requires
        exists|c: ClauseView| #[trigger] f.clause_set().contains(c) && c.state == ClauseState::Unsatisfiable,
    ensures
        f.has_conflict(),
{
    let c = choose|c: ClauseView| f.clause_set().contains(c) && c.state == ClauseState::Unsatisfiable;
    let i = choose|i: int| 0 <= i < f.clauses@.len() && f.clauses@[i]@ == c;
    assert(f.clauses@[i].state == ClauseState::Unsatisfiable);
}

/// A trail extended by implied entries holds a decision only where the old one did.
proof fn lemma_appended_implied_keeps_no_chosen(old: Seq<StackElem>, new: Seq<StackElem>)
    requires
        old.len() <= new.len(),
        forall|i: int| 0 <= i < old.len() ==> new[i] == old[i],
        forall|i: int| old.len() <= i < new.len() ==> (#[trigger] new[i]) is Implied,
    ensures
        has_chosen(new) ==> has_chosen(old),
{
    if has_chosen(new) {
        let i = choose|i: int| 0 <= i < new.len() && new[i] is Chosen;
        assert(old[i] is Chosen);
    }
}

} // verus!

