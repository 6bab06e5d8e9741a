use vstd::prelude::*;
use crate::literal::{Literal, SimpleLiteral};
use crate::cdcl::{StackElem, CdClInstance};

verus! {

/// A disjunction of literals that knows its own state under the current assignment.
pub trait Clause: Sized {
    /// The clause can be evaluated against an assignment of `num_vars` variables:
    /// both watched positions point into the literals and every variable is in range.
    spec fn spec_fits(&self, num_vars: nat) -> bool;

    /// The clause is in the `Unit` state at a position that names one of its literals
    /// over a variable below `num_vars`.
    spec fn spec_unit_in_range(&self, num_vars: nat) -> bool;

    fn new(literal_list: Vec<SimpleLiteral>) -> Self;

    fn update_clause_state(&mut self, assignments: &Vec<Option<bool>>)
        requires
            old(self).spec_fits(assignments@.len()),
    ;

    fn chooseUnit(&self, assignments: &mut Vec<Option<bool>>) -> SimpleLiteral
        requires
            self.spec_unit_in_range(old(assignments)@.len()),
    ;

    fn resolute(&mut self, elem: &StackElem) -> TwoPointerClause
        requires
            elem is Implied,
    ;
}

/// A clause with two watched positions (`pointer`) and a cached `state`.
#[derive(Debug, Hash, PartialEq, Eq)]
pub struct TwoPointerClause {
    pub literals: Vec<SimpleLiteral>,
    pub state: ClauseState,
    pub pointer: (usize, usize),
}

/// The state of a clause under a partial assignment.
#[derive(Clone, Copy, Debug, Hash, PartialEq, Eq, Structural)]
pub enum ClauseState {
    Open,
    Unit(usize),
    Unsatisfiable,
    Satisfied,
}

/// The mathematical content of a clause.
pub struct ClauseView {
    pub literals: Seq<SimpleLiteral>,
    pub state: ClauseState,
    pub pointer: (usize, usize),
}

impl View for TwoPointerClause {
    type V = ClauseView;

    open spec fn view(&self) -> ClauseView {
        ClauseView { literals: self.literals@, state: self.state, pointer: self.pointer }
    }
}

impl ClauseView {
    /// Both watched positions are inside the literal list and all variables are below `n`.
    pub open spec fn fits(self, n: nat) -> bool {
        &&& self.pointer.0 < self.literals.len()
        &&& self.pointer.1 < self.literals.len()
        &&& forall|i: int| 0 <= i < self.literals.len() ==> (#[trigger] self.literals[i]).var() < n
    }

    /// Some literal of the clause holds under `a`.
    pub open spec fn satisfied_by(self, a: Seq<Option<bool>>) -> bool {
        exists|i: int| 0 <= i < self.literals.len() && (#[trigger] self.literals[i]).holds(a)
    }

    /// Every literal of the clause fails under `a`.
    pub open spec fn falsified_by(self, a: Seq<Option<bool>>) -> bool {
        forall|i: int| 0 <= i < self.literals.len() ==> (#[trigger] self.literals[i]).fails(a)
    }

    /// The same clause with its state replaced by the one `update_clause_state` computes.
    pub open spec fn updated(self, a: Seq<Option<bool>>) -> ClauseView {
        ClauseView {
            literals: self.literals,
            state: updated_state(self.literals, a, self.pointer),
            pointer: self.pointer,
        }
    }
}

/// The first position at or after `from`, other than `skip`, whose literal does not
/// fail under `a`; the length of `lits` if there is none.
pub open spec fn first_not_failing(
    lits: Seq<SimpleLiteral>,
    a: Seq<Option<bool>>,
    skip: int,
    from: int,
) -> int
    decreases lits.len() - from,
{
    if from >= lits.len() || from < 0 {
        lits.len() as int
    } else if from != skip && !lits[from].fails(a) {
        from
    } else {
        first_not_failing(lits, a, skip, from + 1)
    }
}

/// The state that the two-pointer update assigns to a clause with literals `lits`
/// and watched positions `p` under the assignment `a`.
///
/// A watched literal that holds makes the clause satisfied. Otherwise each watched
/// position that is assigned looks, from the start of the clause and skipping the
/// other watched position, for a literal that does not fail: a literal that holds
/// makes the clause satisfied, a free one is watched from then on. Two watched free
/// literals leave the clause open, one makes it unit on that literal, none makes it
/// unsatisfiable. With both watched positions equal only that literal is looked at.
pub open spec fn updated_state(
    lits: Seq<SimpleLiteral>,
    a: Seq<Option<bool>>,
    p: (usize, usize),
) -> ClauseState {
    let p1 = p.0 as int;
    let p2 = p.1 as int;
    let n = lits.len() as int;
    if lits[p1].holds(a) || lits[p2].holds(a) {
        ClauseState::Satisfied
    } else if p1 == p2 {
        if lits[p1].is_free(a) {
            ClauseState::Unit(p.0)
        } else {
            ClauseState::Unsatisfiable
        }
    } else {
        let i = if lits[p1].is_free(a) { p1 } else { first_not_failing(lits, a, p2, 0) };
        if i < n && lits[i].holds(a) {
            ClauseState::Satisfied
        } else {
            let q1 = if i < n { i } else { p1 };
            let j = if lits[p2].is_free(a) { p2 } else { first_not_failing(lits, a, q1, 0) };
            if j < n && lits[j].holds(a) {
                ClauseState::Satisfied
            } else if i < n && j < n {
                ClauseState::Open
            } else if i < n {
                ClauseState::Unit(q1 as usize)
            } else if j < n {
                ClauseState::Unit(j as usize)
            } else {
                ClauseState::Unsatisfiable
            }
        }
    }
}

/// What `first_not_failing` returns: a position at or after `from` (or the length)
/// before which every literal but the skipped one fails.
pub proof fn lemma_first_not_failing(lits: Seq<SimpleLiteral>, a: Seq<Option<bool>>, skip: int, from: int)
    requires
        0 <= from <= lits.len(),
    ensures
        from <= first_not_failing(lits, a, skip, from) <= lits.len(),
        forall|i: int|
            from <= i < first_not_failing(lits, a, skip, from) && i != skip ==> (#[trigger] lits[i]).fails(a),
        first_not_failing(lits, a, skip, from) < lits.len() ==> first_not_failing(lits, a, skip, from) != skip
            && !lits[first_not_failing(lits, a, skip, from)].fails(a),
    decreases lits.len() - from,
{
    if from < lits.len() {
        if !(from != skip && !lits[from].fails(a)) {
            lemma_first_not_failing(lits, a, skip, from + 1);
        }
    }
}

/// What the computed state says about the literals. A satisfied clause has a literal
/// that holds; a unit clause has a free literal at its unit position; an open clause
/// has two free literals. With distinct watched positions a unit clause has every
/// other literal failing and an unsatisfiable clause has every literal failing; with
/// equal watched positions only the watched literal decides.
pub proof fn law_updated_state_meaning(c: ClauseView, a: Seq<Option<bool>>)
    requires
        c.pointer.0 < c.literals.len(),
        c.pointer.1 < c.literals.len(),
        c.literals.len() <= usize::MAX,
    ensures
        updated_state(c.literals, a, c.pointer) == ClauseState::Satisfied ==> c.satisfied_by(a),
        updated_state(c.literals, a, c.pointer) == ClauseState::Open ==> c.pointer.0 != c.pointer.1
            && exists|i: int, j: int|
            0 <= i < c.literals.len() && 0 <= j < c.literals.len() && i != j
                && (#[trigger] c.literals[i]).is_free(a) && (#[trigger] c.literals[j]).is_free(a),
        updated_state(c.literals, a, c.pointer) matches ClauseState::Unit(k) ==> {
            &&& k < c.literals.len()
            &&& c.literals[k as int].is_free(a)
            &&& c.pointer.0 == c.pointer.1 ==> k == c.pointer.0
            &&& c.pointer.0 != c.pointer.1 ==> forall|i: int|
                0 <= i < c.literals.len() && i != k ==> (#[trigger] c.literals[i]).fails(a)
        },
        updated_state(c.literals, a, c.pointer) == ClauseState::Unsatisfiable ==> c.literals[c.pointer.0 as int].fails(a)
            && (c.pointer.0 != c.pointer.1 ==> c.falsified_by(a)),
        c.pointer.0 == c.pointer.1 ==> (updated_state(c.literals, a, c.pointer) == ClauseState::Satisfied
            <==> c.literals[c.pointer.0 as int].holds(a)),
        c.pointer.0 != c.pointer.1 && c.falsified_by(a) ==> updated_state(c.literals, a, c.pointer)
            == ClauseState::Unsatisfiable,
{
    let lits = c.literals;
    let n = lits.len() as int;
    let p1 = c.pointer.0 as int;
    let p2 = c.pointer.1 as int;
    crate::literal::law_literal_trichotomy(lits[p1], a);
    crate::literal::law_literal_trichotomy(lits[p2], a);
    lemma_first_not_failing(lits, a, p2, 0);
    let i = if lits[p1].is_free(a) { p1 } else { first_not_failing(lits, a, p2, 0) };
    if i < n {
        crate::literal::law_literal_trichotomy(lits[i], a);
    }
    let q1 = if i < n { i } else { p1 };
    lemma_first_not_failing(lits, a, q1, 0);
    let j = if lits[p2].is_free(a) { p2 } else { first_not_failing(lits, a, q1, 0) };
    if j < n {
        crate::literal::law_literal_trichotomy(lits[j], a);
    }
    let st = updated_state(lits, a, c.pointer);
    if st == ClauseState::Satisfied {
        if lits[p1].holds(a) {
            assert(lits[p1].holds(a));
        } else if lits[p2].holds(a) {
            assert(lits[p2].holds(a));
        } else if i < n && lits[i].holds(a) {
            assert(lits[i].holds(a));
        } else {
            assert(lits[j].holds(a));
        }
    }
    if p1 != p2 && c.falsified_by(a) {
        assert(lits[p1].fails(a));
        assert(lits[p2].fails(a));
        if i < n {
            assert(lits[i].fails(a));
        }
        if j < n {
            assert(lits[j].fails(a));
        }
    }
    if st == ClauseState::Open {
        assert(lits[q1].is_free(a) && lits[j].is_free(a) && q1 != j);
    }
    if p1 != p2 && st is Unit && !(lits[p1].holds(a) || lits[p2].holds(a)) {
        if i < n {
            assert(j >= n);
            assert(!lits[p2].is_free(a));
            assert(st == ClauseState::Unit(q1 as usize));
            assert(forall|k: int| 0 <= k < n && k != q1 ==> (#[trigger] lits[k]).fails(a));
        } else {
            assert(!lits[p1].is_free(a));
            assert(forall|k: int| 0 <= k < n && k != p2 ==> (#[trigger] lits[k]).fails(a));
            assert(j < n);
            assert(j == p2);
            assert(st == ClauseState::Unit(j as usize));
        }
    }
}

/// Setting the literal of a unit clause to hold makes the clause satisfied: its next
/// update computes `Satisfied`.
pub proof fn law_unit_choice_satisfies(c: ClauseView, a: Seq<Option<bool>>)
    requires
        c.fits(a.len()),
        c.literals.len() <= usize::MAX,
        updated_state(c.literals, a, c.pointer) is Unit,
    ensures
        updated_state(c.literals, a, c.pointer) matches ClauseState::Unit(k) && {
            let l = c.literals[k as int];
            let a2 = a.update(l.var() as int, Some(l.polarity()));
            &&& c.satisfied_by(a2)
            &&& updated_state(c.literals, a2, c.pointer) == ClauseState::Satisfied
        },
{
    law_updated_state_meaning(c, a);
    let k = match updated_state(c.literals, a, c.pointer) {
        ClauseState::Unit(k) => k as int,
        _ => 0,
    };
    let l = c.literals[k];
    let a2 = a.update(l.var() as int, Some(l.polarity()));
    assert(l.holds(a2));
    assert(c.satisfied_by(a2));
    law_updated_state_meaning(c, a2);
    let st2 = updated_state(c.literals, a2, c.pointer);
    if c.pointer.0 != c.pointer.1 {
        assert forall|i: int| 0 <= i < c.literals.len() && i != k implies (#[trigger] c.literals[i]).fails(a2) by {
            assert(c.literals[i].fails(a));
            if c.literals[i].var() == l.var() {
                assert(a[l.var() as int] is None);
            }
        }
        if st2 == ClauseState::Open {
            let (x, y) = choose|x: int, y: int|
                0 <= x < c.literals.len() && 0 <= y < c.literals.len() && x != y
                    && (#[trigger] c.literals[x]).is_free(a2) && (#[trigger] c.literals[y]).is_free(a2);
            if x != k {
                assert(c.literals[x].fails(a2));
            } else {
                assert(c.literals[y].fails(a2));
            }
        }
        if st2 is Unit {
            let k2 = match st2 {
                ClauseState::Unit(k2) => k2 as int,
                _ => 0,
            };
            if k2 != k {
                assert(c.literals[k2].fails(a2));
            }
        }
        if st2 == ClauseState::Unsatisfiable {
            assert(c.literals[k].fails(a2));
        }
    }
}

/// Resolution is sound: when the antecedent mentions the pivot only with one
/// polarity and the other clause only with the opposite one, every assignment that
/// satisfies both clauses satisfies their resolvent. The resolvent never mentions
/// the pivot.
pub proof fn law_resolvent_sound(
    antecedent: Seq<SimpleLiteral>,
    other: Seq<SimpleLiteral>,
    pivot: usize,
    polarity: bool,
    a: Seq<Option<bool>>,
)
    requires
        forall|i: int| 0 <= i < antecedent.len() && (#[trigger] antecedent[i]).var() == pivot ==> antecedent[i].polarity() == polarity,
        forall|i: int| 0 <= i < other.len() && (#[trigger] other[i]).var() == pivot ==> other[i].polarity() != polarity,
        exists|i: int| 0 <= i < antecedent.len() && (#[trigger] antecedent[i]).holds(a),
        exists|i: int| 0 <= i < other.len() && (#[trigger] other[i]).holds(a),
    ensures
        exists|i: int| 0 <= i < resolvent_literals(antecedent, other, pivot).len()
            && (#[trigger] resolvent_literals(antecedent, other, pivot)[i]).holds(a),
        forall|i: int| 0 <= i < resolvent_literals(antecedent, other, pivot).len()
            ==> (#[trigger] resolvent_literals(antecedent, other, pivot)[i]).var() != pivot,
{
    let merged = append_missing(antecedent, other);
    let keep = |l: SimpleLiteral| l.var() != pivot;
    lemma_append_missing_contains(antecedent, other);
    let x = choose|i: int| 0 <= i < antecedent.len() && (#[trigger] antecedent[i]).holds(a);
    let y = choose|i: int| 0 <= i < other.len() && (#[trigger] other[i]).holds(a);
    let w = if antecedent[x].var() != pivot {
        antecedent[x]
    } else {
        if other[y].var() == pivot {
            assert(a[pivot as int] == Some(polarity));
            assert(a[pivot as int] == Some(other[y].polarity()));
        }
        other[y]
    };
    assert(merged.contains(w));
    let j = choose|j: int| 0 <= j < merged.len() && merged[j] == w;
    assert(keep(merged[j]));
    merged.lemma_filter_contains(keep, j);
    assert(merged.filter(keep).contains(w));
    let r = resolvent_literals(antecedent, other, pivot);
    assert(r == merged.filter(keep));
    let k = choose|k: int| 0 <= k < r.len() && r[k] == w;
    assert(r[k].holds(a));
    assert forall|i: int| 0 <= i < r.len() implies (#[trigger] r[i]).var() != pivot by {
        merged.lemma_filter_pred(keep, i);
        assert(keep(merged.filter(keep)[i]));
    }
}

/// The list built by `append_missing` holds every literal of both lists.
pub proof fn lemma_append_missing_contains(base: Seq<SimpleLiteral>, extra: Seq<SimpleLiteral>)
    ensures
        forall|i: int| 0 <= i < base.len() ==> append_missing(base, extra).contains(#[trigger] base[i]),
        forall|i: int| 0 <= i < extra.len() ==> append_missing(base, extra).contains(#[trigger] extra[i]),
    decreases extra.len(),
{
    if extra.len() > 0 {
        lemma_append_missing_contains(base, extra.drop_last());
        let b = append_missing(base, extra.drop_last());
        assert forall|i: int| 0 <= i < base.len() implies append_missing(base, extra).contains(#[trigger] base[i]) by {
            let j = choose|j: int| 0 <= j < b.len() && b[j] == base[i];
            if !b.contains(extra.last()) {
                assert(b.push(extra.last())[j] == base[i]);
            }
        }
        assert forall|i: int| 0 <= i < extra.len() implies append_missing(base, extra).contains(#[trigger] extra[i]) by {
            if i < extra.len() - 1 {
                assert(extra.drop_last()[i] == extra[i]);
                let j = choose|j: int| 0 <= j < b.len() && b[j] == extra[i];
                if !b.contains(extra.last()) {
                    assert(b.push(extra.last())[j] == extra[i]);
                }
            } else if !b.contains(extra.last()) {
                assert(b.push(extra.last())[b.len() as int] == extra[i]);
            }
        }
    }
}

/// The list `base` followed by those literals of `extra`, in order, that are not
/// already in the list built so far.
pub open spec fn append_missing(base: Seq<SimpleLiteral>, extra: Seq<SimpleLiteral>) -> Seq<SimpleLiteral>
    decreases extra.len(),
{
    if extra.len() == 0 {
        base
    } else {
        let b = append_missing(base, extra.drop_last());
        if b.contains(extra.last()) {
            b
        } else {
            b.push(extra.last())
        }
    }
}

/// The literals of the resolvent of `antecedent` and `other` on variable `pivot`:
/// the literals of both without repetitions of `other`'s, with every literal over
/// `pivot` removed.
pub open spec fn resolvent_literals(
    antecedent: Seq<SimpleLiteral>,
    other: Seq<SimpleLiteral>,
    pivot: usize,
) -> Seq<SimpleLiteral> {
    without_var(append_missing(antecedent, other), pivot)
}

/// The literals of `s` whose variable is not `pivot`, in order.
pub open spec fn without_var(s: Seq<SimpleLiteral>, pivot: usize) -> Seq<SimpleLiteral> {
    s.filter(|l: SimpleLiteral| l.var() != pivot)
}

/// Whether `lits` holds the literal `l`.
pub(crate) fn contains_literal(lits: &Vec<SimpleLiteral>, l: SimpleLiteral) -> (r: bool)
    ensures
        r == lits@.contains(l),
{
    let mut i: usize = 0;
    while i < lits.len()
        invariant
            i <= lits.len(),
            forall|k: int| 0 <= k < i ==> lits@[k] != l,
        decreases lits.len() - i,
    {
        if lits[i] == l {
            return true;
        }
        i += 1;
    }
    false
}

/// Whether the clause fits an assignment of `n` variables.
pub fn clause_fits(c: &TwoPointerClause, n: usize) -> (r: bool)
    ensures
        r == c@.fits(n as nat),
{
    if c.pointer.0 >= c.literals.len() || c.pointer.1 >= c.literals.len() {
        return false;
    }
    let mut i: usize = 0;
    while i < c.literals.len()
        invariant
            i <= c.literals@.len(),
            forall|k: int| 0 <= k < i ==> (#[trigger] c.literals@[k]).var() < n,
        decreases c.literals.len() - i,
    {
        if c.literals[i].value() >= n {
            return false;
        }
        i += 1;
    }
    true
}

/// Whether two clauses agree in literals, state and watched positions.
pub fn same_clause(x: &TwoPointerClause, y: &TwoPointerClause) -> (r: bool)
    ensures
        r == (x@ == y@),
{
    if x.state != y.state || x.pointer.0 != y.pointer.0 || x.pointer.1 != y.pointer.1 {
        return false;
    }
    if x.literals.len() != y.literals.len() {
        return false;
    }
    let mut i: usize = 0;
    while i < x.literals.len()
        invariant
            i <= x.literals.len(),
            x.literals.len() == y.literals.len(),
            forall|k: int| 0 <= k < i ==> x.literals@[k] == y.literals@[k],
        decreases x.literals.len() - i,
    {
        if x.literals[i] != y.literals[i] {
            return false;
        }
        i += 1;
    }
    assert(x.literals@ =~= y.literals@);
    true
}

/// Copies a list of literals element by element.
fn copy_literals(lits: &Vec<SimpleLiteral>) -> (r: Vec<SimpleLiteral>)
    ensures
        r@ == lits@,
{
    let mut r: Vec<SimpleLiteral> = Vec::new();
    let mut i: usize = 0;
    while i < lits.len()
        invariant
            i <= lits.len(),
            r@ == lits@.take(i as int),
        decreases lits.len() - i,
    {
        r.push(lits[i]);
        i += 1;
        assert(r@ =~= lits@.take(i as int));
    }
    assert(lits@.take(lits.len() as int) =~= lits@);
    r
}

impl Clause for TwoPointerClause {
    open spec fn spec_fits(&self, num_vars: nat) -> bool {
        self@.fits(num_vars)
    }

    open spec fn spec_unit_in_range(&self, num_vars: nat) -> bool {
        &&& self.state matches ClauseState::Unit(k)
        &&& k < self.literals@.len()
        &&& self.literals@[k as int].var() < num_vars
    }

    /// A clause over `literal_list`, watching its first two literals. A clause of
    /// fewer than two literals watches position 0 twice and starts as unit there.
    fn new(literal_list: Vec<SimpleLiteral>) -> (r: TwoPointerClause)
        ensures
            r.literals@ == literal_list@,
            r.pointer == (if literal_list@.len() > 1 { (0usize, 1usize) } else { (0usize, 0usize) }),
            r.state == (if literal_list@.len() > 1 { ClauseState::Open } else { ClauseState::Unit(0) }),
    {
        let many = literal_list.len() > 1;
        TwoPointerClause {
            pointer: (0, if many { 1 } else { 0 }),
            state: if many { ClauseState::Open } else { ClauseState::Unit(0) },
            literals: literal_list,
        }
    }

    /// Recomputes the state of the clause under `assignments`; the literals and the
    /// watched positions stay as they are.
    fn update_clause_state(&mut self, assignments: &Vec<Option<bool>>)
        ensures
            final(self).literals@ == old(self).literals@,
            final(self).pointer == old(self).pointer,
            final(self).state == updated_state(old(self).literals@, assignments@, old(self).pointer),
    {
        let ghost lits = self.literals@;
        let ghost a = assignments@;
        let ghost n = lits.len() as int;
        let (mut pointer_1, mut pointer_2) = self.pointer;
        let ghost p1 = pointer_1 as int;
        let ghost p2 = pointer_2 as int;
        if self.literals[pointer_1].is_satisfied(assignments) || self.literals[pointer_2].is_satisfied(
            assignments,
        ) {
            self.state = ClauseState::Satisfied;
            return;
        }
        let mut amount_of_undefined: u16 = 0;

        if pointer_1 == pointer_2 {
            match assignments[self.literals[pointer_1].value()] {
                Some(x) => {
                    match self.literals[pointer_1] {
                        SimpleLiteral::Positive(_) => {
                            if x {
                                self.state = ClauseState::Satisfied;
                            } else {
                                self.state = ClauseState::Unsatisfiable;
                            }
                        },
                        SimpleLiteral::Negative(_) => {
                            if !x {
                                self.state = ClauseState::Satisfied;
                            } else {
                                self.state = ClauseState::Unsatisfiable;
                            }
                        },
                    }
                },
                None => {
                    self.state = ClauseState::Unit(pointer_1);
                },
            }
            return;
        }

        let ghost i_found: int;
        if assignments[self.literals[pointer_1].value()].is_some() {
            let mut i: usize = 0;
            while i < self.literals.len()
                invariant_except_break
                    first_not_failing(lits, a, p2, 0) == first_not_failing(lits, a, p2, i as int),
                invariant
                    i <= n,
                    lits == old(self).literals@,
                    old(self).pointer == self.pointer,
                    self.literals@ == lits,
                    self.pointer.0 == p1,
                    self.pointer.1 == p2,
                    pointer_2 == p2,
                    p1 != p2,
                    !lits[p1].is_free(a),
                    n == self.literals@.len(),
                    self@.fits(a.len()),
                    assignments@ == a,
                    !lits[p1].holds(a),
                    !lits[p2].holds(a),
                ensures
                    i <= n,
                    first_not_failing(lits, a, p2, 0) == i as int,
                    i < n ==> lits[i as int].is_free(a),
                decreases self.literals.len() - i,
            {
                if i != pointer_2 {
                    match self.literals[i] {
                        SimpleLiteral::Positive(var) => {
                            match assignments[var] {
                                None => {
                                    break;
                                },
                                Some(assigned_bool) => {
                                    if assigned_bool {
                                        self.state = ClauseState::Satisfied;
                                        return;
                                    }
                                },
                            }
                        },
                        SimpleLiteral::Negative(var) => {
                            match assignments[var] {
                                None => {
                                    break;
                                },
                                Some(assigned_bool) => {
                                    if !assigned_bool {
                                        self.state = ClauseState::Satisfied;
                                        return;
                                    }
                                },
                            }
                        },
                    }
                }
                i += 1;
            }
            if i != self.literals.len() {
                amount_of_undefined += 1;
                pointer_1 = i;
            }
            proof {
                i_found = i as int;
            }
        } else {
            amount_of_undefined += 1;
            proof {
                i_found = p1;
            }
        }
        assert(i_found < n ==> lits[i_found].is_free(a));
        assert(pointer_1 == (if i_found < n { i_found } else { p1 }));
        assert(amount_of_undefined == (if i_found < n { 1int } else { 0int }));

        let ghost q1 = pointer_1 as int;
        let ghost j_found: int;
        if assignments[self.literals[pointer_2].value()].is_some() {
            let mut i: usize = 0;
            while i < self.literals.len()
                invariant_except_break
                    first_not_failing(lits, a, q1, 0) == first_not_failing(lits, a, q1, i as int),
                invariant
                    i <= n,
                    lits == old(self).literals@,
                    old(self).pointer == self.pointer,
                    self.literals@ == lits,
                    self.pointer.0 == p1,
                    self.pointer.1 == p2,
                    pointer_1 == q1,
                    p1 != p2,
                    !lits[p2].is_free(a),
                    n == self.literals@.len(),
                    self@.fits(a.len()),
                    assignments@ == a,
                    !lits[p1].holds(a),
                    !lits[p2].holds(a),
                    i_found < n ==> !lits[i_found].holds(a),
                    q1 == (if i_found < n { i_found } else { p1 }),
                    i_found == (if lits[p1].is_free(a) { p1 } else { first_not_failing(lits, a, p2, 0) }),
                ensures
                    i <= n,
                    first_not_failing(lits, a, q1, 0) == i as int,
                    i < n ==> lits[i as int].is_free(a),
                decreases self.literals.len() - i,
            {
                if i != pointer_1 {
                    match self.literals[i] {
                        SimpleLiteral::Positive(var) => {
                            match assignments[var] {
                                None => {
                                    break;
                                },
                                Some(assigned_bool) => {
                                    if assigned_bool {
                                        self.state = ClauseState::Satisfied;
                                        return;
                                    }
                                },
                            }
                        },
                        SimpleLiteral::Negative(var) => {
                            match assignments[var] {
                                None => {
                                    break;
                                },
                                Some(assigned_bool) => {
                                    if !assigned_bool {
                                        self.state = ClauseState::Satisfied;
                                        return;
                                    }
                                },
                            }
                        },
                    }
                }
                i += 1;
            }
            if i != self.literals.len() {
                amount_of_undefined += 1;
                pointer_2 = i;
            }
            proof {
                j_found = i as int;
            }
        } else {
            amount_of_undefined += 1;
            proof {
                j_found = p2;
            }
        }

        if amount_of_undefined == 2 {
            self.state = ClauseState::Open;
        } else if amount_of_undefined == 1 {
            if assignments[self.literals[pointer_1].value()].is_none() {
                self.state = ClauseState::Unit(pointer_1);
            } else {
                self.state = ClauseState::Unit(pointer_2);
            }
        } else {
            self.state = ClauseState::Unsatisfiable;
        }
    }

    /// Assigns the literal at the unit position the value that makes it hold, and
    /// returns that literal.
    fn chooseUnit(&self, assignments: &mut Vec<Option<bool>>) -> (r: SimpleLiteral)
        ensures
            self.state matches ClauseState::Unit(k) && r == self.literals@[k as int],
            final(assignments)@ == old(assignments)@.update(r.var() as int, Some(r.polarity())),
    {
        let literal_index = match self.state {
            ClauseState::Unit(k) => k,
            _ => vstd::pervasive::unreached(),
        };
        match self.literals[literal_index] {
            SimpleLiteral::Positive(variable_index) => {
                assignments[variable_index] = Some(true);
                SimpleLiteral::Positive(variable_index)
            },
            SimpleLiteral::Negative(variable_index) => {
                assignments[variable_index] = Some(false);
                SimpleLiteral::Negative(variable_index)
            },
        }
    }

    /// Resolves the antecedent of the implied trail entry `elem` with this clause on
    /// the entry's variable. The result keeps the antecedent's state and watched
    /// positions; this clause is left as it is.
    fn resolute(&mut self, elem: &StackElem) -> (r: TwoPointerClause)
        ensures
            final(self)@ == old(self)@,
            elem matches StackElem::Implied(lit, _, ante) && r@ == (ClauseView {
                literals: resolvent_literals(ante@.literals, old(self)@.literals, lit.var()),
                state: ante.state,
                pointer: ante.pointer,
            }),
    {
        let antecedent = CdClInstance::getAntecedent(elem);
        let mut clause: TwoPointerClause = match antecedent {
            Some(c) => c,
            None => vstd::pervasive::unreached(),
        };
        let index = match elem {
            StackElem::Implied(x, _, _) => x.value(),
            StackElem::Chosen(_, _) => vstd::pervasive::unreached(),
        };
        let ghost ante = clause.literals@;
        let ghost other = self.literals@;
        let ghost st = clause.state;
        let ghost pt = clause.pointer;

        let mut k: usize = 0;
        while k < self.literals.len()
            invariant
                k <= self.literals@.len(),
                self.literals@ == other,
                clause.state == st,
                clause.pointer == pt,
                clause.literals@ == append_missing(ante, other.take(k as int)),
            decreases self.literals.len() - k,
        {
            let l = self.literals[k];
            assert(other.take(k + 1).drop_last() =~= other.take(k as int));
            if !contains_literal(&clause.literals, l) {
                clause.literals.push(l);
            }
            k += 1;
        }
        assert(other.take(other.len() as int) =~= other);
        let ghost merged = clause.literals@;

        let mut kept: Vec<SimpleLiteral> = Vec::new();
        let mut m: usize = 0;
        while m < clause.literals.len()
            invariant
                m <= clause.literals@.len(),
                clause.literals@ == merged,
                clause.state == st,
                clause.pointer == pt,
                kept@ == without_var(merged.take(m as int), index),
            decreases clause.literals.len() - m,
        {
            let l = clause.literals[m];
            proof {
                reveal_with_fuel(Seq::filter, 1);
                assert(merged.take(m + 1).drop_last() =~= merged.take(m as int));
                assert(merged.take(m + 1).last() == l);
            }
            if l.value() != index {
                kept.push(l);
            }
            m += 1;
        }
        assert(merged.take(merged.len() as int) =~= merged);
        clause.literals = kept;
        clause
    }
}

impl Clone for TwoPointerClause {
    fn clone(&self) -> (r: Self)
        ensures
            r@ == self@,
    {
        TwoPointerClause {
            literals: copy_literals(&self.literals),
            state: self.state,
            pointer: self.pointer,
        }
    }
}

} // verus!
