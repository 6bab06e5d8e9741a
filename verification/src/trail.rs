use vstd::prelude::*;
use crate::literal::SimpleLiteral;
use crate::cdcl::{StackElem, sets_var, has_chosen, unassigned_from};
use crate::clause::{ClauseView, append_missing, resolvent_literals, law_resolvent_sound};
use crate::formula::{
    FormulaInstance, has_literals, list_satisfied, lemma_model_satisfies_member, keeps_literals,
    lemma_keeps_has_literals,
};

verus! {

/// Some entry below position `k` of the trail `t` sets the variable of `x` to the
/// value that makes `x` fail.
pub open spec fn fails_before(t: Seq<StackElem>, k: int, x: SimpleLiteral) -> bool {
    exists|j: int| 0 <= j < k && (#[trigger] t[j]).lit().var() == x.var() && t[j].lit().polarity() != x.polarity()
}

/// The trail `t` and the assignment `a` agree: every entry's literal holds, every
/// assigned variable has an entry, and no variable has two.
pub open spec fn consistent(t: Seq<StackElem>, a: Seq<Option<bool>>) -> bool {
    &&& forall|k: int| 0 <= k < t.len() ==> (#[trigger] t[k]).lit().var() < a.len() && a[t[k].lit().var() as int]
        == Some(t[k].lit().polarity())
    &&& forall|v: int| 0 <= v < a.len() && (#[trigger] a[v]) is Some ==> sets_var(t, v)
    &&& forall|j: int, k: int| 0 <= j < k < t.len() ==> (#[trigger] t[j]).lit().var() != (#[trigger] t[k]).lit().var()
}

/// Every implied entry of `t` is forced: its antecedent is a clause of `f` that holds
/// the entry's literal, and each of the antecedent's other literals fails by an
/// entry below it.
pub open spec fn justified(t: Seq<StackElem>, f: FormulaInstance) -> bool {
    forall|k: int| 0 <= k < t.len() && (#[trigger] t[k]) is Implied ==> match t[k]@.2 {
        Some(c) => {
            &&& has_literals(f, c.literals)
            &&& forall|i: int| 0 <= i < c.literals.len() ==> (#[trigger] c.literals[i]) == t[k].lit() || fails_before(
                t,
                k,
                c.literals[i],
            )
        },
        None => false,
    }
}

/// A model of the formula agrees with every entry of a justified trail without
/// decisions.
pub proof fn lemma_model_follows_trail(t: Seq<StackElem>, f: FormulaInstance, m: Seq<Option<bool>>, k: int)
    requires
        justified(t, f),
        f.is_model(m),
        !has_chosen(t),
        0 <= k <= t.len(),
        forall|j: int| 0 <= j < t.len() ==> (#[trigger] t[j]).lit().var() < m.len(),
    ensures
        forall|j: int| 0 <= j < k ==> (#[trigger] t[j]).lit().holds(m),
    decreases k,
{
    if k > 0 {
        lemma_model_follows_trail(t, f, m, k - 1);
        let e = t[k - 1];
        assert(!(e is Chosen));
        let c = t[k - 1]@.2->0;
        lemma_model_satisfies_member(f, c.literals, m);
        let i = choose|i: int| 0 <= i < c.literals.len() && (#[trigger] c.literals[i]).holds(m);
        if c.literals[i] != e.lit() {
            assert(fails_before(t, k - 1, c.literals[i]));
            let j = choose|j: int|
                0 <= j < k - 1 && (#[trigger] t[j]).lit().var() == c.literals[i].var() && t[j].lit().polarity()
                    != c.literals[i].polarity();
            assert(t[j].lit().holds(m));
            assert(false);
        }
    }
}

/// A clause of the formula whose literals all fail under an assignment that agrees
/// with a justified trail without decisions leaves the formula without a model.
pub proof fn law_conflict_without_decision_refutes(
    t: Seq<StackElem>,
    a: Seq<Option<bool>>,
    f: FormulaInstance,
    lits: Seq<SimpleLiteral>,
)
    requires
        consistent(t, a),
        justified(t, f),
        !has_chosen(t),
        has_literals(f, lits),
        forall|i: int| 0 <= i < lits.len() ==> (#[trigger] lits[i]).fails(a),
        f.assignments@.len() == a.len(),
        forall|i: int| 0 <= i < lits.len() ==> (#[trigger] lits[i]).var() < a.len(),
    ensures
        forall|m: Seq<Option<bool>>| !(#[trigger] f.is_model(m)),
{
    assert forall|m: Seq<Option<bool>>| !(#[trigger] f.is_model(m)) by {
        if f.is_model(m) {
            lemma_model_follows_trail(t, f, m, t.len() as int);
            lemma_model_satisfies_member(f, lits, m);
            let i = choose|i: int| 0 <= i < lits.len() && (#[trigger] lits[i]).holds(m);
            let x = lits[i];
            assert(x.fails(a));
            assert(a[x.var() as int] is Some);
            assert(sets_var(t, x.var() as int));
            let j = choose|j: int| 0 <= j < t.len() && (#[trigger] t[j]).lit().var() == x.var();
            assert(t[j].lit().holds(m));
            assert(a[x.var() as int] == Some(t[j].lit().polarity()));
        }
    }
}

/// A literal that fails under an assignment that agrees with the trail fails by an
/// entry of the trail.
pub proof fn lemma_failing_is_on_trail(t: Seq<StackElem>, a: Seq<Option<bool>>, x: SimpleLiteral)
    requires
        consistent(t, a),
        x.var() < a.len(),
        x.fails(a),
    ensures
        fails_before(t, t.len() as int, x),
{
    assert(a[x.var() as int] is Some);
    assert(sets_var(t, x.var() as int));
    let j = choose|j: int| 0 <= j < t.len() && (#[trigger] t[j]).lit().var() == x.var();
    assert(a[x.var() as int] == Some(t[j].lit().polarity()));
}

/// A trail stays justified when the formula keeps the literals of its clauses.
pub proof fn lemma_justified_keeps(t: Seq<StackElem>, new: FormulaInstance, old: FormulaInstance)
    requires
        justified(t, old),
        keeps_literals(new, old),
    ensures
        justified(t, new),
{
    assert forall|k: int| 0 <= k < t.len() && (#[trigger] t[k]) is Implied implies match t[k]@.2 {
        Some(c) => {
            &&& has_literals(new, c.literals)
            &&& forall|i: int| 0 <= i < c.literals.len() ==> (#[trigger] c.literals[i]) == t[k].lit() || fails_before(
                t,
                k,
                c.literals[i],
            )
        },
        None => false,
    } by {
        let c = t[k]@.2->0;
        lemma_keeps_has_literals(new, old, c.literals);
    }
}

/// Pushing an implied entry whose antecedent is a clause of the formula, holds the
/// entry's literal, which is free, and has every other literal failing keeps the
/// trail consistent with the assignment that sets the literal, and justified.
pub proof fn lemma_push_implied(
    t: Seq<StackElem>,
    a: Seq<Option<bool>>,
    f: FormulaInstance,
    e: StackElem,
    c: ClauseView,
    k: int,
)
    requires
        consistent(t, a),
        justified(t, f),
        e is Implied,
        e@.2 == Some(c),
        0 <= k < c.literals.len(),
        e.lit() == c.literals[k],
        has_literals(f, c.literals),
        e.lit().is_free(a),
        e.lit().var() < a.len(),
        forall|i: int| 0 <= i < c.literals.len() && i != k ==> (#[trigger] c.literals[i]).fails(a),
        forall|i: int| 0 <= i < c.literals.len() ==> (#[trigger] c.literals[i]).var() < a.len(),
    ensures
        consistent(t.push(e), a.update(e.lit().var() as int, Some(e.lit().polarity()))),
        justified(t.push(e), f),
{
    lemma_push_keeps_consistent(t, a, e);
    let t2 = t.push(e);
    assert forall|j: int| 0 <= j < t2.len() && (#[trigger] t2[j]) is Implied implies match t2[j]@.2 {
        Some(d) => {
            &&& has_literals(f, d.literals)
            &&& forall|i: int| 0 <= i < d.literals.len() ==> (#[trigger] d.literals[i]) == t2[j].lit() || fails_before(
                t2,
                j,
                d.literals[i],
            )
        },
        None => false,
    } by {
        if j < t.len() {
            assert(t2[j] == t[j]);
            let d = t[j]@.2->0;
            assert forall|i: int| 0 <= i < d.literals.len() implies (#[trigger] d.literals[i]) == t2[j].lit() || fails_before(
                t2,
                j,
                d.literals[i],
            ) by {
                if d.literals[i] != t[j].lit() {
                    assert(fails_before(t, j, d.literals[i]));
                    let w = choose|w: int|
                        0 <= w < j && (#[trigger] t[w]).lit().var() == d.literals[i].var() && t[w].lit().polarity()
                            != d.literals[i].polarity();
                    assert(t2[w] == t[w]);
                }
            }
        } else {
            assert forall|i: int| 0 <= i < c.literals.len() implies (#[trigger] c.literals[i]) == t2[j].lit() || fails_before(
                t2,
                j,
                c.literals[i],
            ) by {
                if c.literals[i] != e.lit() {
                    assert(i != k);
                    lemma_failing_is_on_trail(t, a, c.literals[i]);
                    let w = choose|w: int|
                        0 <= w < t.len() && (#[trigger] t[w]).lit().var() == c.literals[i].var() && t[w].lit().polarity()
                            != c.literals[i].polarity();
                    assert(t2[w] == t[w]);
                }
            }
        }
    }
}

/// Pushing an entry whose literal is free, and setting it, keeps trail and
/// assignment consistent.
pub proof fn lemma_push_keeps_consistent(t: Seq<StackElem>, a: Seq<Option<bool>>, e: StackElem)
    requires
        consistent(t, a),
        e.lit().is_free(a),
        e.lit().var() < a.len(),
    ensures
        consistent(t.push(e), a.update(e.lit().var() as int, Some(e.lit().polarity()))),
{
    let t2 = t.push(e);
    let a2 = a.update(e.lit().var() as int, Some(e.lit().polarity()));
    let x = e.lit().var() as int;
    assert forall|k: int| 0 <= k < t2.len() implies (#[trigger] t2[k]).lit().var() < a2.len() && a2[t2[k].lit().var() as int]
        == Some(t2[k].lit().polarity()) by {
        if k < t.len() {
            assert(t2[k] == t[k]);
            assert(t[k].lit().var() != x);
        }
    }
    assert forall|v: int| 0 <= v < a2.len() && (#[trigger] a2[v]) is Some implies sets_var(t2, v) by {
        if v == x {
            assert(t2[t.len() as int].lit().var() == v);
        } else {
            assert(sets_var(t, v));
            let w = choose|w: int| 0 <= w < t.len() && (#[trigger] t[w]).lit().var() == v;
            assert(t2[w] == t[w]);
        }
    }
    assert forall|j: int, k: int| 0 <= j < k < t2.len() implies (#[trigger] t2[j]).lit().var() != (#[trigger] t2[k]).lit().var() by {
        assert(t2[j] == t[j]);
        if k == t.len() {
            assert(a[t[j].lit().var() as int] is Some);
        } else {
            assert(t2[k] == t[k]);
        }
    }
}

/// Cutting the trail at `j` and unassigning the variables of the entries cut keeps
/// trail and assignment consistent, and the trail justified.
pub proof fn lemma_cut_keeps(t: Seq<StackElem>, a: Seq<Option<bool>>, f: FormulaInstance, j: int)
    requires
        consistent(t, a),
        0 <= j <= t.len(),
    ensures
        consistent(t.take(j), unassigned_from(a, t.skip(j))),
        justified(t, f) ==> justified(t.take(j), f),
{
    let t2 = t.take(j);
    let a2 = unassigned_from(a, t.skip(j));
    assert forall|k: int| 0 <= k < t2.len() implies (#[trigger] t2[k]).lit().var() < a2.len() && a2[t2[k].lit().var() as int]
        == Some(t2[k].lit().polarity()) by {
        assert(t2[k] == t[k]);
        if sets_var(t.skip(j), t[k].lit().var() as int) {
            let w = choose|w: int| 0 <= w < t.skip(j).len() && (#[trigger] t.skip(j)[w]).lit().var() == t[k].lit().var();
            assert(t.skip(j)[w] == t[w + j]);
        }
    }
    assert forall|v: int| 0 <= v < a2.len() && (#[trigger] a2[v]) is Some implies sets_var(t2, v) by {
        assert(!sets_var(t.skip(j), v));
        assert(sets_var(t, v));
        let w = choose|w: int| 0 <= w < t.len() && (#[trigger] t[w]).lit().var() == v;
        if w >= j {
            assert(t.skip(j)[w - j] == t[w]);
        } else {
            assert(t2[w] == t[w]);
        }
    }
    assert forall|x: int, y: int| 0 <= x < y < t2.len() implies (#[trigger] t2[x]).lit().var() != (#[trigger] t2[y]).lit().var() by {
        assert(t2[x] == t[x]);
        assert(t2[y] == t[y]);
    }
    if justified(t, f) {
        assert forall|k: int| 0 <= k < t2.len() && (#[trigger] t2[k]) is Implied implies match t2[k]@.2 {
            Some(d) => {
                &&& has_literals(f, d.literals)
                &&& forall|i: int| 0 <= i < d.literals.len() ==> (#[trigger] d.literals[i]) == t2[k].lit() || fails_before(
                    t2,
                    k,
                    d.literals[i],
                )
            },
            None => false,
        } by {
            assert(t2[k] == t[k]);
            let d = t[k]@.2->0;
            assert forall|i: int| 0 <= i < d.literals.len() implies (#[trigger] d.literals[i]) == t2[k].lit() || fails_before(
                t2,
                k,
                d.literals[i],
            ) by {
                if d.literals[i] != t[k].lit() {
                    assert(fails_before(t, k, d.literals[i]));
                    let w = choose|w: int|
                        0 <= w < k && (#[trigger] t[w]).lit().var() == d.literals[i].var() && t[w].lit().polarity()
                            != d.literals[i].polarity();
                    assert(t2[w] == t[w]);
                }
            }
        }
    }
}

/// Every literal of a filtered list comes from the list.
pub proof fn lemma_filter_members(s: Seq<SimpleLiteral>, p: spec_fn(SimpleLiteral) -> bool)
    ensures
        forall|i: int| 0 <= i < s.filter(p).len() ==> s.contains(#[trigger] s.filter(p)[i]),
    decreases s.len(),
{
    reveal_with_fuel(Seq::filter, 1);
    if s.len() > 0 {
        lemma_filter_members(s.drop_last(), p);
        let sub = s.drop_last().filter(p);
        assert forall|i: int| 0 <= i < s.filter(p).len() implies s.contains(#[trigger] s.filter(p)[i]) by {
            if i < sub.len() {
                assert(s.filter(p)[i] == sub[i]);
                let j = choose|j: int| 0 <= j < s.drop_last().len() && s.drop_last()[j] == sub[i];
                assert(s[j] == sub[i]);
            } else {
                assert(s.filter(p)[i] == s.last());
                assert(s[s.len() - 1] == s.last());
            }
        }
    }
}

/// Every literal of `append_missing(base, extra)` comes from `base` or `extra`.
pub proof fn lemma_append_missing_members(base: Seq<SimpleLiteral>, extra: Seq<SimpleLiteral>)
    ensures
        forall|i: int| 0 <= i < append_missing(base, extra).len() ==> base.contains(
            #[trigger] append_missing(base, extra)[i],
        ) || extra.contains(append_missing(base, extra)[i]),
    decreases extra.len(),
{
    if extra.len() > 0 {
        lemma_append_missing_members(base, extra.drop_last());
        let b = append_missing(base, extra.drop_last());
        assert forall|i: int| 0 <= i < append_missing(base, extra).len() implies base.contains(
            #[trigger] append_missing(base, extra)[i],
        ) || extra.contains(append_missing(base, extra)[i]) by {
            let x = append_missing(base, extra)[i];
            if i < b.len() {
                assert(x == b[i]);
                if extra.drop_last().contains(x) {
                    let j = choose|j: int| 0 <= j < extra.drop_last().len() && extra.drop_last()[j] == x;
                    assert(extra[j] == x);
                }
            } else {
                assert(extra[extra.len() - 1] == x);
            }
        }
    }
}

/// One resolution step of conflict analysis: with a trail consistent with the
/// assignment and justified by the formula, resolving a clause whose literals all fail
/// and that every model satisfies with the antecedent of the implied entry `k`, on a
/// variable of the clause, gives a clause with the same two properties.
pub proof fn lemma_resolution_step(
    t: Seq<StackElem>,
    a: Seq<Option<bool>>,
    f: FormulaInstance,
    cur: Seq<SimpleLiteral>,
    k: int,
    idx: int,
)
    requires
        consistent(t, a),
        justified(t, f),
        f.assignments@.len() == a.len(),
        0 <= k < t.len(),
        t[k] is Implied,
        0 <= idx < cur.len(),
        t[k].lit().var() == cur[idx].var(),
        forall|i: int| 0 <= i < cur.len() ==> (#[trigger] cur[i]).fails(a) && cur[i].var() < a.len(),
        forall|m: Seq<Option<bool>>| #[trigger] f.is_model(m) ==> list_satisfied(cur, m),
    ensures
        ({
            let r = resolvent_literals(t[k]@.2->0.literals, cur, t[k].lit().var());
            &&& forall|i: int| 0 <= i < r.len() ==> (#[trigger] r[i]).fails(a) && r[i].var() < a.len()
            &&& forall|m: Seq<Option<bool>>| #[trigger] f.is_model(m) ==> list_satisfied(r, m)
        }),
{
    let l = t[k].lit();
    let ante = t[k]@.2->0.literals;
    let pivot = l.var();
    let r = resolvent_literals(ante, cur, pivot);
    assert(a[pivot as int] == Some(l.polarity()));
    assert forall|i: int| 0 <= i < ante.len() && (#[trigger] ante[i]).var() == pivot implies ante[i].polarity() == l.polarity() by {
        if ante[i] != l {
            assert(fails_before(t, k, ante[i]));
            let j = choose|j: int| 0 <= j < k && (#[trigger] t[j]).lit().var() == ante[i].var() && t[j].lit().polarity()
                != ante[i].polarity();
            assert(t[j].lit().var() != t[k].lit().var());
        }
    }
    assert forall|i: int| 0 <= i < cur.len() && (#[trigger] cur[i]).var() == pivot implies cur[i].polarity() != l.polarity() by {
        assert(cur[i].fails(a));
    }
    assert forall|m: Seq<Option<bool>>| #[trigger] f.is_model(m) implies list_satisfied(r, m) by {
        lemma_model_satisfies_member(f, ante, m);
        law_resolvent_sound(ante, cur, pivot, l.polarity(), m);
    }
    let merged = append_missing(ante, cur);
    lemma_append_missing_members(ante, cur);
    lemma_filter_members(merged, |x: SimpleLiteral| x.var() != pivot);
    assert forall|i: int| 0 <= i < r.len() implies (#[trigger] r[i]).fails(a) && r[i].var() < a.len() by {
        let x = r[i];
        merged.lemma_filter_pred(|x: SimpleLiteral| x.var() != pivot, i);
        assert(merged.contains(x));
        let j = choose|j: int| 0 <= j < merged.len() && merged[j] == x;
        assert(ante.contains(x) || cur.contains(x));
        if cur.contains(x) {
            let w = choose|w: int| 0 <= w < cur.len() && cur[w] == x;
            assert(cur[w].fails(a));
        } else {
            let w = choose|w: int| 0 <= w < ante.len() && ante[w] == x;
            assert(x.var() != pivot);
            assert(x != l);
            assert(fails_before(t, k, ante[w]));
            let u = choose|u: int| 0 <= u < k && (#[trigger] t[u]).lit().var() == x.var() && t[u].lit().polarity()
                != x.polarity();
            assert(a[t[u].lit().var() as int] == Some(t[u].lit().polarity()));
        }
    }
}

/// Pushing a chosen entry keeps the trail justified.
pub proof fn lemma_push_chosen_justified(t: Seq<StackElem>, f: FormulaInstance, e: StackElem)
    requires
        justified(t, f),
        e is Chosen,
    ensures
        justified(t.push(e), f),
{
    let t2 = t.push(e);
    assert forall|j: int| 0 <= j < t2.len() && (#[trigger] t2[j]) is Implied implies match t2[j]@.2 {
        Some(d) => {
            &&& has_literals(f, d.literals)
            &&& forall|i: int| 0 <= i < d.literals.len() ==> (#[trigger] d.literals[i]) == t2[j].lit() || fails_before(
                t2,
                j,
                d.literals[i],
            )
        },
        None => false,
    } by {
        assert(t2[j] == t[j]);
        let d = t[j]@.2->0;
        assert forall|i: int| 0 <= i < d.literals.len() implies (#[trigger] d.literals[i]) == t2[j].lit() || fails_before(
            t2,
            j,
            d.literals[i],
        ) by {
            if d.literals[i] != t[j].lit() {
                assert(fails_before(t, j, d.literals[i]));
                let w = choose|w: int|
                    0 <= w < j && (#[trigger] t[w]).lit().var() == d.literals[i].var() && t[w].lit().polarity()
                        != d.literals[i].polarity();
                assert(t2[w] == t[w]);
            }
        }
    }
}

/// The literals of every implied entry's clause, but those over the entry's own
/// variable, fail under `a`.
pub open spec fn reasons_fail(t: Seq<StackElem>, a: Seq<Option<bool>>) -> bool {
    forall|k: int, i: int|
        0 <= k < t.len() && (#[trigger] t[k]) is Implied && 0 <= i < (t[k]@.2->0).literals.len()
            && (#[trigger] (t[k]@.2->0).literals[i]).var() != t[k].lit().var() ==> (t[k]@.2->0).literals[i].fails(a)
}

/// A resolvent of a clause whose literals fail with an antecedent whose literals off
/// the pivot fail has only failing literals.
pub proof fn lemma_resolvent_fails(ante: Seq<SimpleLiteral>, cur: Seq<SimpleLiteral>, pivot: usize, a: Seq<Option<bool>>)
    requires
        forall|i: int| 0 <= i < ante.len() && (#[trigger] ante[i]).var() != pivot ==> ante[i].fails(a),
        forall|i: int| 0 <= i < cur.len() ==> (#[trigger] cur[i]).fails(a),
    ensures
        forall|i: int| 0 <= i < resolvent_literals(ante, cur, pivot).len() ==> (#[trigger] resolvent_literals(ante, cur, pivot)[i]).fails(a),
{
    let m = append_missing(ante, cur);
    let p = |l: SimpleLiteral| l.var() != pivot;
    let r = m.filter(p);
    lemma_append_missing_members(ante, cur);
    lemma_filter_members(m, p);
    assert(r == resolvent_literals(ante, cur, pivot));
    assert forall|i: int| 0 <= i < r.len() implies (#[trigger] r[i]).fails(a) by {
        m.lemma_filter_pred(p, i);
        let x = r[i];
        assert(m.contains(x));
        let j = choose|j: int| 0 <= j < m.len() && m[j] == x;
        assert(append_missing(ante, cur)[j] == x);
        if ante.contains(x) {
            let q = choose|q: int| 0 <= q < ante.len() && ante[q] == x;
            assert(ante[q].var() != pivot);
        } else {
            let q = choose|q: int| 0 <= q < cur.len() && cur[q] == x;
            assert(cur[q].fails(a));
        }
    }
}

} // verus!
