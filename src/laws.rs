//! Properties that hold of every solver state and of every answer.
use vstd::prelude::*;
use crate::assignment::Assignment;
use crate::cdclcnf::Cdcl;
use crate::cnf::Cnf;
use crate::literal::{clause_holds, clause_seqs, entails, formula_holds, lit_holds, satisfiable};

verus! {

/// Levels along the trail never decrease, and the decisions are exactly the
/// first entries of each level above 0: within a level exactly one entry has
/// no reason, and it comes first.
pub proof fn law_trail_levels(a: Assignment)
    requires
        a.wf(),
    ensures
        forall|i: int, j: int|
            0 <= i <= j < a.trail@.len() ==> #[trigger] a.level_at(i) <= #[trigger] a.level_at(j),
        forall|j: int|
            0 <= j < a.trail@.len() ==> (#[trigger] a.decision_at(j) <==> a.level_at(j) >= 1 && (j
                == 0 || a.level_at(j - 1) < a.level_at(j))),
        forall|i: int, j: int|
            0 <= i < j < a.trail@.len() && #[trigger] a.level_at(i) == a.level_at(j)
                ==> !#[trigger] a.decision_at(j),
{
    assert forall|i: int, j: int| 0 <= i <= j < a.trail@.len() implies #[trigger] a.level_at(i)
        <= #[trigger] a.level_at(j) by {
        a.lemma_levels_monotone(i, j);
    }
    assert forall|j: int| 0 <= j < a.trail@.len() implies (#[trigger] a.decision_at(j) <==> a.level_at(
        j,
    ) >= 1 && (j == 0 || a.level_at(j - 1) < a.level_at(j))) by {
        assert(a.level_step(j));
        if j > 0 {
            a.lemma_level_bounded_by_index(j - 1);
        }
    }
    assert forall|i: int, j: int|
        0 <= i < j < a.trail@.len() && #[trigger] a.level_at(i) == a.level_at(j) implies !#[trigger] a.decision_at(
        j,
    ) by {
        if a.decision_at(j) {
            a.lemma_decision_opens_level(i, j);
        }
    }
}

/// Every trail entry with a reason was forced by it: the reason clause holds
/// the entry's literal and all its other literals were false before the entry.
pub proof fn law_reasons_sound_cdcl(s: Cdcl)
    requires
        s.inv(),
    ensures
        forall|j: int|
            0 <= j < s.assignment.trail@.len() && #[trigger] s.assignment.reasons@[s.assignment.slot(j)] is Some
                ==> {
                let r = s.assignment.reasons@[s.assignment.slot(j)].unwrap() as int;
                &&& r < s.clauses@.len()
                &&& s.clauses@[r]@.contains(s.assignment.trail@[j])
                &&& forall|i: int|
                    0 <= i < s.clauses@[r]@.len() && s.clauses@[r]@[i] != s.assignment.trail@[j]
                        ==> s.assignment.false_before(#[trigger] s.clauses@[r]@[i] as int, j)
            },
{
    assert forall|j: int|
        0 <= j < s.assignment.trail@.len() && #[trigger] s.assignment.reasons@[s.assignment.slot(j)] is Some implies {
        let r = s.assignment.reasons@[s.assignment.slot(j)].unwrap() as int;
        &&& r < s.clauses@.len()
        &&& s.clauses@[r]@.contains(s.assignment.trail@[j])
        &&& forall|i: int|
            0 <= i < s.clauses@[r]@.len() && s.clauses@[r]@[i] != s.assignment.trail@[j]
                ==> s.assignment.false_before(#[trigger] s.clauses@[r]@[i] as int, j)
    } by {
        assert(s.assignment.reason_sound(clause_seqs(s.clauses@), j));
        let r = s.assignment.reasons@[s.assignment.slot(j)].unwrap() as int;
        assert(clause_seqs(s.clauses@)[r] == s.clauses@[r]@);
    }
}

/// The same for the watched-literal solver.
pub proof fn law_reasons_sound_cnf(s: Cnf)
    requires
        s.inv(),
    ensures
        forall|j: int|
            0 <= j < s.assignment.trail@.len() && #[trigger] s.assignment.reasons@[s.assignment.slot(j)] is Some
                ==> {
                let r = s.assignment.reasons@[s.assignment.slot(j)].unwrap() as int;
                &&& r < s.clauses@.len()
                &&& s.clauses@[r]@.contains(s.assignment.trail@[j])
                &&& forall|i: int|
                    0 <= i < s.clauses@[r]@.len() && s.clauses@[r]@[i] != s.assignment.trail@[j]
                        ==> s.assignment.false_before(#[trigger] s.clauses@[r]@[i] as int, j)
            },
{
    assert forall|j: int|
        0 <= j < s.assignment.trail@.len() && #[trigger] s.assignment.reasons@[s.assignment.slot(j)] is Some implies {
        let r = s.assignment.reasons@[s.assignment.slot(j)].unwrap() as int;
        &&& r < s.clauses@.len()
        &&& s.clauses@[r]@.contains(s.assignment.trail@[j])
        &&& forall|i: int|
            0 <= i < s.clauses@[r]@.len() && s.clauses@[r]@[i] != s.assignment.trail@[j]
                ==> s.assignment.false_before(#[trigger] s.clauses@[r]@[i] as int, j)
    } by {
        assert(s.assignment.reason_sound(clause_seqs(s.clauses@), j));
        let r = s.assignment.reasons@[s.assignment.slot(j)].unwrap() as int;
        assert(clause_seqs(s.clauses@)[r] == s.clauses@[r]@);
    }
}

/// Every stored clause, learned ones included, holds under every assignment
/// that satisfies the problem.
pub proof fn law_stored_clauses_follow_cdcl(s: Cdcl)
    requires
        s.inv(),
    ensures
        forall|c: int| 0 <= c < s.clauses@.len() ==> entails(s.problem@, #[trigger] s.clauses@[c]@),
{
    assert forall|c: int| 0 <= c < s.clauses@.len() implies entails(s.problem@, #[trigger] s.clauses@[c]@) by {
        assert(clause_seqs(s.clauses@)[c] == s.clauses@[c]@);
    }
}

/// The same for the watched-literal solver.
pub proof fn law_stored_clauses_follow_cnf(s: Cnf)
    requires
        s.inv(),
    ensures
        forall|c: int| 0 <= c < s.clauses@.len() ==> entails(s.problem@, #[trigger] s.clauses@[c]@),
{
    assert forall|c: int| 0 <= c < s.clauses@.len() implies entails(s.problem@, #[trigger] s.clauses@[c]@) by {
        assert(clause_seqs(s.clauses@)[c] == s.clauses@[c]@);
    }
}

/// Watch invariant: once propagation has drained the queue, a false watched
/// literal has a true literal at its other watch. So every nonempty clause
/// watches a literal that is unset or true, no nonempty clause is falsified,
/// and no clause of two literals or more is unit.
pub proof fn law_watch_invariant(s: Cnf)
    requires
        s.inv(),
        s.head == s.assignment.trail@.len(),
    ensures
        forall|c: int|
            0 <= c < s.clauses@.len() && s.clauses@[c]@.len() > 0 ==> !s.assignment.lit_false(
                #[trigger] s.watch_lit(c, 0) as int,
            ) || !s.assignment.lit_false(s.watch_lit(c, 1) as int),
        forall|c: int, k: int|
            0 <= c < s.clauses@.len() && s.clauses@[c]@.len() > 0 && (k == 0 || k == 1)
                && s.assignment.lit_false(#[trigger] s.watch_lit(c, k) as int)
                ==> s.assignment.lit_true(s.watch_lit(c, 1 - k) as int),
        forall|c: int|
            0 <= c < s.clauses@.len() && s.clauses@[c]@.len() > 0
                ==> !s.assignment.clause_falsified(#[trigger] s.clauses@[c]@),
        forall|c: int, l: i32|
            0 <= c < s.clauses@.len() && s.clauses@[c]@.len() >= 2
                ==> !#[trigger] s.assignment.clause_unit(s.clauses@[c]@, l),
{
    s.lemma_propagation_complete();
    assert forall|c: int| 0 <= c < s.clauses@.len() && s.clauses@[c]@.len() > 0 implies !s.assignment.lit_false(
        #[trigger] s.watch_lit(c, 0) as int,
    ) || !s.assignment.lit_false(s.watch_lit(c, 1) as int) by {
        if s.assignment.lit_false(s.watch_lit(c, 0) as int) {
            assert(s.assignment.lit_true(s.watch_lit(c, 1) as int));
        }
    }
}

/// The unit clauses that fix variables `1..=n` to their values under `m`.
pub open spec fn model_units(m: spec_fn(int) -> bool, n: nat) -> Seq<Seq<i32>> {
    Seq::new(
        n,
        |i: int|
            if m(i + 1) {
                seq![(i + 1) as i32]
            } else {
                seq![(-(i + 1)) as i32]
            },
    )
}

/// Adding a model of the problem as unit clauses keeps the problem
/// satisfiable, and every model of the extended problem agrees with it on
/// variables `1..=n`: solving again answers SAT with the same model.
pub proof fn law_model_as_units(problem: Seq<Seq<i32>>, m: spec_fn(int) -> bool, n: nat)
    requires
        formula_holds(m, problem),
        n <= i32::MAX,
    ensures
        satisfiable(problem + model_units(m, n)),
        forall|m2: spec_fn(int) -> bool, v: int|
            formula_holds(m2, problem + model_units(m, n)) && 1 <= v <= n ==> #[trigger] m2(v)
                == m(v),
{
    let f = problem + model_units(m, n);
    let units = model_units(m, n);
    assert forall|i: int| 0 <= i < f.len() implies #[trigger] clause_holds(m, f[i]) by {
        if i >= problem.len() {
            let k = i - problem.len();
            assert(f[i] == units[k]);
            assert(lit_holds(m, units[k][0] as int));
        } else {
            assert(f[i] == problem[i]);
        }
    }
    assert(formula_holds(m, f));
    assert forall|m2: spec_fn(int) -> bool, v: int|
        formula_holds(m2, f) && 1 <= v <= n implies #[trigger] m2(v) == m(v) by {
        let i = problem.len() + v - 1;
        assert(f[i] == units[v - 1]);
        assert(clause_holds(m2, f[i]));
        let e = choose|e: int| 0 <= e < f[i].len() && #[trigger] lit_holds(m2, f[i][e] as int);
        assert(e == 0);
    }
}

} // verus!
