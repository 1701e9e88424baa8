//! The steps of the CDCL search shared by both solvers: what holds of their
//! state, and learning from a conflict.
use vstd::prelude::*;
use crate::analysis::analyze;
use crate::assignment::Assignment;
use crate::literal::{
    clause_holds, clause_seqs, clauses_in_range, entails, equivalent, formula_holds, lit_in_range,
    satisfiable,
};
use crate::progress::{lemma_progress_backjump, lemma_progress_bounded, progress, progress_bound};

verus! {

/// What holds of a solver's state throughout the search: the store is
/// consistent with its trail, every reason clause is sound, every stored
/// clause follows from the problem, and the first `num_loaded` stored clauses
/// hold under exactly the assignments that satisfy the problem.
pub open spec fn search_inv(
    cs: Seq<Seq<i32>>,
    a: Assignment,
    problem: Seq<Seq<i32>>,
    num_loaded: int,
) -> bool {
    &&& a.wf()
    &&& a.reasons_ok(cs)
    &&& clauses_in_range(cs, a.num_vars())
    &&& clauses_in_range(problem, a.num_vars())
    &&& 0 <= num_loaded <= cs.len()
    &&& equivalent(problem, cs.take(num_loaded))
    &&& forall|c: int| 0 <= c < cs.len() ==> #[trigger] entails(problem, cs[c])
}

/// The measure of the search: it grows with every step and stays bounded.
pub open spec fn search_progress(a: Assignment) -> nat {
    progress(a.level_seq(), a.num_vars() as nat)
}

pub proof fn lemma_search_progress_bounded(a: Assignment)
    requires
        a.wf(),
    ensures
        search_progress(a) <= progress_bound(a.num_vars() as nat),
{
    a.lemma_levels_in_range();
    lemma_progress_bounded(a.level_seq(), a.num_vars() as nat);
}

/// A formula that entails every clause of `cs` is satisfied only where `cs` is.
pub proof fn lemma_entails_all(problem: Seq<Seq<i32>>, cs: Seq<Seq<i32>>, m: spec_fn(int) -> bool)
    requires
        forall|c: int| 0 <= c < cs.len() ==> #[trigger] entails(problem, cs[c]),
        formula_holds(m, problem),
    ensures
        formula_holds(m, cs),
{
    assert forall|c: int| 0 <= c < cs.len() implies #[trigger] clause_holds(m, cs[c]) by {
        assert(entails(problem, cs[c]));
    }
}

/// The last trail entry was asserted by clause `c` (index `idx`): it is a
/// literal of `c` on the current level with `c` as reason, and every other
/// literal of `c` is false on a level no higher.
pub open spec fn asserted_by(a: Assignment, c: Seq<i32>, idx: usize) -> bool {
    let u = a.trail@.last();
    &&& a.trail@.len() > 0
    &&& c.contains(u)
    &&& a.reasons@[crate::literal::var_of(u as int) - 1] == Some(idx)
    &&& a.lit_level(u as int) == a.current_level
    &&& forall|i: int|
        0 <= i < c.len() && c[i] != u ==> #[trigger] a.lit_false(c[i] as int) && a.lit_level(
            c[i] as int,
        ) <= a.current_level
}

/// `a` is a prefix of `b`: the clause list only grew at its end.
pub open spec fn prefix_of(a: Seq<Vec<i32>>, b: Seq<Vec<i32>>) -> bool {
    a.len() <= b.len() && b.take(a.len() as int) == a
}

pub proof fn lemma_prefix_refl(a: Seq<Vec<i32>>)
    ensures
        prefix_of(a, a),
{
    assert(a.take(a.len() as int) =~= a);
}

pub proof fn lemma_prefix_trans(a: Seq<Vec<i32>>, b: Seq<Vec<i32>>, c: Seq<Vec<i32>>)
    requires
        prefix_of(a, b),
        prefix_of(b, c),
    ensures
        prefix_of(a, c),
{
    assert(c.take(a.len() as int) =~= a) by {
        assert forall|i: int| 0 <= i < a.len() implies c.take(a.len() as int)[i] == a[i] by {
            assert(c.take(b.len() as int)[i] == b[i]);
            assert(b.take(a.len() as int)[i] == a[i]);
        }
    }
}


/// The highest level among the literals of a clause whose literals are all
/// assigned (0 for the empty clause).
pub fn max_level(a: &Assignment, c: &Vec<i32>) -> (k: u32)
    requires
        a.wf(),
        forall|i: int|
            0 <= i < c@.len() ==> lit_in_range(#[trigger] c@[i], a.num_vars()) && !a.lit_unset(
                c@[i] as int,
            ),
    ensures
        forall|i: int| 0 <= i < c@.len() ==> a.lit_level(#[trigger] c@[i] as int) <= k,
        k == 0 || exists|i: int| 0 <= i < c@.len() && a.lit_level(#[trigger] c@[i] as int) == k,
{
    let mut k: u32 = 0;
    let mut i: usize = 0;
    while i < c.len()
        invariant
            a.wf(),
            0 <= i <= c@.len(),
            forall|q: int|
                0 <= q < c@.len() ==> lit_in_range(#[trigger] c@[q], a.num_vars()) && !a.lit_unset(
                    c@[q] as int,
                ),
            forall|q: int| 0 <= q < i ==> a.lit_level(#[trigger] c@[q] as int) <= k,
            k == 0 || exists|q: int| 0 <= q < i && a.lit_level(#[trigger] c@[q] as int) == k,
        decreases c@.len() - i,
    {
        let x = c[i];
        proof {
            assert(lit_in_range(c@[i as int], a.num_vars()));
            assert(a.values@[crate::literal::var_of(x as int) - 1] is Some);
        }
        match a.get_level(x) {
            Some(l) => {
                if l > k {
                    k = l;
                }
            },
            None => {},
        }
        i = i + 1;
    }
    k
}

/// Learns from the falsified clause `conflict`.
///
/// When every literal of the conflict lies on level 0, the problem is
/// unsatisfiable: returns `None` and changes nothing. Otherwise appends the
/// learned clause, backjumps to its backjump level, and assigns its asserting
/// literal there with the learned clause as reason; returns the new clause's
/// index. The search measure grows.
pub fn learn(
    clauses: &mut Vec<Vec<i32>>,
    a: &mut Assignment,
    conflict: usize,
    problem: Ghost<Seq<Seq<i32>>>,
    num_loaded: Ghost<int>,
) -> (r: Option<usize>)
    requires
        search_inv(clause_seqs(old(clauses)@), *old(a), problem@, num_loaded@),
        conflict < old(clauses)@.len(),
        forall|i: int|
            0 <= i < old(clauses)@[conflict as int]@.len() ==> old(a).lit_false(
                #[trigger] old(clauses)@[conflict as int]@[i] as int,
            ),
    ensures
        r is None ==> !satisfiable(problem@) && *final(clauses) == *old(clauses) && *final(a)
            == *old(a),
        r is Some ==> {
            &&& search_inv(clause_seqs(final(clauses)@), *final(a), problem@, num_loaded@)
            &&& r.unwrap() == old(clauses)@.len()
            &&& final(clauses)@.len() == old(clauses)@.len() + 1
            &&& final(clauses)@.take(old(clauses)@.len() as int) == old(clauses)@
            &&& final(a).num_vars() == old(a).num_vars()
            &&& search_progress(*final(a)) > search_progress(*old(a))
            &&& final(a).phases@ == old(a).phases@.update(
                crate::literal::var_of(final(a).trail@.last() as int) - 1,
                final(a).trail@.last() > 0,
            )
            &&& asserted_by(*final(a), final(clauses)@[r.unwrap() as int]@, r.unwrap())
            &&& crate::clause::strictly_sorted(final(clauses)@[r.unwrap() as int]@)
            &&& (final(a).current_level == 0 || exists|i: int|
                0 <= i < final(clauses)@[r.unwrap() as int]@.len()
                    && final(clauses)@[r.unwrap() as int]@[i] != final(a).trail@.last()
                    && final(a).lit_level(#[trigger] final(clauses)@[r.unwrap() as int]@[i] as int)
                    == final(a).current_level)
            &&& final(a).trail@.drop_last() == old(a).trail@.take(final(a).trail@.len() - 1)
            &&& final(a).current_level < old(a).current_level
            &&& forall|j: int|
                0 <= j < final(a).trail@.len() - 1 ==> #[trigger] old(a).level_at(j)
                    <= final(a).current_level
            &&& forall|j: int|
                0 <= j < final(a).trail@.len() - 1 ==> #[trigger] final(a).level_at(j)
                    == old(a).level_at(j)
            &&& forall|j: int|
                final(a).trail@.len() - 1 <= j < old(a).trail@.len() ==> #[trigger] old(a).level_at(j)
                    > final(a).current_level
        },
{
    let ghost cs = clause_seqs(clauses@);
    let ghost n = a.num_vars();
    proof {
        assert(clauses@[conflict as int]@ == cs[conflict as int]);
        assert forall|i: int| 0 <= i < clauses@[conflict as int]@.len() implies lit_in_range(
            #[trigger] clauses@[conflict as int]@[i],
            n,
        ) && !a.lit_unset(clauses@[conflict as int]@[i] as int) by {
            assert(lit_in_range(cs[conflict as int][i], n));
        }
    }
    let k = max_level(a, &clauses[conflict]);
    if k == 0 {
        proof {
            a.lemma_level_zero_conflict(cs, conflict as int);
            if satisfiable(problem@) {
                let m = choose|m: spec_fn(int) -> bool| formula_holds(m, problem@);
                lemma_entails_all(problem@, cs, m);
            }
        }
        return None;
    }
    let (learned, bjl, uip) = analyze(clauses, a, conflict, k);
    proof {
        a.lemma_levels_in_range();
        a.lemma_trail_len();
        let x = choose|i: int|
            0 <= i < clauses@[conflict as int]@.len() && a.lit_level(
                #[trigger] clauses@[conflict as int]@[i] as int,
            ) == k;
        // the conflict's level is the level of an assigned variable
        let l = clauses@[conflict as int]@[x];
        assert(lit_in_range(cs[conflict as int][x], n));
        a.lemma_false_lit_on_trail(l as int);
        let p = choose|p: int| 0 <= p < a.trail@.len() && #[trigger] a.trail@[p] as int == -(l as int);
        assert(a.slot(p) == crate::literal::var_of(l as int) - 1);
        assert(a.level_seq()[p] == k);
        // the learned clause follows from the problem
        assert forall|m: spec_fn(int) -> bool| formula_holds(m, problem@) implies #[trigger] clause_holds(
            m,
            learned@,
        ) by {
            lemma_entails_all(problem@, cs, m);
        }
    }
    let ghost a0 = *a;
    let ghost old_len = clauses@.len();
    let idx = clauses.len();
    clauses.push(learned);
    let ghost cs2 = clause_seqs(clauses@);
    proof {
        assert(cs2 =~= cs.push(learned@));
        assert(cs2.take(cs.len() as int) =~= cs);
        a.lemma_reasons_ok_extend(cs, cs2);
        assert(cs2.take(num_loaded@) =~= cs.take(num_loaded@));
        assert forall|c: int| 0 <= c < cs2.len() implies #[trigger] entails(problem@, cs2[c]) by {
            if c < cs.len() {
                assert(cs2[c] == cs[c]);
            }
        }
        assert(clauses_in_range(cs2, n)) by {
            assert forall|c: int, i: int|
                0 <= c < cs2.len() && 0 <= i < cs2[c].len() implies lit_in_range(
                #[trigger] cs2[c][i],
                n,
            ) by {
                if c < cs.len() {
                    assert(cs2[c] == cs[c]);
                } else {
                    assert(cs2[c] == learned@);
                }
            }
        }
    }
    a.backtrack_to_level(bjl);
    let ghost a1 = *a;
    proof {
        assert(clauses@[idx as int]@ == learned@);
        // the asserting literal's variable was above the backjump level
        assert(a.lit_unset(uip as int));
        assert forall|i: int|
            0 <= i < clauses@[idx as int]@.len() && clauses@[idx as int]@[i] != uip implies a.lit_false(
            #[trigger] clauses@[idx as int]@[i] as int,
        ) by {
            let y = learned@[i];
            assert(lit_in_range(y, n));
            assert(a0.lit_false(y as int) && a0.lit_level(y as int) <= bjl);
        }
    }
    a.imply(uip, idx, clauses);
    proof {
        let m = a1.trail@.len() as int;
        a0.lemma_trail_len();
        lemma_progress_backjump(a0.level_seq(), m, bjl as int, n as nat);
        assert(a.level_seq() =~= a0.level_seq().take(m).push(bjl as int));
        assert(cs2 == clause_seqs(clauses@));
        assert(a.trail@.last() == uip);
        assert(a.trail@.drop_last() =~= a0.trail@.take(m));
        assert forall|j: int| 0 <= j < a.trail@.len() - 1 implies #[trigger] a.level_at(j) == a0.level_at(j) by {
            assert(a.level_seq()[j] == a0.level_seq().take(m)[j]);
        }
        assert forall|j: int| 0 <= j < a.trail@.len() - 1 implies #[trigger] a0.level_at(j) <= a.current_level by {
            assert(a1.level_seq()[j] == a0.level_seq().take(m)[j]);
            assert(a1.level_at(j) <= bjl) by {
                a1.lemma_levels_in_range();
            }
        }
        assert(clauses@[idx as int]@ == learned@);
        if bjl != 0 {
            let q = choose|i: int|
                0 <= i < learned@.len() && learned@[i] != uip && a0.lit_level(
                    #[trigger] learned@[i] as int,
                ) == bjl;
            let y = learned@[q];
            assert(lit_in_range(y, n));
            assert(a1.lit_level(y as int) == bjl);
            assert(crate::literal::var_of(y as int) != crate::literal::var_of(uip as int));
            assert(a.lit_level(clauses@[idx as int]@[q] as int) == a.current_level);
        }
        assert forall|i: int| 0 <= i < learned@.len() && learned@[i] != uip implies #[trigger] a.lit_false(
            learned@[i] as int,
        ) && a.lit_level(learned@[i] as int) <= a.current_level by {
            let y = learned@[i];
            assert(lit_in_range(y, n));
            assert(a1.lit_false(y as int));
            assert(crate::literal::var_of(y as int) != crate::literal::var_of(uip as int));
        }
    }
    Some(idx)
}

} // verus!
