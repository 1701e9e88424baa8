//! First-UIP conflict analysis.
use vstd::prelude::*;
use crate::assignment::Assignment;
use crate::clause::{canonical_clause, is_tautology, strictly_sorted};
use crate::literal::{
    clause_seqs, clauses_in_range, entails, lemma_entails_superset, lemma_member_entailed,
    lemma_resolution, lit_in_range, neg, var_index, var_of,
};

verus! {

/// The current-level part of the working clause: the negations of the trail
/// entries before `idx` that lie on level `k` and whose variable is marked seen.
pub open spec fn pending(a: Assignment, seen: Seq<bool>, k: int, idx: int) -> Seq<i32>
    decreases idx,
{
    if idx <= 0 {
        Seq::empty()
    } else {
        pending(a, seen, k, idx - 1) + (if seen[a.slot(idx - 1)] && a.level_at(idx - 1) == k {
            seq![neg(a.trail@[idx - 1])]
        } else {
            Seq::empty()
        })
    }
}

proof fn lemma_pending_len(a: Assignment, seen: Seq<bool>, k: int, idx: int)
    requires
        0 <= idx,
    ensures
        pending(a, seen, k, idx).len() <= idx,
        (forall|j: int| 0 <= j < idx ==> a.level_at(j) != k) ==> pending(a, seen, k, idx).len()
            == 0,
    decreases idx,
{
    if idx > 0 {
        lemma_pending_len(a, seen, k, idx - 1);
    }
}

proof fn lemma_pending_none_seen(a: Assignment, seen: Seq<bool>, k: int, idx: int)
    requires
        0 <= idx,
        forall|j: int| 0 <= j < idx ==> !seen[#[trigger] a.slot(j)],
    ensures
        pending(a, seen, k, idx).len() == 0,
    decreases idx,
{
    if idx > 0 {
        lemma_pending_none_seen(a, seen, k, idx - 1);
    }
}

proof fn lemma_pending_has(a: Assignment, seen: Seq<bool>, k: int, idx: int, j: int)
    requires
        0 <= j < idx,
        seen[a.slot(j)],
        a.level_at(j) == k,
    ensures
        pending(a, seen, k, idx).contains(neg(a.trail@[j])),
    decreases idx,
{
    if j < idx - 1 {
        lemma_pending_has(a, seen, k, idx - 1, j);
        let p = pending(a, seen, k, idx - 1);
        let q = choose|q: int| 0 <= q < p.len() && p[q] == neg(a.trail@[j]);
        assert(pending(a, seen, k, idx)[q] == p[q]);
    } else {
        let p = pending(a, seen, k, idx);
        assert(p[p.len() - 1] == neg(a.trail@[j]));
    }
}

/// Marking more variables seen keeps every pending literal.
proof fn lemma_pending_grows(a: Assignment, s: Seq<bool>, t: Seq<bool>, k: int, idx: int)
    requires
        s.len() == t.len(),
        forall|v: int| 0 <= v < s.len() && #[trigger] s[v] ==> t[v],
        forall|j: int| 0 <= j < idx ==> 0 <= #[trigger] a.slot(j) < s.len(),
    ensures
        forall|y: i32| #[trigger] pending(a, s, k, idx).contains(y) ==> pending(a, t, k, idx).contains(y),
    decreases idx,
{
    if idx > 0 {
        lemma_pending_grows(a, s, t, k, idx - 1);
        assert forall|y: i32| #[trigger] pending(a, s, k, idx).contains(y) implies pending(
            a,
            t,
            k,
            idx,
        ).contains(y) by {
            let ps = pending(a, s, k, idx - 1);
            let pt = pending(a, t, k, idx - 1);
            let i = choose|i: int| 0 <= i < pending(a, s, k, idx).len() && pending(a, s, k, idx)[i] == y;
            if i < ps.len() {
                assert(ps[i] == y);
                assert(ps.contains(y));
                assert(pt.contains(y));
                let q = choose|q: int| 0 <= q < pt.len() && pt[q] == y;
                assert(pending(a, t, k, idx)[q] == y);
            } else {
                assert(s[a.slot(idx - 1)]);
                lemma_pending_has(a, t, k, idx, idx - 1);
            }
        }
    }
}

/// Marking the variable of entry `p` seen adds one pending literal exactly when
/// that entry lies before `idx` on level `k`.
proof fn lemma_pending_mark(a: Assignment, s: Seq<bool>, k: int, idx: int, p: int)
    requires
        a.store_wf(),
        0 <= p < a.trail@.len(),
        0 <= idx <= a.trail@.len(),
        s.len() == a.num_vars(),
        !s[a.slot(p)],
    ensures
        pending(a, s.update(a.slot(p), true), k, idx).len() == pending(a, s, k, idx).len() + (
        if p < idx && a.level_at(p) == k {
            1int
        } else {
            0int
        }),
    decreases idx,
{
    if idx > 0 {
        lemma_pending_mark(a, s, k, idx - 1, p);
        let j = idx - 1;
        assert(lit_in_range(a.trail@[j], a.num_vars()));
        if j != p {
            assert(a.slot(j) != a.slot(p));
        }
    }
}


/// The bookkeeping of the analysis: seen variables are assigned at level `k` or
/// below; the buffer holds false literals below level `k`, among them the false
/// literal of every seen variable below level `k`.
pub open spec fn work_inv(a: Assignment, seen: Seq<bool>, buffer: Seq<i32>, k: int) -> bool {
    let n = a.num_vars();
    &&& seen.len() == n
    &&& forall|v: int|
        0 <= v < n && #[trigger] seen[v] ==> a.values@[v] is Some && a.levels@[v].unwrap() <= k
    &&& forall|q: int|
        0 <= q < buffer.len() ==> lit_in_range(#[trigger] buffer[q], n) && a.lit_false(
            buffer[q] as int,
        ) && a.lit_level(buffer[q] as int) < k
    &&& forall|j: int|
        0 <= j < a.trail@.len() && #[trigger] seen[a.slot(j)] && a.level_at(j) < k
            ==> buffer.contains(neg(a.trail@[j]))
}

/// Adds the false literal `x`, refuted before entry `idx`, to the working
/// clause: into the buffer below level `k`, into the pending part at level `k`.
fn mark(
    a: &Assignment,
    x: i32,
    k: u32,
    idx: Ghost<int>,
    seen: &mut Vec<bool>,
    buffer: &mut Vec<i32>,
    counter: &mut usize,
)
    requires
        a.wf(),
        lit_in_range(x, a.num_vars()),
        a.false_before(x as int, idx@),
        0 <= idx@ <= a.trail@.len(),
        a.lit_level(x as int) <= k,
        work_inv(*a, old(seen)@, old(buffer)@, k as int),
        *old(counter) == pending(*a, old(seen)@, k as int, idx@).len(),
    ensures
        work_inv(*a, final(seen)@, final(buffer)@, k as int),
        final(seen)@ == old(seen)@.update(var_of(x as int) - 1, true),
        old(buffer)@.len() <= final(buffer)@.len(),
        final(buffer)@.take(old(buffer)@.len() as int) == old(buffer)@,
        *final(counter) == pending(*a, final(seen)@, k as int, idx@).len(),
        a.lit_level(x as int) < k ==> final(buffer)@.contains(x),
        a.lit_level(x as int) == k ==> pending(*a, final(seen)@, k as int, idx@).contains(x),
{
    let ghost n = a.num_vars();
    let ghost kk = k as int;
    let v = var_index(x);
    let ghost p = choose|p: int| 0 <= p < idx@ && #[trigger] a.trail@[p] as int == -(x as int);
    proof {
        assert(lit_in_range(a.trail@[p], n));
        assert(a.slot(p) == v as int);
        assert(neg(a.trail@[p]) == x);
        a.lemma_trail_len();
    }
    if !seen[v] {
        proof {
            lemma_pending_mark(*a, seen@, kk, idx@, p);
            lemma_pending_len(*a, seen@.update(v as int, true), kk, idx@);
        }
        let ghost old_buffer = buffer@;
        seen.set(v, true);
        if a.levels[v].unwrap() == k {
            *counter = *counter + 1;
            proof {
                assert(buffer@.take(old_buffer.len() as int) =~= old_buffer);
            }
        } else {
            buffer.push(x);
            proof {
                assert(buffer@.take(old_buffer.len() as int) =~= old_buffer);
                assert(buffer@[buffer@.len() - 1] == x);
                assert forall|j: int|
                    0 <= j < a.trail@.len() && #[trigger] seen@[a.slot(j)] && a.level_at(j) < kk
                        implies buffer@.contains(neg(a.trail@[j])) by {
                    if a.slot(j) == v as int {
                        assert(a.slot(j) == a.slot(p));
                        if j != p {
                            assert(lit_in_range(a.trail@[j], n));
                        }
                    } else {
                        assert(old_buffer.contains(neg(a.trail@[j])));
                        let q = choose|q: int|
                            0 <= q < old_buffer.len() && old_buffer[q] == neg(a.trail@[j]);
                        assert(buffer@[q] == old_buffer[q]);
                    }
                }
            }
        }
    } else {
        proof {
            assert(seen@.update(v as int, true) =~= seen@);
            assert(buffer@.take(buffer@.len() as int) =~= buffer@);
        }
    }
    proof {
        if a.lit_level(x as int) < kk {
            assert(a.level_at(p) < kk);
            assert(seen@[a.slot(p)]);
        } else {
            assert(a.level_at(p) == kk);
            lemma_pending_has(*a, seen@, kk, idx@, p);
        }
    }
}


/// Resolves the working clause on trail entry `j` of level `k`: marks every
/// literal of its reason clause but the entry's own literal.
fn resolve(
    clauses: &Vec<Vec<i32>>,
    a: &Assignment,
    j: usize,
    k: u32,
    seen: &mut Vec<bool>,
    buffer: &mut Vec<i32>,
    counter: &mut usize,
)
    requires
        a.wf(),
        a.reasons_ok(clause_seqs(clauses@)),
        clauses_in_range(clause_seqs(clauses@), a.num_vars()),
        j < a.trail@.len(),
        a.level_at(j as int) == k,
        !a.decision_at(j as int),
        work_inv(*a, old(seen)@, old(buffer)@, k as int),
        *old(counter) == pending(*a, old(seen)@, k as int, j as int).len(),
    ensures
        work_inv(*a, final(seen)@, final(buffer)@, k as int),
        forall|u: int| 0 <= u < old(seen)@.len() && #[trigger] old(seen)@[u] ==> final(seen)@[u],
        old(buffer)@.len() <= final(buffer)@.len(),
        final(buffer)@.take(old(buffer)@.len() as int) == old(buffer)@,
        *final(counter) == pending(*a, final(seen)@, k as int, j as int).len(),
        ({
            let r = a.reasons@[a.slot(j as int)].unwrap();
            let rc = clause_seqs(clauses@)[r as int];
            &&& r < clauses@.len()
            &&& forall|e: int|
                0 <= e < rc.len() && rc[e] != a.trail@[j as int] ==> (final(buffer)@ + pending(
                    *a,
                    final(seen)@,
                    k as int,
                    j as int,
                )).contains(#[trigger] rc[e])
        }),
{
    let ghost cs = clause_seqs(clauses@);
    let ghost n = a.num_vars();
    let ghost kk = k as int;
    let ghost jj = j as int;
    let ghost seen0 = seen@;
    let ghost buffer0 = buffer@;
    let t = a.trail[j];
    proof {
        assert(a.reason_sound(cs, jj));
        assert(lit_in_range(a.trail@[jj], n));
    }
    let r = a.reasons[var_index(t)].unwrap();
    let rc = &clauses[r];
    assert(rc@ == cs[r as int]);
    let mut q: usize = 0;
    while q < rc.len()
        invariant
            a.wf(),
            a.num_vars() == n,
            kk == k as int,
            jj == j as int,
            cs == clause_seqs(clauses@),
            clauses_in_range(cs, n),
            0 <= jj < a.trail@.len(),
            t == a.trail@[jj],
            a.level_at(jj) == kk,
            r < cs.len(),
            rc@ == cs[r as int],
            a.reasons@[a.slot(jj)] == Some(r),
            seen0.len() == n,
            a.reason_sound(cs, jj),
            0 <= q <= rc@.len(),
            work_inv(*a, seen@, buffer@, kk),
            forall|u: int| 0 <= u < seen0.len() && #[trigger] seen0[u] ==> seen@[u],
            buffer0.len() <= buffer@.len(),
            buffer@.take(buffer0.len() as int) == buffer0,
            *counter == pending(*a, seen@, kk, jj).len(),
            forall|e: int|
                0 <= e < q && rc@[e] != t ==> #[trigger] seen@[var_of(rc@[e] as int) - 1],
        decreases rc@.len() - q,
    {
        let x = rc[q];
        if x != t {
            proof {
                assert(a.false_before(cs[r as int][q as int] as int, jj));
                assert(lit_in_range(cs[r as int][q as int], n));
                let p = choose|p: int| 0 <= p < jj && #[trigger] a.trail@[p] as int == -(x as int);
                assert(a.slot(p) == var_of(x as int) - 1);
                a.lemma_levels_monotone(p, jj);
            }
            let ghost seen1 = seen@;
            let ghost buffer1 = buffer@;
            mark(a, x, k, Ghost(jj), seen, buffer, counter);
            proof {
                assert(buffer@.take(buffer0.len() as int) =~= buffer0) by {
                    assert forall|e: int| 0 <= e < buffer0.len() implies buffer@[e] == buffer0[e] by {
                        assert(buffer@.take(buffer1.len() as int)[e] == buffer1[e]);
                        assert(buffer1.take(buffer0.len() as int)[e] == buffer0[e]);
                    }
                }
            }
        }
        q = q + 1;
    }
    proof {
        let w = buffer@ + pending(*a, seen@, kk, jj);
        assert forall|e: int| 0 <= e < rc@.len() && rc@[e] != a.trail@[jj] implies w.contains(
            #[trigger] rc@[e],
        ) by {
            let x = rc@[e];
            assert(a.false_before(cs[r as int][e] as int, jj));
            assert(lit_in_range(cs[r as int][e], n));
            let p = choose|p: int| 0 <= p < jj && #[trigger] a.trail@[p] as int == -(x as int);
            assert(lit_in_range(a.trail@[p], n));
            assert(a.slot(p) == var_of(x as int) - 1);
            assert(neg(a.trail@[p]) == x);
            a.lemma_levels_monotone(p, jj);
            assert(seen@[a.slot(p)]);
            if a.level_at(p) < kk {
                assert(buffer@.contains(x));
                let e3 = choose|e3: int| 0 <= e3 < buffer@.len() && buffer@[e3] == x;
                assert(w[e3] == x);
            } else {
                lemma_pending_has(*a, seen@, kk, jj, p);
                let pd = pending(*a, seen@, kk, jj);
                let e3 = choose|e3: int| 0 <= e3 < pd.len() && pd[e3] == x;
                assert(w[buffer@.len() + e3] == x);
            }
        }
        assert(cs[r as int] == rc@);
    }
}

/// Learns a clause from the conflict clause `conflict`, whose literals are all
/// false and whose highest level is `k > 0`.
///
/// Returns the learned clause, the backjump level, and the asserting literal.
/// The learned clause is sorted and free of duplicates, and entailed by
/// `clauses`; all its literals are false; the
/// asserting literal is the only one on level `k`; the backjump level is the
/// highest level of the others (0 when there are none).
#[verifier::spinoff_prover]
#[verifier::rlimit(50)]
pub fn analyze(clauses: &Vec<Vec<i32>>, a: &Assignment, conflict: usize, k: u32) -> (res: (
    Vec<i32>,
    u32,
    i32,
))
    requires
        a.wf(),
        a.reasons_ok(clause_seqs(clauses@)),
        clauses_in_range(clause_seqs(clauses@), a.num_vars()),
        conflict < clauses@.len(),
        forall|i: int|
            0 <= i < clauses@[conflict as int]@.len() ==> a.lit_false(
                #[trigger] clauses@[conflict as int]@[i] as int,
            ) && a.lit_level(clauses@[conflict as int]@[i] as int) <= k,
        exists|i: int|
            0 <= i < clauses@[conflict as int]@.len() && a.lit_level(
                #[trigger] clauses@[conflict as int]@[i] as int,
            ) == k,
        k > 0,
    ensures
        ({
            let (learned, bjl, uip) = res;
            &&& strictly_sorted(learned@)
            &&& entails(clause_seqs(clauses@), learned@)
            &&& learned@.contains(uip)
            &&& lit_in_range(uip, a.num_vars())
            &&& a.lit_false(uip as int)
            &&& a.lit_level(uip as int) == k
            &&& bjl < k
            &&& forall|i: int|
                0 <= i < learned@.len() ==> lit_in_range(#[trigger] learned@[i], a.num_vars())
                    && a.lit_false(learned@[i] as int) && (learned@[i] == uip || a.lit_level(
                    learned@[i] as int,
                ) <= bjl)
            &&& bjl == 0 || exists|i: int|
                0 <= i < learned@.len() && learned@[i] != uip && a.lit_level(
                    #[trigger] learned@[i] as int,
                ) == bjl
        }),
{
    let ghost cs = clause_seqs(clauses@);
    let ghost n = a.num_vars();
    let ghost kk = k as int;
    let ghost len = a.trail@.len() as int;
    let nv = a.values.len();
    let mut seen: Vec<bool> = Vec::new();
    while seen.len() < nv
        invariant
            seen@.len() <= nv,
            forall|v: int| 0 <= v < seen@.len() ==> !#[trigger] seen@[v],
        decreases nv - seen@.len(),
    {
        seen.push(false);
    }
    let mut buffer: Vec<i32> = Vec::new();
    let mut counter: usize = 0;
    proof {
        assert forall|j: int| 0 <= j < len implies !seen@[#[trigger] a.slot(j)] by {
            assert(lit_in_range(a.trail@[j], n));
        }
        lemma_pending_none_seen(*a, seen@, kk, len);
    }
    let c = &clauses[conflict];
    assert(c@ == cs[conflict as int]);
    let mut i: usize = 0;
    while i < c.len()
        invariant
            a.wf(),
            a.num_vars() == n,
            kk == k as int,
            len == a.trail@.len(),
            cs == clause_seqs(clauses@),
            c@ == cs[conflict as int],
            clauses_in_range(cs, n),
            conflict < cs.len(),
            forall|q: int|
                0 <= q < c@.len() ==> a.lit_false(#[trigger] c@[q] as int) && a.lit_level(
                    c@[q] as int,
                ) <= kk,
            0 <= i <= c@.len(),
            work_inv(*a, seen@, buffer@, kk),
            counter == pending(*a, seen@, kk, len).len(),
            forall|q: int|
                0 <= q < i ==> (buffer@ + pending(*a, seen@, kk, len)).contains(#[trigger] c@[q]),
        decreases c@.len() - i,
    {
        let x = c[i];
        proof {
            assert(lit_in_range(cs[conflict as int][i as int], n));
            a.lemma_false_lit_on_trail(x as int);
        }
        let ghost seen1 = seen@;
        let ghost buffer1 = buffer@;
        mark(a, x, k, Ghost(len), &mut seen, &mut buffer, &mut counter);
        proof {
            let w = buffer@ + pending(*a, seen@, kk, len);
            let w1 = buffer1 + pending(*a, seen1, kk, len);
            assert forall|u: int| 0 <= u < len implies 0 <= #[trigger] a.slot(u) < seen1.len() by {
                assert(lit_in_range(a.trail@[u], n));
            }
            lemma_pending_grows(*a, seen1, seen@, kk, len);
            assert forall|q: int| 0 <= q <= i implies w.contains(#[trigger] c@[q]) by {
                let y = c@[q];
                if q < i {
                    assert(w1.contains(y));
                    let e = choose|e: int| 0 <= e < w1.len() && w1[e] == y;
                    if e < buffer1.len() {
                        assert(buffer@.take(buffer1.len() as int)[e] == buffer1[e]);
                        assert(w[e] == y);
                    } else {
                        let pd1 = pending(*a, seen1, kk, len);
                        assert(pd1[e - buffer1.len()] == y);
                        assert(pd1.contains(y));
                        let pd = pending(*a, seen@, kk, len);
                        assert(pd.contains(y));
                        let e3 = choose|e3: int| 0 <= e3 < pd.len() && pd[e3] == y;
                        assert(w[buffer@.len() + e3] == y);
                    }
                } else {
                    if a.lit_level(x as int) < kk {
                        let e3 = choose|e3: int| 0 <= e3 < buffer@.len() && buffer@[e3] == y;
                        assert(w[e3] == y);
                    } else {
                        let pd = pending(*a, seen@, kk, len);
                        let e3 = choose|e3: int| 0 <= e3 < pd.len() && pd[e3] == y;
                        assert(w[buffer@.len() + e3] == y);
                    }
                }
            }
        }
        i = i + 1;
    }
    proof {
        let w = buffer@ + pending(*a, seen@, kk, len);
        lemma_member_entailed(cs, conflict as int);
        lemma_entails_superset(cs, c@, w);
        // a conflict literal lies on level k, so the pending part is not empty
        let q = choose|q: int| 0 <= q < c@.len() && a.lit_level(#[trigger] c@[q] as int) == kk;
        assert(w.contains(c@[q]));
        if counter == 0 {
            let e = choose|e: int| 0 <= e < w.len() && w[e] == c@[q];
            assert(e < buffer@.len());
        }
    }
    let mut idx: usize = a.trail.len();
    let mut uip: i32;
    loop
        invariant_except_break
            counter == pending(*a, seen@, kk, idx as int).len(),
            counter >= 1,
            entails(cs, buffer@ + pending(*a, seen@, kk, idx as int)),
        invariant
            a.wf(),
            a.reasons_ok(cs),
            a.num_vars() == n,
            kk == k as int,
            len == a.trail@.len(),
            clauses_in_range(cs, n),
            cs == clause_seqs(clauses@),
            0 <= idx <= len,
            work_inv(*a, seen@, buffer@, kk),
        ensures
            0 <= idx < len,
            uip == a.trail@[idx as int],
            a.level_at(idx as int) == kk,
            entails(cs, buffer@.push(neg(uip))),
        decreases idx,
    {
        proof {
            if idx == 0 {
                assert(pending(*a, seen@, kk, 0).len() == 0);
            }
        }
        idx = idx - 1;
        let t = a.trail[idx];
        let ghost j = idx as int;
        proof {
            assert(lit_in_range(a.trail@[j], n));
        }
        let v = var_index(t);
        assert(a.slot(j) == v as int);
        if seen[v] && a.levels[v].unwrap() == k {
            let ghost seen0 = seen@;
            let ghost buffer0 = buffer@;
            let ghost w0 = buffer0 + pending(*a, seen0, kk, j + 1);
            assert(pending(*a, seen0, kk, j + 1) =~= pending(*a, seen0, kk, j) + seq![neg(t)]);
            if counter == 1 {
                uip = t;
                proof {
                    assert(pending(*a, seen0, kk, j) =~= Seq::<i32>::empty());
                    assert(w0 =~= buffer@.push(neg(uip)));
                }
                break;
            }
            proof {
                // not a decision: an earlier entry of level k is still pending
                if a.decision_at(j) {
                    assert forall|i: int| 0 <= i < j implies a.level_at(i) != kk by {
                        a.lemma_decision_opens_level(i, j);
                    }
                    lemma_pending_len(*a, seen0, kk, j);
                }
            }
            counter = counter - 1;
            resolve(clauses, a, idx, k, &mut seen, &mut buffer, &mut counter);
            proof {
                let r = a.reasons@[a.slot(j)].unwrap();
                let w1 = buffer@ + pending(*a, seen@, kk, j);
                lemma_member_entailed(cs, r as int);
                assert forall|u: int| 0 <= u < j implies 0 <= #[trigger] a.slot(u) < seen0.len() by {
                    assert(lit_in_range(a.trail@[u], n));
                }
                lemma_pending_grows(*a, seen0, seen@, kk, j);
                assert forall|e: int|
                    0 <= e < w0.len() && w0[e] as int != -(t as int) implies #[trigger] w1.contains(
                    w0[e],
                ) by {
                    if e < buffer0.len() {
                        assert(buffer@.take(buffer0.len() as int)[e] == buffer0[e]);
                        assert(w1[e] == w0[e]);
                    } else {
                        let pd0 = pending(*a, seen0, kk, j);
                        let e2 = e - buffer0.len();
                        assert(e2 < pd0.len());
                        assert(pd0[e2] == w0[e]);
                        assert(pd0.contains(w0[e]));
                        let pd1 = pending(*a, seen@, kk, j);
                        assert(pd1.contains(w0[e]));
                        let e3 = choose|e3: int| 0 <= e3 < pd1.len() && pd1[e3] == w0[e];
                        assert(w1[buffer@.len() + e3] == w0[e]);
                    }
                }
                lemma_resolution(cs, w0, cs[r as int], w1, t);
                let pd0 = pending(*a, seen0, kk, j);
                assert(pd0.contains(pd0[0]));
                assert(pending(*a, seen@, kk, j).contains(pd0[0]));
            }
        } else {
            proof {
                assert(pending(*a, seen@, kk, j + 1) =~= pending(*a, seen@, kk, j));
            }
        }
    }
    let asserting = -uip;
    // the backjump level: the highest level among the other literals
    let mut bjl: u32 = 0;
    let mut e: usize = 0;
    while e < buffer.len()
        invariant
            a.wf(),
            a.num_vars() == n,
            kk == k as int,
            0 <= e <= buffer@.len(),
            work_inv(*a, seen@, buffer@, kk),
            bjl < k,
            forall|q: int| 0 <= q < e ==> a.lit_level(#[trigger] buffer@[q] as int) <= bjl,
            bjl == 0 || exists|q: int| 0 <= q < e && a.lit_level(#[trigger] buffer@[q] as int) == bjl,
        decreases buffer@.len() - e,
    {
        let l = a.levels[var_index(buffer[e])].unwrap();
        if l > bjl {
            bjl = l;
        }
        e = e + 1;
    }
    let ghost body = buffer@;
    buffer.push(asserting);
    proof {
        assert(lit_in_range(a.trail@[idx as int], n));
        assert(asserting == neg(uip));
        assert(a.slot(idx as int) == var_of(asserting as int) - 1);
        assert(buffer@[buffer@.len() - 1] == asserting);
        assert forall|q: int| 0 <= q < buffer@.len() implies lit_in_range(#[trigger] buffer@[q], n)
            && a.lit_false(buffer@[q] as int) && (buffer@[q] == asserting || a.lit_level(
            buffer@[q] as int,
        ) <= bjl) by {
            if q < body.len() {
                assert(buffer@[q] == body[q]);
            }
        }
        if bjl != 0 {
            let q = choose|q: int| 0 <= q < body.len() && a.lit_level(#[trigger] body[q] as int) == bjl;
            assert(buffer@[q] == body[q]);
            assert(buffer@[q] != asserting);
        }
        assert(buffer@ == body.push(neg(uip)));
        assert(entails(cs, buffer@));
        assert(buffer@.contains(asserting));
        assert(lit_in_range(asserting, n));
        assert(a.lit_false(asserting as int));
        assert(a.lit_level(asserting as int) == kk);
        assert(bjl < k);
        assert(forall|i: int|
                0 <= i < buffer@.len() ==> lit_in_range(#[trigger] buffer@[i], a.num_vars())
                    && a.lit_false(buffer@[i] as int) && (buffer@[i] == asserting || a.lit_level(
                    buffer@[i] as int,
                ) <= bjl));
        assert(bjl == 0 || exists|i: int|
                0 <= i < buffer@.len() && buffer@[i] != asserting && a.lit_level(
                    #[trigger] buffer@[i] as int,
                ) == bjl);
    }
    // canonical form: sorted, without duplicates
    proof {
        assert forall|q: int| 0 <= q < buffer@.len() implies #[trigger] buffer@[q] != i32::MIN
            && buffer@[q] != 0 by {
            assert(lit_in_range(buffer@[q], n));
        }
        // all literals are false, so none is the negation of another
        if is_tautology(buffer@) {
            let (p, q) = choose|p: int, q: int|
                0 <= p < buffer@.len() && 0 <= q < buffer@.len() && #[trigger] buffer@[p] as int
                    == -(#[trigger] buffer@[q] as int);
            assert(lit_in_range(buffer@[p], n));
            assert(lit_in_range(buffer@[q], n));
            assert(a.lit_false(buffer@[p] as int) && a.lit_false(buffer@[q] as int));
        }
    }
    let learned = canonical_clause(&buffer).unwrap();
    proof {
        let cs = clause_seqs(clauses@);
        assert forall|i: int| 0 <= i < buffer@.len() implies #[trigger] learned@.contains(buffer@[i]) by {
            assert(buffer@.contains(buffer@[i]));
        }
        lemma_entails_superset(cs, buffer@, learned@);
        assert(buffer@.contains(asserting));
        assert(learned@.contains(asserting));
        assert forall|i: int| 0 <= i < learned@.len() implies lit_in_range(#[trigger] learned@[i], n)
            && a.lit_false(learned@[i] as int) && (learned@[i] == asserting || a.lit_level(
            learned@[i] as int,
        ) <= bjl) by {
            assert(learned@.contains(learned@[i]));
            assert(buffer@.contains(learned@[i]));
            let e = choose|e: int| 0 <= e < buffer@.len() && buffer@[e] == learned@[i];
        }
        if bjl != 0 {
            let q = choose|q: int|
                0 <= q < buffer@.len() && buffer@[q] != asserting && a.lit_level(
                    #[trigger] buffer@[q] as int,
                ) == bjl;
            assert(buffer@.contains(buffer@[q]));
            assert(learned@.contains(buffer@[q]));
            let e = choose|e: int| 0 <= e < learned@.len() && learned@[e] == buffer@[q];
            assert(a.lit_level(learned@[e] as int) == bjl);
        }
    }
    (learned, bjl, asserting)
}

} // verus!
