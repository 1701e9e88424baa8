//! Loading clauses: tautologies are dropped, literals sorted and deduplicated.
use vstd::prelude::*;
use crate::literal::{
    clause_holds, clause_seqs, clauses_in_range, equivalent, formula_holds,
    lemma_clause_holds_superset, lit_holds, lit_in_range, var_of,
};

verus! {

/// The clause holds a literal and its negation.
pub open spec fn is_tautology(c: Seq<i32>) -> bool {
    exists|i: int, j: int|
        0 <= i < c.len() && 0 <= j < c.len() && #[trigger] c[i] as int == -(#[trigger] c[j] as int)
}

pub open spec fn strictly_sorted(c: Seq<i32>) -> bool {
    forall|i: int, j: int| 0 <= i < j < c.len() ==> #[trigger] c[i] < #[trigger] c[j]
}

/// The two clauses hold the same literals.
pub open spec fn same_literals(c: Seq<i32>, d: Seq<i32>) -> bool {
    forall|x: i32| #[trigger] c.contains(x) <==> d.contains(x)
}

/// A tautology holds under every assignment.
pub proof fn lemma_tautology_holds(c: Seq<i32>, m: spec_fn(int) -> bool)
    requires
        is_tautology(c),
        forall|i: int| 0 <= i < c.len() ==> #[trigger] c[i] != 0,
    ensures
        clause_holds(m, c),
{
    let (i, j) = choose|i: int, j: int|
        0 <= i < c.len() && 0 <= j < c.len() && #[trigger] c[i] as int == -(#[trigger] c[j] as int);
    assert(c[i] != 0);
    if !lit_holds(m, c[i] as int) {
        assert(lit_holds(m, c[j] as int));
    }
}

/// Clauses with the same literals hold under the same assignments.
pub proof fn lemma_same_literals_hold(c: Seq<i32>, d: Seq<i32>, m: spec_fn(int) -> bool)
    requires
        same_literals(c, d),
    ensures
        clause_holds(m, c) == clause_holds(m, d),
{
    assert forall|i: int| 0 <= i < c.len() implies #[trigger] d.contains(c[i]) by {
        assert(c.contains(c[i]));
    }
    assert forall|i: int| 0 <= i < d.len() implies #[trigger] c.contains(d[i]) by {
        assert(d.contains(d[i]));
    }
    if clause_holds(m, c) {
        lemma_clause_holds_superset(m, c, d);
    }
    if clause_holds(m, d) {
        lemma_clause_holds_superset(m, d, c);
    }
}

/// The literals of `c`, sorted and without duplicates; `None` when `c` is a tautology.
pub fn canonical_clause(c: &Vec<i32>) -> (r: Option<Vec<i32>>)
    requires
        forall|i: int| 0 <= i < c@.len() ==> #[trigger] c@[i] != i32::MIN && c@[i] != 0,
    ensures
        r is None <==> is_tautology(c@),
        r matches Some(d) ==> strictly_sorted(d@) && same_literals(c@, d@),
{
    let mut out: Vec<i32> = Vec::new();
    let mut i: usize = 0;
    while i < c.len()
        invariant
            0 <= i <= c@.len(),
            forall|q: int| 0 <= q < c@.len() ==> #[trigger] c@[q] != i32::MIN && c@[q] != 0,
            strictly_sorted(out@),
            forall|x: i32| #[trigger] out@.contains(x) <==> c@.take(i as int).contains(x),
            !is_tautology(c@.take(i as int)),
        decreases c@.len() - i,
    {
        let x = c[i];
        let ghost pre = c@.take(i as int);
        assert(c@.take(i as int + 1) =~= pre.push(x));
        // a tautology as soon as the negation was seen
        let mut p: usize = 0;
        while p < out.len() && out[p] != -x
            invariant
                0 <= p <= out@.len(),
                x != i32::MIN,
                forall|q: int| 0 <= q < p ==> #[trigger] out@[q] != -x,
            decreases out@.len() - p,
        {
            p = p + 1;
        }
        if p < out.len() {
            proof {
                assert(out@.contains(out@[p as int]));
                let e = choose|e: int| 0 <= e < pre.len() && pre[e] == out@[p as int];
                assert(c@[e] as int == -(c@[i as int] as int));
            }
            return None;
        }
        // the first position whose literal is not below x
        let mut pos: usize = 0;
        while pos < out.len() && out[pos] < x
            invariant
                0 <= pos <= out@.len(),
                forall|q: int| 0 <= q < pos ==> #[trigger] out@[q] < x,
            decreases out@.len() - pos,
        {
            pos = pos + 1;
        }
        proof {
            assert(!is_tautology(c@.take(i as int + 1))) by {
                let t = c@.take(i as int + 1);
                if is_tautology(t) {
                    let (a, b) = choose|a: int, b: int|
                        0 <= a < t.len() && 0 <= b < t.len() && #[trigger] t[a] as int == -(
                        #[trigger] t[b] as int);
                    if a < pre.len() && b < pre.len() {
                        assert(t[a] == pre[a] && t[b] == pre[b]);
                        assert(pre[a] as int == -(pre[b] as int));
                    } else if a < pre.len() {
                        assert(t[a] == pre[a]);
                        assert(pre.contains(pre[a]));
                        assert(out@.contains(pre[a]));
                        let e = choose|e: int| 0 <= e < out@.len() && out@[e] == pre[a];
                        assert(out@[e] == -x);
                    } else if b < pre.len() {
                        assert(t[b] == pre[b]);
                        assert(pre.contains(pre[b]));
                        assert(out@.contains(pre[b]));
                        let e = choose|e: int| 0 <= e < out@.len() && out@[e] == pre[b];
                        assert(out@[e] == -x);
                    }
                }
            }
        }
        if pos < out.len() && out[pos] == x {
            proof {
                assert forall|y: i32| #[trigger] out@.contains(y) <==> c@.take(i as int + 1).contains(y) by {
                    if y == x {
                        assert(out@.contains(out@[pos as int]));
                        let e = choose|e: int| 0 <= e < pre.len() && pre[e] == x;
                        assert(c@.take(i as int + 1)[e] == x);
                    }
                    if c@.take(i as int + 1).contains(y) && y != x {
                        let t = c@.take(i as int + 1);
                        let e = choose|e: int| 0 <= e < t.len() && t[e] == y;
                        assert(e < pre.len());
                        assert(pre[e] == t[e]);
                        assert(pre.contains(y));
                    }
                    if out@.contains(y) {
                        assert(pre.contains(y));
                        let e = choose|e: int| 0 <= e < pre.len() && pre[e] == y;
                        assert(c@.take(i as int + 1)[e] == y);
                    }
                }
            }
        } else {
            let ghost before = out@;
            out.insert(pos, x);
            proof {
                assert forall|a: int, b: int| 0 <= a < b < out@.len() implies #[trigger] out@[a]
                    < #[trigger] out@[b] by {
                    if b < pos {
                    } else if a > pos {
                        assert(out@[a] == before[a - 1]);
                        assert(out@[b] == before[b - 1]);
                    } else if a == pos {
                        assert(out@[b] == before[b - 1]);
                        assert(before[pos as int] >= x);
                        if b - 1 > pos {
                            assert(before[pos as int] < before[b - 1]);
                        }
                    } else {
                        if b == pos {
                        } else {
                            assert(out@[b] == before[b - 1]);
                            assert(before[a] < x);
                            assert(before[pos as int] >= x);
                            if b - 1 > pos {
                                assert(before[pos as int] < before[b - 1]);
                            }
                        }
                    }
                }
                assert forall|y: i32| #[trigger] out@.contains(y) <==> c@.take(i as int + 1).contains(y) by {
                    let t = c@.take(i as int + 1);
                    if y == x {
                        assert(out@[pos as int] == x);
                        assert(t[i as int] == x);
                    } else {
                        if out@.contains(y) {
                            let e = choose|e: int| 0 <= e < out@.len() && out@[e] == y;
                            if e < pos {
                                assert(before[e] == y);
                            } else {
                                assert(before[e - 1] == y);
                            }
                            assert(before.contains(y));
                            assert(pre.contains(y));
                            let f = choose|f: int| 0 <= f < pre.len() && pre[f] == y;
                            assert(t[f] == y);
                        }
                        if t.contains(y) {
                            let f = choose|f: int| 0 <= f < t.len() && t[f] == y;
                            assert(f < pre.len());
                            assert(pre[f] == y);
                            assert(pre.contains(y));
                            assert(before.contains(y));
                            let e = choose|e: int| 0 <= e < before.len() && before[e] == y;
                            if e < pos {
                                assert(out@[e] == y);
                            } else {
                                assert(out@[e + 1] == y);
                            }
                        }
                    }
                }
            }
        }
        i = i + 1;
    }
    proof {
        assert(c@.take(c@.len() as int) =~= c@);
    }
    Some(out)
}

/// Every literal is nonzero and has a representable negation.
pub open spec fn literals_supported(f: Seq<Seq<i32>>) -> bool {
    forall|c: int, i: int|
        0 <= c < f.len() && 0 <= i < f[c].len() ==> #[trigger] f[c][i] != 0 && f[c][i] != i32::MIN
}

/// The indices of the clauses that are not tautologies, in order.
pub open spec fn non_tautologies(f: Seq<Seq<i32>>) -> Seq<int>
    decreases f.len(),
{
    if f.len() == 0 {
        Seq::empty()
    } else if is_tautology(f.last()) {
        non_tautologies(f.drop_last())
    } else {
        non_tautologies(f.drop_last()).push(f.len() - 1)
    }
}

/// The largest variable of the formula (0 when it has no literal).
pub open spec fn max_var(f: Seq<Seq<i32>>, n: int) -> bool {
    &&& forall|c: int, i: int|
        0 <= c < f.len() && 0 <= i < f[c].len() ==> var_of(#[trigger] f[c][i] as int) <= n
    &&& (n == 0 || exists|c: int, i: int|
        0 <= c < f.len() && 0 <= i < f[c].len() && var_of(#[trigger] f[c][i] as int) == n)
}

/// `g` is the loaded form of `f`: its clauses are those of `f` that are not
/// tautologies, in order, each sorted and without duplicates.
pub open spec fn loaded_form(f: Seq<Seq<i32>>, g: Seq<Seq<i32>>) -> bool {
    let keep = non_tautologies(f);
    &&& g.len() == keep.len()
    &&& forall|i: int|
        0 <= i < g.len() ==> strictly_sorted(#[trigger] g[i]) && same_literals(f[keep[i]], g[i])
}

proof fn lemma_non_tautologies(f: Seq<Seq<i32>>)
    ensures
        forall|i: int|
            0 <= i < non_tautologies(f).len() ==> 0 <= #[trigger] non_tautologies(f)[i] < f.len()
                && !is_tautology(f[non_tautologies(f)[i]]),
        forall|i: int, j: int|
            0 <= i < j < non_tautologies(f).len() ==> #[trigger] non_tautologies(f)[i]
                < #[trigger] non_tautologies(f)[j],
        forall|c: int|
            0 <= c < f.len() && !is_tautology(#[trigger] f[c]) ==> non_tautologies(f).contains(c),
    decreases f.len(),
{
    if f.len() > 0 {
        let g = f.drop_last();
        lemma_non_tautologies(g);
        assert forall|c: int| 0 <= c < f.len() && !is_tautology(#[trigger] f[c]) implies non_tautologies(
            f,
        ).contains(c) by {
            if c < g.len() {
                assert(g[c] == f[c]);
                assert(non_tautologies(g).contains(c));
                let e = choose|e: int| 0 <= e < non_tautologies(g).len() && non_tautologies(g)[e] == c;
                assert(non_tautologies(f)[e] == c);
            } else {
                assert(non_tautologies(f).last() == c);
            }
        }
        assert forall|i: int| 0 <= i < non_tautologies(f).len() implies 0 <= #[trigger] non_tautologies(
            f,
        )[i] < f.len() && !is_tautology(f[non_tautologies(f)[i]]) by {
            if i < non_tautologies(g).len() {
                assert(non_tautologies(f)[i] == non_tautologies(g)[i]);
                assert(g[non_tautologies(g)[i]] == f[non_tautologies(g)[i]]);
            }
        }
    }
}

/// The loaded form holds under exactly the assignments that satisfy the input.
pub proof fn lemma_loaded_equivalent(f: Seq<Seq<i32>>, g: Seq<Seq<i32>>)
    requires
        loaded_form(f, g),
        literals_supported(f),
    ensures
        equivalent(f, g),
{
    lemma_non_tautologies(f);
    let keep = non_tautologies(f);
    assert forall|m: spec_fn(int) -> bool| #[trigger] formula_holds(m, f) == formula_holds(m, g) by {
        if formula_holds(m, f) {
            assert forall|i: int| 0 <= i < g.len() implies #[trigger] clause_holds(m, g[i]) by {
                assert(clause_holds(m, f[keep[i]]));
                lemma_same_literals_hold(f[keep[i]], g[i], m);
            }
        }
        if formula_holds(m, g) {
            assert forall|c: int| 0 <= c < f.len() implies #[trigger] clause_holds(m, f[c]) by {
                if is_tautology(f[c]) {
                    assert forall|i: int| 0 <= i < f[c].len() implies #[trigger] f[c][i] != 0 by {
                        assert(f[c][i] != 0);
                    }
                    lemma_tautology_holds(f[c], m);
                } else {
                    let e = choose|e: int| 0 <= e < keep.len() && keep[e] == c;
                    assert(clause_holds(m, g[e]));
                    lemma_same_literals_hold(f[c], g[e], m);
                }
            }
        }
    }
}

/// Loads a formula: drops its tautologies and sorts and deduplicates the
/// literals of the other clauses. Also returns the number of variables, the
/// largest variable that occurs.
pub fn load_clauses(input: &Vec<Vec<i32>>) -> (r: (Vec<Vec<i32>>, usize))
    requires
        literals_supported(clause_seqs(input@)),
    ensures
        loaded_form(clause_seqs(input@), clause_seqs(r.0@)),
        equivalent(clause_seqs(input@), clause_seqs(r.0@)),
        max_var(clause_seqs(input@), r.1 as int),
        r.1 <= i32::MAX,
        clauses_in_range(clause_seqs(r.0@), r.1 as int),
{
    let ghost f = clause_seqs(input@);
    let mut largest: usize = 0;
    let mut c: usize = 0;
    while c < input.len()
        invariant
            f == clause_seqs(input@),
            literals_supported(f),
            0 <= c <= input@.len(),
            largest <= i32::MAX,
            forall|c2: int, i: int|
                0 <= c2 < c && 0 <= i < f[c2].len() ==> var_of(#[trigger] f[c2][i] as int)
                    <= largest,
            largest == 0 || exists|c2: int, i: int|
                0 <= c2 < c && 0 <= i < f[c2].len() && var_of(#[trigger] f[c2][i] as int)
                    == largest,
        decreases input@.len() - c,
    {
        let cl = &input[c];
        assert(cl@ == f[c as int]);
        let mut i: usize = 0;
        while i < cl.len()
            invariant
                f == clause_seqs(input@),
                literals_supported(f),
                0 <= c < input@.len(),
                cl@ == f[c as int],
                0 <= i <= cl@.len(),
                largest <= i32::MAX,
                forall|c2: int, q: int|
                    (0 <= c2 < c && 0 <= q < f[c2].len()) || (c2 == c && 0 <= q < i)
                        ==> var_of(#[trigger] f[c2][q] as int) <= largest,
                largest == 0 || exists|c2: int, q: int|
                    ((0 <= c2 < c && 0 <= q < f[c2].len()) || (c2 == c && 0 <= q < i)) && var_of(
                        #[trigger] f[c2][q] as int,
                    ) == largest,
            decreases cl@.len() - i,
        {
            let l = cl[i];
            assert(f[c as int][i as int] != 0 && f[c as int][i as int] != i32::MIN);
            let v: usize = if l < 0 {
                (-l) as usize
            } else {
                l as usize
            };
            if v > largest {
                largest = v;
                assert(var_of(f[c as int][i as int] as int) == largest);
            }
            i = i + 1;
        }
        c = c + 1;
    }
    let mut out: Vec<Vec<i32>> = Vec::new();
    let mut c: usize = 0;
    proof {
        lemma_non_tautologies(f);
    }
    while c < input.len()
        invariant
            f == clause_seqs(input@),
            literals_supported(f),
            0 <= c <= input@.len(),
            forall|c2: int, i: int|
                0 <= c2 < f.len() && 0 <= i < f[c2].len() ==> var_of(#[trigger] f[c2][i] as int)
                    <= largest,
            largest <= i32::MAX,
            loaded_form(f.take(c as int), clause_seqs(out@)),
            forall|j: int, i: int|
                0 <= j < out@.len() && 0 <= i < out@[j]@.len() ==> lit_in_range(
                    #[trigger] out@[j]@[i],
                    largest as int,
                ),
        decreases input@.len() - c,
    {
        let cl = &input[c];
        assert(cl@ == f[c as int]);
        let ghost t = f.take(c as int + 1);
        assert(t.drop_last() =~= f.take(c as int));
        assert(t.last() == cl@);
        assert forall|i: int| 0 <= i < cl@.len() implies #[trigger] cl@[i] != i32::MIN && cl@[i] != 0 by {
            assert(f[c as int][i] != 0);
        }
        let ghost before = out@;
        match canonical_clause(cl) {
            Some(d) => {
                let ghost dd = d@;
                out.push(d);
                proof {
                    let g = clause_seqs(out@);
                    assert(non_tautologies(t) == non_tautologies(f.take(c as int)).push(c as int));
                    assert forall|i: int| 0 <= i < g.len() implies strictly_sorted(#[trigger] g[i])
                        && same_literals(t[non_tautologies(t)[i]], g[i]) by {
                        if i < before.len() {
                            assert(g[i] == clause_seqs(before)[i]);
                            let k = non_tautologies(f.take(c as int))[i];
                            lemma_non_tautologies(f.take(c as int));
                            assert(t[k] == f.take(c as int)[k]);
                        }
                    }
                    assert forall|j: int, i: int|
                        0 <= j < out@.len() && 0 <= i < out@[j]@.len() implies lit_in_range(
                        #[trigger] out@[j]@[i],
                        largest as int,
                    ) by {
                        if j < before.len() {
                            assert(out@[j] == before[j]);
                        } else {
                            let y = out@[j]@[i];
                            assert(out@[j]@ == dd);
                            assert(dd.contains(y));
                            assert(cl@.contains(y));
                            let e = choose|e: int| 0 <= e < cl@.len() && cl@[e] == y;
                            assert(f[c as int][e] == y);
                            assert(var_of(f[c as int][e] as int) <= largest);
                            assert(f[c as int][e] != 0);
                        }
                    }
                }
            },
            None => {
                proof {
                    assert(non_tautologies(t) == non_tautologies(f.take(c as int)));
                    let g = clause_seqs(out@);
                    assert forall|i: int| 0 <= i < g.len() implies strictly_sorted(#[trigger] g[i])
                        && same_literals(t[non_tautologies(t)[i]], g[i]) by {
                        let k = non_tautologies(f.take(c as int))[i];
                        lemma_non_tautologies(f.take(c as int));
                        assert(t[k] == f.take(c as int)[k]);
                    }
                }
            },
        }
        c = c + 1;
    }
    proof {
        assert(f.take(input@.len() as int) =~= f);
        let g = clause_seqs(out@);
        assert forall|j: int, i: int| 0 <= j < g.len() && 0 <= i < g[j].len() implies lit_in_range(
            #[trigger] g[j][i],
            largest as int,
        ) by {
            assert(g[j] == out@[j]@);
        }
        lemma_loaded_equivalent(f, g);
    }
    (out, largest)
}

/// Whether every literal is nonzero and has a representable negation (the
/// condition under which a solver accepts the clauses).
pub fn supported_literals(clauses: &Vec<Vec<i32>>) -> (r: bool)
    ensures
        r == literals_supported(clause_seqs(clauses@)),
{
    let ghost f = clause_seqs(clauses@);
    let mut c: usize = 0;
    while c < clauses.len()
        invariant
            f == clause_seqs(clauses@),
            0 <= c <= clauses@.len(),
            forall|c2: int, i: int|
                0 <= c2 < c && 0 <= i < f[c2].len() ==> #[trigger] f[c2][i] != 0 && f[c2][i]
                    != i32::MIN,
        decreases clauses@.len() - c,
    {
        let mut i: usize = 0;
        while i < clauses[c].len()
            invariant
                f == clause_seqs(clauses@),
                0 <= c < clauses@.len(),
                0 <= i <= clauses@[c as int]@.len(),
                forall|c2: int, q: int|
                    (0 <= c2 < c && 0 <= q < f[c2].len()) || (c2 == c && 0 <= q < i)
                        ==> #[trigger] f[c2][q] != 0 && f[c2][q] != i32::MIN,
            decreases clauses@[c as int]@.len() - i,
        {
            let l = clauses[c][i];
            assert(f[c as int][i as int] == l);
            if l == 0 || l == i32::MIN {
                return false;
            }
            i = i + 1;
        }
        c = c + 1;
    }
    true
}

} // verus!
