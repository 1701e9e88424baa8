use vstd::prelude::*;

verus! {

/// The variable of a literal: its absolute value.
pub open spec fn var_of(l: int) -> int {
    if l < 0 {
        -l
    } else {
        l
    }
}

/// A literal usable with `n` variables: nonzero, and its variable in `1..=n`.
pub open spec fn lit_in_range(l: i32, n: int) -> bool {
    1 <= var_of(l as int) <= n
}

/// Every literal of every clause is usable with `n` variables.
pub open spec fn clauses_in_range(cs: Seq<Seq<i32>>, n: int) -> bool {
    forall|c: int, i: int|
        0 <= c < cs.len() && 0 <= i < cs[c].len() ==> lit_in_range(#[trigger] cs[c][i], n)
}

/// A literal holds under a total assignment `m` of variables to truth values.
pub open spec fn lit_holds(m: spec_fn(int) -> bool, l: int) -> bool {
    if l > 0 {
        m(l)
    } else {
        !m(-l)
    }
}

/// A clause (a disjunction) holds under `m` when one of its literals does.
pub open spec fn clause_holds(m: spec_fn(int) -> bool, c: Seq<i32>) -> bool {
    exists|i: int| 0 <= i < c.len() && #[trigger] lit_holds(m, c[i] as int)
}

/// A formula (a conjunction of clauses) holds under `m` when all its clauses do.
pub open spec fn formula_holds(m: spec_fn(int) -> bool, f: Seq<Seq<i32>>) -> bool {
    forall|i: int| 0 <= i < f.len() ==> #[trigger] clause_holds(m, f[i])
}

/// Some total assignment satisfies the formula.
pub open spec fn satisfiable(f: Seq<Seq<i32>>) -> bool {
    exists|m: spec_fn(int) -> bool| formula_holds(m, f)
}

/// The clause holds under every assignment that satisfies the formula.
pub open spec fn entails(f: Seq<Seq<i32>>, c: Seq<i32>) -> bool {
    forall|m: spec_fn(int) -> bool| formula_holds(m, f) ==> #[trigger] clause_holds(m, c)
}

/// The two formulas hold under exactly the same assignments.
pub open spec fn equivalent(f: Seq<Seq<i32>>, g: Seq<Seq<i32>>) -> bool {
    forall|m: spec_fn(int) -> bool| #[trigger] formula_holds(m, f) == formula_holds(m, g)
}

/// A clause holds as soon as every literal of another clause is among its literals.
pub proof fn lemma_clause_holds_superset(m: spec_fn(int) -> bool, c: Seq<i32>, d: Seq<i32>)
    requires
        clause_holds(m, c),
        forall|i: int| 0 <= i < c.len() ==> #[trigger] d.contains(c[i]),
    ensures
        clause_holds(m, d),
{
    let i = choose|i: int| 0 <= i < c.len() && #[trigger] lit_holds(m, c[i] as int);
    assert(d.contains(c[i]));
    let j = choose|j: int| 0 <= j < d.len() && d[j] == c[i];
    assert(lit_holds(m, d[j] as int));
}

/// The negation of a literal.
pub open spec fn neg(l: i32) -> i32 {
    (-(l as int)) as i32
}

/// The clauses of a clause list, as sequences of literals.
pub open spec fn clause_seqs(v: Seq<Vec<i32>>) -> Seq<Seq<i32>> {
    v.map_values(|c: Vec<i32>| c@)
}

/// A clause of a formula is entailed by it.
pub proof fn lemma_member_entailed(f: Seq<Seq<i32>>, i: int)
    requires
        0 <= i < f.len(),
    ensures
        entails(f, f[i]),
{
}

/// An entailed clause stays entailed when literals are added to it.
pub proof fn lemma_entails_superset(f: Seq<Seq<i32>>, c: Seq<i32>, d: Seq<i32>)
    requires
        entails(f, c),
        forall|i: int| 0 <= i < c.len() ==> #[trigger] d.contains(c[i]),
    ensures
        entails(f, d),
{
    assert forall|m: spec_fn(int) -> bool| formula_holds(m, f) implies #[trigger] clause_holds(m, d) by {
        lemma_clause_holds_superset(m, c, d);
    }
}

/// Resolution: from `w`, which holds the negation of `t`, and `r`, which holds
/// `t`, every clause that covers the other literals of both is entailed.
pub proof fn lemma_resolution(f: Seq<Seq<i32>>, w: Seq<i32>, r: Seq<i32>, d: Seq<i32>, t: i32)
    requires
        entails(f, w),
        entails(f, r),
        t != 0,
        forall|i: int| 0 <= i < w.len() && w[i] as int != -(t as int) ==> #[trigger] d.contains(w[i]),
        forall|i: int| 0 <= i < r.len() && r[i] != t ==> #[trigger] d.contains(r[i]),
    ensures
        entails(f, d),
{
    assert forall|m: spec_fn(int) -> bool| formula_holds(m, f) implies #[trigger] clause_holds(m, d) by {
        assert(clause_holds(m, w));
        assert(clause_holds(m, r));
        let i = choose|i: int| 0 <= i < w.len() && #[trigger] lit_holds(m, w[i] as int);
        let q = choose|q: int| 0 <= q < r.len() && #[trigger] lit_holds(m, r[q] as int);
        if w[i] as int != -(t as int) {
            assert(d.contains(w[i]));
            let e = choose|e: int| 0 <= e < d.len() && d[e] == w[i];
            assert(lit_holds(m, d[e] as int));
        } else {
            assert(r[q] != t);
            assert(d.contains(r[q]));
            let e = choose|e: int| 0 <= e < d.len() && d[e] == r[q];
            assert(lit_holds(m, d[e] as int));
        }
    }
}

/// Exec: the zero-based index of a literal's variable.
pub fn var_index(l: i32) -> (r: usize)
    requires
        l != 0,
        l != i32::MIN,
    ensures
        r as int == var_of(l as int) - 1,
{
    if l < 0 {
        (-l - 1) as usize
    } else {
        (l - 1) as usize
    }
}

} // verus!
