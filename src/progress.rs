//! A measure over the levels of the trail that every step of the search raises
//! and that stays bounded: the reason the search terminates.
//!
//! An entry at level `l` among `n` variables weighs `(n + 1)^(n - l)`, so one
//! entry at a level outweighs any number of entries (at most `n`) above it.
use vstd::prelude::*;

verus! {

pub open spec fn pw(b: nat, e: nat) -> nat
    decreases e,
{
    if e == 0 {
        1
    } else {
        b * pw(b, (e - 1) as nat)
    }
}

pub open spec fn weight(n: nat, l: int) -> nat {
    pw(n + 1, (n - l) as nat)
}

/// The summed weight of a trail's levels.
pub open spec fn progress(levels: Seq<int>, n: nat) -> nat
    decreases levels.len(),
{
    if levels.len() == 0 {
        0
    } else {
        progress(levels.drop_last(), n) + weight(n, levels.last())
    }
}

pub open spec fn progress_bound(n: nat) -> nat {
    n * pw(n + 1, n)
}

pub proof fn lemma_pw_monotone(b: nat, e1: nat, e2: nat)
    requires
        b >= 1,
        e1 <= e2,
    ensures
        1 <= pw(b, e1) <= pw(b, e2),
    decreases e2,
{
    if e2 > 0 {
        if e1 < e2 {
            lemma_pw_monotone(b, e1, (e2 - 1) as nat);
        } else {
            lemma_pw_monotone(b, (e1 - 1) as nat, (e2 - 1) as nat);
        }
        let p = pw(b, (e2 - 1) as nat);
        assert(b * p >= p) by (nonlinear_arith)
            requires
                b >= 1,
                p >= 1,
        ;
    }
}

pub proof fn lemma_progress_push(s: Seq<int>, l: int, n: nat)
    ensures
        progress(s.push(l), n) == progress(s, n) + weight(n, l),
{
    assert(s.push(l).drop_last() =~= s);
}

pub proof fn lemma_progress_append(a: Seq<int>, b: Seq<int>, n: nat)
    ensures
        progress(a + b, n) == progress(a, n) + progress(b, n),
    decreases b.len(),
{
    if b.len() > 0 {
        assert((a + b).drop_last() =~= a + b.drop_last());
        lemma_progress_append(a, b.drop_last(), n);
    } else {
        assert(a + b =~= a);
    }
}

/// A sequence whose entries each weigh at most `w` sums to at most `len * w`.
pub proof fn lemma_progress_at_most(s: Seq<int>, n: nat, w: nat)
    requires
        forall|i: int| 0 <= i < s.len() ==> weight(n, #[trigger] s[i]) <= w,
    ensures
        progress(s, n) <= s.len() * w,
    decreases s.len(),
{
    if s.len() > 0 {
        lemma_progress_at_most(s.drop_last(), n, w);
        assert(weight(n, s[s.len() - 1]) <= w);
        assert((s.len() - 1) * w + w == s.len() * w) by (nonlinear_arith);
    }
}

/// At most `n` entries with levels in `0..=n` stay under the bound.
pub proof fn lemma_progress_bounded(s: Seq<int>, n: nat)
    requires
        s.len() <= n,
        forall|i: int| 0 <= i < s.len() ==> 0 <= #[trigger] s[i] <= n,
    ensures
        progress(s, n) <= progress_bound(n),
{
    assert forall|i: int| 0 <= i < s.len() implies weight(n, #[trigger] s[i]) <= pw(n + 1, n) by {
        lemma_pw_monotone(n + 1, (n - s[i]) as nat, n);
    }
    lemma_progress_at_most(s, n, pw(n + 1, n));
    let w = pw(n + 1, n);
    assert(s.len() * w <= n * w) by (nonlinear_arith)
        requires
            s.len() <= n,
    ;
}

/// Dropping every entry above level `b` and pushing one entry at level `b`
/// raises the measure.
pub proof fn lemma_progress_backjump(s: Seq<int>, m: int, b: int, n: nat)
    requires
        0 <= m <= s.len() <= n,
        0 <= b < n,
        forall|i: int| 0 <= i < s.len() ==> 0 <= #[trigger] s[i] <= n,
        forall|i: int| m <= i < s.len() ==> b < #[trigger] s[i],
    ensures
        progress(s.take(m).push(b), n) > progress(s, n),
{
    let t = s.take(m);
    let u = s.skip(m);
    assert(s =~= t + u);
    lemma_progress_append(t, u, n);
    lemma_progress_push(t, b, n);
    let e = (n - b - 1) as nat;
    let w = pw(n + 1, e);
    assert forall|i: int| 0 <= i < u.len() implies weight(n, #[trigger] u[i]) <= w by {
        assert(u[i] == s[m + i]);
        lemma_pw_monotone(n + 1, (n - u[i]) as nat, e);
    }
    lemma_progress_at_most(u, n, w);
    assert(weight(n, b) == (n + 1) * w) by {
        assert((n - b) as nat == e + 1);
    }
    assert(u.len() * w <= n * w) by (nonlinear_arith)
        requires
            u.len() <= n,
    ;
    lemma_pw_monotone(n + 1, 0, e);
    assert(n * w < (n + 1) * w) by (nonlinear_arith)
        requires
            w >= 1,
    ;
}

} // verus!
