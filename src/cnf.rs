//! A CDCL solver with two watched literals per clause and VSIDS decisions with
//! phase saving.
//!
//! Activity scores are fixed-point integers: a bump adds the current
//! increment, a decay raises the increment by a twentieth (the inverse of a
//! 0.95 decay factor), and once a score or the increment passes 2^60 every
//! score and the increment are divided by 2^30.
use vstd::prelude::*;
use crate::assignment::Assignment;
use crate::clause::{literals_supported, load_clauses, loaded_form, max_var, strictly_sorted};
use crate::literal::{
    clause_holds, clause_seqs, entails, formula_holds, lit_in_range, satisfiable, var_index,
    var_of,
};
use crate::progress::{lemma_progress_push, lemma_pw_monotone, progress_bound};
use crate::search::{
    learn, lemma_prefix_refl, lemma_prefix_trans, lemma_search_progress_bounded, prefix_of, search_inv,
    search_progress,
};

verus! {

/// Above this a score or the increment triggers a rescale (2^60).
pub const ACTIVITY_LIMIT: u64 = 1152921504606846976;

/// The divisor of a rescale (2^30).
pub const RESCALE_DIVISOR: u64 = 1073741824;

/// The increment a solver starts with (2^20).
pub const INITIAL_INCREMENT: u64 = 1048576;

/// The slot of a literal in the watch index: `2 * (var - 1)` for a positive
/// literal, one more for a negative one.
pub open spec fn lit_code(l: int) -> int {
    if l > 0 {
        2 * (l - 1)
    } else {
        2 * (-l - 1) + 1
    }
}

/// Scores after a rescale.
pub open spec fn rescaled(s: Seq<u64>) -> Seq<u64> {
    s.map_values(|x: u64| (x / RESCALE_DIVISOR) as u64)
}

/// The increment after a rescale (never below 1).
pub open spec fn rescaled_increment(inc: u64) -> u64 {
    if inc / RESCALE_DIVISOR == 0 {
        1
    } else {
        (inc / RESCALE_DIVISOR) as u64
    }
}

/// Scores and increment after bumping slot `v` once.
pub open spec fn bumped(act: Seq<u64>, inc: u64, v: int) -> (Seq<u64>, u64) {
    let b = act.update(v, (act[v] + inc) as u64);
    if act[v] + inc > ACTIVITY_LIMIT {
        (rescaled(b), rescaled_increment(inc))
    } else {
        (b, inc)
    }
}

/// Scores and increment after bumping the variable of each literal of `c`
/// once, in order.
pub open spec fn bumped_all(act: Seq<u64>, inc: u64, c: Seq<i32>) -> (Seq<u64>, u64)
    decreases c.len(),
{
    if c.len() == 0 {
        (act, inc)
    } else {
        let (a, i) = bumped_all(act, inc, c.drop_last());
        bumped(a, i, var_of(c.last() as int) - 1)
    }
}

/// Scores and increment after a decay.
pub open spec fn decayed(act: Seq<u64>, inc: u64) -> (Seq<u64>, u64) {
    let raised = inc + inc / 19;
    if raised > ACTIVITY_LIMIT {
        (rescaled(act), rescaled_increment(raised as u64))
    } else {
        (act, raised as u64)
    }
}

pub fn lit_index(l: i32) -> (r: usize)
    requires
        l != 0,
        l != i32::MIN,
    ensures
        r as int == lit_code(l as int),
{
    if l > 0 {
        2 * ((l - 1) as usize)
    } else {
        2 * ((-l - 1) as usize) + 1
    }
}

pub struct Cnf {
    /// The clause database: the loaded problem, then the learned clauses.
    pub clauses: Vec<Vec<i32>>,
    pub assignment: Assignment,
    /// The two watched positions of each clause (position 0 twice for a unit clause).
    pub watched: Vec<(usize, usize)>,
    /// For each literal slot (see `lit_code`), the clauses that watch it.
    pub watchers: Vec<Vec<usize>>,
    /// The VSIDS score of each variable.
    pub activity: Vec<u64>,
    pub activity_increment: u64,
    /// How many stored clauses come from the problem.
    pub num_loaded: usize,
    /// The propagation queue: the trail entries from `head` on still have to
    /// be propagated.
    pub head: usize,
    /// The problem as it was given.
    pub problem: Ghost<Seq<Seq<i32>>>,
}

impl Cnf {
    /// The literal at watched position `k` (0 or 1) of clause `c`.
    pub open spec fn watch_lit(&self, c: int, k: int) -> i32 {
        if k == 0 {
            self.clauses@[c]@[self.watched@[c].0 as int]
        } else {
            self.clauses@[c]@[self.watched@[c].1 as int]
        }
    }

    /// Both watched literals of clause `c` are false.
    pub open spec fn watches_false(&self, c: int) -> bool {
        self.assignment.lit_false(self.watch_lit(c, 0) as int) && self.assignment.lit_false(
            self.watch_lit(c, 1) as int,
        )
    }

    /// A watched literal of clause `c` was assigned by trail entry `h` or later.
    pub open spec fn watch_pending(&self, c: int, h: int) -> bool {
        self.assignment.assigned_since(self.watch_lit(c, 0) as int, h)
            || self.assignment.assigned_since(self.watch_lit(c, 1) as int, h)
    }

    /// With the queue at `h`, a nonempty clause whose watched literals are
    /// both false still has one of them waiting in the queue.
    pub open spec fn watch_inv(&self, h: int) -> bool {
        forall|c: int|
            0 <= c < self.clauses@.len() && self.clauses@[c]@.len() > 0 && #[trigger] self.watches_false(c)
                ==> self.watch_pending(c, h)
    }

    /// The watch index lists each nonempty clause under both its watched
    /// literals, and a clause under no other literal.
    pub open spec fn index_ok(&self) -> bool {
        &&& self.index_exact()
        &&& forall|c: int|
            0 <= c < self.clauses@.len() && self.clauses@[c]@.len() > 0 ==> self.watchers@[lit_code(
                #[trigger] self.watch_lit(c, 0) as int,
            )]@.contains(c as usize) && self.watchers@[lit_code(self.watch_lit(c, 1) as int)]@.contains(
                c as usize,
            )
    }

    /// Every entry of the watch index names a nonempty clause that watches
    /// the entry's literal.
    pub open spec fn index_exact(&self) -> bool {
        forall|x: int, i: int|
            0 <= x < self.watchers@.len() && 0 <= i < self.watchers@[x]@.len() ==> self.clauses@[
                #[trigger] self.watchers@[x]@[i] as int]@.len() > 0 && (x == lit_code(
                self.watch_lit(self.watchers@[x]@[i] as int, 0) as int,
            ) || x == lit_code(self.watch_lit(self.watchers@[x]@[i] as int, 1) as int))
    }

    /// With the queue at `h`, a false watched literal assigned before entry
    /// `h` has a true literal at its other watch, set at a level no higher.
    pub open spec fn watch_support(&self, h: int) -> bool {
        forall|c: int, k: int|
            0 <= c < self.clauses@.len() && self.clauses@[c]@.len() > 0 && (k == 0 || k == 1)
                && self.assignment.lit_false(#[trigger] self.watch_lit(c, k) as int)
                && !self.assignment.assigned_since(self.watch_lit(c, k) as int, h)
                ==> self.assignment.lit_true(self.watch_lit(c, 1 - k) as int)
                && self.assignment.lit_level(self.watch_lit(c, 1 - k) as int)
                <= self.assignment.lit_level(self.watch_lit(c, k) as int)
    }

    /// The trail entries from `h` on lie on the current level.
    pub open spec fn pending_current(&self, h: int) -> bool {
        forall|j: int|
            h <= j < self.assignment.trail@.len() ==> #[trigger] self.assignment.level_at(j)
                == self.assignment.current_level
    }

    pub open spec fn queue_ok(&self) -> bool {
        &&& self.head <= self.assignment.trail@.len()
        &&& self.watch_inv(self.head as int)
        &&& self.watch_support(self.head as int)
        &&& self.pending_current(self.head as int)
        &&& self.index_ok()
    }

    /// The watch structures are in bounds: each nonempty clause watches two
    /// of its positions, distinct when it has two literals or more, and the
    /// watch index names stored clauses only.
    pub open spec fn watches_ok(&self) -> bool {
        let n = self.assignment.num_vars();
        &&& self.clauses@.len() <= usize::MAX + 1
        &&& self.watched@.len() == self.clauses@.len()
        &&& forall|c: int|
            0 <= c < self.clauses@.len() && self.clauses@[c]@.len() > 0 ==> (
            #[trigger] self.watched@[c]).0 < self.clauses@[c]@.len() && self.watched@[c].1
                < self.clauses@[c]@.len()
        &&& forall|c: int|
            0 <= c < self.clauses@.len() && self.clauses@[c]@.len() >= 2 ==> (
            #[trigger] self.watched@[c]).0 != self.watched@[c].1
        &&& forall|c: int| 0 <= c < self.clauses@.len() ==> strictly_sorted(#[trigger] self.clauses@[c]@)
        &&& self.watchers@.len() == 2 * n
        &&& forall|x: int, i: int|
            0 <= x < self.watchers@.len() && 0 <= i < self.watchers@[x]@.len()
                ==> #[trigger] self.watchers@[x]@[i] < self.clauses@.len()
    }

    pub open spec fn activity_ok(&self) -> bool {
        &&& self.activity@.len() == self.assignment.num_vars()
        &&& forall|v: int| 0 <= v < self.activity@.len() ==> #[trigger] self.activity@[v] <= ACTIVITY_LIMIT
        &&& 1 <= self.activity_increment <= ACTIVITY_LIMIT
    }

    pub open spec fn inv(&self) -> bool {
        &&& search_inv(
            clause_seqs(self.clauses@),
            self.assignment,
            self.problem@,
            self.num_loaded as int,
        )
        &&& self.watches_ok()
        &&& self.activity_ok()
        &&& self.queue_ok()
    }
}

/// The list without `c`.
fn without(list: &Vec<usize>, c: usize) -> (r: Vec<usize>)
    ensures
        forall|i: int| 0 <= i < r@.len() ==> #[trigger] r@[i] != c && list@.contains(r@[i]),
        forall|i: int| 0 <= i < list@.len() && list@[i] != c ==> r@.contains(#[trigger] list@[i]),
{
    let mut r: Vec<usize> = Vec::new();
    let mut i: usize = 0;
    while i < list.len()
        invariant
            0 <= i <= list@.len(),
            forall|q: int| 0 <= q < r@.len() ==> #[trigger] r@[q] != c && list@.contains(r@[q]),
            forall|q: int| 0 <= q < i && list@[q] != c ==> r@.contains(#[trigger] list@[q]),
        decreases list@.len() - i,
    {
        if list[i] != c {
            let ghost before = r@;
            r.push(list[i]);
            proof {
                assert(r@[r@.len() - 1] == list@[i as int]);
                assert forall|q: int| 0 <= q < i + 1 && list@[q] != c implies r@.contains(
                    #[trigger] list@[q],
                ) by {
                    if q < i {
                        let e = choose|e: int| 0 <= e < before.len() && before[e] == list@[q];
                        assert(r@[e] == before[e]);
                    }
                }
                assert forall|q: int| 0 <= q < r@.len() implies #[trigger] r@[q] != c
                    && list@.contains(r@[q]) by {
                    if q < before.len() {
                        assert(r@[q] == before[q]);
                    }
                }
            }
        }
        i = i + 1;
    }
    r
}

/// A copy of the list.
fn copied(list: &Vec<usize>) -> (r: Vec<usize>)
    ensures
        r@ == list@,
{
    let mut r: Vec<usize> = Vec::new();
    let mut i: usize = 0;
    while i < list.len()
        invariant
            0 <= i <= list@.len(),
            r@ == list@.take(i as int),
        decreases list@.len() - i,
    {
        r.push(list[i]);
        i = i + 1;
        proof {
            assert(r@ =~= list@.take(i as int));
        }
    }
    proof {
        assert(list@.take(list@.len() as int) =~= list@);
    }
    r
}

/// The list with `c` appended.
fn with(list: &Vec<usize>, c: usize) -> (r: Vec<usize>)
    ensures
        r@ == list@.push(c),
{
    let mut r = copied(list);
    r.push(c);
    r
}

/// The positions to watch in a learned clause, whose literals are all
/// assigned: the first literal that is not false, then the other literal of
/// highest level (position 0 twice for a unit clause).
fn learned_watches(a: &Assignment, clause: &Vec<i32>) -> (r: (usize, usize))
    requires
        a.wf(),
        clause@.len() > 0,
        forall|i: int|
            0 <= i < clause@.len() ==> lit_in_range(#[trigger] clause@[i], a.num_vars())
                && !a.lit_unset(clause@[i] as int),
    ensures
        r.0 < clause@.len(),
        r.1 < clause@.len(),
        clause@.len() == 1 ==> r == (0usize, 0usize),
        clause@.len() >= 2 ==> r.0 != r.1,
        (exists|i: int| 0 <= i < clause@.len() && !a.lit_false(#[trigger] clause@[i] as int))
            ==> !a.lit_false(clause@[r.0 as int] as int),
        clause@.len() >= 2 ==> forall|q: int|
            0 <= q < clause@.len() && q != r.0 ==> a.lit_level(#[trigger] clause@[q] as int)
                <= a.lit_level(clause@[r.1 as int] as int),
{
    if clause.len() == 1 {
        return (0, 0);
    }
    let mut f: usize = 0;
    let mut i: usize = 0;
    while i < clause.len()
        invariant
            a.wf(),
            forall|q: int|
                0 <= q < clause@.len() ==> lit_in_range(#[trigger] clause@[q], a.num_vars())
                    && !a.lit_unset(clause@[q] as int),
            0 <= i <= clause@.len(),
            f < clause@.len(),
            forall|q: int| 0 <= q < i ==> a.lit_false(#[trigger] clause@[q] as int),
        ensures
            f < clause@.len(),
            (exists|q: int| 0 <= q < clause@.len() && !a.lit_false(#[trigger] clause@[q] as int))
                ==> !a.lit_false(clause@[f as int] as int),
        decreases clause@.len() - i,
    {
        proof {
            assert(lit_in_range(clause@[i as int], a.num_vars()));
        }
        if !a.is_false(clause[i]) {
            f = i;
            break;
        }
        i = i + 1;
    }
    let mut best: usize = if f == 0 {
        1
    } else {
        0
    };
    let mut best_level: u32 = a.get_level(clause[best]).unwrap();
    let mut q: usize = 0;
    while q < clause.len()
        invariant
            a.wf(),
            forall|p: int|
                0 <= p < clause@.len() ==> lit_in_range(#[trigger] clause@[p], a.num_vars())
                    && !a.lit_unset(clause@[p] as int),
            f < clause@.len(),
            best < clause@.len(),
            best != f,
            best_level as int == a.lit_level(clause@[best as int] as int),
            0 <= q <= clause@.len(),
            forall|p: int| 0 <= p < q && p != f ==> a.lit_level(#[trigger] clause@[p] as int) <= best_level,
        decreases clause@.len() - q,
    {
        if q != f {
            proof {
                assert(lit_in_range(clause@[q as int], a.num_vars()));
                assert(a.values@[var_of(clause@[q as int] as int) - 1] is Some);
            }
            let l = a.get_level(clause[q]).unwrap();
            if l > best_level {
                best = q;
                best_level = l;
            }
        }
        q = q + 1;
    }
    (f, best)
}

/// Clause `d`, watching positions `w`, is listed under both its watched literals.
pub open spec fn listed(ws: Seq<Vec<usize>>, clause: Seq<i32>, w: (usize, usize), d: int) -> bool {
    &&& ws[lit_code(clause[w.0 as int] as int)]@.contains(d as usize)
    &&& ws[lit_code(clause[w.1 as int] as int)]@.contains(d as usize)
}

/// Every entry of the index `ws` names a nonempty clause of `cls` that,
/// watching the positions `w`, watches the entry's literal.
pub open spec fn index_exact_for(ws: Seq<Vec<usize>>, cls: Seq<Vec<i32>>, w: Seq<(usize, usize)>) -> bool {
    forall|x: int, i: int|
        0 <= x < ws.len() && 0 <= i < ws[x]@.len() ==> cls[#[trigger] ws[x]@[i] as int]@.len() > 0
            && (x == lit_code(cls[ws[x]@[i] as int]@[w[ws[x]@[i] as int].0 as int] as int) || x
            == lit_code(cls[ws[x]@[i] as int]@[w[ws[x]@[i] as int].1 as int] as int))
}

/// Watching positions for one more clause keeps the index exact while the
/// index names earlier clauses only.
proof fn lemma_exact_more_watched(
    ws: Seq<Vec<usize>>,
    cls: Seq<Vec<i32>>,
    cls2: Seq<Vec<i32>>,
    w: Seq<(usize, usize)>,
    w2: Seq<(usize, usize)>,
    c: int,
)
    requires
        index_exact_for(ws, cls, w),
        forall|x: int, i: int| 0 <= x < ws.len() && 0 <= i < ws[x]@.len() ==> #[trigger] ws[x]@[i] < c,
        forall|d: int| 0 <= d < c ==> #[trigger] w2[d] == w[d] && cls2[d] == cls[d],
    ensures
        index_exact_for(ws, cls2, w2),
{
    assert forall|x: int, i: int| 0 <= x < ws.len() && 0 <= i < ws[x]@.len() implies cls2[
        #[trigger] ws[x]@[i] as int]@.len() > 0 && (x == lit_code(
        cls2[ws[x]@[i] as int]@[w2[ws[x]@[i] as int].0 as int] as int,
    ) || x == lit_code(cls2[ws[x]@[i] as int]@[w2[ws[x]@[i] as int].1 as int] as int)) by {
        assert(w2[ws[x]@[i] as int] == w[ws[x]@[i] as int]);
        assert(cls2[ws[x]@[i] as int] == cls[ws[x]@[i] as int]);
    }
}

/// Listing clause `c` under one of its watched literals keeps the index exact.
proof fn lemma_exact_after_push(
    old: Seq<Vec<usize>>,
    new: Seq<Vec<usize>>,
    code: int,
    c: usize,
    cls: Seq<Vec<i32>>,
    w: Seq<(usize, usize)>,
)
    requires
        index_exact_for(old, cls, w),
        new.len() == old.len(),
        0 <= code < old.len(),
        new[code]@ == old[code]@.push(c),
        forall|x: int| 0 <= x < old.len() && x != code ==> #[trigger] new[x] == old[x],
        cls[c as int]@.len() > 0,
        code == lit_code(cls[c as int]@[w[c as int].0 as int] as int) || code == lit_code(
            cls[c as int]@[w[c as int].1 as int] as int,
        ),
    ensures
        index_exact_for(new, cls, w),
{
    assert forall|x: int, i: int| 0 <= x < new.len() && 0 <= i < new[x]@.len() implies cls[
        #[trigger] new[x]@[i] as int]@.len() > 0 && (x == lit_code(
        cls[new[x]@[i] as int]@[w[new[x]@[i] as int].0 as int] as int,
    ) || x == lit_code(cls[new[x]@[i] as int]@[w[new[x]@[i] as int].1 as int] as int)) by {
        if x == code && i == old[code]@.len() {
            assert(new[x]@[i] == c);
        } else {
            assert(new[x]@[i] == old[x]@[i]);
        }
    }
}

/// Appending `c` to one list of the watch index keeps every listing.
proof fn lemma_listed_after_push(old: Seq<Vec<usize>>, new: Seq<Vec<usize>>, code: int, c: usize)
    requires
        new.len() == old.len(),
        0 <= code < old.len(),
        new[code]@ == old[code]@.push(c),
        forall|x: int| 0 <= x < old.len() && x != code ==> #[trigger] new[x] == old[x],
    ensures
        forall|x: int, d: usize| 0 <= x < old.len() && #[trigger] old[x]@.contains(d) ==> new[x]@.contains(d),
        new[code]@.contains(c),
{
    assert forall|x: int, d: usize| 0 <= x < old.len() && #[trigger] old[x]@.contains(d) implies new[x]@.contains(d) by {
        let e = choose|e: int| 0 <= e < old[x]@.len() && old[x]@[e] == d;
        if x == code {
            assert(new[x]@[e] == d);
        } else {
            assert(new[x] == old[x]);
        }
    }
    assert(new[code]@[old[code]@.len() as int] == c);
}

impl Cnf {
    /// A solver for the given clauses, with nothing assigned, every score 0
    /// and every phase true. Tautologies are dropped and the other clauses
    /// sorted and deduplicated; each nonempty clause watches positions 0 and 1
    /// (position 0 twice when it has one literal).
    pub fn new(clauses: Vec<Vec<i32>>) -> (r: Self)
        requires
            literals_supported(clause_seqs(clauses@)),
        ensures
            r.inv(),
            r.problem@ == clause_seqs(clauses@),
            r.assignment.trail@.len() == 0,
            loaded_form(clause_seqs(clauses@), clause_seqs(r.clauses@)),
            r.num_loaded == r.clauses@.len(),
            max_var(clause_seqs(clauses@), r.assignment.num_vars()),
            forall|v: int| 0 <= v < r.activity@.len() ==> #[trigger] r.activity@[v] == 0,
            forall|v: int|
                0 <= v < r.assignment.num_vars() ==> #[trigger] r.assignment.phases@[v],
            forall|c: int|
                0 <= c < r.clauses@.len() && r.clauses@[c]@.len() >= 2 ==> #[trigger] r.watched@[c]
                    == (0usize, 1usize),
            forall|c: int|
                0 <= c < r.clauses@.len() && r.clauses@[c]@.len() <= 1 ==> #[trigger] r.watched@[c]
                    == (0usize, 0usize),
            r.head == 0,
            r.activity_increment == INITIAL_INCREMENT,
    {
        let ghost problem = clause_seqs(clauses@);
        let (loaded, largest) = load_clauses(&clauses);
        let assignment = Assignment::new(largest);
        let ghost cs = clause_seqs(loaded@);
        let mut watched: Vec<(usize, usize)> = Vec::new();
        let mut watchers: Vec<Vec<usize>> = Vec::new();
        let mut x: usize = 0;
        while x < 2 * largest
            invariant
                largest <= i32::MAX,
                0 <= x <= 2 * largest,
                watchers@.len() == x,
                forall|y: int| 0 <= y < x ==> #[trigger] watchers@[y]@.len() == 0,
            decreases 2 * largest - x,
        {
            watchers.push(Vec::new());
            x = x + 1;
        }
        let mut activity: Vec<u64> = Vec::new();
        while activity.len() < largest
            invariant
                activity@.len() <= largest,
                forall|v: int| 0 <= v < activity@.len() ==> #[trigger] activity@[v] == 0,
            decreases largest - activity@.len(),
        {
            activity.push(0);
        }
        proof {
            assert(index_exact_for(watchers@, loaded@, watched@));
        }
        let mut c: usize = 0;
        while c < loaded.len()
            invariant
                cs == clause_seqs(loaded@),
                crate::literal::clauses_in_range(cs, largest as int),
                largest <= i32::MAX,
                0 <= c <= loaded@.len(),
                watched@.len() == c,
                forall|d: int|
                    0 <= d < c && loaded@[d]@.len() > 0 ==> (#[trigger] watched@[d]).0
                        < loaded@[d]@.len() && watched@[d].1 < loaded@[d]@.len(),
                forall|d: int|
                    0 <= d < c && loaded@[d]@.len() <= 1 ==> #[trigger] watched@[d] == (0usize, 0usize),
                forall|d: int|
                    0 <= d < c && loaded@[d]@.len() >= 2 ==> #[trigger] watched@[d] == (0usize, 1usize),
                watchers@.len() == 2 * largest,
                forall|y: int, i: int|
                    0 <= y < watchers@.len() && 0 <= i < watchers@[y]@.len()
                        ==> #[trigger] watchers@[y]@[i] < c,
                forall|d: int|
                    0 <= d < c && loaded@[d]@.len() > 0 ==> listed(
                        watchers@,
                        loaded@[d]@,
                        #[trigger] watched@[d],
                        d,
                    ),
                index_exact_for(watchers@, loaded@, watched@),
            decreases loaded@.len() - c,
        {
            let clause = &loaded[c];
            assert(clause@ == cs[c as int]);
            let ghost wd0 = watched@;
            if clause.len() == 0 {
                watched.push((0, 0));
                proof {
                    lemma_exact_more_watched(watchers@, loaded@, loaded@, wd0, watched@, c as int);
                }
            } else if clause.len() == 1 {
                watched.push((0, 0));
                proof {
                    lemma_exact_more_watched(watchers@, loaded@, loaded@, wd0, watched@, c as int);
                }
                proof {
                    assert(lit_in_range(cs[c as int][0], largest as int));
                }
                let code = lit_index(clause[0]);
                let ghost w0 = watchers@;
                let list = with(&watchers[code], c);
                watchers.set(code, list);
                proof {
                    lemma_listed_after_push(w0, watchers@, code as int, c);
                    lemma_exact_after_push(w0, watchers@, code as int, c, loaded@, watched@);
                    assert forall|d: int| 0 <= d < c && loaded@[d]@.len() > 0 implies listed(
                        watchers@,
                        loaded@[d]@,
                        #[trigger] watched@[d],
                        d,
                    ) by {
                        assert(cs[d] == loaded@[d]@);
                        assert(lit_in_range(cs[d][watched@[d].0 as int], largest as int));
                        assert(lit_in_range(cs[d][watched@[d].1 as int], largest as int));
                        assert(listed(w0, loaded@[d]@, watched@[d], d));
                    }
                }
            } else {
                watched.push((0, 1));
                proof {
                    lemma_exact_more_watched(watchers@, loaded@, loaded@, wd0, watched@, c as int);
                }
                proof {
                    assert(lit_in_range(cs[c as int][0], largest as int));
                    assert(lit_in_range(cs[c as int][1], largest as int));
                }
                let code = lit_index(clause[0]);
                let ghost w0 = watchers@;
                let list = with(&watchers[code], c);
                watchers.set(code, list);
                let ghost w1 = watchers@;
                proof {
                    lemma_listed_after_push(w0, w1, code as int, c);
                    lemma_exact_after_push(w0, w1, code as int, c, loaded@, watched@);
                }
                let code2 = lit_index(clause[1]);
                let list = with(&watchers[code2], c);
                watchers.set(code2, list);
                proof {
                    lemma_listed_after_push(w1, watchers@, code2 as int, c);
                    lemma_exact_after_push(w1, watchers@, code2 as int, c, loaded@, watched@);
                    assert forall|d: int| 0 <= d < c && loaded@[d]@.len() > 0 implies listed(
                        watchers@,
                        loaded@[d]@,
                        #[trigger] watched@[d],
                        d,
                    ) by {
                        assert(cs[d] == loaded@[d]@);
                        assert(lit_in_range(cs[d][watched@[d].0 as int], largest as int));
                        assert(lit_in_range(cs[d][watched@[d].1 as int], largest as int));
                        assert(listed(w0, loaded@[d]@, watched@[d], d));
                    }
                    assert(w1[code as int]@.contains(c));
                    assert(watchers@[code as int]@.contains(c));
                }
            }
            proof {
                assert forall|y: int, i: int|
                    0 <= y < watchers@.len() && 0 <= i < watchers@[y]@.len() implies #[trigger] watchers@[y]@[i]
                    < c + 1 by {}
            }
            c = c + 1;
        }
        let num_loaded = loaded.len();
        let r = Cnf {
            clauses: loaded,
            assignment,
            watched,
            watchers,
            activity,
            activity_increment: INITIAL_INCREMENT,
            num_loaded,
            head: 0,
            problem: Ghost(problem),
        };
        proof {
            assert forall|d: int| 0 <= d < r.clauses@.len() implies strictly_sorted(#[trigger] r.clauses@[d]@) by {
                assert(clause_seqs(r.clauses@)[d] == r.clauses@[d]@);
            }
            assert forall|d: int, k: int|
                0 <= d < r.clauses@.len() && r.clauses@[d]@.len() > 0 && (k == 0 || k == 1)
                    && r.assignment.lit_false(#[trigger] r.watch_lit(d, k) as int)
                    && !r.assignment.assigned_since(r.watch_lit(d, k) as int, 0) implies r.assignment.lit_true(
                r.watch_lit(d, 1 - k) as int,
            ) && r.assignment.lit_level(r.watch_lit(d, 1 - k) as int) <= r.assignment.lit_level(
                r.watch_lit(d, k) as int,
            ) by {
                assert(lit_in_range(cs[d][r.watched@[d].0 as int], largest as int));
                assert(lit_in_range(cs[d][r.watched@[d].1 as int], largest as int));
                assert(r.assignment.values@[var_of(r.watch_lit(d, k) as int) - 1] is None);
            }
            assert(r.index_exact());
            assert forall|d: int|
                0 <= d < r.clauses@.len() && r.clauses@[d]@.len() > 0 implies r.watchers@[lit_code(
                #[trigger] r.watch_lit(d, 0) as int,
            )]@.contains(d as usize) && r.watchers@[lit_code(r.watch_lit(d, 1) as int)]@.contains(
                d as usize,
            ) by {
                assert(listed(r.watchers@, r.clauses@[d]@, r.watched@[d], d));
            }
            assert forall|d: int|
                0 <= d < r.clauses@.len() && r.clauses@[d]@.len() > 0 && #[trigger] r.watches_false(d)
                    implies r.watch_pending(d, 0) by {
                let l = r.watch_lit(d, 0);
                assert(lit_in_range(cs[d][r.watched@[d].0 as int], largest as int));
                assert(r.assignment.values@[var_of(l as int) - 1] is None);
            }
            assert forall|v: int| 0 <= v < r.assignment.num_vars() implies #[trigger] r.assignment.phases@[v] by {
                assert(r.assignment.values@[v] is None);
            }
            assert(cs.take(num_loaded as int) =~= cs);
            assert forall|c: int| 0 <= c < cs.len() implies #[trigger] entails(problem, cs[c]) by {
                assert forall|m: spec_fn(int) -> bool| formula_holds(m, problem) implies #[trigger] clause_holds(
                    m,
                    cs[c],
                ) by {
                    assert(formula_holds(m, cs));
                }
            }
        }
        r
    }

    /// Divides every score and the increment by `RESCALE_DIVISOR`.
    fn rescale_vsids(&mut self)
        requires
            old(self).activity@.len() == old(self).assignment.num_vars(),
        ensures
            final(self).activity@ == rescaled(old(self).activity@),
            final(self).activity_increment == rescaled_increment(old(self).activity_increment),
            final(self).clauses == old(self).clauses,
            final(self).assignment == old(self).assignment,
            final(self).watched == old(self).watched,
            final(self).watchers == old(self).watchers,
            final(self).num_loaded == old(self).num_loaded,
            final(self).problem == old(self).problem,
            final(self).head == old(self).head,
    {
        let ghost before = self.activity@;
        let ghost start = *self;
        let mut v: usize = 0;
        while v < self.activity.len()
            invariant
                start == *old(self),
                before == start.activity@,
                self.clauses == start.clauses,
                self.assignment == start.assignment,
                self.watched == start.watched,
                self.watchers == start.watchers,
                self.num_loaded == start.num_loaded,
                self.problem == start.problem,
                self.head == start.head,
                self.activity_increment == start.activity_increment,
                0 <= v <= self.activity@.len(),
                self.activity@.len() == before.len(),
                forall|u: int| 0 <= u < v ==> #[trigger] self.activity@[u] == (before[u] / RESCALE_DIVISOR) as u64,
                forall|u: int| v <= u < before.len() ==> #[trigger] self.activity@[u] == before[u],
            decreases self.activity@.len() - v,
        {
            let s = self.activity[v];
            self.activity.set(v, s / RESCALE_DIVISOR);
            v = v + 1;
        }
        proof {
            assert(self.activity@ =~= rescaled(before));
        }
        let inc = self.activity_increment / RESCALE_DIVISOR;
        self.activity_increment = if inc == 0 {
            1
        } else {
            inc
        };
    }

    /// Adds the increment to the score of variable slot `v`, rescaling when
    /// the score passes the limit.
    pub fn bump_vsids(&mut self, v: usize)
        requires
            old(self).inv(),
            v < old(self).activity@.len(),
        ensures
            final(self).inv(),
            ({
                let bumped = old(self).activity@.update(
                    v as int,
                    (old(self).activity@[v as int] + old(self).activity_increment) as u64,
                );
                if old(self).activity@[v as int] + old(self).activity_increment > ACTIVITY_LIMIT {
                    &&& final(self).activity@ == rescaled(bumped)
                    &&& final(self).activity_increment == rescaled_increment(
                        old(self).activity_increment,
                    )
                } else {
                    &&& final(self).activity@ == bumped
                    &&& final(self).activity_increment == old(self).activity_increment
                }
            }),
            final(self).clauses == old(self).clauses,
            final(self).assignment == old(self).assignment,
            final(self).watched == old(self).watched,
            final(self).watchers == old(self).watchers,
            final(self).num_loaded == old(self).num_loaded,
            final(self).problem == old(self).problem,
            final(self).head == old(self).head,
    {
        let ghost start = *self;
        let s = self.activity[v] + self.activity_increment;
        self.activity.set(v, s);
        if s > ACTIVITY_LIMIT {
            self.rescale_vsids();
            proof {
                assert forall|u: int| 0 <= u < self.activity@.len() implies #[trigger] self.activity@[u]
                    <= ACTIVITY_LIMIT by {
                    assert(self.activity@[u] == rescaled(old(self).activity@.update(v as int, s))[u]);
                }
            }
        }
        proof {
            start.lemma_inv_transfer(*self);
        }
    }

    /// Raises the increment by a twentieth, rescaling when it passes the limit.
    pub fn decay_vsids(&mut self)
        requires
            old(self).inv(),
        ensures
            final(self).inv(),
            ({
                let raised = old(self).activity_increment + old(self).activity_increment / 19;
                if raised > ACTIVITY_LIMIT {
                    &&& final(self).activity@ == rescaled(old(self).activity@)
                    &&& final(self).activity_increment == rescaled_increment(raised as u64)
                } else {
                    &&& final(self).activity@ == old(self).activity@
                    &&& final(self).activity_increment == raised
                }
            }),
            final(self).clauses == old(self).clauses,
            final(self).assignment == old(self).assignment,
            final(self).watched == old(self).watched,
            final(self).watchers == old(self).watchers,
            final(self).num_loaded == old(self).num_loaded,
            final(self).problem == old(self).problem,
            final(self).head == old(self).head,
    {
        let ghost start = *self;
        self.activity_increment = self.activity_increment + self.activity_increment / 19;
        if self.activity_increment > ACTIVITY_LIMIT {
            self.rescale_vsids();
            proof {
                assert forall|u: int| 0 <= u < self.activity@.len() implies #[trigger] self.activity@[u]
                    <= ACTIVITY_LIMIT by {
                    assert(self.activity@[u] == rescaled(old(self).activity@)[u]);
                }
            }
        }
        proof {
            start.lemma_inv_transfer(*self);
        }
    }

    /// Bumps the variable of every literal of clause `c` once, then decays.
    fn bump_learned_clause(&mut self, c: usize)
        requires
            old(self).inv(),
            c < old(self).clauses@.len(),
        ensures
            final(self).inv(),
            final(self).clauses == old(self).clauses,
            final(self).assignment == old(self).assignment,
            final(self).watched == old(self).watched,
            final(self).watchers == old(self).watchers,
            final(self).num_loaded == old(self).num_loaded,
            final(self).problem == old(self).problem,
            final(self).head == old(self).head,
            ({
                let (a, i) = bumped_all(
                    old(self).activity@,
                    old(self).activity_increment,
                    old(self).clauses@[c as int]@,
                );
                (final(self).activity@, final(self).activity_increment) == decayed(a, i)
            }),
    {
        let ghost start = *self;
        let ghost cl = self.clauses@[c as int]@;
        let mut i: usize = 0;
        proof {
            assert(cl.take(0) =~= Seq::<i32>::empty());
        }
        while i < self.clauses[c].len()
            invariant
                self.inv(),
                c < self.clauses@.len(),
                cl == self.clauses@[c as int]@,
                0 <= i <= self.clauses@[c as int]@.len(),
                (self.activity@, self.activity_increment) == bumped_all(
                    start.activity@,
                    start.activity_increment,
                    cl.take(i as int),
                ),
                self.clauses == start.clauses,
                self.assignment == start.assignment,
                self.watched == start.watched,
                self.watchers == start.watchers,
                self.num_loaded == start.num_loaded,
                self.problem == start.problem,
                self.head == start.head,
            decreases self.clauses@[c as int]@.len() - i,
        {
            let lit = self.clauses[c][i];
            proof {
                assert(self.clauses@[c as int]@ == clause_seqs(self.clauses@)[c as int]);
                assert(lit_in_range(clause_seqs(self.clauses@)[c as int][i as int], self.assignment.num_vars()));
            }
            self.bump_vsids(var_index(lit));
            proof {
                assert(cl.take(i as int + 1).drop_last() =~= cl.take(i as int));
                assert(cl.take(i as int + 1).last() == lit);
            }
            i = i + 1;
        }
        proof {
            assert(cl.take(cl.len() as int) =~= cl);
        }
        self.decay_vsids();
    }

    /// The unassigned variable with the highest score (the lowest such
    /// variable on a tie), with its saved phase as sign; `None` when every
    /// variable is assigned.
    pub fn choose_unassigned_literal(&self) -> (r: Option<i32>)
        requires
            self.inv(),
        ensures
            r matches Some(l) ==> {
                let v = var_of(l as int) - 1;
                &&& lit_in_range(l, self.assignment.num_vars())
                &&& self.assignment.values@[v] is None
                &&& (l > 0) == self.assignment.phases@[v]
                &&& forall|u: int|
                    0 <= u < self.assignment.num_vars() && self.assignment.values@[u] is None
                        ==> #[trigger] self.activity@[u] <= self.activity@[v]
                &&& forall|u: int|
                    0 <= u < v && self.assignment.values@[u] is None ==> #[trigger] self.activity@[u]
                        < self.activity@[v]
            },
            r is None ==> forall|u: int|
                0 <= u < self.assignment.num_vars() ==> #[trigger] self.assignment.values@[u] is Some,
    {
        let n = self.activity.len();
        let mut best: Option<usize> = None;
        let mut v: usize = 0;
        while v < n
            invariant
                self.inv(),
                n == self.assignment.num_vars(),
                0 <= v <= n,
                best matches Some(b) ==> b < v && self.assignment.values@[b as int] is None,
                best is None ==> forall|u: int|
                    0 <= u < v ==> #[trigger] self.assignment.values@[u] is Some,
                best matches Some(b) ==> forall|u: int|
                    0 <= u < v && self.assignment.values@[u] is None ==> #[trigger] self.activity@[u]
                        <= self.activity@[b as int],
                best matches Some(b) ==> forall|u: int|
                    0 <= u < b && self.assignment.values@[u] is None ==> #[trigger] self.activity@[u]
                        < self.activity@[b as int],
            decreases n - v,
        {
            if self.assignment.values[v].is_none() {
                match best {
                    None => {
                        best = Some(v);
                    },
                    Some(b) => {
                        if self.activity[v] > self.activity[b] {
                            best = Some(v);
                        }
                    },
                }
            }
            v = v + 1;
        }
        match best {
            None => None,
            Some(b) => {
                let var = (b + 1) as i32;
                if self.assignment.phases[b] {
                    Some(var)
                } else {
                    Some(-var)
                }
            },
        }
    }
}

impl Cnf {
    /// The watch structures, the index and the scores carry over to a state
    /// with the same clauses, watches, index and number of variables, when its
    /// scores are in bounds.
    pub proof fn lemma_structure_transfer(&self, other: Self)
        requires
            self.watches_ok(),
            self.index_ok(),
            other.clauses == self.clauses,
            other.watched == self.watched,
            other.watchers == self.watchers,
            other.assignment.num_vars() == self.assignment.num_vars(),
        ensures
            other.watches_ok(),
            other.index_ok(),
            forall|c: int, k: int| #[trigger] other.watch_lit(c, k) == self.watch_lit(c, k),
            other.assignment == self.assignment ==> forall|c: int| #[trigger] other.watches_false(c)
                == self.watches_false(c),
            other.assignment == self.assignment ==> forall|c: int, h: int| #[trigger] other.watch_pending(c, h)
                == self.watch_pending(c, h),
            other.assignment == self.assignment ==> forall|h: int| #[trigger] other.pending_current(h)
                == self.pending_current(h),
    {
        assert forall|c: int, k: int| #[trigger] other.watch_lit(c, k) == self.watch_lit(c, k) by {}
        if other.assignment == self.assignment {
            assert forall|c: int| #[trigger] other.watches_false(c) == self.watches_false(c) by {
                assert(other.watch_lit(c, 0) == self.watch_lit(c, 0));
                assert(other.watch_lit(c, 1) == self.watch_lit(c, 1));
            }
            assert forall|c: int, h: int| #[trigger] other.watch_pending(c, h) == self.watch_pending(c, h) by {
                assert(other.watch_lit(c, 0) == self.watch_lit(c, 0));
                assert(other.watch_lit(c, 1) == self.watch_lit(c, 1));
            }
        }
        assert forall|c: int|
            0 <= c < other.clauses@.len() && other.clauses@[c]@.len() > 0 implies other.watchers@[lit_code(
            #[trigger] other.watch_lit(c, 0) as int,
        )]@.contains(c as usize) && other.watchers@[lit_code(other.watch_lit(c, 1) as int)]@.contains(
            c as usize,
        ) by {
            assert(self.watch_lit(c, 0) == other.watch_lit(c, 0));
        }
        assert forall|c: int|
            0 <= c < other.clauses@.len() && other.clauses@[c]@.len() > 0 implies (
            #[trigger] other.watched@[c]).0 < other.clauses@[c]@.len() && other.watched@[c].1
            < other.clauses@[c]@.len() by {
            assert(self.watched@[c] == other.watched@[c]);
        }
    }

    /// The solver's invariant carries over to a state that differs only in
    /// its scores, when those are in bounds.
    pub proof fn lemma_inv_transfer(&self, other: Self)
        requires
            self.inv(),
            other.clauses == self.clauses,
            other.watched == self.watched,
            other.watchers == self.watchers,
            other.assignment == self.assignment,
            other.num_loaded == self.num_loaded,
            other.problem == self.problem,
            other.head == self.head,
            other.activity_ok(),
        ensures
            other.inv(),
    {
        self.lemma_structure_transfer(other);
        assert forall|c: int|
            0 <= c < other.clauses@.len() && other.clauses@[c]@.len() > 0 && #[trigger] other.watches_false(c)
                implies other.watch_pending(c, other.head as int) by {
            assert(self.watches_false(c));
        }
        assert forall|j: int|
            other.head <= j < other.assignment.trail@.len() implies #[trigger] other.assignment.level_at(j)
            == other.assignment.current_level by {
            assert(self.assignment.level_at(j) == self.assignment.current_level);
        }
    }
}

impl Cnf {
    /// The position of the watch of clause `c` other than the one on `l`
    /// (the second watch when the first one holds `l`).
    pub open spec fn other_watch(&self, c: int, l: i32) -> int {
        if self.clauses@[c]@[self.watched@[c].0 as int] == l {
            self.watched@[c].1 as int
        } else {
            self.watched@[c].0 as int
        }
    }

    /// Clause `c` is nonempty and watches the literal `l`.
    pub open spec fn watches_lit(&self, c: int, l: i32) -> bool {
        self.clauses@[c]@.len() > 0 && (self.watch_lit(c, 0) == l || self.watch_lit(c, 1) == l)
    }

    /// Position `k` of clause `c` is not watched and its literal is not false:
    /// a place a watch can move to.
    pub open spec fn free_position(&self, c: int, k: int) -> bool {
        &&& 0 <= k < self.clauses@[c]@.len()
        &&& k != self.watched@[c].0
        &&& k != self.watched@[c].1
        &&& !self.assignment.lit_false(self.clauses@[c]@[k] as int)
    }

    /// Position `k` is the first free position of clause `c`, left to right.
    pub open spec fn first_free_position(&self, c: int, k: int) -> bool {
        self.free_position(c, k) && forall|q: int| 0 <= q < k ==> !#[trigger] self.free_position(c, q)
    }
}

impl Cnf {
    /// What the propagation steps keep: the clause database, the solver's
    /// invariant, the queue head and the current level; the trail only grows.
    pub open spec fn grows_from(&self, start: Self) -> bool {
        &&& self.inv()
        &&& self.clauses == start.clauses
        &&& self.num_loaded == start.num_loaded
        &&& self.problem == start.problem
        &&& self.head == start.head
        &&& self.assignment.num_vars() == start.assignment.num_vars()
        &&& self.assignment.current_level == start.assignment.current_level
        &&& start.assignment.trail@.len() <= self.assignment.trail@.len()
        &&& self.assignment.trail@.take(start.assignment.trail@.len() as int)
            == start.assignment.trail@
        &&& search_progress(self.assignment) >= search_progress(start.assignment)
        &&& start.assignment.extended_by_implications(self.assignment)
        &&& start.assignment.store_wf()
    }

    proof fn lemma_grows_trans(&self, mid: Self, start: Self)
        requires
            mid.grows_from(start),
            self.grows_from(mid),
        ensures
            self.grows_from(start),
    {
        start.assignment.lemma_extension_trans(mid.assignment, self.assignment);
        let k = start.assignment.trail@.len() as int;
        assert(self.assignment.trail@.take(k) =~= start.assignment.trail@) by {
            assert forall|i: int| 0 <= i < k implies self.assignment.trail@.take(k)[i]
                == start.assignment.trail@[i] by {
                assert(self.assignment.trail@.take(mid.assignment.trail@.len() as int)[i]
                    == mid.assignment.trail@[i]);
                assert(mid.assignment.trail@.take(k)[i] == start.assignment.trail@[i]);
            }
        }
    }

    /// After the trail grew with the watches unchanged, a clause whose watched
    /// literals are both false had them so before, or one of them was
    /// assigned by a new entry; and assignments since an entry stay so.
    proof fn lemma_watches_after_growth(&self, start: Self, c: int)
        requires
            start.inv(),
            self.assignment.store_wf(),
            self.assignment.num_vars() == start.assignment.num_vars(),
            start.assignment.trail@.len() <= self.assignment.trail@.len(),
            self.assignment.trail@.take(start.assignment.trail@.len() as int)
                == start.assignment.trail@,
            self.clauses == start.clauses,
            0 <= c < self.clauses@.len(),
            self.clauses@[c]@.len() > 0,
            self.watched@[c] == start.watched@[c],
        ensures
            self.watches_false(c) ==> start.watches_false(c) || self.watch_pending(
                c,
                start.assignment.trail@.len() as int,
            ),
            forall|h: int| #[trigger] start.watch_pending(c, h) ==> self.watch_pending(c, h),
    {
        let n = start.assignment.num_vars();
        let cl = clause_seqs(start.clauses@)[c];
        assert(cl == start.clauses@[c]@);
        assert(lit_in_range(cl[start.watched@[c].0 as int], n));
        assert(lit_in_range(cl[start.watched@[c].1 as int], n));
        start.assignment.lemma_growth(self.assignment, start.watch_lit(c, 0));
        start.assignment.lemma_growth(self.assignment, start.watch_lit(c, 1));
    }

    /// The support of false watches survives a growth of the trail that
    /// keeps every earlier assignment, its level, and the watches.
    proof fn lemma_support_kept(&self, start: Self, h: int)
        requires
            start.inv(),
            start.watch_support(h),
            self.clauses == start.clauses,
            self.watched == start.watched,
            self.assignment.store_wf(),
            self.assignment.num_vars() == start.assignment.num_vars(),
            start.assignment.trail@.len() <= self.assignment.trail@.len(),
            self.assignment.trail@.take(start.assignment.trail@.len() as int)
                == start.assignment.trail@,
            h <= start.assignment.trail@.len(),
            forall|v: int|
                0 <= v < start.assignment.num_vars() && #[trigger] start.assignment.values@[v] is Some
                    ==> self.assignment.values@[v] == start.assignment.values@[v]
                    && self.assignment.levels@[v] == start.assignment.levels@[v],
        ensures
            self.watch_support(h),
    {
        let n = start.assignment.num_vars();
        assert forall|c: int, k: int|
            0 <= c < self.clauses@.len() && self.clauses@[c]@.len() > 0 && (k == 0 || k == 1)
                && self.assignment.lit_false(#[trigger] self.watch_lit(c, k) as int)
                && !self.assignment.assigned_since(self.watch_lit(c, k) as int, h) implies self.assignment.lit_true(
            self.watch_lit(c, 1 - k) as int,
        ) && self.assignment.lit_level(self.watch_lit(c, 1 - k) as int) <= self.assignment.lit_level(
            self.watch_lit(c, k) as int,
        ) by {
            let cs = clause_seqs(start.clauses@);
            assert(cs[c] == start.clauses@[c]@);
            assert(lit_in_range(cs[c][start.watched@[c].0 as int], n));
            assert(lit_in_range(cs[c][start.watched@[c].1 as int], n));
            let l = start.watch_lit(c, k);
            let o = start.watch_lit(c, 1 - k);
            assert(self.watch_lit(c, k) == l && self.watch_lit(c, 1 - k) == o);
            start.assignment.lemma_growth(self.assignment, l);
            start.assignment.lemma_growth(self.assignment, o);
            if !start.assignment.lit_false(l as int) {
                assert(self.assignment.assigned_since(l as int, start.assignment.trail@.len() as int));
                let j = choose|j: int| 0 <= j && start.assignment.trail@.len() <= j < self.assignment.trail@.len()
                    && #[trigger] self.assignment.slot(j) == var_of(l as int) - 1;
                assert(self.assignment.assigned_since(l as int, h));
            }
            assert(start.assignment.lit_false(l as int));
            assert(!start.assignment.assigned_since(l as int, h));
            assert(start.assignment.lit_true(o as int));
            assert(start.assignment.values@[var_of(o as int) - 1] is Some);
            assert(start.assignment.values@[var_of(l as int) - 1] is Some);
        }
    }

    /// Records `lit` as true at the current level, with clause `c` as reason,
    /// once `c` is unit on it.
    fn assign_implied(&mut self, lit: i32, c: usize)
        requires
            old(self).inv(),
            c < old(self).clauses@.len(),
            lit_in_range(lit, old(self).assignment.num_vars()),
            old(self).assignment.clause_unit(old(self).clauses@[c as int]@, lit),
        ensures
            final(self).grows_from(*old(self)),
            final(self).watched == old(self).watched,
            final(self).watchers == old(self).watchers,
            final(self).assignment.lit_true(lit as int),
            final(self).assignment.trail@ == old(self).assignment.trail@.push(lit),
            final(self).assignment.reasons@ == old(self).assignment.reasons@.update(
                var_of(lit as int) - 1,
                Some(c),
            ),
    {
        let ghost start = *self;
        let ghost pre = self.assignment;
        proof {
            assert(self.clauses@[c as int]@ == clause_seqs(self.clauses@)[c as int]);
        }
        self.assignment.imply(lit, c, &self.clauses);
        proof {
            start.lemma_structure_transfer(*self);
            assert(self.assignment.trail@.take(pre.trail@.len() as int) =~= pre.trail@);
            self.lemma_support_kept(start, start.head as int);
            lemma_progress_push(pre.level_seq(), pre.current_level as int, pre.num_vars() as nat);
            assert(self.assignment.trail@.take(pre.trail@.len() as int) =~= pre.trail@);
            let len = pre.trail@.len() as int;
            assert forall|d: int|
                0 <= d < self.clauses@.len() && self.clauses@[d]@.len() > 0 && #[trigger] self.watches_false(d)
                    implies self.watch_pending(d, self.head as int) by {
                self.lemma_watches_after_growth(start, d);
                if start.watches_false(d) {
                    assert(start.watch_pending(d, start.head as int));
                }
            }
            assert forall|j: int|
                self.head <= j < self.assignment.trail@.len() implies #[trigger] self.assignment.level_at(j)
                == self.assignment.current_level by {
                if j < len {
                    assert(start.assignment.level_at(j) == start.assignment.current_level);
                    assert(self.assignment.level_seq()[j] == pre.level_seq()[j]);
                } else {
                    assert(self.assignment.level_seq()[j] == self.assignment.current_level);
                }
            }
        }
    }

    /// After a watch of clause `c` moved from `false_lit` to the literal
    /// listed under `to`, with `c` dropped from the list of `false_lit`
    /// unless the other watch is that same literal, every index entry still
    /// names a clause that watches the entry's literal.
    proof fn lemma_exact_after_move(
        &self,
        start: Self,
        c: int,
        from: int,
        to: int,
        mid: Seq<Vec<usize>>,
        other: i32,
        false_lit: i32,
    )
        requires
            start.index_exact(),
            start.watches_ok(),
            0 <= c < start.clauses@.len(),
            start.clauses@[c]@.len() > 0,
            self.clauses == start.clauses,
            self.watched@.len() == start.watched@.len(),
            mid.len() == start.watchers@.len(),
            self.watchers@.len() == start.watchers@.len(),
            forall|x: int, y: usize|
                0 <= x < mid.len() && #[trigger] mid[x]@.contains(y) ==> start.watchers@[x]@.contains(y),
            other != false_lit ==> !mid[from]@.contains(c as usize),
            0 <= to < mid.len(),
            self.watchers@[to]@ == mid[to]@.push(c as usize),
            forall|x: int| 0 <= x < mid.len() && x != to ==> #[trigger] self.watchers@[x] == mid[x],
            forall|d: int|
                0 <= d < self.watched@.len() && d != c ==> #[trigger] self.watch_lit(d, 0)
                    == start.watch_lit(d, 0) && self.watch_lit(d, 1) == start.watch_lit(d, 1),
            (start.watch_lit(c, 0) == false_lit && start.watch_lit(c, 1) == other) || (start.watch_lit(
                c,
                1,
            ) == false_lit && start.watch_lit(c, 0) == other),
            (self.watch_lit(c, 0) == other && lit_code(self.watch_lit(c, 1) as int) == to) || (
            self.watch_lit(c, 1) == other && lit_code(self.watch_lit(c, 0) as int) == to),
            from == lit_code(false_lit as int),
            start.watched@.len() == start.clauses@.len(),
            c <= usize::MAX,
        ensures
            self.index_exact(),
    {
        let ws = self.watchers@;
        let ws0 = start.watchers@;
        assert forall|x: int, i: int| 0 <= x < ws.len() && 0 <= i < ws[x]@.len() implies self.clauses@[
            #[trigger] ws[x]@[i] as int]@.len() > 0 && (x == lit_code(
            self.watch_lit(ws[x]@[i] as int, 0) as int,
        ) || x == lit_code(self.watch_lit(ws[x]@[i] as int, 1) as int)) by {
            let y = ws[x]@[i];
            if x == to && i == mid[to]@.len() {
                assert(y == c as usize);
            } else {
                assert(ws[x]@[i] == mid[x]@[i]);
                assert(mid[x]@.contains(y));
                assert(ws0[x]@.contains(y));
                let e = choose|e: int| 0 <= e < ws0[x]@.len() && ws0[x]@[e] == y;
                assert(start.clauses@[ws0[x]@[e] as int]@.len() > 0);
                assert(ws0[x]@[e] < start.clauses@.len());
                let d = y as int;
                if d != c {
                    assert(d < start.clauses@.len());
                    assert(self.watch_lit(d, 0) == start.watch_lit(d, 0));
                    assert(self.watch_lit(d, 1) == start.watch_lit(d, 1));
                } else {
                    if x == lit_code(false_lit as int) {
                        assert(other == false_lit);
                    }
                }
            }
        }
    }

    /// Moving the watch of clause `c` off the false literal onto a literal
    /// that is not false keeps every false watch supported.
    proof fn lemma_support_after_move(&self, start: Self, c: int, ko: int, other: i32, false_lit: i32)
        requires
            start.inv(),
            self.assignment == start.assignment,
            self.clauses == start.clauses,
            self.head == start.head,
            self.watched@.len() == start.watched@.len(),
            0 <= c < start.clauses@.len(),
            ko == 0 || ko == 1,
            forall|d: int|
                0 <= d < self.watched@.len() && d != c ==> #[trigger] self.watch_lit(d, 0)
                    == start.watch_lit(d, 0) && self.watch_lit(d, 1) == start.watch_lit(d, 1),
            start.watch_lit(c, ko) == other,
            start.watch_lit(c, 1 - ko) == false_lit,
            self.watch_lit(c, ko) == other,
            !self.assignment.lit_false(self.watch_lit(c, 1 - ko) as int),
            start.assignment.lit_false(false_lit as int),
            lit_in_range(false_lit, start.assignment.num_vars()),
        ensures
            self.watch_support(self.head as int),
    {
        assert forall|d: int, j: int|
            0 <= d < self.clauses@.len() && self.clauses@[d]@.len() > 0 && (j == 0 || j == 1)
                && self.assignment.lit_false(#[trigger] self.watch_lit(d, j) as int)
                && !self.assignment.assigned_since(self.watch_lit(d, j) as int, self.head as int) implies self.assignment.lit_true(
            self.watch_lit(d, 1 - j) as int,
        ) && self.assignment.lit_level(self.watch_lit(d, 1 - j) as int) <= self.assignment.lit_level(
            self.watch_lit(d, j) as int,
        ) by {
            if d != c {
                assert(self.watch_lit(d, 0) == start.watch_lit(d, 0));
                assert(self.watch_lit(d, 1) == start.watch_lit(d, 1));
                assert(start.assignment.lit_false(start.watch_lit(d, j) as int));
            } else if j == ko {
                assert(start.assignment.lit_false(start.watch_lit(c, ko) as int));
                assert(start.assignment.lit_true(start.watch_lit(c, 1 - ko) as int));
                assert(lit_in_range(false_lit, start.assignment.num_vars()));
            }
        }
    }

    /// Moves the watch of clause `c` that sits on the false literal
    /// `false_lit` (the first watch when `first`, else the second) to
    /// position `k`, whose literal is not false, and updates the index.
    #[verifier::rlimit(60)]
    fn move_watch(&mut self, c: usize, first: bool, k: usize, false_lit: i32)
        requires
            old(self).inv(),
            c < old(self).clauses@.len(),
            old(self).clauses@[c as int]@.len() > 0,
            k < old(self).clauses@[c as int]@.len(),
            k != old(self).watched@[c as int].0 && k != old(self).watched@[c as int].1,
            old(self).watch_lit(c as int, if first { 0 } else { 1 }) == false_lit,
            lit_in_range(false_lit, old(self).assignment.num_vars()),
            old(self).assignment.lit_false(false_lit as int),
            !old(self).assignment.lit_false(old(self).clauses@[c as int]@[k as int] as int),
        ensures
            final(self).inv(),
            final(self).clauses == old(self).clauses,
            final(self).assignment == old(self).assignment,
            final(self).num_loaded == old(self).num_loaded,
            final(self).problem == old(self).problem,
            final(self).head == old(self).head,
            forall|d: int|
                0 <= d < final(self).watched@.len() && d != c ==> #[trigger] final(self).watched@[d]
                    == old(self).watched@[d],
            final(self).watched@.len() == old(self).watched@.len(),
            final(self).watched@[c as int] == (if first {
                (k, old(self).watched@[c as int].1)
            } else {
                (old(self).watched@[c as int].0, k)
            }),
            !final(self).watches_false(c as int),
    {
        let ghost start = *self;
        let ghost n = self.assignment.num_vars();
        let ghost cl = self.clauses@[c as int]@;
        proof {
            assert(cl == clause_seqs(self.clauses@)[c as int]);
            assert(lit_in_range(cl[k as int], n));
        }
        let (w0, w1) = self.watched[c];
        let other = if first {
            self.clauses[c][w1]
        } else {
            self.clauses[c][w0]
        };
        let new_lit = self.clauses[c][k];
        if first {
            self.watched.set(c, (k, w1));
        } else {
            self.watched.set(c, (w0, k));
        }
        let ghost ws0 = self.watchers@;
        let from = lit_index(false_lit);
        if other != false_lit {
            let list = without(&self.watchers[from], c);
            self.watchers.set(from, list);
        }
        let ghost mid = self.watchers@;
        proof {
            assert forall|x: int, i: int| 0 <= x < mid.len() && 0 <= i < mid[x]@.len() implies #[trigger] mid[x]@[i]
                < self.clauses@.len() by {
                if x == from as int && other != false_lit {
                    assert(ws0[x]@.contains(mid[x]@[i]));
                } else {
                    assert(mid[x] == ws0[x]);
                }
            }
            assert forall|x: int, d: usize|
                0 <= x < mid.len() && #[trigger] ws0[x]@.contains(d) && (x != from as int || d != c
                    || other == false_lit) implies mid[x]@.contains(d) by {
                if x == from as int && other != false_lit {
                    let e = choose|e: int| 0 <= e < ws0[x]@.len() && ws0[x]@[e] == d;
                    assert(mid[x]@.contains(ws0[x]@[e]));
                } else {
                    assert(mid[x] == ws0[x]);
                }
            }
        }
        let to = lit_index(new_lit);
        let list = with(&self.watchers[to], c);
        self.watchers.set(to, list);
        proof {
            lemma_listed_after_push(mid, self.watchers@, to as int, c);
            assert forall|x: int, y: usize|
                0 <= x < mid.len() && #[trigger] mid[x]@.contains(y) implies ws0[x]@.contains(y) by {
                if x == from as int && other != false_lit {
                    let e = choose|e: int| 0 <= e < mid[x]@.len() && mid[x]@[e] == y;
                    assert(ws0[x]@.contains(mid[x]@[e]));
                } else {
                    assert(mid[x] == ws0[x]);
                }
            }
            if other != false_lit {
                assert(!mid[from as int]@.contains(c)) by {
                    if mid[from as int]@.contains(c) {
                        let e = choose|e: int| 0 <= e < mid[from as int]@.len() && mid[from as int]@[e] == c;
                    }
                }
            }
            assert forall|x: int, i: int|
                0 <= x < self.watchers@.len() && 0 <= i < self.watchers@[x]@.len() implies #[trigger] self.watchers@[x]@[i]
                < self.clauses@.len() by {
                if x == to as int {
                    if i < mid[x]@.len() {
                        assert(self.watchers@[x]@[i] == mid[x]@[i]);
                    }
                } else {
                    assert(self.watchers@[x] == mid[x]);
                }
            }
            assert forall|d: int|
                0 <= d < self.clauses@.len() && self.clauses@[d]@.len() > 0 implies (
                #[trigger] self.watched@[d]).0 < self.clauses@[d]@.len() && self.watched@[d].1
                < self.clauses@[d]@.len() by {
                if d != c {
                    assert(self.watched@[d] == start.watched@[d]);
                }
            }
            assert forall|d: int|
                0 <= d < self.clauses@.len() && self.clauses@[d]@.len() >= 2 implies (
                #[trigger] self.watched@[d]).0 != self.watched@[d].1 by {
                if d != c {
                    assert(self.watched@[d] == start.watched@[d]);
                }
            }
            assert forall|d: int| 0 <= d < self.watched@.len() && d != c implies #[trigger] self.watch_lit(d, 0)
                == start.watch_lit(d, 0) && self.watch_lit(d, 1) == start.watch_lit(d, 1) by {
                assert(self.watched@[d] == start.watched@[d]);
            }
            assert(mid.len() == ws0.len());
            assert forall|d: int|
                0 <= d < self.clauses@.len() && self.clauses@[d]@.len() > 0 implies self.watchers@[lit_code(
                #[trigger] self.watch_lit(d, 0) as int,
            )]@.contains(d as usize) && self.watchers@[lit_code(self.watch_lit(d, 1) as int)]@.contains(
                d as usize,
            ) by {
                let cs = clause_seqs(start.clauses@);
                assert(cs[d] == start.clauses@[d]@);
                assert(lit_in_range(cs[d][start.watched@[d].0 as int], n));
                assert(lit_in_range(cs[d][start.watched@[d].1 as int], n));
                if d != c {
                    assert(self.watch_lit(d, 0) == start.watch_lit(d, 0));
                    assert(self.watch_lit(d, 1) == start.watch_lit(d, 1));
                    let x0 = lit_code(start.watch_lit(d, 0) as int);
                    let x1 = lit_code(start.watch_lit(d, 1) as int);
                    assert(0 <= x0 < mid.len() && 0 <= x1 < mid.len());
                    assert(d as usize != c);
                    assert(ws0[x0]@.contains(d as usize));
                    assert(ws0[x1]@.contains(d as usize));
                    assert(mid[x0]@.contains(d as usize));
                    assert(mid[x1]@.contains(d as usize));
                } else {
                    let xo = lit_code(other as int);
                    if first {
                        assert(other == start.watch_lit(c as int, 1));
                        assert(self.watch_lit(c as int, 1) == other);
                        assert(self.watch_lit(c as int, 0) == new_lit);
                    } else {
                        assert(other == start.watch_lit(c as int, 0));
                        assert(self.watch_lit(c as int, 0) == other);
                        assert(self.watch_lit(c as int, 1) == new_lit);
                    }
                    assert(ws0[xo]@.contains(c));
                    if other != false_lit && xo == from as int {
                        assert(lit_in_range(other, n));
                        assert(other == false_lit);
                    }
                    assert(mid[xo]@.contains(c));
                    assert(self.watchers@[xo]@.contains(c));
                    assert(self.watchers@[to as int]@.contains(c));
                }
            }
            if first {
                assert(self.watch_lit(c as int, 0) == new_lit);
            } else {
                assert(self.watch_lit(c as int, 1) == new_lit);
            }
            if first {
                assert(start.watch_lit(c as int, 1) == other);
                assert(self.watch_lit(c as int, 1) == other);
                assert(self.watch_lit(c as int, 0) == new_lit);
            } else {
                assert(start.watch_lit(c as int, 0) == other);
                assert(self.watch_lit(c as int, 0) == other);
                assert(self.watch_lit(c as int, 1) == new_lit);
            }
            assert(lit_code(new_lit as int) == to as int);
            self.lemma_exact_after_move(start, c as int, from as int, to as int, mid, other, false_lit);
            assert(self.index_exact());
            assert(!self.watches_false(c as int));
            assert forall|d: int|
                0 <= d < self.clauses@.len() && self.clauses@[d]@.len() > 0 && #[trigger] self.watches_false(d)
                    implies self.watch_pending(d, self.head as int) by {
                if d != c {
                    assert(self.watch_lit(d, 0) == start.watch_lit(d, 0));
                    assert(self.watch_lit(d, 1) == start.watch_lit(d, 1));
                    assert(start.watches_false(d));
                    assert(start.watch_pending(d, start.head as int));
                }
            }
            assert forall|j: int|
                self.head <= j < self.assignment.trail@.len() implies #[trigger] self.assignment.level_at(j)
                == self.assignment.current_level by {
                assert(start.assignment.level_at(j) == start.assignment.current_level);
            }
            assert forall|d: int| 0 <= d < self.clauses@.len() implies strictly_sorted(#[trigger] self.clauses@[d]@) by {
                assert(strictly_sorted(start.clauses@[d]@));
            }
            let ko: int = if first { 1 } else { 0 };
            self.lemma_support_after_move(start, c as int, ko, other, false_lit);
            assert(self.watches_ok());
            assert(self.index_ok());
            assert(self.watch_inv(self.head as int));
            assert(self.pending_current(self.head as int));
            assert(self.activity_ok());
            assert(self.queue_ok());
        }
    }

    /// Handles clause `c` after its watched literal `false_lit` became false.
    /// If `c` does not watch `false_lit`, or its other watch is true, nothing
    /// changes. Otherwise, if some unwatched literal is not false, the watch on
    /// `false_lit` moves to the first such position, left to right. Otherwise,
    /// if the other watch is unset, the clause is unit: that literal is
    /// assigned true with `c` as reason. Otherwise `c` is falsified and
    /// reported.
    ///
    /// `next` is the queue position after the entry being propagated: unless
    /// the clause is reported, it ends with a watched literal that is not
    /// false or that was assigned at or after `next`.
    fn visit_clause(&mut self, c: usize, false_lit: i32, next: Ghost<int>) -> (r: Option<usize>)
        requires
            old(self).inv(),
            c < old(self).clauses@.len(),
            lit_in_range(false_lit, old(self).assignment.num_vars()),
            old(self).assignment.lit_false(false_lit as int),
            old(self).head <= next@ <= old(self).assignment.trail@.len(),
            old(self).clauses@[c as int]@.len() > 0 && old(self).watches_false(c as int)
                ==> old(self).watch_pending(c as int, next@) || old(self).watch_lit(c as int, 0)
                == false_lit || old(self).watch_lit(c as int, 1) == false_lit,
            old(self).assignment.lit_level(false_lit as int) == old(self).assignment.current_level,
            forall|j: int|
                old(self).clauses@[c as int]@.len() > 0 && (j == 0 || j == 1)
                    && old(self).assignment.lit_false(#[trigger] old(self).watch_lit(c as int, j) as int)
                    && !old(self).assignment.assigned_since(old(self).watch_lit(c as int, j) as int, next@)
                    ==> (old(self).assignment.lit_true(old(self).watch_lit(c as int, 1 - j) as int)
                    && old(self).assignment.lit_level(old(self).watch_lit(c as int, 1 - j) as int)
                    <= old(self).assignment.lit_level(old(self).watch_lit(c as int, j) as int))
                    || old(self).watch_lit(c as int, j) == false_lit,
        ensures
            forall|j: int|
                r is None && final(self).clauses@[c as int]@.len() > 0 && (j == 0 || j == 1)
                    && final(self).assignment.lit_false(#[trigger] final(self).watch_lit(c as int, j) as int)
                    && !final(self).assignment.assigned_since(final(self).watch_lit(c as int, j) as int, next@)
                    ==> final(self).assignment.lit_true(final(self).watch_lit(c as int, 1 - j) as int)
                    && final(self).assignment.lit_level(final(self).watch_lit(c as int, 1 - j) as int)
                    <= final(self).assignment.lit_level(final(self).watch_lit(c as int, j) as int),
            final(self).grows_from(*old(self)),
            forall|d: int|
                0 <= d < final(self).watched@.len() && d != c ==> #[trigger] final(self).watched@[d]
                    == old(self).watched@[d],
            r is None ==> (final(self).clauses@[c as int]@.len() > 0 && final(self).watches_false(
                c as int,
            ) ==> final(self).watch_pending(c as int, next@)),
            r matches Some(k) ==> k == c && final(self).assignment.clause_falsified(
                final(self).clauses@[c as int]@,
            ),
            !old(self).watches_lit(c as int, false_lit) || old(self).assignment.lit_true(
                old(self).clauses@[c as int]@[old(self).other_watch(c as int, false_lit)] as int,
            ) ==> (r is None || old(self).clauses@[c as int]@.len() == 0) && *final(self) == *old(
                self,
            ),
            old(self).watches_lit(c as int, false_lit) && !old(self).assignment.lit_true(
                old(self).clauses@[c as int]@[old(self).other_watch(c as int, false_lit)] as int,
            ) && (exists|k: int| old(self).free_position(c as int, k)) ==> r is None
                && final(self).assignment == old(self).assignment && exists|k: int|
                old(self).first_free_position(c as int, k) && final(self).watched@[c as int] == (
                if old(self).clauses@[c as int]@[old(self).watched@[c as int].0 as int]
                    == false_lit {
                    (k as usize, old(self).watched@[c as int].1)
                } else {
                    (old(self).watched@[c as int].0, k as usize)
                }),
            ({
                let other = old(self).clauses@[c as int]@[old(self).other_watch(c as int, false_lit)];
                old(self).watches_lit(c as int, false_lit) && old(self).assignment.lit_unset(
                    other as int,
                ) && (forall|k: int| !#[trigger] old(self).free_position(c as int, k)) ==> r is None
                    && final(self).assignment.trail@ == old(self).assignment.trail@.push(other)
                    && final(self).assignment.reasons@ == old(self).assignment.reasons@.update(
                    var_of(other as int) - 1,
                    Some(c),
                ) && final(self).assignment.lit_true(other as int) && final(self).watched
                    == old(self).watched
            }),
            old(self).watches_lit(c as int, false_lit) && old(self).assignment.lit_false(
                old(self).clauses@[c as int]@[old(self).other_watch(c as int, false_lit)] as int,
            ) && (forall|k: int| !#[trigger] old(self).free_position(c as int, k)) ==> r == Some(c)
                && *final(self) == *old(self),
    {
        let ghost start = *self;
        let ghost n = self.assignment.num_vars();
        let ghost cl = self.clauses@[c as int]@;
        proof {
            assert(cl == clause_seqs(self.clauses@)[c as int]);
            assert(self.assignment.trail@.take(self.assignment.trail@.len() as int)
                =~= self.assignment.trail@);
        }
        let len = self.clauses[c].len();
        if len == 0 {
            return Some(c);
        }
        let (w0, w1) = self.watched[c];
        let fw: usize;
        let ow: usize;
        if self.clauses[c][w0] == false_lit {
            fw = w0;
            ow = w1;
        } else if self.clauses[c][w1] == false_lit {
            fw = w1;
            ow = w0;
        } else {
            proof {
                assert(self.watch_lit(c as int, 0) != false_lit && self.watch_lit(c as int, 1) != false_lit);
            }
            return None;
        }
        let other = self.clauses[c][ow];
        proof {
            assert(lit_in_range(clause_seqs(self.clauses@)[c as int][ow as int], n));
            assert(ow as int == start.other_watch(c as int, false_lit));
            assert((fw == w0) == (cl[w0 as int] == false_lit));
            assert(start.watches_lit(c as int, false_lit));
        }
        if self.assignment.is_true(other) {
            proof {
                self.assignment.lemma_level_at_most_current(other as int);
                assert forall|j: int|
                    self.clauses@[c as int]@.len() > 0 && (j == 0 || j == 1) && self.assignment.lit_false(
                        #[trigger] self.watch_lit(c as int, j) as int,
                    ) && !self.assignment.assigned_since(self.watch_lit(c as int, j) as int, next@) implies self.assignment.lit_true(
                    self.watch_lit(c as int, 1 - j) as int,
                ) && self.assignment.lit_level(self.watch_lit(c as int, 1 - j) as int)
                    <= self.assignment.lit_level(self.watch_lit(c as int, j) as int) by {
                    if self.watch_lit(c as int, j) != false_lit {
                        assert(self.watch_lit(c as int, j) == other);
                    } else {
                        if self.watch_lit(c as int, 1 - j) != other {
                            assert(self.watch_lit(c as int, 1 - j) == false_lit);
                        }
                    }
                }
            }
            return None;
        }
        let mut k: usize = 0;
        while k < len
            invariant
                *self == start,
                self.inv(),
                cl == self.clauses@[c as int]@,
                cl == clause_seqs(self.clauses@)[c as int],
                n == self.assignment.num_vars(),
                c < self.clauses@.len(),
                len == cl.len(),
                0 <= k <= len,
                forall|q: int| 0 <= q < k && q != w0 && q != w1 ==> #[trigger] self.assignment.lit_false(cl[q] as int),
                (w0, w1) == start.watched@[c as int],
                forall|q: int| 0 <= q < k ==> !#[trigger] start.free_position(c as int, q),
            ensures
                *self == start,
                0 <= k <= len,
                forall|q: int| 0 <= q < k && q != w0 && q != w1 ==> #[trigger] self.assignment.lit_false(cl[q] as int),
                k < len ==> k != w0 && k != w1 && !self.assignment.lit_false(cl[k as int] as int),
                k < len ==> start.first_free_position(c as int, k as int),
                k == len ==> forall|q: int| !#[trigger] start.free_position(c as int, q),
            decreases len - k,
        {
            if k != w0 && k != w1 {
                proof {
                    assert(lit_in_range(cl[k as int], n));
                }
                if !self.assignment.is_false(self.clauses[c][k]) {
                    break;
                }
            }
            k = k + 1;
        }
        if k < len {
            proof {
                assert(lit_in_range(cl[k as int], n));
            }
            self.move_watch(c, fw == w0, k, false_lit);
            proof {
                // the watches are now `other` and the new literal, which is not false;
                // `other` differs from `false_lit`, so it was not false before `next`
                assert(w0 != w1) by {
                    if w0 == w1 {
                        assert(cl.len() >= 2);
                    }
                }
                assert(strictly_sorted(start.clauses@[c as int]@));
                assert(other != false_lit);
                assert forall|j: int|
                    self.clauses@[c as int]@.len() > 0 && (j == 0 || j == 1) && self.assignment.lit_false(
                        #[trigger] self.watch_lit(c as int, j) as int,
                    ) && !self.assignment.assigned_since(self.watch_lit(c as int, j) as int, next@) implies self.assignment.lit_true(
                    self.watch_lit(c as int, 1 - j) as int,
                ) && self.assignment.lit_level(self.watch_lit(c as int, 1 - j) as int)
                    <= self.assignment.lit_level(self.watch_lit(c as int, j) as int) by {
                    let jo: int = if fw == w0 { 1 } else { 0 };
                    assert(self.watch_lit(c as int, jo) == other);
                    assert(start.watch_lit(c as int, jo) == other);
                    assert(self.watch_lit(c as int, 1 - jo) == cl[k as int]);
                    assert(j == jo);
                    assert(start.assignment.lit_false(start.watch_lit(c as int, jo) as int));
                }
                assert(self.assignment.trail@.take(self.assignment.trail@.len() as int)
                    =~= self.assignment.trail@);
                assert(start.first_free_position(c as int, k as int));
                assert(self.watched@[c as int] == (if cl[w0 as int] == false_lit {
                    ((k as int) as usize, w1)
                } else {
                    (w0, (k as int) as usize)
                }));
            }
            return None;
        }
        proof {
            assert forall|q: int| 0 <= q < cl.len() && q != ow implies #[trigger] self.assignment.lit_false(
                cl[q] as int,
            ) by {
                if q == fw {
                } else if q == w0 || q == w1 {
                }
            }
        }
        if !self.assignment.contains(other) {
            proof {
                assert(cl.contains(cl[ow as int]));
                assert forall|q: int| 0 <= q < cl.len() && cl[q] != other implies #[trigger] self.assignment.lit_false(
                    cl[q] as int,
                ) by {
                    assert(q != ow);
                }
            }
            self.assign_implied(other, c);
            proof {
                start.assignment.lemma_level_at_most_current(false_lit as int);
                assert forall|j: int|
                    self.clauses@[c as int]@.len() > 0 && (j == 0 || j == 1) && self.assignment.lit_false(
                        #[trigger] self.watch_lit(c as int, j) as int,
                    ) && !self.assignment.assigned_since(self.watch_lit(c as int, j) as int, next@) implies self.assignment.lit_true(
                    self.watch_lit(c as int, 1 - j) as int,
                ) && self.assignment.lit_level(self.watch_lit(c as int, 1 - j) as int)
                    <= self.assignment.lit_level(self.watch_lit(c as int, j) as int) by {
                    assert(self.watch_lit(c as int, 0) == start.watch_lit(c as int, 0));
                    assert(self.watch_lit(c as int, 1) == start.watch_lit(c as int, 1));
                    if self.watch_lit(c as int, j) == other {
                        assert(self.assignment.lit_true(other as int));
                    } else {
                        assert(self.watch_lit(c as int, j) == false_lit);
                        assert(self.watch_lit(c as int, 1 - j) == other);
                        assert(lit_in_range(false_lit, n));
                        assert(self.assignment.levels@[var_of(other as int) - 1] == Some(self.assignment.current_level));
                        assert(var_of(other as int) != var_of(false_lit as int));
                    }
                }
                assert(self.watch_lit(c as int, 0) == other || self.watch_lit(c as int, 1) == other);
                assert(!self.assignment.lit_false(other as int));
            }
            return None;
        }
        proof {
            assert(!self.assignment.lit_true(other as int) && !self.assignment.lit_unset(other as int));
            assert(self.assignment.lit_false(cl[ow as int] as int));
        }
        Some(c)
    }

    /// With the queue drained, propagation is complete: a false watched
    /// literal has a true literal at its other watch, so no nonempty clause is
    /// falsified and no clause of two or more literals is unit.
    pub proof fn lemma_propagation_complete(&self)
        requires
            self.inv(),
            self.head == self.assignment.trail@.len(),
        ensures
            forall|c: int, k: int|
                0 <= c < self.clauses@.len() && self.clauses@[c]@.len() > 0 && (k == 0 || k == 1)
                    && self.assignment.lit_false(#[trigger] self.watch_lit(c, k) as int)
                    ==> self.assignment.lit_true(self.watch_lit(c, 1 - k) as int),
            forall|c: int|
                0 <= c < self.clauses@.len() && self.clauses@[c]@.len() > 0
                    ==> !self.assignment.clause_falsified(#[trigger] self.clauses@[c]@),
            forall|c: int, l: i32|
                0 <= c < self.clauses@.len() && self.clauses@[c]@.len() >= 2
                    ==> !#[trigger] self.assignment.clause_unit(self.clauses@[c]@, l),
    {
        let n = self.assignment.num_vars();
        assert forall|c: int, k: int|
            0 <= c < self.clauses@.len() && self.clauses@[c]@.len() > 0 && (k == 0 || k == 1)
                && self.assignment.lit_false(#[trigger] self.watch_lit(c, k) as int) implies self.assignment.lit_true(
            self.watch_lit(c, 1 - k) as int,
        ) by {
            if self.assignment.assigned_since(self.watch_lit(c, k) as int, self.head as int) {
                let j = choose|j: int| 0 <= j && self.head <= j < self.assignment.trail@.len()
                    && #[trigger] self.assignment.slot(j) == var_of(self.watch_lit(c, k) as int) - 1;
            }
        }
        assert forall|c: int|
            0 <= c < self.clauses@.len() && self.clauses@[c]@.len() > 0 implies !self.assignment.clause_falsified(
            #[trigger] self.clauses@[c]@,
        ) by {
            let cl = self.clauses@[c]@;
            let cs = clause_seqs(self.clauses@);
            assert(cs[c] == cl);
            assert(lit_in_range(cs[c][self.watched@[c].0 as int], n));
            assert(lit_in_range(cs[c][self.watched@[c].1 as int], n));
            if self.assignment.clause_falsified(cl) {
                assert(self.assignment.lit_false(cl[self.watched@[c].0 as int] as int));
                assert(self.assignment.lit_false(self.watch_lit(c, 0) as int));
                assert(self.assignment.lit_true(self.watch_lit(c, 1) as int));
                assert(self.assignment.lit_false(cl[self.watched@[c].1 as int] as int));
            }
        }
        assert forall|c: int, l: i32|
            0 <= c < self.clauses@.len() && self.clauses@[c]@.len() >= 2 implies !#[trigger] self.assignment.clause_unit(
            self.clauses@[c]@,
            l,
        ) by {
            let cl = self.clauses@[c]@;
            let cs = clause_seqs(self.clauses@);
            assert(cs[c] == cl);
            let p0 = self.watched@[c].0 as int;
            let p1 = self.watched@[c].1 as int;
            assert(lit_in_range(cs[c][p0], n));
            assert(lit_in_range(cs[c][p1], n));
            if self.assignment.clause_unit(cl, l) {
                assert(p0 != p1);
                assert(strictly_sorted(cl));
                assert(cl[p0] != cl[p1]);
                // a watch that is not l is false, and then the other watch is true
                if cl[p0] != l {
                    assert(self.assignment.lit_false(self.watch_lit(c, 0) as int));
                    assert(self.assignment.lit_true(cl[p1] as int));
                    if cl[p1] != l {
                        assert(self.assignment.lit_false(cl[p1] as int));
                    }
                } else {
                    assert(self.assignment.lit_false(self.watch_lit(c, 1) as int));
                    assert(self.assignment.lit_true(cl[p0] as int));
                }
            }
        }
    }

    /// Propagates the queue: takes the trail entries from the head on, in
    /// trail order, through the clauses that watch their negations. Returns a
    /// falsified clause if one is met; otherwise the queue ends empty.
    #[verifier::rlimit(100)]
    fn unit_prop_watched(&mut self) -> (r: Option<usize>)
        requires
            old(self).inv(),
        ensures
            final(self).inv(),
            final(self).clauses == old(self).clauses,
            final(self).num_loaded == old(self).num_loaded,
            final(self).problem == old(self).problem,
            final(self).assignment.num_vars() == old(self).assignment.num_vars(),
            final(self).assignment.current_level == old(self).assignment.current_level,
            search_progress(final(self).assignment) >= search_progress(old(self).assignment),
            old(self).assignment.extended_by_implications(final(self).assignment),
            r is None ==> final(self).head == final(self).assignment.trail@.len(),
            r is None ==> forall|c: int|
                0 <= c < final(self).clauses@.len() && final(self).clauses@[c]@.len() > 0
                    ==> !final(self).assignment.clause_falsified(#[trigger] final(self).clauses@[c]@),
            r is None ==> forall|c: int, l: i32|
                0 <= c < final(self).clauses@.len() && final(self).clauses@[c]@.len() >= 2
                    ==> !#[trigger] final(self).assignment.clause_unit(final(self).clauses@[c]@, l),
            r matches Some(c) ==> c < final(self).clauses@.len()
                && final(self).assignment.clause_falsified(final(self).clauses@[c as int]@),
    {
        let ghost start = *self;
        let ghost n = self.assignment.num_vars();
        proof {
            assert(self.assignment.trail@.take(self.assignment.trail@.len() as int)
                =~= self.assignment.trail@);
        }
        let mut h = self.head;
        while h < self.assignment.trail.len()
            invariant
                start == *old(self),
                self.grows_from(start),
                n == self.assignment.num_vars(),
                self.head <= h <= self.assignment.trail@.len(),
                self.watch_inv(h as int),
                self.watch_support(h as int),
            decreases n - h,
        {
            proof {
                self.assignment.lemma_trail_len();
            }
            let l = self.assignment.trail[h];
            proof {
                assert(lit_in_range(self.assignment.trail@[h as int], n));
                assert(self.assignment.slot(h as int) == var_of(l as int) - 1);
            }
            let neg = -l;
            let list = copied(&self.watchers[lit_index(neg)]);
            proof {
                assert forall|i: int| 0 <= i < list@.len() implies #[trigger] list@[i] < self.clauses@.len() by {
                    assert(self.watchers@[lit_code(neg as int)]@[i] < self.clauses@.len());
                }
                // a clause with both watches false waits for entry h or a later one
                assert forall|d: int|
                    0 <= d < self.clauses@.len() && self.clauses@[d]@.len() > 0 && #[trigger] self.watches_false(d)
                        implies self.watch_pending(d, h + 1) || (list@.skip(0).contains(d as usize) && (
                    self.watch_lit(d, 0) == neg || self.watch_lit(d, 1) == neg)) by {
                    assert(self.watch_pending(d, h as int));
                    assert(list@.skip(0) =~= list@);
                    let cs = clause_seqs(self.clauses@);
                    assert(cs[d] == self.clauses@[d]@);
                    assert(lit_in_range(cs[d][self.watched@[d].0 as int], n));
                    assert(lit_in_range(cs[d][self.watched@[d].1 as int], n));
                    if !self.watch_pending(d, h + 1) {
                        if self.assignment.assigned_since(self.watch_lit(d, 0) as int, h as int) {
                            let j = choose|j: int| 0 <= j && h <= j < self.assignment.trail@.len() && #[trigger] self.assignment.slot(j)
                                == var_of(self.watch_lit(d, 0) as int) - 1;
                            assert(j == h);
                            assert(self.watch_lit(d, 0) == neg);
                        } else {
                            let j = choose|j: int| 0 <= j && h <= j < self.assignment.trail@.len() && #[trigger] self.assignment.slot(j)
                                == var_of(self.watch_lit(d, 1) as int) - 1;
                            assert(j == h);
                            assert(self.watch_lit(d, 1) == neg);
                        }
                    }
                }
            }
            proof {
                assert forall|d: int, j: int|
                    0 <= d < self.clauses@.len() && self.clauses@[d]@.len() > 0 && (j == 0 || j == 1)
                        && self.assignment.lit_false(#[trigger] self.watch_lit(d, j) as int)
                        && !self.assignment.assigned_since(self.watch_lit(d, j) as int, h + 1) implies (
                    self.assignment.lit_true(self.watch_lit(d, 1 - j) as int) && self.assignment.lit_level(
                        self.watch_lit(d, 1 - j) as int,
                    ) <= self.assignment.lit_level(self.watch_lit(d, j) as int)) || (list@.skip(0).contains(
                    d as usize,
                ) && self.watch_lit(d, j) == neg) by {
                    assert(list@.skip(0) =~= list@);
                    let cs = clause_seqs(self.clauses@);
                    assert(cs[d] == self.clauses@[d]@);
                    assert(lit_in_range(cs[d][self.watched@[d].0 as int], n));
                    assert(lit_in_range(cs[d][self.watched@[d].1 as int], n));
                    if self.assignment.assigned_since(self.watch_lit(d, j) as int, h as int) {
                        let q = choose|q: int| 0 <= q && h <= q < self.assignment.trail@.len() && #[trigger] self.assignment.slot(q)
                            == var_of(self.watch_lit(d, j) as int) - 1;
                        assert(q == h);
                        assert(self.watch_lit(d, j) == neg);
                        assert(self.watchers@[lit_code(self.watch_lit(d, 0) as int)]@.contains(d as usize));
                        assert(self.watchers@[lit_code(self.watch_lit(d, 1) as int)]@.contains(d as usize));
                    }
                }
            }
            let mut i: usize = 0;
            while i < list.len()
                invariant
                    start == *old(self),
                    self.grows_from(start),
                    n == self.assignment.num_vars(),
                    self.head <= h < self.assignment.trail@.len(),
                    self.assignment.trail@[h as int] == l,
                    neg == -l,
                    lit_in_range(l, n),
                    forall|q: int| 0 <= q < list@.len() ==> #[trigger] list@[q] < self.clauses@.len(),
                    0 <= i <= list@.len(),
                    forall|d: int|
                        0 <= d < self.clauses@.len() && self.clauses@[d]@.len() > 0
                            && #[trigger] self.watches_false(d) ==> self.watch_pending(d, h + 1) || (
                        list@.skip(i as int).contains(d as usize) && (self.watch_lit(d, 0) == neg
                            || self.watch_lit(d, 1) == neg)),
                    forall|d: int, j: int|
                        0 <= d < self.clauses@.len() && self.clauses@[d]@.len() > 0 && (j == 0 || j == 1)
                            && self.assignment.lit_false(#[trigger] self.watch_lit(d, j) as int)
                            && !self.assignment.assigned_since(self.watch_lit(d, j) as int, h + 1) ==> (
                        self.assignment.lit_true(self.watch_lit(d, 1 - j) as int) && self.assignment.lit_level(
                            self.watch_lit(d, 1 - j) as int,
                        ) <= self.assignment.lit_level(self.watch_lit(d, j) as int)) || (list@.skip(
                            i as int,
                        ).contains(d as usize) && self.watch_lit(d, j) == neg),
                decreases list@.len() - i,
            {
                let ghost mid = *self;
                let c = list[i];
                proof {
                    assert(self.assignment.slot(h as int) == var_of(l as int) - 1);
                    assert(self.assignment.lit_false(neg as int));
                }
                proof {
                    assert(self.assignment.level_at(h as int) == self.assignment.current_level);
                    assert(self.assignment.lit_level(neg as int) == self.assignment.level_at(h as int));
                    assert forall|j: int|
                        self.clauses@[c as int]@.len() > 0 && (j == 0 || j == 1) && self.assignment.lit_false(
                            #[trigger] self.watch_lit(c as int, j) as int,
                        ) && !self.assignment.assigned_since(self.watch_lit(c as int, j) as int, h + 1) implies (
                        self.assignment.lit_true(self.watch_lit(c as int, 1 - j) as int)
                            && self.assignment.lit_level(self.watch_lit(c as int, 1 - j) as int)
                            <= self.assignment.lit_level(self.watch_lit(c as int, j) as int))
                        || self.watch_lit(c as int, j) == neg by {}
                }
                let found = self.visit_clause(c, neg, Ghost(h as int + 1));
                proof {
                    self.lemma_grows_trans(mid, start);
                    assert(self.assignment.trail@[h as int] == self.assignment.trail@.take(
                        mid.assignment.trail@.len() as int,
                    )[h as int]);
                }
                if found.is_some() {
                    return found;
                }
                proof {
                    assert forall|d: int, j: int|
                        0 <= d < self.clauses@.len() && self.clauses@[d]@.len() > 0 && (j == 0 || j == 1)
                            && self.assignment.lit_false(#[trigger] self.watch_lit(d, j) as int)
                            && !self.assignment.assigned_since(self.watch_lit(d, j) as int, h + 1) implies (
                        self.assignment.lit_true(self.watch_lit(d, 1 - j) as int) && self.assignment.lit_level(
                            self.watch_lit(d, 1 - j) as int,
                        ) <= self.assignment.lit_level(self.watch_lit(d, j) as int)) || (list@.skip(
                            i as int + 1,
                        ).contains(d as usize) && self.watch_lit(d, j) == neg) by {
                        if d != c as int {
                            let cs = clause_seqs(mid.clauses@);
                            assert(cs[d] == mid.clauses@[d]@);
                            assert(lit_in_range(cs[d][mid.watched@[d].0 as int], n));
                            assert(lit_in_range(cs[d][mid.watched@[d].1 as int], n));
                            let l = mid.watch_lit(d, j);
                            let o = mid.watch_lit(d, 1 - j);
                            assert(self.watch_lit(d, j) == l && self.watch_lit(d, 1 - j) == o);
                            mid.assignment.lemma_growth(self.assignment, l);
                            mid.assignment.lemma_growth(self.assignment, o);
                            if !mid.assignment.lit_false(l as int) {
                                let q = choose|q: int| 0 <= q && mid.assignment.trail@.len() <= q < self.assignment.trail@.len()
                                    && #[trigger] self.assignment.slot(q) == var_of(l as int) - 1;
                                assert(self.assignment.assigned_since(l as int, h + 1));
                            }
                            assert(!mid.assignment.assigned_since(l as int, h + 1));
                            if mid.assignment.lit_true(o as int) && mid.assignment.lit_level(o as int)
                                <= mid.assignment.lit_level(l as int) {
                                assert(mid.assignment.values@[var_of(o as int) - 1] is Some);
                                assert(mid.assignment.values@[var_of(l as int) - 1] is Some);
                            } else {
                                let e = choose|e: int| 0 <= e < list@.skip(i as int).len()
                                    && list@.skip(i as int)[e] == d as usize;
                                assert(list@.skip(i as int)[0] == c);
                                assert(d as usize != c);
                                assert(list@.skip(i as int + 1)[e - 1] == d as usize);
                            }
                        }
                    }
                    assert forall|d: int|
                        0 <= d < self.clauses@.len() && self.clauses@[d]@.len() > 0
                            && #[trigger] self.watches_false(d) implies self.watch_pending(d, h + 1) || (
                        list@.skip(i as int + 1).contains(d as usize) && (self.watch_lit(d, 0) == neg
                            || self.watch_lit(d, 1) == neg)) by {
                        if d != c as int {
                            self.lemma_watches_after_growth(mid, d);
                            if mid.watches_false(d) {
                                if !mid.watch_pending(d, h + 1) {
                                    let e = choose|e: int| 0 <= e < list@.skip(i as int).len()
                                        && list@.skip(i as int)[e] == d as usize;
                                    assert(list@.skip(i as int)[0] == c);
                                    assert(d as usize != c);
                                    assert(e != 0);
                                    assert(list@.skip(i as int + 1)[e - 1] == d as usize);
                                    assert(self.watch_lit(d, 0) == mid.watch_lit(d, 0));
                                    assert(self.watch_lit(d, 1) == mid.watch_lit(d, 1));
                                }
                            }
                        }
                    }
                }
                i = i + 1;
            }
            proof {
                assert forall|d: int|
                    0 <= d < self.clauses@.len() && self.clauses@[d]@.len() > 0 && #[trigger] self.watches_false(d)
                        implies self.watch_pending(d, h + 1) by {
                    assert(list@.skip(list@.len() as int).len() == 0);
                }
                assert forall|d: int, j: int|
                    0 <= d < self.clauses@.len() && self.clauses@[d]@.len() > 0 && (j == 0 || j == 1)
                        && self.assignment.lit_false(#[trigger] self.watch_lit(d, j) as int)
                        && !self.assignment.assigned_since(self.watch_lit(d, j) as int, h + 1) implies self.assignment.lit_true(
                    self.watch_lit(d, 1 - j) as int,
                ) && self.assignment.lit_level(self.watch_lit(d, 1 - j) as int) <= self.assignment.lit_level(
                    self.watch_lit(d, j) as int,
                ) by {
                    assert(list@.skip(list@.len() as int).len() == 0);
                }
            }
            h = h + 1;
        }
        let ghost before = *self;
        self.head = h;
        proof {
            before.lemma_structure_transfer(*self);
            assert forall|j: int|
                self.head <= j < self.assignment.trail@.len() implies #[trigger] self.assignment.level_at(j)
                == self.assignment.current_level by {}
        }
        proof {
            self.lemma_propagation_complete();
        }
        None
    }

    /// Assigns the literal of every unit clause. Returns a clause that is
    /// empty or falsified, if there is one; otherwise every clause is nonempty.
    fn assign_units(&mut self) -> (r: Option<usize>)
        requires
            old(self).inv(),
        ensures
            final(self).grows_from(*old(self)),
            final(self).watched == old(self).watched,
            r matches Some(c) ==> c < final(self).clauses@.len()
                && final(self).assignment.clause_falsified(final(self).clauses@[c as int]@),
            r is None ==> forall|c: int|
                0 <= c < final(self).clauses@.len() ==> #[trigger] final(self).clauses@[c]@.len() > 0,
    {
        let ghost start = *self;
        let ghost n = self.assignment.num_vars();
        proof {
            assert(self.assignment.trail@.take(self.assignment.trail@.len() as int)
                =~= self.assignment.trail@);
        }
        let mut c: usize = 0;
        while c < self.clauses.len()
            invariant
                start == *old(self),
                self.grows_from(start),
                self.watched == start.watched,
                n == self.assignment.num_vars(),
                0 <= c <= self.clauses@.len(),
                forall|d: int| 0 <= d < c ==> #[trigger] self.clauses@[d]@.len() > 0,
            decreases self.clauses@.len() - c,
        {
            let len = self.clauses[c].len();
            if len == 0 {
                return Some(c);
            }
            if len == 1 {
                let lit = self.clauses[c][0];
                proof {
                    assert(self.clauses@[c as int]@ == clause_seqs(self.clauses@)[c as int]);
                    assert(lit_in_range(clause_seqs(self.clauses@)[c as int][0], n));
                }
                if self.assignment.is_false(lit) {
                    return Some(c);
                }
                if !self.assignment.is_true(lit) {
                    let ghost mid = *self;
                    proof {
                        assert(self.clauses@[c as int]@.contains(lit));
                    }
                    self.assign_implied(lit, c);
                    proof {
                        self.lemma_grows_trans(mid, start);
                    }
                }
            }
            c = c + 1;
        }
        None
    }

    /// Learns from the falsified clause `conflict`: returns false when the
    /// problem is unsatisfiable, and changes nothing then. Otherwise the
    /// learned clause is stored with its watches (a literal that is not false
    /// first), its variables are bumped, the queue holds just the asserted
    /// literal, and the search measure grew.
    #[verifier::rlimit(60)]
    fn handle_conflict(&mut self, conflict: usize) -> (r: bool)
        requires
            old(self).inv(),
            conflict < old(self).clauses@.len(),
            old(self).assignment.clause_falsified(old(self).clauses@[conflict as int]@),
        ensures
            !r ==> !satisfiable(old(self).problem@) && *final(self) == *old(self),
            final(self).inv(),
            final(self).problem == old(self).problem,
            final(self).num_loaded == old(self).num_loaded,
            final(self).assignment.num_vars() == old(self).assignment.num_vars(),
            r ==> search_progress(final(self).assignment) > search_progress(old(self).assignment),
            r ==> final(self).clauses@.len() == old(self).clauses@.len() + 1,
            r ==> final(self).clauses@.take(old(self).clauses@.len() as int) == old(self).clauses@,
            r ==> final(self).clauses@.last()@.len() > 0,
    {
        let ghost start = *self;
        let ghost n = self.assignment.num_vars();
        let learned = learn(
            &mut self.clauses,
            &mut self.assignment,
            conflict,
            Ghost(self.problem@),
            Ghost(self.num_loaded as int),
        );
        match learned {
            None => false,
            Some(idx) => {
                let ghost cs = clause_seqs(self.clauses@);
                let ghost a0 = start.assignment;
                let ghost m = self.assignment.trail@.len() - 1;
                proof {
                    assert(self.clauses@[idx as int]@ == cs[idx as int]);
                    assert(self.clauses@[idx as int]@.contains(self.assignment.trail@.last()));
                }
                proof {
                    assert forall|i: int| 0 <= i < self.clauses@[idx as int]@.len() implies lit_in_range(
                        #[trigger] self.clauses@[idx as int]@[i],
                        n,
                    ) && !self.assignment.lit_unset(self.clauses@[idx as int]@[i] as int) by {
                        assert(lit_in_range(cs[idx as int][i], n));
                        let u = self.assignment.trail@.last();
                        if self.clauses@[idx as int]@[i] == u {
                            let t = self.assignment.trail@.len() - 1;
                            assert(lit_in_range(self.assignment.trail@[t], n));
                            assert(self.assignment.values@[self.assignment.slot(t)] is Some);
                        } else {
                            assert(self.assignment.lit_false(self.clauses@[idx as int]@[i] as int));
                        }
                    }
                }
                let (w0, w1) = learned_watches(&self.assignment, &self.clauses[idx]);
                let ghost wd0 = self.watched@;
                self.watched.push((w0, w1));
                proof {
                    assert(start.index_exact());
                    assert(index_exact_for(start.watchers@, start.clauses@, start.watched@));
                    assert forall|d: int| 0 <= d < idx implies #[trigger] self.watched@[d]
                        == start.watched@[d] && self.clauses@[d] == start.clauses@[d] by {
                        assert(self.clauses@[d] == self.clauses@.take(start.clauses@.len() as int)[d]);
                    }
                    lemma_exact_more_watched(
                        start.watchers@,
                        start.clauses@,
                        self.clauses@,
                        start.watched@,
                        self.watched@,
                        idx as int,
                    );
                }
                let first = self.clauses[idx][w0];
                let second = self.clauses[idx][w1];
                proof {
                    assert(lit_in_range(cs[idx as int][w0 as int], n));
                    assert(lit_in_range(cs[idx as int][w1 as int], n));
                }
                let ghost ws0 = self.watchers@;
                let code = lit_index(first);
                let list = with(&self.watchers[code], idx);
                self.watchers.set(code, list);
                let ghost ws1 = self.watchers@;
                proof {
                    lemma_listed_after_push(ws0, ws1, code as int, idx);
                    lemma_exact_after_push(ws0, ws1, code as int, idx, self.clauses@, self.watched@);
                }
                if w1 != w0 {
                    let code2 = lit_index(second);
                    let list = with(&self.watchers[code2], idx);
                    self.watchers.set(code2, list);
                    proof {
                        lemma_listed_after_push(ws1, self.watchers@, code2 as int, idx);
                        lemma_exact_after_push(ws1, self.watchers@, code2 as int, idx, self.clauses@, self.watched@);
                    }
                }
                proof {
                    assert(self.index_exact());
                }
                self.head = self.assignment.trail.len() - 1;
                proof {
                    let ws = self.watchers@;
                    assert(forall|x: int, d: usize| 0 <= x < ws0.len() && #[trigger] ws0[x]@.contains(d) ==> ws[x]@.contains(d));
                    assert(ws[lit_code(first as int)]@.contains(idx));
                    assert(ws[lit_code(second as int)]@.contains(idx));
                    assert forall|x: int, i: int|
                        0 <= x < self.watchers@.len() && 0 <= i < self.watchers@[x]@.len() implies #[trigger] self.watchers@[x]@[i]
                        < self.clauses@.len() by {
                        if i < ws0[x]@.len() && self.watchers@[x]@[i] == ws0[x]@[i] {
                        }
                    }
                    assert forall|d: int|
                        0 <= d < self.clauses@.len() && self.clauses@[d]@.len() > 0 implies (
                        #[trigger] self.watched@[d]).0 < self.clauses@[d]@.len() && self.watched@[d].1
                        < self.clauses@[d]@.len() by {
                        if d < idx {
                            assert(self.watched@[d] == start.watched@[d]);
                            assert(self.clauses@[d] == start.clauses@[d]);
                        }
                    }
                    // the index lists every clause under its watched literals
                    assert forall|d: int|
                        0 <= d < self.clauses@.len() && self.clauses@[d]@.len() > 0 implies self.watchers@[lit_code(
                        #[trigger] self.watch_lit(d, 0) as int,
                    )]@.contains(d as usize) && self.watchers@[lit_code(self.watch_lit(d, 1) as int)]@.contains(
                        d as usize,
                    ) by {
                        if d < idx {
                            assert(self.watched@[d] == start.watched@[d]);
                            assert(self.clauses@[d] == start.clauses@[d]);
                            assert(self.watch_lit(d, 0) == start.watch_lit(d, 0));
                            assert(self.watch_lit(d, 1) == start.watch_lit(d, 1));
                            let scs = clause_seqs(start.clauses@);
                            assert(scs[d] == start.clauses@[d]@);
                            assert(lit_in_range(scs[d][start.watched@[d].0 as int], n));
                            assert(lit_in_range(scs[d][start.watched@[d].1 as int], n));
                            let x0 = lit_code(start.watch_lit(d, 0) as int);
                            let x1 = lit_code(start.watch_lit(d, 1) as int);
                            assert(ws0 == start.watchers@);
                            assert(ws0[x0]@.contains(d as usize));
                            assert(ws0[x1]@.contains(d as usize));
                            assert(ws[x0]@.contains(d as usize));
                            assert(ws[x1]@.contains(d as usize));
                        } else {
                            assert(d == idx);
                            assert(self.watched@[d] == (w0, w1));
                            assert(self.watch_lit(d, 0) == first);
                            assert(self.watch_lit(d, 1) == second);
                        }
                    }
                    // entries kept by the backjump lie below the old queue head
                    assert(m <= start.head) by {
                        if m > start.head {
                            let j = start.head as int;
                            assert(a0.level_at(j) == a0.current_level);
                            assert(a0.level_at(j) <= self.assignment.current_level);
                        }
                    }
                    // two false watches: one of them is the asserted literal's variable
                    assert forall|d: int|
                        0 <= d < self.clauses@.len() && self.clauses@[d]@.len() > 0
                            && #[trigger] self.watches_false(d) implies self.watch_pending(d, m) by {
                        if d == idx {
                            let u = self.assignment.trail@.last();
                            assert(self.clauses@[d]@.contains(u));
                            let e = choose|e: int| 0 <= e < self.clauses@[d]@.len() && self.clauses@[d]@[e] == u;
                            assert(lit_in_range(cs[d][e], n));
                            assert(self.assignment.lit_true(u as int));
                            assert(!self.assignment.lit_false(self.clauses@[d]@[e] as int));
                        } else {
                            assert(self.watched@[d] == start.watched@[d]);
                            assert(self.clauses@[d] == start.clauses@[d]);
                            assert(self.watch_lit(d, 0) == start.watch_lit(d, 0));
                            assert(self.watch_lit(d, 1) == start.watch_lit(d, 1));
                            if !self.watch_pending(d, m) {
                                self.lemma_false_watch_kept(start, d, 0, m);
                                self.lemma_false_watch_kept(start, d, 1, m);
                                assert(start.watches_false(d));
                                assert(start.watch_pending(d, start.head as int));
                                self.lemma_pending_dropped(start, d, m);
                            }
                        }
                    }
                    assert forall|j: int|
                        self.head <= j < self.assignment.trail@.len() implies #[trigger] self.assignment.level_at(j)
                        == self.assignment.current_level by {}
                }
                proof {
                    assert(search_inv(cs, self.assignment, self.problem@, self.num_loaded as int));
                    assert forall|d: int| 0 <= d < self.clauses@.len() implies strictly_sorted(
                        #[trigger] self.clauses@[d]@,
                    ) by {
                        if d < idx {
                            assert(self.clauses@[d] == start.clauses@[d]);
                        }
                    }
                    assert forall|d: int, j: int|
                        0 <= d < self.clauses@.len() && self.clauses@[d]@.len() > 0 && (j == 0 || j == 1)
                            && self.assignment.lit_false(#[trigger] self.watch_lit(d, j) as int)
                            && !self.assignment.assigned_since(self.watch_lit(d, j) as int, m) implies self.assignment.lit_true(
                        self.watch_lit(d, 1 - j) as int,
                    ) && self.assignment.lit_level(self.watch_lit(d, 1 - j) as int) <= self.assignment.lit_level(
                        self.watch_lit(d, j) as int,
                    ) by {
                        if d < idx {
                            assert(self.watched@[d] == start.watched@[d]);
                            assert(self.clauses@[d] == start.clauses@[d]);
                            self.lemma_support_after_learn(start, d, j, m);
                        } else {
                            let cl = self.clauses@[idx as int]@;
                            let u = self.assignment.trail@.last();
                            assert(cl.contains(u));
                            let e = choose|e: int| 0 <= e < cl.len() && cl[e] == u;
                            assert(lit_in_range(cs[idx as int][e], n));
                            assert(self.assignment.lit_true(u as int));
                            assert(!self.assignment.lit_false(cl[e] as int));
                            assert(!self.assignment.lit_false(cl[w0 as int] as int));
                            assert(self.watch_lit(d, 0) == cl[w0 as int]);
                            assert(self.watch_lit(d, 1) == cl[w1 as int]);
                            assert(j == 1);
                            assert(cl.len() >= 2);
                            // the first watch is the asserted literal, on the current level
                            assert(cl[w0 as int] == u) by {
                                if cl[w0 as int] != u {
                                    assert(lit_in_range(cs[idx as int][w0 as int], n));
                                }
                            }
                            assert(lit_in_range(self.assignment.trail@[m], n));
                            assert(self.assignment.lit_level(u as int) == self.assignment.current_level);
                            if self.assignment.current_level != 0 {
                                let q = choose|q: int|
                                    0 <= q < cl.len() && cl[q] != u && self.assignment.lit_level(
                                        #[trigger] cl[q] as int,
                                    ) == self.assignment.current_level;
                                assert(q != w0);
                            }
                        }
                    }
                    assert(self.watch_support(self.head as int));
                    assert(self.watches_ok());
                    assert(self.activity_ok());
                    assert(self.head <= self.assignment.trail@.len());
                    assert(self.watch_inv(self.head as int));
                    assert(self.pending_current(self.head as int));
                    assert(self.index_ok());
                }
                self.bump_learned_clause(idx);
                true
            },
        }
    }

    /// After learning, a false watch of an earlier clause kept by the
    /// backjump keeps its support: its supporting literal lay on a level no
    /// higher, so the backjump kept it too.
    proof fn lemma_support_after_learn(&self, start: Self, d: int, k: int, m: int)
        requires
            start.inv(),
            self.assignment.store_wf(),
            self.assignment.num_vars() == start.assignment.num_vars(),
            m == self.assignment.trail@.len() - 1,
            0 <= m <= start.head,
            self.assignment.trail@.drop_last() == start.assignment.trail@.take(m),
            forall|j: int| 0 <= j < m ==> #[trigger] self.assignment.level_at(j) == start.assignment.level_at(j),
            forall|j: int| 0 <= j < m ==> #[trigger] start.assignment.level_at(j) <= self.assignment.current_level,
            forall|j: int|
                m <= j < start.assignment.trail@.len() ==> #[trigger] start.assignment.level_at(j)
                    > self.assignment.current_level,
            0 <= d < start.clauses@.len(),
            start.clauses@[d]@.len() > 0,
            self.clauses@[d] == start.clauses@[d],
            self.watched@[d] == start.watched@[d],
            k == 0 || k == 1,
            self.assignment.lit_false(self.watch_lit(d, k) as int),
            !self.assignment.assigned_since(self.watch_lit(d, k) as int, m),
        ensures
            self.assignment.lit_true(self.watch_lit(d, 1 - k) as int),
            self.assignment.lit_level(self.watch_lit(d, 1 - k) as int) <= self.assignment.lit_level(
                self.watch_lit(d, k) as int,
            ),
    {
        let n = start.assignment.num_vars();
        let sa = start.assignment;
        let na = self.assignment;
        let l = start.watch_lit(d, k);
        let o = start.watch_lit(d, 1 - k);
        assert(self.watch_lit(d, k) == l && self.watch_lit(d, 1 - k) == o);
        let cs = clause_seqs(start.clauses@);
        assert(cs[d] == start.clauses@[d]@);
        assert(lit_in_range(cs[d][start.watched@[d].0 as int], n));
        assert(lit_in_range(cs[d][start.watched@[d].1 as int], n));
        self.lemma_false_watch_kept(start, d, k, m);
        if sa.assigned_since(l as int, start.head as int) {
            let j = choose|j: int| 0 <= j < m && start.head <= j && #[trigger] sa.slot(j) == var_of(l as int) - 1;
        }
        assert(sa.lit_true(o as int) && sa.lit_level(o as int) <= sa.lit_level(l as int));
        // positions of l and o in the old trail
        let pl = choose|j: int| 0 <= j < sa.trail@.len() && #[trigger] sa.slot(j) == var_of(l as int) - 1;
        if pl >= m {
            assert(sa.assigned_since(l as int, m));
            let j = choose|j: int| 0 <= j < m && m <= j && #[trigger] sa.slot(j) == var_of(l as int) - 1;
        }
        assert(sa.values@[var_of(o as int) - 1] is Some);
        let po = choose|j: int| 0 <= j < sa.trail@.len() && #[trigger] sa.slot(j) == var_of(o as int) - 1;
        assert(sa.level_at(pl) <= na.current_level);
        assert(sa.level_at(po) == sa.lit_level(o as int));
        assert(po < m);
        assert(na.trail@[po] == na.trail@.drop_last()[po]);
        assert(na.trail@[pl] == na.trail@.drop_last()[pl]);
        assert(na.slot(po) == sa.slot(po));
        assert(na.slot(pl) == sa.slot(pl));
        assert(lit_in_range(sa.trail@[po], n));
        assert(na.level_at(po) == sa.level_at(po));
        assert(na.level_at(pl) == sa.level_at(pl));
    }

    /// After a backjump that kept `m` entries and pushed one more, a watched
    /// literal that is false and not assigned by the new entry was false
    /// before, by the same kept entry.
    proof fn lemma_false_watch_kept(&self, start: Self, d: int, k: int, m: int)
        requires
            start.inv(),
            self.assignment.store_wf(),
            self.assignment.num_vars() == start.assignment.num_vars(),
            m == self.assignment.trail@.len() - 1,
            0 <= m <= start.assignment.trail@.len(),
            self.assignment.trail@.drop_last() == start.assignment.trail@.take(m),
            0 <= d < start.clauses@.len(),
            start.clauses@[d]@.len() > 0,
            self.clauses@[d] == start.clauses@[d],
            self.watched@[d] == start.watched@[d],
            k == 0 || k == 1,
            self.assignment.lit_false(self.watch_lit(d, k) as int),
            !self.assignment.assigned_since(self.watch_lit(d, k) as int, m),
        ensures
            start.assignment.lit_false(start.watch_lit(d, k) as int),
            forall|h: int| #[trigger] start.assignment.assigned_since(start.watch_lit(d, k) as int, h) ==> exists|j: int|
                0 <= j < m && h <= j && #[trigger] start.assignment.slot(j) == var_of(start.watch_lit(d, k) as int) - 1,
    {
        let n = start.assignment.num_vars();
        let l = start.watch_lit(d, k);
        assert(self.watch_lit(d, k) == l);
        let cs = clause_seqs(start.clauses@);
        assert(cs[d] == start.clauses@[d]@);
        assert(lit_in_range(cs[d][start.watched@[d].0 as int], n));
        assert(lit_in_range(cs[d][start.watched@[d].1 as int], n));
        let v = var_of(l as int) - 1;
        assert(self.assignment.values@[v] is Some);
        let j = choose|j: int| 0 <= j < self.assignment.trail@.len() && #[trigger] self.assignment.slot(j) == v;
        assert(j < m);
        assert(self.assignment.trail@[j] == self.assignment.trail@.drop_last()[j]);
        assert(self.assignment.trail@[j] == start.assignment.trail@.take(m)[j]);
        assert(start.assignment.slot(j) == v);
        assert(lit_in_range(start.assignment.trail@[j], n));
        assert(lit_in_range(self.assignment.trail@[j], n));
        assert forall|h: int| #[trigger] start.assignment.assigned_since(l as int, h) implies exists|i: int|
            0 <= i < m && h <= i && #[trigger] start.assignment.slot(i) == v by {
            let i = choose|i: int| 0 <= i && h <= i < start.assignment.trail@.len() && #[trigger] start.assignment.slot(i) == v;
            if i != j {
                if i < j {
                    assert(start.assignment.slot(i) != start.assignment.slot(j));
                } else {
                    assert(start.assignment.slot(j) != start.assignment.slot(i));
                }
            }
        }
    }

    /// Watches whose assignments all lie among the `m` kept entries, below
    /// the old queue head, are not pending since that head.
    proof fn lemma_pending_dropped(&self, start: Self, d: int, m: int)
        requires
            start.inv(),
            m <= start.head,
            forall|h: int| #[trigger] start.assignment.assigned_since(start.watch_lit(d, 0) as int, h) ==> exists|j: int|
                0 <= j < m && h <= j && #[trigger] start.assignment.slot(j) == var_of(start.watch_lit(d, 0) as int) - 1,
            forall|h: int| #[trigger] start.assignment.assigned_since(start.watch_lit(d, 1) as int, h) ==> exists|j: int|
                0 <= j < m && h <= j && #[trigger] start.assignment.slot(j) == var_of(start.watch_lit(d, 1) as int) - 1,
        ensures
            !start.watch_pending(d, start.head as int),
    {
        if start.assignment.assigned_since(start.watch_lit(d, 0) as int, start.head as int) {
            let j = choose|j: int| 0 <= j < m && start.head <= j && #[trigger] start.assignment.slot(j) == var_of(start.watch_lit(d, 0) as int) - 1;
        }
        if start.assignment.assigned_since(start.watch_lit(d, 1) as int, start.head as int) {
            let j = choose|j: int| 0 <= j < m && start.head <= j && #[trigger] start.assignment.slot(j) == var_of(start.watch_lit(d, 1) as int) - 1;
        }
    }

    /// Opens the next level with the decision `lit`, queued for propagation.
    fn decide_literal(&mut self, lit: i32)
        requires
            old(self).inv(),
            old(self).head == old(self).assignment.trail@.len(),
            lit_in_range(lit, old(self).assignment.num_vars()),
            old(self).assignment.lit_unset(lit as int),
        ensures
            final(self).inv(),
            final(self).clauses == old(self).clauses,
            final(self).num_loaded == old(self).num_loaded,
            final(self).problem == old(self).problem,
            final(self).assignment.num_vars() == old(self).assignment.num_vars(),
            search_progress(final(self).assignment) > search_progress(old(self).assignment),
    {
        let ghost start = *self;
        let ghost pre = self.assignment;
        let ghost n = pre.num_vars();
        self.assignment.decide(lit);
        proof {
            start.lemma_structure_transfer(*self);
            assert(self.assignment.trail@.take(pre.trail@.len() as int) =~= pre.trail@);
            self.lemma_support_kept(start, start.head as int);
            lemma_progress_push(pre.level_seq(), self.assignment.current_level as int, n as nat);
            lemma_pw_monotone(n as nat + 1, 0, (n - self.assignment.current_level) as nat);
            assert(self.assignment.trail@.take(pre.trail@.len() as int) =~= pre.trail@);
            assert forall|d: int|
                0 <= d < self.clauses@.len() && self.clauses@[d]@.len() > 0 && #[trigger] self.watches_false(d)
                    implies self.watch_pending(d, self.head as int) by {
                self.lemma_watches_after_growth(start, d);
                if start.watches_false(d) {
                    assert(start.watch_pending(d, start.head as int));
                    assert(start.head == pre.trail@.len());
                    if start.assignment.assigned_since(start.watch_lit(d, 0) as int, start.head as int) {
                        let j = choose|j: int| 0 <= j && start.head <= j < pre.trail@.len() && #[trigger] pre.slot(j) == var_of(start.watch_lit(d, 0) as int) - 1;
                    } else {
                        let j = choose|j: int| 0 <= j && start.head <= j < pre.trail@.len() && #[trigger] pre.slot(j) == var_of(start.watch_lit(d, 1) as int) - 1;
                    }
                }
            }
            assert forall|j: int|
                self.head <= j < self.assignment.trail@.len() implies #[trigger] self.assignment.level_at(j)
                == self.assignment.current_level by {
                assert(j == pre.trail@.len());
                assert(self.assignment.level_seq()[j] == self.assignment.current_level);
            }
        }
    }

    /// Decides satisfiability of the problem. On `true` every stored clause,
    /// and so every clause of the problem, holds under the final assignment,
    /// and the queue is empty.
    pub fn solve_cdcl(&mut self) -> (r: bool)
        requires
            old(self).inv(),
        ensures
            final(self).inv(),
            final(self).problem == old(self).problem,
            r == satisfiable(old(self).problem@),
            r ==> forall|c: int|
                0 <= c < final(self).clauses@.len() ==> final(self).assignment.clause_satisfied(
                    #[trigger] final(self).clauses@[c]@,
                ),
            r ==> formula_holds(final(self).assignment.model(), old(self).problem@),
            r ==> final(self).head == final(self).assignment.trail@.len(),
            r ==> forall|v: int|
                0 <= v < final(self).assignment.num_vars()
                    ==> #[trigger] final(self).assignment.values@[v] is Some,
            r ==> forall|c: int|
                0 <= c < old(self).problem@.len() ==> final(self).assignment.clause_satisfied(
                    #[trigger] old(self).problem@[c],
                ),
            final(self).assignment.num_vars() == old(self).assignment.num_vars(),
            final(self).num_loaded == old(self).num_loaded,
            prefix_of(old(self).clauses@, final(self).clauses@),
    {
        let ghost problem = self.problem@;
        let ghost n = self.assignment.num_vars();
        let ghost c0 = self.clauses@;
        let ghost nl = self.num_loaded;
        proof {
            lemma_prefix_refl(c0);
        }
        // assign the unit clauses, learning from any conflict among them
        loop
            invariant
                self.inv(),
                self.problem@ == problem,
                problem == old(self).problem@,
                self.assignment.num_vars() == n,
                n == old(self).assignment.num_vars(),
                c0 == old(self).clauses@,
                nl == old(self).num_loaded,
                self.num_loaded == nl,
                prefix_of(c0, self.clauses@),
            ensures
                self.inv(),
                self.problem@ == problem,
                self.assignment.num_vars() == n,
                self.num_loaded == nl,
                prefix_of(c0, self.clauses@),
                forall|c: int| 0 <= c < self.clauses@.len() ==> #[trigger] self.clauses@[c]@.len() > 0,
            decreases progress_bound(n as nat) - search_progress(self.assignment),
        {
            proof {
                lemma_search_progress_bounded(self.assignment);
            }
            match self.assign_units() {
                Some(c) => {
                    let ghost before = self.clauses@;
                    if !self.handle_conflict(c) {
                        return false;
                    }
                    proof {
                        lemma_search_progress_bounded(self.assignment);
                        lemma_prefix_trans(c0, before, self.clauses@);
                    }
                },
                None => {
                    break ;
                },
            }
        }
        loop
            invariant
                self.inv(),
                self.problem@ == problem,
                problem == old(self).problem@,
                self.assignment.num_vars() == n,
                n == old(self).assignment.num_vars(),
                c0 == old(self).clauses@,
                nl == old(self).num_loaded,
                self.num_loaded == nl,
                prefix_of(c0, self.clauses@),
                forall|c: int| 0 <= c < self.clauses@.len() ==> #[trigger] self.clauses@[c]@.len() > 0,
            decreases progress_bound(n as nat) - search_progress(self.assignment),
        {
            proof {
                lemma_search_progress_bounded(self.assignment);
            }
            match self.unit_prop_watched() {
                None => {
                    match self.choose_unassigned_literal() {
                        Some(l) => {
                            self.decide_literal(l);
                            proof {
                                lemma_search_progress_bounded(self.assignment);
                            }
                        },
                        None => {
                            proof {
                                let a = self.assignment;
                                let cs = clause_seqs(self.clauses@);
                                assert forall|c: int| 0 <= c < cs.len() implies #[trigger] a.clause_satisfied(
                                    cs[c],
                                ) by {
                                    assert(self.clauses@[c]@ == cs[c]);
                                    assert(self.clauses@[c]@.len() > 0);
                                    let p0 = self.watched@[c].0 as int;
                                    let p1 = self.watched@[c].1 as int;
                                    assert(lit_in_range(cs[c][p0], n));
                                    assert(lit_in_range(cs[c][p1], n));
                                    assert(a.values@[var_of(cs[c][p0] as int) - 1] is Some);
                                    assert(a.values@[var_of(cs[c][p1] as int) - 1] is Some);
                                    if self.watches_false(c) {
                                        assert(self.watch_pending(c, self.head as int));
                                    }
                                    if !a.lit_false(cs[c][p0] as int) {
                                        assert(a.lit_true(cs[c][p0] as int));
                                    } else {
                                        assert(a.lit_true(cs[c][p1] as int));
                                    }
                                }
                                a.lemma_model_satisfies(cs);
                                assert forall|c: int| 0 <= c < self.clauses@.len() implies a.clause_satisfied(
                                    #[trigger] self.clauses@[c]@,
                                ) by {
                                    assert(cs[c] == self.clauses@[c]@);
                                }
                                let k = self.num_loaded as int;
                                assert(formula_holds(a.model(), cs.take(k)));
                                assert(formula_holds(a.model(), problem));
                                a.lemma_model_sets_clauses(problem);
                            }
                            return true;
                        },
                    }
                },
                Some(c) => {
                    let ghost before = self.clauses@;
                    if !self.handle_conflict(c) {
                        return false;
                    }
                    proof {
                        assert forall|d: int| 0 <= d < self.clauses@.len() implies #[trigger] self.clauses@[d]@.len() > 0 by {
                            if d < before.len() {
                                assert(self.clauses@[d] == self.clauses@.take(before.len() as int)[d]);
                            }
                        }
                        lemma_search_progress_bounded(self.assignment);
                        lemma_prefix_trans(c0, before, self.clauses@);
                    }
                },
            }
        }
    }
}

} // verus!
