use vstd::prelude::*;
use vstd::set_lib::{lemma_int_range, lemma_len_subset, set_int_range};
use crate::literal::{
    clause_holds, clauses_in_range, formula_holds, lit_holds, lit_in_range, satisfiable, var_index,
    var_of,
};

verus! {

/// The assignment store and the trail.
///
/// Per variable (indexed by `var - 1`): its value, the decision level at which
/// it was set, the clause that forced it (none for a decision), and its saved
/// phase. The trail lists the assigned literals in assignment order.
pub struct Assignment {
    pub values: Vec<Option<bool>>,
    pub levels: Vec<Option<u32>>,
    pub reasons: Vec<Option<usize>>,
    pub phases: Vec<bool>,
    pub trail: Vec<i32>,
    pub current_level: u32,
}

impl Assignment {
    pub open spec fn num_vars(&self) -> int {
        self.values@.len() as int
    }

    /// The slot (variable index) of trail entry `j`.
    pub open spec fn slot(&self, j: int) -> int {
        var_of(self.trail@[j] as int) - 1
    }

    /// The decision level of trail entry `j`.
    pub open spec fn level_at(&self, j: int) -> int {
        self.levels@[self.slot(j)].unwrap() as int
    }

    /// Trail entry `j` is a decision (it has no reason clause).
    pub open spec fn decision_at(&self, j: int) -> bool {
        self.reasons@[self.slot(j)] is None
    }

    pub open spec fn lit_true(&self, l: int) -> bool {
        self.values@[var_of(l) - 1] == Some(l > 0)
    }

    pub open spec fn lit_false(&self, l: int) -> bool {
        self.values@[var_of(l) - 1] == Some(l < 0)
    }

    pub open spec fn lit_unset(&self, l: int) -> bool {
        self.values@[var_of(l) - 1] is None
    }

    pub open spec fn lit_level(&self, l: int) -> int {
        self.levels@[var_of(l) - 1].unwrap() as int
    }

    /// Slot `v` is the variable of some trail entry.
    pub open spec fn on_trail(&self, v: int) -> bool {
        exists|j: int| 0 <= j < self.trail@.len() && #[trigger] self.slot(j) == v
    }

    /// The variable of literal `l` was assigned by trail entry `h` or a later one.
    pub open spec fn assigned_since(&self, l: int, h: int) -> bool {
        exists|j: int| 0 <= j && h <= j < self.trail@.len() && #[trigger] self.slot(j) == var_of(l) - 1
    }

    /// `later` extends this store by propagation: the trail grows by entries on
    /// the current level that all have a reason, and every variable assigned
    /// here keeps its value, level and reason.
    pub open spec fn extended_by_implications(&self, later: Self) -> bool {
        &&& later.num_vars() == self.num_vars()
        &&& later.current_level == self.current_level
        &&& self.trail@.len() <= later.trail@.len()
        &&& later.trail@.take(self.trail@.len() as int) == self.trail@
        &&& forall|v: int|
            0 <= v < self.num_vars() && #[trigger] self.values@[v] is Some ==> later.values@[v]
                == self.values@[v] && later.levels@[v] == self.levels@[v] && later.reasons@[v]
                == self.reasons@[v]
        &&& forall|j: int|
            self.trail@.len() <= j < later.trail@.len() ==> #[trigger] later.level_at(j)
                == later.current_level && later.reasons@[later.slot(j)] is Some
    }

    pub proof fn lemma_extension_refl(&self)
        ensures
            self.extended_by_implications(*self),
    {
        assert(self.trail@.take(self.trail@.len() as int) =~= self.trail@);
    }

    pub proof fn lemma_extension_trans(&self, mid: Self, later: Self)
        requires
            self.store_wf(),
            mid.store_wf(),
            self.extended_by_implications(mid),
            mid.extended_by_implications(later),
        ensures
            self.extended_by_implications(later),
    {
        let k = self.trail@.len() as int;
        let km = mid.trail@.len() as int;
        assert(later.trail@.take(k) =~= self.trail@) by {
            assert forall|i: int| 0 <= i < k implies later.trail@.take(k)[i] == self.trail@[i] by {
                assert(later.trail@.take(km)[i] == mid.trail@[i]);
                assert(mid.trail@.take(k)[i] == self.trail@[i]);
            }
        }
        assert forall|j: int| k <= j < later.trail@.len() implies #[trigger] later.level_at(j)
            == later.current_level && later.reasons@[later.slot(j)] is Some by {
            if j < km {
                assert(later.trail@.take(km)[j] == mid.trail@[j]);
                assert(later.slot(j) == mid.slot(j));
                assert(lit_in_range(mid.trail@[j], mid.num_vars()));
                assert(mid.values@[mid.slot(j)] is Some);
                assert(mid.level_at(j) == mid.current_level);
            }
        }
    }


    /// The level of entry `j` is the number of decisions up to and including it.
    pub open spec fn level_step(&self, j: int) -> bool {
        self.level_at(j) == (if j == 0 {
            0
        } else {
            self.level_at(j - 1)
        }) + (if self.decision_at(j) {
            1int
        } else {
            0int
        })
    }

    /// The store is consistent with its trail, apart from the current level.
    pub open spec fn store_wf(&self) -> bool {
        let n = self.num_vars();
        &&& n <= i32::MAX
        &&& self.levels@.len() == n
        &&& self.reasons@.len() == n
        &&& self.phases@.len() == n
        &&& forall|j: int|
            0 <= j < self.trail@.len() ==> {
                &&& lit_in_range(#[trigger] self.trail@[j], n)
                &&& self.values@[self.slot(j)] == Some(self.trail@[j] > 0)
                &&& self.levels@[self.slot(j)] is Some
            }
        &&& forall|i: int, j: int|
            0 <= i < j < self.trail@.len() ==> #[trigger] self.slot(i) != #[trigger] self.slot(j)
        &&& forall|v: int| 0 <= v < n ==> (#[trigger] self.values@[v] is Some <==> self.on_trail(v))
        &&& forall|v: int|
            0 <= v < n && #[trigger] self.values@[v] is None ==> self.levels@[v] is None
                && self.reasons@[v] is None
        &&& forall|j: int| 0 <= j < self.trail@.len() ==> #[trigger] self.level_step(j)
    }

    /// The current level is the level of the last trail entry (0 on an empty trail).
    pub open spec fn level_ok(&self) -> bool {
        self.current_level == (if self.trail@.len() == 0 {
            0
        } else {
            self.level_at(self.trail@.len() - 1)
        })
    }

    pub open spec fn wf(&self) -> bool {
        self.store_wf() && self.level_ok()
    }

    /// Literal `l` is false because its negation stands on the trail before entry `j`.
    pub open spec fn false_before(&self, l: int, j: int) -> bool {
        exists|i: int| 0 <= i < j && #[trigger] self.trail@[i] as int == -l
    }

    /// The reason of entry `j`, if any, is a clause of `cs` that contains the
    /// entry's literal and whose other literals were all false before it.
    pub open spec fn reason_sound(&self, cs: Seq<Seq<i32>>, j: int) -> bool {
        match self.reasons@[self.slot(j)] {
            None => true,
            Some(r) => {
                &&& r < cs.len()
                &&& cs[r as int].contains(self.trail@[j])
                &&& forall|i: int|
                    0 <= i < cs[r as int].len() && cs[r as int][i] != self.trail@[j]
                        ==> self.false_before(#[trigger] cs[r as int][i] as int, j)
            }
        }
    }

    pub open spec fn reasons_ok(&self, cs: Seq<Seq<i32>>) -> bool {
        forall|j: int| 0 <= j < self.trail@.len() ==> #[trigger] self.reason_sound(cs, j)
    }

    /// The levels of the trail entries, in trail order.
    pub open spec fn level_seq(&self) -> Seq<int> {
        Seq::new(self.trail@.len(), |j: int| self.level_at(j))
    }

    pub proof fn lemma_levels_monotone(&self, i: int, j: int)
        requires
            self.store_wf(),
            0 <= i <= j < self.trail@.len(),
        ensures
            self.level_at(i) <= self.level_at(j),
        decreases j - i,
    {
        if i < j {
            assert(self.level_step(j));
            self.lemma_levels_monotone(i, j - 1);
        }
    }

    pub proof fn lemma_level_bounded_by_index(&self, j: int)
        requires
            self.store_wf(),
            0 <= j < self.trail@.len(),
        ensures
            0 <= self.level_at(j) <= j + 1,
        decreases j,
    {
        assert(self.level_step(j));
        if j > 0 {
            self.lemma_level_bounded_by_index(j - 1);
        }
    }

    /// Every entry before a decision lies on a strictly lower level.
    pub proof fn lemma_decision_opens_level(&self, i: int, j: int)
        requires
            self.store_wf(),
            0 <= i < j < self.trail@.len(),
            self.decision_at(j),
        ensures
            self.level_at(i) < self.level_at(j),
    {
        assert(self.level_step(j));
        self.lemma_levels_monotone(i, j - 1);
    }

    /// The trail holds at most one entry per variable.
    pub proof fn lemma_trail_len(&self)
        requires
            self.store_wf(),
        ensures
            self.trail@.len() <= self.num_vars(),
            self.wf() ==> 0 <= self.current_level <= self.trail@.len(),
            (exists|v: int| 0 <= v < self.num_vars() && self.values@[v] is None)
                ==> self.trail@.len() < self.num_vars(),
    {
        let n = self.num_vars();
        let s = Seq::new(self.trail@.len(), |j: int| self.slot(j));
        assert(s.no_duplicates());
        s.unique_seq_to_set();
        lemma_int_range(0, n);
        assert(s.to_set().subset_of(set_int_range(0, n)));
        lemma_len_subset(s.to_set(), set_int_range(0, n));
        if exists|v: int| 0 <= v < self.num_vars() && self.values@[v] is None {
            let v = choose|v: int| 0 <= v < self.num_vars() && self.values@[v] is None;
            assert(s.to_set().subset_of(set_int_range(0, n).remove(v)));
            lemma_len_subset(s.to_set(), set_int_range(0, n).remove(v));
        }
        if self.trail@.len() > 0 {
            self.lemma_level_bounded_by_index(self.trail@.len() - 1);
        }
    }

    /// A false literal has its negation on the trail.
    pub proof fn lemma_false_lit_on_trail(&self, l: int)
        requires
            self.store_wf(),
            1 <= var_of(l) <= self.num_vars(),
            self.lit_false(l),
        ensures
            self.false_before(l, self.trail@.len() as int),
    {
        let v = var_of(l) - 1;
        assert(self.values@[v] is Some);
        let j = choose|j: int| 0 <= j < self.trail@.len() && #[trigger] self.slot(j) == v;
        assert(lit_in_range(self.trail@[j], self.num_vars()));
        assert(self.trail@[j] as int == -l);
    }

    /// Every level on the trail lies in `0..=current_level`, and the current
    /// level is at most the number of variables.
    pub proof fn lemma_levels_in_range(&self)
        requires
            self.wf(),
        ensures
            self.current_level <= self.trail@.len() <= self.num_vars(),
            forall|j: int|
                0 <= j < self.trail@.len() ==> 0 <= #[trigger] self.level_seq()[j]
                    <= self.current_level,
    {
        self.lemma_trail_len();
        assert forall|j: int| 0 <= j < self.trail@.len() implies 0 <= #[trigger] self.level_seq()[j]
            <= self.current_level by {
            self.lemma_level_bounded_by_index(j);
            self.lemma_levels_monotone(j, self.trail@.len() - 1);
        }
    }

    /// Under any assignment that satisfies `cs`, every trail entry of level 0
    /// holds: it was forced by a clause whose other literals were refuted earlier.
    pub proof fn lemma_level_zero_holds(&self, cs: Seq<Seq<i32>>, m: spec_fn(int) -> bool, j: int)
        requires
            self.store_wf(),
            self.reasons_ok(cs),
            formula_holds(m, cs),
            0 <= j < self.trail@.len(),
            self.level_at(j) == 0,
        ensures
            lit_holds(m, self.trail@[j] as int),
        decreases j,
    {
        assert(self.level_step(j));
        if j > 0 {
            self.lemma_levels_monotone(j - 1, j);
        }
        assert(self.reason_sound(cs, j));
        let r = self.reasons@[self.slot(j)].unwrap();
        let c = cs[r as int];
        assert(clause_holds(m, c));
        let i = choose|i: int| 0 <= i < c.len() && #[trigger] lit_holds(m, c[i] as int);
        if c[i] != self.trail@[j] {
            assert(self.false_before(c[i] as int, j));
            let k = choose|k: int| 0 <= k < j && #[trigger] self.trail@[k] as int == -(c[i] as int);
            self.lemma_levels_monotone(k, j);
            self.lemma_level_zero_holds(cs, m, k);
        }
    }

    /// A clause of `cs` whose literals are all false at level 0 makes `cs` unsatisfiable.
    pub proof fn lemma_level_zero_conflict(&self, cs: Seq<Seq<i32>>, c: int)
        requires
            self.store_wf(),
            self.reasons_ok(cs),
            0 <= c < cs.len(),
            forall|i: int|
                0 <= i < cs[c].len() ==> lit_in_range(#[trigger] cs[c][i], self.num_vars())
                    && self.lit_false(cs[c][i] as int) && self.lit_level(cs[c][i] as int) == 0,
        ensures
            !satisfiable(cs),
    {
        if satisfiable(cs) {
            let m = choose|m: spec_fn(int) -> bool| formula_holds(m, cs);
            assert(clause_holds(m, cs[c]));
            let i = choose|i: int| 0 <= i < cs[c].len() && #[trigger] lit_holds(m, cs[c][i] as int);
            let x = cs[c][i] as int;
            assert(lit_in_range(cs[c][i], self.num_vars()));
            self.lemma_false_lit_on_trail(x);
            let k = choose|k: int|
                0 <= k < self.trail@.len() && #[trigger] self.trail@[k] as int == -x;
            assert(self.slot(k) == var_of(x) - 1);
            self.lemma_level_zero_holds(cs, m, k);
        }
    }

    /// Appending clauses keeps every reason sound.
    pub proof fn lemma_reasons_ok_extend(&self, cs: Seq<Seq<i32>>, ds: Seq<Seq<i32>>)
        requires
            self.reasons_ok(cs),
            cs.len() <= ds.len(),
            ds.take(cs.len() as int) == cs,
        ensures
            self.reasons_ok(ds),
    {
        assert forall|j: int| 0 <= j < self.trail@.len() implies #[trigger] self.reason_sound(ds, j) by {
            assert(self.reason_sound(cs, j));
            match self.reasons@[self.slot(j)] {
                None => {},
                Some(r) => {
                    assert(ds[r as int] == ds.take(cs.len() as int)[r as int]);
                },
            }
        }
    }


    /// Some literal of the clause is true.
    pub open spec fn clause_satisfied(&self, c: Seq<i32>) -> bool {
        exists|i: int| 0 <= i < c.len() && #[trigger] self.lit_true(c[i] as int)
    }

    /// Every literal of the clause is false.
    pub open spec fn clause_falsified(&self, c: Seq<i32>) -> bool {
        forall|i: int| 0 <= i < c.len() ==> #[trigger] self.lit_false(c[i] as int)
    }

    /// The clause is unit on `l`: `l` is one of its literals and unset, and
    /// every other literal is false.
    pub open spec fn clause_unit(&self, c: Seq<i32>, l: i32) -> bool {
        &&& c.contains(l)
        &&& self.lit_unset(l as int)
        &&& forall|i: int| 0 <= i < c.len() && c[i] != l ==> #[trigger] self.lit_false(c[i] as int)
    }

    /// The total assignment read off the store: unset variables count as false.
    pub open spec fn model(&self) -> spec_fn(int) -> bool {
        |v: int| 1 <= v <= self.num_vars() && self.values@[v - 1] == Some(true)
    }

    /// Clauses satisfied by the store hold under its model.
    pub proof fn lemma_model_satisfies(&self, cs: Seq<Seq<i32>>)
        requires
            clauses_in_range(cs, self.num_vars()),
            forall|c: int| 0 <= c < cs.len() ==> #[trigger] self.clause_satisfied(cs[c]),
        ensures
            formula_holds(self.model(), cs),
    {
        assert forall|c: int| 0 <= c < cs.len() implies #[trigger] clause_holds(self.model(), cs[c]) by {
            assert(self.clause_satisfied(cs[c]));
            let i = choose|i: int| 0 <= i < cs[c].len() && #[trigger] self.lit_true(cs[c][i] as int);
            assert(lit_in_range(cs[c][i], self.num_vars()));
            assert(lit_holds(self.model(), cs[c][i] as int));
        }
    }


    /// When the trail only grows, false literals stay false, a literal that
    /// became false was assigned by a new entry, and assignments since an
    /// entry stay so.
    pub proof fn lemma_growth(&self, later: Self, l: i32)
        requires
            self.store_wf(),
            later.store_wf(),
            later.num_vars() == self.num_vars(),
            self.trail@.len() <= later.trail@.len(),
            later.trail@.take(self.trail@.len() as int) == self.trail@,
            lit_in_range(l, self.num_vars()),
        ensures
            self.lit_false(l as int) ==> later.lit_false(l as int),
            later.lit_false(l as int) && !self.lit_false(l as int) ==> later.assigned_since(
                l as int,
                self.trail@.len() as int,
            ),
            forall|h: int| #[trigger] self.assigned_since(l as int, h) ==> later.assigned_since(l as int, h),
    {
        let v = var_of(l as int) - 1;
        let n0 = self.trail@.len() as int;
        assert forall|j: int| 0 <= j < n0 implies #[trigger] later.slot(j) == self.slot(j)
            && later.trail@[j] == self.trail@[j] by {
            assert(later.trail@.take(n0)[j] == self.trail@[j]);
        }
        if self.lit_false(l as int) {
            assert(self.values@[v] is Some);
            let j = choose|j: int| 0 <= j < n0 && #[trigger] self.slot(j) == v;
            assert(later.slot(j) == v);
            assert(lit_in_range(self.trail@[j], self.num_vars()));
        }
        if later.lit_false(l as int) && !self.lit_false(l as int) {
            assert(later.values@[v] is Some);
            let j = choose|j: int| 0 <= j < later.trail@.len() && #[trigger] later.slot(j) == v;
            if j < n0 {
                assert(self.slot(j) == v);
                assert(lit_in_range(later.trail@[j], self.num_vars()));
                assert(self.values@[v] == later.values@[v]);
            }
        }
        assert forall|h: int| #[trigger] self.assigned_since(l as int, h) implies later.assigned_since(
            l as int,
            h,
        ) by {
            let j = choose|j: int| 0 <= j && h <= j < n0 && #[trigger] self.slot(j) == v;
            assert(later.slot(j) == v);
        }
    }


    /// With every variable set, a formula that holds under the model has a
    /// true literal in each clause.
    pub proof fn lemma_model_sets_clauses(&self, cs: Seq<Seq<i32>>)
        requires
            clauses_in_range(cs, self.num_vars()),
            forall|v: int| 0 <= v < self.num_vars() ==> #[trigger] self.values@[v] is Some,
            formula_holds(self.model(), cs),
        ensures
            forall|c: int| 0 <= c < cs.len() ==> #[trigger] self.clause_satisfied(cs[c]),
    {
        assert forall|c: int| 0 <= c < cs.len() implies #[trigger] self.clause_satisfied(cs[c]) by {
            assert(clause_holds(self.model(), cs[c]));
            let i = choose|i: int| 0 <= i < cs[c].len() && #[trigger] lit_holds(self.model(), cs[c][i] as int);
            assert(lit_in_range(cs[c][i], self.num_vars()));
            let l = cs[c][i] as int;
            let v = var_of(l) - 1;
            assert(self.values@[v] is Some);
            if l > 0 {
                assert((self.model())(l));
                assert(self.values@[l - 1] == Some(true));
            } else {
                assert(!(self.model())(-l));
                assert(self.values@[-l - 1] != Some(true));
                let b = self.values@[v].unwrap();
                assert(self.values@[v] == Some(b));
                assert(!b);
            }
            assert(self.lit_true(l));
        }
    }


    /// An assigned literal lies on the current level or below.
    pub proof fn lemma_level_at_most_current(&self, l: int)
        requires
            self.wf(),
            1 <= var_of(l) <= self.num_vars(),
            !self.lit_unset(l),
        ensures
            self.lit_level(l) <= self.current_level,
    {
        let v = var_of(l) - 1;
        assert(self.values@[v] is Some);
        let j = choose|j: int| 0 <= j < self.trail@.len() && #[trigger] self.slot(j) == v;
        self.lemma_levels_in_range();
        assert(self.level_seq()[j] == self.level_at(j));
    }


    /// An empty store for `n` variables; every phase starts out true.
    pub fn new(n: usize) -> (r: Self)
        requires
            n <= i32::MAX,
        ensures
            r.wf(),
            r.num_vars() == n,
            r.trail@.len() == 0,
            forall|v: int| 0 <= v < n ==> #[trigger] r.values@[v] is None && r.phases@[v],
    {
        let mut values: Vec<Option<bool>> = Vec::new();
        let mut levels: Vec<Option<u32>> = Vec::new();
        let mut reasons: Vec<Option<usize>> = Vec::new();
        let mut phases: Vec<bool> = Vec::new();
        let mut i: usize = 0;
        while i < n
            invariant
                i <= n,
                values@.len() == i && levels@.len() == i && reasons@.len() == i
                    && phases@.len() == i,
                forall|v: int|
                    0 <= v < i ==> #[trigger] values@[v] is None && levels@[v] is None
                        && reasons@[v] is None && phases@[v],
            decreases n - i,
        {
            values.push(None);
            levels.push(None);
            reasons.push(None);
            phases.push(true);
            i = i + 1;
        }
        Assignment { values, levels, reasons, phases, trail: Vec::new(), current_level: 0 }
    }

    /// The value of a literal: `Some(true)`, `Some(false)`, or `None` when unset.
    /// Records `lit` as true at level `level` with the given reason.
    fn record(&mut self, lit: i32, level: u32, reason: Option<usize>)
        requires
            old(self).wf(),
            lit_in_range(lit, old(self).num_vars()),
            old(self).lit_unset(lit as int),
            level == old(self).current_level + (if reason is None {
                1int
            } else {
                0int
            }),
        ensures
            final(self).wf(),
            final(self).num_vars() == old(self).num_vars(),
            final(self).trail@ == old(self).trail@.push(lit),
            final(self).current_level == level,
            final(self).values@ == old(self).values@.update(var_of(lit as int) - 1, Some(lit > 0)),
            final(self).levels@ == old(self).levels@.update(var_of(lit as int) - 1, Some(level)),
            final(self).reasons@ == old(self).reasons@.update(var_of(lit as int) - 1, reason),
            final(self).phases@ == old(self).phases@.update(var_of(lit as int) - 1, lit > 0),
            final(self).level_seq() == old(self).level_seq().push(level as int),
            forall|j: int|
                0 <= j < old(self).trail@.len() ==> #[trigger] final(self).slot(j) == old(self).slot(
                    j,
                ) && final(self).level_at(j) == old(self).level_at(j) && final(self).decision_at(j)
                    == old(self).decision_at(j),
    {
        let ghost pre = *self;
        let v = var_index(lit);
        self.values.set(v, Some(lit > 0));
        self.levels.set(v, Some(level));
        self.reasons.set(v, reason);
        self.phases.set(v, lit > 0);
        self.trail.push(lit);
        self.current_level = level;
        proof {
            let len = pre.trail@.len() as int;
            assert forall|j: int| 0 <= j < len implies #[trigger] pre.slot(j) != v as int by {
                if pre.slot(j) == v as int {
                    assert(pre.values@[pre.slot(j)] is Some);
                }
            }
            assert forall|j: int| 0 <= j < len implies #[trigger] self.slot(j) == pre.slot(j)
                && self.level_at(j) == pre.level_at(j) && self.decision_at(j) == pre.decision_at(
                j,
            ) by {
                assert(self.trail@[j] == pre.trail@[j]);
                assert(pre.slot(j) != v as int);
            }
            assert(self.slot(len) == v as int);
            assert forall|u: int| 0 <= u < self.num_vars() implies (#[trigger] self.values@[u] is Some
                <==> self.on_trail(u)) by {
                if u == v as int {
                    assert(self.slot(len) == u);
                } else {
                    if pre.on_trail(u) {
                        let j = choose|j: int| 0 <= j < len && #[trigger] pre.slot(j) == u;
                        assert(self.slot(j) == u);
                    }
                    if self.on_trail(u) {
                        let j = choose|j: int| 0 <= j < len + 1 && #[trigger] self.slot(j) == u;
                        assert(j < len);
                        assert(pre.slot(j) == u);
                    }
                }
            }
            assert forall|j: int| 0 <= j < len + 1 implies #[trigger] self.level_step(j) by {
                if j < len {
                    assert(pre.level_step(j));
                    if j > 0 {
                        assert(self.level_at(j - 1) == pre.level_at(j - 1));
                    }
                } else if j > 0 {
                    assert(self.level_at(j - 1) == pre.level_at(j - 1));
                }
            }
            assert forall|j: int| 0 <= j < len + 1 implies {
                &&& lit_in_range(#[trigger] self.trail@[j], self.num_vars())
                &&& self.values@[self.slot(j)] == Some(self.trail@[j] > 0)
                &&& self.levels@[self.slot(j)] is Some
            } by {
                if j < len {
                    assert(self.trail@[j] == pre.trail@[j]);
                    assert(pre.slot(j) != v as int);
                }
            }
            assert forall|i: int, j: int| 0 <= i < j < len + 1 implies #[trigger] self.slot(i)
                != #[trigger] self.slot(j) by {
                if j < len {
                    assert(self.slot(i) == pre.slot(i));
                    assert(self.slot(j) == pre.slot(j));
                } else {
                    assert(self.slot(i) == pre.slot(i));
                }
            }
            assert(self.level_seq() =~= pre.level_seq().push(level as int));
        }
    }

    /// Records a decision: opens the next level and sets `lit` true there.
    pub fn decide(&mut self, lit: i32)
        requires
            old(self).wf(),
            lit_in_range(lit, old(self).num_vars()),
            old(self).lit_unset(lit as int),
        ensures
            final(self).wf(),
            final(self).num_vars() == old(self).num_vars(),
            final(self).trail@ == old(self).trail@.push(lit),
            final(self).current_level == old(self).current_level + 1,
            final(self).values@ == old(self).values@.update(var_of(lit as int) - 1, Some(lit > 0)),
            final(self).levels@ == old(self).levels@.update(
                var_of(lit as int) - 1,
                Some(final(self).current_level),
            ),
            final(self).reasons@ == old(self).reasons@.update(var_of(lit as int) - 1, None),
            final(self).phases@ == old(self).phases@.update(var_of(lit as int) - 1, lit > 0),
            final(self).level_seq() == old(self).level_seq().push(
                final(self).current_level as int,
            ),
            forall|cs: Seq<Seq<i32>>| #[trigger]
                old(self).reasons_ok(cs) ==> final(self).reasons_ok(cs),
    {
        proof {
            self.lemma_trail_len();
        }
        let ghost pre = *self;
        self.record(lit, self.current_level + 1, None);
        proof {
            assert(self.trail@.take(pre.trail@.len() as int) =~= pre.trail@);
            assert forall|cs: Seq<Seq<i32>>| #[trigger]
                pre.reasons_ok(cs) implies self.reasons_ok(cs) by {
                self.lemma_push_keeps_reasons(pre, cs);
            }
        }
    }

    /// Records a propagated literal: `lit` is true at the current level, forced by
    /// clause `reason`, whose other literals are all false.
    pub fn imply(&mut self, lit: i32, reason: usize, clauses: &Vec<Vec<i32>>)
        requires
            old(self).wf(),
            lit_in_range(lit, old(self).num_vars()),
            old(self).lit_unset(lit as int),
            clauses_in_range(clauses@.map_values(|c: Vec<i32>| c@), old(self).num_vars()),
            reason < clauses@.len(),
            clauses@[reason as int]@.contains(lit),
            forall|i: int|
                0 <= i < clauses@[reason as int]@.len() && clauses@[reason as int]@[i] != lit
                    ==> old(self).lit_false(#[trigger] clauses@[reason as int]@[i] as int),
        ensures
            final(self).wf(),
            final(self).num_vars() == old(self).num_vars(),
            final(self).trail@ == old(self).trail@.push(lit),
            final(self).current_level == old(self).current_level,
            final(self).values@ == old(self).values@.update(var_of(lit as int) - 1, Some(lit > 0)),
            final(self).levels@ == old(self).levels@.update(
                var_of(lit as int) - 1,
                Some(final(self).current_level),
            ),
            final(self).reasons@ == old(self).reasons@.update(var_of(lit as int) - 1, Some(reason)),
            final(self).phases@ == old(self).phases@.update(var_of(lit as int) - 1, lit > 0),
            final(self).level_seq() == old(self).level_seq().push(
                final(self).current_level as int,
            ),
            old(self).reasons_ok(clauses@.map_values(|c: Vec<i32>| c@)) ==> final(self).reasons_ok(
                clauses@.map_values(|c: Vec<i32>| c@),
            ),
            old(self).extended_by_implications(*final(self)),
    {
        let ghost pre = *self;
        let ghost cs = clauses@.map_values(|c: Vec<i32>| c@);
        self.record(lit, self.current_level, Some(reason));
        proof {
            if pre.reasons_ok(cs) {
                assert(self.trail@.take(pre.trail@.len() as int) =~= pre.trail@);
                self.lemma_push_keeps_reasons(pre, cs);
                let len = pre.trail@.len() as int;
                let c = cs[reason as int];
                assert(c == clauses@[reason as int]@);
                assert forall|i: int| 0 <= i < c.len() && c[i] != self.trail@[len] implies self.false_before(
                    #[trigger] c[i] as int,
                    len,
                ) by {
                    assert(lit_in_range(cs[reason as int][i], pre.num_vars()));
                    pre.lemma_false_lit_on_trail(c[i] as int);
                    let k = choose|k: int| 0 <= k < len && #[trigger] pre.trail@[k] as int == -(c[i] as int);
                    assert(self.trail@[k] == pre.trail@[k]);
                }
                assert(self.reason_sound(cs, len));
            }
            let len = pre.trail@.len() as int;
            assert(self.trail@.take(len) =~= pre.trail@);
            assert(self.slot(len) == var_of(lit as int) - 1);
            assert(self.level_seq()[len] == self.current_level);
        }
    }

    /// After one entry is pushed, the reasons of the earlier entries stay sound.
    proof fn lemma_push_keeps_reasons(&self, pre: Self, cs: Seq<Seq<i32>>)
        requires
            pre.reasons_ok(cs),
            self.trail@.len() == pre.trail@.len() + 1,
            self.trail@.take(pre.trail@.len() as int) == pre.trail@,
            forall|j: int|
                0 <= j < pre.trail@.len() ==> #[trigger] self.slot(j) == pre.slot(j)
                    && self.reasons@[self.slot(j)] == pre.reasons@[pre.slot(j)],
        ensures
            forall|j: int| 0 <= j < pre.trail@.len() ==> #[trigger] self.reason_sound(cs, j),
    {
        assert forall|j: int| 0 <= j < pre.trail@.len() implies #[trigger] self.reason_sound(cs, j) by {
            assert(pre.reason_sound(cs, j));
            assert(self.trail@[j] == pre.trail@.take(pre.trail@.len() as int)[j]);
            match pre.reasons@[pre.slot(j)] {
                None => {},
                Some(r) => {
                    assert forall|i: int|
                        0 <= i < cs[r as int].len() && cs[r as int][i] != self.trail@[j] implies self.false_before(
                        #[trigger] cs[r as int][i] as int,
                        j,
                    ) by {
                        assert(pre.false_before(cs[r as int][i] as int, j));
                        let k = choose|k: int| 0 <= k < j && #[trigger] pre.trail@[k] as int == -(cs[r as int][i] as int);
                        assert(self.trail@[k] == pre.trail@.take(pre.trail@.len() as int)[k]);
                    }
                },
            }
        }
    }

    /// Undoes the last trail entry: its variable becomes unset, its phase is kept.
    pub fn unassign_last(&mut self)
        requires
            old(self).store_wf(),
            old(self).trail@.len() > 0,
        ensures
            final(self).store_wf(),
            final(self).num_vars() == old(self).num_vars(),
            final(self).current_level == old(self).current_level,
            final(self).trail@ == old(self).trail@.drop_last(),
            final(self).values@ == old(self).values@.update(
                old(self).slot(old(self).trail@.len() - 1),
                None,
            ),
            final(self).levels@ == old(self).levels@.update(
                old(self).slot(old(self).trail@.len() - 1),
                None,
            ),
            final(self).reasons@ == old(self).reasons@.update(
                old(self).slot(old(self).trail@.len() - 1),
                None,
            ),
            final(self).phases@ == old(self).phases@,
            forall|j: int|
                0 <= j < final(self).trail@.len() ==> #[trigger] final(self).slot(j) == old(
                    self,
                ).slot(j) && final(self).level_at(j) == old(self).level_at(j),
            forall|cs: Seq<Seq<i32>>| #[trigger]
                old(self).reasons_ok(cs) ==> final(self).reasons_ok(cs),
    {
        let ghost pre = *self;
        let lit = self.trail.pop().unwrap();
        let v = var_index(lit);
        self.values.set(v, None);
        self.levels.set(v, None);
        self.reasons.set(v, None);
        proof {
            let len = self.trail@.len() as int;
            assert(pre.trail@[len] == lit);
            assert(pre.slot(len) == v as int);
            assert forall|j: int| 0 <= j < len implies #[trigger] self.slot(j) == pre.slot(j)
                && self.level_at(j) == pre.level_at(j) && self.decision_at(j) == pre.decision_at(j)
                && self.trail@[j] == pre.trail@[j] by {
                assert(pre.slot(j) != pre.slot(len));
            }
            assert forall|u: int| 0 <= u < self.num_vars() implies (#[trigger] self.values@[u] is Some
                <==> self.on_trail(u)) by {
                if pre.on_trail(u) && u != v as int {
                    let j = choose|j: int| 0 <= j < len + 1 && #[trigger] pre.slot(j) == u;
                    assert(j < len);
                    assert(self.slot(j) == u);
                }
                if self.on_trail(u) {
                    let j = choose|j: int| 0 <= j < len && #[trigger] self.slot(j) == u;
                    assert(pre.slot(j) == u);
                    assert(pre.slot(j) != pre.slot(len));
                }
            }
            assert forall|j: int| 0 <= j < len implies #[trigger] self.level_step(j) by {
                assert(pre.level_step(j));
                if j > 0 {
                    assert(self.level_at(j - 1) == pre.level_at(j - 1));
                }
            }
            assert forall|i: int, j: int| 0 <= i < j < len implies #[trigger] self.slot(i)
                != #[trigger] self.slot(j) by {
                assert(self.slot(i) == pre.slot(i));
                assert(self.slot(j) == pre.slot(j));
            }
            assert forall|cs: Seq<Seq<i32>>| #[trigger]
                pre.reasons_ok(cs) implies self.reasons_ok(cs) by {
                assert forall|j: int| 0 <= j < len implies #[trigger] self.reason_sound(cs, j) by {
                    assert(pre.reason_sound(cs, j));
                    match pre.reasons@[pre.slot(j)] {
                        None => {},
                        Some(r) => {
                            assert forall|i: int|
                                0 <= i < cs[r as int].len() && cs[r as int][i] != self.trail@[j] implies self.false_before(
                                #[trigger] cs[r as int][i] as int,
                                j,
                            ) by {
                                assert(pre.false_before(cs[r as int][i] as int, j));
                                let k = choose|k: int|
                                    0 <= k < j && #[trigger] pre.trail@[k] as int == -(
                                    cs[r as int][i] as int);
                                assert(self.trail@[k] == pre.trail@[k]);
                            }
                        },
                    }
                }
            }
        }
    }

    /// The store's consistency does not depend on the current level.
    pub proof fn lemma_same_store(&self, other: Self)
        requires
            self.store_wf(),
            other.values == self.values,
            other.levels == self.levels,
            other.reasons == self.reasons,
            other.phases == self.phases,
            other.trail == self.trail,
        ensures
            other.store_wf(),
            other.level_seq() == self.level_seq(),
            forall|cs: Seq<Seq<i32>>| #[trigger] self.reasons_ok(cs) ==> other.reasons_ok(cs),
    {
        assert forall|j: int| 0 <= j < self.trail@.len() implies #[trigger] other.slot(j) == self.slot(j)
            && other.level_at(j) == self.level_at(j) && other.decision_at(j) == self.decision_at(j)
            && other.level_step(j) by {
            assert(self.level_step(j));
        }
        assert forall|v: int| 0 <= v < self.num_vars() implies (#[trigger] other.values@[v] is Some
            <==> other.on_trail(v)) by {
            if self.on_trail(v) {
                let j = choose|j: int| 0 <= j < self.trail@.len() && #[trigger] self.slot(j) == v;
                assert(other.slot(j) == v);
            }
            if other.on_trail(v) {
                let j = choose|j: int| 0 <= j < self.trail@.len() && #[trigger] other.slot(j) == v;
                assert(self.slot(j) == v);
            }
        }
        assert forall|i: int, j: int| 0 <= i < j < self.trail@.len() implies #[trigger] other.slot(i)
            != #[trigger] other.slot(j) by {
            assert(self.slot(i) != self.slot(j));
        }
        assert(other.level_seq() =~= self.level_seq());
        assert forall|cs: Seq<Seq<i32>>| #[trigger] self.reasons_ok(cs) implies other.reasons_ok(cs) by {
            assert forall|j: int| 0 <= j < self.trail@.len() implies #[trigger] other.reason_sound(cs, j) by {
                assert(self.reason_sound(cs, j));
                assert(other.slot(j) == self.slot(j));
                match self.reasons@[self.slot(j)] {
                    None => {},
                    Some(r) => {
                        assert forall|i: int|
                            0 <= i < cs[r as int].len() && cs[r as int][i] != other.trail@[j] implies other.false_before(
                            #[trigger] cs[r as int][i] as int,
                            j,
                        ) by {
                            assert(self.false_before(cs[r as int][i] as int, j));
                        }
                    },
                }
            }
        }
    }

    /// Backjumps: pops the trail while its last entry lies above `target`, then
    /// makes `target` the current level. Assignments at levels up to `target`
    /// stay as they were; the others are cleared. Phases are kept.
    pub fn backtrack_to_level(&mut self, target: u32)
        requires
            old(self).wf(),
            target <= old(self).current_level,
        ensures
            final(self).wf(),
            final(self).num_vars() == old(self).num_vars(),
            final(self).current_level == target,
            final(self).trail@.len() <= old(self).trail@.len(),
            final(self).trail@ == old(self).trail@.take(final(self).trail@.len() as int),
            final(self).level_seq() == old(self).level_seq().take(final(self).trail@.len() as int),
            forall|j: int|
                final(self).trail@.len() <= j < old(self).trail@.len() ==> #[trigger] old(
                    self,
                ).level_at(j) > target,
            forall|v: int|
                0 <= v < final(self).num_vars() ==> {
                    let kept = old(self).levels@[v] is Some && old(self).levels@[v].unwrap()
                        <= target;
                    &&& #[trigger] final(self).values@[v] == (if kept {
                        old(self).values@[v]
                    } else {
                        None
                    })
                    &&& final(self).levels@[v] == (if kept {
                        old(self).levels@[v]
                    } else {
                        None
                    })
                    &&& final(self).reasons@[v] == (if kept {
                        old(self).reasons@[v]
                    } else {
                        None
                    })
                },
            final(self).phases@ == old(self).phases@,
            forall|cs: Seq<Seq<i32>>| #[trigger]
                old(self).reasons_ok(cs) ==> final(self).reasons_ok(cs),
    {
        let ghost pre = *self;
        while self.trail.len() > 0
            && self.levels[var_index(self.trail[self.trail.len() - 1])].unwrap() > target
            invariant
                pre.wf(),
                target <= pre.current_level,
                self.store_wf(),
                self.num_vars() == pre.num_vars(),
                self.current_level == pre.current_level,
                self.trail@.len() <= pre.trail@.len(),
                self.trail@ == pre.trail@.take(self.trail@.len() as int),
                forall|j: int|
                    0 <= j < self.trail@.len() ==> #[trigger] self.slot(j) == pre.slot(j)
                        && self.level_at(j) == pre.level_at(j),
                forall|j: int|
                    self.trail@.len() <= j < pre.trail@.len() ==> #[trigger] pre.level_at(j)
                        > target,
                forall|v: int|
                    0 <= v < self.num_vars() ==> {
                        &&& #[trigger] self.values@[v] == (if self.on_trail(v) {
                            pre.values@[v]
                        } else {
                            None
                        })
                        &&& self.levels@[v] == (if self.on_trail(v) {
                            pre.levels@[v]
                        } else {
                            None
                        })
                        &&& self.reasons@[v] == (if self.on_trail(v) {
                            pre.reasons@[v]
                        } else {
                            None
                        })
                    },
                self.phases@ == pre.phases@,
                forall|cs: Seq<Seq<i32>>| #[trigger]
                    pre.reasons_ok(cs) ==> self.reasons_ok(cs),
            decreases self.trail@.len(),
        {
            proof {
                let last = self.trail@.len() - 1;
                assert(lit_in_range(self.trail@[last], self.num_vars()));
            }
            let ghost mid = *self;
            self.unassign_last();
            proof {
                let len = self.trail@.len() as int;
                let w = mid.slot(len);
                assert(mid.level_at(len) > target);
                assert(self.trail@ =~= pre.trail@.take(len));
                assert forall|v: int| 0 <= v < self.num_vars() implies (self.on_trail(v) <==> (
                mid.on_trail(v) && v != w)) by {
                    if self.on_trail(v) {
                        let j = choose|j: int| 0 <= j < len && #[trigger] self.slot(j) == v;
                        assert(mid.slot(j) == v);
                        assert(mid.slot(j) != mid.slot(len));
                    }
                    if mid.on_trail(v) && v != w {
                        let j = choose|j: int| 0 <= j < len + 1 && #[trigger] mid.slot(j) == v;
                        assert(j != len);
                        assert(self.slot(j) == v);
                    }
                }
                assert(mid.on_trail(w));
            }
        }
        let ghost popped = *self;
        self.current_level = target;
        proof {
            popped.lemma_same_store(*self);
            let len = self.trail@.len() as int;
            if len > 0 {
                assert(lit_in_range(self.trail@[len - 1], self.num_vars()));
                assert(self.level_at(len - 1) <= target);
            }
            // every kept entry lies at or below the target
            assert forall|j: int| 0 <= j < len implies #[trigger] pre.level_at(j) <= target by {
                self.lemma_levels_monotone(j, len - 1);
            }
            // the last kept entry lies exactly on the target level
            if len < pre.trail@.len() {
                assert(pre.level_step(len));
                if len > 0 {
                    assert(pre.level_at(len - 1) <= target);
                }
            } else if len > 0 {
                assert(pre.trail@ =~= self.trail@);
            }
            assert(self.level_ok());
            assert(self.level_seq() =~= pre.level_seq().take(len));
            assert forall|v: int| 0 <= v < self.num_vars() implies {
                let kept = pre.levels@[v] is Some && pre.levels@[v].unwrap() <= target;
                &&& #[trigger] self.values@[v] == (if kept {
                    pre.values@[v]
                } else {
                    None
                })
                &&& self.levels@[v] == (if kept {
                    pre.levels@[v]
                } else {
                    None
                })
                &&& self.reasons@[v] == (if kept {
                    pre.reasons@[v]
                } else {
                    None
                })
            } by {
                assert(popped.values@[v] == self.values@[v]);
                if pre.values@[v] is Some {
                    assert(pre.on_trail(v));
                    let j = choose|j: int| 0 <= j < pre.trail@.len() && #[trigger] pre.slot(j) == v;
                    if j < len {
                        assert(self.slot(j) == v);
                        assert(pre.level_at(j) <= target);
                    } else {
                        assert(pre.level_at(j) > target);
                        if self.on_trail(v) {
                            let i = choose|i: int| 0 <= i < len && #[trigger] self.slot(i) == v;
                            assert(pre.slot(i) == v);
                        }
                    }
                } else {
                    if self.on_trail(v) {
                        let i = choose|i: int| 0 <= i < len && #[trigger] self.slot(i) == v;
                        assert(pre.slot(i) == v);
                        assert(pre.trail@[i] == self.trail@[i]);
                        assert(lit_in_range(pre.trail@[i], pre.num_vars()));
                    }
                }
            }
        }
    }

    pub fn value(&self, lit: i32) -> (r: Option<bool>)
        requires
            self.wf(),
            lit_in_range(lit, self.num_vars()),
        ensures
            r == (if self.lit_true(lit as int) {
                Some(true)
            } else if self.lit_false(lit as int) {
                Some(false)
            } else {
                None
            }),
    {
        match self.values[var_index(lit)] {
            Some(b) => Some(b == (lit > 0)),
            None => None,
        }
    }

    pub fn is_true(&self, lit: i32) -> (r: bool)
        requires
            self.wf(),
            lit_in_range(lit, self.num_vars()),
        ensures
            r == self.lit_true(lit as int),
    {
        match self.values[var_index(lit)] {
            Some(val) => (lit > 0 && val) || (lit < 0 && !val),
            None => false,
        }
    }

    pub fn is_false(&self, lit: i32) -> (r: bool)
        requires
            self.wf(),
            lit_in_range(lit, self.num_vars()),
        ensures
            r == self.lit_false(lit as int),
    {
        match self.values[var_index(lit)] {
            Some(val) => (lit > 0 && !val) || (lit < 0 && val),
            None => false,
        }
    }

    /// The literal's variable is assigned.
    pub fn contains(&self, lit: i32) -> (r: bool)
        requires
            self.wf(),
            lit_in_range(lit, self.num_vars()),
        ensures
            r == !self.lit_unset(lit as int),
    {
        self.values[var_index(lit)].is_some()
    }

    pub fn get_level(&self, lit: i32) -> (r: Option<u32>)
        requires
            self.wf(),
            lit_in_range(lit, self.num_vars()),
        ensures
            r == self.levels@[var_of(lit as int) - 1],
    {
        self.levels[var_index(lit)]
    }
}

} // verus!
