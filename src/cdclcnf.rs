//! A CDCL solver whose propagation rescans the clause database until nothing
//! changes, and whose decisions take the first unassigned literal in clause order.
use vstd::prelude::*;
use crate::assignment::Assignment;
use crate::clause::{literals_supported, load_clauses, loaded_form, max_var};
use crate::literal::{clause_seqs, entails, formula_holds, lit_in_range, satisfiable, var_of};
use crate::progress::{lemma_progress_push, lemma_pw_monotone, progress_bound};
use crate::search::{
    learn, lemma_prefix_refl, lemma_prefix_trans, lemma_search_progress_bounded, prefix_of, search_inv,
    search_progress,
};

verus! {

pub struct Cdcl {
    /// The clause database: the loaded problem, then the learned clauses.
    pub clauses: Vec<Vec<i32>>,
    pub assignment: Assignment,
    /// How many stored clauses come from the problem.
    pub num_loaded: usize,
    /// The problem as it was given.
    pub problem: Ghost<Seq<Seq<i32>>>,
}

/// The state of a clause under the current assignment.
enum Decision {
    True,
    False,
    Undecided,
}

impl Cdcl {
    pub open spec fn inv(&self) -> bool {
        search_inv(
            clause_seqs(self.clauses@),
            self.assignment,
            self.problem@,
            self.num_loaded as int,
        )
    }

    /// A solver for the given clauses, with nothing assigned. Tautologies are
    /// dropped and the other clauses sorted and deduplicated; the variables
    /// are `1..=n` for the largest variable `n` that occurs.
    pub fn new(clauses: Vec<Vec<i32>>) -> (r: Self)
        requires
            literals_supported(clause_seqs(clauses@)),
        ensures
            r.inv(),
            r.problem@ == clause_seqs(clauses@),
            r.assignment.trail@.len() == 0,
            loaded_form(clause_seqs(clauses@), clause_seqs(r.clauses@)),
            r.num_loaded == r.clauses@.len(),
            max_var(clause_seqs(clauses@), r.assignment.num_vars()),
    {
        let ghost problem = clause_seqs(clauses@);
        let (loaded, largest) = load_clauses(&clauses);
        let assignment = Assignment::new(largest);
        let num_loaded = loaded.len();
        let r = Cdcl { clauses: loaded, assignment, num_loaded, problem: Ghost(problem) };
        proof {
            let cs = clause_seqs(r.clauses@);
            assert(cs.take(num_loaded as int) =~= cs);
            assert forall|c: int| 0 <= c < cs.len() implies #[trigger] entails(problem, cs[c]) by {
                assert forall|m: spec_fn(int) -> bool| formula_holds(m, problem) implies #[trigger] crate::literal::clause_holds(
                    m,
                    cs[c],
                ) by {
                    assert(formula_holds(m, cs));
                }
            }
        }
        r
    }

    fn evaluate_clause(&self, clause: usize) -> (r: Decision)
        requires
            self.inv(),
            clause < self.clauses@.len(),
        ensures
            r is True <==> self.assignment.clause_satisfied(self.clauses@[clause as int]@),
            r is False <==> self.assignment.clause_falsified(self.clauses@[clause as int]@),
    {
        let ghost cs = clause_seqs(self.clauses@);
        let c = &self.clauses[clause];
        assert(c@ == cs[clause as int]);
        let mut undecided = false;
        let mut i: usize = 0;
        while i < c.len()
            invariant
                self.inv(),
                cs == clause_seqs(self.clauses@),
                clause < cs.len(),
                c@ == cs[clause as int],
                0 <= i <= c@.len(),
                forall|q: int| 0 <= q < i ==> !#[trigger] self.assignment.lit_true(c@[q] as int),
                undecided <==> exists|q: int|
                    0 <= q < i && !#[trigger] self.assignment.lit_false(c@[q] as int),
            decreases c@.len() - i,
        {
            let literal = c[i];
            proof {
                assert(lit_in_range(cs[clause as int][i as int], self.assignment.num_vars()));
            }
            if self.assignment.is_true(literal) {
                proof {
                    assert(!self.assignment.lit_false(c@[i as int] as int));
                }
                return Decision::True;
            } else if !self.assignment.is_false(literal) {
                undecided = true;
            }
            i = i + 1;
        }
        if undecided {
            Decision::Undecided
        } else {
            Decision::False
        }
    }

    /// The literal on which an unsatisfied clause is unit, if it is.
    fn unit_literal(&self, clause: usize) -> (r: Option<i32>)
        requires
            self.inv(),
            clause < self.clauses@.len(),
            !self.assignment.clause_satisfied(self.clauses@[clause as int]@),
        ensures
            r matches Some(l) ==> self.assignment.clause_unit(self.clauses@[clause as int]@, l)
                && lit_in_range(l, self.assignment.num_vars()),
            r is None ==> forall|l: i32|
                !#[trigger] self.assignment.clause_unit(self.clauses@[clause as int]@, l),
    {
        let ghost cs = clause_seqs(self.clauses@);
        let ghost a = self.assignment;
        let c = &self.clauses[clause];
        assert(c@ == cs[clause as int]);
        let mut unassigned_count: usize = 0;
        let mut last_unassigned: i32 = 0;
        let ghost mut pl: int = 0;
        let ghost mut q1: int = 0;
        let ghost mut q2: int = 0;
        let mut i: usize = 0;
        while i < c.len()
            invariant
                self.inv(),
                a == self.assignment,
                cs == clause_seqs(self.clauses@),
                clause < cs.len(),
                c@ == cs[clause as int],
                !a.clause_satisfied(c@),
                0 <= i <= c@.len(),
                unassigned_count <= i,
                unassigned_count == 0 ==> forall|q: int|
                    0 <= q < i ==> !#[trigger] a.lit_unset(c@[q] as int),
                unassigned_count >= 1 ==> 0 <= pl < i && c@[pl] == last_unassigned && a.lit_unset(
                    last_unassigned as int,
                ) && lit_in_range(last_unassigned, a.num_vars()),
                unassigned_count == 1 ==> forall|q: int|
                    0 <= q < i && #[trigger] a.lit_unset(c@[q] as int) ==> c@[q]
                        == last_unassigned,
                unassigned_count >= 2 ==> 0 <= q1 < i && 0 <= q2 < i && a.lit_unset(
                    c@[q1] as int,
                ) && a.lit_unset(c@[q2] as int) && c@[q1] != c@[q2],
            decreases c@.len() - i,
        {
            let lit = c[i];
            proof {
                assert(lit_in_range(cs[clause as int][i as int], a.num_vars()));
            }
            if !self.assignment.contains(lit) {
                if unassigned_count == 0 {
                    unassigned_count = 1;
                    last_unassigned = lit;
                    proof {
                        pl = i as int;
                    }
                } else if lit != last_unassigned {
                    proof {
                        if unassigned_count == 1 {
                            q1 = pl;
                            q2 = i as int;
                        }
                    }
                    unassigned_count = unassigned_count + 1;
                    last_unassigned = lit;
                    proof {
                        pl = i as int;
                    }
                }
            }
            i = i + 1;
        }
        proof {
            if unassigned_count == 1 {
                assert(c@.contains(c@[pl]));
                assert forall|q: int| 0 <= q < c@.len() && c@[q] != last_unassigned implies #[trigger] a.lit_false(
                    c@[q] as int,
                ) by {
                    assert(lit_in_range(cs[clause as int][q], a.num_vars()));
                    assert(!a.lit_true(c@[q] as int));
                    assert(!a.lit_unset(c@[q] as int));
                }
            }
            if unassigned_count >= 2 {
                assert forall|l: i32| !#[trigger] a.clause_unit(c@, l) by {
                    if a.clause_unit(c@, l) {
                        if c@[q1] != l {
                            assert(a.lit_false(c@[q1] as int));
                        } else {
                            assert(a.lit_false(c@[q2] as int));
                        }
                    }
                }
            }
            if unassigned_count == 0 {
                assert forall|l: i32| !#[trigger] a.clause_unit(c@, l) by {
                    if a.clause_unit(c@, l) {
                        let e = choose|e: int| 0 <= e < c@.len() && c@[e] == l;
                        assert(!a.lit_unset(c@[e] as int));
                    }
                }
            }
        }
        if unassigned_count == 1 {
            Some(last_unassigned)
        } else {
            None
        }
    }

    /// Propagates units until nothing changes. Returns the index of a falsified
    /// clause, or `None` when no clause is falsified and none is unit.
    fn unit_propigate(&mut self) -> (r: Option<usize>)
        requires
            old(self).inv(),
        ensures
            final(self).inv(),
            final(self).clauses == old(self).clauses,
            final(self).num_loaded == old(self).num_loaded,
            final(self).problem == old(self).problem,
            final(self).assignment.num_vars() == old(self).assignment.num_vars(),
            final(self).assignment.current_level == old(self).assignment.current_level,
            search_progress(final(self).assignment) >= search_progress(old(self).assignment),
            old(self).assignment.extended_by_implications(final(self).assignment),
            r matches Some(c) ==> c < final(self).clauses@.len()
                && final(self).assignment.clause_falsified(final(self).clauses@[c as int]@),
            r is None ==> forall|c: int|
                0 <= c < final(self).clauses@.len() ==> !final(self).assignment.clause_falsified(
                    #[trigger] final(self).clauses@[c]@,
                ) && forall|l: i32| !final(self).assignment.clause_unit(final(self).clauses@[c]@, l),
    {
        let ghost start = *self;
        proof {
            self.assignment.lemma_extension_refl();
        }
        loop
            invariant
                start == *old(self),
                start.inv(),
                start.assignment.extended_by_implications(self.assignment),
                self.inv(),
                self.clauses == start.clauses,
                self.num_loaded == start.num_loaded,
                self.problem == start.problem,
                self.assignment.num_vars() == start.assignment.num_vars(),
                self.assignment.current_level == start.assignment.current_level,
                search_progress(self.assignment) >= search_progress(start.assignment),
            decreases self.assignment.num_vars() - self.assignment.trail@.len(),
        {
            let mut found: Option<(usize, i32)> = None;
            let mut index: usize = 0;
            let ghost snap = *self;
            while index < self.clauses.len()
                invariant_except_break
                    found is None,
                invariant
                    *self == snap,
                    start == *old(self),
                    start.assignment.extended_by_implications(self.assignment),
                    self.inv(),
                    self.clauses == start.clauses,
                    self.num_loaded == start.num_loaded,
                    self.problem == start.problem,
                    self.assignment.num_vars() == start.assignment.num_vars(),
                    self.assignment.current_level == start.assignment.current_level,
                    search_progress(self.assignment) >= search_progress(start.assignment),
                    0 <= index <= self.clauses@.len(),
                    forall|c: int|
                        0 <= c < index ==> !self.assignment.clause_falsified(
                            #[trigger] self.clauses@[c]@,
                        ) && forall|l: i32| !self.assignment.clause_unit(self.clauses@[c]@, l),
                ensures
                    found matches Some((c, l)) ==> c < self.clauses@.len()
                        && self.assignment.clause_unit(self.clauses@[c as int]@, l) && lit_in_range(
                        l,
                        self.assignment.num_vars(),
                    ),
                    found is None ==> forall|c: int|
                        0 <= c < self.clauses@.len() ==> !self.assignment.clause_falsified(
                            #[trigger] self.clauses@[c]@,
                        ) && forall|l: i32| !self.assignment.clause_unit(self.clauses@[c]@, l),
                decreases self.clauses@.len() - index,
            {
                match self.evaluate_clause(index) {
                    Decision::True => {
                        proof {
                            let c = self.clauses@[index as int]@;
                            let i = choose|i: int|
                                0 <= i < c.len() && #[trigger] self.assignment.lit_true(c[i] as int);
                            assert(c == clause_seqs(self.clauses@)[index as int]);
                            assert(lit_in_range(c[i], self.assignment.num_vars()));
                            assert(!self.assignment.lit_false(c[i] as int));
                            assert forall|l: i32| !#[trigger] self.assignment.clause_unit(c, l) by {
                                if self.assignment.clause_unit(c, l) {
                                    if c[i] != l {
                                        assert(self.assignment.lit_false(c[i] as int));
                                    }
                                }
                            }
                        }
                    },
                    Decision::False => {
                        return Some(index);
                    },
                    Decision::Undecided => {
                        match self.unit_literal(index) {
                            Some(l) => {
                                found = Some((index, l));
                                break ;
                            },
                            None => {},
                        }
                    },
                }
                index = index + 1;
            }
            match found {
                None => {
                    return None;
                },
                Some((index, l)) => {
                    let ghost pre = self.assignment;
                    proof {
                        pre.lemma_trail_len();
                        assert(pre.values@[var_of(l as int) - 1] is None);
                        assert(self.clauses@[index as int]@ == clause_seqs(
                            self.clauses@,
                        )[index as int]);
                    }
                    self.assignment.imply(l, index, &self.clauses);
                    proof {
                        lemma_progress_push(pre.level_seq(), pre.current_level as int, pre.num_vars() as nat);
                        start.assignment.lemma_extension_trans(pre, self.assignment);
                    }
                },
            }
        }
    }

    /// The first literal, in clause order, whose variable is unassigned; when
    /// every literal of every clause is assigned, the lowest unassigned
    /// variable, positive. `None` exactly when every variable is assigned.
    pub fn choose_unassigned_literal(&self) -> (r: Option<i32>)
        requires
            self.inv(),
        ensures
            r matches Some(l) ==> lit_in_range(l, self.assignment.num_vars())
                && self.assignment.lit_unset(l as int) && ((exists|c: int, i: int|
                0 <= c < self.clauses@.len() && 0 <= i < self.clauses@[c]@.len()
                    && self.clauses@[c]@[i] == l && forall|c2: int, i2: int|
                    (0 <= c2 < c && 0 <= i2 < self.clauses@[c2]@.len()) || (c2 == c && 0 <= i2
                        < i) ==> !#[trigger] self.assignment.lit_unset(
                        self.clauses@[c2]@[i2] as int,
                    )) || ((forall|c: int, i: int|
                0 <= c < self.clauses@.len() && 0 <= i < self.clauses@[c]@.len()
                    ==> !#[trigger] self.assignment.lit_unset(self.clauses@[c]@[i] as int)) && l > 0
                && forall|u: int| 0 <= u < l - 1 ==> #[trigger] self.assignment.values@[u] is Some)),
            r is None <==> forall|v: int|
                0 <= v < self.assignment.num_vars() ==> #[trigger] self.assignment.values@[v] is Some,
            r is None ==> forall|c: int, i: int|
                0 <= c < self.clauses@.len() && 0 <= i < self.clauses@[c]@.len()
                    ==> !#[trigger] self.assignment.lit_unset(self.clauses@[c]@[i] as int),
    {
        let ghost cs = clause_seqs(self.clauses@);
        let mut c: usize = 0;
        while c < self.clauses.len()
            invariant
                self.inv(),
                cs == clause_seqs(self.clauses@),
                0 <= c <= self.clauses@.len(),
                forall|c2: int, i2: int|
                    0 <= c2 < c && 0 <= i2 < self.clauses@[c2]@.len()
                        ==> !#[trigger] self.assignment.lit_unset(self.clauses@[c2]@[i2] as int),
            decreases self.clauses@.len() - c,
        {
            let clause = &self.clauses[c];
            let mut i: usize = 0;
            while i < clause.len()
                invariant
                    self.inv(),
                    cs == clause_seqs(self.clauses@),
                    0 <= c < self.clauses@.len(),
                    clause@ == self.clauses@[c as int]@,
                    0 <= i <= clause@.len(),
                    forall|c2: int, i2: int|
                        (0 <= c2 < c && 0 <= i2 < self.clauses@[c2]@.len()) || (c2 == c && 0
                            <= i2 < i) ==> !#[trigger] self.assignment.lit_unset(
                            self.clauses@[c2]@[i2] as int,
                        ),
                decreases clause@.len() - i,
            {
                let l = clause[i];
                proof {
                    assert(cs[c as int] == clause@);
                    assert(lit_in_range(cs[c as int][i as int], self.assignment.num_vars()));
                }
                if !self.assignment.contains(l) {
                    return Some(l);
                }
                i = i + 1;
            }
            c = c + 1;
        }
        // no clause literal is unassigned: any variable left is free
        let n = self.assignment.values.len();
        let mut v: usize = 0;
        while v < n
            invariant
                self.inv(),
                n == self.assignment.num_vars(),
                0 <= v <= n,
                forall|u: int| 0 <= u < v ==> #[trigger] self.assignment.values@[u] is Some,
                forall|c2: int, i2: int|
                    0 <= c2 < self.clauses@.len() && 0 <= i2 < self.clauses@[c2]@.len()
                        ==> !#[trigger] self.assignment.lit_unset(self.clauses@[c2]@[i2] as int),
            decreases n - v,
        {
            if self.assignment.values[v].is_none() {
                proof {
                    assert(var_of((v + 1) as int) - 1 == v);
                }
                return Some((v + 1) as i32);
            }
            v = v + 1;
        }
        None
    }

    /// Decides satisfiability of the problem. On `true` every stored clause,
    /// and so every clause of the problem, holds under the final assignment.
    pub fn solve_not_recursive(&mut self) -> (r: bool)
        requires
            old(self).inv(),
        ensures
            final(self).inv(),
            final(self).problem == old(self).problem,
            r == satisfiable(old(self).problem@),
            r ==> forall|c: int|
                0 <= c < final(self).clauses@.len() ==> final(self).assignment.clause_satisfied(
                    #[trigger] final(self).clauses@[c]@,
                ),
            r ==> formula_holds(final(self).assignment.model(), old(self).problem@),
            r ==> forall|v: int|
                0 <= v < final(self).assignment.num_vars()
                    ==> #[trigger] final(self).assignment.values@[v] is Some,
            r ==> forall|c: int|
                0 <= c < old(self).problem@.len() ==> final(self).assignment.clause_satisfied(
                    #[trigger] old(self).problem@[c],
                ),
            final(self).assignment.num_vars() == old(self).assignment.num_vars(),
            final(self).num_loaded == old(self).num_loaded,
            prefix_of(old(self).clauses@, final(self).clauses@),
    {
        let ghost problem = self.problem@;
        let ghost n = self.assignment.num_vars();
        let ghost c0 = self.clauses@;
        let ghost nl = self.num_loaded;
        proof {
            lemma_prefix_refl(c0);
        }
        loop
            invariant
                self.inv(),
                self.problem@ == problem,
                problem == old(self).problem@,
                self.assignment.num_vars() == n,
                n == old(self).assignment.num_vars(),
                c0 == old(self).clauses@,
                nl == old(self).num_loaded,
                self.num_loaded == nl,
                prefix_of(c0, self.clauses@),
            decreases progress_bound(n as nat) - search_progress(self.assignment),
        {
            let ghost p0 = search_progress(self.assignment);
            // propagate, learning from every conflict
            loop
                invariant
                    self.inv(),
                    self.problem@ == problem,
                    problem == old(self).problem@,
                    self.assignment.num_vars() == n,
                    search_progress(self.assignment) >= p0,
                    n == old(self).assignment.num_vars(),
                    c0 == old(self).clauses@,
                    nl == old(self).num_loaded,
                    self.num_loaded == nl,
                    prefix_of(c0, self.clauses@),
                ensures
                    self.inv(),
                    self.problem@ == problem,
                    self.assignment.num_vars() == n,
                    search_progress(self.assignment) >= p0,
                    self.num_loaded == nl,
                    prefix_of(c0, self.clauses@),
                    forall|c: int|
                        0 <= c < self.clauses@.len() ==> !self.assignment.clause_falsified(
                            #[trigger] self.clauses@[c]@,
                        ),
                decreases progress_bound(n as nat) - search_progress(self.assignment),
            {
                match self.unit_propigate() {
                    None => {
                        break ;
                    },
                    Some(conflict) => {
                        let ghost cs = clause_seqs(self.clauses@);
                        let ghost before = self.clauses@;
                        proof {
                            assert forall|i: int|
                                0 <= i < self.clauses@[conflict as int]@.len() implies self.assignment.lit_false(
                                #[trigger] self.clauses@[conflict as int]@[i] as int,
                            ) by {}
                        }
                        let learned = learn(
                            &mut self.clauses,
                            &mut self.assignment,
                            conflict,
                            Ghost(problem),
                            Ghost(self.num_loaded as int),
                        );
                        match learned {
                            None => {
                                return false;
                            },
                            Some(_) => {
                                proof {
                                    lemma_search_progress_bounded(self.assignment);
                                    lemma_prefix_trans(c0, before, self.clauses@);
                                }
                            },
                        }
                    },
                }
            }
            match self.choose_unassigned_literal() {
                None => {
                    proof {
                        let a = self.assignment;
                        let cs = clause_seqs(self.clauses@);
                        assert forall|c: int| 0 <= c < cs.len() implies #[trigger] a.clause_satisfied(
                            cs[c],
                        ) by {
                            assert(self.clauses@[c]@ == cs[c]);
                            assert(!a.clause_falsified(cs[c]));
                            let i = choose|i: int| 0 <= i < cs[c].len() && !#[trigger] a.lit_false(
                                cs[c][i] as int,
                            );
                            assert(!a.lit_unset(self.clauses@[c]@[i] as int));
                            assert(a.lit_true(cs[c][i] as int));
                        }
                        a.lemma_model_satisfies(cs);
                        assert forall|c: int| 0 <= c < self.clauses@.len() implies a.clause_satisfied(
                            #[trigger] self.clauses@[c]@,
                        ) by {
                            assert(cs[c] == self.clauses@[c]@);
                        }
                        let k = self.num_loaded as int;
                        assert(formula_holds(a.model(), cs.take(k)));
                        assert(formula_holds(a.model(), problem));
                        a.lemma_model_sets_clauses(problem);
                    }
                    return true;
                },
                Some(l) => {
                    let ghost pre = self.assignment;
                    self.assignment.decide(l);
                    proof {
                        lemma_progress_push(
                            pre.level_seq(),
                            self.assignment.current_level as int,
                            n as nat,
                        );
                        lemma_pw_monotone(n as nat + 1, 0, (n - self.assignment.current_level) as nat);
                        lemma_search_progress_bounded(self.assignment);
                    }
                },
            }
        }
    }
}

} // verus!
