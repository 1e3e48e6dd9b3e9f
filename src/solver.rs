//! The DPLL decision procedure: unit propagation, then a case split on the
//! first literal of the first clause, with backtracking.

use vstd::prelude::*;
use crate::cnf::{
    Formula, Literal, formula_view, lit_ok, formula_ok, neg, var, mentions, has_empty_clause, size,
    lit_holds, clause_holds, formula_holds, satisfiable, distinct_vars, assignment_of,
    hits_every_clause, lemma_neg_holds, lemma_hits_grow, lemma_distinct_concat, lemma_hits_holds,
};
use crate::simplifier::{
    simplify, simplify_formula, lemma_simplify_shrinks, lemma_simplify_ok, lemma_simplify_mentions,
    lemma_simplify_hits, lemma_simplify_holds,
};

verus! {

/// The verdict on a formula.
#[derive(Debug, Clone, PartialEq, Eq)]
pub enum Status {
    /// Satisfiable, with the literals that were set true on the way.
    Sat(Vec<Literal>),
    /// No assignment makes the formula true.
    Unsat,
}

impl View for Status {
    type V = Option<Seq<i32>>;

    open spec fn view(&self) -> Option<Seq<i32>> {
        match self {
            Status::Sat(m) => Some(m@),
            Status::Unsat => None,
        }
    }
}

/// The sole literal of the first unit clause at index `i` or later.
pub open spec fn unit_from(f: Seq<Seq<i32>>, i: int) -> Option<i32>
    decreases f.len() - i,
{
    if 0 <= i < f.len() {
        if f[i].len() == 1 {
            Some(f[i][0])
        } else {
            unit_from(f, i + 1)
        }
    } else {
        None
    }
}

/// What the procedure returns on `f` when the literals `acc` were already
/// forced in this call: `None` for unsatisfiable, else the model. An empty
/// clause gives `None` and the empty formula gives `acc`. The literal of the
/// first unit clause is appended to `acc` and assumed true. Failing that, the
/// first literal `p` of the first clause is assumed true, then false, each in
/// a fresh call; a model found there is followed by `acc` and then by the
/// literal assumed.
pub open spec fn dpll_from(f: Seq<Seq<i32>>, acc: Seq<i32>) -> Option<Seq<i32>>
    decreases size(f),
    when formula_ok(f)
{
    if has_empty_clause(f) {
        None
    } else if f.len() == 0 {
        Some(acc)
    } else {
        match unit_from(f, 0) {
            Some(l) => {
                proof {
                    lemma_unit_from(f, 0);
                    let k = choose|k: int| 0 <= k < f.len() && (#[trigger] f[k]).len() == 1 && f[k][0] == l
                        && f[k].contains(l);
                    lemma_simplify_shrinks(f, l, k);
                    lemma_simplify_ok(f, l);
                }
                dpll_from(simplify(f, l), acc.push(l))
            },
            None => {
                let p = f[0][0];
                proof {
                    assert(f[0].len() > 0);
                    assert(f[0].contains(p));
                    assert(lit_ok(p));
                    assert(neg(neg(p)) == p);
                    lemma_simplify_shrinks(f, p, 0);
                    lemma_simplify_shrinks(f, neg(p), 0);
                    lemma_simplify_ok(f, p);
                    lemma_simplify_ok(f, neg(p));
                }
                match dpll_from(simplify(f, p), Seq::empty()) {
                    Some(m) => Some(m + acc.push(p)),
                    None => match dpll_from(simplify(f, neg(p)), Seq::empty()) {
                        Some(m) => Some(m + acc.push(neg(p))),
                        None => None,
                    },
                }
            },
        }
    }
}

/// What `solve` returns on `f`.
pub open spec fn dpll(f: Seq<Seq<i32>>) -> Option<Seq<i32>> {
    dpll_from(f, Seq::empty())
}

/// What `unit_from` finds is the literal of a unit clause, and where it finds
/// nothing there is no unit clause.
pub proof fn lemma_unit_from(f: Seq<Seq<i32>>, i: int)
    requires
        0 <= i,
    ensures
        unit_from(f, i) is Some ==> exists|k: int| i <= k < f.len() && (#[trigger] f[k]).len() == 1
            && f[k][0] == unit_from(f, i)->0 && f[k].contains(unit_from(f, i)->0),
        unit_from(f, i) is None ==> forall|k: int| i <= k < f.len() ==> (#[trigger] f[k]).len() != 1,
    decreases f.len() - i,
{
    if i < f.len() {
        lemma_unit_from(f, i + 1);
    }
}

/// The model hits every clause and keeps the literals forced before.
proof fn lemma_dpll_from_hits(f: Seq<Seq<i32>>, acc: Seq<i32>)
    requires
        formula_ok(f),
        dpll_from(f, acc) is Some,
    ensures
        hits_every_clause(dpll_from(f, acc)->0, f),
        forall|t: int| 0 <= t < acc.len() ==> (dpll_from(f, acc)->0).contains(#[trigger] acc[t]),
    decreases size(f),
{
    let m = dpll_from(f, acc)->0;
    if f.len() == 0 {
        assert(m == acc);
        assert forall|t: int| 0 <= t < acc.len() implies m.contains(#[trigger] acc[t]) by {
            assert(m[t] == acc[t]);
        }
    } else {
        match unit_from(f, 0) {
            Some(l) => {
                lemma_unit_from(f, 0);
                let k = choose|k: int| 0 <= k < f.len() && (#[trigger] f[k]).len() == 1 && f[k][0] == l
                    && f[k].contains(l);
                lemma_simplify_shrinks(f, l, k);
                lemma_simplify_ok(f, l);
                let acc2 = acc.push(l);
                lemma_dpll_from_hits(simplify(f, l), acc2);
                assert(m.contains(acc2[acc.len() as int]));
                lemma_simplify_hits(m, f, l);
                assert forall|t: int| 0 <= t < acc.len() implies m.contains(#[trigger] acc[t]) by {
                    assert(acc2[t] == acc[t]);
                }
            },
            None => {
                let p = f[0][0];
                assert(f[0].contains(p));
                assert(neg(neg(p)) == p);
                lemma_simplify_shrinks(f, p, 0);
                lemma_simplify_shrinks(f, neg(p), 0);
                lemma_simplify_ok(f, p);
                lemma_simplify_ok(f, neg(p));
                let q = if dpll_from(simplify(f, p), Seq::empty()) is Some { p } else { neg(p) };
                let g = simplify(f, q);
                lemma_dpll_from_hits(g, Seq::empty());
                let sub = dpll_from(g, Seq::empty())->0;
                let tail = acc.push(q);
                assert(m == sub + tail);
                assert forall|k: int| 0 <= k < sub.len() implies m.contains(#[trigger] sub[k]) by {
                    assert(m[k] == sub[k]);
                }
                lemma_hits_grow(sub, m, g);
                assert(m[(sub.len() + acc.len()) as int] == q);
                lemma_simplify_hits(m, f, q);
                assert forall|t: int| 0 <= t < acc.len() implies m.contains(#[trigger] acc[t]) by {
                    assert(m[sub.len() + t] == acc[t]);
                }
            },
        }
    }
}

/// The model repeats no variable, holds well-formed literals only, and each of
/// them was forced before or speaks of a variable of `f`.
proof fn lemma_dpll_from_vars(f: Seq<Seq<i32>>, acc: Seq<i32>)
    requires
        formula_ok(f),
        dpll_from(f, acc) is Some,
        distinct_vars(acc),
        forall|t: int| 0 <= t < acc.len() ==> lit_ok(#[trigger] acc[t]) && !mentions(f, var(acc[t])),
    ensures
        distinct_vars(dpll_from(f, acc)->0),
        forall|k: int| 0 <= k < (dpll_from(f, acc)->0).len() ==> lit_ok(#[trigger] (dpll_from(f, acc)->0)[k])
            && (acc.contains((dpll_from(f, acc)->0)[k]) || mentions(f, var((dpll_from(f, acc)->0)[k]))),
    decreases size(f),
{
    let m = dpll_from(f, acc)->0;
    if f.len() == 0 {
        assert(m == acc);
        assert forall|k: int| 0 <= k < m.len() implies lit_ok(#[trigger] m[k]) && acc.contains(m[k]) by {
            assert(acc[k] == m[k]);
        }
    } else {
        match unit_from(f, 0) {
            Some(l) => {
                lemma_unit_from(f, 0);
                let k = choose|k: int| 0 <= k < f.len() && (#[trigger] f[k]).len() == 1 && f[k][0] == l
                    && f[k].contains(l);
                lemma_simplify_shrinks(f, l, k);
                lemma_simplify_ok(f, l);
                let g = simplify(f, l);
                let acc2 = acc.push(l);
                assert(lit_ok(f[k][0]));
                assert(mentions(f, var(f[k][0])));
                assert(distinct_vars(acc2)) by {
                    lemma_distinct_concat(acc, seq![l]);
                    assert(acc + seq![l] =~= acc2);
                }
                assert forall|t: int| 0 <= t < acc2.len() implies lit_ok(#[trigger] acc2[t]) && !mentions(g, var(acc2[t])) by {
                    if mentions(g, var(acc2[t])) {
                        lemma_simplify_mentions(f, l, var(acc2[t]));
                    }
                }
                lemma_dpll_from_vars(g, acc2);
                assert forall|k: int| 0 <= k < m.len() implies lit_ok(#[trigger] m[k])
                    && (acc.contains(m[k]) || mentions(f, var(m[k]))) by {
                    if mentions(g, var(m[k])) {
                        lemma_simplify_mentions(f, l, var(m[k]));
                    } else if m[k] != l {
                        let t = choose|t: int| 0 <= t < acc2.len() && acc2[t] == m[k];
                        assert(acc[t] == m[k]);
                    }
                }
            },
            None => {
                let p = f[0][0];
                assert(f[0].contains(p));
                assert(lit_ok(p));
                assert(neg(neg(p)) == p);
                lemma_simplify_shrinks(f, p, 0);
                lemma_simplify_shrinks(f, neg(p), 0);
                lemma_simplify_ok(f, p);
                lemma_simplify_ok(f, neg(p));
                let q = if dpll_from(simplify(f, p), Seq::empty()) is Some { p } else { neg(p) };
                assert(var(q) == var(p) && lit_ok(q)) by {
                    lemma_neg_holds(|v: int| true, p);
                }
                assert(mentions(f, var(f[0][0])));
                let g = simplify(f, q);
                lemma_dpll_from_vars(g, Seq::empty());
                let sub = dpll_from(g, Seq::empty())->0;
                let tail = acc.push(q);
                assert(m == sub + tail);
                assert forall|k: int| 0 <= k < sub.len() implies mentions(f, var(#[trigger] sub[k]))
                    && var(sub[k]) != var(q) by {
                    lemma_simplify_mentions(f, q, var(sub[k]));
                }
                assert(distinct_vars(tail)) by {
                    lemma_distinct_concat(acc, seq![q]);
                    assert(acc + seq![q] =~= tail);
                }
                assert forall|i: int, k: int| 0 <= i < sub.len() && 0 <= k < tail.len()
                    implies var(#[trigger] sub[i]) != var(#[trigger] tail[k]) by {
                    if k < acc.len() {
                        assert(tail[k] == acc[k]);
                    }
                }
                lemma_distinct_concat(sub, tail);
                assert forall|k: int| 0 <= k < m.len() implies lit_ok(#[trigger] m[k])
                    && (acc.contains(m[k]) || mentions(f, var(m[k]))) by {
                    if k < sub.len() {
                        assert(m[k] == sub[k]);
                    } else if k < sub.len() + acc.len() {
                        assert(m[k] == acc[k - sub.len()]);
                    } else {
                        assert(m[k] == q);
                    }
                }
            },
        }
    }
}

/// Where the procedure finds no model, no assignment makes `f` true.
proof fn lemma_dpll_from_unsat(f: Seq<Seq<i32>>, acc: Seq<i32>)
    requires
        formula_ok(f),
        dpll_from(f, acc) is None,
    ensures
        !satisfiable(f),
    decreases size(f),
{
    assert forall|a: spec_fn(int) -> bool| !formula_holds(a, f) by {
        if formula_holds(a, f) {
            if has_empty_clause(f) {
                let i = choose|i: int| 0 <= i < f.len() && #[trigger] f[i].len() == 0;
                assert(clause_holds(a, f[i]));
            } else {
                match unit_from(f, 0) {
                    Some(l) => {
                        lemma_unit_from(f, 0);
                        let k = choose|k: int| 0 <= k < f.len() && (#[trigger] f[k]).len() == 1 && f[k][0] == l
                            && f[k].contains(l);
                        lemma_simplify_shrinks(f, l, k);
                        lemma_simplify_ok(f, l);
                        assert(clause_holds(a, f[k]));
                        assert(lit_ok(f[k][0]));
                        lemma_simplify_holds(a, f, l);
                        lemma_dpll_from_unsat(simplify(f, l), acc.push(l));
                    },
                    None => {
                        let p = f[0][0];
                        assert(f[0].contains(p));
                        assert(lit_ok(p));
                        assert(neg(neg(p)) == p);
                        lemma_simplify_shrinks(f, p, 0);
                        lemma_simplify_shrinks(f, neg(p), 0);
                        lemma_simplify_ok(f, p);
                        lemma_simplify_ok(f, neg(p));
                        lemma_neg_holds(a, p);
                        let q = if lit_holds(a, p) { p } else { neg(p) };
                        lemma_simplify_holds(a, f, q);
                        lemma_dpll_from_unsat(simplify(f, q), Seq::empty());
                    },
                }
            }
        }
    }
}

/// What a satisfiable verdict on `f` promises of its list `m`: no variable
/// set twice, each literal well formed and of a variable of `f`, each clause
/// holding a literal of `m`, and so `f` true under the assignment that `m`
/// stands for.
pub open spec fn is_model(m: Seq<i32>, f: Seq<Seq<i32>>) -> bool {
    &&& distinct_vars(m)
    &&& forall|k: int| 0 <= k < m.len() ==> lit_ok(#[trigger] m[k]) && mentions(f, var(m[k]))
    &&& hits_every_clause(m, f)
    &&& formula_holds(assignment_of(m), f)
}

/// Soundness: a list that the procedure returns for `f` is a model of `f`.
pub proof fn lemma_dpll_sound(f: Seq<Seq<i32>>)
    requires
        formula_ok(f),
        dpll(f) is Some,
    ensures
        is_model(dpll(f)->0, f),
        satisfiable(f),
{
    let m = dpll(f)->0;
    lemma_dpll_from_hits(f, Seq::empty());
    lemma_dpll_from_vars(f, Seq::empty());
    lemma_hits_holds(m, f);
    assert(formula_holds(assignment_of(m), f));
}

/// Completeness: where the procedure answers unsatisfiable, no assignment of
/// truth values makes `f` true.
pub proof fn lemma_dpll_complete(f: Seq<Seq<i32>>)
    requires
        formula_ok(f),
        dpll(f) is None,
    ensures
        !satisfiable(f),
{
    lemma_dpll_from_unsat(f, Seq::empty());
}

/// Determinism: two runs on the same formula give the same verdict and the
/// same model.
pub proof fn lemma_dpll_deterministic(f: Seq<Seq<i32>>, r1: Option<Seq<i32>>, r2: Option<Seq<i32>>)
    requires
        r1 == dpll(f),
        r2 == dpll(f),
    ensures
        r1 == r2,
        r1 is None <==> r2 is None,
{
}

/// A formula with an empty clause is unsatisfiable at once, whatever the
/// other clauses and whatever was forced before.
pub proof fn lemma_dpll_empty_clause(f: Seq<Seq<i32>>, acc: Seq<i32>)
    requires
        formula_ok(f),
        has_empty_clause(f),
    ensures
        dpll_from(f, acc) is None,
{
}

/// The empty formula is satisfiable at once, with the literals forced so far
/// as its model.
pub proof fn lemma_dpll_empty_formula(acc: Seq<i32>)
    ensures
        dpll_from(Seq::empty(), acc) == Some(acc),
{
    assert(formula_ok(Seq::<Seq<i32>>::empty()));
    assert(!has_empty_clause(Seq::<Seq<i32>>::empty()));
}

/// The facts about the verdict on `f` that `solve` promises.
proof fn lemma_dpll_verdict(f: Seq<Seq<i32>>)
    requires
        formula_ok(f),
    ensures
        dpll(f) is None <==> !satisfiable(f),
        dpll(f) is Some ==> is_model(dpll(f)->0, f),
        has_empty_clause(f) ==> dpll(f) is None,
        f.len() == 0 ==> dpll(f) == Some(Seq::<i32>::empty()),
{
    if dpll(f) is Some {
        lemma_dpll_sound(f);
    } else {
        lemma_dpll_complete(f);
    }
    if has_empty_clause(f) {
        lemma_dpll_empty_clause(f, Seq::empty());
    }
    if f.len() == 0 {
        lemma_dpll_empty_formula(Seq::empty());
        assert(f =~= Seq::<Seq<i32>>::empty());
    }
}

/// Whether some clause is empty.
fn any_empty_clause(formula: &Formula) -> (r: bool)
    ensures
        r == has_empty_clause(formula_view(formula@)),
{
    let ghost fv = formula_view(formula@);
    let mut i: usize = 0;
    while i < formula.len()
        invariant
            i <= formula.len(),
            fv == formula_view(formula@),
            forall|k: int| 0 <= k < i ==> fv[k].len() != 0,
        decreases formula.len() - i,
    {
        if formula[i].len() == 0 {
            assert(fv[i as int].len() == 0);
            return true;
        }
        i += 1;
    }
    false
}

/// The literal of the first unit clause, if there is one.
fn find_unit(formula: &Formula) -> (r: Option<Literal>)
    ensures
        r == unit_from(formula_view(formula@), 0),
{
    let ghost fv = formula_view(formula@);
    let mut i: usize = 0;
    while i < formula.len()
        invariant
            i <= formula.len(),
            fv == formula_view(formula@),
            unit_from(fv, 0) == unit_from(fv, i as int),
        decreases formula.len() - i,
    {
        if formula[i].len() == 1 {
            return Some(formula[i][0]);
        }
        i += 1;
    }
    None
}

/// Decides whether `formula` is satisfiable. Unit clauses are propagated
/// first; then the first literal of the first clause is tried true, and, if
/// that fails, false, each on a simplified copy. A model lists the literals
/// set true by the deeper calls, then those forced here, then the branch
/// literal.
pub fn solve(formula: Formula) -> (r: Status)
    requires
        formula_ok(formula_view(formula@)),
    ensures
        r@ == dpll(formula_view(formula@)),
        r is Unsat <==> !satisfiable(formula_view(formula@)),
        r matches Status::Sat(m) ==> is_model(m@, formula_view(formula@)),
        has_empty_clause(formula_view(formula@)) ==> r is Unsat,
        formula@.len() == 0 ==> r@ == Some(Seq::<i32>::empty()),
    decreases size(formula_view(formula@)),
{
    let ghost f0 = formula_view(formula@);
    proof {
        lemma_dpll_verdict(f0);
    }
    let mut current = formula;
    let mut assignment: Vec<Literal> = Vec::new();
    loop
        invariant
            formula_ok(formula_view(current@)),
            dpll_from(formula_view(current@), assignment@) == dpll(f0),
            f0 == formula_view(formula@),
            formula_ok(f0),
            size(formula_view(current@)) <= size(f0),
        ensures
            !has_empty_clause(formula_view(current@)),
            current@.len() > 0,
            unit_from(formula_view(current@), 0) is None,
        decreases size(formula_view(current@)),
    {
        if any_empty_clause(&current) {
            proof {
                lemma_dpll_empty_clause(formula_view(current@), assignment@);
                lemma_dpll_verdict(f0);
            }
            return Status::Unsat;
        }
        if current.len() == 0 {
            proof {
                lemma_dpll_empty_formula(assignment@);
                assert(formula_view(current@) =~= Seq::<Seq<i32>>::empty());
                lemma_dpll_verdict(f0);
            }
            return Status::Sat(assignment);
        }
        match find_unit(&current) {
            Some(lit) => {
                let ghost fv = formula_view(current@);
                proof {
                    lemma_unit_from(fv, 0);
                    let k = choose|k: int| 0 <= k < fv.len() && (#[trigger] fv[k]).len() == 1 && fv[k][0] == lit
                        && fv[k].contains(lit);
                    assert(lit_ok(fv[k][0]));
                    lemma_simplify_shrinks(fv, lit, k);
                    lemma_simplify_ok(fv, lit);
                }
                assignment.push(lit);
                current = simplify_formula(&current, lit);
            },
            None => break,
        }
    }
    let ghost fv = formula_view(current@);
    let pivot = current[0][0];
    proof {
        assert(fv[0].len() > 0);
        assert(fv[0][0] == pivot);
        assert(fv[0].contains(pivot));
        assert(lit_ok(pivot));
        assert(neg(neg(pivot)) == pivot);
        lemma_simplify_shrinks(fv, pivot, 0);
        lemma_simplify_shrinks(fv, neg(pivot), 0);
        lemma_simplify_ok(fv, pivot);
        lemma_simplify_ok(fv, neg(pivot));
    }
    let formula_true = simplify_formula(&current, pivot);
    match solve(formula_true) {
        Status::Sat(mut res) => {
            res.append(&mut assignment);
            res.push(pivot);
            Status::Sat(res)
        },
        Status::Unsat => {
            let formula_false = simplify_formula(&current, -pivot);
            match solve(formula_false) {
                Status::Sat(mut res) => {
                    res.append(&mut assignment);
                    res.push(-pivot);
                    Status::Sat(res)
                },
                Status::Unsat => Status::Unsat,
            }
        },
    }
}

} // verus!
