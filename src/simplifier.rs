//! The residual formula once a literal is assumed true.

use vstd::prelude::*;
use crate::cnf::{
    Formula, Literal, formula_view, neg, lit_ok, formula_ok, var, mentions, size, lemma_size_push,
    lemma_neg_holds, lit_holds, clause_holds, formula_holds, clause_hit, hits_every_clause,
};

verus! {

/// The clause `c` with every occurrence of `x` taken out, the other literals
/// kept in their order.
pub open spec fn without(c: Seq<i32>, x: i32) -> Seq<i32>
    decreases c.len(),
{
    if c.len() == 0 {
        c
    } else if c.last() == x {
        without(c.drop_last(), x)
    } else {
        without(c.drop_last(), x).push(c.last())
    }
}

/// The formula `f` with `l` assumed true: each clause that contains `l` is
/// dropped, and `-l` is taken out of each other clause, in the original order.
pub open spec fn simplify(f: Seq<Seq<i32>>, l: i32) -> Seq<Seq<i32>>
    decreases f.len(),
{
    if f.len() == 0 {
        f
    } else if f.last().contains(l) {
        simplify(f.drop_last(), l)
    } else {
        simplify(f.drop_last(), l).push(without(f.last(), neg(l)))
    }
}

/// What `without` keeps: the literals of `c` other than `x`.
pub proof fn lemma_without_members(c: Seq<i32>, x: i32)
    ensures
        without(c, x).len() <= c.len(),
        c.contains(x) ==> without(c, x).len() < c.len(),
        !c.contains(x) ==> without(c, x) == c,
        forall|k: int| 0 <= k < without(c, x).len() ==> #[trigger] without(c, x)[k] != x
            && c.contains(without(c, x)[k]),
        forall|j: int| 0 <= j < c.len() && c[j] != x ==> without(c, x).contains(#[trigger] c[j]),
    decreases c.len(),
{
    if c.len() > 0 {
        let d = c.drop_last();
        lemma_without_members(d, x);
        assert(c =~= d.push(c.last()));
        let w = without(c, x);
        let wd = without(d, x);
        assert forall|k: int| 0 <= k < w.len() implies #[trigger] w[k] != x && c.contains(w[k]) by {
            if k < wd.len() {
                assert(w[k] == wd[k]);
                let t = choose|t: int| 0 <= t < d.len() && d[t] == wd[k];
                assert(c[t] == d[t]);
            } else {
                assert(w[k] == c[c.len() - 1]);
            }
        }
        assert forall|j: int| 0 <= j < c.len() && c[j] != x implies w.contains(#[trigger] c[j]) by {
            if j < d.len() {
                assert(c[j] == d[j]);
                let t = choose|t: int| 0 <= t < wd.len() && wd[t] == d[j];
                if c.last() != x {
                    assert(w[t] == wd[t]);
                }
            } else {
                assert(w[w.len() - 1] == c[j]);
            }
        }
        if c.contains(x) && c.last() != x {
            let t = choose|t: int| 0 <= t < c.len() && c[t] == x;
            assert(d[t] == x);
        }
        if !c.contains(x) {
            assert(!d.contains(x)) by {
                if d.contains(x) {
                    let t = choose|t: int| 0 <= t < d.len() && d[t] == x;
                    assert(c[t] == x);
                }
            }
            assert(c.last() != x) by {
                assert(c[c.len() - 1] == c.last());
            }
        }
    }
}

/// Each clause of `simplify(f, l)` comes from a clause of `f` without `l`, and
/// each clause of `f` without `l` gives one.
pub proof fn lemma_simplify_members(f: Seq<Seq<i32>>, l: i32)
    ensures
        forall|k: int| 0 <= k < simplify(f, l).len() ==> exists|i: int| 0 <= i < f.len()
            && !f[i].contains(l) && #[trigger] simplify(f, l)[k] == without(f[i], neg(l)),
        forall|i: int| 0 <= i < f.len() && !f[i].contains(l) ==> exists|k: int|
            0 <= k < simplify(f, l).len() && simplify(f, l)[k] == without(#[trigger] f[i], neg(l)),
    decreases f.len(),
{
    if f.len() > 0 {
        let d = f.drop_last();
        lemma_simplify_members(d, l);
        let s = simplify(f, l);
        let sd = simplify(d, l);
        assert forall|k: int| 0 <= k < s.len() implies exists|i: int| 0 <= i < f.len()
            && !f[i].contains(l) && #[trigger] s[k] == without(f[i], neg(l)) by {
            if k < sd.len() {
                assert(s[k] == sd[k]);
                let i = choose|i: int| 0 <= i < d.len() && !d[i].contains(l) && sd[k] == without(d[i], neg(l));
                assert(f[i] == d[i]);
            } else {
                assert(f[f.len() - 1] == f.last());
            }
        }
        assert forall|i: int| 0 <= i < f.len() && !f[i].contains(l) implies exists|k: int|
            0 <= k < s.len() && s[k] == without(#[trigger] f[i], neg(l)) by {
            if i < d.len() {
                assert(f[i] == d[i]);
                let k = choose|k: int| 0 <= k < sd.len() && sd[k] == without(d[i], neg(l));
                if !f.last().contains(l) {
                    assert(s[k] == sd[k]);
                }
            } else {
                assert(f[i] == f.last());
                assert(s[s.len() - 1] == without(f[i], neg(l)));
            }
        }
    }
}

/// Simplifying never adds literal occurrences.
pub proof fn lemma_simplify_size(f: Seq<Seq<i32>>, l: i32)
    ensures
        size(simplify(f, l)) <= size(f),
    decreases f.len(),
{
    if f.len() > 0 {
        lemma_simplify_size(f.drop_last(), l);
        lemma_without_members(f.last(), neg(l));
        lemma_size_push(simplify(f.drop_last(), l), without(f.last(), neg(l)));
    }
}

/// Simplifying removes at least one literal occurrence when clause `i`
/// contains `l` or its negation.
pub proof fn lemma_simplify_shrinks(f: Seq<Seq<i32>>, l: i32, i: int)
    requires
        0 <= i < f.len(),
        f[i].contains(l) || f[i].contains(neg(l)),
    ensures
        size(simplify(f, l)) < size(f),
    decreases f.len(),
{
    let d = f.drop_last();
    lemma_without_members(f.last(), neg(l));
    lemma_size_push(simplify(d, l), without(f.last(), neg(l)));
    if i < d.len() {
        assert(d[i] == f[i]);
        lemma_simplify_shrinks(d, l, i);
    } else {
        assert(f[i] == f.last());
        lemma_simplify_size(d, l);
    }
}

/// `simplify(f, l)` keeps no clause that contains `l`; each clause of `f`
/// without `l` stands there with every `-l` taken out, and nothing else
/// changed.
pub proof fn lemma_simplify_correct(f: Seq<Seq<i32>>, l: i32)
    ensures
        forall|k: int| 0 <= k < simplify(f, l).len() ==> !(#[trigger] simplify(f, l)[k]).contains(l),
        forall|i: int| 0 <= i < f.len() && !f[i].contains(l) && f[i].contains(neg(l)) ==> exists|k: int|
            0 <= k < simplify(f, l).len() && simplify(f, l)[k] == without(#[trigger] f[i], neg(l)),
        forall|i: int| 0 <= i < f.len() && !f[i].contains(l) && !f[i].contains(neg(l)) ==> exists|k: int|
            0 <= k < simplify(f, l).len() && simplify(f, l)[k] == #[trigger] f[i],
{
    lemma_simplify_members(f, l);
    let s = simplify(f, l);
    assert forall|k: int| 0 <= k < s.len() implies !(#[trigger] s[k]).contains(l) by {
        let i = choose|i: int| 0 <= i < f.len() && !f[i].contains(l) && s[k] == without(f[i], neg(l));
        lemma_without_members(f[i], neg(l));
        if s[k].contains(l) {
            let t = choose|t: int| 0 <= t < s[k].len() && s[k][t] == l;
            assert(f[i].contains(s[k][t]));
        }
    }
    assert forall|i: int| 0 <= i < f.len() && !f[i].contains(l) && !f[i].contains(neg(l)) implies exists|k: int|
        0 <= k < s.len() && s[k] == #[trigger] f[i] by {
        lemma_without_members(f[i], neg(l));
    }
}

/// Simplifying keeps literals well formed.
pub proof fn lemma_simplify_ok(f: Seq<Seq<i32>>, l: i32)
    requires
        formula_ok(f),
    ensures
        formula_ok(simplify(f, l)),
{
    lemma_simplify_members(f, l);
    let s = simplify(f, l);
    assert forall|k: int, j: int| 0 <= k < s.len() && 0 <= j < s[k].len() implies lit_ok(#[trigger] s[k][j]) by {
        let i = choose|i: int| 0 <= i < f.len() && !f[i].contains(l) && s[k] == without(f[i], neg(l));
        lemma_without_members(f[i], neg(l));
        assert(f[i].contains(s[k][j]));
        let t = choose|t: int| 0 <= t < f[i].len() && f[i][t] == s[k][j];
        assert(lit_ok(f[i][t]));
    }
}

/// The variable of `l` is gone from `simplify(f, l)`, and no other comes in.
pub proof fn lemma_simplify_mentions(f: Seq<Seq<i32>>, l: i32, v: int)
    requires
        lit_ok(l),
        mentions(simplify(f, l), v),
    ensures
        mentions(f, v),
        v != var(l),
{
    lemma_simplify_members(f, l);
    let s = simplify(f, l);
    let (k, j) = choose|k: int, j: int| 0 <= k < s.len() && 0 <= j < s[k].len() && var(#[trigger] s[k][j]) == v;
    let i = choose|i: int| 0 <= i < f.len() && !f[i].contains(l) && s[k] == without(f[i], neg(l));
    lemma_without_members(f[i], neg(l));
    assert(f[i].contains(s[k][j]));
    let t = choose|t: int| 0 <= t < f[i].len() && f[i][t] == s[k][j];
    assert(var(f[i][t]) == v);
    assert(s[k][j] != l) by {
        if s[k][j] == l {
            assert(f[i].contains(l));
        }
    }
}

/// A list of literals that contains `l` and hits every clause of
/// `simplify(f, l)` hits every clause of `f`.
pub proof fn lemma_simplify_hits(m: Seq<i32>, f: Seq<Seq<i32>>, l: i32)
    requires
        m.contains(l),
        hits_every_clause(m, simplify(f, l)),
    ensures
        hits_every_clause(m, f),
{
    lemma_simplify_members(f, l);
    let s = simplify(f, l);
    assert forall|i: int| 0 <= i < f.len() implies clause_hit(m, #[trigger] f[i]) by {
        if f[i].contains(l) {
            let t = choose|t: int| 0 <= t < f[i].len() && f[i][t] == l;
            assert(m.contains(f[i][t]));
        } else {
            let k = choose|k: int| 0 <= k < s.len() && s[k] == without(f[i], neg(l));
            assert(clause_hit(m, s[k]));
            let j = choose|j: int| 0 <= j < s[k].len() && m.contains(#[trigger] s[k][j]);
            lemma_without_members(f[i], neg(l));
            assert(f[i].contains(s[k][j]));
            let t = choose|t: int| 0 <= t < f[i].len() && f[i][t] == s[k][j];
            assert(m.contains(f[i][t]));
        }
    }
}

/// An assignment under which `f` and `l` hold makes `simplify(f, l)` true.
pub proof fn lemma_simplify_holds(a: spec_fn(int) -> bool, f: Seq<Seq<i32>>, l: i32)
    requires
        lit_ok(l),
        formula_holds(a, f),
        lit_holds(a, l),
    ensures
        formula_holds(a, simplify(f, l)),
{
    lemma_simplify_members(f, l);
    let s = simplify(f, l);
    assert forall|k: int| 0 <= k < s.len() implies clause_holds(a, #[trigger] s[k]) by {
        let i = choose|i: int| 0 <= i < f.len() && !f[i].contains(l) && s[k] == without(f[i], neg(l));
        assert(clause_holds(a, f[i]));
        let t = choose|t: int| 0 <= t < f[i].len() && lit_holds(a, #[trigger] f[i][t]);
        lemma_without_members(f[i], neg(l));
        assert(f[i][t] != neg(l)) by {
            lemma_neg_holds(a, l);
        }
        assert(s[k].contains(f[i][t]));
        let j = choose|j: int| 0 <= j < s[k].len() && s[k][j] == f[i][t];
        assert(lit_holds(a, s[k][j]));
    }
}

/// Whether the clause contains the literal `x`.
fn clause_contains(c: &Vec<i32>, x: i32) -> (r: bool)
    ensures
        r == c@.contains(x),
{
    let mut i: usize = 0;
    while i < c.len()
        invariant
            i <= c.len(),
            forall|k: int| 0 <= k < i ==> c@[k] != x,
        decreases c.len() - i,
    {
        if c[i] == x {
            return true;
        }
        i += 1;
    }
    false
}

/// A new clause: `c` with every occurrence of `x` taken out.
fn remove_literal(c: &Vec<i32>, x: i32) -> (r: Vec<i32>)
    ensures
        r@ == without(c@, x),
{
    let mut out: Vec<i32> = Vec::new();
    let mut i: usize = 0;
    while i < c.len()
        invariant
            i <= c.len(),
            out@ == without(c@.take(i as int), x),
        decreases c.len() - i,
    {
        proof {
            assert(c@.take(i as int + 1).drop_last() =~= c@.take(i as int));
        }
        if c[i] != x {
            out.push(c[i]);
        }
        i += 1;
    }
    proof {
        assert(c@.take(c.len() as int) =~= c@);
    }
    out
}

/// The formula that remains once `lit` is assumed true: clauses that contain
/// `lit` are dropped and `-lit` is taken out of the others. The input is left
/// as it is.
pub fn simplify_formula(formula: &Formula, lit: Literal) -> (r: Formula)
    requires
        lit_ok(lit),
    ensures
        formula_view(r@) == simplify(formula_view(formula@), lit),
{
    let neg_lit = -lit;
    let ghost fv = formula_view(formula@);
    let mut new_formula: Vec<Vec<i32>> = Vec::with_capacity(formula.len());
    let mut i: usize = 0;
    while i < formula.len()
        invariant
            i <= formula.len(),
            fv == formula_view(formula@),
            neg_lit == neg(lit),
            formula_view(new_formula@) == simplify(fv.take(i as int), lit),
        decreases formula.len() - i,
    {
        let clause = &formula[i];
        proof {
            assert(fv.take(i as int + 1).drop_last() =~= fv.take(i as int));
            assert(fv.take(i as int + 1).last() == clause@);
        }
        if !clause_contains(clause, lit) {
            let ghost before = new_formula@;
            new_formula.push(remove_literal(clause, neg_lit));
            proof {
                assert(formula_view(new_formula@) =~= formula_view(before).push(new_formula@.last()@));
            }
        }
        i += 1;
    }
    proof {
        assert(fv.take(formula.len() as int) =~= fv);
    }
    new_formula
}

} // verus!
