//! Literals, clauses and formulas, and what it means for an assignment to
//! satisfy them.

use vstd::prelude::*;

verus! {

/// A nonzero integer: its magnitude names a variable, its sign the polarity.
pub type Literal = i32;

/// A disjunction of literals; empty, it is a conflict.
pub type Clause = Vec<Literal>;

/// A conjunction of clauses; empty, it is trivially true.
pub type Formula = Vec<Clause>;

/// The clauses of a formula as sequences of literals.
pub open spec fn formula_view(f: Seq<Vec<i32>>) -> Seq<Seq<i32>> {
    f.map_values(|c: Vec<i32>| c@)
}

/// A literal that names a variable and whose negation is an `i32` too.
pub open spec fn lit_ok(l: i32) -> bool {
    l != 0 && l != i32::MIN
}

/// Every literal of every clause is well formed.
pub open spec fn formula_ok(f: Seq<Seq<i32>>) -> bool {
    forall|i: int, j: int| 0 <= i < f.len() && 0 <= j < f[i].len() ==> lit_ok(#[trigger] f[i][j])
}

/// The negation of a literal (for `lit_ok` literals, exact).
pub open spec fn neg(l: i32) -> i32 {
    (-(l as int)) as i32
}

/// The variable that a literal speaks of.
pub open spec fn var(l: i32) -> int {
    if l < 0 {
        -(l as int)
    } else {
        l as int
    }
}

/// Some literal of the formula speaks of variable `v`.
pub open spec fn mentions(f: Seq<Seq<i32>>, v: int) -> bool {
    exists|i: int, j: int| 0 <= i < f.len() && 0 <= j < f[i].len() && var(#[trigger] f[i][j]) == v
}

/// Some clause of the formula is empty.
pub open spec fn has_empty_clause(f: Seq<Seq<i32>>) -> bool {
    exists|i: int| 0 <= i < f.len() && #[trigger] f[i].len() == 0
}

/// The number of literal occurrences in the formula.
pub open spec fn size(f: Seq<Seq<i32>>) -> nat
    decreases f.len(),
{
    if f.len() == 0 {
        0
    } else {
        size(f.drop_last()) + f.last().len()
    }
}

/// The truth value of a literal when variable `v` has value `a(v)`.
pub open spec fn lit_holds(a: spec_fn(int) -> bool, l: i32) -> bool {
    if l > 0 {
        a(l as int)
    } else {
        !a(-(l as int))
    }
}

/// Some literal of the clause is true under `a`.
pub open spec fn clause_holds(a: spec_fn(int) -> bool, c: Seq<i32>) -> bool {
    exists|j: int| 0 <= j < c.len() && lit_holds(a, #[trigger] c[j])
}

/// Every clause of the formula is true under `a`.
pub open spec fn formula_holds(a: spec_fn(int) -> bool, f: Seq<Seq<i32>>) -> bool {
    forall|i: int| 0 <= i < f.len() ==> clause_holds(a, #[trigger] f[i])
}

/// Some assignment of truth values to variables makes the formula true.
pub open spec fn satisfiable(f: Seq<Seq<i32>>) -> bool {
    exists|a: spec_fn(int) -> bool| formula_holds(a, f)
}

/// No two entries of the list of literals speak of the same variable.
pub open spec fn distinct_vars(m: Seq<i32>) -> bool {
    forall|i: int, k: int| 0 <= i < m.len() && 0 <= k < m.len() && i != k ==> var(m[i]) != var(m[k])
}

/// The assignment that a list of literals stands for: a variable is true
/// exactly when it occurs there as a positive literal.
pub open spec fn assignment_of(m: Seq<i32>) -> spec_fn(int) -> bool {
    |v: int| exists|k: int| 0 <= k < m.len() && m[k] as int == v
}

/// The clause holds a literal that occurs in `m`.
pub open spec fn clause_hit(m: Seq<i32>, c: Seq<i32>) -> bool {
    exists|j: int| 0 <= j < c.len() && m.contains(#[trigger] c[j])
}

/// Every clause of the formula holds a literal that occurs in `m`.
pub open spec fn hits_every_clause(m: Seq<i32>, f: Seq<Seq<i32>>) -> bool {
    forall|i: int| 0 <= i < f.len() ==> clause_hit(m, #[trigger] f[i])
}

/// Appending a clause adds its length to the size.
pub proof fn lemma_size_push(f: Seq<Seq<i32>>, c: Seq<i32>)
    ensures
        size(f.push(c)) == size(f) + c.len(),
{
    assert(f.push(c).drop_last() =~= f);
}

/// A literal and its negation take opposite truth values.
pub proof fn lemma_neg_holds(a: spec_fn(int) -> bool, l: i32)
    requires
        lit_ok(l),
    ensures
        lit_holds(a, neg(l)) == !lit_holds(a, l),
        var(neg(l)) == var(l),
        lit_ok(neg(l)),
{
}

/// Hitting every clause survives adding literals to the list.
pub proof fn lemma_hits_grow(s: Seq<i32>, m: Seq<i32>, f: Seq<Seq<i32>>)
    requires
        hits_every_clause(s, f),
        forall|k: int| 0 <= k < s.len() ==> m.contains(#[trigger] s[k]),
    ensures
        hits_every_clause(m, f),
{
    assert forall|i: int| 0 <= i < f.len() implies clause_hit(m, #[trigger] f[i]) by {
        assert(clause_hit(s, f[i]));
        let j = choose|j: int| 0 <= j < f[i].len() && s.contains(#[trigger] f[i][j]);
        let k = choose|k: int| 0 <= k < s.len() && s[k] == f[i][j];
        assert(m.contains(s[k]));
    }
}

/// Two lists without a repeated variable, and without a variable in common,
/// make one without a repeated variable.
pub proof fn lemma_distinct_concat(s: Seq<i32>, t: Seq<i32>)
    requires
        distinct_vars(s),
        distinct_vars(t),
        forall|i: int, k: int| 0 <= i < s.len() && 0 <= k < t.len() ==> var(#[trigger] s[i]) != var(#[trigger] t[k]),
    ensures
        distinct_vars(s + t),
{
    let u = s + t;
    assert forall|i: int, k: int| 0 <= i < u.len() && 0 <= k < u.len() && i != k implies var(u[i]) != var(u[k]) by {
        if i < s.len() && k >= s.len() {
            assert(u[k] == t[k - s.len()]);
        } else if i >= s.len() && k < s.len() {
            assert(u[i] == t[i - s.len()]);
        } else if i >= s.len() && k >= s.len() {
            assert(u[i] == t[i - s.len()]);
            assert(u[k] == t[k - s.len()]);
        }
    }
}

/// A list of well-formed literals without a repeated variable that hits every
/// clause of `f` stands for an assignment that makes `f` true.
pub proof fn lemma_hits_holds(m: Seq<i32>, f: Seq<Seq<i32>>)
    requires
        distinct_vars(m),
        forall|k: int| 0 <= k < m.len() ==> lit_ok(#[trigger] m[k]),
        hits_every_clause(m, f),
    ensures
        formula_holds(assignment_of(m), f),
{
    let a = assignment_of(m);
    assert forall|i: int| 0 <= i < f.len() implies clause_holds(a, #[trigger] f[i]) by {
        assert(clause_hit(m, f[i]));
        let j = choose|j: int| 0 <= j < f[i].len() && m.contains(#[trigger] f[i][j]);
        let x = f[i][j];
        let t = choose|t: int| 0 <= t < m.len() && m[t] == x;
        assert(lit_ok(m[t]));
        if x > 0 {
            assert(a(x as int));
        } else {
            assert(!a(-(x as int))) by {
                if a(-(x as int)) {
                    let k = choose|k: int| 0 <= k < m.len() && m[k] as int == -(x as int);
                    assert(var(m[k]) == var(m[t]));
                }
            }
        }
        assert(lit_holds(a, f[i][j]));
    }
}

} // verus!
