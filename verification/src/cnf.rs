//! Conversion of negation-normal formulas to conjunctive normal form:
//! clauses over signed literals, the cross-join distribution of
//! disjunction, and tautology pruning.
use crate::logic::Formula;
use crate::logic::SpecFormula;
use crate::logic::all_eval;
use crate::logic::any_eval;
use crate::logic::eval;
use crate::logic::is_nnf;
use crate::logic::all_nnf;
use crate::logic::vars_in;
use crate::logic::all_vars_in;
use crate::logic::wf;
use crate::logic::view_seq;
use vstd::pervasive::unreached;
use vstd::prelude::*;

verus! {

broadcast use vstd::std_specs::vec::axiom_vec_index_decreases;

/// Truth of one signed literal: a positive literal `v` holds when
/// variable `v` is assigned true, a negative literal `-v` when
/// variable `v` is assigned false.
pub open spec fn lit_holds(l: int, a: spec_fn(int) -> bool) -> bool {
    if l > 0 {
        a(l)
    } else {
        !a(-l)
    }
}

/// A clause is the disjunction of its literals.
pub open spec fn clause_eval(c: Seq<int>, a: spec_fn(int) -> bool) -> bool {
    exists|i: int| 0 <= i < c.len() && lit_holds(#[trigger] c[i], a)
}

/// A conjunctive-normal-form value is the conjunction of its clauses.
pub open spec fn cnf_eval(cs: Seq<Seq<int>>, a: spec_fn(int) -> bool) -> bool {
    forall|i: int| 0 <= i < cs.len() ==> clause_eval(#[trigger] cs[i], a)
}

/// The literals of a clause, as mathematical integers.
pub open spec fn lits_view(c: Seq<isize>) -> Seq<int> {
    c.map_values(|x: isize| x as int)
}

/// The clauses of an executable clause list, as sequences of integers.
pub open spec fn clauses_view(cs: Seq<Vec<isize>>) -> Seq<Seq<int>> {
    Seq::new(cs.len(), |i: int| lits_view(cs[i]@))
}

/// The literals of a clause, as a set: a clause is semantically a set.
pub open spec fn clause_set(c: Seq<isize>) -> Set<int> {
    lits_view(c).to_set()
}

/// The clauses of an executable clause list, as sets of literals.
pub open spec fn clause_sets(cs: Seq<Vec<isize>>) -> Seq<Set<int>> {
    Seq::new(cs.len(), |i: int| clause_set(cs[i]@))
}

/// Literals are strictly increasing: the clause is duplicate-free and
/// canonically ordered, so equal literal sets mean equal sequences.
pub open spec fn clause_sorted(c: Seq<isize>) -> bool {
    forall|i: int, j: int| 0 <= i < j < c.len() ==> c[i] < c[j]
}

/// Every literal is nonzero and above the smallest machine value, so
/// its complement is representable.
pub open spec fn clause_lits_wf(c: Seq<isize>) -> bool {
    forall|i: int| 0 <= i < c.len() ==> (#[trigger] c[i] != 0 && c[i] != isize::MIN)
}

/// A tautological clause holds some variable and its complement.
pub open spec fn clause_taut(c: Seq<int>) -> bool {
    exists|i: int, j: int|
        0 <= i < c.len() && 0 <= j < c.len() && #[trigger] c[i] == -(#[trigger] c[j]) && c[j] > 0
}

/// Canonical clause list: sorted duplicate-free clauses, machine-safe
/// literals, no two clauses with the same literals, no tautology.
pub open spec fn clauses_wf(cs: Seq<Vec<isize>>) -> bool {
    &&& forall|i: int|
        0 <= i < cs.len() ==> (clause_sorted(#[trigger] cs[i]@) && clause_lits_wf(cs[i]@)
            && !clause_taut(lits_view(cs[i]@)))
    &&& forall|i: int, j: int| 0 <= i < j < cs.len() ==> cs[i]@ != cs[j]@
}

fn contains_lit(c: &Vec<isize>, l: isize) -> (r: bool)
    ensures
        r == c@.contains(l),
{
    let mut i: usize = 0;
    while i < c.len()
        invariant
            i <= c.len(),
            forall|j: int| 0 <= j < i ==> c@[j] != l,
        decreases c.len() - i,
    {
        if c[i] == l {
            return true;
        }
        i += 1;
    }
    proof {
        if c@.contains(l) {
            let t = choose|t: int| 0 <= t < c@.len() && c@[t] == l;
        }
    }
    false
}

/// Insert a literal into a sorted duplicate-free clause, keeping it so.
#[verifier::loop_isolation(false)]
fn insert_lit(c: &mut Vec<isize>, l: isize)
    requires
        clause_sorted(old(c)@),
    ensures
        clause_sorted(final(c)@),
        final(c)@.contains(l),
        forall|x: isize| old(c)@.contains(x) ==> final(c)@.contains(x),
        forall|x: isize| final(c)@.contains(x) ==> (old(c)@.contains(x) || x == l),
{
    let ghost c0 = c@;
    let mut i: usize = 0;
    while i < c.len() && c[i] < l
        invariant
            i <= c.len(),
            forall|j: int| 0 <= j < i ==> c@[j] < l,
            c@ == c0,
        decreases c.len() - i,
    {
        i += 1;
    }
    if i < c.len() && c[i] == l {
        proof {
            assert(c@.contains(l));
            assert forall|x: isize| c@.contains(x) <==> (c0.contains(x) || x == l) by {}
        }
        return ;
    }
    c.insert(i, l);
    proof {
        assert(c@ == c0.insert(i as int, l));
        assert forall|p: int, q: int| 0 <= p < q < c@.len() implies c@[p] < c@[q] by {
            if q < i {
                assert(c@[p] == c0[p] && c@[q] == c0[q]);
            } else if p > i {
                assert(c@[p] == c0[p - 1] && c@[q] == c0[q - 1]);
            } else if p == i {
                assert(c@[p] == l);
                assert(c@[q] == c0[q - 1]);
                assert(q - 1 >= i);
                assert(!(c0[q - 1] < l) || false) by {
                    if q - 1 == i {
                        assert(i < c0.len());
                        assert(!(c0[i as int] < l));
                    } else {
                        assert(c0[i as int] <= c0[q - 1] || i >= c0.len());
                        if i < c0.len() {
                            assert(!(c0[i as int] < l));
                        }
                    }
                }
                assert(c0[q - 1] != l);
                assert(c@[p] < c@[q]);
            } else if q == i {
                assert(c@[q] == l);
                assert(c@[p] == c0[p]);
                assert(c0[p] < l);
            }
        }
        assert forall|x: isize| c@.contains(x) <==> (c0.contains(x) || x == l) by {
            if c@.contains(x) {
                let t = choose|t: int| 0 <= t < c@.len() && c@[t] == x;
                if t < i {
                    assert(c0[t] == x);
                    assert(c0.contains(x));
                } else if t == i {
                } else {
                    assert(c0[t - 1] == x);
                    assert(c0.contains(x));
                }
            }
            if c0.contains(x) {
                let t = choose|t: int| 0 <= t < c0.len() && c0[t] == x;
                if t < i {
                    assert(c@[t] == x);
                } else {
                    assert(c@[t + 1] == x);
                }
                assert(c@.contains(x));
            }
            if x == l {
                assert(c@[i as int] == x);
                assert(c@.contains(x));
            }
        }
        assert(c@[i as int] == l);
        assert(c@.contains(l));
    }
}

/// The set union of two clauses, in canonical sorted order.
fn clause_union(a: &Vec<isize>, b: &Vec<isize>) -> (r: Vec<isize>)
    ensures
        clause_sorted(r@),
        forall|x: isize| r@.contains(x) <==> (a@.contains(x) || b@.contains(x)),
{
    let mut r: Vec<isize> = Vec::new();
    let mut i: usize = 0;
    while i < a.len()
        invariant
            i <= a.len(),
            clause_sorted(r@),
            forall|x: isize| r@.contains(x) <==> a@.subrange(0, i as int).contains(x),
        decreases a.len() - i,
    {
        let ghost rpre = r@;
        insert_lit(&mut r, a[i]);
        proof {
            assert forall|x: isize|
                r@.contains(x) <==> a@.subrange(0, i + 1).contains(x) by {
                assert(r@.contains(x) <==> (rpre.contains(x) || x == a@[i as int]));
                if a@.subrange(0, i as int).contains(x) {
                    let t = choose|t: int|
                        0 <= t < i && a@.subrange(0, i as int)[t] == x;
                    assert(a@.subrange(0, i + 1)[t] == x);
                }
                if x == a@[i as int] {
                    assert(a@.subrange(0, i + 1)[i as int] == x);
                }
                if a@.subrange(0, i + 1).contains(x) {
                    let t = choose|t: int|
                        0 <= t < i + 1 && #[trigger] a@.subrange(0, i + 1)[t] == x;
                    if t < i {
                        assert(a@.subrange(0, i as int)[t] == x);
                    }
                }
            }
        }
        i += 1;
    }
    proof {
        assert(a@.subrange(0, a@.len() as int) =~= a@);
    }
    let mut j: usize = 0;
    while j < b.len()
        invariant
            j <= b.len(),
            clause_sorted(r@),
            forall|x: isize|
                r@.contains(x) <==> (a@.contains(x) || b@.subrange(0, j as int).contains(x)),
        decreases b.len() - j,
    {
        let ghost rpre = r@;
        insert_lit(&mut r, b[j]);
        proof {
            assert forall|x: isize|
                r@.contains(x) <==> (a@.contains(x) || b@.subrange(0, j + 1).contains(x)) by {
                assert(r@.contains(x) <==> (rpre.contains(x) || x == b@[j as int]));
                if b@.subrange(0, j as int).contains(x) {
                    let t = choose|t: int|
                        0 <= t < j && b@.subrange(0, j as int)[t] == x;
                    assert(b@.subrange(0, j + 1)[t] == x);
                }
                if x == b@[j as int] {
                    assert(b@.subrange(0, j + 1)[j as int] == x);
                }
                if b@.subrange(0, j + 1).contains(x) {
                    let t = choose|t: int|
                        0 <= t < j + 1 && #[trigger] b@.subrange(0, j + 1)[t] == x;
                    if t < j {
                        assert(b@.subrange(0, j as int)[t] == x);
                    }
                }
            }
        }
        j += 1;
    }
    proof {
        assert(b@.subrange(0, b@.len() as int) =~= b@);
    }
    r
}

// ---------------------------------------------------------------------
// Cross-join distribution of disjunction over clause sets
// ---------------------------------------------------------------------

/// The union of one fixed clause with each clause of a list.
pub open spec fn map_union(s: Set<int>, sos: Seq<Set<int>>) -> Seq<Set<int>> {
    Seq::new(sos.len(), |j: int| s.union(sos[j]))
}

/// All clauses formed by one pick from `ss` joined with one pick from
/// `sos`, in row-major order.
pub open spec fn cross_join(ss: Seq<Set<int>>, sos: Seq<Set<int>>) -> Seq<Set<int>>
    decreases ss,
{
    if ss.len() == 0 {
        Seq::empty()
    } else {
        cross_join(ss.drop_last(), sos) + map_union(ss.last(), sos)
    }
}

/// Each element of `sss` is one clause set; the result holds, for every
/// way of picking one clause from each element, the union of the picks.
/// Zero elements give the singleton list of the empty clause.
pub open spec fn spec_flatperm(sss: Seq<Seq<Set<int>>>) -> Seq<Set<int>>
    decreases sss,
{
    if sss.len() == 0 {
        seq![Set::<int>::empty()]
    } else {
        cross_join(sss[0], spec_flatperm(sss.drop_first()))
    }
}

/// The product of the clause-set sizes.
pub open spec fn sizes_product(sss: Seq<Seq<Set<int>>>) -> int
    decreases sss,
{
    if sss.len() == 0 {
        1
    } else {
        sss[0].len() * sizes_product(sss.drop_first())
    }
}

proof fn lemma_cross_join_len(ss: Seq<Set<int>>, sos: Seq<Set<int>>)
    ensures
        cross_join(ss, sos).len() == ss.len() * sos.len(),
    decreases ss,
{
    if ss.len() == 0 {
    } else {
        lemma_cross_join_len(ss.drop_last(), sos);
        assert((ss.len() - 1) * sos.len() + sos.len() == ss.len() * sos.len())
            by (nonlinear_arith);
    }
}

/// The cross-join of `k` clause sets of sizes `n_1 .. n_k` has exactly
/// `n_1 * n_2 * ... * n_k` clauses, before any pruning.
pub proof fn lemma_flatperm_count(sss: Seq<Seq<Set<int>>>)
    ensures
        spec_flatperm(sss).len() == sizes_product(sss),
    decreases sss,
{
    if sss.len() == 0 {
    } else {
        lemma_flatperm_count(sss.drop_first());
        lemma_cross_join_len(sss[0], spec_flatperm(sss.drop_first()));
    }
}

/// Truth of a clause given as a set of literals.
pub open spec fn clause_eval_set(c: Set<int>, a: spec_fn(int) -> bool) -> bool {
    exists|l: int| #[trigger] c.contains(l) && lit_holds(l, a)
}

/// Truth of a clause list given as sets of literals.
pub open spec fn cnf_eval_sets(cs: Seq<Set<int>>, a: spec_fn(int) -> bool) -> bool {
    forall|i: int| 0 <= i < cs.len() ==> clause_eval_set(#[trigger] cs[i], a)
}

proof fn lemma_union_eval(s: Set<int>, t: Set<int>, a: spec_fn(int) -> bool)
    ensures
        clause_eval_set(s.union(t), a) == (clause_eval_set(s, a) || clause_eval_set(t, a)),
{
    if clause_eval_set(s.union(t), a) {
        let l = choose|l: int| #[trigger] s.union(t).contains(l) && lit_holds(l, a);
        if s.contains(l) {
            assert(clause_eval_set(s, a));
        } else {
            assert(t.contains(l));
            assert(clause_eval_set(t, a));
        }
    }
    if clause_eval_set(s, a) {
        let l = choose|l: int| #[trigger] s.contains(l) && lit_holds(l, a);
        assert(s.union(t).contains(l));
        assert(clause_eval_set(s.union(t), a));
    }
    if clause_eval_set(t, a) {
        let l = choose|l: int| #[trigger] t.contains(l) && lit_holds(l, a);
        assert(s.union(t).contains(l));
        assert(clause_eval_set(s.union(t), a));
    }
}

proof fn lemma_cnf_sets_concat(x: Seq<Set<int>>, y: Seq<Set<int>>, a: spec_fn(int) -> bool)
    ensures
        cnf_eval_sets(x + y, a) == (cnf_eval_sets(x, a) && cnf_eval_sets(y, a)),
{
    if cnf_eval_sets(x + y, a) {
        assert forall|i: int| 0 <= i < x.len() implies clause_eval_set(#[trigger] x[i], a) by {
            assert((x + y)[i] == x[i]);
            assert(clause_eval_set((x + y)[i], a));
        }
        assert forall|i: int| 0 <= i < y.len() implies clause_eval_set(#[trigger] y[i], a) by {
            assert((x + y)[x.len() + i] == y[i]);
            assert(clause_eval_set((x + y)[x.len() + i], a));
        }
    }
    if cnf_eval_sets(x, a) && cnf_eval_sets(y, a) {
        assert forall|i: int|
            0 <= i < (x + y).len() implies clause_eval_set(#[trigger] (x + y)[i], a) by {
            if i < x.len() {
                assert((x + y)[i] == x[i]);
            } else {
                assert((x + y)[i] == y[i - x.len()]);
            }
        }
    }
}

proof fn lemma_map_union_eval(s: Set<int>, sos: Seq<Set<int>>, a: spec_fn(int) -> bool)
    ensures
        cnf_eval_sets(map_union(s, sos), a) == (clause_eval_set(s, a) || cnf_eval_sets(sos, a)),
{
    let mu = map_union(s, sos);
    assert forall|j: int|
        0 <= j < mu.len() implies clause_eval_set(#[trigger] mu[j], a) == (clause_eval_set(s, a)
        || clause_eval_set(sos[j], a)) by {
        lemma_union_eval(s, sos[j], a);
    }
    if clause_eval_set(s, a) {
        assert forall|j: int| 0 <= j < mu.len() implies clause_eval_set(#[trigger] mu[j], a) by {}
    } else {
        if cnf_eval_sets(mu, a) {
            assert forall|j: int|
                0 <= j < sos.len() implies clause_eval_set(#[trigger] sos[j], a) by {
                assert(clause_eval_set(mu[j], a));
            }
        }
        if cnf_eval_sets(sos, a) {
            assert forall|j: int|
                0 <= j < mu.len() implies clause_eval_set(#[trigger] mu[j], a) by {
                assert(clause_eval_set(sos[j], a));
            }
        }
    }
}

proof fn lemma_cross_join_eval(ss: Seq<Set<int>>, sos: Seq<Set<int>>, a: spec_fn(int) -> bool)
    ensures
        cnf_eval_sets(cross_join(ss, sos), a) == (cnf_eval_sets(ss, a) || cnf_eval_sets(sos, a)),
    decreases ss,
{
    if ss.len() == 0 {
        assert(cross_join(ss, sos) =~= Seq::<Set<int>>::empty());
    } else {
        let dl = ss.drop_last();
        lemma_cross_join_eval(dl, sos, a);
        lemma_cnf_sets_concat(cross_join(dl, sos), map_union(ss.last(), sos), a);
        lemma_map_union_eval(ss.last(), sos, a);
        assert(cnf_eval_sets(ss, a) == (cnf_eval_sets(dl, a) && clause_eval_set(ss.last(), a)))
            by {
            if cnf_eval_sets(ss, a) {
                assert forall|i: int|
                    0 <= i < dl.len() implies clause_eval_set(#[trigger] dl[i], a) by {
                    assert(dl[i] == ss[i]);
                    assert(clause_eval_set(ss[i], a));
                }
                assert(ss[ss.len() - 1] == ss.last());
                assert(clause_eval_set(ss[ss.len() - 1], a));
            }
            if cnf_eval_sets(dl, a) && clause_eval_set(ss.last(), a) {
                assert forall|i: int|
                    0 <= i < ss.len() implies clause_eval_set(#[trigger] ss[i], a) by {
                    if i < ss.len() - 1 {
                        assert(ss[i] == dl[i]);
                        assert(clause_eval_set(dl[i], a));
                    }
                }
            }
        }
    }
}

/// The cross-join of the clause sets of several sub-formulas holds
/// exactly when some sub-formula's clause set holds: disjunction
/// distributed over the children's conjunctions.
pub proof fn lemma_flatperm_eval(sss: Seq<Seq<Set<int>>>, a: spec_fn(int) -> bool)
    ensures
        cnf_eval_sets(spec_flatperm(sss), a) == (exists|i: int|
            0 <= i < sss.len() && cnf_eval_sets(#[trigger] sss[i], a)),
    decreases sss,
{
    if sss.len() == 0 {
        assert(!clause_eval_set(Set::<int>::empty(), a)) by {
            if clause_eval_set(Set::<int>::empty(), a) {
                let l = choose|l: int| #[trigger]
                    Set::<int>::empty().contains(l) && lit_holds(l, a);
            }
        }
        assert(spec_flatperm(sss)[0] == Set::<int>::empty());
        assert(!cnf_eval_sets(spec_flatperm(sss), a));
    } else {
        let rest = sss.drop_first();
        lemma_flatperm_eval(rest, a);
        lemma_cross_join_eval(sss[0], spec_flatperm(rest), a);
        if cnf_eval_sets(spec_flatperm(sss), a) {
            if cnf_eval_sets(sss[0], a) {
                assert(exists|i: int| 0 <= i < sss.len() && cnf_eval_sets(#[trigger] sss[i], a));
            } else {
                let i = choose|i: int| 0 <= i < rest.len() && cnf_eval_sets(#[trigger] rest[i], a);
                assert(rest[i] == sss[i + 1]);
                assert(cnf_eval_sets(sss[i + 1], a));
            }
        }
        if exists|i: int| 0 <= i < sss.len() && cnf_eval_sets(#[trigger] sss[i], a) {
            let i = choose|i: int| 0 <= i < sss.len() && cnf_eval_sets(#[trigger] sss[i], a);
            if i == 0 {
            } else {
                assert(rest[i - 1] == sss[i]);
                assert(cnf_eval_sets(rest[i - 1], a));
            }
        }
    }
}

proof fn lemma_clause_set_contains(c: Seq<isize>, x: isize)
    ensures
        clause_set(c).contains(x as int) <==> c.contains(x),
{
    if clause_set(c).contains(x as int) {
        assert(lits_view(c).contains(x as int));
        let t = choose|t: int| 0 <= t < lits_view(c).len() && #[trigger] lits_view(c)[t] == x
            as int;
        assert(c[t] as int == x as int);
        assert(c[t] == x);
    }
    if c.contains(x) {
        let t = choose|t: int| 0 <= t < c.len() && c[t] == x;
        assert(lits_view(c)[t] == x as int);
        assert(lits_view(c).contains(x as int));
    }
}

proof fn lemma_clause_set_member(c: Seq<isize>, v: int)
    requires
        clause_set(c).contains(v),
    ensures
        exists|x: isize| c.contains(x) && x as int == v,
{
    assert(lits_view(c).contains(v));
    let t = choose|t: int| 0 <= t < lits_view(c).len() && #[trigger] lits_view(c)[t] == v;
    assert(c.contains(c[t]));
}

proof fn lemma_clause_union_sets(a: Seq<isize>, b: Seq<isize>, r: Seq<isize>)
    requires
        forall|x: isize| r.contains(x) <==> (a.contains(x) || b.contains(x)),
    ensures
        clause_set(r) == clause_set(a).union(clause_set(b)),
{
    assert forall|v: int|
        clause_set(r).contains(v) <==> clause_set(a).union(clause_set(b)).contains(v) by {
        if clause_set(r).contains(v) {
            lemma_clause_set_member(r, v);
            let x = choose|x: isize| r.contains(x) && x as int == v;
            lemma_clause_set_contains(a, x);
            lemma_clause_set_contains(b, x);
        }
        if clause_set(a).contains(v) {
            lemma_clause_set_member(a, v);
            let x = choose|x: isize| a.contains(x) && x as int == v;
            lemma_clause_set_contains(r, x);
        }
        if clause_set(b).contains(v) {
            lemma_clause_set_member(b, v);
            let x = choose|x: isize| b.contains(x) && x as int == v;
            lemma_clause_set_contains(r, x);
        }
    }
    assert(clause_set(r) =~= clause_set(a).union(clause_set(b)));
}

fn clause_dup(c: &Vec<isize>) -> (r: Vec<isize>)
    ensures
        r@ == c@,
{
    let mut r: Vec<isize> = Vec::new();
    let mut i: usize = 0;
    while i < c.len()
        invariant
            i <= c.len(),
            r@ == c@.subrange(0, i as int),
        decreases c.len() - i,
    {
        r.push(c[i]);
        proof {
            assert(r@ =~= c@.subrange(0, i + 1));
        }
        i += 1;
    }
    proof {
        assert(c@.subrange(0, c@.len() as int) =~= c@);
    }
    r
}

#[verifier::loop_isolation(false)]
fn cross_exec(ss: &Vec<Vec<isize>>, sos: &Vec<Vec<isize>>) -> (r: Vec<Vec<isize>>)
    requires
        forall|i: int| 0 <= i < ss@.len() ==> clause_lits_wf(#[trigger] ss@[i]@),
        forall|j: int| 0 <= j < sos@.len() ==> clause_lits_wf(#[trigger] sos@[j]@),
    ensures
        clause_sets(r@) == cross_join(clause_sets(ss@), clause_sets(sos@)),
        forall|k: int|
            0 <= k < r@.len() ==> (clause_sorted(#[trigger] r@[k]@) && clause_lits_wf(r@[k]@)),
{
    let ghost css = clause_sets(ss@);
    let ghost csos = clause_sets(sos@);
    let mut r: Vec<Vec<isize>> = Vec::new();
    let mut i: usize = 0;
    while i < ss.len()
        invariant
            i <= ss.len(),
            clause_sets(r@) == cross_join(css.take(i as int), csos),
            forall|k: int|
                0 <= k < r@.len() ==> (clause_sorted(#[trigger] r@[k]@) && clause_lits_wf(
                    r@[k]@,
                )),
        decreases ss.len() - i,
    {
        let mut j: usize = 0;
        while j < sos.len()
            invariant
                i < ss.len(),
                j <= sos.len(),
                clause_sets(r@) == cross_join(css.take(i as int), csos) + map_union(
                    css[i as int],
                    csos,
                ).take(j as int),
                forall|k: int|
                    0 <= k < r@.len() ==> (clause_sorted(#[trigger] r@[k]@) && clause_lits_wf(
                        r@[k]@,
                    )),
            decreases sos.len() - j,
        {
            let ghost pre = clause_sets(r@);
            let u = clause_union(&ss[i], &sos[j]);
            proof {
                lemma_clause_union_sets(ss@[i as int]@, sos@[j as int]@, u@);
                assert forall|p: int| 0 <= p < u@.len() implies (#[trigger] u@[p] != 0 && u@[p]
                    != isize::MIN) by {
                    assert(u@.contains(u@[p]));
                    if ss@[i as int]@.contains(u@[p]) {
                        let t = choose|t: int|
                            0 <= t < ss@[i as int]@.len() && ss@[i as int]@[t] == u@[p];
                    } else {
                        let t = choose|t: int|
                            0 <= t < sos@[j as int]@.len() && sos@[j as int]@[t] == u@[p];
                    }
                }
            }
            r.push(u);
            proof {
                assert(clause_sets(r@) =~= pre.push(css[i as int].union(csos[j as int])));
                assert(map_union(css[i as int], csos).take(j + 1) =~= map_union(
                    css[i as int],
                    csos,
                ).take(j as int).push(css[i as int].union(csos[j as int])));
                assert(clause_sets(r@) =~= cross_join(css.take(i as int), csos) + map_union(
                    css[i as int],
                    csos,
                ).take(j + 1));
            }
            j += 1;
        }
        proof {
            assert(map_union(css[i as int], csos).take(csos.len() as int) =~= map_union(
                css[i as int],
                csos,
            ));
            assert(css.take(i + 1).drop_last() =~= css.take(i as int));
            assert(css.take(i + 1).last() == css[i as int]);
            assert(cross_join(css.take(i + 1), csos) == cross_join(css.take(i as int), csos)
                + map_union(css[i as int], csos));
        }
        i += 1;
    }
    proof {
        assert(css.take(css.len() as int) =~= css);
    }
    r
}

/// Each element of `sss` is a clause list standing for one sub-formula.
/// Pick one clause from each element, join the picks, and return every
/// clause so formed: the distribution of a disjunction over its
/// children's conjunctions. With no elements the result is the single
/// empty clause, the conjunctive identity. The clause count is exactly
/// the product of the element sizes; nothing is pruned here.
#[verifier::loop_isolation(false)]
pub fn flatperm(sss: &Vec<Vec<Vec<isize>>>) -> (r: Vec<Vec<isize>>)
    requires
        forall|i: int, k: int|
            0 <= i < sss@.len() && 0 <= k < sss@[i]@.len() ==> clause_lits_wf(
                #[trigger] sss@[i]@[k]@,
            ),
    ensures
        clause_sets(r@) == spec_flatperm(cnf_sets(sss@)),
        r@.len() == sizes_product(cnf_sets(sss@)),
        forall|k: int|
            0 <= k < r@.len() ==> (clause_sorted(#[trigger] r@[k]@) && clause_lits_wf(r@[k]@)),
{
    let ghost whole = cnf_sets(sss@);
    let mut r: Vec<Vec<isize>> = Vec::new();
    r.push(Vec::new());
    proof {
        assert(clause_set(Seq::<isize>::empty()) =~= Set::<int>::empty());
        assert(clause_sets(r@) =~= spec_flatperm(whole.skip(sss@.len() as int)));
    }
    let mut i: usize = sss.len();
    while i > 0
        invariant
            i <= sss.len(),
            clause_sets(r@) == spec_flatperm(whole.skip(i as int)),
            forall|k: int|
                0 <= k < r@.len() ==> (clause_sorted(#[trigger] r@[k]@) && clause_lits_wf(
                    r@[k]@,
                )),
        decreases i,
    {
        i -= 1;
        proof {
            assert forall|k: int| 0 <= k < sss@[i as int]@.len() implies clause_lits_wf(
                #[trigger] sss@[i as int]@[k]@,
            ) by {}
        }
        let nr = cross_exec(&sss[i], &r);
        proof {
            assert(clause_sets(sss@[i as int]@) == whole[i as int]);
            assert(whole.skip(i as int)[0] == whole[i as int]);
            assert(whole.skip(i as int).drop_first() =~= whole.skip(i + 1));
            assert(clause_sets(nr@) == spec_flatperm(whole.skip(i as int)));
        }
        r = nr;
    }
    proof {
        assert(whole.skip(0) =~= whole);
        lemma_flatperm_count(whole);
    }
    r
}

/// The clause lists of several sub-formulas, as sets of literals.
pub open spec fn cnf_sets(sss: Seq<Vec<Vec<isize>>>) -> Seq<Seq<Set<int>>> {
    Seq::new(sss.len(), |i: int| clause_sets(sss[i]@))
}

// ---------------------------------------------------------------------
// Tautology pruning and clause deduplication
// ---------------------------------------------------------------------

/// Tautological clauses dropped, the rest kept in order.
pub open spec fn spec_prune(cs: Seq<Seq<int>>) -> Seq<Seq<int>>
    decreases cs,
{
    if cs.len() == 0 {
        Seq::empty()
    } else if clause_taut(cs.last()) {
        spec_prune(cs.drop_last())
    } else {
        spec_prune(cs.drop_last()).push(cs.last())
    }
}

/// First occurrences kept, later duplicate clauses dropped.
pub open spec fn spec_dedup_clauses(cs: Seq<Seq<int>>) -> Seq<Seq<int>>
    decreases cs,
{
    if cs.len() == 0 {
        Seq::empty()
    } else {
        let d = spec_dedup_clauses(cs.drop_last());
        if d.contains(cs.last()) {
            d
        } else {
            d.push(cs.last())
        }
    }
}

proof fn lemma_taut_clause_true(c: Seq<int>, a: spec_fn(int) -> bool)
    requires
        clause_taut(c),
    ensures
        clause_eval(c, a),
{
    let (i, j) = choose|i: int, j: int|
        0 <= i < c.len() && 0 <= j < c.len() && #[trigger] c[i] == -(#[trigger] c[j]) && c[j]
            > 0;
    if a(c[j]) {
        assert(lit_holds(c[j], a));
    } else {
        assert(lit_holds(c[i], a));
    }
}

/// Dropping tautological clauses never changes the truth value of a
/// conjunctive-normal-form value, under any assignment.
pub proof fn lemma_prune_eval(cs: Seq<Seq<int>>, a: spec_fn(int) -> bool)
    ensures
        cnf_eval(spec_prune(cs), a) == cnf_eval(cs, a),
    decreases cs,
{
    if cs.len() == 0 {
    } else {
        let dl = cs.drop_last();
        lemma_prune_eval(dl, a);
        assert(cnf_eval(cs, a) == (cnf_eval(dl, a) && clause_eval(cs.last(), a))) by {
            if cnf_eval(cs, a) {
                assert forall|i: int| 0 <= i < dl.len() implies clause_eval(#[trigger] dl[i], a)
                    by {
                    assert(dl[i] == cs[i]);
                    assert(clause_eval(cs[i], a));
                }
                assert(cs[cs.len() - 1] == cs.last());
                assert(clause_eval(cs[cs.len() - 1], a));
            }
            if cnf_eval(dl, a) && clause_eval(cs.last(), a) {
                assert forall|i: int| 0 <= i < cs.len() implies clause_eval(#[trigger] cs[i], a)
                    by {
                    if i < cs.len() - 1 {
                        assert(cs[i] == dl[i]);
                        assert(clause_eval(dl[i], a));
                    }
                }
            }
        }
        if clause_taut(cs.last()) {
            lemma_taut_clause_true(cs.last(), a);
        } else {
            assert(cnf_eval(spec_prune(dl).push(cs.last()), a) == (cnf_eval(spec_prune(dl), a)
                && clause_eval(cs.last(), a))) by {
                let p = spec_prune(dl).push(cs.last());
                if cnf_eval(p, a) {
                    assert forall|i: int|
                        0 <= i < spec_prune(dl).len() implies clause_eval(
                        #[trigger] spec_prune(dl)[i],
                        a,
                    ) by {
                        assert(p[i] == spec_prune(dl)[i]);
                        assert(clause_eval(p[i], a));
                    }
                    assert(p[p.len() - 1] == cs.last());
                    assert(clause_eval(p[p.len() - 1], a));
                }
                if cnf_eval(spec_prune(dl), a) && clause_eval(cs.last(), a) {
                    assert forall|i: int| 0 <= i < p.len() implies clause_eval(#[trigger] p[i], a)
                        by {
                        if i < p.len() - 1 {
                            assert(p[i] == spec_prune(dl)[i]);
                        }
                    }
                }
            }
        }
    }
}

proof fn lemma_contains_push_c(s: Seq<Seq<int>>, e: Seq<int>, x: Seq<int>)
    ensures
        s.push(e).contains(x) <==> (s.contains(x) || x == e),
{
    if s.push(e).contains(x) {
        let i = choose|i: int| 0 <= i < s.push(e).len() && s.push(e)[i] == x;
        if i < s.len() {
            assert(s[i] == x);
        }
    }
    if s.contains(x) {
        let i = choose|i: int| 0 <= i < s.len() && s[i] == x;
        assert(s.push(e)[i] == x);
    }
    if x == e {
        assert(s.push(e)[s.len() as int] == x);
    }
}

proof fn lemma_dedup_clauses_contains(cs: Seq<Seq<int>>)
    ensures
        forall|x: Seq<int>| #[trigger] spec_dedup_clauses(cs).contains(x) <==> cs.contains(x),
        spec_dedup_clauses(cs).no_duplicates(),
    decreases cs,
{
    if cs.len() == 0 {
        assert forall|x: Seq<int>| !(#[trigger] cs.contains(x)) by {
            if cs.contains(x) {
                let i = choose|i: int| 0 <= i < cs.len() && cs[i] == x;
            }
        }
    } else {
        let dl = cs.drop_last();
        lemma_dedup_clauses_contains(dl);
        let d = spec_dedup_clauses(dl);
        assert forall|x: Seq<int>| #[trigger]
            spec_dedup_clauses(cs).contains(x) <==> cs.contains(x) by {
            assert(cs =~= dl.push(cs.last()));
            lemma_contains_push_c(dl, cs.last(), x);
            assert(d.contains(x) <==> dl.contains(x));
            if !d.contains(cs.last()) {
                lemma_contains_push_c(d, cs.last(), x);
            }
        }
        if !d.contains(cs.last()) {
            assert forall|i: int, j: int|
                0 <= i < j < d.push(cs.last()).len() implies d.push(cs.last())[i] != d.push(
                cs.last(),
            )[j] by {
                if j < d.len() {
                } else {
                    assert(d.push(cs.last())[j] == cs.last());
                    if d.push(cs.last())[i] == cs.last() {
                        assert(d.contains(d[i]));
                    }
                }
            }
            assert(d.push(cs.last()).no_duplicates());
        }
    }
}

/// Dropping duplicate clauses never changes the truth value.
pub proof fn lemma_dedup_clauses_eval(cs: Seq<Seq<int>>, a: spec_fn(int) -> bool)
    ensures
        cnf_eval(spec_dedup_clauses(cs), a) == cnf_eval(cs, a),
{
    lemma_dedup_clauses_contains(cs);
    let d = spec_dedup_clauses(cs);
    if cnf_eval(d, a) {
        assert forall|i: int| 0 <= i < cs.len() implies clause_eval(#[trigger] cs[i], a) by {
            assert(cs.contains(cs[i]));
            assert(d.contains(cs[i]));
            let j = choose|j: int| 0 <= j < d.len() && d[j] == cs[i];
            assert(clause_eval(d[j], a));
        }
    }
    if cnf_eval(cs, a) {
        assert forall|i: int| 0 <= i < d.len() implies clause_eval(#[trigger] d[i], a) by {
            assert(d.contains(d[i]));
            assert(cs.contains(d[i]));
            let j = choose|j: int| 0 <= j < cs.len() && cs[j] == d[i];
            assert(clause_eval(cs[j], a));
        }
    }
}

fn clause_eq(a: &Vec<isize>, b: &Vec<isize>) -> (r: bool)
    ensures
        r == (a@ == b@),
{
    if a.len() != b.len() {
        return false;
    }
    let mut i: usize = 0;
    while i < a.len()
        invariant
            a@.len() == b@.len(),
            i <= a.len(),
            forall|j: int| 0 <= j < i ==> a@[j] == b@[j],
        decreases a.len() - i,
    {
        if a[i] != b[i] {
            return false;
        }
        i += 1;
    }
    proof {
        assert(a@ =~= b@);
    }
    true
}

fn contains_clause(cs: &Vec<Vec<isize>>, c: &Vec<isize>) -> (r: bool)
    ensures
        r == clauses_view(cs@).contains(lits_view(c@)),
{
    let mut i: usize = 0;
    while i < cs.len()
        invariant
            i <= cs.len(),
            forall|j: int| 0 <= j < i ==> cs@[j]@ != c@,
        decreases cs.len() - i,
    {
        if clause_eq(&cs[i], c) {
            proof {
                assert(clauses_view(cs@)[i as int] == lits_view(c@));
            }
            return true;
        }
        i += 1;
    }
    proof {
        if clauses_view(cs@).contains(lits_view(c@)) {
            let t = choose|t: int|
                0 <= t < clauses_view(cs@).len() && clauses_view(cs@)[t] == lits_view(c@);
            lemma_lits_view_injective(cs@[t]@, c@);
        }
    }
    false
}

proof fn lemma_lits_view_injective(a: Seq<isize>, b: Seq<isize>)
    requires
        lits_view(a) == lits_view(b),
    ensures
        a == b,
{
    assert(lits_view(a).len() == a.len());
    assert(lits_view(b).len() == b.len());
    assert forall|i: int| 0 <= i < a.len() implies a[i] == b[i] by {
        assert(lits_view(a)[i] == lits_view(b)[i]);
        assert(lits_view(a)[i] == a[i] as int);
        assert(lits_view(b)[i] == b[i] as int);
    }
    assert(a =~= b);
}

fn clause_is_taut(c: &Vec<isize>) -> (r: bool)
    requires
        clause_lits_wf(c@),
    ensures
        r == clause_taut(lits_view(c@)),
{
    let mut i: usize = 0;
    while i < c.len()
        invariant
            i <= c.len(),
            clause_lits_wf(c@),
            forall|t: int| 0 <= t < i ==> !(c@[t] < 0 && c@.contains((-c@[t]) as isize)),
        decreases c.len() - i,
    {
        if c[i] < 0 {
            if contains_lit(c, -c[i]) {
                proof {
                    let j = choose|j: int| 0 <= j < c@.len() && c@[j] == -c@[i as int];
                    assert(lits_view(c@)[i as int] == c@[i as int] as int);
                    assert(lits_view(c@)[j] == c@[j] as int);
                    assert(lits_view(c@)[i as int] == -(lits_view(c@)[j]));
                    assert(lits_view(c@)[j] > 0);
                }
                return true;
            }
        }
        i += 1;
    }
    proof {
        if clause_taut(lits_view(c@)) {
            let (i, j) = choose|i: int, j: int|
                0 <= i < lits_view(c@).len() && 0 <= j < lits_view(c@).len() && #[trigger]
                    lits_view(c@)[i] == -(#[trigger] lits_view(c@)[j]) && lits_view(c@)[j] > 0;
            assert(c@[i] as int == -(c@[j] as int));
            assert(c@[i] < 0);
            assert(c@[j] == (-c@[i]) as isize);
            assert(c@.contains((-c@[i]) as isize));
        }
    }
    false
}

/// Drop every clause that holds a variable and its complement: such a
/// clause is always true and contributes nothing to the conjunction.
#[verifier::loop_isolation(false)]
fn cnf_simpl_inner(cs: &Vec<Vec<isize>>) -> (r: Vec<Vec<isize>>)
    requires
        forall|i: int| 0 <= i < cs@.len() ==> clause_lits_wf(#[trigger] cs@[i]@),
    ensures
        clauses_view(r@) == spec_prune(clauses_view(cs@)),
        forall|a: spec_fn(int) -> bool| #[trigger] cnf_eval(clauses_view(r@), a) == cnf_eval(
            clauses_view(cs@),
            a,
        ),
        forall|k: int|
            0 <= k < r@.len() ==> exists|i: int| 0 <= i < cs@.len() && #[trigger] r@[k]@ == cs@[i]@,
{
    proof {
        assert forall|a: spec_fn(int) -> bool| #[trigger] cnf_eval(
            spec_prune(clauses_view(cs@)),
            a,
        ) == cnf_eval(clauses_view(cs@), a) by {
            lemma_prune_eval(clauses_view(cs@), a);
        }
    }
    let ghost cv = clauses_view(cs@);
    let mut r: Vec<Vec<isize>> = Vec::new();
    let mut i: usize = 0;
    while i < cs.len()
        invariant
            i <= cs.len(),
            clauses_view(r@) == spec_prune(cv.take(i as int)),
            forall|k: int|
                0 <= k < r@.len() ==> exists|t: int|
                    0 <= t < cs@.len() && #[trigger] r@[k]@ == cs@[t]@,
        decreases cs.len() - i,
    {
        let ghost pre = clauses_view(r@);
        if !clause_is_taut(&cs[i]) {
            let d = clause_dup(&cs[i]);
            r.push(d);
            proof {
                assert(clauses_view(r@) =~= pre.push(cv[i as int]));
            }
        }
        proof {
            assert(cv.take(i + 1).drop_last() =~= cv.take(i as int));
            assert(cv.take(i + 1).last() == cv[i as int]);
            assert(clauses_view(r@) =~= spec_prune(cv.take(i + 1)));
        }
        i += 1;
    }
    proof {
        assert(cv.take(cv.len() as int) =~= cv);
    }
    r
}

/// Keep the first occurrence of each clause, dropping later duplicates.
#[verifier::loop_isolation(false)]
fn dedup_clauses(cs: &Vec<Vec<isize>>) -> (r: Vec<Vec<isize>>)
    ensures
        clauses_view(r@) == spec_dedup_clauses(clauses_view(cs@)),
        forall|k: int|
            0 <= k < r@.len() ==> exists|i: int| 0 <= i < cs@.len() && #[trigger] r@[k]@ == cs@[i]@,
{
    let ghost cv = clauses_view(cs@);
    let mut r: Vec<Vec<isize>> = Vec::new();
    let mut i: usize = 0;
    while i < cs.len()
        invariant
            i <= cs.len(),
            clauses_view(r@) == spec_dedup_clauses(cv.take(i as int)),
            forall|k: int|
                0 <= k < r@.len() ==> exists|t: int|
                    0 <= t < cs@.len() && #[trigger] r@[k]@ == cs@[t]@,
        decreases cs.len() - i,
    {
        let ghost pre = clauses_view(r@);
        if !contains_clause(&r, &cs[i]) {
            let d = clause_dup(&cs[i]);
            r.push(d);
            proof {
                assert(clauses_view(r@) =~= pre.push(cv[i as int]));
            }
        }
        proof {
            assert(cv.take(i + 1).drop_last() =~= cv.take(i as int));
            assert(cv.take(i + 1).last() == cv[i as int]);
            assert(clauses_view(r@) =~= spec_dedup_clauses(cv.take(i + 1)));
        }
        i += 1;
    }
    proof {
        assert(cv.take(cv.len() as int) =~= cv);
    }
    r
}

// ---------------------------------------------------------------------
// Conversion of a negation-normal formula to CNF
// ---------------------------------------------------------------------

/// A conjunctive-normal-form value: a duplicate-free list of canonical
/// clauses, semantically the conjunction of its clauses.
pub struct ConjNormalFormula {
    clauses: Vec<Vec<isize>>,
}

impl View for ConjNormalFormula {
    type V = Seq<Seq<int>>;

    closed spec fn view(&self) -> Seq<Seq<int>> {
        clauses_view(self.clauses@)
    }
}

impl ConjNormalFormula {
    /// Canonical shape: sorted duplicate-free clauses with machine-safe
    /// literals, no repeated clause, no tautological clause.
    pub closed spec fn wf(&self) -> bool {
        clauses_wf(self.clauses@)
    }

    /// The clause list itself, one inner vector per clause.
    pub fn get_inner(&self) -> (r: &Vec<Vec<isize>>)
        ensures
            clauses_view(r@) == self@,
            clauses_wf(r@) == self.wf(),
    {
        &self.clauses
    }
}

proof fn lemma_views_sets_eval(cs: Seq<Vec<isize>>, a: spec_fn(int) -> bool)
    ensures
        cnf_eval(clauses_view(cs), a) == cnf_eval_sets(clause_sets(cs), a),
{
    assert forall|i: int|
        0 <= i < cs.len() implies clause_eval(#[trigger] clauses_view(cs)[i], a)
        == clause_eval_set(clause_sets(cs)[i], a) by {
        let c = cs[i]@;
        if clause_eval(lits_view(c), a) {
            let t = choose|t: int|
                0 <= t < lits_view(c).len() && lit_holds(#[trigger] lits_view(c)[t], a);
            assert(lits_view(c).contains(lits_view(c)[t]));
            assert(clause_set(c).contains(lits_view(c)[t]));
            assert(clause_eval_set(clause_set(c), a));
        }
        if clause_eval_set(clause_set(c), a) {
            let l = choose|l: int| #[trigger] clause_set(c).contains(l) && lit_holds(l, a);
            assert(lits_view(c).contains(l));
            let t = choose|t: int| 0 <= t < lits_view(c).len() && lits_view(c)[t] == l;
            assert(clause_eval(lits_view(c), a));
        }
    }
    if cnf_eval(clauses_view(cs), a) {
        assert forall|i: int|
            0 <= i < clause_sets(cs).len() implies clause_eval_set(
            #[trigger] clause_sets(cs)[i],
            a,
        ) by {
            assert(clause_eval(clauses_view(cs)[i], a));
        }
    }
    if cnf_eval_sets(clause_sets(cs), a) {
        assert forall|i: int|
            0 <= i < clauses_view(cs).len() implies clause_eval(
            #[trigger] clauses_view(cs)[i],
            a,
        ) by {
            assert(clause_eval_set(clause_sets(cs)[i], a));
        }
    }
}

proof fn lemma_cnf_eval_concat(x: Seq<Seq<int>>, y: Seq<Seq<int>>, a: spec_fn(int) -> bool)
    ensures
        cnf_eval(x + y, a) == (cnf_eval(x, a) && cnf_eval(y, a)),
{
    if cnf_eval(x + y, a) {
        assert forall|i: int| 0 <= i < x.len() implies clause_eval(#[trigger] x[i], a) by {
            assert((x + y)[i] == x[i]);
            assert(clause_eval((x + y)[i], a));
        }
        assert forall|i: int| 0 <= i < y.len() implies clause_eval(#[trigger] y[i], a) by {
            assert((x + y)[x.len() + i] == y[i]);
            assert(clause_eval((x + y)[x.len() + i], a));
        }
    }
    if cnf_eval(x, a) && cnf_eval(y, a) {
        assert forall|i: int| 0 <= i < (x + y).len() implies clause_eval(#[trigger] (x + y)[i], a)
            by {
            if i < x.len() {
                assert((x + y)[i] == x[i]);
            } else {
                assert((x + y)[i] == y[i - x.len()]);
            }
        }
    }
}

proof fn lemma_and_children_cnf(cs: Seq<SpecFormula>)
    requires
        is_nnf(SpecFormula::And(cs)),
        wf(SpecFormula::And(cs)),
    ensures
        forall|j: int| 0 <= j < cs.len() ==> (is_nnf(#[trigger] cs[j]) && wf(cs[j])),
{
    assert(all_nnf(cs));
    assert(vars_in(SpecFormula::And(cs), isize::MAX as int + 1));
    assert(all_vars_in(cs, isize::MAX as int + 1));
}

proof fn lemma_or_children_cnf(cs: Seq<SpecFormula>)
    requires
        is_nnf(SpecFormula::Or(cs)),
        wf(SpecFormula::Or(cs)),
    ensures
        forall|j: int| 0 <= j < cs.len() ==> (is_nnf(#[trigger] cs[j]) && wf(cs[j])),
{
    assert(all_nnf(cs));
    assert(vars_in(SpecFormula::Or(cs), isize::MAX as int + 1));
    assert(all_vars_in(cs, isize::MAX as int + 1));
}

#[verifier::loop_isolation(false)]
fn to_cnf_parts(cs: &Vec<Formula>) -> (parts: Vec<Vec<Vec<isize>>>)
    requires
        forall|j: int| 0 <= j < cs@.len() ==> (is_nnf(#[trigger] cs@[j]@) && wf(cs@[j]@)),
    ensures
        parts@.len() == cs@.len(),
        forall|i: int| 0 <= i < cs@.len() ==> clauses_wf(#[trigger] parts@[i]@),
        forall|i: int, a: spec_fn(int) -> bool|
            0 <= i < cs@.len() ==> #[trigger] cnf_eval(clauses_view(parts@[i]@), a) == eval(
                cs@[i]@,
                a,
            ),
        forall|i: int| 0 <= i < cs@.len() ==> #[trigger] clause_sets(parts@[i]@) == cnf_of(
            cs@[i]@,
        ),
    decreases cs, 0int,
{
    let mut parts: Vec<Vec<Vec<isize>>> = Vec::new();
    let mut i: usize = 0;
    while i < cs.len()
        invariant
            i <= cs.len(),
            parts@.len() == i,
            forall|t: int| 0 <= t < i ==> clauses_wf(#[trigger] parts@[t]@),
            forall|t: int, a: spec_fn(int) -> bool|
                0 <= t < i ==> #[trigger] cnf_eval(clauses_view(parts@[t]@), a) == eval(
                    cs@[t]@,
                    a,
                ),
            forall|t: int| 0 <= t < i ==> #[trigger] clause_sets(parts@[t]@) == cnf_of(
                cs@[t]@,
            ),
        decreases cs.len() - i,
    {
        let p = to_cnf_rec(&cs[i]);
        parts.push(p);
        i += 1;
    }
    parts
}

#[verifier::loop_isolation(false)]
fn to_cnf_rec(f: &Formula) -> (r: Vec<Vec<isize>>)
    requires
        is_nnf(f@),
        wf(f@),
    ensures
        clauses_wf(r@),
        forall|a: spec_fn(int) -> bool| cnf_eval(clauses_view(r@), a) == eval(f@, a),
        clause_sets(r@) == cnf_of(f@),
    decreases f, 1int,
{
    match f {
        Formula::True => {
            let r: Vec<Vec<isize>> = Vec::new();
            proof {
                assert(clauses_view(r@) =~= Seq::<Seq<int>>::empty());
                assert(clause_sets(r@) =~= cnf_of(f@));
            }
            r
        },
        Formula::False => {
            let mut r: Vec<Vec<isize>> = Vec::new();
            r.push(Vec::new());
            proof {
                assert forall|a: spec_fn(int) -> bool|
                    cnf_eval(clauses_view(r@), a) == eval(f@, a) by {
                    assert(clauses_view(r@)[0] =~= Seq::<int>::empty());
                    assert(!clause_eval(clauses_view(r@)[0], a)) by {
                        if clause_eval(clauses_view(r@)[0], a) {
                            let t = choose|t: int|
                                0 <= t < clauses_view(r@)[0].len() && lit_holds(
                                    #[trigger] clauses_view(r@)[0][t],
                                    a,
                                );
                        }
                    }
                    assert(!cnf_eval(clauses_view(r@), a));
                }
                assert(!clause_taut(lits_view(r@[0]@))) by {
                    if clause_taut(lits_view(r@[0]@)) {
                        let (i, j) = choose|i: int, j: int|
                            0 <= i < lits_view(r@[0]@).len() && 0 <= j < lits_view(
                                r@[0]@,
                            ).len() && #[trigger] lits_view(r@[0]@)[i] == -(#[trigger] lits_view(
                                r@[0]@,
                            )[j]) && lits_view(r@[0]@)[j] > 0;
                    }
                }
                assert(clause_set(r@[0]@) =~= Set::<int>::empty()) by {
                    assert forall|v: int| !(#[trigger] clause_set(r@[0]@).contains(v)) by {
                        if lits_view(r@[0]@).contains(v) {
                            let t = choose|t: int|
                                0 <= t < lits_view(r@[0]@).len() && lits_view(r@[0]@)[t] == v;
                        }
                    }
                }
                assert(clause_sets(r@) =~= seq![Set::<int>::empty()]);
                assert(clause_sets(r@) == cnf_of(f@));
            }
            r
        },
        Formula::Var(x) => {
            let mut c: Vec<isize> = Vec::new();
            c.push(*x);
            let mut r: Vec<Vec<isize>> = Vec::new();
            r.push(c);
            proof {
                lemma_single_lit_clause(r@, *x, f@);
            }
            r
        },
        Formula::Neg(v) => {
            let inner: &Formula = &**v;
            proof {
                assert(f@ == SpecFormula::Neg(Box::new(inner@)));
                assert(is_nnf(f@));
                assert(inner@ is Var);
                assert(vars_in(f@, isize::MAX as int + 1));
                assert(vars_in(inner@, isize::MAX as int + 1));
            }
            match inner {
                Formula::Var(x) => {
                    proof {
                        assert(inner@ == SpecFormula::Var(*x as int));
                    }
                    let mut c: Vec<isize> = Vec::new();
                    c.push(-*x);
                    let mut r: Vec<Vec<isize>> = Vec::new();
                    r.push(c);
                    proof {
                        let xi = *x as int;
                        assert forall|a: spec_fn(int) -> bool|
                            eval(f@, a) == lit_holds(((-*x) as isize) as int, a) by {
                            assert(eval(f@, a) == !eval(SpecFormula::Var(xi), a));
                            assert(((-*x) as isize) as int == -xi);
                        }
                        lemma_single_lit_clause(r@, (-*x) as isize, f@);
                    }
                    r
                },
                _ => unreached(),
            }
        },
        Formula::And(cs) => {
            proof {
                assert(f@ == SpecFormula::And(view_seq(cs@)));
                lemma_and_children_cnf(view_seq(cs@));
                assert forall|j: int|
                    0 <= j < cs@.len() implies (is_nnf(#[trigger] cs@[j]@) && wf(cs@[j]@)) by {
                    assert(view_seq(cs@)[j] == cs@[j]@);
                    assert(is_nnf(view_seq(cs@)[j]) && wf(view_seq(cs@)[j]));
                }
            }
            let parts = to_cnf_parts(cs);
            let mut all: Vec<Vec<isize>> = Vec::new();
            let mut i: usize = 0;
            while i < parts.len()
                invariant
                    i <= parts.len(),
                    forall|k: int|
                        0 <= k < all@.len() ==> (clause_sorted(#[trigger] all@[k]@)
                            && clause_lits_wf(all@[k]@) && !clause_taut(lits_view(all@[k]@))),
                    forall|a: spec_fn(int) -> bool|
                        cnf_eval(clauses_view(all@), a) == all_eval(
                            view_seq(cs@).take(i as int),
                            a,
                        ),
                    clause_sets(all@) == cnf_of_all(view_seq(cs@).take(i as int)),
                decreases parts.len() - i,
            {
                let ghost pre = all@;
                let mut p = clause_list_dup(&parts[i]);
                all.append(&mut p);
                proof {
                    assert(clauses_view(all@) =~= clauses_view(pre) + clauses_view(
                        parts@[i as int]@,
                    ));
                    assert forall|a: spec_fn(int) -> bool|
                        cnf_eval(clauses_view(all@), a) == all_eval(
                            view_seq(cs@).take(i + 1),
                            a,
                        ) by {
                        lemma_cnf_eval_concat(
                            clauses_view(pre),
                            clauses_view(parts@[i as int]@),
                            a,
                        );
                        assert(cnf_eval(clauses_view(parts@[i as int]@), a) == eval(
                            cs@[i as int]@,
                            a,
                        ));
                        let tv = view_seq(cs@);
                        assert(all_eval(tv.take(i + 1), a) == (all_eval(tv.take(i as int), a)
                            && eval(tv[i as int], a))) by {
                            if all_eval(tv.take(i + 1), a) {
                                assert forall|t: int|
                                    0 <= t < i implies eval(
                                    #[trigger] tv.take(i as int)[t],
                                    a,
                                ) by {
                                    assert(tv.take(i + 1)[t] == tv.take(i as int)[t]);
                                    assert(eval(tv.take(i + 1)[t], a));
                                }
                                assert(tv.take(i + 1)[i as int] == tv[i as int]);
                                assert(eval(tv.take(i + 1)[i as int], a));
                            }
                            if all_eval(tv.take(i as int), a) && eval(tv[i as int], a) {
                                assert forall|t: int|
                                    0 <= t < i + 1 implies eval(#[trigger] tv.take(i + 1)[t], a)
                                    by {
                                    if t < i {
                                        assert(tv.take(i + 1)[t] == tv.take(i as int)[t]);
                                        assert(eval(tv.take(i as int)[t], a));
                                    } else {
                                        assert(tv.take(i + 1)[t] == tv[i as int]);
                                    }
                                }
                            }
                        }
                        assert(tv[i as int] == cs@[i as int]@);
                    }
                    assert(clause_sets(all@) =~= clause_sets(pre) + clause_sets(
                        parts@[i as int]@,
                    ));
                    assert(view_seq(cs@).take(i + 1).drop_last() =~= view_seq(cs@).take(
                        i as int,
                    ));
                    assert(view_seq(cs@).take(i + 1).last() == cs@[i as int]@);
                    assert(clause_sets(parts@[i as int]@) == cnf_of(cs@[i as int]@));
                    assert(cnf_of_all(view_seq(cs@).take(i + 1)) == cnf_of_all(
                        view_seq(cs@).take(i as int),
                    ) + cnf_of(cs@[i as int]@));
                }
                i += 1;
            }
            let r = dedup_clauses(&all);
            proof {
                assert(view_seq(cs@).take(view_seq(cs@).len() as int) =~= view_seq(cs@));
                assert forall|a: spec_fn(int) -> bool|
                    cnf_eval(clauses_view(r@), a) == eval(f@, a) by {
                    lemma_dedup_clauses_eval(clauses_view(all@), a);
                }
                lemma_dedup_clauses_contains(clauses_view(all@));
                lemma_clauses_wf_from(r@, all@);
                // exact clause sets: pruning is the identity here, and
                // deduplication aligns at the set level
                assert(clause_sets(all@) == cnf_of_all(view_seq(cs@)));
                assert forall|k: int|
                    0 <= k < clause_sets(all@).len() implies !taut_set(
                    #[trigger] clause_sets(all@)[k],
                ) by {
                    lemma_taut_bridge(lits_view(all@[k]@));
                    assert(clause_sets(all@)[k] == clause_set(all@[k]@));
                }
                lemma_prune_sets_id(clause_sets(all@));
                assert forall|k: int|
                    0 <= k < clauses_view(all@).len() implies ints_sorted(
                    #[trigger] clauses_view(all@)[k],
                ) by {
                    lemma_lits_sorted(all@[k]@);
                }
                lemma_dedup_align(clauses_view(all@));
                assert(sets_of(clauses_view(all@)) =~= clause_sets(all@));
                assert(sets_of(clauses_view(r@)) =~= clause_sets(r@));
                assert(clause_sets(r@) == dedup_sets(prune_sets(cnf_of_all(view_seq(cs@)))));
            }
            r
        },
        Formula::Or(cs) => {
            proof {
                assert(f@ == SpecFormula::Or(view_seq(cs@)));
                lemma_or_children_cnf(view_seq(cs@));
                assert forall|j: int|
                    0 <= j < cs@.len() implies (is_nnf(#[trigger] cs@[j]@) && wf(cs@[j]@)) by {
                    assert(view_seq(cs@)[j] == cs@[j]@);
                    assert(is_nnf(view_seq(cs@)[j]) && wf(view_seq(cs@)[j]));
                }
            }
            let parts = to_cnf_parts(cs);
            proof {
                assert forall|i: int, k: int|
                    0 <= i < parts@.len() && 0 <= k < parts@[i]@.len() implies clause_lits_wf(
                    #[trigger] parts@[i]@[k]@,
                ) by {
                    assert(clauses_wf(parts@[i]@));
                }
            }
            let crossed = flatperm(&parts);
            let pruned = cnf_simpl_inner(&crossed);
            let r = dedup_clauses(&pruned);
            proof {
                assert forall|a: spec_fn(int) -> bool|
                    cnf_eval(clauses_view(r@), a) == eval(f@, a) by {
                    lemma_dedup_clauses_eval(clauses_view(pruned@), a);
                    lemma_prune_eval(clauses_view(crossed@), a);
                    lemma_views_sets_eval(crossed@, a);
                    lemma_flatperm_eval(cnf_sets(parts@), a);
                    let tv = view_seq(cs@);
                    assert((exists|i: int|
                        0 <= i < cnf_sets(parts@).len() && cnf_eval_sets(
                            #[trigger] cnf_sets(parts@)[i],
                            a,
                        )) == any_eval(tv, a)) by {
                        if exists|i: int|
                            0 <= i < cnf_sets(parts@).len() && cnf_eval_sets(
                                #[trigger] cnf_sets(parts@)[i],
                                a,
                            ) {
                            let i = choose|i: int|
                                0 <= i < cnf_sets(parts@).len() && cnf_eval_sets(
                                    #[trigger] cnf_sets(parts@)[i],
                                    a,
                                );
                            lemma_views_sets_eval(parts@[i]@, a);
                            assert(cnf_eval(clauses_view(parts@[i]@), a));
                            assert(eval(cs@[i]@, a));
                            assert(tv[i] == cs@[i]@);
                            assert(any_eval(tv, a));
                        }
                        if any_eval(tv, a) {
                            let i = choose|i: int| 0 <= i < tv.len() && eval(#[trigger] tv[i], a);
                            assert(tv[i] == cs@[i]@);
                            lemma_views_sets_eval(parts@[i]@, a);
                            assert(cnf_eval_sets(cnf_sets(parts@)[i], a));
                        }
                    }
                    assert(eval(f@, a) == any_eval(tv, a));
                }
                lemma_dedup_clauses_contains(clauses_view(pruned@));
                lemma_prune_only_nontaut(clauses_view(crossed@));
                assert forall|k: int|
                    0 <= k < r@.len() implies (clause_sorted(#[trigger] r@[k]@) && clause_lits_wf(
                    r@[k]@,
                ) && !clause_taut(lits_view(r@[k]@))) by {
                    let i = choose|i: int|
                        0 <= i < pruned@.len() && #[trigger] r@[k]@ == pruned@[i]@;
                    let t = choose|t: int|
                        0 <= t < crossed@.len() && #[trigger] pruned@[i]@ == crossed@[t]@;
                    assert(clauses_view(pruned@)[i] == lits_view(pruned@[i]@));
                    assert(clauses_view(pruned@).contains(clauses_view(pruned@)[i]));
                    assert(spec_prune(clauses_view(crossed@)).contains(lits_view(pruned@[i]@)));
                }
                lemma_distinct_views(r@);
                // exact clause sets: the cross-join of the children's
                // exact conversions, pruned, then deduplicated
                lemma_cnf_of_each_index(view_seq(cs@));
                assert(cnf_sets(parts@) =~= cnf_of_each(view_seq(cs@))) by {
                    assert forall|i: int|
                        0 <= i < parts@.len() implies cnf_sets(parts@)[i] == cnf_of_each(
                        view_seq(cs@),
                    )[i] by {
                        assert(cnf_sets(parts@)[i] == clause_sets(parts@[i]@));
                        assert(clause_sets(parts@[i]@) == cnf_of(cs@[i]@));
                        assert(view_seq(cs@)[i] == cs@[i]@);
                        assert(cnf_of_each(view_seq(cs@))[i] == cnf_of(view_seq(cs@)[i]));
                    }
                }
                assert(clause_sets(crossed@) == spec_flatperm(cnf_of_each(view_seq(cs@))));
                lemma_prune_align(clauses_view(crossed@));
                assert(sets_of(clauses_view(crossed@)) =~= clause_sets(crossed@));
                assert(sets_of(clauses_view(pruned@)) =~= clause_sets(pruned@));
                assert(clause_sets(pruned@) == prune_sets(clause_sets(crossed@)));
                assert forall|k: int|
                    0 <= k < clauses_view(pruned@).len() implies ints_sorted(
                    #[trigger] clauses_view(pruned@)[k],
                ) by {
                    let t = choose|t: int|
                        0 <= t < crossed@.len() && #[trigger] pruned@[k]@ == crossed@[t]@;
                    assert(clause_sorted(crossed@[t]@));
                    lemma_lits_sorted(pruned@[k]@);
                }
                lemma_dedup_align(clauses_view(pruned@));
                assert(sets_of(clauses_view(r@)) =~= clause_sets(r@));
                assert(clause_sets(r@) == dedup_sets(
                    prune_sets(spec_flatperm(cnf_of_each(view_seq(cs@)))),
                ));
            }
            r
        },
    }
}

proof fn lemma_single_lit_clause(r: Seq<Vec<isize>>, l: isize, fv: SpecFormula)
    requires
        r.len() == 1,
        r[0]@ =~= seq![l],
        l != 0 && l != isize::MIN,
        forall|a: spec_fn(int) -> bool| eval(fv, a) == lit_holds(l as int, a),
    ensures
        clauses_wf(r),
        forall|a: spec_fn(int) -> bool| cnf_eval(clauses_view(r), a) == eval(fv, a),
        clause_sets(r) == seq![Set::<int>::empty().insert(l as int)],
{
    assert(lits_view(r[0]@) =~= seq![l as int]);
    assert(clause_set(r[0]@) =~= Set::<int>::empty().insert(l as int)) by {
        assert(lits_view(r[0]@).contains(l as int)) by {
            assert(lits_view(r[0]@)[0] == l as int);
        }
        assert forall|v: int|
            clause_set(r[0]@).contains(v) <==> Set::<int>::empty().insert(l as int).contains(v)
            by {
            if clause_set(r[0]@).contains(v) {
                let t = choose|t: int|
                    0 <= t < lits_view(r[0]@).len() && lits_view(r[0]@)[t] == v;
                assert(v == l as int);
            }
        }
    }
    assert(clause_sets(r) =~= seq![Set::<int>::empty().insert(l as int)]);
    assert forall|a: spec_fn(int) -> bool| cnf_eval(clauses_view(r), a) == eval(fv, a) by {
        assert(clauses_view(r)[0] == lits_view(r[0]@));
        if lit_holds(l as int, a) {
            assert(lits_view(r[0]@)[0] == l as int);
            assert(clause_eval(clauses_view(r)[0], a));
            assert forall|i: int|
                0 <= i < clauses_view(r).len() implies clause_eval(
                #[trigger] clauses_view(r)[i],
                a,
            ) by {
                assert(clauses_view(r)[i] == clauses_view(r)[0]);
            }
        }
        if cnf_eval(clauses_view(r), a) {
            assert(clause_eval(clauses_view(r)[0], a));
            let t = choose|t: int|
                0 <= t < lits_view(r[0]@).len() && lit_holds(#[trigger] lits_view(r[0]@)[t], a);
            assert(lits_view(r[0]@)[t] == l as int);
        }
    }
    assert(!clause_taut(lits_view(r[0]@))) by {
        if clause_taut(lits_view(r[0]@)) {
            let (i, j) = choose|i: int, j: int|
                0 <= i < lits_view(r[0]@).len() && 0 <= j < lits_view(r[0]@).len()
                    && #[trigger] lits_view(r[0]@)[i] == -(#[trigger] lits_view(r[0]@)[j])
                    && lits_view(r[0]@)[j] > 0;
            assert(l as int == -(l as int));
        }
    }
}

proof fn lemma_prune_only_nontaut(cs: Seq<Seq<int>>)
    ensures
        forall|x: Seq<int>| #[trigger] spec_prune(cs).contains(x) ==> !clause_taut(x),
    decreases cs,
{
    if cs.len() > 0 {
        lemma_prune_only_nontaut(cs.drop_last());
        assert forall|x: Seq<int>| #[trigger] spec_prune(cs).contains(x) implies !clause_taut(x)
            by {
            if clause_taut(cs.last()) {
                assert(spec_prune(cs) == spec_prune(cs.drop_last()));
                assert(spec_prune(cs.drop_last()).contains(x));
            } else {
                lemma_contains_push_c(spec_prune(cs.drop_last()), cs.last(), x);
                if x != cs.last() {
                    assert(spec_prune(cs.drop_last()).contains(x));
                }
            }
        }
    } else {
        assert forall|x: Seq<int>| !(#[trigger] spec_prune(cs).contains(x)) by {
            if spec_prune(cs).contains(x) {
                let i = choose|i: int| 0 <= i < spec_prune(cs).len() && spec_prune(cs)[i] == x;
            }
        }
    }
}

proof fn lemma_distinct_views(cs: Seq<Vec<isize>>)
    requires
        clauses_view(cs).no_duplicates(),
    ensures
        forall|i: int, j: int| 0 <= i < j < cs.len() ==> cs[i]@ != cs[j]@,
{
    assert forall|i: int, j: int| 0 <= i < j < cs.len() implies cs[i]@ != cs[j]@ by {
        if cs[i]@ == cs[j]@ {
            assert(clauses_view(cs)[i] == clauses_view(cs)[j]);
        }
    }
}

proof fn lemma_clauses_wf_from(r: Seq<Vec<isize>>, all: Seq<Vec<isize>>)
    requires
        forall|k: int|
            0 <= k < all.len() ==> (clause_sorted(#[trigger] all[k]@) && clause_lits_wf(all[k]@)
                && !clause_taut(lits_view(all[k]@))),
        forall|k: int| 0 <= k < r.len() ==> exists|i: int| 0 <= i < all.len() && #[trigger] r[k]@
            == all[i]@,
        clauses_view(r).no_duplicates(),
    ensures
        clauses_wf(r),
{
    assert forall|k: int|
        0 <= k < r.len() implies (clause_sorted(#[trigger] r[k]@) && clause_lits_wf(r[k]@)
        && !clause_taut(lits_view(r[k]@))) by {
        let i = choose|i: int| 0 <= i < all.len() && #[trigger] r[k]@ == all[i]@;
    }
    lemma_distinct_views(r);
}

fn clause_list_dup(cs: &Vec<Vec<isize>>) -> (r: Vec<Vec<isize>>)
    ensures
        r@.len() == cs@.len(),
        forall|i: int| 0 <= i < cs@.len() ==> #[trigger] r@[i]@ == cs@[i]@,
{
    let mut r: Vec<Vec<isize>> = Vec::new();
    let mut i: usize = 0;
    while i < cs.len()
        invariant
            i <= cs.len(),
            r@.len() == i,
            forall|j: int| 0 <= j < i ==> #[trigger] r@[j]@ == cs@[j]@,
        decreases cs.len() - i,
    {
        r.push(clause_dup(&cs[i]));
        i += 1;
    }
    r
}

/// Convert a negation-normal formula to conjunctive normal form. The
/// result is exactly the conversion `cnf_of` describes, clause for
/// clause and in order, each clause in canonical sorted form (so the
/// clause list is uniquely determined, see `lemma_cnf_deterministic`);
/// under every assignment it evaluates exactly as the input does.
pub fn nnf_to_cnf(a: &Formula) -> (r: ConjNormalFormula)
    requires
        is_nnf(a@),
        wf(a@),
    ensures
        r.wf(),
        sets_of(r@) == cnf_of(a@),
        forall|asn: spec_fn(int) -> bool| cnf_eval(r@, asn) == eval(a@, asn),
{
    let clauses = to_cnf_rec(a);
    proof {
        assert(sets_of(clauses_view(clauses@)) =~= clause_sets(clauses@));
    }
    ConjNormalFormula { clauses }
}

impl ConjNormalFormula {
    /// Evaluate the clause set under a concrete valuation, one boolean
    /// per propositional variable, variable `v` at entry `v - 1`.
    #[verifier::loop_isolation(false)]
    pub fn holds_under(&self, m: &Vec<bool>) -> (r: bool)
        requires
            self.wf(),
        ensures
            r == cnf_eval(self@, crate::logic::asn_of(m@)),
    {
        let ghost a = crate::logic::asn_of(m@);
        let mut i: usize = 0;
        while i < self.clauses.len()
            invariant
                i <= self.clauses@.len(),
                forall|j: int| 0 <= j < i ==> clause_eval(#[trigger] self@[j], a),
            decreases self.clauses@.len() - i,
        {
            if !clause_holds(&self.clauses[i], m) {
                proof {
                    assert(self@[i as int] == lits_view(self.clauses@[i as int]@));
                    assert(!clause_eval(self@[i as int], a));
                }
                return false;
            }
            proof {
                assert(self@[i as int] == lits_view(self.clauses@[i as int]@));
            }
            i += 1;
        }
        true
    }
}

#[verifier::loop_isolation(false)]
fn clause_holds(c: &Vec<isize>, m: &Vec<bool>) -> (r: bool)
    requires
        clause_lits_wf(c@),
    ensures
        r == clause_eval(lits_view(c@), crate::logic::asn_of(m@)),
{
    let ghost a = crate::logic::asn_of(m@);
    let mut i: usize = 0;
    while i < c.len()
        invariant
            i <= c@.len(),
            forall|j: int| 0 <= j < i ==> !lit_holds(#[trigger] lits_view(c@)[j], a),
        decreases c@.len() - i,
    {
        let l = c[i];
        let hit: bool;
        if l > 0 {
            let ui = l as usize;
            hit = ui <= m.len() && m[ui - 1];
        } else {
            let ui = (-l) as usize;
            if ui <= m.len() {
                hit = !m[ui - 1];
            } else {
                hit = true;
            }
        }
        proof {
            assert(lits_view(c@)[i as int] == c@[i as int] as int);
        }
        if hit {
            proof {
                assert(lit_holds(lits_view(c@)[i as int], a));
            }
            return true;
        }
        i += 1;
    }
    proof {
        if clause_eval(lits_view(c@), a) {
            let t = choose|t: int|
                0 <= t < lits_view(c@).len() && lit_holds(#[trigger] lits_view(c@)[t], a);
        }
    }
    false
}

// ---------------------------------------------------------------------
// The exact conversion, clause for clause
// ---------------------------------------------------------------------

/// The literal sets of a clause list given as integer sequences.
pub open spec fn sets_of(v: Seq<Seq<int>>) -> Seq<Set<int>> {
    Seq::new(v.len(), |i: int| v[i].to_set())
}

/// A tautological clause, as a set: it holds some variable positively
/// and negatively.
pub open spec fn taut_set(c: Set<int>) -> bool {
    exists|l: int| #[trigger] c.contains(l) && c.contains(-l) && l > 0
}

/// Tautological clauses dropped, at the set level.
pub open spec fn prune_sets(cs: Seq<Set<int>>) -> Seq<Set<int>>
    decreases cs,
{
    if cs.len() == 0 {
        Seq::empty()
    } else if taut_set(cs.last()) {
        prune_sets(cs.drop_last())
    } else {
        prune_sets(cs.drop_last()).push(cs.last())
    }
}

/// First occurrences kept, later duplicate clause sets dropped.
pub open spec fn dedup_sets(cs: Seq<Set<int>>) -> Seq<Set<int>>
    decreases cs,
{
    if cs.len() == 0 {
        Seq::empty()
    } else {
        let d = dedup_sets(cs.drop_last());
        if d.contains(cs.last()) {
            d
        } else {
            d.push(cs.last())
        }
    }
}

/// The clause sets of a negation-normal formula, in order: the exact
/// conversion. `True` gives no clause, `False` the empty clause, a
/// possibly negated variable its single signed literal; a conjunction
/// concatenates its children's clause lists, a disjunction cross-joins
/// them; at each connective tautologies are pruned and duplicates
/// dropped. (A negation of a non-variable is outside the domain and
/// mapped to the empty list.)
pub open spec fn cnf_of(f: SpecFormula) -> Seq<Set<int>>
    decreases f, 1int,
{
    match f {
        SpecFormula::True => Seq::empty(),
        SpecFormula::False => seq![Set::<int>::empty()],
        SpecFormula::Var(x) => seq![Set::<int>::empty().insert(x)],
        SpecFormula::Neg(v) => match *v {
            SpecFormula::Var(x) => seq![Set::<int>::empty().insert(-x)],
            _ => Seq::empty(),
        },
        SpecFormula::And(cs) => dedup_sets(prune_sets(cnf_of_all(cs))),
        SpecFormula::Or(cs) => dedup_sets(prune_sets(spec_flatperm(cnf_of_each(cs)))),
    }
}

/// The concatenated clause lists of a sequence of formulas.
pub open spec fn cnf_of_all(cs: Seq<SpecFormula>) -> Seq<Set<int>>
    decreases cs, 0int,
{
    if cs.len() == 0 {
        Seq::empty()
    } else {
        cnf_of_all(cs.drop_last()) + cnf_of(cs.last())
    }
}

/// The clause lists of a sequence of formulas, one list per formula.
pub open spec fn cnf_of_each(cs: Seq<SpecFormula>) -> Seq<Seq<Set<int>>>
    decreases cs, 0int,
{
    if cs.len() == 0 {
        Seq::empty()
    } else {
        cnf_of_each(cs.drop_last()).push(cnf_of(cs.last()))
    }
}

/// Strictly ascending integer sequence.
pub open spec fn ints_sorted(s: Seq<int>) -> bool {
    forall|i: int, j: int| 0 <= i < j < s.len() ==> s[i] < s[j]
}

/// A strictly sorted integer sequence is determined by its set of
/// members: equal sets mean equal sequences.
pub proof fn lemma_sorted_seq_unique(a: Seq<int>, b: Seq<int>)
    requires
        ints_sorted(a),
        ints_sorted(b),
        a.to_set() == b.to_set(),
    ensures
        a == b,
    decreases a,
{
    if a.len() == 0 {
        if b.len() > 0 {
            assert(b.contains(b[0]));
            assert(b.to_set().contains(b[0]));
            assert(a.to_set().contains(b[0]));
            assert(a.contains(b[0]));
            let t = choose|t: int| 0 <= t < a.len() && a[t] == b[0];
        }
        assert(a =~= b);
    } else {
        assert(b.len() > 0) by {
            if b.len() == 0 {
                assert(a.contains(a[0]));
                assert(b.to_set().contains(a[0]));
                assert(b.contains(a[0]));
                let t = choose|t: int| 0 <= t < b.len() && b[t] == a[0];
            }
        }
        assert(a.last() == b.last()) by {
            assert(a.contains(a.last()));
            assert(b.to_set().contains(a.last()));
            assert(b.contains(a.last()));
            let i = choose|i: int| 0 <= i < b.len() && b[i] == a.last();
            assert(b[i] <= b.last());
            assert(b.contains(b.last()));
            assert(a.to_set().contains(b.last()));
            assert(a.contains(b.last()));
            let j = choose|j: int| 0 <= j < a.len() && a[j] == b.last();
            assert(a[j] <= a.last());
        }
        let da = a.drop_last();
        let db = b.drop_last();
        assert(ints_sorted(da) && ints_sorted(db));
        assert(da.to_set() == db.to_set()) by {
            assert forall|x: int|
                da.to_set().contains(x) <==> db.to_set().contains(x) by {
                lemma_drop_last_member(a, x);
                lemma_drop_last_member(b, x);
                assert(da.to_set().contains(x) == da.contains(x));
                assert(db.to_set().contains(x) == db.contains(x));
                assert(a.to_set().contains(x) == a.contains(x));
                assert(b.to_set().contains(x) == b.contains(x));
                assert(a.to_set().contains(x) == b.to_set().contains(x));
            }
            assert(da.to_set() =~= db.to_set());
        }
        lemma_sorted_seq_unique(da, db);
        assert(a =~= da.push(a.last()));
        assert(b =~= db.push(b.last()));
    }
}

proof fn lemma_drop_last_member(s: Seq<int>, x: int)
    requires
        ints_sorted(s),
        s.len() > 0,
    ensures
        s.drop_last().contains(x) <==> (s.contains(x) && x != s.last()),
{
    let d = s.drop_last();
    if d.contains(x) {
        let i = choose|i: int| 0 <= i < d.len() && d[i] == x;
        assert(s[i] == x);
        assert(s[i] < s.last());
    }
    if s.contains(x) && x != s.last() {
        let i = choose|i: int| 0 <= i < s.len() && s[i] == x;
        assert(i < s.len() - 1);
        assert(d[i] == x);
    }
}

/// A canonically sorted clause is determined by its literal set.
pub proof fn lemma_sorted_clause_unique(a: Seq<isize>, b: Seq<isize>)
    requires
        clause_sorted(a),
        clause_sorted(b),
        clause_set(a) == clause_set(b),
    ensures
        a == b,
{
    assert(ints_sorted(lits_view(a))) by {
        assert forall|i: int, j: int|
            0 <= i < j < lits_view(a).len() implies lits_view(a)[i] < lits_view(a)[j] by {
            assert(lits_view(a)[i] == a[i] as int);
            assert(lits_view(a)[j] == a[j] as int);
        }
    }
    assert(ints_sorted(lits_view(b))) by {
        assert forall|i: int, j: int|
            0 <= i < j < lits_view(b).len() implies lits_view(b)[i] < lits_view(b)[j] by {
            assert(lits_view(b)[i] == b[i] as int);
            assert(lits_view(b)[j] == b[j] as int);
        }
    }
    lemma_sorted_seq_unique(lits_view(a), lits_view(b));
    lemma_lits_view_injective(a, b);
}

proof fn lemma_taut_bridge(c: Seq<int>)
    ensures
        clause_taut(c) <==> taut_set(c.to_set()),
{
    if clause_taut(c) {
        let (i, j) = choose|i: int, j: int|
            0 <= i < c.len() && 0 <= j < c.len() && #[trigger] c[i] == -(#[trigger] c[j]) && c[j]
                > 0;
        assert(c.contains(c[j]));
        assert(c.contains(c[i]));
        assert(c.to_set().contains(c[j]) && c.to_set().contains(-c[j]));
    }
    if taut_set(c.to_set()) {
        let l = choose|l: int| #[trigger] c.to_set().contains(l) && c.to_set().contains(-l) && l
            > 0;
        assert(c.contains(l) && c.contains(-l));
        let j = choose|j: int| 0 <= j < c.len() && c[j] == l;
        let i = choose|i: int| 0 <= i < c.len() && c[i] == -l;
        assert(c[i] == -(c[j]) && c[j] > 0);
    }
}

proof fn lemma_prune_align(vs: Seq<Seq<int>>)
    ensures
        sets_of(spec_prune(vs)) == prune_sets(sets_of(vs)),
    decreases vs,
{
    if vs.len() == 0 {
        assert(sets_of(spec_prune(vs)) =~= prune_sets(sets_of(vs)));
    } else {
        let dl = vs.drop_last();
        lemma_prune_align(dl);
        lemma_taut_bridge(vs.last());
        assert(sets_of(vs).drop_last() =~= sets_of(dl));
        assert(sets_of(vs).last() == vs.last().to_set());
        assert(sets_of(vs).len() > 0);
        if clause_taut(vs.last()) {
            assert(spec_prune(vs) == spec_prune(dl));
            assert(prune_sets(sets_of(vs)) == prune_sets(sets_of(dl)));
        } else {
            assert(spec_prune(vs) == spec_prune(dl).push(vs.last()));
            assert(prune_sets(sets_of(vs)) == prune_sets(sets_of(dl)).push(vs.last().to_set()));
            assert(sets_of(spec_prune(dl).push(vs.last())) =~= sets_of(spec_prune(dl)).push(
                vs.last().to_set(),
            ));
        }
    }
}

proof fn lemma_dedup_align(vs: Seq<Seq<int>>)
    requires
        forall|i: int| 0 <= i < vs.len() ==> ints_sorted(#[trigger] vs[i]),
    ensures
        sets_of(spec_dedup_clauses(vs)) == dedup_sets(sets_of(vs)),
    decreases vs,
{
    if vs.len() == 0 {
        assert(sets_of(spec_dedup_clauses(vs)) =~= dedup_sets(sets_of(vs)));
    } else {
        let dl = vs.drop_last();
        assert forall|i: int| 0 <= i < dl.len() implies ints_sorted(#[trigger] dl[i]) by {
            assert(dl[i] == vs[i]);
        }
        lemma_dedup_align(dl);
        lemma_dedup_clauses_contains(dl);
        let d = spec_dedup_clauses(dl);
        assert(sets_of(vs).drop_last() =~= sets_of(dl));
        assert(sets_of(vs).last() == vs.last().to_set());
        assert(sets_of(vs).len() > 0);
        assert(d.contains(vs.last()) <==> dedup_sets(sets_of(dl)).contains(vs.last().to_set()))
            by {
            if d.contains(vs.last()) {
                let i = choose|i: int| 0 <= i < d.len() && d[i] == vs.last();
                assert(sets_of(d)[i] == vs.last().to_set());
                assert(sets_of(d).contains(vs.last().to_set()));
            }
            if dedup_sets(sets_of(dl)).contains(vs.last().to_set()) {
                assert(sets_of(d).contains(vs.last().to_set()));
                let i = choose|i: int|
                    0 <= i < sets_of(d).len() && sets_of(d)[i] == vs.last().to_set();
                assert(d[i].to_set() == vs.last().to_set());
                assert(d.contains(d[i]));
                assert(dl.contains(d[i]));
                let t = choose|t: int| 0 <= t < dl.len() && dl[t] == d[i];
                assert(ints_sorted(vs[t]));
                assert(ints_sorted(vs.last())) by {
                    assert(vs[vs.len() - 1] == vs.last());
                }
                lemma_sorted_seq_unique(d[i], vs.last());
            }
        }
        if d.contains(vs.last()) {
            assert(spec_dedup_clauses(vs) == d);
            assert(dedup_sets(sets_of(vs)) == dedup_sets(sets_of(dl)));
        } else {
            assert(spec_dedup_clauses(vs) == d.push(vs.last()));
            assert(dedup_sets(sets_of(vs)) == dedup_sets(sets_of(dl)).push(vs.last().to_set()));
            assert(sets_of(d.push(vs.last())) =~= sets_of(d).push(vs.last().to_set()));
        }
    }
}

proof fn lemma_prune_sets_id(cs: Seq<Set<int>>)
    requires
        forall|i: int| 0 <= i < cs.len() ==> !taut_set(#[trigger] cs[i]),
    ensures
        prune_sets(cs) == cs,
    decreases cs,
{
    if cs.len() == 0 {
        assert(prune_sets(cs) =~= cs);
    } else {
        let dl = cs.drop_last();
        assert forall|i: int| 0 <= i < dl.len() implies !taut_set(#[trigger] dl[i]) by {
            assert(dl[i] == cs[i]);
        }
        lemma_prune_sets_id(dl);
        assert(cs[cs.len() - 1] == cs.last());
        assert(!taut_set(cs.last()));
        assert(prune_sets(cs) =~= cs);
    }
}

proof fn lemma_lits_sorted(c: Seq<isize>)
    requires
        clause_sorted(c),
    ensures
        ints_sorted(lits_view(c)),
{
    assert forall|i: int, j: int|
        0 <= i < j < lits_view(c).len() implies lits_view(c)[i] < lits_view(c)[j] by {
        assert(lits_view(c)[i] == c[i] as int);
        assert(lits_view(c)[j] == c[j] as int);
    }
}

proof fn lemma_cnf_of_each_index(s: Seq<SpecFormula>)
    ensures
        cnf_of_each(s).len() == s.len(),
        forall|i: int| 0 <= i < s.len() ==> #[trigger] cnf_of_each(s)[i] == cnf_of(s[i]),
    decreases s,
{
    if s.len() > 0 {
        lemma_cnf_of_each_index(s.drop_last());
        assert forall|i: int| 0 <= i < s.len() implies #[trigger] cnf_of_each(s)[i] == cnf_of(
            s[i],
        ) by {
            if i < s.len() - 1 {
                assert(cnf_of_each(s)[i] == cnf_of_each(s.drop_last())[i]);
                assert(s.drop_last()[i] == s[i]);
            } else {
                assert(cnf_of_each(s)[i] == cnf_of(s.last()));
            }
        }
    }
}

/// A canonical clause list is determined by its clause sets: two
/// well-formed conversions with the same sets are the same list,
/// literal for literal. With `nnf_to_cnf`'s exact contract, two
/// conversions of equal inputs hand the engine identical clauses.
pub proof fn lemma_cnf_deterministic(c1: &ConjNormalFormula, c2: &ConjNormalFormula)
    requires
        c1.wf(),
        c2.wf(),
        sets_of(c1@) == sets_of(c2@),
    ensures
        c1@ == c2@,
{
    assert(sets_of(c1@).len() == sets_of(c2@).len());
    assert(sets_of(c1@).len() == c1@.len());
    assert(sets_of(c2@).len() == c2@.len());
    assert(c1@.len() == c2@.len());
    assert forall|i: int| 0 <= i < c1@.len() implies c1@[i] == c2@[i] by {
        assert(sets_of(c1@)[i] == sets_of(c2@)[i]);
        assert(c1@[i].to_set() == c2@[i].to_set());
        assert(c1@[i] == lits_view(c1.clauses@[i]@));
        assert(c2@[i] == lits_view(c2.clauses@[i]@));
        lemma_lits_sorted(c1.clauses@[i]@);
        lemma_lits_sorted(c2.clauses@[i]@);
        lemma_sorted_seq_unique(c1@[i], c2@[i]);
    }
    assert(c1@ =~= c2@);
}

} // verus!
