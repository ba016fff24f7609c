//! Propositional formula algebra: terms, evaluation, De Morgan
//! normalization and conversion to conjunctive normal form.
use vstd::prelude::*;

verus! {

broadcast use vstd::std_specs::vec::axiom_vec_index_decreases;

/// A propositional term. Variable identifiers are nonzero; a negative
/// identifier `-v` stands for the negation of variable `v`, so that
/// normalization can push negation all the way into the identifier sign.
#[derive(Debug, PartialEq)]
pub enum Formula {
    True,
    False,
    Var(isize),
    Neg(Box<Formula>),
    And(Vec<Formula>),
    Or(Vec<Formula>),
}

/// Mathematical model of a `Formula`: the same shape over `int` and `Seq`.
pub enum SpecFormula {
    True,
    False,
    Var(int),
    Neg(Box<SpecFormula>),
    And(Seq<SpecFormula>),
    Or(Seq<SpecFormula>),
}

/// The models of the elements of a sequence of formulas.
pub open spec fn view_seq(s: Seq<Formula>) -> Seq<SpecFormula>
    decreases s,
{
    Seq::new(
        s.len(),
        |i: int|
            if 0 <= i < s.len() {
                s[i]@
            } else {
                SpecFormula::True
            },
    )
}

impl View for Formula {
    type V = SpecFormula;

    open spec fn view(&self) -> SpecFormula
        decreases self,
    {
        match self {
            Formula::True => SpecFormula::True,
            Formula::False => SpecFormula::False,
            Formula::Var(x) => SpecFormula::Var(*x as int),
            Formula::Neg(b) => SpecFormula::Neg(Box::new((**b).view())),
            Formula::And(cs) => SpecFormula::And(view_seq(cs@)),
            Formula::Or(cs) => SpecFormula::Or(view_seq(cs@)),
        }
    }
}

/// Truth value of a formula under a total assignment to the positive
/// variable identifiers. A variable term with a negative identifier
/// denotes the negation of the underlying variable.
pub open spec fn eval(f: SpecFormula, a: spec_fn(int) -> bool) -> bool
    decreases f, 1int,
{
    match f {
        SpecFormula::True => true,
        SpecFormula::False => false,
        SpecFormula::Var(x) => if x > 0 {
            a(x)
        } else {
            !a(-x)
        },
        SpecFormula::Neg(v) => !eval(*v, a),
        SpecFormula::And(cs) => all_eval(cs, a),
        SpecFormula::Or(cs) => any_eval(cs, a),
    }
}

/// Conjunctive reading of an operand list.
pub open spec fn all_eval(s: Seq<SpecFormula>, a: spec_fn(int) -> bool) -> bool
    decreases s, 0int,
{
    forall|i: int| 0 <= i < s.len() ==> eval(#[trigger] s[i], a)
}

/// Disjunctive reading of an operand list.
pub open spec fn any_eval(s: Seq<SpecFormula>, a: spec_fn(int) -> bool) -> bool
    decreases s, 0int,
{
    exists|i: int| 0 <= i < s.len() && eval(#[trigger] s[i], a)
}

/// Every variable identifier is nonzero and of magnitude below `b`.
pub open spec fn vars_in(f: SpecFormula, b: int) -> bool
    decreases f, 1int,
{
    match f {
        SpecFormula::True => true,
        SpecFormula::False => true,
        SpecFormula::Var(x) => x != 0 && -b < x < b,
        SpecFormula::Neg(v) => vars_in(*v, b),
        SpecFormula::And(cs) => all_vars_in(cs, b),
        SpecFormula::Or(cs) => all_vars_in(cs, b),
    }
}

pub open spec fn all_vars_in(s: Seq<SpecFormula>, b: int) -> bool
    decreases s, 0int,
{
    forall|i: int| 0 <= i < s.len() ==> vars_in(#[trigger] s[i], b)
}

/// Every variable identifier is nonzero and strictly between the extreme
/// machine values, so negating an identifier is always meaningful.
pub open spec fn wf(f: SpecFormula) -> bool {
    vars_in(f, isize::MAX as int + 1)
}

impl Formula {
    /// Structural copy; sub-terms are duplicated rather than shared.
    pub fn dup(&self) -> (r: Formula)
        ensures
            r@ == self@,
        decreases self,
    {
        match self {
            Formula::True => Formula::True,
            Formula::False => Formula::False,
            Formula::Var(x) => Formula::Var(*x),
            Formula::Neg(b) => Formula::Neg(Box::new((**b).dup())),
            Formula::And(cs) => Formula::And(dup_vec(cs)),
            Formula::Or(cs) => Formula::Or(dup_vec(cs)),
        }
    }

    /// Structural equality of terms.
    pub fn equals(&self, other: &Formula) -> (r: bool)
        ensures
            r == (self@ == other@),
        decreases self,
    {
        match (self, other) {
            (Formula::True, Formula::True) => true,
            (Formula::False, Formula::False) => true,
            (Formula::Var(x), Formula::Var(y)) => x == y,
            (Formula::Neg(a), Formula::Neg(b)) => (**a).equals(&**b),
            (Formula::And(a), Formula::And(b)) => {
                let r = eq_vec(a, b);
                proof {
                    if r {
                        assert(view_seq(a@) =~= view_seq(b@));
                    }
                }
                r
            },
            (Formula::Or(a), Formula::Or(b)) => {
                let r = eq_vec(a, b);
                proof {
                    if r {
                        assert(view_seq(a@) =~= view_seq(b@));
                    }
                }
                r
            },
            _ => false,
        }
    }
}

fn dup_vec(cs: &Vec<Formula>) -> (r: Vec<Formula>)
    ensures
        view_seq(r@) == view_seq(cs@),
    decreases cs,
{
    let mut r: Vec<Formula> = Vec::new();
    let mut i: usize = 0;
    while i < cs.len()
        invariant
            i <= cs.len(),
            r@.len() == i,
            forall|j: int| 0 <= j < i ==> r@[j]@ == cs@[j]@,
        decreases cs.len() - i,
    {
        r.push(cs[i].dup());
        i += 1;
    }
    proof {
        assert(view_seq(r@) =~= view_seq(cs@));
    }
    r
}

fn eq_vec(a: &Vec<Formula>, b: &Vec<Formula>) -> (r: bool)
    ensures
        r == (view_seq(a@) == view_seq(b@)),
    decreases a,
{
    if a.len() != b.len() {
        proof {
            assert(view_seq(a@).len() != view_seq(b@).len());
        }
        return false;
    }
    let mut i: usize = 0;
    while i < a.len()
        invariant
            a@.len() == b@.len(),
            i <= a.len(),
            forall|j: int| 0 <= j < i ==> a@[j]@ == b@[j]@,
        decreases a.len() - i,
    {
        if !a[i].equals(&b[i]) {
            proof {
                assert(view_seq(a@)[i as int] != view_seq(b@)[i as int]);
            }
            return false;
        }
        i += 1;
    }
    proof {
        assert(view_seq(a@) =~= view_seq(b@));
    }
    true
}

/// The operands a term contributes to an n-ary conjunction: its own
/// children if it is already a conjunction, otherwise the term itself.
pub open spec fn and_operands(f: SpecFormula) -> Seq<SpecFormula> {
    match f {
        SpecFormula::And(cs) => cs,
        _ => seq![f],
    }
}

/// The operands a term contributes to an n-ary disjunction.
pub open spec fn or_operands(f: SpecFormula) -> Seq<SpecFormula> {
    match f {
        SpecFormula::Or(cs) => cs,
        _ => seq![f],
    }
}

fn and_parts(f: &Formula) -> (r: Vec<Formula>)
    ensures
        view_seq(r@) == and_operands(f@),
{
    match f {
        Formula::And(cs) => dup_vec(cs),
        _ => {
            let mut r: Vec<Formula> = Vec::new();
            r.push(f.dup());
            proof {
                assert(view_seq(r@) =~= seq![f@]);
            }
            r
        },
    }
}

fn or_parts(f: &Formula) -> (r: Vec<Formula>)
    ensures
        view_seq(r@) == or_operands(f@),
{
    match f {
        Formula::Or(cs) => dup_vec(cs),
        _ => {
            let mut r: Vec<Formula> = Vec::new();
            r.push(f.dup());
            proof {
                assert(view_seq(r@) =~= seq![f@]);
            }
            r
        },
    }
}

proof fn lemma_view_seq_concat(a: Seq<Formula>, b: Seq<Formula>)
    ensures
        view_seq(a + b) == view_seq(a) + view_seq(b),
{
    assert(view_seq(a + b) =~= view_seq(a) + view_seq(b));
}

/// The negation node the builder `not` constructs.
pub open spec fn spec_not(x: SpecFormula) -> SpecFormula {
    SpecFormula::Neg(Box::new(x))
}

/// The flat binary conjunction the builder `and` constructs.
pub open spec fn spec_and2(x: SpecFormula, y: SpecFormula) -> SpecFormula {
    SpecFormula::And(and_operands(x) + and_operands(y))
}

/// The flat binary disjunction the builder `or` constructs.
pub open spec fn spec_or2(x: SpecFormula, y: SpecFormula) -> SpecFormula {
    SpecFormula::Or(or_operands(x) + or_operands(y))
}

/// Exclusive or, derived from the other connectives.
pub open spec fn spec_xor2(x: SpecFormula, y: SpecFormula) -> SpecFormula {
    spec_or2(spec_and2(x, spec_not(y)), spec_and2(spec_not(x), y))
}

/// Equivalence, derived from the other connectives.
pub open spec fn spec_iff2(x: SpecFormula, y: SpecFormula) -> SpecFormula {
    spec_or2(spec_and2(x, y), spec_and2(spec_not(x), spec_not(y)))
}

impl Formula {
    /// Negation of a term.
    pub fn not(a: &Formula) -> (r: Formula)
        ensures
            r@ == spec_not(a@),
    {
        Formula::Neg(Box::new(a.dup()))
    }

    /// Binary conjunction; keeps the result n-ary and flat by splicing
    /// in operand lists that are already conjunctions.
    pub fn and(a: &Formula, b: &Formula) -> (r: Formula)
        ensures
            r@ == spec_and2(a@, b@),
    {
        let mut xs = and_parts(a);
        let mut ys = and_parts(b);
        let ghost gx = xs@;
        let ghost gy = ys@;
        xs.append(&mut ys);
        proof {
            lemma_view_seq_concat(gx, gy);
        }
        Formula::And(xs)
    }

    /// Binary disjunction; keeps the result n-ary and flat by splicing
    /// in operand lists that are already disjunctions.
    pub fn or(a: &Formula, b: &Formula) -> (r: Formula)
        ensures
            r@ == spec_or2(a@, b@),
    {
        let mut xs = or_parts(a);
        let mut ys = or_parts(b);
        let ghost gx = xs@;
        let ghost gy = ys@;
        xs.append(&mut ys);
        proof {
            lemma_view_seq_concat(gx, gy);
        }
        Formula::Or(xs)
    }

    /// Exclusive or, derived as `or(and(a, not b), and(not a, b))`.
    pub fn xor(a: &Formula, b: &Formula) -> (r: Formula)
        ensures
            r@ == spec_xor2(a@, b@),
    {
        Formula::or(&Formula::and(a, &Formula::not(b)), &Formula::and(&Formula::not(a), b))
    }

    /// Equivalence, derived as `or(and(a, b), and(not a, not b))`.
    pub fn iff(a: &Formula, b: &Formula) -> (r: Formula)
        ensures
            r@ == spec_iff2(a@, b@),
    {
        Formula::or(&Formula::and(a, b), &Formula::and(&Formula::not(a), &Formula::not(b)))
    }
}

// ---------------------------------------------------------------------
// De Morgan normalization
// ---------------------------------------------------------------------

/// One-level flattening of an operand list for a conjunction:
/// a child that is itself a conjunction is spliced into the list.
pub open spec fn flatten_and(s: Seq<SpecFormula>) -> Seq<SpecFormula>
    decreases s,
{
    if s.len() == 0 {
        Seq::empty()
    } else {
        flatten_and(s.drop_last()) + and_operands(s.last())
    }
}

/// One-level flattening of an operand list for a disjunction.
pub open spec fn flatten_or(s: Seq<SpecFormula>) -> Seq<SpecFormula>
    decreases s,
{
    if s.len() == 0 {
        Seq::empty()
    } else {
        flatten_or(s.drop_last()) + or_operands(s.last())
    }
}

/// All occurrences of `c` removed, order of the rest kept.
pub open spec fn remove_elem(s: Seq<SpecFormula>, c: SpecFormula) -> Seq<SpecFormula>
    decreases s,
{
    if s.len() == 0 {
        Seq::empty()
    } else if s.last() == c {
        remove_elem(s.drop_last(), c)
    } else {
        remove_elem(s.drop_last(), c).push(s.last())
    }
}

/// First occurrences kept, later duplicates dropped.
pub open spec fn dedup(s: Seq<SpecFormula>) -> Seq<SpecFormula>
    decreases s,
{
    if s.len() == 0 {
        Seq::empty()
    } else {
        let d = dedup(s.drop_last());
        if d.contains(s.last()) {
            d
        } else {
            d.push(s.last())
        }
    }
}

/// An operand list collapses to the connective's identity when empty
/// and to its sole member when singleton.
pub open spec fn collapse_and(d: Seq<SpecFormula>) -> SpecFormula {
    if d.len() == 0 {
        SpecFormula::True
    } else if d.len() == 1 {
        d[0]
    } else {
        SpecFormula::And(d)
    }
}

pub open spec fn collapse_or(d: Seq<SpecFormula>) -> SpecFormula {
    if d.len() == 0 {
        SpecFormula::False
    } else if d.len() == 1 {
        d[0]
    } else {
        SpecFormula::Or(d)
    }
}

/// The simplified conjunction of already-simplified operands: flatten,
/// drop `True`, collapse to `False` on a `False` operand, deduplicate,
/// then collapse empty and singleton lists — in that order.
pub open spec fn and_comps(items: Seq<SpecFormula>) -> SpecFormula {
    let kept = remove_elem(flatten_and(items), SpecFormula::True);
    if kept.contains(SpecFormula::False) {
        SpecFormula::False
    } else {
        collapse_and(dedup(kept))
    }
}

/// The simplified disjunction of already-simplified operands.
pub open spec fn or_comps(items: Seq<SpecFormula>) -> SpecFormula {
    let kept = remove_elem(flatten_or(items), SpecFormula::False);
    if kept.contains(SpecFormula::True) {
        SpecFormula::True
    } else {
        collapse_or(dedup(kept))
    }
}

/// Negation-normal form with constant and duplicate simplification:
/// negation is pushed into the sign of variable identifiers, constants
/// are absorbed, and `And`/`Or` nodes are flat and duplicate-free.
pub open spec fn spec_simpl(f: SpecFormula) -> SpecFormula
    decreases f,
{
    match f {
        SpecFormula::True => f,
        SpecFormula::False => f,
        SpecFormula::Var(_) => f,
        SpecFormula::Neg(v) => spec_simpl_neg(*v),
        SpecFormula::And(cs) => and_comps(simpl_seq(cs)),
        SpecFormula::Or(cs) => or_comps(simpl_seq(cs)),
    }
}

/// The simplified form of the negation of `f`.
pub open spec fn spec_simpl_neg(f: SpecFormula) -> SpecFormula
    decreases f,
{
    match f {
        SpecFormula::True => SpecFormula::False,
        SpecFormula::False => SpecFormula::True,
        SpecFormula::Var(x) => SpecFormula::Var(-x),
        SpecFormula::Neg(v) => spec_simpl(*v),
        SpecFormula::And(cs) => or_comps(simpl_neg_seq(cs)),
        SpecFormula::Or(cs) => and_comps(simpl_neg_seq(cs)),
    }
}

pub open spec fn simpl_seq(s: Seq<SpecFormula>) -> Seq<SpecFormula>
    decreases s,
{
    Seq::new(
        s.len(),
        |i: int|
            if 0 <= i < s.len() {
                spec_simpl(s[i])
            } else {
                SpecFormula::True
            },
    )
}

pub open spec fn simpl_neg_seq(s: Seq<SpecFormula>) -> Seq<SpecFormula>
    decreases s,
{
    Seq::new(
        s.len(),
        |i: int|
            if 0 <= i < s.len() {
                spec_simpl_neg(s[i])
            } else {
                SpecFormula::True
            },
    )
}

/// A formula is simplified when it contains no negation node, no
/// constant below the top, and every connective is n-ary, flat,
/// duplicate-free and has at least two operands.
pub open spec fn is_simplified(f: SpecFormula) -> bool
    decreases f, 0int,
{
    match f {
        SpecFormula::True => true,
        SpecFormula::False => true,
        SpecFormula::Var(_) => true,
        SpecFormula::Neg(_) => false,
        SpecFormula::And(cs) => cs.len() >= 2 && cs.no_duplicates() && all_simple_and(cs),
        SpecFormula::Or(cs) => cs.len() >= 2 && cs.no_duplicates() && all_simple_or(cs),
    }
}

/// A fit operand of a simplified conjunction: itself simplified, not a
/// conjunction, and not a constant.
pub open spec fn simple_and_operand(f: SpecFormula) -> bool
    decreases f, 1int,
{
    is_simplified(f) && !(f is And) && f != SpecFormula::True && f != SpecFormula::False
}

pub open spec fn all_simple_and(s: Seq<SpecFormula>) -> bool
    decreases s, 2int,
{
    forall|i: int| 0 <= i < s.len() ==> simple_and_operand(#[trigger] s[i])
}

/// A fit operand of a simplified disjunction.
pub open spec fn simple_or_operand(f: SpecFormula) -> bool
    decreases f, 1int,
{
    is_simplified(f) && !(f is Or) && f != SpecFormula::True && f != SpecFormula::False
}

pub open spec fn all_simple_or(s: Seq<SpecFormula>) -> bool
    decreases s, 2int,
{
    forall|i: int| 0 <= i < s.len() ==> simple_or_operand(#[trigger] s[i])
}

/// Negation-normal form: a negation node may stand only directly
/// above a variable.
pub open spec fn is_nnf(f: SpecFormula) -> bool
    decreases f, 1int,
{
    match f {
        SpecFormula::True => true,
        SpecFormula::False => true,
        SpecFormula::Var(_) => true,
        SpecFormula::Neg(v) => *v is Var,
        SpecFormula::And(cs) => all_nnf(cs),
        SpecFormula::Or(cs) => all_nnf(cs),
    }
}

pub open spec fn all_nnf(s: Seq<SpecFormula>) -> bool
    decreases s, 0int,
{
    forall|i: int| 0 <= i < s.len() ==> is_nnf(#[trigger] s[i])
}

fn contains_formula(v: &Vec<Formula>, f: &Formula) -> (r: bool)
    ensures
        r == view_seq(v@).contains(f@),
{
    let mut i: usize = 0;
    while i < v.len()
        invariant
            i <= v.len(),
            forall|j: int| 0 <= j < i ==> view_seq(v@)[j] != f@,
        decreases v.len() - i,
    {
        if v[i].equals(f) {
            proof {
                assert(view_seq(v@)[i as int] == f@);
            }
            return true;
        }
        i += 1;
    }
    proof {
        if view_seq(v@).contains(f@) {
            let t = choose|t: int| 0 <= t < view_seq(v@).len() && view_seq(v@)[t] == f@;
        }
    }
    false
}

fn is_true_f(f: &Formula) -> (r: bool)
    ensures
        r == (f@ == SpecFormula::True),
{
    match f {
        Formula::True => true,
        _ => false,
    }
}

fn is_false_f(f: &Formula) -> (r: bool)
    ensures
        r == (f@ == SpecFormula::False),
{
    match f {
        Formula::False => true,
        _ => false,
    }
}

#[verifier::loop_isolation(false)]
fn and_comps_exec(items: &Vec<Formula>) -> (r: Formula)
    ensures
        r@ == and_comps(view_seq(items@)),
{
    let ghost iv = view_seq(items@);
    // 1. flatten: splice operands of nested conjunctions
    let mut flat: Vec<Formula> = Vec::new();
    let mut i: usize = 0;
    while i < items.len()
        invariant
            i <= items.len(),
            view_seq(flat@) == flatten_and(iv.take(i as int)),
            iv == view_seq(items@),
        decreases items.len() - i,
    {
        let ghost pre = view_seq(flat@);
        match &items[i] {
            Formula::And(cs) => {
                let mut add = dup_vec(cs);
                let ghost ga = flat@;
                let ghost gb = add@;
                flat.append(&mut add);
                proof {
                    lemma_view_seq_concat(ga, gb);
                }
            },
            _ => {
                flat.push(items[i].dup());
                proof {
                    assert(view_seq(flat@) =~= pre + seq![items@[i as int]@]);
                }
            },
        }
        proof {
            assert(iv.take(i + 1).drop_last() =~= iv.take(i as int));
            assert(iv.take(i + 1).last() == iv[i as int]);
            assert(view_seq(flat@) =~= flatten_and(iv.take(i + 1)));
        }
        i += 1;
    }
    proof {
        assert(iv.take(iv.len() as int) =~= iv);
    }
    let ghost fv = view_seq(flat@);
    // 2. drop the identity element True
    let mut kept: Vec<Formula> = Vec::new();
    let mut j: usize = 0;
    while j < flat.len()
        invariant
            j <= flat.len(),
            view_seq(kept@) == remove_elem(fv.take(j as int), SpecFormula::True),
            fv == view_seq(flat@),
        decreases flat.len() - j,
    {
        let ghost pre = view_seq(kept@);
        if !is_true_f(&flat[j]) {
            kept.push(flat[j].dup());
            proof {
                assert(view_seq(kept@) =~= pre.push(fv[j as int]));
            }
        }
        proof {
            assert(fv.take(j + 1).drop_last() =~= fv.take(j as int));
            assert(view_seq(kept@) =~= remove_elem(fv.take(j + 1), SpecFormula::True));
        }
        j += 1;
    }
    proof {
        assert(fv.take(fv.len() as int) =~= fv);
    }
    let ghost kv = view_seq(kept@);
    // 3. short-circuit on the absorbing element False
    let mut k: usize = 0;
    while k < kept.len()
        invariant
            k <= kept.len(),
            forall|t: int| 0 <= t < k ==> view_seq(kept@)[t] != SpecFormula::False,
            kv == view_seq(kept@),
        decreases kept.len() - k,
    {
        if is_false_f(&kept[k]) {
            proof {
                assert(kv[k as int] == SpecFormula::False);
                assert(kv.contains(SpecFormula::False));
            }
            return Formula::False;
        }
        k += 1;
    }
    proof {
        assert(!kv.contains(SpecFormula::False)) by {
            if kv.contains(SpecFormula::False) {
                let t = choose|t: int| 0 <= t < kv.len() && kv[t] == SpecFormula::False;
                assert(view_seq(kept@)[t] != SpecFormula::False);
            }
        }
    }
    // 4. deduplicate by structural equality
    let mut out: Vec<Formula> = Vec::new();
    let mut m: usize = 0;
    while m < kept.len()
        invariant
            m <= kept.len(),
            view_seq(out@) == dedup(kv.take(m as int)),
            kv == view_seq(kept@),
        decreases kept.len() - m,
    {
        let ghost pre = view_seq(out@);
        if !contains_formula(&out, &kept[m]) {
            out.push(kept[m].dup());
            proof {
                assert(view_seq(out@) =~= pre.push(kv[m as int]));
            }
        }
        proof {
            assert(kv.take(m + 1).drop_last() =~= kv.take(m as int));
            assert(view_seq(out@) =~= dedup(kv.take(m + 1)));
        }
        m += 1;
    }
    proof {
        assert(kv.take(kv.len() as int) =~= kv);
    }
    // 5. collapse empty and singleton operand lists
    if out.len() == 0 {
        Formula::True
    } else if out.len() == 1 {
        match out.pop() {
            Some(f) => f,
            None => unreached(),
        }
    } else {
        Formula::And(out)
    }
}

#[verifier::loop_isolation(false)]
fn or_comps_exec(items: &Vec<Formula>) -> (r: Formula)
    ensures
        r@ == or_comps(view_seq(items@)),
{
    let ghost iv = view_seq(items@);
    // 1. flatten: splice operands of nested disjunctions
    let mut flat: Vec<Formula> = Vec::new();
    let mut i: usize = 0;
    while i < items.len()
        invariant
            i <= items.len(),
            view_seq(flat@) == flatten_or(iv.take(i as int)),
            iv == view_seq(items@),
        decreases items.len() - i,
    {
        let ghost pre = view_seq(flat@);
        match &items[i] {
            Formula::Or(cs) => {
                let mut add = dup_vec(cs);
                let ghost ga = flat@;
                let ghost gb = add@;
                flat.append(&mut add);
                proof {
                    lemma_view_seq_concat(ga, gb);
                }
            },
            _ => {
                flat.push(items[i].dup());
                proof {
                    assert(view_seq(flat@) =~= pre + seq![items@[i as int]@]);
                }
            },
        }
        proof {
            assert(iv.take(i + 1).drop_last() =~= iv.take(i as int));
            assert(iv.take(i + 1).last() == iv[i as int]);
            assert(view_seq(flat@) =~= flatten_or(iv.take(i + 1)));
        }
        i += 1;
    }
    proof {
        assert(iv.take(iv.len() as int) =~= iv);
    }
    let ghost fv = view_seq(flat@);
    // 2. drop the identity element False
    let mut kept: Vec<Formula> = Vec::new();
    let mut j: usize = 0;
    while j < flat.len()
        invariant
            j <= flat.len(),
            view_seq(kept@) == remove_elem(fv.take(j as int), SpecFormula::False),
            fv == view_seq(flat@),
        decreases flat.len() - j,
    {
        let ghost pre = view_seq(kept@);
        if !is_false_f(&flat[j]) {
            kept.push(flat[j].dup());
            proof {
                assert(view_seq(kept@) =~= pre.push(fv[j as int]));
            }
        }
        proof {
            assert(fv.take(j + 1).drop_last() =~= fv.take(j as int));
            assert(view_seq(kept@) =~= remove_elem(fv.take(j + 1), SpecFormula::False));
        }
        j += 1;
    }
    proof {
        assert(fv.take(fv.len() as int) =~= fv);
    }
    let ghost kv = view_seq(kept@);
    // 3. short-circuit on the absorbing element True
    let mut k: usize = 0;
    while k < kept.len()
        invariant
            k <= kept.len(),
            forall|t: int| 0 <= t < k ==> view_seq(kept@)[t] != SpecFormula::True,
            kv == view_seq(kept@),
        decreases kept.len() - k,
    {
        if is_true_f(&kept[k]) {
            proof {
                assert(kv[k as int] == SpecFormula::True);
                assert(kv.contains(SpecFormula::True));
            }
            return Formula::True;
        }
        k += 1;
    }
    proof {
        assert(!kv.contains(SpecFormula::True)) by {
            if kv.contains(SpecFormula::True) {
                let t = choose|t: int| 0 <= t < kv.len() && kv[t] == SpecFormula::True;
                assert(view_seq(kept@)[t] != SpecFormula::True);
            }
        }
    }
    // 4. deduplicate by structural equality
    let mut out: Vec<Formula> = Vec::new();
    let mut m: usize = 0;
    while m < kept.len()
        invariant
            m <= kept.len(),
            view_seq(out@) == dedup(kv.take(m as int)),
            kv == view_seq(kept@),
        decreases kept.len() - m,
    {
        let ghost pre = view_seq(out@);
        if !contains_formula(&out, &kept[m]) {
            out.push(kept[m].dup());
            proof {
                assert(view_seq(out@) =~= pre.push(kv[m as int]));
            }
        }
        proof {
            assert(kv.take(m + 1).drop_last() =~= kv.take(m as int));
            assert(view_seq(out@) =~= dedup(kv.take(m + 1)));
        }
        m += 1;
    }
    proof {
        assert(kv.take(kv.len() as int) =~= kv);
    }
    // 5. collapse empty and singleton operand lists
    if out.len() == 0 {
        Formula::False
    } else if out.len() == 1 {
        match out.pop() {
            Some(f) => f,
            None => unreached(),
        }
    } else {
        Formula::Or(out)
    }
}

proof fn lemma_wf_and_children(cs: Seq<SpecFormula>)
    requires
        wf(SpecFormula::And(cs)),
    ensures
        forall|j: int| 0 <= j < cs.len() ==> wf(#[trigger] cs[j]),
{
    assert(vars_in(SpecFormula::And(cs), isize::MAX as int + 1));
    assert(all_vars_in(cs, isize::MAX as int + 1));
}

proof fn lemma_wf_or_children(cs: Seq<SpecFormula>)
    requires
        wf(SpecFormula::Or(cs)),
    ensures
        forall|j: int| 0 <= j < cs.len() ==> wf(#[trigger] cs[j]),
{
    assert(vars_in(SpecFormula::Or(cs), isize::MAX as int + 1));
    assert(all_vars_in(cs, isize::MAX as int + 1));
}

fn simpl_rec(a: &Formula) -> (r: Formula)
    requires
        wf(a@),
    ensures
        r@ == spec_simpl(a@),
    decreases a, 1int,
{
    match a {
        Formula::True => Formula::True,
        Formula::False => Formula::False,
        Formula::Var(x) => Formula::Var(*x),
        Formula::Neg(v) => simpl_neg_rec(&**v),
        Formula::And(cs) => {
            proof {
                assert(a@ == SpecFormula::And(view_seq(cs@)));
                lemma_wf_and_children(view_seq(cs@));
                assert forall|j: int| 0 <= j < cs@.len() implies wf(#[trigger] cs@[j]@) by {
                    assert(view_seq(cs@)[j] == cs@[j]@);
                    assert(wf(view_seq(cs@)[j]));
                }
            }
            let rs = simpl_vec(cs);
            proof {
                assert forall|j: int| 0 <= j < rs@.len() implies view_seq(rs@)[j] == simpl_seq(
                    view_seq(cs@),
                )[j] by {
                    assert(rs@[j]@ == spec_simpl(cs@[j]@));
                    assert(view_seq(cs@)[j] == cs@[j]@);
                }
                assert(view_seq(rs@) =~= simpl_seq(view_seq(cs@)));
            }
            and_comps_exec(&rs)
        },
        Formula::Or(cs) => {
            proof {
                assert(a@ == SpecFormula::Or(view_seq(cs@)));
                lemma_wf_or_children(view_seq(cs@));
                assert forall|j: int| 0 <= j < cs@.len() implies wf(#[trigger] cs@[j]@) by {
                    assert(view_seq(cs@)[j] == cs@[j]@);
                    assert(wf(view_seq(cs@)[j]));
                }
            }
            let rs = simpl_vec(cs);
            proof {
                assert forall|j: int| 0 <= j < rs@.len() implies view_seq(rs@)[j] == simpl_seq(
                    view_seq(cs@),
                )[j] by {
                    assert(rs@[j]@ == spec_simpl(cs@[j]@));
                    assert(view_seq(cs@)[j] == cs@[j]@);
                }
                assert(view_seq(rs@) =~= simpl_seq(view_seq(cs@)));
            }
            or_comps_exec(&rs)
        },
    }
}

fn simpl_vec(cs: &Vec<Formula>) -> (rs: Vec<Formula>)
    requires
        forall|j: int| 0 <= j < cs@.len() ==> wf(#[trigger] cs@[j]@),
    ensures
        rs@.len() == cs@.len(),
        forall|j: int| 0 <= j < cs@.len() ==> #[trigger] rs@[j]@ == spec_simpl(cs@[j]@),
    decreases cs, 0int,
{
    let mut rs: Vec<Formula> = Vec::new();
    let mut i: usize = 0;
    while i < cs.len()
        invariant
            i <= cs.len(),
            rs@.len() == i,
            forall|j: int| 0 <= j < cs@.len() ==> wf(#[trigger] cs@[j]@),
            forall|j: int| 0 <= j < i ==> #[trigger] rs@[j]@ == spec_simpl(cs@[j]@),
        decreases cs.len() - i,
    {
        rs.push(simpl_rec(&cs[i]));
        i += 1;
    }
    rs
}

fn simpl_neg_rec(a: &Formula) -> (r: Formula)
    requires
        wf(a@),
    ensures
        r@ == spec_simpl_neg(a@),
    decreases a, 1int,
{
    match a {
        Formula::True => Formula::False,
        Formula::False => Formula::True,
        Formula::Var(x) => Formula::Var(-*x),
        Formula::Neg(v) => simpl_rec(&**v),
        Formula::And(cs) => {
            proof {
                assert(a@ == SpecFormula::And(view_seq(cs@)));
                lemma_wf_and_children(view_seq(cs@));
                assert forall|j: int| 0 <= j < cs@.len() implies wf(#[trigger] cs@[j]@) by {
                    assert(view_seq(cs@)[j] == cs@[j]@);
                    assert(wf(view_seq(cs@)[j]));
                }
            }
            let rs = simpl_neg_vec(cs);
            proof {
                assert forall|j: int| 0 <= j < rs@.len() implies view_seq(rs@)[j] == simpl_neg_seq(
                    view_seq(cs@),
                )[j] by {
                    assert(rs@[j]@ == spec_simpl_neg(cs@[j]@));
                    assert(view_seq(cs@)[j] == cs@[j]@);
                }
                assert(view_seq(rs@) =~= simpl_neg_seq(view_seq(cs@)));
            }
            or_comps_exec(&rs)
        },
        Formula::Or(cs) => {
            proof {
                assert(a@ == SpecFormula::Or(view_seq(cs@)));
                lemma_wf_or_children(view_seq(cs@));
                assert forall|j: int| 0 <= j < cs@.len() implies wf(#[trigger] cs@[j]@) by {
                    assert(view_seq(cs@)[j] == cs@[j]@);
                    assert(wf(view_seq(cs@)[j]));
                }
            }
            let rs = simpl_neg_vec(cs);
            proof {
                assert forall|j: int| 0 <= j < rs@.len() implies view_seq(rs@)[j] == simpl_neg_seq(
                    view_seq(cs@),
                )[j] by {
                    assert(rs@[j]@ == spec_simpl_neg(cs@[j]@));
                    assert(view_seq(cs@)[j] == cs@[j]@);
                }
                assert(view_seq(rs@) =~= simpl_neg_seq(view_seq(cs@)));
            }
            and_comps_exec(&rs)
        },
    }
}

fn simpl_neg_vec(cs: &Vec<Formula>) -> (rs: Vec<Formula>)
    requires
        forall|j: int| 0 <= j < cs@.len() ==> wf(#[trigger] cs@[j]@),
    ensures
        rs@.len() == cs@.len(),
        forall|j: int| 0 <= j < cs@.len() ==> #[trigger] rs@[j]@ == spec_simpl_neg(cs@[j]@),
    decreases cs, 0int,
{
    let mut rs: Vec<Formula> = Vec::new();
    let mut i: usize = 0;
    while i < cs.len()
        invariant
            i <= cs.len(),
            rs@.len() == i,
            forall|j: int| 0 <= j < cs@.len() ==> wf(#[trigger] cs@[j]@),
            forall|j: int| 0 <= j < i ==> #[trigger] rs@[j]@ == spec_simpl_neg(cs@[j]@),
        decreases cs.len() - i,
    {
        rs.push(simpl_neg_rec(&cs[i]));
        i += 1;
    }
    rs
}

// ---------------------------------------------------------------------
// Laws of the normalizer
// ---------------------------------------------------------------------

pub proof fn lemma_eval_concat(x: Seq<SpecFormula>, y: Seq<SpecFormula>, a: spec_fn(int) -> bool)
    ensures
        all_eval(x + y, a) == (all_eval(x, a) && all_eval(y, a)),
        any_eval(x + y, a) == (any_eval(x, a) || any_eval(y, a)),
{
    if all_eval(x + y, a) {
        assert forall|i: int| 0 <= i < x.len() implies eval(#[trigger] x[i], a) by {
            assert((x + y)[i] == x[i]);
            assert(eval((x + y)[i], a));
        }
        assert forall|i: int| 0 <= i < y.len() implies eval(#[trigger] y[i], a) by {
            assert((x + y)[x.len() + i] == y[i]);
            assert(eval((x + y)[x.len() + i], a));
        }
    }
    if all_eval(x, a) && all_eval(y, a) {
        assert forall|i: int| 0 <= i < (x + y).len() implies eval(#[trigger] (x + y)[i], a) by {
            if i < x.len() {
                assert((x + y)[i] == x[i]);
            } else {
                assert((x + y)[i] == y[i - x.len()]);
            }
        }
    }
    if any_eval(x + y, a) {
        let i = choose|i: int| 0 <= i < (x + y).len() && eval(#[trigger] (x + y)[i], a);
        if i < x.len() {
            assert((x + y)[i] == x[i]);
            assert(any_eval(x, a));
        } else {
            assert((x + y)[i] == y[i - x.len()]);
            assert(any_eval(y, a));
        }
    }
    if any_eval(x, a) {
        let i = choose|i: int| 0 <= i < x.len() && eval(#[trigger] x[i], a);
        assert((x + y)[i] == x[i]);
        assert(any_eval(x + y, a));
    }
    if any_eval(y, a) {
        let i = choose|i: int| 0 <= i < y.len() && eval(#[trigger] y[i], a);
        assert((x + y)[x.len() + i] == y[i]);
        assert(any_eval(x + y, a));
    }
}

pub proof fn lemma_eval_single(f: SpecFormula, a: spec_fn(int) -> bool)
    ensures
        all_eval(seq![f], a) == eval(f, a),
        any_eval(seq![f], a) == eval(f, a),
{
    assert(seq![f][0] == f);
    if eval(f, a) {
        assert(any_eval(seq![f], a));
    }
    if all_eval(seq![f], a) {
        assert(eval(seq![f][0], a));
    }
    if any_eval(seq![f], a) {
        let i = choose|i: int| 0 <= i < 1 && eval(#[trigger] seq![f][i], a);
        assert(seq![f][i] == f);
    }
}

proof fn lemma_flatten_and_eval(s: Seq<SpecFormula>, a: spec_fn(int) -> bool)
    ensures
        all_eval(flatten_and(s), a) == all_eval(s, a),
    decreases s,
{
    if s.len() == 0 {
        assert(flatten_and(s) =~= Seq::<SpecFormula>::empty());
    } else {
        let dl = s.drop_last();
        lemma_flatten_and_eval(dl, a);
        lemma_eval_concat(flatten_and(dl), and_operands(s.last()), a);
        match s.last() {
            SpecFormula::And(cs) => {
                assert(all_eval(and_operands(s.last()), a) == eval(s.last(), a));
            },
            _ => {
                lemma_eval_single(s.last(), a);
                assert(and_operands(s.last()) =~= seq![s.last()]);
            },
        }
        assert(s =~= dl + seq![s.last()]);
        lemma_eval_concat(dl, seq![s.last()], a);
        lemma_eval_single(s.last(), a);
    }
}

proof fn lemma_flatten_or_eval(s: Seq<SpecFormula>, a: spec_fn(int) -> bool)
    ensures
        any_eval(flatten_or(s), a) == any_eval(s, a),
    decreases s,
{
    if s.len() == 0 {
        assert(flatten_or(s) =~= Seq::<SpecFormula>::empty());
    } else {
        let dl = s.drop_last();
        lemma_flatten_or_eval(dl, a);
        lemma_eval_concat(flatten_or(dl), or_operands(s.last()), a);
        match s.last() {
            SpecFormula::Or(cs) => {
                assert(any_eval(or_operands(s.last()), a) == eval(s.last(), a));
            },
            _ => {
                lemma_eval_single(s.last(), a);
                assert(or_operands(s.last()) =~= seq![s.last()]);
            },
        }
        assert(s =~= dl + seq![s.last()]);
        lemma_eval_concat(dl, seq![s.last()], a);
        lemma_eval_single(s.last(), a);
    }
}

proof fn lemma_remove_elem_eval(s: Seq<SpecFormula>, c: SpecFormula, a: spec_fn(int) -> bool)
    ensures
        eval(c, a) ==> all_eval(remove_elem(s, c), a) == all_eval(s, a),
        !eval(c, a) ==> any_eval(remove_elem(s, c), a) == any_eval(s, a),
    decreases s,
{
    if s.len() == 0 {
    } else {
        let dl = s.drop_last();
        lemma_remove_elem_eval(dl, c, a);
        assert(s =~= dl + seq![s.last()]);
        lemma_eval_concat(dl, seq![s.last()], a);
        lemma_eval_single(s.last(), a);
        if s.last() == c {
        } else {
            assert(remove_elem(s, c) =~= remove_elem(dl, c) + seq![s.last()]);
            lemma_eval_concat(remove_elem(dl, c), seq![s.last()], a);
        }
    }
}

proof fn lemma_remove_elem_contains(s: Seq<SpecFormula>, c: SpecFormula)
    ensures
        forall|x: SpecFormula| #[trigger]
            remove_elem(s, c).contains(x) <==> (s.contains(x) && x != c),
    decreases s,
{
    if s.len() == 0 {
        assert forall|x: SpecFormula| !(#[trigger] s.contains(x)) by {
            if s.contains(x) {
                let i = choose|i: int| 0 <= i < s.len() && s[i] == x;
            }
        }
    } else {
        let dl = s.drop_last();
        lemma_remove_elem_contains(dl, c);
        assert forall|x: SpecFormula| #[trigger]
            remove_elem(s, c).contains(x) <==> (s.contains(x) && x != c) by {
            assert(s =~= dl.push(s.last()));
            lemma_contains_push(dl, s.last(), x);
            assert(remove_elem(dl, c).contains(x) <==> (dl.contains(x) && x != c));
            if s.last() == c {
                assert(remove_elem(s, c) == remove_elem(dl, c));
            } else {
                assert(remove_elem(s, c) == remove_elem(dl, c).push(s.last()));
                lemma_contains_push(remove_elem(dl, c), s.last(), x);
            }
        }
    }
}

proof fn lemma_contains_push(s: Seq<SpecFormula>, e: SpecFormula, x: SpecFormula)
    ensures
        s.push(e).contains(x) <==> (s.contains(x) || x == e),
{
    if s.push(e).contains(x) {
        let i = choose|i: int| 0 <= i < s.push(e).len() && s.push(e)[i] == x;
        if i < s.len() {
            assert(s[i] == x);
        }
    }
    if s.contains(x) {
        let i = choose|i: int| 0 <= i < s.len() && s[i] == x;
        assert(s.push(e)[i] == x);
    }
    if x == e {
        assert(s.push(e)[s.len() as int] == x);
    }
}

proof fn lemma_dedup_contains(s: Seq<SpecFormula>)
    ensures
        forall|x: SpecFormula| #[trigger] dedup(s).contains(x) <==> s.contains(x),
        dedup(s).no_duplicates(),
    decreases s,
{
    if s.len() == 0 {
        assert forall|x: SpecFormula| !(#[trigger] s.contains(x)) by {
            if s.contains(x) {
                let i = choose|i: int| 0 <= i < s.len() && s[i] == x;
            }
        }
    } else {
        let dl = s.drop_last();
        lemma_dedup_contains(dl);
        let d = dedup(dl);
        assert forall|x: SpecFormula| #[trigger] dedup(s).contains(x) <==> s.contains(x) by {
            assert(s =~= dl.push(s.last()));
            lemma_contains_push(dl, s.last(), x);
            if !d.contains(s.last()) {
                lemma_contains_push(d, s.last(), x);
            }
        }
        if !d.contains(s.last()) {
            assert forall|i: int, j: int|
                0 <= i < j < d.push(s.last()).len() implies d.push(s.last())[i] != d.push(
                s.last(),
            )[j] by {
                if j < d.len() {
                } else {
                    assert(d.push(s.last())[j] == s.last());
                    if d.push(s.last())[i] == s.last() {
                        assert(d.contains(d[i]));
                    }
                }
            }
            assert(d.push(s.last()).no_duplicates());
        }
    }
}

proof fn lemma_dedup_eval(s: Seq<SpecFormula>, a: spec_fn(int) -> bool)
    ensures
        all_eval(dedup(s), a) == all_eval(s, a),
        any_eval(dedup(s), a) == any_eval(s, a),
{
    lemma_dedup_contains(s);
    let d = dedup(s);
    if all_eval(d, a) {
        assert forall|i: int| 0 <= i < s.len() implies eval(#[trigger] s[i], a) by {
            assert(s.contains(s[i]));
            assert(d.contains(s[i]));
            let j = choose|j: int| 0 <= j < d.len() && d[j] == s[i];
            assert(eval(d[j], a));
        }
    }
    if all_eval(s, a) {
        assert forall|i: int| 0 <= i < d.len() implies eval(#[trigger] d[i], a) by {
            assert(d.contains(d[i]));
            assert(s.contains(d[i]));
            let j = choose|j: int| 0 <= j < s.len() && s[j] == d[i];
            assert(eval(s[j], a));
        }
    }
    if any_eval(d, a) {
        let i = choose|i: int| 0 <= i < d.len() && eval(#[trigger] d[i], a);
        assert(d.contains(d[i]));
        assert(s.contains(d[i]));
        let j = choose|j: int| 0 <= j < s.len() && s[j] == d[i];
        assert(any_eval(s, a));
    }
    if any_eval(s, a) {
        let i = choose|i: int| 0 <= i < s.len() && eval(#[trigger] s[i], a);
        assert(s.contains(s[i]));
        assert(d.contains(s[i]));
        let j = choose|j: int| 0 <= j < d.len() && d[j] == s[i];
        assert(any_eval(d, a));
    }
}

/// The simplified conjunction of a list of operands holds exactly when
/// every operand holds.
pub proof fn lemma_and_comps_eval(items: Seq<SpecFormula>, a: spec_fn(int) -> bool)
    ensures
        eval(and_comps(items), a) == all_eval(items, a),
{
    let flat = flatten_and(items);
    let kept = remove_elem(flat, SpecFormula::True);
    lemma_flatten_and_eval(items, a);
    lemma_remove_elem_eval(flat, SpecFormula::True, a);
    if kept.contains(SpecFormula::False) {
        let j = choose|j: int| 0 <= j < kept.len() && kept[j] == SpecFormula::False;
        assert(!eval(kept[j], a));
        assert(!all_eval(kept, a));
    } else {
        let d = dedup(kept);
        lemma_dedup_eval(kept, a);
        if d.len() == 0 {
            assert(all_eval(d, a));
        } else if d.len() == 1 {
            if all_eval(d, a) {
                assert(eval(d[0], a));
            }
            if eval(d[0], a) {
                assert forall|i: int| 0 <= i < d.len() implies eval(#[trigger] d[i], a) by {
                    assert(d[i] == d[0]);
                }
            }
        } else {
            if eval(SpecFormula::And(d), a) {
                assert forall|i: int| 0 <= i < d.len() implies eval(#[trigger] d[i], a) by {
                    assert(eval(SpecFormula::And(d), a));
                }
                assert(all_eval(d, a));
            }
            if all_eval(d, a) {
                assert forall|i: int| 0 <= i < d.len() implies eval(#[trigger] d[i], a) by {
                    assert(all_eval(d, a));
                }
                assert(eval(SpecFormula::And(d), a));
            }
        }
    }
}

/// The simplified disjunction of a list of operands holds exactly when
/// some operand holds.
pub proof fn lemma_or_comps_eval(items: Seq<SpecFormula>, a: spec_fn(int) -> bool)
    ensures
        eval(or_comps(items), a) == any_eval(items, a),
{
    let flat = flatten_or(items);
    let kept = remove_elem(flat, SpecFormula::False);
    lemma_flatten_or_eval(items, a);
    lemma_remove_elem_eval(flat, SpecFormula::False, a);
    if kept.contains(SpecFormula::True) {
        let j = choose|j: int| 0 <= j < kept.len() && kept[j] == SpecFormula::True;
        assert(eval(kept[j], a));
        assert(any_eval(kept, a));
    } else {
        let d = dedup(kept);
        lemma_dedup_eval(kept, a);
        if d.len() == 0 {
            assert(!any_eval(d, a)) by {
                if any_eval(d, a) {
                    let i = choose|i: int| 0 <= i < d.len() && eval(#[trigger] d[i], a);
                }
            }
        } else if d.len() == 1 {
            if any_eval(d, a) {
                let i = choose|i: int| 0 <= i < d.len() && eval(#[trigger] d[i], a);
                assert(d[i] == d[0]);
            }
            if eval(d[0], a) {
                assert(any_eval(d, a));
            }
        } else {
            if eval(SpecFormula::Or(d), a) {
                let i = choose|i: int| 0 <= i < d.len() && eval(#[trigger] d[i], a);
                assert(any_eval(d, a));
            }
            if any_eval(d, a) {
                let i = choose|i: int| 0 <= i < d.len() && eval(#[trigger] d[i], a);
                assert(eval(SpecFormula::Or(d), a));
            }
        }
    }
}

proof fn lemma_flatten_and_simple(s: Seq<SpecFormula>)
    requires
        forall|i: int| 0 <= i < s.len() ==> is_simplified(#[trigger] s[i]),
    ensures
        forall|j: int|
            0 <= j < flatten_and(s).len() ==> (is_simplified(#[trigger] flatten_and(s)[j]) && !(
            flatten_and(s)[j] is And)),
    decreases s,
{
    if s.len() > 0 {
        let dl = s.drop_last();
        assert forall|i: int| 0 <= i < dl.len() implies is_simplified(#[trigger] dl[i]) by {
            assert(dl[i] == s[i]);
        }
        lemma_flatten_and_simple(dl);
        let ops = and_operands(s.last());
        assert(is_simplified(s.last()));
        assert forall|j: int|
            0 <= j < ops.len() implies (is_simplified(#[trigger] ops[j]) && !(ops[j] is And)) by {
            match s.last() {
                SpecFormula::And(cs) => {
                    assert(all_simple_and(cs));
                    assert(simple_and_operand(cs[j]));
                },
                _ => {
                    assert(ops =~= seq![s.last()]);
                },
            }
        }
        assert forall|j: int|
            0 <= j < flatten_and(s).len() implies (is_simplified(#[trigger] flatten_and(s)[j])
            && !(flatten_and(s)[j] is And)) by {
            if j < flatten_and(dl).len() {
                assert(flatten_and(s)[j] == flatten_and(dl)[j]);
            } else {
                assert(flatten_and(s)[j] == ops[j - flatten_and(dl).len()]);
            }
        }
    }
}

proof fn lemma_flatten_or_simple(s: Seq<SpecFormula>)
    requires
        forall|i: int| 0 <= i < s.len() ==> is_simplified(#[trigger] s[i]),
    ensures
        forall|j: int|
            0 <= j < flatten_or(s).len() ==> (is_simplified(#[trigger] flatten_or(s)[j]) && !(
            flatten_or(s)[j] is Or)),
    decreases s,
{
    if s.len() > 0 {
        let dl = s.drop_last();
        assert forall|i: int| 0 <= i < dl.len() implies is_simplified(#[trigger] dl[i]) by {
            assert(dl[i] == s[i]);
        }
        lemma_flatten_or_simple(dl);
        let ops = or_operands(s.last());
        assert(is_simplified(s.last()));
        assert forall|j: int|
            0 <= j < ops.len() implies (is_simplified(#[trigger] ops[j]) && !(ops[j] is Or)) by {
            match s.last() {
                SpecFormula::Or(cs) => {
                    assert(all_simple_or(cs));
                    assert(simple_or_operand(cs[j]));
                },
                _ => {
                    assert(ops =~= seq![s.last()]);
                },
            }
        }
        assert forall|j: int|
            0 <= j < flatten_or(s).len() implies (is_simplified(#[trigger] flatten_or(s)[j]) && !(
            flatten_or(s)[j] is Or)) by {
            if j < flatten_or(dl).len() {
                assert(flatten_or(s)[j] == flatten_or(dl)[j]);
            } else {
                assert(flatten_or(s)[j] == ops[j - flatten_or(dl).len()]);
            }
        }
    }
}

/// The simplified conjunction of simplified operands is simplified.
pub proof fn lemma_and_comps_simplified(items: Seq<SpecFormula>)
    requires
        forall|i: int| 0 <= i < items.len() ==> is_simplified(#[trigger] items[i]),
    ensures
        is_simplified(and_comps(items)),
{
    let flat = flatten_and(items);
    let kept = remove_elem(flat, SpecFormula::True);
    lemma_flatten_and_simple(items);
    lemma_remove_elem_contains(flat, SpecFormula::True);
    if !kept.contains(SpecFormula::False) {
        let d = dedup(kept);
        lemma_dedup_contains(kept);
        assert forall|i: int| 0 <= i < d.len() implies simple_and_operand(#[trigger] d[i]) by {
            assert(d.contains(d[i]));
            assert(kept.contains(d[i]));
            assert(flat.contains(d[i]) && d[i] != SpecFormula::True);
            let j = choose|j: int| 0 <= j < flat.len() && flat[j] == d[i];
            assert(is_simplified(flat[j]) && !(flat[j] is And));
            assert(d[i] != SpecFormula::False);
        }
        if d.len() >= 2 {
            assert(all_simple_and(d));
            assert(is_simplified(SpecFormula::And(d)));
        } else if d.len() == 1 {
            assert(simple_and_operand(d[0]));
        }
    }
}

/// The simplified disjunction of simplified operands is simplified.
pub proof fn lemma_or_comps_simplified(items: Seq<SpecFormula>)
    requires
        forall|i: int| 0 <= i < items.len() ==> is_simplified(#[trigger] items[i]),
    ensures
        is_simplified(or_comps(items)),
{
    let flat = flatten_or(items);
    let kept = remove_elem(flat, SpecFormula::False);
    lemma_flatten_or_simple(items);
    lemma_remove_elem_contains(flat, SpecFormula::False);
    if !kept.contains(SpecFormula::True) {
        let d = dedup(kept);
        lemma_dedup_contains(kept);
        assert forall|i: int| 0 <= i < d.len() implies simple_or_operand(#[trigger] d[i]) by {
            assert(d.contains(d[i]));
            assert(kept.contains(d[i]));
            assert(flat.contains(d[i]) && d[i] != SpecFormula::False);
            let j = choose|j: int| 0 <= j < flat.len() && flat[j] == d[i];
            assert(is_simplified(flat[j]) && !(flat[j] is Or));
            assert(d[i] != SpecFormula::True);
        }
        if d.len() >= 2 {
            assert(all_simple_or(d));
            assert(is_simplified(SpecFormula::Or(d)));
        } else if d.len() == 1 {
            assert(simple_or_operand(d[0]));
        }
    }
}

proof fn lemma_flatten_and_vars(s: Seq<SpecFormula>, b: int)
    requires
        forall|i: int| 0 <= i < s.len() ==> vars_in(#[trigger] s[i], b),
    ensures
        forall|j: int| 0 <= j < flatten_and(s).len() ==> vars_in(#[trigger] flatten_and(s)[j], b),
    decreases s,
{
    if s.len() > 0 {
        let dl = s.drop_last();
        assert forall|i: int| 0 <= i < dl.len() implies vars_in(#[trigger] dl[i], b) by {
            assert(dl[i] == s[i]);
        }
        lemma_flatten_and_vars(dl, b);
        let ops = and_operands(s.last());
        assert(vars_in(s.last(), b));
        assert forall|j: int| 0 <= j < ops.len() implies vars_in(#[trigger] ops[j], b) by {
            match s.last() {
                SpecFormula::And(cs) => {
                    assert(all_vars_in(cs, b));
                },
                _ => {
                    assert(ops =~= seq![s.last()]);
                },
            }
        }
        assert forall|j: int|
            0 <= j < flatten_and(s).len() implies vars_in(#[trigger] flatten_and(s)[j], b) by {
            if j < flatten_and(dl).len() {
                assert(flatten_and(s)[j] == flatten_and(dl)[j]);
            } else {
                assert(flatten_and(s)[j] == ops[j - flatten_and(dl).len()]);
            }
        }
    }
}

proof fn lemma_flatten_or_vars(s: Seq<SpecFormula>, b: int)
    requires
        forall|i: int| 0 <= i < s.len() ==> vars_in(#[trigger] s[i], b),
    ensures
        forall|j: int| 0 <= j < flatten_or(s).len() ==> vars_in(#[trigger] flatten_or(s)[j], b),
    decreases s,
{
    if s.len() > 0 {
        let dl = s.drop_last();
        assert forall|i: int| 0 <= i < dl.len() implies vars_in(#[trigger] dl[i], b) by {
            assert(dl[i] == s[i]);
        }
        lemma_flatten_or_vars(dl, b);
        let ops = or_operands(s.last());
        assert(vars_in(s.last(), b));
        assert forall|j: int| 0 <= j < ops.len() implies vars_in(#[trigger] ops[j], b) by {
            match s.last() {
                SpecFormula::Or(cs) => {
                    assert(all_vars_in(cs, b));
                },
                _ => {
                    assert(ops =~= seq![s.last()]);
                },
            }
        }
        assert forall|j: int|
            0 <= j < flatten_or(s).len() implies vars_in(#[trigger] flatten_or(s)[j], b) by {
            if j < flatten_or(dl).len() {
                assert(flatten_or(s)[j] == flatten_or(dl)[j]);
            } else {
                assert(flatten_or(s)[j] == ops[j - flatten_or(dl).len()]);
            }
        }
    }
}

proof fn lemma_and_comps_vars(items: Seq<SpecFormula>, b: int)
    requires
        forall|i: int| 0 <= i < items.len() ==> vars_in(#[trigger] items[i], b),
    ensures
        vars_in(and_comps(items), b),
{
    let flat = flatten_and(items);
    let kept = remove_elem(flat, SpecFormula::True);
    lemma_flatten_and_vars(items, b);
    lemma_remove_elem_contains(flat, SpecFormula::True);
    if !kept.contains(SpecFormula::False) {
        let d = dedup(kept);
        lemma_dedup_contains(kept);
        assert forall|i: int| 0 <= i < d.len() implies vars_in(#[trigger] d[i], b) by {
            assert(d.contains(d[i]));
            assert(kept.contains(d[i]));
            assert(flat.contains(d[i]));
            let j = choose|j: int| 0 <= j < flat.len() && flat[j] == d[i];
            assert(vars_in(flat[j], b));
        }
        if d.len() >= 2 {
            assert(all_vars_in(d, b));
            assert(vars_in(SpecFormula::And(d), b));
        }
    }
}

proof fn lemma_or_comps_vars(items: Seq<SpecFormula>, b: int)
    requires
        forall|i: int| 0 <= i < items.len() ==> vars_in(#[trigger] items[i], b),
    ensures
        vars_in(or_comps(items), b),
{
    let flat = flatten_or(items);
    let kept = remove_elem(flat, SpecFormula::False);
    lemma_flatten_or_vars(items, b);
    lemma_remove_elem_contains(flat, SpecFormula::False);
    if !kept.contains(SpecFormula::True) {
        let d = dedup(kept);
        lemma_dedup_contains(kept);
        assert forall|i: int| 0 <= i < d.len() implies vars_in(#[trigger] d[i], b) by {
            assert(d.contains(d[i]));
            assert(kept.contains(d[i]));
            assert(flat.contains(d[i]));
            let j = choose|j: int| 0 <= j < flat.len() && flat[j] == d[i];
            assert(vars_in(flat[j], b));
        }
        if d.len() >= 2 {
            assert(all_vars_in(d, b));
            assert(vars_in(SpecFormula::Or(d), b));
        }
    }
}

proof fn lemma_flatten_and_id(s: Seq<SpecFormula>)
    requires
        forall|i: int| 0 <= i < s.len() ==> !((#[trigger] s[i]) is And),
    ensures
        flatten_and(s) == s,
    decreases s,
{
    if s.len() == 0 {
        assert(flatten_and(s) =~= s);
    } else {
        let dl = s.drop_last();
        assert forall|i: int| 0 <= i < dl.len() implies !((#[trigger] dl[i]) is And) by {
            assert(dl[i] == s[i]);
        }
        lemma_flatten_and_id(dl);
        assert(and_operands(s.last()) =~= seq![s.last()]);
        assert(flatten_and(s) =~= s);
    }
}

proof fn lemma_flatten_or_id(s: Seq<SpecFormula>)
    requires
        forall|i: int| 0 <= i < s.len() ==> !((#[trigger] s[i]) is Or),
    ensures
        flatten_or(s) == s,
    decreases s,
{
    if s.len() == 0 {
        assert(flatten_or(s) =~= s);
    } else {
        let dl = s.drop_last();
        assert forall|i: int| 0 <= i < dl.len() implies !((#[trigger] dl[i]) is Or) by {
            assert(dl[i] == s[i]);
        }
        lemma_flatten_or_id(dl);
        assert(or_operands(s.last()) =~= seq![s.last()]);
        assert(flatten_or(s) =~= s);
    }
}

proof fn lemma_remove_elem_id(s: Seq<SpecFormula>, c: SpecFormula)
    requires
        !s.contains(c),
    ensures
        remove_elem(s, c) == s,
    decreases s,
{
    if s.len() == 0 {
        assert(remove_elem(s, c) =~= s);
    } else {
        let dl = s.drop_last();
        assert(!dl.contains(c)) by {
            if dl.contains(c) {
                let i = choose|i: int| 0 <= i < dl.len() && dl[i] == c;
                assert(s[i] == c);
            }
        }
        lemma_remove_elem_id(dl, c);
        assert(s.last() != c) by {
            if s.last() == c {
                assert(s[s.len() - 1] == c);
            }
        }
        assert(remove_elem(s, c) =~= s);
    }
}

proof fn lemma_dedup_id(s: Seq<SpecFormula>)
    requires
        s.no_duplicates(),
    ensures
        dedup(s) == s,
    decreases s,
{
    if s.len() == 0 {
        assert(dedup(s) =~= s);
    } else {
        let dl = s.drop_last();
        assert(dl.no_duplicates());
        lemma_dedup_id(dl);
        assert(!dl.contains(s.last())) by {
            if dl.contains(s.last()) {
                let i = choose|i: int| 0 <= i < dl.len() && dl[i] == s.last();
                assert(s[i] == s[s.len() - 1]);
            }
        }
        assert(dedup(s) =~= s);
    }
}

/// A simplified formula is its own normal form.
pub proof fn lemma_simpl_fixpoint(f: SpecFormula)
    requires
        is_simplified(f),
    ensures
        spec_simpl(f) == f,
    decreases f, 1int,
{
    match f {
        SpecFormula::True => {},
        SpecFormula::False => {},
        SpecFormula::Var(_) => {},
        SpecFormula::Neg(_) => {
            assert(false);
        },
        SpecFormula::And(cs) => {
            assert(all_simple_and(cs));
            assert forall|i: int| 0 <= i < cs.len() implies is_simplified(#[trigger] cs[i]) by {
                assert(simple_and_operand(cs[i]));
            }
            lemma_simpl_fixpoint_seq(cs);
            assert(simpl_seq(cs) =~= cs);
            assert forall|i: int| 0 <= i < cs.len() implies !((#[trigger] cs[i]) is And) by {
                assert(simple_and_operand(cs[i]));
            }
            lemma_flatten_and_id(cs);
            assert(!cs.contains(SpecFormula::True)) by {
                if cs.contains(SpecFormula::True) {
                    let i = choose|i: int| 0 <= i < cs.len() && cs[i] == SpecFormula::True;
                    assert(simple_and_operand(cs[i]));
                }
            }
            lemma_remove_elem_id(cs, SpecFormula::True);
            assert(!cs.contains(SpecFormula::False)) by {
                if cs.contains(SpecFormula::False) {
                    let i = choose|i: int| 0 <= i < cs.len() && cs[i] == SpecFormula::False;
                    assert(simple_and_operand(cs[i]));
                }
            }
            lemma_dedup_id(cs);
            assert(and_comps(cs) == f);
        },
        SpecFormula::Or(cs) => {
            assert(all_simple_or(cs));
            assert forall|i: int| 0 <= i < cs.len() implies is_simplified(#[trigger] cs[i]) by {
                assert(simple_or_operand(cs[i]));
            }
            lemma_simpl_fixpoint_seq(cs);
            assert(simpl_seq(cs) =~= cs);
            assert forall|i: int| 0 <= i < cs.len() implies !((#[trigger] cs[i]) is Or) by {
                assert(simple_or_operand(cs[i]));
            }
            lemma_flatten_or_id(cs);
            assert(!cs.contains(SpecFormula::False)) by {
                if cs.contains(SpecFormula::False) {
                    let i = choose|i: int| 0 <= i < cs.len() && cs[i] == SpecFormula::False;
                    assert(simple_or_operand(cs[i]));
                }
            }
            lemma_remove_elem_id(cs, SpecFormula::False);
            assert(!cs.contains(SpecFormula::True)) by {
                if cs.contains(SpecFormula::True) {
                    let i = choose|i: int| 0 <= i < cs.len() && cs[i] == SpecFormula::True;
                    assert(simple_or_operand(cs[i]));
                }
            }
            lemma_dedup_id(cs);
            assert(or_comps(cs) == f);
        },
    }
}

proof fn lemma_simpl_fixpoint_seq(s: Seq<SpecFormula>)
    requires
        forall|i: int| 0 <= i < s.len() ==> is_simplified(#[trigger] s[i]),
    ensures
        forall|i: int| 0 <= i < s.len() ==> #[trigger] simpl_seq(s)[i] == s[i],
    decreases s, 0int,
{
    assert forall|i: int| 0 <= i < s.len() implies #[trigger] simpl_seq(s)[i] == s[i] by {
        lemma_simpl_fixpoint(s[i]);
    }
}

/// Normalization yields a simplified formula.
pub proof fn lemma_simpl_simplified(f: SpecFormula)
    ensures
        is_simplified(spec_simpl(f)),
        is_simplified(spec_simpl_neg(f)),
    decreases f, 1int,
{
    match f {
        SpecFormula::True => {},
        SpecFormula::False => {},
        SpecFormula::Var(_) => {},
        SpecFormula::Neg(v) => {
            lemma_simpl_simplified(*v);
        },
        SpecFormula::And(cs) => {
            lemma_simpl_simplified_seq(cs);
            lemma_and_comps_simplified(simpl_seq(cs));
            lemma_or_comps_simplified(simpl_neg_seq(cs));
        },
        SpecFormula::Or(cs) => {
            lemma_simpl_simplified_seq(cs);
            lemma_or_comps_simplified(simpl_seq(cs));
            lemma_and_comps_simplified(simpl_neg_seq(cs));
        },
    }
}

proof fn lemma_simpl_simplified_seq(s: Seq<SpecFormula>)
    ensures
        forall|i: int| 0 <= i < s.len() ==> is_simplified(#[trigger] simpl_seq(s)[i]),
        forall|i: int| 0 <= i < s.len() ==> is_simplified(#[trigger] simpl_neg_seq(s)[i]),
    decreases s, 0int,
{
    assert forall|i: int| 0 <= i < s.len() implies is_simplified(#[trigger] simpl_seq(s)[i]) by {
        lemma_simpl_simplified(s[i]);
    }
    assert forall|i: int|
        0 <= i < s.len() implies is_simplified(#[trigger] simpl_neg_seq(s)[i]) by {
        lemma_simpl_simplified(s[i]);
    }
}

/// Normalization does not move a variable identifier out of any bound.
pub proof fn lemma_simpl_vars(f: SpecFormula, b: int)
    requires
        vars_in(f, b),
    ensures
        vars_in(spec_simpl(f), b),
        vars_in(spec_simpl_neg(f), b),
    decreases f, 1int,
{
    match f {
        SpecFormula::True => {},
        SpecFormula::False => {},
        SpecFormula::Var(_) => {},
        SpecFormula::Neg(v) => {
            lemma_simpl_vars(*v, b);
        },
        SpecFormula::And(cs) => {
            assert(all_vars_in(cs, b));
            lemma_simpl_vars_seq(cs, b);
            lemma_and_comps_vars(simpl_seq(cs), b);
            lemma_or_comps_vars(simpl_neg_seq(cs), b);
        },
        SpecFormula::Or(cs) => {
            assert(all_vars_in(cs, b));
            lemma_simpl_vars_seq(cs, b);
            lemma_or_comps_vars(simpl_seq(cs), b);
            lemma_and_comps_vars(simpl_neg_seq(cs), b);
        },
    }
}

proof fn lemma_simpl_vars_seq(s: Seq<SpecFormula>, b: int)
    requires
        forall|i: int| 0 <= i < s.len() ==> vars_in(#[trigger] s[i], b),
    ensures
        forall|i: int| 0 <= i < s.len() ==> vars_in(#[trigger] simpl_seq(s)[i], b),
        forall|i: int| 0 <= i < s.len() ==> vars_in(#[trigger] simpl_neg_seq(s)[i], b),
    decreases s, 0int,
{
    assert forall|i: int| 0 <= i < s.len() implies vars_in(#[trigger] simpl_seq(s)[i], b) by {
        lemma_simpl_vars(s[i], b);
    }
    assert forall|i: int| 0 <= i < s.len() implies vars_in(#[trigger] simpl_neg_seq(s)[i], b) by {
        lemma_simpl_vars(s[i], b);
    }
}

/// Normalization keeps the truth value of the formula, under every
/// assignment; the negative form is its exact complement.
pub proof fn lemma_simpl_eval(f: SpecFormula, a: spec_fn(int) -> bool)
    requires
        wf(f),
    ensures
        eval(spec_simpl(f), a) == eval(f, a),
        eval(spec_simpl_neg(f), a) == !eval(f, a),
    decreases f, 1int,
{
    match f {
        SpecFormula::True => {},
        SpecFormula::False => {},
        SpecFormula::Var(x) => {
            assert(x != 0);
        },
        SpecFormula::Neg(v) => {
            lemma_simpl_eval(*v, a);
        },
        SpecFormula::And(cs) => {
            assert(all_vars_in(cs, isize::MAX as int + 1));
            lemma_simpl_eval_seq(cs, a);
            lemma_and_comps_eval(simpl_seq(cs), a);
            lemma_or_comps_eval(simpl_neg_seq(cs), a);
            assert(all_eval(simpl_seq(cs), a) == all_eval(cs, a)) by {
                if all_eval(simpl_seq(cs), a) {
                    assert forall|i: int| 0 <= i < cs.len() implies eval(#[trigger] cs[i], a) by {
                        assert(eval(simpl_seq(cs)[i], a));
                    }
                }
                if all_eval(cs, a) {
                    assert forall|i: int|
                        0 <= i < simpl_seq(cs).len() implies eval(
                        #[trigger] simpl_seq(cs)[i],
                        a,
                    ) by {
                        assert(eval(cs[i], a));
                    }
                }
            }
            assert(any_eval(simpl_neg_seq(cs), a) == !all_eval(cs, a)) by {
                if any_eval(simpl_neg_seq(cs), a) {
                    let i = choose|i: int|
                        0 <= i < simpl_neg_seq(cs).len() && eval(
                            #[trigger] simpl_neg_seq(cs)[i],
                            a,
                        );
                    assert(!eval(cs[i], a));
                }
                if !all_eval(cs, a) {
                    let i = choose|i: int| 0 <= i < cs.len() && !eval(#[trigger] cs[i], a);
                    assert(eval(simpl_neg_seq(cs)[i], a));
                    assert(any_eval(simpl_neg_seq(cs), a));
                }
            }
            assert(eval(f, a) == all_eval(cs, a));
        },
        SpecFormula::Or(cs) => {
            assert(all_vars_in(cs, isize::MAX as int + 1));
            lemma_simpl_eval_seq(cs, a);
            lemma_or_comps_eval(simpl_seq(cs), a);
            lemma_and_comps_eval(simpl_neg_seq(cs), a);
            assert(any_eval(simpl_seq(cs), a) == any_eval(cs, a)) by {
                if any_eval(simpl_seq(cs), a) {
                    let i = choose|i: int|
                        0 <= i < simpl_seq(cs).len() && eval(#[trigger] simpl_seq(cs)[i], a);
                    assert(eval(cs[i], a));
                    assert(any_eval(cs, a));
                }
                if any_eval(cs, a) {
                    let i = choose|i: int| 0 <= i < cs.len() && eval(#[trigger] cs[i], a);
                    assert(eval(simpl_seq(cs)[i], a));
                    assert(any_eval(simpl_seq(cs), a));
                }
            }
            assert(all_eval(simpl_neg_seq(cs), a) == !any_eval(cs, a)) by {
                if all_eval(simpl_neg_seq(cs), a) {
                    if any_eval(cs, a) {
                        let i = choose|i: int| 0 <= i < cs.len() && eval(#[trigger] cs[i], a);
                        assert(eval(simpl_neg_seq(cs)[i], a));
                    }
                }
                if !any_eval(cs, a) {
                    assert forall|i: int|
                        0 <= i < simpl_neg_seq(cs).len() implies eval(
                        #[trigger] simpl_neg_seq(cs)[i],
                        a,
                    ) by {
                        assert(!eval(cs[i], a)) by {
                            if eval(cs[i], a) {
                                assert(any_eval(cs, a));
                            }
                        }
                    }
                }
            }
            assert(eval(f, a) == any_eval(cs, a));
        },
    }
}

proof fn lemma_simpl_eval_seq(s: Seq<SpecFormula>, a: spec_fn(int) -> bool)
    requires
        forall|i: int| 0 <= i < s.len() ==> vars_in(#[trigger] s[i], isize::MAX as int + 1),
    ensures
        forall|i: int| 0 <= i < s.len() ==> eval(#[trigger] simpl_seq(s)[i], a) == eval(s[i], a),
        forall|i: int| 0 <= i < s.len() ==> eval(#[trigger] simpl_neg_seq(s)[i], a) == !eval(
            s[i],
            a,
        ),
    decreases s, 0int,
{
    assert forall|i: int|
        0 <= i < s.len() implies eval(#[trigger] simpl_seq(s)[i], a) == eval(s[i], a) by {
        lemma_simpl_eval(s[i], a);
    }
    assert forall|i: int|
        0 <= i < s.len() implies eval(#[trigger] simpl_neg_seq(s)[i], a) == !eval(s[i], a) by {
        lemma_simpl_eval(s[i], a);
    }
}

proof fn lemma_simplified_nnf(f: SpecFormula)
    requires
        is_simplified(f),
    ensures
        is_nnf(f),
    decreases f, 1int,
{
    match f {
        SpecFormula::And(cs) => {
            assert(all_simple_and(cs));
            assert forall|i: int| 0 <= i < cs.len() implies is_nnf(#[trigger] cs[i]) by {
                assert(simple_and_operand(cs[i]));
                lemma_simplified_nnf(cs[i]);
            }
            assert(all_nnf(cs));
        },
        SpecFormula::Or(cs) => {
            assert(all_simple_or(cs));
            assert forall|i: int| 0 <= i < cs.len() implies is_nnf(#[trigger] cs[i]) by {
                assert(simple_or_operand(cs[i]));
                lemma_simplified_nnf(cs[i]);
            }
            assert(all_nnf(cs));
        },
        _ => {},
    }
}

/// Normalization is idempotent: a second pass changes nothing.
pub proof fn lemma_simpl_idempotent(f: SpecFormula)
    ensures
        spec_simpl(spec_simpl(f)) == spec_simpl(f),
{
    lemma_simpl_simplified(f);
    lemma_simpl_fixpoint(spec_simpl(f));
}

impl Formula {
    /// Simplify and push negation inward (De Morgan): the result is the
    /// negation-normal, flattened, constant-free and duplicate-free form
    /// of the input, and it keeps the input's truth value under every
    /// assignment.
    pub fn simpl_demorgan(a: &Formula) -> (r: Formula)
        requires
            wf(a@),
        ensures
            r@ == spec_simpl(a@),
            is_simplified(r@),
            is_nnf(r@),
            wf(r@),
            forall|asn: spec_fn(int) -> bool| eval(r@, asn) == eval(a@, asn),
    {
        let r = simpl_rec(a);
        proof {
            lemma_simpl_simplified(a@);
            lemma_simplified_nnf(spec_simpl(a@));
            lemma_simpl_vars(a@, isize::MAX as int + 1);
            assert forall|asn: spec_fn(int) -> bool| eval(r@, asn) == eval(a@, asn) by {
                lemma_simpl_eval(a@, asn);
            }
        }
        r
    }
}

/// Truth of the spliced binary conjunction and disjunction the
/// builders `and` and `or` construct.
pub proof fn lemma_binop_eval(x: SpecFormula, y: SpecFormula, a: spec_fn(int) -> bool)
    ensures
        eval(SpecFormula::And(and_operands(x) + and_operands(y)), a) == (eval(x, a) && eval(y, a)),
        eval(SpecFormula::Or(or_operands(x) + or_operands(y)), a) == (eval(x, a) || eval(y, a)),
{
    lemma_eval_concat(and_operands(x), and_operands(y), a);
    lemma_eval_concat(or_operands(x), or_operands(y), a);
    lemma_operands_eval(x, a);
    lemma_operands_eval(y, a);
}

proof fn lemma_operands_eval(x: SpecFormula, a: spec_fn(int) -> bool)
    ensures
        all_eval(and_operands(x), a) == eval(x, a),
        any_eval(or_operands(x), a) == eval(x, a),
{
    match x {
        SpecFormula::And(cs) => {
            assert(or_operands(x) =~= seq![x]);
            lemma_eval_single(x, a);
        },
        SpecFormula::Or(cs) => {
            assert(and_operands(x) =~= seq![x]);
            lemma_eval_single(x, a);
        },
        _ => {
            assert(and_operands(x) =~= seq![x]);
            assert(or_operands(x) =~= seq![x]);
            lemma_eval_single(x, a);
        },
    }
}

/// Variable bounds pass through the spliced binary connectives.
pub proof fn lemma_binop_vars(x: SpecFormula, y: SpecFormula, b: int)
    requires
        vars_in(x, b),
        vars_in(y, b),
    ensures
        vars_in(SpecFormula::And(and_operands(x) + and_operands(y)), b),
        vars_in(SpecFormula::Or(or_operands(x) + or_operands(y)), b),
{
    lemma_operands_vars(x, b);
    lemma_operands_vars(y, b);
    assert forall|i: int|
        0 <= i < (and_operands(x) + and_operands(y)).len() implies vars_in(
        #[trigger] (and_operands(x) + and_operands(y))[i],
        b,
    ) by {
        if i < and_operands(x).len() {
            assert((and_operands(x) + and_operands(y))[i] == and_operands(x)[i]);
        } else {
            assert((and_operands(x) + and_operands(y))[i] == and_operands(y)[i - and_operands(
                x,
            ).len()]);
        }
    }
    assert(all_vars_in(and_operands(x) + and_operands(y), b));
    assert forall|i: int|
        0 <= i < (or_operands(x) + or_operands(y)).len() implies vars_in(
        #[trigger] (or_operands(x) + or_operands(y))[i],
        b,
    ) by {
        if i < or_operands(x).len() {
            assert((or_operands(x) + or_operands(y))[i] == or_operands(x)[i]);
        } else {
            assert((or_operands(x) + or_operands(y))[i] == or_operands(y)[i - or_operands(
                x,
            ).len()]);
        }
    }
    assert(all_vars_in(or_operands(x) + or_operands(y), b));
}

proof fn lemma_operands_vars(x: SpecFormula, b: int)
    requires
        vars_in(x, b),
    ensures
        forall|i: int| 0 <= i < and_operands(x).len() ==> vars_in(#[trigger] and_operands(x)[i], b),
        forall|i: int| 0 <= i < or_operands(x).len() ==> vars_in(#[trigger] or_operands(x)[i], b),
{
    match x {
        SpecFormula::And(cs) => {
            assert(all_vars_in(cs, b));
            assert(or_operands(x) =~= seq![x]);
        },
        SpecFormula::Or(cs) => {
            assert(all_vars_in(cs, b));
            assert(and_operands(x) =~= seq![x]);
        },
        _ => {
            assert(and_operands(x) =~= seq![x]);
            assert(or_operands(x) =~= seq![x]);
        },
    }
}

/// Truth tables of the five builder shapes, under any assignment.
pub proof fn lemma_gate_eval(x: SpecFormula, y: SpecFormula, a: spec_fn(int) -> bool)
    ensures
        eval(spec_not(x), a) == !eval(x, a),
        eval(spec_and2(x, y), a) == (eval(x, a) && eval(y, a)),
        eval(spec_or2(x, y), a) == (eval(x, a) || eval(y, a)),
        eval(spec_xor2(x, y), a) == (eval(x, a) != eval(y, a)),
        eval(spec_iff2(x, y), a) == (eval(x, a) == eval(y, a)),
{
    lemma_binop_eval(x, y, a);
    lemma_binop_eval(x, spec_not(y), a);
    lemma_binop_eval(spec_not(x), y, a);
    lemma_binop_eval(spec_not(x), spec_not(y), a);
    lemma_binop_eval(spec_and2(x, spec_not(y)), spec_and2(spec_not(x), y), a);
    lemma_binop_eval(spec_and2(x, y), spec_and2(spec_not(x), spec_not(y)), a);
}

/// Variable bounds pass through the five builder shapes.
pub proof fn lemma_gate_vars(x: SpecFormula, y: SpecFormula, b: int)
    requires
        vars_in(x, b),
        vars_in(y, b),
    ensures
        vars_in(spec_not(x), b),
        vars_in(spec_and2(x, y), b),
        vars_in(spec_or2(x, y), b),
        vars_in(spec_xor2(x, y), b),
        vars_in(spec_iff2(x, y), b),
{
    lemma_binop_vars(x, y, b);
    lemma_binop_vars(x, spec_not(y), b);
    lemma_binop_vars(spec_not(x), y, b);
    lemma_binop_vars(spec_not(x), spec_not(y), b);
    lemma_binop_vars(spec_and2(x, spec_not(y)), spec_and2(spec_not(x), y), b);
    lemma_binop_vars(spec_and2(x, y), spec_and2(spec_not(x), spec_not(y)), b);
}

/// A total assignment read off a per-variable valuation list: variable
/// `v` is true exactly when entry `v - 1` is set; variables beyond the
/// list are false.
pub open spec fn asn_of(m: Seq<bool>) -> spec_fn(int) -> bool {
    |v: int|
        if 1 <= v <= m.len() {
            m[v - 1]
        } else {
            false
        }
}

impl Formula {
    /// Evaluate the formula under a concrete valuation, one boolean per
    /// propositional variable, variable `v` at entry `v - 1`.
    #[verifier::loop_isolation(false)]
    pub fn eval_under(&self, m: &Vec<bool>) -> (r: bool)
        requires
            wf(self@),
        ensures
            r == eval(self@, asn_of(m@)),
        decreases self,
    {
        match self {
            Formula::True => true,
            Formula::False => false,
            Formula::Var(x) => {
                if *x > 0 {
                    let ui = *x as usize;
                    ui <= m.len() && m[ui - 1]
                } else {
                    proof {
                        assert(vars_in(self@, isize::MAX as int + 1));
                    }
                    let ui = (-*x) as usize;
                    if ui <= m.len() {
                        !m[ui - 1]
                    } else {
                        true
                    }
                }
            },
            Formula::Neg(v) => !(**v).eval_under(m),
            Formula::And(cs) => {
                let mut i: usize = 0;
                while i < cs.len()
                    invariant
                        i <= cs@.len(),
                        forall|j: int| 0 <= j < i ==> eval(#[trigger] view_seq(cs@)[j], asn_of(m@)),
                    decreases cs@.len() - i,
                {
                    proof {
                        assert(wf(view_seq(cs@)[i as int]) && view_seq(cs@)[i as int]
                            == cs@[i as int]@) by {
                            assert(all_vars_in(view_seq(cs@), isize::MAX as int + 1));
                        }
                    }
                    if !cs[i].eval_under(m) {
                        proof {
                            assert(!eval(view_seq(cs@)[i as int], asn_of(m@)));
                            assert(!all_eval(view_seq(cs@), asn_of(m@)));
                        }
                        return false;
                    }
                    i += 1;
                }
                proof {
                    assert(all_eval(view_seq(cs@), asn_of(m@)));
                }
                true
            },
            Formula::Or(cs) => {
                let mut i: usize = 0;
                while i < cs.len()
                    invariant
                        i <= cs@.len(),
                        forall|j: int|
                            0 <= j < i ==> !eval(#[trigger] view_seq(cs@)[j], asn_of(m@)),
                    decreases cs@.len() - i,
                {
                    proof {
                        assert(wf(view_seq(cs@)[i as int]) && view_seq(cs@)[i as int]
                            == cs@[i as int]@) by {
                            assert(all_vars_in(view_seq(cs@), isize::MAX as int + 1));
                        }
                    }
                    if cs[i].eval_under(m) {
                        proof {
                            assert(eval(view_seq(cs@)[i as int], asn_of(m@)));
                            assert(any_eval(view_seq(cs@), asn_of(m@)));
                        }
                        return true;
                    }
                    i += 1;
                }
                proof {
                    assert(!any_eval(view_seq(cs@), asn_of(m@))) by {
                        if any_eval(view_seq(cs@), asn_of(m@)) {
                            let t = choose|t: int|
                                0 <= t < view_seq(cs@).len() && eval(
                                    #[trigger] view_seq(cs@)[t],
                                    asn_of(m@),
                                );
                        }
                    }
                }
                false
            },
        }
    }
}

} // verus!
