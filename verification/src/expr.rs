//! Bit-vector terms and predicates, and the bit-blasting encoder that
//! lowers them to propositional formulas, one formula per bit.
use crate::logic::Formula;
use crate::logic::spec_not;
use crate::logic::spec_and2;
use crate::logic::spec_or2;
use crate::logic::spec_iff2;
use crate::logic::lemma_gate_eval;
use crate::logic::lemma_gate_vars;
use crate::logic::SpecFormula;
use crate::logic::eval;
use crate::logic::vars_in;
use crate::logic::wf;
use crate::solver::Context;
use crate::solver::SmtError;
use vstd::arithmetic::power2::pow2;
use vstd::prelude::*;

verus! {

broadcast use vstd::std_specs::vec::axiom_vec_index_decreases;

/// A bit-vector term. Bit order is little-endian throughout: index 0 is
/// the least-significant bit. A symbolic term carries the propositional
/// variable identifiers allocated for its bits by a `Context`.
#[derive(Debug)]
pub enum BVExpr {
    /// A constant, one boolean per bit.
    Const(Vec<bool>),
    /// A declared symbol: one propositional variable per bit.
    Symb(Vec<isize>),
    /// Concatenation, most-significant operand first.
    Concat(Box<BVExpr>, Box<BVExpr>),
    /// The bits `low..high` of the operand.
    Slice(Box<BVExpr>, usize, usize),
    /// Modular addition of equal-width operands.
    Add(Box<BVExpr>, Box<BVExpr>),
    /// Modular subtraction of equal-width operands.
    Sub(Box<BVExpr>, Box<BVExpr>),
    /// Modular multiplication of equal-width operands.
    Mul(Box<BVExpr>, Box<BVExpr>),
    /// Unsigned remainder of equal-width operands, by restoring
    /// division; a divisor that is the literal zero constant is a
    /// contract violation.
    Rem(Box<BVExpr>, Box<BVExpr>),
    /// Conditional select: the condition picks between two
    /// equal-width branches, bit by bit.
    Ite(Box<Bool>, Box<BVExpr>, Box<BVExpr>),
}

/// A predicate over bit-vector terms.
#[derive(Debug)]
pub enum Bool {
    And(Box<Bool>, Box<Bool>),
    Or(Box<Bool>, Box<Bool>),
    Neg(Box<Bool>),
    /// Equality of equal-width terms.
    BVEq(Box<BVExpr>, Box<BVExpr>),
    /// Unsigned less-than of equal-width terms.
    BVLt(Box<BVExpr>, Box<BVExpr>),
}

/// The bit width of a term.
pub open spec fn bv_width(e: BVExpr) -> int
    decreases e,
{
    match e {
        BVExpr::Const(bits) => bits@.len() as int,
        BVExpr::Symb(ids) => ids@.len() as int,
        BVExpr::Concat(hi, lo) => bv_width(*hi) + bv_width(*lo),
        BVExpr::Slice(_, low, high) => high - low,
        BVExpr::Add(x, _) => bv_width(*x),
        BVExpr::Sub(x, _) => bv_width(*x),
        BVExpr::Mul(x, _) => bv_width(*x),
        BVExpr::Rem(x, _) => bv_width(*x),
        BVExpr::Ite(_, t, _) => bv_width(*t),
    }
}

/// Well-formed term: positive widths, equal widths on arithmetic and
/// selection, slice bounds inside the operand, and positive,
/// machine-safe variable identifiers on symbols.
pub open spec fn bv_wf(e: BVExpr) -> bool
    decreases e,
{
    match e {
        BVExpr::Const(bits) => bits@.len() >= 1,
        BVExpr::Symb(ids) => ids@.len() >= 1 && forall|i: int|
            0 <= i < ids@.len() ==> 0 < #[trigger] ids@[i],
        BVExpr::Concat(hi, lo) => bv_wf(*hi) && bv_wf(*lo),
        BVExpr::Slice(x, low, high) => bv_wf(*x) && low <= high <= bv_width(*x) && low < high,
        BVExpr::Add(x, y) => bv_wf(*x) && bv_wf(*y) && bv_width(*x) == bv_width(*y),
        BVExpr::Sub(x, y) => bv_wf(*x) && bv_wf(*y) && bv_width(*x) == bv_width(*y),
        BVExpr::Mul(x, y) => bv_wf(*x) && bv_wf(*y) && bv_width(*x) == bv_width(*y),
        BVExpr::Rem(x, y) => bv_wf(*x) && bv_wf(*y) && bv_width(*x) == bv_width(*y)
            && !is_zero_const(*y),
        BVExpr::Ite(c, t, f) => bool_wf(*c) && bv_wf(*t) && bv_wf(*f) && bv_width(*t) == bv_width(
            *f,
        ),
    }
}

/// The literal zero constant, at any width.
pub open spec fn is_zero_const(e: BVExpr) -> bool {
    match e {
        BVExpr::Const(bits) => forall|i: int| 0 <= i < bits@.len() ==> !(#[trigger] bits@[i]),
        _ => false,
    }
}

/// Well-formed predicate.
pub open spec fn bool_wf(b: Bool) -> bool
    decreases b,
{
    match b {
        Bool::And(p, q) => bool_wf(*p) && bool_wf(*q),
        Bool::Or(p, q) => bool_wf(*p) && bool_wf(*q),
        Bool::Neg(p) => bool_wf(*p),
        Bool::BVEq(x, y) => bv_wf(*x) && bv_wf(*y) && bv_width(*x) == bv_width(*y),
        Bool::BVLt(x, y) => bv_wf(*x) && bv_wf(*y) && bv_width(*x) == bv_width(*y),
    }
}

/// All symbol variable identifiers lie strictly below `b`.
pub open spec fn bv_vars_in(e: BVExpr, b: int) -> bool
    decreases e,
{
    match e {
        BVExpr::Const(_) => true,
        BVExpr::Symb(ids) => forall|i: int| 0 <= i < ids@.len() ==> #[trigger] ids@[i] < b,
        BVExpr::Concat(hi, lo) => bv_vars_in(*hi, b) && bv_vars_in(*lo, b),
        BVExpr::Slice(x, _, _) => bv_vars_in(*x, b),
        BVExpr::Add(x, y) => bv_vars_in(*x, b) && bv_vars_in(*y, b),
        BVExpr::Sub(x, y) => bv_vars_in(*x, b) && bv_vars_in(*y, b),
        BVExpr::Mul(x, y) => bv_vars_in(*x, b) && bv_vars_in(*y, b),
        BVExpr::Rem(x, y) => bv_vars_in(*x, b) && bv_vars_in(*y, b),
        BVExpr::Ite(c, t, f) => bool_vars_in(*c, b) && bv_vars_in(*t, b) && bv_vars_in(*f, b),
    }
}

pub open spec fn bool_vars_in(p: Bool, b: int) -> bool
    decreases p,
{
    match p {
        Bool::And(x, y) => bool_vars_in(*x, b) && bool_vars_in(*y, b),
        Bool::Or(x, y) => bool_vars_in(*x, b) && bool_vars_in(*y, b),
        Bool::Neg(x) => bool_vars_in(*x, b),
        Bool::BVEq(x, y) => bv_vars_in(*x, b) && bv_vars_in(*y, b),
        Bool::BVLt(x, y) => bv_vars_in(*x, b) && bv_vars_in(*y, b),
    }
}

// ---------------------------------------------------------------------
// Reference bit-level semantics
// ---------------------------------------------------------------------

/// The number a little-endian bit sequence stands for.
pub open spec fn bits_value(s: Seq<bool>) -> nat
    decreases s,
{
    if s.len() == 0 {
        0
    } else {
        (if s[0] {
            1nat
        } else {
            0nat
        }) + 2 * bits_value(s.drop_first())
    }
}

pub open spec fn maj(a: bool, b: bool, c: bool) -> bool {
    (a && b) || (a && c) || (b && c)
}

/// The carry into bit `i` of a ripple-carry addition.
pub open spec fn carry_at(x: Seq<bool>, y: Seq<bool>, i: nat) -> bool
    decreases i,
{
    if i == 0 {
        false
    } else {
        maj(x[i - 1], y[i - 1], carry_at(x, y, (i - 1) as nat))
    }
}

pub open spec fn xor3(a: bool, b: bool, c: bool) -> bool {
    (a != b) != c
}

/// Ripple-carry sum of equal-length bit sequences; the final carry is
/// discarded, giving wraparound semantics.
pub open spec fn add_bits(x: Seq<bool>, y: Seq<bool>) -> Seq<bool> {
    Seq::new(x.len(), |i: int| xor3(x[i], y[i], carry_at(x, y, i as nat)))
}

pub open spec fn not_bits(y: Seq<bool>) -> Seq<bool> {
    Seq::new(y.len(), |i: int| !y[i])
}

/// The constant one at a given width.
pub open spec fn one_bits(n: nat) -> Seq<bool> {
    Seq::new(n, |i: int| i == 0)
}

/// Two's-complement subtraction: add the complement plus one.
pub open spec fn sub_bits(x: Seq<bool>, y: Seq<bool>) -> Seq<bool> {
    add_bits(x, add_bits(not_bits(y), one_bits(y.len())))
}

/// The all-zero bit vector.
pub open spec fn zero_bits(n: nat) -> Seq<bool> {
    Seq::new(n, |i: int| false)
}

/// Left shift by `s` positions, truncated to the input width.
pub open spec fn shl_bits(x: Seq<bool>, s: nat) -> Seq<bool> {
    Seq::new(x.len(), |i: int| i >= s && x[i - s])
}

/// Shift-and-add partial product: the accumulator after the low `k`
/// multiplier bits have been folded in.
pub open spec fn mul_acc(x: Seq<bool>, y: Seq<bool>, k: nat) -> Seq<bool>
    decreases k,
{
    if k == 0 {
        zero_bits(x.len())
    } else {
        let prev = mul_acc(x, y, (k - 1) as nat);
        if y[k - 1] {
            add_bits(prev, shl_bits(x, (k - 1) as nat))
        } else {
            prev
        }
    }
}

/// Shift-and-add multiplication, truncated to the operand width.
pub open spec fn mul_bits(x: Seq<bool>, y: Seq<bool>) -> Seq<bool> {
    mul_acc(x, y, y.len())
}

/// Restoring division: the remainder register, one bit wider than the
/// operands, after the top `k` dividend bits have been brought down.
/// Each step shifts the next dividend bit in and subtracts the divisor
/// back out when it fits.
pub open spec fn div_acc(x: Seq<bool>, y: Seq<bool>, k: nat) -> Seq<bool>
    decreases k,
{
    if k == 0 {
        zero_bits(x.len() + 1)
    } else {
        let prev = div_acc(x, y, (k - 1) as nat);
        let brought = seq![x[x.len() - k]] + prev.take(x.len() as int);
        if bits_value(brought) >= bits_value(y.push(false)) {
            sub_bits(brought, y.push(false))
        } else {
            brought
        }
    }
}

/// The unsigned remainder as bits: the low bits of the remainder
/// register once every dividend bit has been processed. A divisor that
/// evaluates to zero never fits, so nothing is ever subtracted and the
/// remainder is the dividend itself.
pub open spec fn rem_bits(x: Seq<bool>, y: Seq<bool>) -> Seq<bool> {
    div_acc(x, y, x.len()).take(x.len() as int)
}

/// The bits a term denotes once every propositional variable is fixed.
pub open spec fn bv_sem(e: BVExpr, a: spec_fn(int) -> bool) -> Seq<bool>
    decreases e,
{
    match e {
        BVExpr::Const(bits) => bits@,
        BVExpr::Symb(ids) => Seq::new(ids@.len(), |i: int| a(ids@[i] as int)),
        BVExpr::Concat(hi, lo) => bv_sem(*lo, a) + bv_sem(*hi, a),
        BVExpr::Slice(x, low, high) => bv_sem(*x, a).subrange(low as int, high as int),
        BVExpr::Add(x, y) => add_bits(bv_sem(*x, a), bv_sem(*y, a)),
        BVExpr::Sub(x, y) => sub_bits(bv_sem(*x, a), bv_sem(*y, a)),
        BVExpr::Mul(x, y) => mul_bits(bv_sem(*x, a), bv_sem(*y, a)),
        BVExpr::Rem(x, y) => rem_bits(bv_sem(*x, a), bv_sem(*y, a)),
        BVExpr::Ite(c, t, f) => if bool_sem(*c, a) {
            bv_sem(*t, a)
        } else {
            bv_sem(*f, a)
        },
    }
}

/// The truth value a predicate denotes once every propositional
/// variable is fixed. Less-than is unsigned comparison of the numbers
/// the operands stand for.
pub open spec fn bool_sem(p: Bool, a: spec_fn(int) -> bool) -> bool
    decreases p,
{
    match p {
        Bool::And(x, y) => bool_sem(*x, a) && bool_sem(*y, a),
        Bool::Or(x, y) => bool_sem(*x, a) || bool_sem(*y, a),
        Bool::Neg(x) => !bool_sem(*x, a),
        Bool::BVEq(x, y) => bv_sem(*x, a) == bv_sem(*y, a),
        Bool::BVLt(x, y) => bits_value(bv_sem(*x, a)) < bits_value(bv_sem(*y, a)),
    }
}

/// The truth values of a sequence of formulas under one assignment.
pub open spec fn formulas_sem(bits: Seq<Formula>, a: spec_fn(int) -> bool) -> Seq<bool> {
    Seq::new(bits.len(), |i: int| eval(bits[i]@, a))
}

// ---------------------------------------------------------------------
// Arithmetic facts about bit sequences
// ---------------------------------------------------------------------

/// A bit sequence of length `n` stands for a number below `2^n`.
pub proof fn lemma_bits_value_bound(s: Seq<bool>)
    ensures
        bits_value(s) < pow2(s.len()),
    decreases s,
{
    vstd::arithmetic::power2::lemma2_to64();
    if s.len() == 0 {
    } else {
        lemma_bits_value_bound(s.drop_first());
        vstd::arithmetic::power2::lemma_pow2_adds(1, (s.len() - 1) as nat);
        assert(pow2(s.len()) == 2 * pow2((s.len() - 1) as nat));
    }
}

/// Appending a most-significant bit adds its weight.
pub proof fn lemma_bits_value_snoc(s: Seq<bool>, b: bool)
    ensures
        bits_value(s.push(b)) == bits_value(s) + (if b {
            pow2(s.len())
        } else {
            0nat
        }),
    decreases s,
{
    vstd::arithmetic::power2::lemma2_to64();
    if s.len() == 0 {
        assert(s.push(b).drop_first() =~= Seq::<bool>::empty());
        assert(s.push(b)[0] == b);
        assert(bits_value(s.push(b)) == (if b {
            1nat
        } else {
            0nat
        }) + 2 * bits_value(s.push(b).drop_first()));
        assert(pow2(0) == 1);
    } else {
        assert(s.push(b).drop_first() =~= s.drop_first().push(b));
        lemma_bits_value_snoc(s.drop_first(), b);
        vstd::arithmetic::power2::lemma_pow2_adds(1, (s.len() - 1) as nat);
        assert(pow2(s.len()) == 2 * pow2((s.len() - 1) as nat));
        assert(s.push(b)[0] == s[0]);
        assert(bits_value(s.push(b)) == (if s[0] {
            1nat
        } else {
            0nat
        }) + 2 * bits_value(s.push(b).drop_first()));
        assert(bits_value(s) == (if s[0] {
            1nat
        } else {
            0nat
        }) + 2 * bits_value(s.drop_first()));
        assert(s.drop_first().len() == s.len() - 1);
    }
}

proof fn lemma_add_bits_prefix(x: Seq<bool>, y: Seq<bool>, i: int)
    requires
        x.len() == y.len(),
        0 <= i <= x.len(),
    ensures
        bits_value(add_bits(x, y).take(i)) + (if carry_at(x, y, i as nat) {
            pow2(i as nat)
        } else {
            0nat
        }) == bits_value(x.take(i)) + bits_value(y.take(i)),
    decreases i,
{
    vstd::arithmetic::power2::lemma2_to64();
    if i == 0 {
        assert(add_bits(x, y).take(0) =~= Seq::<bool>::empty());
        assert(x.take(0) =~= Seq::<bool>::empty());
        assert(y.take(0) =~= Seq::<bool>::empty());
    } else {
        lemma_add_bits_prefix(x, y, i - 1);
        assert(add_bits(x, y).take(i) =~= add_bits(x, y).take(i - 1).push(add_bits(x, y)[i - 1]));
        assert(x.take(i) =~= x.take(i - 1).push(x[i - 1]));
        assert(y.take(i) =~= y.take(i - 1).push(y[i - 1]));
        lemma_bits_value_snoc(add_bits(x, y).take(i - 1), add_bits(x, y)[i - 1]);
        lemma_bits_value_snoc(x.take(i - 1), x[i - 1]);
        lemma_bits_value_snoc(y.take(i - 1), y[i - 1]);
        assert(add_bits(x, y).take(i - 1).len() == i - 1);
        assert(x.take(i - 1).len() == i - 1);
        assert(y.take(i - 1).len() == i - 1);
        vstd::arithmetic::power2::lemma_pow2_adds(1, (i - 1) as nat);
        assert(pow2(i as nat) == 2 * pow2((i - 1) as nat));
        assert(add_bits(x, y)[i - 1] == xor3(x[i - 1], y[i - 1], carry_at(x, y, (i - 1) as nat)));
        assert(carry_at(x, y, i as nat) == maj(x[i - 1], y[i - 1], carry_at(x, y, (i - 1) as nat)));
    }
}

/// Ripple-carry addition computes the sum modulo `2^width`.
pub proof fn lemma_add_bits_value(x: Seq<bool>, y: Seq<bool>)
    requires
        x.len() == y.len(),
    ensures
        bits_value(add_bits(x, y)) as int == ((bits_value(x) + bits_value(y)) as int) % (pow2(x.len()) as int),
{
    lemma_add_bits_prefix(x, y, x.len() as int);
    assert(add_bits(x, y).take(x.len() as int) =~= add_bits(x, y));
    assert(x.take(x.len() as int) =~= x);
    assert(y.take(y.len() as int) =~= y);
    lemma_bits_value_bound(add_bits(x, y));
    vstd::arithmetic::power2::lemma_pow2_pos(x.len());
    let m = pow2(x.len()) as int;
    let v = bits_value(add_bits(x, y)) as int;
    if carry_at(x, y, x.len()) {
        assert(v + m == bits_value(x) + bits_value(y));
        vstd::arithmetic::div_mod::lemma_mod_multiples_vanish(1, v, m);
        vstd::arithmetic::div_mod::lemma_small_mod(bits_value(add_bits(x, y)), pow2(x.len()));
    } else {
        assert(v == bits_value(x) + bits_value(y));
        vstd::arithmetic::div_mod::lemma_small_mod(bits_value(add_bits(x, y)), pow2(x.len()));
    }
}

/// One comparison step, most-significant bit first: a strictly larger
/// top bit decides, an equal top bit defers to the bits below.
proof fn lemma_ult_step(x: Seq<bool>, y: Seq<bool>, i: int)
    requires
        0 <= i < x.len(),
        i < y.len(),
    ensures
        (bits_value(x.take(i + 1)) < bits_value(y.take(i + 1))) == ((!x[i] && y[i]) || ((x[i]
            == y[i]) && bits_value(x.take(i)) < bits_value(y.take(i)))),
{
    assert(x.take(i + 1) =~= x.take(i).push(x[i]));
    assert(y.take(i + 1) =~= y.take(i).push(y[i]));
    lemma_bits_value_snoc(x.take(i), x[i]);
    lemma_bits_value_snoc(y.take(i), y[i]);
    lemma_bits_value_bound(x.take(i));
    lemma_bits_value_bound(y.take(i));
    assert(x.take(i).len() == i);
    assert(y.take(i).len() == i);
    vstd::arithmetic::power2::lemma_pow2_pos(i as nat);
}

/// Every term and predicate keeps its identifiers below the largest
/// machine value plus one.
proof fn lemma_bv_vars_max(e: BVExpr)
    ensures
        bv_vars_in(e, isize::MAX as int + 1),
    decreases e,
{
    match e {
        BVExpr::Const(_) => {},
        BVExpr::Symb(ids) => {},
        BVExpr::Concat(hi, lo) => {
            lemma_bv_vars_max(*hi);
            lemma_bv_vars_max(*lo);
        },
        BVExpr::Slice(x, _, _) => {
            lemma_bv_vars_max(*x);
        },
        BVExpr::Add(x, y) => {
            lemma_bv_vars_max(*x);
            lemma_bv_vars_max(*y);
        },
        BVExpr::Sub(x, y) => {
            lemma_bv_vars_max(*x);
            lemma_bv_vars_max(*y);
        },
        BVExpr::Mul(x, y) => {
            lemma_bv_vars_max(*x);
            lemma_bv_vars_max(*y);
        },
        BVExpr::Rem(x, y) => {
            lemma_bv_vars_max(*x);
            lemma_bv_vars_max(*y);
        },
        BVExpr::Ite(c, t, f) => {
            lemma_bool_vars_max(*c);
            lemma_bv_vars_max(*t);
            lemma_bv_vars_max(*f);
        },
    }
}

pub proof fn lemma_bool_vars_max(p: Bool)
    ensures
        bool_vars_in(p, isize::MAX as int + 1),
    decreases p,
{
    match p {
        Bool::And(x, y) => {
            lemma_bool_vars_max(*x);
            lemma_bool_vars_max(*y);
        },
        Bool::Or(x, y) => {
            lemma_bool_vars_max(*x);
            lemma_bool_vars_max(*y);
        },
        Bool::Neg(x) => {
            lemma_bool_vars_max(*x);
        },
        Bool::BVEq(x, y) => {
            lemma_bv_vars_max(*x);
            lemma_bv_vars_max(*y);
        },
        Bool::BVLt(x, y) => {
            lemma_bv_vars_max(*x);
            lemma_bv_vars_max(*y);
        },
    }
}

// ---------------------------------------------------------------------
// The encoder
// ---------------------------------------------------------------------

/// Variable bounds of every formula in a list.
pub open spec fn formulas_vars_in(s: Seq<Formula>, b: int) -> bool {
    forall|i: int| 0 <= i < s.len() ==> vars_in(#[trigger] s[i]@, b)
}

fn const_formula(b: bool) -> (r: Formula)
    ensures
        r@ == (if b {
            SpecFormula::True
        } else {
            SpecFormula::False
        }),
{
    if b {
        Formula::True
    } else {
        Formula::False
    }
}

/// Ripple-carry adder over two equal-length formula lists: bit `i` is
/// the exclusive-or of the operand bits and the incoming carry, the
/// carry out of a bit is the majority of the same three, and the final
/// carry is discarded.
#[verifier::loop_isolation(false)]
fn add_formulas(xs: &Vec<Formula>, ys: &Vec<Formula>) -> (r: Vec<Formula>)
    requires
        xs@.len() == ys@.len(),
    ensures
        r@.len() == xs@.len(),
        forall|a: spec_fn(int) -> bool| #[trigger] formulas_sem(r@, a) == add_bits(
            formulas_sem(xs@, a),
            formulas_sem(ys@, a),
        ),
        forall|b: int|
            (formulas_vars_in(xs@, b) && formulas_vars_in(ys@, b)) ==> #[trigger] formulas_vars_in(
                r@,
                b,
            ),
{
    let mut out: Vec<Formula> = Vec::new();
    let mut carry = Formula::False;
    let mut i: usize = 0;
    while i < xs.len()
        invariant
            i <= xs@.len(),
            out@.len() == i,
            forall|a: spec_fn(int) -> bool, j: int|
                0 <= j < i ==> #[trigger] eval(out@[j]@, a) == xor3(
                    eval(xs@[j]@, a),
                    eval(ys@[j]@, a),
                    carry_at(formulas_sem(xs@, a), formulas_sem(ys@, a), j as nat),
                ),
            forall|a: spec_fn(int) -> bool| #[trigger] eval(carry@, a) == carry_at(
                formulas_sem(xs@, a),
                formulas_sem(ys@, a),
                i as nat,
            ),
            forall|b: int|
                (formulas_vars_in(xs@, b) && formulas_vars_in(ys@, b)) ==> (#[trigger] vars_in(
                    carry@,
                    b,
                ) && formulas_vars_in(out@, b)),
        decreases xs@.len() - i,
    {
        let s1 = Formula::xor(&xs[i], &ys[i]);
        let sum = Formula::xor(&s1, &carry);
        let m1 = Formula::and(&xs[i], &ys[i]);
        let m2 = Formula::and(&xs[i], &carry);
        let m3 = Formula::and(&ys[i], &carry);
        let ncarry = Formula::or(&Formula::or(&m1, &m2), &m3);
        let ghost opre = out@;
        let ghost cpre = carry@;
        out.push(sum);
        proof {
            assert forall|a: spec_fn(int) -> bool, j: int|
                0 <= j < i + 1 implies #[trigger] eval(out@[j]@, a) == xor3(
                eval(xs@[j]@, a),
                eval(ys@[j]@, a),
                carry_at(formulas_sem(xs@, a), formulas_sem(ys@, a), j as nat),
            ) by {
                if j < i {
                    assert(eval(opre[j]@, a) == xor3(
                        eval(xs@[j]@, a),
                        eval(ys@[j]@, a),
                        carry_at(formulas_sem(xs@, a), formulas_sem(ys@, a), j as nat),
                    ));
                } else {
                    lemma_gate_eval(xs@[i as int]@, ys@[i as int]@, a);
                    lemma_gate_eval(s1@, cpre, a);
                    assert(eval(cpre, a) == carry_at(
                        formulas_sem(xs@, a),
                        formulas_sem(ys@, a),
                        i as nat,
                    ));
                }
            }
            assert forall|a: spec_fn(int) -> bool| #[trigger] eval(ncarry@, a) == carry_at(
                formulas_sem(xs@, a),
                formulas_sem(ys@, a),
                (i + 1) as nat,
            ) by {
                lemma_gate_eval(xs@[i as int]@, ys@[i as int]@, a);
                lemma_gate_eval(xs@[i as int]@, cpre, a);
                lemma_gate_eval(ys@[i as int]@, cpre, a);
                lemma_gate_eval(m1@, m2@, a);
                lemma_gate_eval(spec_or2(m1@, m2@), m3@, a);
                assert(formulas_sem(xs@, a)[i as int] == eval(xs@[i as int]@, a));
                assert(formulas_sem(ys@, a)[i as int] == eval(ys@[i as int]@, a));
                assert(carry_at(formulas_sem(xs@, a), formulas_sem(ys@, a), (i + 1) as nat) == maj(
                    formulas_sem(xs@, a)[i as int],
                    formulas_sem(ys@, a)[i as int],
                    carry_at(formulas_sem(xs@, a), formulas_sem(ys@, a), i as nat),
                ));
            }
            assert forall|b: int|
                (formulas_vars_in(xs@, b) && formulas_vars_in(ys@, b)) implies (#[trigger] vars_in(
                ncarry@,
                b,
            ) && formulas_vars_in(out@, b)) by {
                assert(vars_in(xs@[i as int]@, b));
                assert(vars_in(ys@[i as int]@, b));
                assert(vars_in(cpre, b));
                lemma_gate_vars(xs@[i as int]@, ys@[i as int]@, b);
                lemma_gate_vars(s1@, cpre, b);
                lemma_gate_vars(xs@[i as int]@, cpre, b);
                lemma_gate_vars(ys@[i as int]@, cpre, b);
                lemma_gate_vars(m1@, m2@, b);
                lemma_gate_vars(spec_or2(m1@, m2@), m3@, b);
                assert(formulas_vars_in(opre, b));
                assert forall|t: int| 0 <= t < out@.len() implies vars_in(#[trigger] out@[t]@, b)
                    by {
                    if t < i {
                        assert(vars_in(opre[t]@, b));
                    }
                }
            }
        }
        carry = ncarry;
        i += 1;
    }
    proof {
        assert forall|a: spec_fn(int) -> bool| #[trigger] formulas_sem(out@, a) == add_bits(
            formulas_sem(xs@, a),
            formulas_sem(ys@, a),
        ) by {
            assert(formulas_sem(out@, a) =~= add_bits(formulas_sem(xs@, a), formulas_sem(ys@, a)));
        }
        assert forall|b: int|
            (formulas_vars_in(xs@, b) && formulas_vars_in(ys@, b))
                implies #[trigger] formulas_vars_in(out@, b) by {
            assert(vars_in(carry@, b) && formulas_vars_in(out@, b));
        }
    }
    out
}

fn dup_formulas(xs: &Vec<Formula>) -> (r: Vec<Formula>)
    ensures
        r@.len() == xs@.len(),
        forall|i: int| 0 <= i < xs@.len() ==> #[trigger] r@[i]@ == xs@[i]@,
{
    let mut r: Vec<Formula> = Vec::new();
    let mut i: usize = 0;
    while i < xs.len()
        invariant
            i <= xs@.len(),
            r@.len() == i,
            forall|j: int| 0 <= j < i ==> #[trigger] r@[j]@ == xs@[j]@,
        decreases xs@.len() - i,
    {
        r.push(xs[i].dup());
        i += 1;
    }
    r
}

/// Two's-complement subtraction over formula lists: invert the
/// subtrahend, add one, and add.
#[verifier::loop_isolation(false)]
fn sub_formulas(xs: &Vec<Formula>, ys: &Vec<Formula>) -> (r: Vec<Formula>)
    requires
        xs@.len() == ys@.len(),
    ensures
        r@.len() == xs@.len(),
        forall|a: spec_fn(int) -> bool| #[trigger] formulas_sem(r@, a) == sub_bits(
            formulas_sem(xs@, a),
            formulas_sem(ys@, a),
        ),
        forall|b: int|
            (formulas_vars_in(xs@, b) && formulas_vars_in(ys@, b)) ==> #[trigger] formulas_vars_in(
                r@,
                b,
            ),
{
    let mut ny: Vec<Formula> = Vec::new();
    let mut i: usize = 0;
    while i < ys.len()
        invariant
            i <= ys@.len(),
            ny@.len() == i,
            forall|j: int| 0 <= j < i ==> #[trigger] ny@[j]@ == spec_not(ys@[j]@),
        decreases ys@.len() - i,
    {
        ny.push(Formula::not(&ys[i]));
        i += 1;
    }
    let mut one: Vec<Formula> = Vec::new();
    let mut k: usize = 0;
    while k < ys.len()
        invariant
            k <= ys@.len(),
            one@.len() == k,
            forall|j: int|
                0 <= j < k ==> #[trigger] one@[j]@ == (if j == 0 {
                    SpecFormula::True
                } else {
                    SpecFormula::False
                }),
        decreases ys@.len() - k,
    {
        if k == 0 {
            one.push(Formula::True);
        } else {
            one.push(Formula::False);
        }
        k += 1;
    }
    proof {
        assert forall|a: spec_fn(int) -> bool| #[trigger] formulas_sem(ny@, a) == not_bits(
            formulas_sem(ys@, a),
        ) by {
            assert forall|j: int|
                0 <= j < ny@.len() implies formulas_sem(ny@, a)[j] == !formulas_sem(ys@, a)[j]
                by {
                assert(ny@[j]@ == spec_not(ys@[j]@));
            }
            assert(formulas_sem(ny@, a) =~= not_bits(formulas_sem(ys@, a)));
        }
        assert forall|a: spec_fn(int) -> bool| #[trigger] formulas_sem(one@, a) == one_bits(
            ys@.len(),
        ) by {
            assert forall|j: int|
                0 <= j < one@.len() implies formulas_sem(one@, a)[j] == one_bits(ys@.len())[j]
                by {
                assert(one@[j]@ == (if j == 0 {
                    SpecFormula::True
                } else {
                    SpecFormula::False
                }));
            }
            assert(formulas_sem(one@, a) =~= one_bits(ys@.len()));
        }
        assert forall|b: int| formulas_vars_in(ys@, b) implies #[trigger] formulas_vars_in(
            ny@,
            b,
        ) by {
            assert forall|j: int| 0 <= j < ny@.len() implies vars_in(#[trigger] ny@[j]@, b) by {
                assert(vars_in(ys@[j]@, b));
            }
        }
        assert forall|b: int| #[trigger] formulas_vars_in(one@, b) by {
            assert forall|j: int| 0 <= j < one@.len() implies vars_in(#[trigger] one@[j]@, b) by {}
        }
    }
    let step = add_formulas(&ny, &one);
    let out = add_formulas(xs, &step);
    proof {
        assert forall|a: spec_fn(int) -> bool| #[trigger] formulas_sem(out@, a) == sub_bits(
            formulas_sem(xs@, a),
            formulas_sem(ys@, a),
        ) by {
            assert(formulas_sem(step@, a) == add_bits(
                not_bits(formulas_sem(ys@, a)),
                one_bits(ys@.len()),
            ));
            assert(formulas_sem(ys@, a).len() == ys@.len());
        }
    }
    out
}

/// Unsigned less-than over formula lists, folded from the
/// most-significant bit down: the first unequal bit pair decides.
#[verifier::loop_isolation(false)]
fn lt_formulas(xs: &Vec<Formula>, ys: &Vec<Formula>) -> (r: Formula)
    requires
        xs@.len() == ys@.len(),
    ensures
        forall|a: spec_fn(int) -> bool| #[trigger] eval(r@, a) == (bits_value(
            formulas_sem(xs@, a),
        ) < bits_value(formulas_sem(ys@, a))),
        forall|b: int|
            (formulas_vars_in(xs@, b) && formulas_vars_in(ys@, b)) ==> #[trigger] vars_in(r@, b),
{
    let mut acc = Formula::False;
    let mut i: usize = 0;
    while i < xs.len()
        invariant
            i <= xs@.len(),
            xs@.len() == ys@.len(),
            forall|a: spec_fn(int) -> bool| #[trigger] eval(acc@, a) == (bits_value(
                formulas_sem(xs@, a).take(i as int),
            ) < bits_value(formulas_sem(ys@, a).take(i as int))),
            forall|b: int|
                (formulas_vars_in(xs@, b) && formulas_vars_in(ys@, b)) ==> #[trigger] vars_in(
                    acc@,
                    b,
                ),
        decreases xs@.len() - i,
    {
        let ghost apre = acc@;
        let strict = Formula::and(&Formula::not(&xs[i]), &ys[i]);
        let same = Formula::iff(&xs[i], &ys[i]);
        acc = Formula::or(&strict, &Formula::and(&same, &acc));
        proof {
            assert forall|a: spec_fn(int) -> bool| #[trigger] eval(acc@, a) == (bits_value(
                formulas_sem(xs@, a).take(i + 1),
            ) < bits_value(formulas_sem(ys@, a).take(i + 1))) by {
                lemma_gate_eval(spec_not(xs@[i as int]@), ys@[i as int]@, a);
                lemma_gate_eval(xs@[i as int]@, ys@[i as int]@, a);
                lemma_gate_eval(spec_iff2(xs@[i as int]@, ys@[i as int]@), apre, a);
                lemma_gate_eval(
                    spec_and2(spec_not(xs@[i as int]@), ys@[i as int]@),
                    spec_and2(spec_iff2(xs@[i as int]@, ys@[i as int]@), apre),
                    a,
                );
                lemma_ult_step(formulas_sem(xs@, a), formulas_sem(ys@, a), i as int);
                assert(formulas_sem(xs@, a)[i as int] == eval(xs@[i as int]@, a));
                assert(formulas_sem(ys@, a)[i as int] == eval(ys@[i as int]@, a));
            }
            assert forall|b: int|
                (formulas_vars_in(xs@, b) && formulas_vars_in(ys@, b)) implies #[trigger] vars_in(
                acc@,
                b,
            ) by {
                assert(vars_in(xs@[i as int]@, b));
                assert(vars_in(ys@[i as int]@, b));
                lemma_gate_vars(xs@[i as int]@, ys@[i as int]@, b);
                lemma_gate_vars(spec_not(xs@[i as int]@), ys@[i as int]@, b);
                lemma_gate_vars(spec_iff2(xs@[i as int]@, ys@[i as int]@), apre, b);
                lemma_gate_vars(
                    spec_and2(spec_not(xs@[i as int]@), ys@[i as int]@),
                    spec_and2(spec_iff2(xs@[i as int]@, ys@[i as int]@), apre),
                    b,
                );
            }
        }
        i += 1;
    }
    proof {
        assert forall|a: spec_fn(int) -> bool| #[trigger] eval(acc@, a) == (bits_value(
            formulas_sem(xs@, a),
        ) < bits_value(formulas_sem(ys@, a))) by {
            assert(formulas_sem(xs@, a).take(xs@.len() as int) =~= formulas_sem(xs@, a));
            assert(formulas_sem(ys@, a).take(ys@.len() as int) =~= formulas_sem(ys@, a));
        }
    }
    acc
}

/// Per-bit multiplexer: the condition picks, bit by bit, between two
/// equal-length branches.
#[verifier::loop_isolation(false)]
fn mux_formulas(c: &Formula, ts: &Vec<Formula>, fs: &Vec<Formula>) -> (r: Vec<Formula>)
    requires
        ts@.len() == fs@.len(),
    ensures
        r@.len() == ts@.len(),
        forall|a: spec_fn(int) -> bool| #[trigger] formulas_sem(r@, a) == (if eval(c@, a) {
            formulas_sem(ts@, a)
        } else {
            formulas_sem(fs@, a)
        }),
        forall|b: int|
            (vars_in(c@, b) && formulas_vars_in(ts@, b) && formulas_vars_in(fs@, b))
                ==> #[trigger] formulas_vars_in(r@, b),
{
    let mut out: Vec<Formula> = Vec::new();
    let mut i: usize = 0;
    while i < ts.len()
        invariant
            i <= ts@.len(),
            ts@.len() == fs@.len(),
            out@.len() == i,
            forall|j: int|
                0 <= j < i ==> #[trigger] out@[j]@ == spec_or2(
                    spec_and2(c@, ts@[j]@),
                    spec_and2(spec_not(c@), fs@[j]@),
                ),
        decreases ts@.len() - i,
    {
        let hi = Formula::and(c, &ts[i]);
        let lo = Formula::and(&Formula::not(c), &fs[i]);
        out.push(Formula::or(&hi, &lo));
        i += 1;
    }
    proof {
        assert forall|a: spec_fn(int) -> bool| #[trigger] formulas_sem(out@, a) == (if eval(
            c@,
            a,
        ) {
            formulas_sem(ts@, a)
        } else {
            formulas_sem(fs@, a)
        }) by {
            assert forall|j: int|
                0 <= j < out@.len() implies eval(out@[j]@, a) == (if eval(c@, a) {
                formulas_sem(ts@, a)[j]
            } else {
                formulas_sem(fs@, a)[j]
            }) by {
                lemma_gate_eval(c@, ts@[j]@, a);
                lemma_gate_eval(spec_not(c@), fs@[j]@, a);
                lemma_gate_eval(spec_and2(c@, ts@[j]@), spec_and2(spec_not(c@), fs@[j]@), a);
            }
            if eval(c@, a) {
                assert(formulas_sem(out@, a) =~= formulas_sem(ts@, a));
            } else {
                assert(formulas_sem(out@, a) =~= formulas_sem(fs@, a));
            }
        }
        assert forall|b: int|
            (vars_in(c@, b) && formulas_vars_in(ts@, b) && formulas_vars_in(fs@, b))
                implies #[trigger] formulas_vars_in(out@, b) by {
            assert forall|j: int| 0 <= j < out@.len() implies vars_in(#[trigger] out@[j]@, b) by {
                assert(vars_in(ts@[j]@, b));
                assert(vars_in(fs@[j]@, b));
                lemma_gate_vars(c@, ts@[j]@, b);
                lemma_gate_vars(spec_not(c@), fs@[j]@, b);
                lemma_gate_vars(spec_and2(c@, ts@[j]@), spec_and2(spec_not(c@), fs@[j]@), b);
            }
        }
    }
    out
}

/// One formula per constant bit: literally `True` or `False`.
#[verifier::loop_isolation(false)]
fn const_formulas(bs: &Vec<bool>) -> (out: Vec<Formula>)
    ensures
        out@.len() == bs@.len(),
        forall|j: int|
            0 <= j < bs@.len() ==> #[trigger] out@[j]@ == (if bs@[j] {
                SpecFormula::True
            } else {
                SpecFormula::False
            }),
        forall|a: spec_fn(int) -> bool| #[trigger] formulas_sem(out@, a) == bs@,
        forall|b: int| #[trigger] formulas_vars_in(out@, b),
{
    let mut out: Vec<Formula> = Vec::new();
    let mut i: usize = 0;
    while i < bs.len()
        invariant
            i <= bs@.len(),
            out@.len() == i,
            forall|j: int|
                0 <= j < i ==> #[trigger] out@[j]@ == (if bs@[j] {
                    SpecFormula::True
                } else {
                    SpecFormula::False
                }),
        decreases bs@.len() - i,
    {
        out.push(const_formula(bs[i]));
        i += 1;
    }
    proof {
        assert forall|a: spec_fn(int) -> bool| #[trigger] formulas_sem(out@, a) == bs@ by {
            assert(formulas_sem(out@, a) =~= bs@);
        }
        assert forall|b: int| #[trigger] formulas_vars_in(out@, b) by {
            assert forall|j: int| 0 <= j < out@.len() implies vars_in(#[trigger] out@[j]@, b) by {}
        }
    }
    out
}

/// One variable formula per symbol bit; rejects a nonpositive
/// identifier.
#[verifier::loop_isolation(false)]
fn symb_formulas(ids: &Vec<isize>) -> (r: Result<Vec<Formula>, SmtError>)
    ensures
        r is Ok <==> (forall|j: int| 0 <= j < ids@.len() ==> 0 < #[trigger] ids@[j]),
        r matches Err(er) ==> er == SmtError::BadSymbol,
        match r {
            Ok(out) => {
                &&& out@.len() == ids@.len()
                &&& (forall|j: int|
                    0 <= j < ids@.len() ==> #[trigger] out@[j]@ == SpecFormula::Var(
                        ids@[j] as int,
                    ))
                &&& (forall|a: spec_fn(int) -> bool| #[trigger] formulas_sem(out@, a) == Seq::new(
                    ids@.len(),
                    |i: int| a(ids@[i] as int),
                ))
                &&& (forall|b: int|
                    (forall|j: int| 0 <= j < ids@.len() ==> #[trigger] ids@[j] < b)
                        ==> #[trigger] formulas_vars_in(out@, b))
            },
            Err(_) => true,
        },
{
    let mut out: Vec<Formula> = Vec::new();
    let mut i: usize = 0;
    while i < ids.len()
        invariant
            i <= ids@.len(),
            out@.len() == i,
            forall|j: int| 0 <= j < i ==> 0 < #[trigger] ids@[j],
            forall|j: int| 0 <= j < i ==> #[trigger] out@[j]@ == SpecFormula::Var(ids@[j] as int),
        decreases ids@.len() - i,
    {
        if ids[i] <= 0 {
            proof {
                assert(ids@[i as int] <= 0);
                if forall|j: int| 0 <= j < ids@.len() ==> 0 < #[trigger] ids@[j] {
                    assert(0 < ids@[i as int]);
                }
            }
            return Err(SmtError::BadSymbol);
        }
        out.push(Formula::Var(ids[i]));
        i += 1;
    }
    proof {
        assert forall|a: spec_fn(int) -> bool| #[trigger] formulas_sem(out@, a) == Seq::new(
            ids@.len(),
            |i: int| a(ids@[i] as int),
        ) by {
            assert forall|j: int|
                0 <= j < out@.len() implies formulas_sem(out@, a)[j] == a(ids@[j] as int) by {
                assert(eval(out@[j]@, a) == a(ids@[j] as int));
            }
            assert(formulas_sem(out@, a) =~= Seq::new(ids@.len(), |i: int| a(ids@[i] as int)));
        }
        assert forall|b: int|
            (forall|j: int| 0 <= j < ids@.len() ==> #[trigger] ids@[j] < b)
                implies #[trigger] formulas_vars_in(out@, b) by {
            assert forall|j: int| 0 <= j < out@.len() implies vars_in(#[trigger] out@[j]@, b) by {
                assert(ids@[j] < b);
            }
        }
    }
    Ok(out)
}

/// The bits `low .. high` of an encoded operand, duplicated out.
#[verifier::loop_isolation(false)]
fn slice_formulas(bits: &Vec<Formula>, low: usize, high: usize) -> (out: Vec<Formula>)
    requires
        low <= high <= bits@.len(),
    ensures
        out@.len() == high - low,
        forall|a: spec_fn(int) -> bool| #[trigger] formulas_sem(out@, a) == formulas_sem(
            bits@,
            a,
        ).subrange(low as int, high as int),
        forall|b: int| formulas_vars_in(bits@, b) ==> #[trigger] formulas_vars_in(out@, b),
{
    let mut out: Vec<Formula> = Vec::new();
    let mut k: usize = low;
    while k < high
        invariant
            low <= k <= high,
            high <= bits@.len(),
            out@.len() == k - low,
            forall|j: int| 0 <= j < k - low ==> #[trigger] out@[j]@ == bits@[low + j]@,
        decreases high - k,
    {
        out.push(bits[k].dup());
        k += 1;
    }
    proof {
        assert forall|a: spec_fn(int) -> bool| #[trigger] formulas_sem(out@, a) == formulas_sem(
            bits@,
            a,
        ).subrange(low as int, high as int) by {
            assert(formulas_sem(out@, a) =~= formulas_sem(bits@, a).subrange(
                low as int,
                high as int,
            ));
        }
        assert forall|b: int|
            formulas_vars_in(bits@, b) implies #[trigger] formulas_vars_in(out@, b) by {
            assert forall|j: int| 0 <= j < out@.len() implies vars_in(#[trigger] out@[j]@, b) by {
                assert(vars_in(bits@[low + j]@, b));
            }
        }
    }
    out
}

/// Shift-and-add multiplier over equal-length formula lists: for each
/// multiplier bit, conditionally add the shifted multiplicand,
/// truncating to the operand width.
#[verifier::loop_isolation(false)]
#[verifier::rlimit(100)]
fn mul_formulas(xs: &Vec<Formula>, ys: &Vec<Formula>) -> (r: Vec<Formula>)
    requires
        xs@.len() == ys@.len(),
    ensures
        r@.len() == xs@.len(),
        forall|a: spec_fn(int) -> bool| #[trigger] formulas_sem(r@, a) == mul_bits(
            formulas_sem(xs@, a),
            formulas_sem(ys@, a),
        ),
        forall|b: int|
            (formulas_vars_in(xs@, b) && formulas_vars_in(ys@, b)) ==> #[trigger] formulas_vars_in(
                r@,
                b,
            ),
{
    let w = xs.len();
    let mut acc: Vec<Formula> = Vec::new();
    let mut z: usize = 0;
    while z < w
        invariant
            z <= w,
            acc@.len() == z,
            forall|j: int| 0 <= j < z ==> #[trigger] acc@[j]@ == SpecFormula::False,
        decreases w - z,
    {
        acc.push(Formula::False);
        z += 1;
    }
    proof {
        assert forall|a: spec_fn(int) -> bool| #[trigger] formulas_sem(acc@, a)
            == mul_acc(formulas_sem(xs@, a), formulas_sem(ys@, a), 0) by {
            assert(formulas_sem(acc@, a) =~= zero_bits(w as nat));
            assert(formulas_sem(xs@, a).len() == w);
        }
        assert forall|b: int| #[trigger] formulas_vars_in(acc@, b) by {
            assert forall|j: int| 0 <= j < acc@.len() implies vars_in(
                #[trigger] acc@[j]@,
                b,
            ) by {}
        }
    }
    let mut k: usize = 0;
    while k < w
        invariant
            k <= w,
            w == xs@.len(),
            xs@.len() == ys@.len(),
            acc@.len() == w,
            forall|a: spec_fn(int) -> bool| #[trigger] formulas_sem(acc@, a) == mul_acc(
                formulas_sem(xs@, a),
                formulas_sem(ys@, a),
                k as nat,
            ),
            forall|b: int|
                (formulas_vars_in(xs@, b) && formulas_vars_in(ys@, b))
                    ==> #[trigger] formulas_vars_in(acc@, b),
        decreases w - k,
    {
        let mut shifted: Vec<Formula> = Vec::new();
        let mut j: usize = 0;
        while j < w
            invariant
                j <= w,
                k < w,
                w == xs@.len(),
                shifted@.len() == j,
                forall|t: int|
                    0 <= t < j ==> #[trigger] shifted@[t]@ == (if t < k {
                        SpecFormula::False
                    } else {
                        xs@[t - k]@
                    }),
            decreases w - j,
        {
            if j < k {
                shifted.push(Formula::False);
            } else {
                shifted.push(xs[j - k].dup());
            }
            j += 1;
        }
        proof {
            assert forall|a: spec_fn(int) -> bool| #[trigger] formulas_sem(shifted@, a)
                == shl_bits(formulas_sem(xs@, a), k as nat) by {
                assert forall|t: int|
                    0 <= t < w implies formulas_sem(shifted@, a)[t] == shl_bits(
                    formulas_sem(xs@, a),
                    k as nat,
                )[t] by {
                    if t < k {
                        assert(shifted@[t]@ == SpecFormula::False);
                    } else {
                        assert(shifted@[t]@ == xs@[t - k]@);
                        assert(formulas_sem(xs@, a)[t - k] == eval(xs@[t - k]@, a));
                    }
                }
                assert(formulas_sem(shifted@, a) =~= shl_bits(
                    formulas_sem(xs@, a),
                    k as nat,
                ));
            }
            assert forall|b: int|
                formulas_vars_in(xs@, b) implies #[trigger] formulas_vars_in(
                shifted@,
                b,
            ) by {
                assert forall|t: int| 0 <= t < shifted@.len() implies vars_in(
                    #[trigger] shifted@[t]@,
                    b,
                ) by {
                    if t >= k {
                        assert(vars_in(xs@[t - k]@, b));
                    }
                }
            }
        }
        let summed = add_formulas(&acc, &shifted);
        let mut nacc: Vec<Formula> = Vec::new();
        let mut j2: usize = 0;
        while j2 < w
            invariant
                j2 <= w,
                k < w,
                w == xs@.len(),
                xs@.len() == ys@.len(),
                acc@.len() == w,
                summed@.len() == w,
                nacc@.len() == j2,
                forall|t: int|
                    0 <= t < j2 ==> #[trigger] nacc@[t]@ == spec_or2(
                        spec_and2(ys@[k as int]@, summed@[t]@),
                        spec_and2(spec_not(ys@[k as int]@), acc@[t]@),
                    ),
            decreases w - j2,
        {
            let hi = Formula::and(&ys[k], &summed[j2]);
            let lo = Formula::and(&Formula::not(&ys[k]), &acc[j2]);
            nacc.push(Formula::or(&hi, &lo));
            j2 += 1;
        }
        proof {
            assert forall|a: spec_fn(int) -> bool| #[trigger] formulas_sem(nacc@, a)
                == mul_acc(
                formulas_sem(xs@, a),
                formulas_sem(ys@, a),
                (k + 1) as nat,
            ) by {
                let sx = formulas_sem(xs@, a);
                let sy = formulas_sem(ys@, a);
                assert forall|t: int|
                    0 <= t < w implies eval(nacc@[t]@, a) == (if sy[k as int] {
                    formulas_sem(summed@, a)[t]
                } else {
                    formulas_sem(acc@, a)[t]
                }) by {
                    lemma_gate_eval(ys@[k as int]@, summed@[t]@, a);
                    lemma_gate_eval(spec_not(ys@[k as int]@), acc@[t]@, a);
                    lemma_gate_eval(
                        spec_and2(ys@[k as int]@, summed@[t]@),
                        spec_and2(spec_not(ys@[k as int]@), acc@[t]@),
                        a,
                    );
                    assert(sy[k as int] == eval(ys@[k as int]@, a));
                }
                assert(mul_acc(sx, sy, (k + 1) as nat) == (if sy[k as int] {
                    add_bits(mul_acc(sx, sy, k as nat), shl_bits(sx, k as nat))
                } else {
                    mul_acc(sx, sy, k as nat)
                }));
                if sy[k as int] {
                    assert(formulas_sem(summed@, a) == add_bits(
                        formulas_sem(acc@, a),
                        formulas_sem(shifted@, a),
                    ));
                    assert(formulas_sem(nacc@, a) =~= formulas_sem(summed@, a));
                } else {
                    assert(formulas_sem(nacc@, a) =~= formulas_sem(acc@, a));
                }
            }
            assert forall|b: int|
                (formulas_vars_in(xs@, b) && formulas_vars_in(ys@, b))
                    implies #[trigger] formulas_vars_in(nacc@, b) by {
                assert(formulas_vars_in(acc@, b));
                assert(formulas_vars_in(shifted@, b));
                assert(formulas_vars_in(summed@, b));
                assert forall|t: int| 0 <= t < nacc@.len() implies vars_in(
                    #[trigger] nacc@[t]@,
                    b,
                ) by {
                    assert(vars_in(ys@[k as int]@, b));
                    assert(vars_in(summed@[t]@, b));
                    assert(vars_in(acc@[t]@, b));
                    lemma_gate_vars(ys@[k as int]@, summed@[t]@, b);
                    lemma_gate_vars(spec_not(ys@[k as int]@), acc@[t]@, b);
                    lemma_gate_vars(
                        spec_and2(ys@[k as int]@, summed@[t]@),
                        spec_and2(spec_not(ys@[k as int]@), acc@[t]@),
                        b,
                    );
                }
            }
        }
        acc = nacc;
        k += 1;
    }
    proof {
        assert forall|a: spec_fn(int) -> bool| #[trigger] formulas_sem(acc@, a)
            == mul_bits(formulas_sem(xs@, a), formulas_sem(ys@, a)) by {
            assert(formulas_sem(ys@, a).len() == ys@.len());
        }
    }
    acc
}

/// Restoring divider over equal-length formula lists: bring each
/// dividend bit down into a one-bit-wider remainder register and
/// subtract the divisor back out whenever it fits; the low bits of the
/// register are the remainder.
#[verifier::loop_isolation(false)]
#[verifier::rlimit(100)]
fn rem_formulas(xs: &Vec<Formula>, ys: &Vec<Formula>) -> (out: Vec<Formula>)
    requires
        xs@.len() == ys@.len(),
    ensures
        out@.len() == xs@.len(),
        forall|a: spec_fn(int) -> bool| #[trigger] formulas_sem(out@, a) == rem_bits(
            formulas_sem(xs@, a),
            formulas_sem(ys@, a),
        ),
        forall|b: int|
            (formulas_vars_in(xs@, b) && formulas_vars_in(ys@, b)) ==> #[trigger] formulas_vars_in(
                out@,
                b,
            ),
{
    let w = xs.len();
    // the remainder register is one bit wider than the operands
    let mut yext = dup_formulas(ys);
    yext.push(Formula::False);
    let mut r: Vec<Formula> = Vec::new();
    r.push(Formula::False);
    let mut z2: usize = 0;
    while z2 < w
        invariant
            z2 <= w,
            r@.len() == z2 + 1,
            forall|j: int| 0 <= j < z2 + 1 ==> #[trigger] r@[j]@ == SpecFormula::False,
        decreases w - z2,
    {
        r.push(Formula::False);
        z2 += 1;
    }
    proof {
        assert forall|a: spec_fn(int) -> bool| #[trigger] formulas_sem(r@, a) == div_acc(
            formulas_sem(xs@, a),
            formulas_sem(ys@, a),
            0,
        ) by {
            assert(formulas_sem(r@, a) =~= zero_bits((w + 1) as nat));
            assert(formulas_sem(xs@, a).len() == w);
        }
        assert forall|a: spec_fn(int) -> bool| #[trigger] formulas_sem(yext@, a)
            == formulas_sem(ys@, a).push(false) by {
            assert(formulas_sem(yext@, a) =~= formulas_sem(ys@, a).push(false));
        }
        assert forall|b: int|
            formulas_vars_in(ys@, b) implies #[trigger] formulas_vars_in(yext@, b) by {
            assert forall|j: int| 0 <= j < yext@.len() implies vars_in(
                #[trigger] yext@[j]@,
                b,
            ) by {
                if j < ys@.len() {
                    assert(yext@[j]@ == ys@[j]@);
                    assert(vars_in(ys@[j]@, b));
                }
            }
        }
        assert forall|b: int| #[trigger] formulas_vars_in(r@, b) by {
            assert forall|j: int| 0 <= j < r@.len() implies vars_in(#[trigger] r@[j]@, b) by {}
        }
    }
    let mut k: usize = 0;
    while k < w
        invariant
            k <= w,
            w == xs@.len(),
            xs@.len() == ys@.len(),
            yext@.len() == w + 1,
            r@.len() == w + 1,
            forall|a: spec_fn(int) -> bool| #[trigger] formulas_sem(yext@, a)
                == formulas_sem(ys@, a).push(false),
            forall|a: spec_fn(int) -> bool| #[trigger] formulas_sem(r@, a) == div_acc(
                formulas_sem(xs@, a),
                formulas_sem(ys@, a),
                k as nat,
            ),
            forall|b: int|
                formulas_vars_in(ys@, b) ==> #[trigger] formulas_vars_in(yext@, b),
            forall|b: int|
                (formulas_vars_in(xs@, b) && formulas_vars_in(ys@, b))
                    ==> #[trigger] formulas_vars_in(r@, b),
        decreases w - k,
    {
        // bring the next dividend bit down into the register
        let mut brought: Vec<Formula> = Vec::new();
        brought.push(xs[w - 1 - k].dup());
        let mut j: usize = 0;
        while j < w
            invariant
                j <= w,
                k < w,
                w == xs@.len(),
                r@.len() == w + 1,
                brought@.len() == j + 1,
                brought@[0]@ == xs@[w - 1 - k]@,
                forall|t: int| 1 <= t < j + 1 ==> #[trigger] brought@[t]@ == r@[t - 1]@,
            decreases w - j,
        {
            brought.push(r[j].dup());
            j += 1;
        }
        proof {
            assert forall|a: spec_fn(int) -> bool| #[trigger] formulas_sem(brought@, a)
                == seq![formulas_sem(xs@, a)[w - 1 - k]] + formulas_sem(r@, a).take(
                w as int,
            ) by {
                assert forall|t: int|
                    0 <= t < w + 1 implies formulas_sem(brought@, a)[t] == (seq![
                    formulas_sem(xs@, a)[w - 1 - k]] + formulas_sem(r@, a).take(
                    w as int,
                ))[t] by {
                    if t == 0 {
                        assert(brought@[0]@ == xs@[w - 1 - k]@);
                    } else {
                        assert(brought@[t]@ == r@[t - 1]@);
                    }
                }
                assert(formulas_sem(brought@, a) =~= seq![
                    formulas_sem(xs@, a)[w - 1 - k]] + formulas_sem(r@, a).take(w as int));
            }
            assert forall|b: int|
                (formulas_vars_in(xs@, b) && formulas_vars_in(ys@, b))
                    implies #[trigger] formulas_vars_in(brought@, b) by {
                assert(formulas_vars_in(r@, b));
                assert forall|t: int| 0 <= t < brought@.len() implies vars_in(
                    #[trigger] brought@[t]@,
                    b,
                ) by {
                    if t == 0 {
                        assert(vars_in(xs@[w - 1 - k]@, b));
                    } else {
                        assert(vars_in(r@[t - 1]@, b));
                    }
                }
            }
        }
        let ltf = lt_formulas(&brought, &yext);
        let fits = Formula::not(&ltf);
        let reduced = sub_formulas(&brought, &yext);
        let nr = mux_formulas(&fits, &reduced, &brought);
        proof {
            assert forall|a: spec_fn(int) -> bool| #[trigger] formulas_sem(nr@, a)
                == div_acc(
                formulas_sem(xs@, a),
                formulas_sem(ys@, a),
                (k + 1) as nat,
            ) by {
                let sx = formulas_sem(xs@, a);
                let sy = formulas_sem(ys@, a);
                assert(sx.len() == w);
                assert(div_acc(sx, sy, (k + 1) as nat) == (if bits_value(
                    seq![sx[w - 1 - k]] + div_acc(sx, sy, k as nat).take(w as int),
                ) >= bits_value(sy.push(false)) {
                    sub_bits(
                        seq![sx[w - 1 - k]] + div_acc(sx, sy, k as nat).take(w as int),
                        sy.push(false),
                    )
                } else {
                    seq![sx[w - 1 - k]] + div_acc(sx, sy, k as nat).take(w as int)
                }));
                assert(formulas_sem(brought@, a) == seq![sx[w - 1 - k]] + div_acc(
                    sx,
                    sy,
                    k as nat,
                ).take(w as int));
                assert(formulas_sem(yext@, a) == sy.push(false));
                lemma_gate_eval(ltf@, ltf@, a);
                assert(eval(ltf@, a) == (bits_value(formulas_sem(brought@, a))
                    < bits_value(formulas_sem(yext@, a))));
                assert(eval(fits@, a) == !(bits_value(formulas_sem(brought@, a))
                    < bits_value(sy.push(false))));
            }
            assert forall|b: int|
                (formulas_vars_in(xs@, b) && formulas_vars_in(ys@, b))
                    implies #[trigger] formulas_vars_in(nr@, b) by {
                assert(formulas_vars_in(brought@, b));
                assert(formulas_vars_in(yext@, b));
                assert(vars_in(ltf@, b));
                assert(vars_in(fits@, b)) by {
                    lemma_gate_vars(ltf@, ltf@, b);
                }
                assert(formulas_vars_in(reduced@, b));
            }
        }
        r = nr;
        k += 1;
    }
    // the low bits of the register are the remainder
    let mut out: Vec<Formula> = Vec::new();
    let mut t2: usize = 0;
    while t2 < w
        invariant
            t2 <= w,
            r@.len() == w + 1,
            out@.len() == t2,
            forall|j: int| 0 <= j < t2 ==> #[trigger] out@[j]@ == r@[j]@,
        decreases w - t2,
    {
        out.push(r[t2].dup());
        t2 += 1;
    }
    proof {
        assert forall|a: spec_fn(int) -> bool| #[trigger] formulas_sem(out@, a)
            == rem_bits(formulas_sem(xs@, a), formulas_sem(ys@, a)) by {
            assert(formulas_sem(xs@, a).len() == w);
            assert(formulas_sem(out@, a) =~= formulas_sem(r@, a).take(w as int));
        }
        assert forall|b: int|
            (formulas_vars_in(xs@, b) && formulas_vars_in(ys@, b))
                implies #[trigger] formulas_vars_in(out@, b) by {
            assert(formulas_vars_in(r@, b));
            assert forall|j: int| 0 <= j < out@.len() implies vars_in(
                #[trigger] out@[j]@,
                b,
            ) by {
                assert(vars_in(r@[j]@, b));
            }
        }
    }
    out
}

/// The concatenated bit lists: the low-order bits first, then the
/// high-order bits.
#[verifier::loop_isolation(false)]
fn concat_formulas(lo: Vec<Formula>, hi: Vec<Formula>) -> (out: Vec<Formula>)
    ensures
        out@.len() == lo@.len() + hi@.len(),
        forall|a: spec_fn(int) -> bool| #[trigger] formulas_sem(out@, a) == formulas_sem(lo@, a)
            + formulas_sem(hi@, a),
        forall|b: int|
            (formulas_vars_in(lo@, b) && formulas_vars_in(hi@, b)) ==> #[trigger] formulas_vars_in(
                out@,
                b,
            ),
{
    let ghost gl = lo@;
    let ghost gh = hi@;
    let mut out = lo;
    let mut rest = hi;
    out.append(&mut rest);
    proof {
        assert forall|a: spec_fn(int) -> bool| #[trigger] formulas_sem(out@, a) == formulas_sem(
            gl,
            a,
        ) + formulas_sem(gh, a) by {
            assert forall|j: int|
                0 <= j < out@.len() implies formulas_sem(out@, a)[j] == (formulas_sem(gl, a)
                + formulas_sem(gh, a))[j] by {
                if j < gl.len() {
                    assert(out@[j] == gl[j]);
                } else {
                    assert(out@[j] == gh[j - gl.len()]);
                }
            }
            assert(formulas_sem(out@, a) =~= formulas_sem(gl, a) + formulas_sem(gh, a));
        }
        assert forall|b: int|
            (formulas_vars_in(gl, b) && formulas_vars_in(gh, b)) implies #[trigger] formulas_vars_in(
            out@,
            b,
        ) by {
            assert forall|j: int| 0 <= j < out@.len() implies vars_in(#[trigger] out@[j]@, b) by {
                if j < gl.len() {
                    assert(vars_in(gl[j]@, b));
                } else {
                    assert(vars_in(gh[j - gl.len()]@, b));
                }
            }
        }
    }
    out
}

/// Whether a term is the literal zero constant.
#[verifier::loop_isolation(false)]
fn is_zero_const_exec(e: &BVExpr) -> (r: bool)
    ensures
        r == is_zero_const(*e),
{
    match e {
        BVExpr::Const(bs) => {
            let mut z: usize = 0;
            while z < bs.len()
                invariant
                    z <= bs@.len(),
                    forall|t: int| 0 <= t < z ==> !(#[trigger] bs@[t]),
                decreases bs@.len() - z,
            {
                if bs[z] {
                    proof {
                        assert(bs@[z as int]);
                        assert(*e == BVExpr::Const(*bs));
                        if is_zero_const(*e) {
                            assert(!bs@[z as int]);
                        }
                    }
                    return false;
                }
                z += 1;
            }
            proof {
                assert(*e == BVExpr::Const(*bs));
            }
            true
        },
        _ => false,
    }
}

/// The violation an ill-formed term is reported with: the first
/// failure in encoding order. Operands are examined left to right
/// (for a conditional select: condition, then the two branches;
/// for concatenation: the low operand first, as encoded), then the
/// node's own conditions.
pub open spec fn bv_err(e: BVExpr) -> SmtError
    decreases e, 1int,
{
    match e {
        BVExpr::Const(_) => SmtError::ZeroWidth,
        BVExpr::Symb(ids) => if ids@.len() == 0 {
            SmtError::ZeroWidth
        } else {
            SmtError::BadSymbol
        },
        BVExpr::Concat(hi, lo) => if !bv_wf(*lo) {
            bv_err(*lo)
        } else {
            bv_err(*hi)
        },
        BVExpr::Slice(x, _, _) => if !bv_wf(*x) {
            bv_err(*x)
        } else {
            SmtError::SliceOutOfRange
        },
        BVExpr::Add(x, y) => if !bv_wf(*x) {
            bv_err(*x)
        } else if !bv_wf(*y) {
            bv_err(*y)
        } else {
            SmtError::WidthMismatch
        },
        BVExpr::Sub(x, y) => if !bv_wf(*x) {
            bv_err(*x)
        } else if !bv_wf(*y) {
            bv_err(*y)
        } else {
            SmtError::WidthMismatch
        },
        BVExpr::Mul(x, y) => if !bv_wf(*x) {
            bv_err(*x)
        } else if !bv_wf(*y) {
            bv_err(*y)
        } else {
            SmtError::WidthMismatch
        },
        BVExpr::Rem(x, y) => if !bv_wf(*x) {
            bv_err(*x)
        } else if !bv_wf(*y) {
            bv_err(*y)
        } else if bv_width(*x) != bv_width(*y) {
            SmtError::WidthMismatch
        } else {
            SmtError::DivisionByZero
        },
        BVExpr::Ite(c, t, f) => if !bool_wf(*c) {
            bool_err(*c)
        } else if !bv_wf(*t) {
            bv_err(*t)
        } else if !bv_wf(*f) {
            bv_err(*f)
        } else {
            SmtError::WidthMismatch
        },
    }
}

/// The violation an ill-formed predicate is reported with.
pub open spec fn bool_err(p: Bool) -> SmtError
    decreases p, 1int,
{
    match p {
        Bool::And(x, y) => if !bool_wf(*x) {
            bool_err(*x)
        } else {
            bool_err(*y)
        },
        Bool::Or(x, y) => if !bool_wf(*x) {
            bool_err(*x)
        } else {
            bool_err(*y)
        },
        Bool::Neg(x) => bool_err(*x),
        Bool::BVEq(x, y) => if !bv_wf(*x) {
            bv_err(*x)
        } else if !bv_wf(*y) {
            bv_err(*y)
        } else {
            SmtError::WidthMismatch
        },
        Bool::BVLt(x, y) => if !bv_wf(*x) {
            bv_err(*x)
        } else if !bv_wf(*y) {
            bv_err(*y)
        } else {
            SmtError::WidthMismatch
        },
    }
}

/// Lower a bit-vector term to one propositional formula per bit,
/// little-endian. Succeeds exactly on well-formed terms; the resulting
/// bits have the term's width and, under every assignment of the
/// propositional variables, evaluate to exactly the bits the term
/// denotes.
#[verifier::loop_isolation(false)]
#[verifier::rlimit(100)]
pub fn encode_bv(e: &BVExpr) -> (r: Result<Vec<Formula>, SmtError>)
    ensures
        r is Ok <==> bv_wf(*e),
        r matches Err(er) ==> er == bv_err(*e),
        match r {
            Ok(bits) => {
                &&& bits@.len() == bv_width(*e)
                &&& (forall|a: spec_fn(int) -> bool| #[trigger] formulas_sem(bits@, a) == bv_sem(
                    *e,
                    a,
                ))
                &&& (forall|b: int|
                    bv_vars_in(*e, b) ==> #[trigger] formulas_vars_in(bits@, b))
                &&& (*e matches BVExpr::Const(bs) ==> forall|i: int|
                    0 <= i < bs@.len() ==> #[trigger] bits@[i]@ == (if bs@[i] {
                        SpecFormula::True
                    } else {
                        SpecFormula::False
                    }))
                &&& (*e matches BVExpr::Symb(ids) ==> forall|i: int|
                    0 <= i < ids@.len() ==> #[trigger] bits@[i]@ == SpecFormula::Var(
                        ids@[i] as int,
                    ))
            },
            Err(_) => true,
        },
    decreases e, 1int,
{
    match e {
        BVExpr::Const(bs) => {
            if bs.len() == 0 {
                return Err(SmtError::ZeroWidth);
            }
            let out = const_formulas(bs);
            Ok(out)
        },
        BVExpr::Symb(ids) => {
            if ids.len() == 0 {
                return Err(SmtError::ZeroWidth);
            }
            match symb_formulas(ids) {
                Ok(out) => Ok(out),
                Err(er) => Err(er),
            }
        },
        BVExpr::Concat(hi, lo) => {
            let rl = match encode_bv(&**lo) {
                Ok(v) => v,
                Err(er) => {
                    return Err(er);
                },
            };
            let rh = match encode_bv(&**hi) {
                Ok(v) => v,
                Err(er) => {
                    return Err(er);
                },
            };
            let out = concat_formulas(rl, rh);
            Ok(out)
        },
        BVExpr::Slice(x, low, high) => {
            let rx = match encode_bv(&**x) {
                Ok(v) => v,
                Err(er) => {
                    return Err(er);
                },
            };
            if !(*low < *high && *high <= rx.len()) {
                return Err(SmtError::SliceOutOfRange);
            }
            let out = slice_formulas(&rx, *low, *high);
            Ok(out)
        },
        _ => encode_bv_arith(e),
    }
}

/// The arithmetic and selection cases of `encode_bv`.
#[verifier::rlimit(100)]
fn encode_bv_arith(e: &BVExpr) -> (r: Result<Vec<Formula>, SmtError>)
    requires
        e is Add || e is Sub || e is Mul || e is Rem || e is Ite,
    ensures
        r is Ok <==> bv_wf(*e),
        r matches Err(er) ==> er == bv_err(*e),
        match r {
            Ok(bits) => {
                &&& bits@.len() == bv_width(*e)
                &&& (forall|a: spec_fn(int) -> bool| #[trigger] formulas_sem(bits@, a) == bv_sem(
                    *e,
                    a,
                ))
                &&& (forall|b: int|
                    bv_vars_in(*e, b) ==> #[trigger] formulas_vars_in(bits@, b))
            },
            Err(_) => true,
        },
    decreases e, 0int,
{
    match e {
        BVExpr::Add(x, y) => {
            let rx = match encode_bv(&**x) {
                Ok(v) => v,
                Err(er) => {
                    return Err(er);
                },
            };
            let ry = match encode_bv(&**y) {
                Ok(v) => v,
                Err(er) => {
                    return Err(er);
                },
            };
            if rx.len() != ry.len() {
                return Err(SmtError::WidthMismatch);
            }
            let out = add_formulas(&rx, &ry);
            Ok(out)
        },
        BVExpr::Sub(x, y) => {
            let rx = match encode_bv(&**x) {
                Ok(v) => v,
                Err(er) => {
                    return Err(er);
                },
            };
            let ry = match encode_bv(&**y) {
                Ok(v) => v,
                Err(er) => {
                    return Err(er);
                },
            };
            if rx.len() != ry.len() {
                return Err(SmtError::WidthMismatch);
            }
            let out = sub_formulas(&rx, &ry);
            Ok(out)
        },
        BVExpr::Mul(x, y) => {
            let rx = match encode_bv(&**x) {
                Ok(v) => v,
                Err(er) => {
                    return Err(er);
                },
            };
            let ry = match encode_bv(&**y) {
                Ok(v) => v,
                Err(er) => {
                    return Err(er);
                },
            };
            if rx.len() != ry.len() {
                return Err(SmtError::WidthMismatch);
            }
            let out = mul_formulas(&rx, &ry);
            Ok(out)
        },
        BVExpr::Rem(x, y) => {
            let rx = match encode_bv(&**x) {
                Ok(v) => v,
                Err(er) => {
                    return Err(er);
                },
            };
            let ry = match encode_bv(&**y) {
                Ok(v) => v,
                Err(er) => {
                    return Err(er);
                },
            };
            if rx.len() != ry.len() {
                return Err(SmtError::WidthMismatch);
            }
            if is_zero_const_exec(&**y) {
                return Err(SmtError::DivisionByZero);
            }
            let out = rem_formulas(&rx, &ry);
            Ok(out)
        },
        BVExpr::Ite(c, t, f) => {
            let fc = match encode_bool(&**c) {
                Ok(v) => v,
                Err(er) => {
                    return Err(er);
                },
            };
            let rt = match encode_bv(&**t) {
                Ok(v) => v,
                Err(er) => {
                    return Err(er);
                },
            };
            let rf = match encode_bv(&**f) {
                Ok(v) => v,
                Err(er) => {
                    return Err(er);
                },
            };
            if rt.len() != rf.len() {
                return Err(SmtError::WidthMismatch);
            }
            let out = mux_formulas(&fc, &rt, &rf);
            proof {
                assert forall|a: spec_fn(int) -> bool| #[trigger] formulas_sem(out@, a) == bv_sem(
                    *e,
                    a,
                ) by {
                    assert(eval(fc@, a) == bool_sem(**c, a));
                }
                assert forall|b: int| bv_vars_in(*e, b) implies #[trigger] formulas_vars_in(
                    out@,
                    b,
                ) by {
                    assert(vars_in(fc@, b));
                    assert(formulas_vars_in(rt@, b));
                    assert(formulas_vars_in(rf@, b));
                }
            }
            Ok(out)
        },
        _ => unreached(),
    }
}

/// Lower a predicate to a single propositional formula. Succeeds
/// exactly on well-formed predicates; under every assignment of the
/// propositional variables the formula evaluates to exactly the truth
/// value the predicate denotes.
#[verifier::loop_isolation(false)]
pub fn encode_bool(p: &Bool) -> (r: Result<Formula, SmtError>)
    ensures
        r is Ok <==> bool_wf(*p),
        r matches Err(er) ==> er == bool_err(*p),
        match r {
            Ok(f) => {
                &&& (forall|a: spec_fn(int) -> bool| #[trigger] eval(f@, a) == bool_sem(*p, a))
                &&& (forall|b: int| bool_vars_in(*p, b) ==> #[trigger] vars_in(f@, b))
            },
            Err(_) => true,
        },
    decreases p,
{
    match p {
        Bool::And(x, y) => {
            let fx = match encode_bool(&**x) {
                Ok(v) => v,
                Err(er) => {
                    return Err(er);
                },
            };
            let fy = match encode_bool(&**y) {
                Ok(v) => v,
                Err(er) => {
                    return Err(er);
                },
            };
            let out = Formula::and(&fx, &fy);
            proof {
                assert forall|a: spec_fn(int) -> bool| #[trigger] eval(out@, a) == bool_sem(
                    *p,
                    a,
                ) by {
                    lemma_gate_eval(fx@, fy@, a);
                }
                assert forall|b: int| bool_vars_in(*p, b) implies #[trigger] vars_in(out@, b) by {
                    lemma_gate_vars(fx@, fy@, b);
                }
            }
            Ok(out)
        },
        Bool::Or(x, y) => {
            let fx = match encode_bool(&**x) {
                Ok(v) => v,
                Err(er) => {
                    return Err(er);
                },
            };
            let fy = match encode_bool(&**y) {
                Ok(v) => v,
                Err(er) => {
                    return Err(er);
                },
            };
            let out = Formula::or(&fx, &fy);
            proof {
                assert forall|a: spec_fn(int) -> bool| #[trigger] eval(out@, a) == bool_sem(
                    *p,
                    a,
                ) by {
                    lemma_gate_eval(fx@, fy@, a);
                }
                assert forall|b: int| bool_vars_in(*p, b) implies #[trigger] vars_in(out@, b) by {
                    lemma_gate_vars(fx@, fy@, b);
                }
            }
            Ok(out)
        },
        Bool::Neg(x) => {
            let fx = match encode_bool(&**x) {
                Ok(v) => v,
                Err(er) => {
                    return Err(er);
                },
            };
            let out = Formula::not(&fx);
            proof {
                assert forall|a: spec_fn(int) -> bool| #[trigger] eval(out@, a) == bool_sem(
                    *p,
                    a,
                ) by {
                    lemma_gate_eval(fx@, fx@, a);
                }
                assert forall|b: int| bool_vars_in(*p, b) implies #[trigger] vars_in(out@, b) by {
                    lemma_gate_vars(fx@, fx@, b);
                }
            }
            Ok(out)
        },
        Bool::BVEq(x, y) => {
            let rx = match encode_bv(&**x) {
                Ok(v) => v,
                Err(er) => {
                    return Err(er);
                },
            };
            let ry = match encode_bv(&**y) {
                Ok(v) => v,
                Err(er) => {
                    return Err(er);
                },
            };
            if rx.len() != ry.len() {
                return Err(SmtError::WidthMismatch);
            }
            let mut acc = Formula::True;
            let mut i: usize = 0;
            while i < rx.len()
                invariant
                    i <= rx@.len(),
                    rx@.len() == ry@.len(),
                    forall|a: spec_fn(int) -> bool| #[trigger] eval(acc@, a) == (forall|j: int|
                        0 <= j < i ==> formulas_sem(rx@, a)[j] == #[trigger] formulas_sem(
                            ry@,
                            a,
                        )[j]),
                    forall|b: int|
                        (formulas_vars_in(rx@, b) && formulas_vars_in(ry@, b))
                            ==> #[trigger] vars_in(acc@, b),
                decreases rx@.len() - i,
            {
                let ghost apre = acc@;
                acc = Formula::and(&acc, &Formula::iff(&rx[i], &ry[i]));
                proof {
                    assert forall|a: spec_fn(int) -> bool| #[trigger] eval(acc@, a) == (forall|
                        j: int,
                    |
                        0 <= j < i + 1 ==> formulas_sem(rx@, a)[j] == #[trigger] formulas_sem(
                            ry@,
                            a,
                        )[j]) by {
                        lemma_gate_eval(rx@[i as int]@, ry@[i as int]@, a);
                        lemma_gate_eval(apre, spec_iff2(rx@[i as int]@, ry@[i as int]@), a);
                        assert(formulas_sem(rx@, a)[i as int] == eval(rx@[i as int]@, a));
                        assert(formulas_sem(ry@, a)[i as int] == eval(ry@[i as int]@, a));
                        if eval(acc@, a) {
                            assert forall|j: int|
                                0 <= j < i + 1 implies formulas_sem(rx@, a)[j]
                                == #[trigger] formulas_sem(ry@, a)[j] by {}
                        }
                    }
                    assert forall|b: int|
                        (formulas_vars_in(rx@, b) && formulas_vars_in(ry@, b))
                            implies #[trigger] vars_in(acc@, b) by {
                        assert(vars_in(rx@[i as int]@, b));
                        assert(vars_in(ry@[i as int]@, b));
                        lemma_gate_vars(rx@[i as int]@, ry@[i as int]@, b);
                        lemma_gate_vars(apre, spec_iff2(rx@[i as int]@, ry@[i as int]@), b);
                    }
                }
                i += 1;
            }
            proof {
                assert forall|a: spec_fn(int) -> bool| #[trigger] eval(acc@, a) == bool_sem(
                    *p,
                    a,
                ) by {
                    if eval(acc@, a) {
                        assert(formulas_sem(rx@, a) =~= formulas_sem(ry@, a));
                        assert(bv_sem(**x, a) == bv_sem(**y, a));
                    }
                    if bool_sem(*p, a) {
                        assert(formulas_sem(rx@, a) == formulas_sem(ry@, a));
                        assert forall|j: int|
                            0 <= j < rx@.len() implies formulas_sem(rx@, a)[j]
                            == #[trigger] formulas_sem(ry@, a)[j] by {}
                    }
                }
            }
            Ok(acc)
        },
        Bool::BVLt(x, y) => {
            let rx = match encode_bv(&**x) {
                Ok(v) => v,
                Err(er) => {
                    return Err(er);
                },
            };
            let ry = match encode_bv(&**y) {
                Ok(v) => v,
                Err(er) => {
                    return Err(er);
                },
            };
            if rx.len() != ry.len() {
                return Err(SmtError::WidthMismatch);
            }
            let out = lt_formulas(&rx, &ry);
            Ok(out)
        },
    }
}

/// Build a symbolic bit-vector term by declaring `name` in the context
/// at the given width; the term carries the freshly allocated
/// propositional variable identifiers, little-endian.
pub fn bvsym(c: &mut Context, name: &str, width: isize) -> (r: Result<BVExpr, SmtError>)
    requires
        old(c).wf(),
    ensures
        final(c).wf(),
        r is Ok <==> (width >= 1 && !crate::solver::has_name(old(c)@, name@) && old(
            c,
        ).var_count() + width <= isize::MAX),
        match r {
            Ok(e) => {
                &&& e matches BVExpr::Symb(ids) && ids@.len() == width && (forall|k: int|
                    0 <= k < width ==> #[trigger] ids@[k] == old(c).var_count() + k)
                &&& bv_wf(e)
                &&& bv_width(e) == width
                &&& bv_vars_in(e, final(c).var_count())
                &&& final(c)@ == old(c)@.push(
                    crate::solver::SymView {
                        name: name@,
                        low: old(c).var_count(),
                        width: width as int,
                    },
                )
                &&& final(c).var_count() == old(c).var_count() + width
            },
            Err(_) => final(c)@ == old(c)@ && final(c).var_count() == old(c).var_count(),
        },
    {
        match c.fresh_bvsym(name, width) {
            Ok(ids) => {
                let e = BVExpr::Symb(ids);
                proof {
                    assert(old(c).var_count() >= 1);
                }
                Ok(e)
            },
            Err(er) => Err(er),
        }
    }

/// The bit `i` of a number.
pub open spec fn nth_bit(v: nat, i: nat) -> bool {
    (v / pow2(i)) % 2 == 1
}

/// Build a constant bit-vector term of the given width holding `val`
/// modulo `2^width`, little-endian.
#[verifier::loop_isolation(false)]
pub fn bvconst(val: usize, width: isize) -> (r: BVExpr)
    requires
        1 <= width,
    ensures
        r matches BVExpr::Const(bits) && bits@.len() == width && (forall|i: int|
            0 <= i < width ==> #[trigger] bits@[i] == nth_bit(val as nat, i as nat)),
        bv_wf(r),
        bv_width(r) == width,
{
    let mut bits: Vec<bool> = Vec::new();
    let mut cur: usize = val;
    let mut i: isize = 0;
    proof {
        vstd::arithmetic::power2::lemma2_to64();
        assert(pow2(0) == 1);
        vstd::arithmetic::div_mod::lemma_div_basics(val as int);
        assert((val as nat) / pow2(0) == val as nat);
    }
    while i < width
        invariant
            0 <= i <= width,
            bits@.len() == i,
            cur == (val as nat) / pow2(i as nat),
            forall|j: int| 0 <= j < i ==> #[trigger] bits@[j] == nth_bit(val as nat, j as nat),
        decreases width - i,
    {
        bits.push(cur % 2 == 1);
        proof {
            vstd::arithmetic::power2::lemma2_to64();
            vstd::arithmetic::power2::lemma_pow2_adds(i as nat, 1);
            vstd::arithmetic::power2::lemma_pow2_pos(i as nat);
            assert(pow2((i + 1) as nat) == pow2(i as nat) * 2);
            vstd::arithmetic::div_mod::lemma_div_denominator(
                val as int,
                pow2(i as nat) as int,
                2,
            );
            assert((val as nat) / pow2((i + 1) as nat) == ((val as nat) / pow2(i as nat)) / 2);
        }
        cur = cur / 2;
        i += 1;
    }
    BVExpr::Const(bits)
}

/// Check that every symbol identifier in a term lies below `n`.
#[verifier::loop_isolation(false)]
fn bv_vars_ok(e: &BVExpr, n: isize) -> (r: bool)
    ensures
        r == bv_vars_in(*e, n as int),
    decreases e,
{
    match e {
        BVExpr::Const(_) => true,
        BVExpr::Symb(ids) => {
            let mut i: usize = 0;
            while i < ids.len()
                invariant
                    i <= ids@.len(),
                    forall|j: int| 0 <= j < i ==> #[trigger] ids@[j] < n,
                decreases ids@.len() - i,
            {
                if ids[i] >= n {
                    proof {
                        assert(*e == BVExpr::Symb(*ids));
                        assert(ids@[i as int] >= n);
                        if bv_vars_in(*e, n as int) {
                            assert(ids@[i as int] < n as int);
                        }
                    }
                    return false;
                }
                i += 1;
            }
            true
        },
        BVExpr::Concat(hi, lo) => bv_vars_ok(&**hi, n) && bv_vars_ok(&**lo, n),
        BVExpr::Slice(x, _, _) => bv_vars_ok(&**x, n),
        BVExpr::Add(x, y) => bv_vars_ok(&**x, n) && bv_vars_ok(&**y, n),
        BVExpr::Sub(x, y) => bv_vars_ok(&**x, n) && bv_vars_ok(&**y, n),
        BVExpr::Mul(x, y) => bv_vars_ok(&**x, n) && bv_vars_ok(&**y, n),
        BVExpr::Rem(x, y) => bv_vars_ok(&**x, n) && bv_vars_ok(&**y, n),
        BVExpr::Ite(c, t, f) => bool_vars_ok(&**c, n) && bv_vars_ok(&**t, n) && bv_vars_ok(
            &**f,
            n,
        ),
    }
}

/// Check that every symbol identifier in a predicate lies below `n`.
pub fn bool_vars_ok(p: &Bool, n: isize) -> (r: bool)
    ensures
        r == bool_vars_in(*p, n as int),
    decreases p,
{
    match p {
        Bool::And(x, y) => bool_vars_ok(&**x, n) && bool_vars_ok(&**y, n),
        Bool::Or(x, y) => bool_vars_ok(&**x, n) && bool_vars_ok(&**y, n),
        Bool::Neg(x) => bool_vars_ok(&**x, n),
        Bool::BVEq(x, y) => bv_vars_ok(&**x, n) && bv_vars_ok(&**y, n),
        Bool::BVLt(x, y) => bv_vars_ok(&**x, n) && bv_vars_ok(&**y, n),
    }
}

/// Round trip through a model: a constant rebuilt from the very bits a
/// term denotes under an assignment satisfies equality with that term
/// under the same assignment. Reading a symbol's bits out of a
/// satisfying valuation and re-encoding them as a constant therefore
/// keeps every asserted equality over that symbol satisfied.
pub proof fn lemma_model_round_trip(x: BVExpr, c: BVExpr, a: spec_fn(int) -> bool)
    requires
        c matches BVExpr::Const(bits) && bits@ == bv_sem(x, a),
    ensures
        bool_sem(Bool::BVEq(Box::new(x), Box::new(c)), a),
{
    match c {
        BVExpr::Const(bits) => {
            assert(bv_sem(c, a) == bits@);
        },
        _ => {},
    }
    assert(bool_sem(Bool::BVEq(Box::new(x), Box::new(c)), a) == (bv_sem(x, a) == bv_sem(c, a)));
}

} // verus!
