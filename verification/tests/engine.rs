use stupid_smt::cnf::ConjNormalFormula;
use stupid_smt::cnf::flatperm;
use stupid_smt::cnf::nnf_to_cnf;
use stupid_smt::expr::BVExpr;
use stupid_smt::expr::Bool;
use stupid_smt::expr::bvconst;
use stupid_smt::expr::bvsym;
use stupid_smt::expr::encode_bool;
use stupid_smt::expr::encode_bv;
use stupid_smt::logic::Formula;
use stupid_smt::solver::CheckResult;
use stupid_smt::solver::Context;
use stupid_smt::solver::SmtError;

fn v(i: isize) -> Formula {
    Formula::Var(i)
}

fn neg(f: Formula) -> Formula {
    Formula::Neg(Box::new(f))
}

fn fand(cs: Vec<Formula>) -> Formula {
    Formula::And(cs)
}

fn forr(cs: Vec<Formula>) -> Formula {
    Formula::Or(cs)
}

fn samples() -> Vec<Formula> {
    vec![
        Formula::True,
        Formula::False,
        v(1),
        neg(v(2)),
        neg(neg(v(3))),
        fand(vec![v(1), v(2), v(1)]),
        forr(vec![v(1), Formula::False, v(2)]),
        neg(fand(vec![v(1), forr(vec![v(2), v(3)])])),
        fand(vec![forr(vec![v(1), v(2)]), neg(forr(vec![v(1), v(3)])), Formula::True]),
        forr(vec![fand(vec![v(1), v(2)]), fand(vec![neg(v(1)), v(3)])]),
        neg(neg(neg(forr(vec![v(1), fand(vec![v(2), neg(v(3))])])))),
    ]
}

fn all_assignments(n: usize) -> Vec<Vec<bool>> {
    let mut out = Vec::new();
    for mask in 0..(1usize << n) {
        let mut m = Vec::new();
        for b in 0..n {
            m.push((mask >> b) & 1 == 1);
        }
        out.push(m);
    }
    out
}

/// A stand-in for the external SAT engine: exhaustive search.
fn brute_force(nvars: usize, cnf: &ConjNormalFormula) -> Option<Vec<bool>> {
    for m in all_assignments(nvars) {
        if cnf.holds_under(&m) {
            return Some(m);
        }
    }
    None
}

fn contains_neg(f: &Formula) -> bool {
    match f {
        Formula::True | Formula::False | Formula::Var(_) => false,
        Formula::Neg(_) => true,
        Formula::And(cs) | Formula::Or(cs) => cs.iter().any(contains_neg),
    }
}

#[test]
fn normalization_is_idempotent() {
    for f in samples() {
        let once = Formula::simpl_demorgan(&f);
        let twice = Formula::simpl_demorgan(&once);
        assert_eq!(once, twice);
    }
}

#[test]
fn normalization_gives_negation_normal_form() {
    // negation is pushed into the identifier sign, so no negation
    // node survives at all
    for f in samples() {
        let s = Formula::simpl_demorgan(&f);
        assert!(!contains_neg(&s));
    }
}

#[test]
fn normalization_keeps_truth_value() {
    for f in samples() {
        let s = Formula::simpl_demorgan(&f);
        for m in all_assignments(3) {
            assert_eq!(f.eval_under(&m), s.eval_under(&m));
        }
    }
}

#[test]
fn cnf_equivalent_to_formula_exhaustively() {
    for f in samples() {
        let s = Formula::simpl_demorgan(&f);
        let cnf = nnf_to_cnf(&s);
        for m in all_assignments(3) {
            assert_eq!(f.eval_under(&m), cnf.holds_under(&m));
        }
    }
}

#[test]
fn tautological_clause_is_pruned() {
    // x1 or (not x1): the cross-join forms the clause {1, -1}, which
    // pruning drops, leaving the empty clause set, i.e. true
    let f = forr(vec![v(1), v(-1)]);
    let cnf = nnf_to_cnf(&f);
    assert_eq!(cnf.get_inner().len(), 0);
    for m in all_assignments(1) {
        assert!(cnf.holds_under(&m));
        assert_eq!(f.eval_under(&m), cnf.holds_under(&m));
    }
}

#[test]
fn pruning_keeps_truth_value() {
    // the same conversion with and without a tautological clause in
    // the input agrees on every assignment
    let with_taut = fand(vec![forr(vec![v(1), v(-1)]), forr(vec![v(2), v(3)])]);
    let without = forr(vec![v(2), v(3)]);
    let c1 = nnf_to_cnf(&with_taut);
    let c2 = nnf_to_cnf(&without);
    for m in all_assignments(3) {
        assert_eq!(c1.holds_under(&m), c2.holds_under(&m));
    }
}

#[test]
fn cross_join_count_is_the_product() {
    let sss: Vec<Vec<Vec<isize>>> = vec![
        vec![vec![1], vec![2]],
        vec![vec![3], vec![4], vec![5]],
    ];
    assert_eq!(flatperm(&sss).len(), 6);
    // overlapping literals still give the full pre-pruning product
    let sss2: Vec<Vec<Vec<isize>>> = vec![vec![vec![1], vec![1, 2]], vec![vec![2]]];
    assert_eq!(flatperm(&sss2).len(), 2);
    // no child clause sets: the single empty clause
    let sss3: Vec<Vec<Vec<isize>>> = vec![];
    let r = flatperm(&sss3);
    assert_eq!(r.len(), 1);
    assert_eq!(r[0].len(), 0);
}

#[test]
fn double_double_negation_restores_the_formula() {
    let f = forr(vec![v(1), v(2)]);
    let g = neg(neg(neg(neg(forr(vec![v(1), v(2)])))));
    assert_eq!(Formula::simpl_demorgan(&g), f);
    assert_eq!(Formula::simpl_demorgan(&g), Formula::simpl_demorgan(&f));
}

#[test]
fn builders_have_their_truth_tables() {
    let m = vec![true, false];
    let a = v(1);
    let b = v(2);
    assert_eq!(Formula::and(&a, &b).eval_under(&m), false);
    assert_eq!(Formula::or(&a, &b).eval_under(&m), true);
    assert_eq!(Formula::not(&a).eval_under(&m), false);
    assert_eq!(Formula::xor(&a, &b).eval_under(&m), true);
    assert_eq!(Formula::xor(&a, &a).eval_under(&m), false);
    assert_eq!(Formula::iff(&a, &b).eval_under(&m), false);
    assert_eq!(Formula::iff(&b, &b).eval_under(&m), true);
}

#[test]
fn builders_splice_matching_operands() {
    let ab = Formula::and(&v(1), &v(2));
    let abc = Formula::and(&ab, &v(3));
    assert_eq!(abc, fand(vec![v(1), v(2), v(3)]));
    let o = Formula::or(&v(1), &Formula::or(&v(2), &v(3)));
    assert_eq!(o, forr(vec![v(1), v(2), v(3)]));
}

#[test]
fn constants_encode_little_endian() {
    let c = bvconst(11, 4);
    match &c {
        BVExpr::Const(bits) => {
            assert_eq!(bits, &vec![true, true, false, true]);
        },
        _ => panic!("expected a constant"),
    }
    let bits = encode_bv(&c).unwrap();
    let empty: Vec<bool> = Vec::new();
    let vals: Vec<bool> = bits.iter().map(|f| f.eval_under(&empty)).collect();
    assert_eq!(vals, vec![true, true, false, true]);
}

fn const_value(e: &BVExpr) -> usize {
    let bits = encode_bv(e).unwrap();
    let empty: Vec<bool> = Vec::new();
    let mut val = 0usize;
    for (i, f) in bits.iter().enumerate() {
        if f.eval_under(&empty) {
            val += 1 << i;
        }
    }
    val
}

#[test]
fn adder_is_exact_on_all_4bit_pairs() {
    for a in 0..16usize {
        for b in 0..16usize {
            let e = BVExpr::Add(Box::new(bvconst(a, 4)), Box::new(bvconst(b, 4)));
            assert_eq!(const_value(&e), (a + b) % 16);
        }
    }
}

#[test]
fn multiplication_wraps_around() {
    for a in 0..8usize {
        for b in 0..8usize {
            let e = BVExpr::Mul(Box::new(bvconst(a, 3)), Box::new(bvconst(b, 3)));
            assert_eq!(const_value(&e), (a * b) % 8);
        }
    }
}

#[test]
fn subtraction_wraps_around() {
    for a in 0..8usize {
        for b in 0..8usize {
            let e = BVExpr::Sub(Box::new(bvconst(a, 3)), Box::new(bvconst(b, 3)));
            assert_eq!(const_value(&e), (a + 8 - b) % 8);
        }
    }
}

#[test]
fn remainder_is_exact_on_2bit_pairs() {
    for a in 0..4usize {
        for b in 1..4usize {
            let e = BVExpr::Rem(Box::new(bvconst(a, 2)), Box::new(bvconst(b, 2)));
            assert_eq!(const_value(&e), a % b);
        }
    }
}

#[test]
fn remainder_by_literal_zero_is_rejected() {
    let e = BVExpr::Rem(Box::new(bvconst(5, 3)), Box::new(bvconst(0, 3)));
    assert_eq!(encode_bv(&e).unwrap_err(), SmtError::DivisionByZero);
}

#[test]
fn concat_and_slice_move_the_right_bits() {
    // concat: most-significant operand first; low bits come from the
    // second operand
    let e = BVExpr::Concat(Box::new(bvconst(0b101, 3)), Box::new(bvconst(0b0011, 4)));
    assert_eq!(const_value(&e), 0b101_0011);
    let s = BVExpr::Slice(Box::new(bvconst(0b110101, 6)), 1, 4);
    assert_eq!(const_value(&s), 0b010);
}

#[test]
fn conditional_select_picks_a_branch() {
    let t = bvconst(9, 4);
    let f = bvconst(4, 4);
    let cond_true = Bool::BVEq(Box::new(bvconst(1, 2)), Box::new(bvconst(1, 2)));
    let e = BVExpr::Ite(Box::new(cond_true), Box::new(t), Box::new(f));
    assert_eq!(const_value(&e), 9);
    let cond_false = Bool::BVEq(Box::new(bvconst(1, 2)), Box::new(bvconst(2, 2)));
    let e2 = BVExpr::Ite(Box::new(cond_false), Box::new(bvconst(9, 4)), Box::new(bvconst(4, 4)));
    assert_eq!(const_value(&e2), 4);
}

#[test]
fn unsigned_less_than_on_constants() {
    let lt = Bool::BVLt(Box::new(bvconst(2, 4)), Box::new(bvconst(5, 4)));
    let f = encode_bool(&lt).unwrap();
    let empty: Vec<bool> = Vec::new();
    assert!(f.eval_under(&empty));
    let gt = Bool::BVLt(Box::new(bvconst(5, 4)), Box::new(bvconst(2, 4)));
    let g = encode_bool(&gt).unwrap();
    assert!(!g.eval_under(&empty));
    let eq = Bool::BVLt(Box::new(bvconst(5, 4)), Box::new(bvconst(5, 4)));
    let h = encode_bool(&eq).unwrap();
    assert!(!h.eval_under(&empty));
}

#[test]
fn equal_constraints_are_satisfiable() {
    // declare a (width 4); assert a == 3 twice; expect Sat with a = 3
    let mut ctx = Context::new();
    let a = bvsym(&mut ctx, "a", 4).unwrap();
    let mut s = ctx.solver();
    let c1 = Bool::BVEq(Box::new(a), Box::new(bvconst(3, 4)));
    s.assert_constraint(&c1).unwrap();
    let c2 = Bool::BVEq(Box::new(BVExpr::Symb(vec![1, 2, 3, 4])), Box::new(bvconst(3, 4)));
    s.assert_constraint(&c2).unwrap();
    let cnf = s.check_cnf();
    let outcome = brute_force(s.num_vars() as usize, &cnf);
    match s.conclude(outcome.as_ref()) {
        CheckResult::Sat(model) => {
            let bits = model.value("a").unwrap();
            assert_eq!(bits, &vec![true, true, false, false]);
            assert!(model.value("b").is_none());
        },
        CheckResult::Unsat => panic!("expected satisfiable"),
    }
}

#[test]
fn conflicting_constraints_are_unsatisfiable() {
    let mut ctx = Context::new();
    let a = bvsym(&mut ctx, "a", 4).unwrap();
    let mut s = ctx.solver();
    let c1 = Bool::BVEq(Box::new(a), Box::new(bvconst(3, 4)));
    s.assert_constraint(&c1).unwrap();
    let c2 = Bool::BVEq(Box::new(BVExpr::Symb(vec![1, 2, 3, 4])), Box::new(bvconst(1, 4)));
    s.assert_constraint(&c2).unwrap();
    let cnf = s.check_cnf();
    let outcome = brute_force(s.num_vars() as usize, &cnf);
    assert!(outcome.is_none());
    match s.conclude(outcome.as_ref()) {
        CheckResult::Sat(_) => panic!("expected unsatisfiable"),
        CheckResult::Unsat => {},
    }
}

#[test]
fn model_round_trip_satisfies_the_assertions() {
    // reconstruct the model value of a symbol, re-encode it as a
    // constant, and the re-encoded equality still holds
    let mut ctx = Context::new();
    let a = bvsym(&mut ctx, "a", 4).unwrap();
    let mut s = ctx.solver();
    let five = bvconst(5, 4);
    s.assert_constraint(&Bool::BVEq(Box::new(a), Box::new(five))).unwrap();
    let cnf = s.check_cnf();
    let outcome = brute_force(s.num_vars() as usize, &cnf).expect("satisfiable");
    let model = match s.conclude(Some(&outcome)) {
        CheckResult::Sat(model) => model,
        CheckResult::Unsat => panic!("expected satisfiable"),
    };
    let bits = model.value("a").unwrap().clone();
    let again = Bool::BVEq(
        Box::new(BVExpr::Symb(vec![1, 2, 3, 4])),
        Box::new(BVExpr::Const(bits)),
    );
    let f = encode_bool(&again).unwrap();
    assert!(f.eval_under(&outcome));
}

#[test]
fn declaration_errors_are_reported() {
    let mut ctx = Context::new();
    assert!(bvsym(&mut ctx, "a", 4).is_ok());
    assert_eq!(bvsym(&mut ctx, "a", 2).unwrap_err(), SmtError::DuplicateSymbol);
    assert_eq!(bvsym(&mut ctx, "b", 0).unwrap_err(), SmtError::ZeroWidth);
    assert_eq!(bvsym(&mut ctx, "c", -3).unwrap_err(), SmtError::ZeroWidth);
    assert!(bvsym(&mut ctx, "b", 1).is_ok());
}

#[test]
fn encoding_errors_are_reported() {
    let mismatch = BVExpr::Add(Box::new(bvconst(1, 3)), Box::new(bvconst(1, 4)));
    assert_eq!(encode_bv(&mismatch).unwrap_err(), SmtError::WidthMismatch);
    let bad_slice = BVExpr::Slice(Box::new(bvconst(1, 4)), 2, 7);
    assert_eq!(encode_bv(&bad_slice).unwrap_err(), SmtError::SliceOutOfRange);
    let empty_slice = BVExpr::Slice(Box::new(bvconst(1, 4)), 2, 2);
    assert_eq!(encode_bv(&empty_slice).unwrap_err(), SmtError::SliceOutOfRange);
    let zero = BVExpr::Const(vec![]);
    assert_eq!(encode_bv(&zero).unwrap_err(), SmtError::ZeroWidth);
    let bad_sym = BVExpr::Symb(vec![0]);
    assert_eq!(encode_bv(&bad_sym).unwrap_err(), SmtError::BadSymbol);
    let eq = Bool::BVEq(Box::new(bvconst(1, 2)), Box::new(bvconst(1, 3)));
    assert_eq!(encode_bool(&eq).unwrap_err(), SmtError::WidthMismatch);
}

#[test]
fn the_first_failure_in_encoding_order_is_reported() {
    // a failing operand wins over the node's own width mismatch
    let inner_zero = BVExpr::Add(Box::new(BVExpr::Const(vec![])), Box::new(bvconst(1, 4)));
    assert_eq!(encode_bv(&inner_zero).unwrap_err(), SmtError::ZeroWidth);
    let inner_sym = BVExpr::Mul(Box::new(BVExpr::Symb(vec![-2])), Box::new(bvconst(1, 3)));
    assert_eq!(encode_bv(&inner_sym).unwrap_err(), SmtError::BadSymbol);
    // a failing left operand wins over a failing right operand
    let both = BVExpr::Sub(
        Box::new(BVExpr::Symb(vec![0])),
        Box::new(BVExpr::Const(vec![])),
    );
    assert_eq!(encode_bv(&both).unwrap_err(), SmtError::BadSymbol);
    // in a predicate the operand's failure comes through unchanged
    let pred = Bool::BVLt(
        Box::new(BVExpr::Slice(Box::new(bvconst(1, 2)), 0, 5)),
        Box::new(bvconst(1, 2)),
    );
    assert_eq!(encode_bool(&pred).unwrap_err(), SmtError::SliceOutOfRange);
}

#[test]
fn unbound_variable_is_rejected_by_the_solver() {
    let ctx = Context::new();
    let mut s = ctx.solver();
    let c = Bool::BVEq(Box::new(BVExpr::Symb(vec![5])), Box::new(bvconst(1, 1)));
    assert_eq!(s.assert_constraint(&c).unwrap_err(), SmtError::UnboundVariable);
}

#[test]
fn structural_equality_and_copies() {
    let f = fand(vec![v(1), forr(vec![v(2), neg(v(3))])]);
    let g = f.dup();
    assert!(f.equals(&g));
    assert_eq!(f, g);
    assert!(!f.equals(&v(1)));
}
