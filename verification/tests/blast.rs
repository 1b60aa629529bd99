use ribbit::check::{
    add_clauses_bv_add, add_clauses_bv_sub, check_program, make_clauses, op_from_name, BlastError, Clause, Op, State,
};
use ribbit::syntax::{parse_program, Expr};
use ribbit::vars::{BvVar, PropVar, Sort};

fn blast(src: &str) -> Result<(Vec<Clause>, Vec<BvVar>), BlastError> {
    let (_, prog) = parse_program(src).expect("program parsed");
    check_program(&prog, 0)?;
    let mut counter: usize = 0;
    Ok(make_clauses(prog, &mut counter))
}

fn lit(name: &str, offset: u128, value: bool) -> PropVar {
    PropVar::new(name.to_string(), offset, value)
}

fn sorted_vars(vars: &[BvVar]) -> Vec<(String, Sort, bool)> {
    let mut out: Vec<(String, Sort, bool)> = vars
        .iter()
        .map(|v| (v.owned_name(), *v.get_sort(), v.get_display()))
        .collect();
    out.sort_by(|a, b| a.0.cmp(&b.0));
    out
}

#[test]
fn declaration_makes_a_shown_variable_and_a_unit() {
    let (clauses, vars) = blast("(declare-bv-fun x 3)").expect("blasted");
    assert!(clauses.is_empty());
    assert_eq!(
        sorted_vars(&vars),
        vec![
            ("fresh_name_0".to_string(), Sort::Unit, false),
            ("x".to_string(), Sort::BitVec(3), true),
        ]
    );
}

#[test]
fn function_declaration_makes_only_a_unit() {
    let (clauses, vars) = blast("(declare-bv-fun f 8 8 1)").expect("blasted");
    assert!(clauses.is_empty());
    assert_eq!(sorted_vars(&vars), vec![("fresh_name_0".to_string(), Sort::Unit, false)]);
}

#[test]
fn redeclaration_keeps_one_variable_per_name() {
    let (_, vars) = blast("(declare-bv-fun x 3)(declare-bv-fun x 5)").expect("blasted");
    assert_eq!(
        sorted_vars(&vars),
        vec![
            ("fresh_name_0".to_string(), Sort::Unit, false),
            ("fresh_name_1".to_string(), Sort::Unit, false),
            ("x".to_string(), Sort::BitVec(5), true),
        ]
    );
}

#[test]
fn assertion_of_equality_with_constant() {
    let (clauses, vars) =
        blast("(declare-bv-fun x 3)(assert (eq x (to-bv 5 3)))").expect("blasted");
    // constant: 3, equality: 3 bits of 5 clauses and one closing clause, assertion: 1
    assert_eq!(clauses.len(), 20);
    assert_eq!(clauses[0], vec![lit("fresh_name_1", 0, true)]);
    assert_eq!(clauses[1], vec![lit("fresh_name_1", 1, false)]);
    assert_eq!(clauses[2], vec![lit("fresh_name_1", 2, true)]);
    assert_eq!(
        clauses[3],
        vec![lit("x", 0, false), lit("fresh_name_1", 0, true), lit("fresh_name_2", 0, false)]
    );
    assert_eq!(
        clauses[7],
        vec![lit("fresh_name_2", 0, true), lit("fresh_name_3", 0, false)]
    );
    assert_eq!(
        clauses[18],
        vec![
            lit("fresh_name_3", 0, true),
            lit("fresh_name_2", 0, false),
            lit("fresh_name_2", 1, false),
            lit("fresh_name_2", 2, false),
        ]
    );
    assert_eq!(clauses[19], vec![lit("fresh_name_3", 0, true)]);
    assert_eq!(
        sorted_vars(&vars),
        vec![
            ("fresh_name_0".to_string(), Sort::Unit, false),
            ("fresh_name_1".to_string(), Sort::BitVec(3), false),
            ("fresh_name_2".to_string(), Sort::BitVec(3), false),
            ("fresh_name_3".to_string(), Sort::BitVec(1), false),
            ("fresh_name_4".to_string(), Sort::Unit, false),
            ("x".to_string(), Sort::BitVec(3), true),
        ]
    );
}

#[test]
fn negative_constant_is_twos_complement() {
    let prog = vec![
        Expr::List(vec![
            Expr::Var("declare-bv-fun".to_string()),
            Expr::Var("b".to_string()),
            Expr::Int(3),
        ]),
        Expr::List(vec![
            Expr::Var("assert".to_string()),
            Expr::List(vec![
                Expr::Var("eq".to_string()),
                Expr::Var("b".to_string()),
                Expr::List(vec![Expr::Var("to-bv".to_string()), Expr::Int(-1), Expr::Int(3)]),
            ]),
        ]),
    ];
    assert_eq!(check_program(&prog, 0), Ok(()));
    let mut counter: usize = 0;
    let (clauses, _) = make_clauses(prog, &mut counter);
    assert_eq!(clauses[0], vec![lit("fresh_name_1", 0, true)]);
    assert_eq!(clauses[1], vec![lit("fresh_name_1", 1, true)]);
    assert_eq!(clauses[2], vec![lit("fresh_name_1", 2, true)]);
}

#[test]
fn minus_one_reads_as_a_name() {
    assert_eq!(
        blast("(declare-bv-fun b 1)(assert (eq b (to-bv -1 1)))"),
        Err(BlastError::UsedBeforeDefinition("-1".to_string()))
    );
}

#[test]
fn bitwise_and_clauses() {
    let (clauses, _) =
        blast("(declare-bv-fun x 2)(declare-bv-fun y 2)(assert (eq x (bv-and x y)))").expect("blasted");
    assert_eq!(
        clauses[0],
        vec![lit("x", 0, false), lit("y", 0, false), lit("fresh_name_2", 0, true)]
    );
    assert_eq!(clauses[1], vec![lit("x", 0, true), lit("fresh_name_2", 0, false)]);
    assert_eq!(clauses[2], vec![lit("y", 0, true), lit("fresh_name_2", 0, false)]);
    assert_eq!(
        clauses[3],
        vec![lit("x", 1, false), lit("y", 1, false), lit("fresh_name_2", 1, true)]
    );
}

#[test]
fn error_top_level_not_unit() {
    assert_eq!(blast("(declare-bv-fun x 1) x"), Err(BlastError::TopLevelNotUnit));
}

#[test]
fn error_lone_number() {
    assert_eq!(blast("5"), Err(BlastError::LoneNumber));
    assert_eq!(
        blast("(declare-bv-fun x 1)(assert (eq x 1))"),
        Err(BlastError::LoneNumber)
    );
}

#[test]
fn error_unknown_list_expr() {
    assert_eq!(blast("((declare-bv-fun x 1))"), Err(BlastError::UnknownListExpr));
    assert_eq!(blast("(5)"), Err(BlastError::UnknownListExpr));
}

#[test]
fn error_unknown_function() {
    assert_eq!(
        blast("(declare-bv-fun x 1)(assert (if x x x))"),
        Err(BlastError::UnknownFunction("if".to_string()))
    );
}

#[test]
fn error_used_before_definition() {
    assert_eq!(
        blast("(assert y)"),
        Err(BlastError::UsedBeforeDefinition("y".to_string()))
    );
}

#[test]
fn error_expected_int() {
    assert_eq!(blast("(declare-bv-fun x -1)"), Err(BlastError::ExpectedInt));
    assert_eq!(blast("(declare-bv-fun f 8 y)"), Err(BlastError::ExpectedInt));
}

#[test]
fn error_wrong_arg_count() {
    assert_eq!(
        blast("(declare-bv-fun x 2)(assert (eq x))"),
        Err(BlastError::WrongArgCount(Op::Eq))
    );
}

#[test]
fn error_mismatched_widths() {
    assert_eq!(
        blast("(declare-bv-fun x 2)(declare-bv-fun y 3)(assert (eq x y))"),
        Err(BlastError::MismatchedWidths(Op::Eq))
    );
    assert_eq!(
        blast("(declare-bv-fun x 1)(assert (eq x (declare-bv-fun y 1)))"),
        Err(BlastError::MismatchedWidths(Op::Eq))
    );
}

#[test]
fn error_wrong_sizes() {
    assert_eq!(
        blast("(declare-bv-fun x 2)(assert x)"),
        Err(BlastError::WrongSizes(Op::Assert))
    );
    assert_eq!(
        blast("(declare-bv-fun x 2)(declare-bv-fun y 1)(assert (and x y))"),
        Err(BlastError::WrongSizes(Op::And))
    );
}

#[test]
fn error_zero_width_comparison() {
    assert_eq!(
        blast("(declare-bv-fun x 0)(assert (ult x x))"),
        Err(BlastError::ZeroWidthComparison)
    );
}

#[test]
fn error_to_bv_too_wide() {
    assert_eq!(
        blast("(declare-bv-fun x 1)(assert (eq (to-bv 1 129) (to-bv 1 129)))"),
        Err(BlastError::ToBvTooWide)
    );
}

#[test]
fn first_error_wins() {
    assert_eq!(
        blast("(assert y)(assert z)"),
        Err(BlastError::UsedBeforeDefinition("y".to_string()))
    );
}

#[test]
fn builtin_names() {
    assert_eq!(op_from_name(&"assert".to_string()), Some(Op::Assert));
    assert_eq!(op_from_name(&"ugt".to_string()), Some(Op::Ugt));
    assert_eq!(op_from_name(&"bv-xnor".to_string()), Some(Op::BvXnor));
    assert_eq!(op_from_name(&"bv-sub".to_string()), Some(Op::BvSub));
    assert_eq!(op_from_name(&"ite".to_string()), Some(Op::Ite));
    assert_eq!(op_from_name(&"implies".to_string()), Some(Op::Implies));
    assert_eq!(op_from_name(&"lt".to_string()), None);
}

#[test]
fn ite_clauses() {
    let (clauses, _) = blast(
        "(declare-bv-fun c 1)(declare-bv-fun x 2)(declare-bv-fun y 2)(assert (eq x (ite c x y)))",
    )
    .expect("blasted");
    assert_eq!(
        clauses[0],
        vec![lit("c", 0, false), lit("x", 0, false), lit("fresh_name_3", 0, true)]
    );
    assert_eq!(
        clauses[7],
        vec![lit("c", 0, true), lit("y", 1, true), lit("fresh_name_3", 1, false)]
    );
}

#[test]
fn ite_argument_errors() {
    assert_eq!(
        blast("(declare-bv-fun c 1)(declare-bv-fun x 2)(assert (eq x (ite c x)))"),
        Err(BlastError::WrongArgCount(Op::Ite))
    );
    assert_eq!(
        blast("(declare-bv-fun c 2)(declare-bv-fun x 2)(assert (eq x (ite c x x)))"),
        Err(BlastError::WrongSizes(Op::Ite))
    );
    assert_eq!(
        blast("(declare-bv-fun c 1)(declare-bv-fun x 2)(declare-bv-fun y 3)(assert (eq x (ite c x y)))"),
        Err(BlastError::MismatchedWidths(Op::Ite))
    );
}

#[test]
fn implies_needs_two_flags() {
    assert_eq!(
        blast("(declare-bv-fun p 1)(declare-bv-fun q 2)(assert (implies p q))"),
        Err(BlastError::WrongSizes(Op::Implies))
    );
}

#[test]
fn negations_take_one_or_two_operands() {
    assert!(blast("(declare-bv-fun p 1)(assert (not p p))").is_ok());
    assert!(blast("(declare-bv-fun x 2)(assert (eq x (bv-not x x)))").is_ok());
    assert_eq!(
        blast("(declare-bv-fun p 1)(declare-bv-fun x 2)(assert (not p x))"),
        Err(BlastError::WrongSizes(Op::Not))
    );
    assert_eq!(
        blast("(declare-bv-fun p 1)(assert (not p p p))"),
        Err(BlastError::WrongSizes(Op::Not))
    );
    assert_eq!(
        blast("(declare-bv-fun x 2)(declare-bv-fun y 3)(assert (eq x (bv-not x y)))"),
        Err(BlastError::MismatchedWidths(Op::BvNot))
    );
    assert_eq!(
        blast("(declare-bv-fun x 2)(assert (eq x (bv-not x x x)))"),
        Err(BlastError::WrongArgCount(Op::BvNot))
    );
}

#[test]
fn checker_accepts_what_blasts() {
    let (_, prog) = parse_program("(declare-bv-fun x 4)(assert (ule x (to-bv 3 4)))").expect("parsed");
    assert_eq!(check_program(&prog, 0), Ok(()));
    let mut counter: usize = 0;
    let (clauses, vars) = make_clauses(prog, &mut counter);
    assert!(!clauses.is_empty());
    assert!(vars.iter().any(|v| v.owned_name() == "x"));
}

#[test]
fn hidden_names_continue_across_programs() {
    let src = "(declare-bv-fun b 3)(assert (eq b (to-bv 7 3)))";
    let mut counter: usize = 0;
    let (_, first) = parse_program(src).expect("parsed");
    assert_eq!(check_program(&first, counter), Ok(()));
    let (clauses, _) = make_clauses(first, &mut counter);
    assert_eq!(clauses[0], vec![lit("fresh_name_1", 0, true)]);
    let after_first = counter;
    assert!(after_first > 1);
    let (_, second) = parse_program(src).expect("parsed");
    assert_eq!(check_program(&second, counter), Ok(()));
    let (clauses, _) = make_clauses(second, &mut counter);
    let name = format!("fresh_name_{}", after_first + 1);
    assert_eq!(clauses[0], vec![lit(&name, 0, true)]);
    assert_eq!(counter, 2 * after_first);
}

#[test]
fn sum_then_difference_has_the_width_of_its_arguments() {
    let mut state = State::new();
    let x = state.mk_bv("x".to_string(), Sort::BitVec(3), true);
    let y = state.mk_bv("y".to_string(), Sort::BitVec(3), true);
    let sum = add_clauses_bv_add(&mut state, &vec![x.clone(), y.clone()]);
    assert_eq!(*sum.get_sort(), Sort::BitVec(3));
    assert_eq!(sum.owned_name(), "fresh_name_0");
    assert!(!sum.get_display());
    let diff = add_clauses_bv_sub(&mut state, &vec![sum, y]);
    assert_eq!(*diff.get_sort(), Sort::BitVec(3));
    assert_eq!(diff.owned_name(), "fresh_name_2");
    assert!(state.to_string().contains("fresh_name_3"));
}
