use ribbit::check::{check_program, make_clauses};
use ribbit::sat::{bits_to_string, bits_to_value, get_bits, number_vars, EncodeError, Numbering, SatLit};
use ribbit::syntax::parse_program;
use ribbit::vars::{BvVar, PropVar, Sort};

fn bv(name: &str, sort: Sort) -> BvVar {
    BvVar::new(name.to_string(), sort, true)
}

/// Every model of the numbered clauses over `n` variables.
fn models(n: usize, clauses: &[Vec<SatLit>]) -> Vec<Vec<bool>> {
    let mut out = Vec::new();
    for bits in 0u64..(1u64 << n) {
        let m: Vec<bool> = (0..n).map(|i| (bits >> i) & 1 == 1).collect();
        let ok = clauses
            .iter()
            .all(|c| c.iter().any(|l| m[l.var] != l.negated));
        if ok {
            out.push(m);
        }
    }
    out
}

struct Solved {
    vars: Vec<BvVar>,
    numbering: Numbering,
    models: Vec<Vec<bool>>,
}

fn solve(src: &str) -> Solved {
    let (_, prog) = parse_program(src).expect("program parsed");
    assert_eq!(check_program(&prog, 0), Ok(()));
    let mut counter: usize = 0;
    let (clauses, vars) = make_clauses(prog, &mut counter);
    let numbering = number_vars(&vars).expect("numbered");
    let enc = numbering.encode_clauses(&clauses).expect("encoded");
    let n = numbering.num_vars();
    assert!(n <= 20, "too many bits to enumerate: {}", n);
    let ms = models(n, &enc);
    Solved { vars, numbering, models: ms }
}

fn value(s: &Solved, m: &Vec<bool>, name: &str) -> u128 {
    let var = s.vars.iter().find(|v| v.owned_name() == name).expect("variable");
    let bits = s.numbering.var_bits(&name.to_string(), get_bits(var.get_sort()), m).expect("bits");
    bits_to_value(&bits).expect("value")
}

#[test]
fn get_bits_of_sorts() {
    assert_eq!(get_bits(&Sort::Unit), 0);
    assert_eq!(get_bits(&Sort::BitVec(17)), 17);
}

#[test]
fn numbering_follows_the_order_of_variables() {
    let vars = vec![bv("x", Sort::BitVec(2)), bv("u", Sort::Unit), bv("y", Sort::BitVec(3))];
    let n = number_vars(&vars).expect("numbered");
    assert_eq!(n.num_vars(), 5);
    let model = vec![true, false, false, true, true];
    assert_eq!(n.var_bits(&"x".to_string(), 2, &model), Some(vec![true, false]));
    assert_eq!(n.var_bits(&"y".to_string(), 3, &model), Some(vec![false, true, true]));
    assert_eq!(n.var_bits(&"u".to_string(), 0, &model), Some(vec![]));
    assert_eq!(n.var_bits(&"z".to_string(), 1, &model), None);
    assert_eq!(n.var_bits(&"x".to_string(), 3, &model), None);
    assert_eq!(n.var_bits(&"y".to_string(), 3, &vec![true; 4]), None);
}

#[test]
fn numbering_of_nothing() {
    let n = number_vars(&vec![]).expect("numbered");
    assert_eq!(n.num_vars(), 0);
}

#[test]
fn numbering_with_too_many_bits() {
    let vars = vec![bv("x", Sort::BitVec(u128::MAX))];
    assert!(matches!(number_vars(&vars), Err(EncodeError::TooManyBits)));
}

#[test]
fn encoding_literals() {
    let vars = vec![bv("x", Sort::BitVec(2)), bv("y", Sort::BitVec(3))];
    let n = number_vars(&vars).expect("numbered");
    let clause = vec![
        PropVar::new("y".to_string(), 1, true),
        PropVar::new("x".to_string(), 0, false),
    ];
    assert_eq!(
        n.encode_clause(&clause),
        Ok(vec![SatLit { var: 3, negated: false }, SatLit { var: 0, negated: true }])
    );
    assert_eq!(
        n.encode_clause(&vec![PropVar::new("y".to_string(), 3, true)]),
        Err(EncodeError::UnknownBit)
    );
    assert_eq!(
        n.encode_clause(&vec![PropVar::new("w".to_string(), 0, true)]),
        Err(EncodeError::UnknownBit)
    );
    assert_eq!(
        n.encode_clauses(&vec![clause.clone(), vec![]]),
        Ok(vec![vec![SatLit { var: 3, negated: false }, SatLit { var: 0, negated: true }], vec![]])
    );
    assert_eq!(
        n.encode_clauses(&vec![clause, vec![PropVar::new("w".to_string(), 0, true)]]),
        Err(EncodeError::UnknownBit)
    );
}

#[test]
fn bits_to_value_reads_bit_zero_first() {
    assert_eq!(bits_to_value(&vec![true, false, true]), Some(5));
    assert_eq!(bits_to_value(&vec![]), Some(0));
    assert_eq!(bits_to_value(&vec![true; 128]), Some(u128::MAX));
    assert_eq!(bits_to_value(&vec![false; 129]), None);
}

#[test]
fn bits_to_string_writes_most_significant_first() {
    assert_eq!(bits_to_string(&vec![true, false, false]), "001");
    assert_eq!(bits_to_string(&vec![]), "");
    assert_eq!(bits_to_string(&vec![false, true, true, true]), "1110");
}

#[test]
fn asserted_equality_with_constant_fixes_the_value() {
    let s = solve("(declare-bv-fun x 2)(assert (eq x (to-bv 2 2)))");
    assert!(!s.models.is_empty());
    for m in &s.models {
        assert_eq!(value(&s, m, "x"), 2);
    }
}

#[test]
fn asserted_less_than_holds_in_every_model() {
    let s = solve("(declare-bv-fun x 2)(declare-bv-fun y 2)(assert (ult x y))");
    let mut seen = vec![vec![false; 4]; 4];
    for m in &s.models {
        let x = value(&s, m, "x");
        let y = value(&s, m, "y");
        assert!(x < y);
        seen[x as usize][y as usize] = true;
    }
    for x in 0..4 {
        for y in 0..4 {
            assert_eq!(seen[x][y], x < y);
        }
    }
}

#[test]
fn comparisons_agree_with_unsigned_order() {
    for (op, f) in [
        ("ule", (|x: u128, y: u128| x <= y) as fn(u128, u128) -> bool),
        ("ugt", |x, y| x > y),
        ("uge", |x, y| x >= y),
        ("ne", |x, y| x != y),
    ] {
        let s = solve(&format!("(declare-bv-fun x 2)(declare-bv-fun y 2)(assert ({} x y))", op));
        let mut seen = vec![vec![false; 4]; 4];
        for m in &s.models {
            let x = value(&s, m, "x");
            let y = value(&s, m, "y");
            assert!(f(x, y), "{} {} {}", op, x, y);
            seen[x as usize][y as usize] = true;
        }
        for x in 0..4u128 {
            for y in 0..4u128 {
                assert_eq!(seen[x as usize][y as usize], f(x, y), "{} {} {}", op, x, y);
            }
        }
    }
}

#[test]
fn addition_wraps_around() {
    let s = solve(
        "(declare-bv-fun x 2)(declare-bv-fun y 2)(declare-bv-fun z 2)(assert (eq z (bv-add x y)))",
    );
    let mut count = 0;
    for m in &s.models {
        let x = value(&s, m, "x");
        let y = value(&s, m, "y");
        let z = value(&s, m, "z");
        assert_eq!(z, (x + y) % 4);
        count += 1;
    }
    assert_eq!(count, 16);
}

#[test]
fn subtraction_wraps_around() {
    let s = solve(
        "(declare-bv-fun x 2)(declare-bv-fun y 2)(declare-bv-fun z 2)(assert (eq z (bv-sub x y)))",
    );
    assert!(!s.models.is_empty());
    for m in &s.models {
        let x = value(&s, m, "x");
        let y = value(&s, m, "y");
        let z = value(&s, m, "z");
        assert_eq!(z, (x + 4 - y) % 4);
    }
}

#[test]
fn bitwise_operations() {
    for (op, f) in [
        ("bv-and", (|x: u128, y: u128| x & y) as fn(u128, u128) -> u128),
        ("bv-or", |x, y| x | y),
        ("bv-xor", |x, y| x ^ y),
        ("bv-nand", |x, y| !(x & y) & 3),
        ("bv-nor", |x, y| !(x | y) & 3),
        ("bv-xnor", |x, y| !(x ^ y) & 3),
    ] {
        let s = solve(&format!(
            "(declare-bv-fun x 2)(declare-bv-fun y 2)(declare-bv-fun z 2)(assert (eq z ({} x y)))",
            op
        ));
        assert_eq!(s.models.len(), 16, "{}", op);
        for m in &s.models {
            let x = value(&s, m, "x");
            let y = value(&s, m, "y");
            let z = value(&s, m, "z");
            assert_eq!(z, f(x, y), "{}", op);
        }
    }
}

#[test]
fn bitwise_not_and_boolean_connectives() {
    let s = solve("(declare-bv-fun x 2)(declare-bv-fun z 2)(assert (eq z (bv-not x)))");
    assert_eq!(s.models.len(), 4);
    for m in &s.models {
        assert_eq!(value(&s, m, "z"), !value(&s, m, "x") & 3);
    }
    let s = solve("(declare-bv-fun p 1)(declare-bv-fun q 1)(assert (not (and p q)))(assert (or p q))");
    for m in &s.models {
        let p = value(&s, m, "p");
        let q = value(&s, m, "q");
        assert!(p + q == 1);
    }
    let s = solve("(declare-bv-fun p 1)(declare-bv-fun q 1)(assert (xor p q))");
    assert!(!s.models.is_empty());
    for m in &s.models {
        assert_ne!(value(&s, m, "p"), value(&s, m, "q"));
    }
}

#[test]
fn contradiction_has_no_model() {
    let s = solve("(declare-bv-fun x 1)(assert (eq x (to-bv 1 1)))(assert (eq x (to-bv 0 1)))");
    assert!(s.models.is_empty());
}

#[test]
fn implies_is_material_implication() {
    let s = solve("(declare-bv-fun p 1)(declare-bv-fun q 1)(declare-bv-fun r 1)(assert (eq r (implies p q)))");
    assert_eq!(s.models.len(), 4);
    for m in &s.models {
        let p = value(&s, m, "p") == 1;
        let q = value(&s, m, "q") == 1;
        assert_eq!(value(&s, m, "r") == 1, !p || q);
    }
}

#[test]
fn ite_chooses_by_the_condition() {
    let s = solve(
        "(declare-bv-fun c 1)(declare-bv-fun x 2)(declare-bv-fun y 2)(declare-bv-fun z 2)(assert (eq z (ite c x y)))",
    );
    assert_eq!(s.models.len(), 32);
    for m in &s.models {
        let c = value(&s, m, "c");
        let x = value(&s, m, "x");
        let y = value(&s, m, "y");
        assert_eq!(value(&s, m, "z"), if c == 1 { x } else { y });
    }
}

#[test]
fn subtraction_undoes_addition() {
    let s = solve(
        "(declare-bv-fun x 1)(declare-bv-fun y 1)(declare-bv-fun z 1)(assert (eq z (bv-sub (bv-add x y) y)))",
    );
    assert_eq!(s.models.len(), 4);
    for m in &s.models {
        assert_eq!(value(&s, m, "z"), value(&s, m, "x"));
    }
}

#[test]
fn clauses_of_distinct_names_are_encodable() {
    let (_, prog) = parse_program("(declare-bv-fun x 3)(declare-bv-fun y 3)(assert (ult (bv-add x y) y))")
        .expect("parsed");
    let mut counter: usize = 0;
    let (clauses, vars) = make_clauses(prog, &mut counter);
    let n = number_vars(&vars).expect("numbered");
    assert!(n.encode_clauses(&clauses).is_ok());
}

#[test]
fn redeclared_narrower_variable_leaves_bits_unnumbered() {
    let (_, prog) = parse_program("(declare-bv-fun x 8)(assert (eq x x))(declare-bv-fun x 1)").expect("parsed");
    let mut counter: usize = 0;
    let (clauses, vars) = make_clauses(prog, &mut counter);
    let n = number_vars(&vars).expect("numbered");
    assert_eq!(n.encode_clauses(&clauses), Err(EncodeError::UnknownBit));
}

#[test]
fn bits_of_a_reused_name_keep_their_numbers() {
    let vars = vec![bv("x", Sort::BitVec(4)), bv("y", Sort::BitVec(1)), bv("x", Sort::BitVec(2))];
    let n = number_vars(&vars).expect("numbered");
    assert_eq!(n.num_vars(), 7);
    let clause = vec![
        PropVar::new("x".to_string(), 0, true),
        PropVar::new("x".to_string(), 3, false),
        PropVar::new("y".to_string(), 0, true),
    ];
    assert_eq!(
        n.encode_clause(&clause),
        Ok(vec![
            SatLit { var: 5, negated: false },
            SatLit { var: 3, negated: true },
            SatLit { var: 4, negated: false },
        ])
    );
    assert_eq!(
        n.encode_clause(&vec![PropVar::new("x".to_string(), 4, true)]),
        Err(EncodeError::UnknownBit)
    );
    let model = vec![true, false, true, true, false, false, true];
    assert_eq!(n.var_bits(&"x".to_string(), 4, &model), Some(vec![false, true, true, true]));
    assert_eq!(n.var_bits(&"x".to_string(), 2, &model), Some(vec![false, true]));
}

#[test]
fn two_operand_negations_negate_the_first() {
    let s = solve("(declare-bv-fun x 2)(declare-bv-fun y 2)(declare-bv-fun z 2)(assert (eq z (bv-not x y)))");
    assert_eq!(s.models.len(), 16);
    for m in &s.models {
        assert_eq!(value(&s, m, "z"), !value(&s, m, "x") & 3);
    }
    let s = solve("(declare-bv-fun p 1)(declare-bv-fun q 1)(assert (not p q))");
    assert_eq!(s.models.len(), 2);
    for m in &s.models {
        assert_eq!(value(&s, m, "p"), 0);
    }
}

#[test]
fn names_like_hidden_ones_are_ordinary_variables() {
    let s = solve(
        "(declare-bv-fun fresh_name_x 2)(declare-bv-fun fresh_name_007 2)(declare-bv-fun fresh_name_ 1)\
         (assert (eq fresh_name_x (bv-add fresh_name_007 (to-bv 1 2))))(assert fresh_name_)",
    );
    assert_eq!(s.models.len(), 4);
    for m in &s.models {
        assert_eq!(value(&s, m, "fresh_name_x"), (value(&s, m, "fresh_name_007") + 1) % 4);
        assert_eq!(value(&s, m, "fresh_name_"), 1);
    }
}
