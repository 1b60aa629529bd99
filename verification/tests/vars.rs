use ribbit::check::State;
use ribbit::vars::{fresh_id, fresh_name, BvVar, PropVar, Sort};

#[test]
fn fresh_ids_count_up() {
    let mut counter: usize = 0;
    assert_eq!(fresh_id(&mut counter), 0);
    assert_eq!(fresh_id(&mut counter), 1);
    assert_eq!(counter, 2);
}

#[test]
fn fresh_id_wraps_at_the_top() {
    let mut counter: usize = usize::MAX;
    assert_eq!(fresh_id(&mut counter), usize::MAX);
    assert_eq!(counter, 0);
}

#[test]
fn fresh_names_carry_the_id() {
    let mut counter: usize = 0;
    assert_eq!(fresh_name(&mut counter), "fresh_name_0");
    let mut counter: usize = 1204;
    assert_eq!(fresh_name(&mut counter), "fresh_name_1204");
    assert_eq!(counter, 1205);
}

#[test]
fn bv_var_getters() {
    let v = BvVar::new("x".to_string(), Sort::BitVec(32), true);
    assert_eq!(v.owned_name(), "x");
    assert_eq!(*v.get_sort(), Sort::BitVec(32));
    assert!(v.get_display());
    assert_eq!(v.clone(), v);
}

#[test]
fn bv_var_temp_is_hidden() {
    let mut counter: usize = 7;
    let t = BvVar::new_temp(Sort::Unit, &mut counter);
    assert_eq!(t.owned_name(), "fresh_name_7");
    assert_eq!(*t.get_sort(), Sort::Unit);
    assert!(!t.get_display());
    assert_eq!(counter, 8);
}

#[test]
fn bv_var_text() {
    let v = BvVar::new("x".to_string(), Sort::BitVec(32), true);
    assert_eq!(v.to_string(), "x: sort=BitVec(32), display=true");
    let mut counter: usize = 0;
    let t = BvVar::new_temp(Sort::Unit, &mut counter);
    assert_eq!(t.to_string(), "fresh_name_0: sort=Unit, display=false");
}

#[test]
fn prop_var_getters() {
    let p = PropVar::new("y".to_string(), 5, false);
    assert_eq!(p.owned_name(), "y");
    assert_eq!(p.get_offset(), 5);
    assert!(!p.get_value());
    assert_eq!(p.clone(), p);
}

#[test]
fn state_makes_variables() {
    let mut s = State::new();
    let a = s.mk_bv("a".to_string(), Sort::BitVec(4), true);
    assert_eq!(a, BvVar::new("a".to_string(), Sort::BitVec(4), true));
    let t0 = s.mk_temp_bv(Sort::BitVec(1));
    let t1 = s.mk_temp_bv(Sort::Unit);
    assert_eq!(t0.owned_name(), "fresh_name_0");
    assert_eq!(*t0.get_sort(), Sort::BitVec(1));
    assert!(!t0.get_display());
    assert_eq!(t1.owned_name(), "fresh_name_1");
    assert_ne!(s, State::new());
}

#[test]
fn state_text_of_empty_state() {
    assert_eq!(State::new().to_string(), "clauses:\n[]\nvars:\n{}\nfun_insts:\n{}");
}

#[test]
fn state_text_lists_variables() {
    let mut s = State::new();
    s.mk_bv("a".to_string(), Sort::BitVec(4), true);
    assert_eq!(
        s.to_string(),
        "clauses:\n[]\nvars:\n{\"a\": BvVar { name: \"a\", sort: BitVec(4), display: true }}\nfun_insts:\n{}"
    );
    let t = s.clone();
    assert_eq!(t, s);
}

#[test]
fn state_text_escapes_names() {
    let mut s = State::new();
    s.mk_bv("a\"b\\c\n\u{1}\u{7f}'".to_string(), Sort::BitVec(1), false);
    let name = "\"a\\\"b\\\\c\\n\\u{1}\\u{7f}'\"";
    assert_eq!(name, format!("{:?}", "a\"b\\c\n\u{1}\u{7f}'"));
    let expected = format!(
        "clauses:\n[]\nvars:\n{{{}: BvVar {{ name: {}, sort: BitVec(1), display: false }}}}\nfun_insts:\n{{}}",
        name, name
    );
    assert_eq!(s.to_string(), expected);
}

#[test]
fn states_compare_by_what_names_denote() {
    let mut once = State::new();
    once.mk_bv("a".to_string(), Sort::BitVec(4), true);
    let mut twice = State::new();
    twice.mk_bv("a".to_string(), Sort::BitVec(4), true);
    twice.mk_bv("a".to_string(), Sort::BitVec(4), true);
    assert_eq!(once, twice);
    let mut shadowed = State::new();
    shadowed.mk_bv("a".to_string(), Sort::BitVec(2), true);
    shadowed.mk_bv("a".to_string(), Sort::BitVec(4), true);
    assert_eq!(once, shadowed);
    let mut narrower = State::new();
    narrower.mk_bv("a".to_string(), Sort::BitVec(4), true);
    narrower.mk_bv("a".to_string(), Sort::BitVec(2), true);
    assert_ne!(once, narrower);
    let mut other = State::new();
    other.mk_bv("b".to_string(), Sort::BitVec(4), true);
    assert_ne!(once, other);
}

#[test]
fn state_text_escapes_names_past_ascii_as_debug_does() {
    for name in ["caf\u{e9}", "zero\u{200b}width", "e\u{301}", "\u{85}next", "\u{10ffff}"] {
        let mut s = State::new();
        s.mk_bv(name.to_string(), Sort::BitVec(1), true);
        let q = format!("{:?}", name);
        let expected = format!(
            "clauses:\n[]\nvars:\n{{{}: BvVar {{ name: {}, sort: BitVec(1), display: true }}}}\nfun_insts:\n{{}}",
            q, q
        );
        assert_eq!(s.to_string(), expected);
    }
}
