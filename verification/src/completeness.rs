//! Blasting is complete: every assignment of the declared variables that
//! makes a program hold extends, on the hidden variables, to an assignment
//! that satisfies the program's clauses.
use vstd::prelude::*;
use vstd::arithmetic::power2::{pow2, lemma_pow2_unfold, lemma_pow2_pos};
use crate::vars::{Sort, BvVarView, Literal, decimal, digit_char, fresh_name_of};
use crate::cnf::{cnf_holds, clause_holds, lit_holds, per_bit, cl1, lit, lemma_cnf_concat};
use crate::gates::{
    BitGate, gate_op, gate_bit, gate_bits, gate_clauses, not_bit, not_bits, not_clauses, num_bit, const_bit,
    const_bits, const_clauses, assert_clauses, eq_bit, eq_bits, eq_last, eq_clauses, ult_bit, ult_bits,
    ult_result, ult_clauses, ult_chain, ite_bit, ite_bits, ite_clauses, law_ite_clauses, add_bit, add_bits,
    adder_clauses, adder_bit, bv_value,
    lemma_bv_value_bound, law_gate_clauses, law_not_clauses, law_const_clauses, law_assert_clauses,
    law_eq_clauses, law_ult_clauses, law_add_clauses, law_add_result,
};
use crate::check::{
    StateView, Op, width, temp, with_clauses, blast_bitwise, blast_bool, blast_not, blast_bv_not,
    blast_assert, blast_eq, blast_ite, blast_ult, blast_bv_add, blast_bv_sub, blast_ule, blast_op, blast_expr,
    blast_list, blast_args, blast_program, start_state, var_lookup, with_var, with_fun, int_args, int_of,
    name_of, op_named, widths_are,
};
use crate::syntax::ExprView;
use crate::semantics::{
    Val, bit_of, names_in, lemma_names_in_list, eval_expr, eval_list, eval_args, eval_program,
    lemma_bit_of_value,
};
use crate::soundness::{
    holds_val, agree, lemma_lookup_name, lemma_lookup_push, lemma_temp_kept, lemma_kept_agree, lemma_op_kept,
    lemma_op_sound, law_program_sound, free_names, lemma_free_names,
};
use crate::laws::{
    step_state, step_var, law_blast_op, law_blast_expr_extends,
    lemma_bv_value_eq, add_then_sub, law_sub_undoes_add, new_hidden_outside, lemma_new_hidden_split,
};
use crate::sat::{SlotView, SatLit, encodes_cnf, sat_cnf_holds, model_assignment, law_encoding};

verus! {

// ---------------------------------------------------------------------
// Fresh names are distinct
// ---------------------------------------------------------------------

proof fn lemma_decimal_len(n: nat)
    ensures
        decimal(n).len() >= 1,
        n >= 10 ==> decimal(n).len() >= 2,
    decreases n,
{
    if n >= 10 {
        lemma_decimal_len(n / 10);
    }
}

proof fn lemma_digit_char_inj(d1: nat, d2: nat)
    requires
        d1 < 10,
        d2 < 10,
        digit_char(d1) == digit_char(d2),
    ensures
        d1 == d2,
{
}

/// Decimal notation is injective.
proof fn lemma_decimal_inj(n1: nat, n2: nat)
    requires
        decimal(n1) == decimal(n2),
    ensures
        n1 == n2,
    decreases n1,
{
    lemma_decimal_len(n1);
    lemma_decimal_len(n2);
    if n1 < 10 && n2 < 10 {
        assert(decimal(n1)[0] == digit_char(n1));
        assert(decimal(n2)[0] == digit_char(n2));
        lemma_digit_char_inj(n1, n2);
    } else if n1 >= 10 && n2 >= 10 {
        let d1 = decimal(n1);
        let d2 = decimal(n2);
        assert(d1.last() == digit_char(n1 % 10));
        assert(d2.last() == digit_char(n2 % 10));
        lemma_digit_char_inj(n1 % 10, n2 % 10);
        assert(d1.drop_last() =~= decimal(n1 / 10));
        assert(d2.drop_last() =~= decimal(n2 / 10));
        lemma_decimal_inj(n1 / 10, n2 / 10);
    }
}

/// Distinct ids give distinct fresh names.
pub proof fn lemma_fresh_name_inj(k1: nat, k2: nat)
    requires
        fresh_name_of(k1) == fresh_name_of(k2),
    ensures
        k1 == k2,
{
    reveal_strlit("fresh_name_");
    assert("fresh_name_"@.len() == 11);
    assert(fresh_name_of(k1).skip(11) =~= decimal(k1));
    assert(fresh_name_of(k2).skip(11) =~= decimal(k2));
    lemma_decimal_inj(k1, k2);
}

// ---------------------------------------------------------------------
// Names in use
// ---------------------------------------------------------------------

/// A name that a state below the counter `next` may use: one that `ok` admits or a
/// fresh name already drawn.
pub open spec fn old_name(ok: spec_fn(Seq<char>) -> bool, next: nat, n: Seq<char>) -> bool {
    ok(n) || exists|k: nat| k < next && n == #[trigger] fresh_name_of(k)
}

/// Every literal of `cs` names one of `ns`.
pub open spec fn names_within(cs: Seq<Seq<Literal>>, ns: Set<Seq<char>>) -> bool {
    forall|j: int, k: int| 0 <= j < cs.len() && 0 <= k < cs[j].len() ==> ns.contains(#[trigger] cs[j][k].name)
}

/// Every literal of `cs` names an old name.
pub open spec fn clauses_old(ok: spec_fn(Seq<char>) -> bool, cs: Seq<Seq<Literal>>, next: nat) -> bool {
    forall|j: int, k: int| 0 <= j < cs.len() && 0 <= k < cs[j].len() ==> old_name(ok, next, #[trigger] cs[j][k].name)
}

/// The names a state uses are old.
pub open spec fn names_ok(ok: spec_fn(Seq<char>) -> bool, s: StateView) -> bool {
    &&& clauses_old(ok, s.clauses, s.next as nat)
    &&& forall|k: int| 0 <= k < s.vars.len() ==> old_name(ok, s.next as nat, #[trigger] s.vars[k].name)
}

/// Two assignments agree on the old names.
pub open spec fn same_old(ok: spec_fn(Seq<char>) -> bool, a: spec_fn(Seq<char>, int) -> bool, b: spec_fn(Seq<char>, int) -> bool, next: nat) -> bool {
    forall|n: Seq<char>, i: int| old_name(ok, next, n) ==> #[trigger] a(n, i) == b(n, i)
}

/// `a` with the bits of `n` replaced by `f`.
pub open spec fn assign(a: spec_fn(Seq<char>, int) -> bool, n: Seq<char>, f: spec_fn(int) -> bool) -> spec_fn(Seq<char>, int) -> bool {
    |m: Seq<char>, i: int| if m == n { f(i) } else { a(m, i) }
}

proof fn lemma_new_not_old(ok: spec_fn(Seq<char>) -> bool, next: nat)
    requires
        !ok(fresh_name_of(next)),
    ensures
        !old_name(ok, next, fresh_name_of(next)),
{
    if exists|k: nat| k < next && fresh_name_of(next) == #[trigger] fresh_name_of(k) {
        let k = choose|k: nat| k < next && fresh_name_of(next) == #[trigger] fresh_name_of(k);
        lemma_fresh_name_inj(k, next);
    }
}

proof fn lemma_old_mono(ok: spec_fn(Seq<char>) -> bool, next: nat, next2: nat, n: Seq<char>)
    requires
        old_name(ok, next, n),
        next <= next2,
    ensures
        old_name(ok, next2, n),
{
    if !ok(n) {
        let k = choose|k: nat| k < next && n == #[trigger] fresh_name_of(k);
        assert(k < next2 && n == fresh_name_of(k));
    }
}

proof fn lemma_fresh_old(ok: spec_fn(Seq<char>) -> bool, next: nat)
    ensures
        old_name(ok, next + 1, fresh_name_of(next)),
{
    assert(next < next + 1 && fresh_name_of(next) == fresh_name_of(next));
}

/// Clauses over old names hold alike under assignments that agree on them.
proof fn lemma_cnf_same(ok: spec_fn(Seq<char>) -> bool, a: spec_fn(Seq<char>, int) -> bool, b: spec_fn(Seq<char>, int) -> bool, cs: Seq<Seq<Literal>>, next: nat)
    requires
        clauses_old(ok, cs, next),
        same_old(ok, a, b, next),
    ensures
        cnf_holds(a, cs) == cnf_holds(b, cs),
{
    assert forall|j: int| 0 <= j < cs.len() implies #[trigger] clause_holds(a, cs[j]) == clause_holds(b, cs[j]) by {
        assert forall|k: int| 0 <= k < cs[j].len() implies #[trigger] lit_holds(a, cs[j][k]) == lit_holds(b, cs[j][k]) by {
            assert(old_name(ok, next, cs[j][k].name));
            assert(a(cs[j][k].name, cs[j][k].offset) == b(cs[j][k].name, cs[j][k].offset));
        }
        if clause_holds(a, cs[j]) {
            let k = choose|k: int| 0 <= k < cs[j].len() && #[trigger] lit_holds(a, cs[j][k]);
            assert(lit_holds(b, cs[j][k]));
        }
        if clause_holds(b, cs[j]) {
            let k = choose|k: int| 0 <= k < cs[j].len() && #[trigger] lit_holds(b, cs[j][k]);
            assert(lit_holds(a, cs[j][k]));
        }
    }
    if cnf_holds(a, cs) {
        assert forall|j: int| 0 <= j < cs.len() implies #[trigger] clause_holds(b, cs[j]) by {
            assert(clause_holds(a, cs[j]));
        }
    }
    if cnf_holds(b, cs) {
        assert forall|j: int| 0 <= j < cs.len() implies #[trigger] clause_holds(a, cs[j]) by {
            assert(clause_holds(b, cs[j]));
        }
    }
}

proof fn lemma_within_old(ok: spec_fn(Seq<char>) -> bool, cs: Seq<Seq<Literal>>, ns: Set<Seq<char>>, next: nat)
    requires
        names_within(cs, ns),
        forall|n: Seq<char>| ns.contains(n) ==> old_name(ok, next, n),
    ensures
        clauses_old(ok, cs, next),
{
    assert forall|j: int, k: int| 0 <= j < cs.len() && 0 <= k < cs[j].len() implies old_name(ok, next, #[trigger] cs[j][k].name) by {
        assert(ns.contains(cs[j][k].name));
    }
}

proof fn lemma_within_concat(x: Seq<Seq<Literal>>, y: Seq<Seq<Literal>>, ns: Set<Seq<char>>)
    requires
        names_within(x, ns),
        names_within(y, ns),
    ensures
        names_within(x + y, ns),
{
    assert forall|j: int, k: int| 0 <= j < (x + y).len() && 0 <= k < (x + y)[j].len() implies ns.contains(#[trigger] (x + y)[j][k].name) by {
        if j < x.len() {
            assert((x + y)[j] == x[j]);
            assert(ns.contains(x[j][k].name));
        } else {
            assert((x + y)[j] == y[j - x.len()]);
            assert(ns.contains(y[j - x.len()][k].name));
        }
    }
}

proof fn lemma_per_bit_within(n: nat, f: spec_fn(int) -> Seq<Seq<Literal>>, ns: Set<Seq<char>>)
    requires
        forall|i: int| 0 <= i < n ==> names_within(#[trigger] f(i), ns),
    ensures
        names_within(per_bit(n, f), ns),
    decreases n,
{
    if n > 0 {
        lemma_per_bit_within((n - 1) as nat, f, ns);
        assert(names_within(f(n - 1), ns));
        lemma_within_concat(per_bit((n - 1) as nat, f), f(n - 1), ns);
    }
}

proof fn lemma_gate_within(g: BitGate, x: Seq<char>, y: Seq<char>, r: Seq<char>, n: nat)
    ensures
        names_within(gate_clauses(g, x, y, r, n), set![x, y, r]),
{
    let ns = set![x, y, r];
    assert forall|i: int| 0 <= i < n implies names_within(#[trigger] gate_bits(g, x, y, r)(i), ns) by {
        let c = gate_bit(g, x, y, r, i);
        assert forall|j: int, k: int| 0 <= j < c.len() && 0 <= k < c[j].len() implies ns.contains(#[trigger] c[j][k].name) by {
        }
    }
    lemma_per_bit_within(n, gate_bits(g, x, y, r), ns);
}

proof fn lemma_gate_bit_within(g: BitGate, x: Seq<char>, y: Seq<char>, r: Seq<char>)
    ensures
        names_within(gate_bit(g, x, y, r, 0), set![x, y, r]),
{
    let c = gate_bit(g, x, y, r, 0);
    assert forall|j: int, k: int| 0 <= j < c.len() && 0 <= k < c[j].len() implies set![x, y, r].contains(#[trigger] c[j][k].name) by {
    }
}

proof fn lemma_not_bit_within(x: Seq<char>, r: Seq<char>, i: int)
    ensures
        names_within(not_bit(x, r, i), set![x, r]),
{
    let c = not_bit(x, r, i);
    assert forall|j: int, k: int| 0 <= j < c.len() && 0 <= k < c[j].len() implies set![x, r].contains(#[trigger] c[j][k].name) by {
    }
}

proof fn lemma_not_within(x: Seq<char>, r: Seq<char>, n: nat)
    ensures
        names_within(not_clauses(x, r, n), set![x, r]),
{
    assert forall|i: int| 0 <= i < n implies names_within(#[trigger] not_bits(x, r)(i), set![x, r]) by {
        lemma_not_bit_within(x, r, i);
    }
    lemma_per_bit_within(n, not_bits(x, r), set![x, r]);
}

proof fn lemma_const_within(t: Seq<char>, num: u128, n: nat)
    ensures
        names_within(const_clauses(t, num, n), set![t]),
{
    assert forall|i: int| 0 <= i < n implies names_within(#[trigger] const_bits(t, num)(i), set![t]) by {
        let c = const_bit(t, num, i);
        assert forall|j: int, k: int| 0 <= j < c.len() && 0 <= k < c[j].len() implies set![t].contains(#[trigger] c[j][k].name) by {
        }
    }
    lemma_per_bit_within(n, const_bits(t, num), set![t]);
}

proof fn lemma_assert_within(x: Seq<char>)
    ensures
        names_within(assert_clauses(x), set![x]),
{
    let c = assert_clauses(x);
    assert forall|j: int, k: int| 0 <= j < c.len() && 0 <= k < c[j].len() implies set![x].contains(#[trigger] c[j][k].name) by {
    }
}

proof fn lemma_eq_last_within(h: Seq<char>, r: Seq<char>, n: nat)
    ensures
        forall|k: int| 0 <= k < eq_last(h, r, n).len() ==> set![h, r].contains(#[trigger] eq_last(h, r, n)[k].name),
    decreases n,
{
    if n > 0 {
        lemma_eq_last_within(h, r, (n - 1) as nat);
        let prev = eq_last(h, r, (n - 1) as nat);
        assert forall|k: int| 0 <= k < eq_last(h, r, n).len() implies set![h, r].contains(#[trigger] eq_last(h, r, n)[k].name) by {
            if k < prev.len() {
                assert(eq_last(h, r, n)[k] == prev[k]);
            }
        }
    }
}

proof fn lemma_eq_within(x: Seq<char>, y: Seq<char>, h: Seq<char>, r: Seq<char>, n: nat)
    ensures
        names_within(eq_clauses(x, y, h, r, n), set![x, y, h, r]),
{
    let ns = set![x, y, h, r];
    assert forall|i: int| 0 <= i < n implies names_within(#[trigger] eq_bits(x, y, h, r)(i), ns) by {
        let c = eq_bit(x, y, h, r, i);
        assert forall|j: int, k: int| 0 <= j < c.len() && 0 <= k < c[j].len() implies ns.contains(#[trigger] c[j][k].name) by {
        }
    }
    lemma_per_bit_within(n, eq_bits(x, y, h, r), ns);
    lemma_eq_last_within(h, r, n);
    let body = per_bit(n, eq_bits(x, y, h, r));
    let last = eq_last(h, r, n);
    assert forall|j: int, k: int| 0 <= j < body.push(last).len() && 0 <= k < body.push(last)[j].len() implies ns.contains(#[trigger] body.push(last)[j][k].name) by {
        if j < body.len() {
            assert(body.push(last)[j] == body[j]);
            assert(ns.contains(body[j][k].name));
        } else {
            assert(body.push(last)[j] == last);
            assert(set![h, r].contains(last[k].name));
        }
    }
}

proof fn lemma_ult_within(x: Seq<char>, y: Seq<char>, lt: Seq<char>, r: Seq<char>, n: nat)
    ensures
        names_within(ult_clauses(x, y, lt, r, n), set![x, y, lt, r]),
{
    let ns = set![x, y, lt, r];
    assert forall|i: int| 0 <= i < n implies names_within(#[trigger] ult_bits(x, y, lt)(i), ns) by {
        let c = ult_bit(x, y, lt, i);
        assert forall|j: int, k: int| 0 <= j < c.len() && 0 <= k < c[j].len() implies ns.contains(#[trigger] c[j][k].name) by {
        }
    }
    lemma_per_bit_within(n, ult_bits(x, y, lt), ns);
    let c = ult_result(lt, r, n);
    assert forall|j: int, k: int| 0 <= j < c.len() && 0 <= k < c[j].len() implies ns.contains(#[trigger] c[j][k].name) by {
    }
    lemma_within_concat(per_bit(n, ult_bits(x, y, lt)), c, ns);
}

proof fn lemma_adder_within(x: Seq<char>, y: Seq<char>, c: Seq<char>, s: Seq<char>, n: nat)
    ensures
        names_within(adder_clauses(x, y, c, s, n), set![x, y, c, s]),
{
    let ns = set![x, y, c, s];
    assert forall|i: int| 0 <= i < n implies names_within(#[trigger] add_bits(x, y, c, s)(i), ns) by {
        let cs = add_bit(x, y, c, s, i);
        assert forall|j: int, k: int| 0 <= j < cs.len() && 0 <= k < cs[j].len() implies ns.contains(#[trigger] cs[j][k].name) by {
        }
    }
    lemma_per_bit_within(n, add_bits(x, y, c, s), ns);
    let first = Seq::<Seq<Literal>>::empty().push(cl1(lit(c, 0, false)));
    assert forall|j: int, k: int| 0 <= j < first.len() && 0 <= k < first[j].len() implies ns.contains(#[trigger] first[j][k].name) by {
    }
    lemma_within_concat(first, per_bit(n, add_bits(x, y, c, s)), ns);
}

// ---------------------------------------------------------------------
// Steps of the state
// ---------------------------------------------------------------------

proof fn lemma_same_old_trans(ok: spec_fn(Seq<char>) -> bool, a: spec_fn(Seq<char>, int) -> bool, b: spec_fn(Seq<char>, int) -> bool, c: spec_fn(Seq<char>, int) -> bool, n1: nat, n2: nat)
    requires
        same_old(ok, a, b, n2),
        same_old(ok, b, c, n1),
        n1 <= n2,
    ensures
        same_old(ok, a, c, n1),
{
    assert forall|n: Seq<char>, i: int| old_name(ok, n1, n) implies #[trigger] a(n, i) == c(n, i) by {
        lemma_old_mono(ok, n1, n2, n);
        assert(a(n, i) == b(n, i));
        assert(b(n, i) == c(n, i));
    }
}

/// A hidden variable that a run makes past the variables of `s` has a name
/// that `ok` does not admit.
proof fn lemma_temp_not_ok(ok: spec_fn(Seq<char>) -> bool, t: StateView, s: StateView, u: StateView, sort: Sort)
    requires
        new_hidden_outside(t, s, ok),
        s.vars.len() <= u.vars.len() < t.vars.len(),
        t.vars[u.vars.len() as int] == temp(u, sort).1,
    ensures
        !ok(fresh_name_of(u.next as nat)),
{
    assert(!t.vars[u.vars.len() as int].display);
}

/// Making a hidden variable and giving its bits the values `f`.
proof fn lemma_temp_step(ok: spec_fn(Seq<char>) -> bool, a: spec_fn(Seq<char>, int) -> bool, s: StateView, sort: Sort, f: spec_fn(int) -> bool)
    requires
        names_ok(ok, s),
        s.next < usize::MAX,
        !ok(fresh_name_of(s.next as nat)),
        cnf_holds(a, s.clauses),
    ensures
        ({
            let (s1, t) = temp(s, sort);
            let a1 = assign(a, t.name, f);
            &&& names_ok(ok, s1)
            &&& s1.next == s.next + 1
            &&& t.name == fresh_name_of(s.next as nat)
            &&& !old_name(ok, s.next as nat, t.name)
            &&& old_name(ok, s1.next as nat, t.name)
            &&& same_old(ok, a1, a, s.next as nat)
            &&& cnf_holds(a1, s1.clauses)
            &&& forall|i: int| #[trigger] a1(t.name, i) == f(i)
        }),
{
    let (s1, t) = temp(s, sort);
    let a1 = assign(a, t.name, f);
    let n = s.next as nat;
    lemma_new_not_old(ok, n);
    lemma_fresh_old(ok, n);
    assert forall|m: Seq<char>, i: int| old_name(ok, n, m) implies #[trigger] a1(m, i) == a(m, i) by {
        assert(m != t.name);
    }
    lemma_cnf_same(ok, a1, a, s.clauses, n);
    assert forall|j: int, k: int| 0 <= j < s1.clauses.len() && 0 <= k < s1.clauses[j].len() implies old_name(ok, n + 1, #[trigger] s1.clauses[j][k].name) by {
        lemma_old_mono(ok, n, n + 1, s1.clauses[j][k].name);
    }
    assert forall|k: int| 0 <= k < s1.vars.len() implies old_name(ok, n + 1, #[trigger] s1.vars[k].name) by {
        if k < s.vars.len() {
            assert(s1.vars[k] == s.vars[k]);
            lemma_old_mono(ok, n, n + 1, s.vars[k].name);
        }
    }
}

/// Adding clauses over old names that hold.
proof fn lemma_clauses_step(ok: spec_fn(Seq<char>) -> bool, a: spec_fn(Seq<char>, int) -> bool, s: StateView, cs: Seq<Seq<Literal>>, ns: Set<Seq<char>>)
    requires
        names_ok(ok, s),
        names_within(cs, ns),
        forall|n: Seq<char>| ns.contains(n) ==> old_name(ok, s.next as nat, n),
        cnf_holds(a, s.clauses),
        cnf_holds(a, cs),
    ensures
        names_ok(ok, with_clauses(s, cs)),
        cnf_holds(a, with_clauses(s, cs).clauses),
{
    lemma_within_old(ok, cs, ns, s.next as nat);
    lemma_cnf_concat(a, s.clauses, cs);
    let all = s.clauses + cs;
    assert forall|j: int, k: int| 0 <= j < all.len() && 0 <= k < all[j].len() implies old_name(ok, s.next as nat, #[trigger] all[j][k].name) by {
        if j < s.clauses.len() {
            assert(all[j] == s.clauses[j]);
            assert(old_name(ok, s.next as nat, s.clauses[j][k].name));
        } else {
            assert(all[j] == cs[j - s.clauses.len()]);
            assert(old_name(ok, s.next as nat, cs[j - s.clauses.len()][k].name));
        }
    }
}

proof fn lemma_gate_bit_law(a: spec_fn(Seq<char>, int) -> bool, g: BitGate, x: Seq<char>, y: Seq<char>, r: Seq<char>)
    ensures
        cnf_holds(a, gate_bit(g, x, y, r, 0)) == (a(r, 0) == gate_op(g, a(x, 0), a(y, 0))),
{
    let f = gate_bits(g, x, y, r);
    assert(per_bit(0, f) == Seq::<Seq<Literal>>::empty());
    assert(per_bit(1, f) == per_bit(0, f) + f(0));
    assert(Seq::<Seq<Literal>>::empty() + f(0) =~= f(0));
    law_gate_clauses(a, g, x, y, r, 1);
}

proof fn lemma_not_bit_law(a: spec_fn(Seq<char>, int) -> bool, x: Seq<char>, r: Seq<char>)
    ensures
        cnf_holds(a, not_bit(x, r, 0)) == (a(r, 0) == !a(x, 0)),
{
    let f = not_bits(x, r);
    assert(per_bit(0, f) == Seq::<Seq<Literal>>::empty());
    assert(per_bit(1, f) == per_bit(0, f) + f(0));
    assert(Seq::<Seq<Literal>>::empty() + f(0) =~= f(0));
    law_not_clauses(a, x, r, 1);
}

// ---------------------------------------------------------------------
// Each builtin function's clauses can be met
// ---------------------------------------------------------------------

/// The arguments are old names of the state.
pub open spec fn args_old(ok: spec_fn(Seq<char>) -> bool, s: StateView, args: Seq<BvVarView>) -> bool {
    forall|i: int| 0 <= i < args.len() ==> old_name(ok, s.next as nat, #[trigger] args[i].name)
}

proof fn lemma_bitwise_ext(ok: spec_fn(Seq<char>) -> bool, a: spec_fn(Seq<char>, int) -> bool, s: StateView, args: Seq<BvVarView>, g: BitGate, op: Op) -> (a2: spec_fn(Seq<char>, int) -> bool)
    requires
        blast_bitwise(s, args, g, op) is Ok,
        names_ok(ok, s),
        args_old(ok, s, args),
        cnf_holds(a, s.clauses),
        s.next + step_state(blast_bitwise(s, args, g, op)).vars.len() - s.vars.len() < usize::MAX,
        new_hidden_outside(step_state(blast_bitwise(s, args, g, op)), s, ok),
    ensures
        names_ok(ok, step_state(blast_bitwise(s, args, g, op))),
        cnf_holds(a2, step_state(blast_bitwise(s, args, g, op)).clauses),
        same_old(ok, a2, a, s.next as nat),
        step_state(blast_bitwise(s, args, g, op)).next - s.next <= step_state(blast_bitwise(s, args, g, op)).vars.len() - s.vars.len(),
        step_state(blast_bitwise(s, args, g, op)).next >= s.next,
        old_name(ok, step_state(blast_bitwise(s, args, g, op)).next as nat, step_var(blast_bitwise(s, args, g, op)).name),
{
    let w = width(args[0].sort);
    let x = args[0].name;
    let y = args[1].name;
    assert(old_name(ok, s.next as nat, x) && old_name(ok, s.next as nat, y));
    let (s1, r) = temp(s, Sort::BitVec(w));
    let f = |i: int| gate_op(g, a(x, i), a(y, i));
    lemma_temp_not_ok(ok, step_state(blast_bitwise(s, args, g, op)), s, s, Sort::BitVec(w));
    lemma_temp_step(ok, a, s, Sort::BitVec(w), f);
    let a1 = assign(a, r.name, f);
    let cs = gate_clauses(g, x, y, r.name, w as nat);
    law_gate_clauses(a1, g, x, y, r.name, w as nat);
    lemma_gate_within(g, x, y, r.name, w as nat);
    lemma_old_mono(ok, s.next as nat, s1.next as nat, x);
    lemma_old_mono(ok, s.next as nat, s1.next as nat, y);
    assert forall|i: int| 0 <= i < w implies #[trigger] a1(r.name, i) == gate_op(g, a1(x, i), a1(y, i)) by {
        assert(a1(x, i) == a(x, i));
        assert(a1(y, i) == a(y, i));
    }
    lemma_clauses_step(ok, a1, s1, cs, set![x, y, r.name]);
    a1
}

proof fn lemma_bool_ext(ok: spec_fn(Seq<char>) -> bool, a: spec_fn(Seq<char>, int) -> bool, s: StateView, args: Seq<BvVarView>, g: BitGate, op: Op) -> (a2: spec_fn(Seq<char>, int) -> bool)
    requires
        blast_bool(s, args, g, op) is Ok,
        names_ok(ok, s),
        args_old(ok, s, args),
        cnf_holds(a, s.clauses),
        s.next + step_state(blast_bool(s, args, g, op)).vars.len() - s.vars.len() < usize::MAX,
        new_hidden_outside(step_state(blast_bool(s, args, g, op)), s, ok),
    ensures
        names_ok(ok, step_state(blast_bool(s, args, g, op))),
        cnf_holds(a2, step_state(blast_bool(s, args, g, op)).clauses),
        same_old(ok, a2, a, s.next as nat),
        step_state(blast_bool(s, args, g, op)).next - s.next <= step_state(blast_bool(s, args, g, op)).vars.len() - s.vars.len(),
        step_state(blast_bool(s, args, g, op)).next >= s.next,
        old_name(ok, step_state(blast_bool(s, args, g, op)).next as nat, step_var(blast_bool(s, args, g, op)).name),
{
    let x = args[0].name;
    let y = args[1].name;
    assert(old_name(ok, s.next as nat, x) && old_name(ok, s.next as nat, y));
    let (s1, r) = temp(s, Sort::BitVec(1));
    let f = |i: int| gate_op(g, a(x, 0), a(y, 0));
    lemma_temp_not_ok(ok, step_state(blast_bool(s, args, g, op)), s, s, Sort::BitVec(1));
    lemma_temp_step(ok, a, s, Sort::BitVec(1), f);
    let a1 = assign(a, r.name, f);
    let cs = gate_bit(g, x, y, r.name, 0);
    lemma_gate_bit_law(a1, g, x, y, r.name);
    lemma_gate_bit_within(g, x, y, r.name);
    lemma_old_mono(ok, s.next as nat, s1.next as nat, x);
    lemma_old_mono(ok, s.next as nat, s1.next as nat, y);
    assert(a1(x, 0) == a(x, 0));
    assert(a1(y, 0) == a(y, 0));
    assert(a1(r.name, 0) == f(0));
    lemma_clauses_step(ok, a1, s1, cs, set![x, y, r.name]);
    a1
}

proof fn lemma_ite_within(c: Seq<char>, x: Seq<char>, y: Seq<char>, r: Seq<char>, n: nat)
    ensures
        names_within(ite_clauses(c, x, y, r, n), set![c, x, y, r]),
{
    let ns = set![c, x, y, r];
    assert forall|i: int| 0 <= i < n implies names_within(#[trigger] ite_bits(c, x, y, r)(i), ns) by {
        let cs = ite_bit(c, x, y, r, i);
        assert forall|j: int, k: int| 0 <= j < cs.len() && 0 <= k < cs[j].len() implies ns.contains(#[trigger] cs[j][k].name) by {
        }
    }
    lemma_per_bit_within(n, ite_bits(c, x, y, r), ns);
}

proof fn lemma_ite_ext(ok: spec_fn(Seq<char>) -> bool, a: spec_fn(Seq<char>, int) -> bool, s: StateView, args: Seq<BvVarView>) -> (a2: spec_fn(Seq<char>, int) -> bool)
    requires
        blast_ite(s, args) is Ok,
        names_ok(ok, s),
        args_old(ok, s, args),
        cnf_holds(a, s.clauses),
        s.next + step_state(blast_ite(s, args)).vars.len() - s.vars.len() < usize::MAX,
        new_hidden_outside(step_state(blast_ite(s, args)), s, ok),
    ensures
        names_ok(ok, step_state(blast_ite(s, args))),
        cnf_holds(a2, step_state(blast_ite(s, args)).clauses),
        same_old(ok, a2, a, s.next as nat),
        step_state(blast_ite(s, args)).next - s.next <= step_state(blast_ite(s, args)).vars.len() - s.vars.len(),
        step_state(blast_ite(s, args)).next >= s.next,
        old_name(ok, step_state(blast_ite(s, args)).next as nat, step_var(blast_ite(s, args)).name),
{
    let w = width(args[1].sort);
    let c = args[0].name;
    let x = args[1].name;
    let y = args[2].name;
    assert(old_name(ok, s.next as nat, c) && old_name(ok, s.next as nat, x) && old_name(ok, s.next as nat, y));
    let (s1, r) = temp(s, Sort::BitVec(w));
    let f = |i: int| if a(c, 0) { a(x, i) } else { a(y, i) };
    lemma_temp_not_ok(ok, step_state(blast_ite(s, args)), s, s, Sort::BitVec(w));
    lemma_temp_step(ok, a, s, Sort::BitVec(w), f);
    let a1 = assign(a, r.name, f);
    let cs = ite_clauses(c, x, y, r.name, w as nat);
    law_ite_clauses(a1, c, x, y, r.name, w as nat);
    lemma_ite_within(c, x, y, r.name, w as nat);
    lemma_old_mono(ok, s.next as nat, s1.next as nat, c);
    lemma_old_mono(ok, s.next as nat, s1.next as nat, x);
    lemma_old_mono(ok, s.next as nat, s1.next as nat, y);
    assert(a1(c, 0) == a(c, 0));
    assert forall|i: int| 0 <= i < w implies #[trigger] a1(r.name, i) == if a1(c, 0) { a1(x, i) } else { a1(y, i) } by {
        assert(a1(x, i) == a(x, i));
        assert(a1(y, i) == a(y, i));
    }
    lemma_clauses_step(ok, a1, s1, cs, set![c, x, y, r.name]);
    a1
}

proof fn lemma_not_ext(ok: spec_fn(Seq<char>) -> bool, a: spec_fn(Seq<char>, int) -> bool, s: StateView, args: Seq<BvVarView>) -> (a2: spec_fn(Seq<char>, int) -> bool)
    requires
        blast_not(s, args) is Ok,
        names_ok(ok, s),
        args_old(ok, s, args),
        cnf_holds(a, s.clauses),
        s.next + step_state(blast_not(s, args)).vars.len() - s.vars.len() < usize::MAX,
        new_hidden_outside(step_state(blast_not(s, args)), s, ok),
    ensures
        names_ok(ok, step_state(blast_not(s, args))),
        cnf_holds(a2, step_state(blast_not(s, args)).clauses),
        same_old(ok, a2, a, s.next as nat),
        step_state(blast_not(s, args)).next - s.next <= step_state(blast_not(s, args)).vars.len() - s.vars.len(),
        step_state(blast_not(s, args)).next >= s.next,
        old_name(ok, step_state(blast_not(s, args)).next as nat, step_var(blast_not(s, args)).name),
{
    let x = args[0].name;
    assert(old_name(ok, s.next as nat, x));
    let (s1, r) = temp(s, Sort::BitVec(1));
    let f = |i: int| !a(x, 0);
    lemma_temp_not_ok(ok, step_state(blast_not(s, args)), s, s, Sort::BitVec(1));
    lemma_temp_step(ok, a, s, Sort::BitVec(1), f);
    let a1 = assign(a, r.name, f);
    let cs = not_bit(x, r.name, 0);
    lemma_not_bit_law(a1, x, r.name);
    lemma_not_bit_within(x, r.name, 0);
    lemma_old_mono(ok, s.next as nat, s1.next as nat, x);
    assert(a1(x, 0) == a(x, 0));
    assert(a1(r.name, 0) == f(0));
    lemma_clauses_step(ok, a1, s1, cs, set![x, r.name]);
    a1
}

proof fn lemma_bv_not_ext(ok: spec_fn(Seq<char>) -> bool, a: spec_fn(Seq<char>, int) -> bool, s: StateView, args: Seq<BvVarView>) -> (a2: spec_fn(Seq<char>, int) -> bool)
    requires
        blast_bv_not(s, args) is Ok,
        names_ok(ok, s),
        args_old(ok, s, args),
        cnf_holds(a, s.clauses),
        s.next + step_state(blast_bv_not(s, args)).vars.len() - s.vars.len() < usize::MAX,
        new_hidden_outside(step_state(blast_bv_not(s, args)), s, ok),
    ensures
        names_ok(ok, step_state(blast_bv_not(s, args))),
        cnf_holds(a2, step_state(blast_bv_not(s, args)).clauses),
        same_old(ok, a2, a, s.next as nat),
        step_state(blast_bv_not(s, args)).next - s.next <= step_state(blast_bv_not(s, args)).vars.len() - s.vars.len(),
        step_state(blast_bv_not(s, args)).next >= s.next,
        old_name(ok, step_state(blast_bv_not(s, args)).next as nat, step_var(blast_bv_not(s, args)).name),
{
    let w = width(args[0].sort);
    let x = args[0].name;
    assert(old_name(ok, s.next as nat, x));
    let (s1, r) = temp(s, Sort::BitVec(w));
    let f = |i: int| !a(x, i);
    lemma_temp_not_ok(ok, step_state(blast_bv_not(s, args)), s, s, Sort::BitVec(w));
    lemma_temp_step(ok, a, s, Sort::BitVec(w), f);
    let a1 = assign(a, r.name, f);
    let cs = not_clauses(x, r.name, w as nat);
    law_not_clauses(a1, x, r.name, w as nat);
    lemma_not_within(x, r.name, w as nat);
    lemma_old_mono(ok, s.next as nat, s1.next as nat, x);
    assert forall|i: int| 0 <= i < w implies #[trigger] a1(r.name, i) == !a1(x, i) by {
        assert(a1(x, i) == a(x, i));
    }
    lemma_clauses_step(ok, a1, s1, cs, set![x, r.name]);
    a1
}

proof fn lemma_assert_ext(ok: spec_fn(Seq<char>) -> bool, a: spec_fn(Seq<char>, int) -> bool, s: StateView, args: Seq<BvVarView>) -> (a2: spec_fn(Seq<char>, int) -> bool)
    requires
        blast_assert(s, args) is Ok,
        names_ok(ok, s),
        args_old(ok, s, args),
        cnf_holds(a, s.clauses),
        a(args[0].name, 0),
        s.next + step_state(blast_assert(s, args)).vars.len() - s.vars.len() < usize::MAX,
        new_hidden_outside(step_state(blast_assert(s, args)), s, ok),
    ensures
        names_ok(ok, step_state(blast_assert(s, args))),
        cnf_holds(a2, step_state(blast_assert(s, args)).clauses),
        same_old(ok, a2, a, s.next as nat),
        step_state(blast_assert(s, args)).next - s.next <= step_state(blast_assert(s, args)).vars.len() - s.vars.len(),
        step_state(blast_assert(s, args)).next >= s.next,
        old_name(ok, step_state(blast_assert(s, args)).next as nat, step_var(blast_assert(s, args)).name),
{
    let x = args[0].name;
    assert(old_name(ok, s.next as nat, x));
    let (s1, t) = temp(s, Sort::Unit);
    let f = |i: int| false;
    lemma_temp_not_ok(ok, step_state(blast_assert(s, args)), s, s, Sort::Unit);
    lemma_temp_step(ok, a, s, Sort::Unit, f);
    let a1 = assign(a, t.name, f);
    let cs = assert_clauses(x);
    law_assert_clauses(a1, x);
    lemma_assert_within(x);
    lemma_old_mono(ok, s.next as nat, s1.next as nat, x);
    assert(a1(x, 0) == a(x, 0));
    lemma_clauses_step(ok, a1, s1, cs, set![x]);
    a1
}

proof fn lemma_eq_ext(ok: spec_fn(Seq<char>) -> bool, a: spec_fn(Seq<char>, int) -> bool, s: StateView, args: Seq<BvVarView>) -> (a2: spec_fn(Seq<char>, int) -> bool)
    requires
        blast_eq(s, args) is Ok,
        names_ok(ok, s),
        args_old(ok, s, args),
        cnf_holds(a, s.clauses),
        s.next + step_state(blast_eq(s, args)).vars.len() - s.vars.len() < usize::MAX,
        new_hidden_outside(step_state(blast_eq(s, args)), s, ok),
    ensures
        names_ok(ok, step_state(blast_eq(s, args))),
        cnf_holds(a2, step_state(blast_eq(s, args)).clauses),
        same_old(ok, a2, a, s.next as nat),
        step_state(blast_eq(s, args)).next - s.next <= step_state(blast_eq(s, args)).vars.len() - s.vars.len(),
        step_state(blast_eq(s, args)).next >= s.next,
        old_name(ok, step_state(blast_eq(s, args)).next as nat, step_var(blast_eq(s, args)).name),
{
    let w = width(args[0].sort);
    let x = args[0].name;
    let y = args[1].name;
    assert(old_name(ok, s.next as nat, x) && old_name(ok, s.next as nat, y));
    let (s1, h) = temp(s, Sort::BitVec(w));
    let fh = |i: int| a(x, i) == a(y, i);
    lemma_temp_not_ok(ok, step_state(blast_eq(s, args)), s, s, Sort::BitVec(w));
    lemma_temp_step(ok, a, s, Sort::BitVec(w), fh);
    let a1 = assign(a, h.name, fh);
    let (s2, r) = temp(s1, Sort::BitVec(1));
    let fr = |i: int| forall|j: int| 0 <= j < w ==> #[trigger] fh(j);
    lemma_temp_not_ok(ok, step_state(blast_eq(s, args)), s, s1, Sort::BitVec(1));
    lemma_temp_step(ok, a1, s1, Sort::BitVec(1), fr);
    let a2 = assign(a1, r.name, fr);
    lemma_same_old_trans(ok, a2, a1, a, s.next as nat, s1.next as nat);
    let cs = eq_clauses(x, y, h.name, r.name, w as nat);
    law_eq_clauses(a2, x, y, h.name, r.name, w as nat);
    lemma_eq_within(x, y, h.name, r.name, w as nat);
    lemma_old_mono(ok, s.next as nat, s2.next as nat, x);
    lemma_old_mono(ok, s.next as nat, s2.next as nat, y);
    lemma_old_mono(ok, s1.next as nat, s2.next as nat, h.name);
    assert(h.name != r.name);
    assert forall|i: int| 0 <= i < w implies #[trigger] a2(h.name, i) == (a2(x, i) == a2(y, i)) by {
        assert(a2(x, i) == a(x, i));
        assert(a2(y, i) == a(y, i));
        assert(a2(h.name, i) == a1(h.name, i));
    }
    assert forall|i: int| 0 <= i < w implies #[trigger] a2(h.name, i) == fh(i) by {
        assert(a2(h.name, i) == a1(h.name, i));
    }
    assert(a2(r.name, 0) == fr(0));
    if fr(0) {
        assert forall|i: int| 0 <= i < w implies #[trigger] a2(h.name, i) by {
            assert(fh(i));
        }
    }
    if forall|i: int| 0 <= i < w ==> #[trigger] a2(h.name, i) {
        assert forall|j: int| 0 <= j < w implies #[trigger] fh(j) by {
            assert(a2(h.name, j));
        }
    }
    lemma_clauses_step(ok, a2, s2, cs, set![x, y, h.name, r.name]);
    a2
}

/// The less-than chain over the low `i + 1` bits.
pub open spec fn lt_upto(a: spec_fn(Seq<char>, int) -> bool, x: Seq<char>, y: Seq<char>, i: nat) -> bool
    decreases i,
{
    if i == 0 {
        !a(x, 0) && a(y, 0)
    } else if a(x, i as int) == a(y, i as int) {
        lt_upto(a, x, y, (i - 1) as nat)
    } else {
        a(y, i as int)
    }
}

/// The carry into bit `i` of the sum of `x` and `y`.
pub open spec fn carry_upto(a: spec_fn(Seq<char>, int) -> bool, x: Seq<char>, y: Seq<char>, i: nat) -> bool
    decreases i,
{
    if i == 0 {
        false
    } else {
        let k = (i - 1) as int;
        let c = carry_upto(a, x, y, (i - 1) as nat);
        (a(x, k) && a(y, k)) || (a(x, k) && c) || (a(y, k) && c)
    }
}

proof fn lemma_ult_ext(ok: spec_fn(Seq<char>) -> bool, a: spec_fn(Seq<char>, int) -> bool, s: StateView, args: Seq<BvVarView>) -> (a2: spec_fn(Seq<char>, int) -> bool)
    requires
        blast_ult(s, args) is Ok,
        names_ok(ok, s),
        args_old(ok, s, args),
        cnf_holds(a, s.clauses),
        s.next + step_state(blast_ult(s, args)).vars.len() - s.vars.len() < usize::MAX,
        new_hidden_outside(step_state(blast_ult(s, args)), s, ok),
    ensures
        names_ok(ok, step_state(blast_ult(s, args))),
        cnf_holds(a2, step_state(blast_ult(s, args)).clauses),
        same_old(ok, a2, a, s.next as nat),
        step_state(blast_ult(s, args)).next - s.next <= step_state(blast_ult(s, args)).vars.len() - s.vars.len(),
        step_state(blast_ult(s, args)).next >= s.next,
        old_name(ok, step_state(blast_ult(s, args)).next as nat, step_var(blast_ult(s, args)).name),
{
    let w = width(args[0].sort);
    let x = args[0].name;
    let y = args[1].name;
    assert(old_name(ok, s.next as nat, x) && old_name(ok, s.next as nat, y));
    let (s1, lt) = temp(s, Sort::BitVec(w));
    let fl = |i: int| lt_upto(a, x, y, i as nat);
    lemma_temp_not_ok(ok, step_state(blast_ult(s, args)), s, s, Sort::BitVec(w));
    lemma_temp_step(ok, a, s, Sort::BitVec(w), fl);
    let a1 = assign(a, lt.name, fl);
    let (s2, r) = temp(s1, Sort::BitVec(1));
    let fr = |i: int| lt_upto(a, x, y, (w - 1) as nat);
    lemma_temp_not_ok(ok, step_state(blast_ult(s, args)), s, s1, Sort::BitVec(1));
    lemma_temp_step(ok, a1, s1, Sort::BitVec(1), fr);
    let a2 = assign(a1, r.name, fr);
    lemma_same_old_trans(ok, a2, a1, a, s.next as nat, s1.next as nat);
    let cs = ult_clauses(x, y, lt.name, r.name, w as nat);
    law_ult_clauses(a2, x, y, lt.name, r.name, w as nat);
    lemma_ult_within(x, y, lt.name, r.name, w as nat);
    lemma_old_mono(ok, s.next as nat, s2.next as nat, x);
    lemma_old_mono(ok, s.next as nat, s2.next as nat, y);
    lemma_old_mono(ok, s1.next as nat, s2.next as nat, lt.name);
    assert(lt.name != r.name);
    assert forall|i: int| 0 <= i < w implies #[trigger] ult_chain(a2, x, y, lt.name, i) by {
        assert(a2(x, i) == a(x, i));
        assert(a2(y, i) == a(y, i));
        assert(a2(lt.name, i) == fl(i));
        if i > 0 {
            assert(a2(lt.name, i - 1) == fl(i - 1));
        }
    }
    assert(a2(lt.name, w - 1) == fl(w - 1));
    lemma_clauses_step(ok, a2, s2, cs, set![x, y, lt.name, r.name]);
    a2
}

proof fn lemma_bv_value_same(a: spec_fn(Seq<char>, int) -> bool, b: spec_fn(Seq<char>, int) -> bool, x: Seq<char>, n: nat)
    requires
        forall|i: int| 0 <= i < n ==> #[trigger] a(x, i) == b(x, i),
    ensures
        bv_value(a, x, n) == bv_value(b, x, n),
    decreases n,
{
    if n > 0 {
        lemma_bv_value_same(a, b, x, (n - 1) as nat);
        assert(a(x, n - 1) == b(x, n - 1));
    }
}

/// Numbers below `2^n` with the same low `n` bits are equal.
proof fn lemma_bits_inj(m1: nat, m2: nat, n: nat)
    requires
        m1 < pow2(n),
        m2 < pow2(n),
        forall|i: nat| i < n ==> #[trigger] bit_of(m1, i) == bit_of(m2, i),
    ensures
        m1 == m2,
    decreases n,
{
    if n == 0 {
        vstd::arithmetic::power2::lemma2_to64();
    } else {
        lemma_pow2_unfold(n);
        assert(bit_of(m1, 0) == bit_of(m2, 0));
        assert forall|i: nat| i < (n - 1) as nat implies #[trigger] bit_of(m1 / 2, i) == bit_of(m2 / 2, i) by {
            assert(bit_of(m1, i + 1) == bit_of(m2, i + 1));
        }
        lemma_bits_inj(m1 / 2, m2 / 2, (n - 1) as nat);
    }
}

/// Bits that are those of `m < 2^n` have the value `m`.
proof fn lemma_value_of_bits(a: spec_fn(Seq<char>, int) -> bool, d: Seq<char>, m: nat, n: nat)
    requires
        m < pow2(n),
        forall|i: int| 0 <= i < n ==> #[trigger] a(d, i) == bit_of(m, i as nat),
    ensures
        bv_value(a, d, n) == m,
{
    let v = bv_value(a, d, n);
    lemma_bv_value_bound(a, d, n);
    assert forall|i: nat| i < n implies #[trigger] bit_of(v, i) == bit_of(m, i) by {
        lemma_bit_of_value(a, d, n, i);
        assert(a(d, i as int) == bit_of(m, i));
    }
    lemma_bits_inj(v, m, n);
}

proof fn lemma_add_ext(ok: spec_fn(Seq<char>) -> bool, a: spec_fn(Seq<char>, int) -> bool, s: StateView, args: Seq<BvVarView>) -> (a2: spec_fn(Seq<char>, int) -> bool)
    requires
        blast_bv_add(s, args) is Ok,
        names_ok(ok, s),
        args_old(ok, s, args),
        cnf_holds(a, s.clauses),
        s.next + step_state(blast_bv_add(s, args)).vars.len() - s.vars.len() < usize::MAX,
        new_hidden_outside(step_state(blast_bv_add(s, args)), s, ok),
    ensures
        names_ok(ok, step_state(blast_bv_add(s, args))),
        cnf_holds(a2, step_state(blast_bv_add(s, args)).clauses),
        same_old(ok, a2, a, s.next as nat),
        step_state(blast_bv_add(s, args)).next - s.next <= step_state(blast_bv_add(s, args)).vars.len() - s.vars.len(),
        step_state(blast_bv_add(s, args)).next >= s.next,
        old_name(ok, step_state(blast_bv_add(s, args)).next as nat, step_var(blast_bv_add(s, args)).name),
{
    let w = width(args[0].sort);
    let x = args[0].name;
    let y = args[1].name;
    assert(old_name(ok, s.next as nat, x) && old_name(ok, s.next as nat, y));
    let (s1, sum) = temp(s, Sort::BitVec(w));
    let fs = |i: int| (a(x, i) != a(y, i)) != carry_upto(a, x, y, i as nat);
    lemma_temp_not_ok(ok, step_state(blast_bv_add(s, args)), s, s, Sort::BitVec(w));
    lemma_temp_step(ok, a, s, Sort::BitVec(w), fs);
    let a1 = assign(a, sum.name, fs);
    let (s2, c) = temp(s1, Sort::BitVec((w + 1) as u128));
    let fc = |i: int| carry_upto(a, x, y, i as nat);
    lemma_temp_not_ok(ok, step_state(blast_bv_add(s, args)), s, s1, Sort::BitVec((w + 1) as u128));
    lemma_temp_step(ok, a1, s1, Sort::BitVec((w + 1) as u128), fc);
    let a2 = assign(a1, c.name, fc);
    lemma_same_old_trans(ok, a2, a1, a, s.next as nat, s1.next as nat);
    let cs = adder_clauses(x, y, c.name, sum.name, w as nat);
    law_add_clauses(a2, x, y, c.name, sum.name, w as nat);
    lemma_adder_within(x, y, c.name, sum.name, w as nat);
    lemma_old_mono(ok, s.next as nat, s2.next as nat, x);
    lemma_old_mono(ok, s.next as nat, s2.next as nat, y);
    lemma_old_mono(ok, s1.next as nat, s2.next as nat, sum.name);
    assert(sum.name != c.name);
    assert(a2(c.name, 0) == fc(0));
    assert forall|i: int| 0 <= i < w implies #[trigger] adder_bit(a2, x, y, c.name, sum.name, i) by {
        assert(a2(x, i) == a(x, i));
        assert(a2(y, i) == a(y, i));
        assert(a2(sum.name, i) == fs(i));
        assert(a2(c.name, i) == fc(i));
        assert(a2(c.name, i + 1) == fc(i + 1));
    }
    lemma_clauses_step(ok, a2, s2, cs, set![x, y, c.name, sum.name]);
    a2
}

proof fn lemma_sub_ext(ok: spec_fn(Seq<char>) -> bool, a: spec_fn(Seq<char>, int) -> bool, s: StateView, args: Seq<BvVarView>) -> (a2: spec_fn(Seq<char>, int) -> bool)
    requires
        blast_bv_sub(s, args) is Ok,
        names_ok(ok, s),
        args_old(ok, s, args),
        cnf_holds(a, s.clauses),
        s.next + step_state(blast_bv_sub(s, args)).vars.len() - s.vars.len() < usize::MAX,
        new_hidden_outside(step_state(blast_bv_sub(s, args)), s, ok),
    ensures
        names_ok(ok, step_state(blast_bv_sub(s, args))),
        cnf_holds(a2, step_state(blast_bv_sub(s, args)).clauses),
        same_old(ok, a2, a, s.next as nat),
        step_state(blast_bv_sub(s, args)).next - s.next <= step_state(blast_bv_sub(s, args)).vars.len() - s.vars.len(),
        step_state(blast_bv_sub(s, args)).next >= s.next,
        old_name(ok, step_state(blast_bv_sub(s, args)).next as nat, step_var(blast_bv_sub(s, args)).name),
{
    let w = width(args[0].sort);
    let n = w as nat;
    let x = args[0].name;
    let y = args[1].name;
    assert(old_name(ok, s.next as nat, x) && old_name(ok, s.next as nat, y));
    let p = pow2(n) as int;
    lemma_pow2_pos(n);
    let vx = bv_value(a, x, n) as int;
    let vy = bv_value(a, y, n) as int;
    let vd = (vx - vy) % p;
    let (s1, d) = temp(s, Sort::BitVec(w));
    let fd = |i: int| bit_of(vd as nat, i as nat);
    lemma_temp_not_ok(ok, step_state(blast_bv_sub(s, args)), s, s, Sort::BitVec(w));
    lemma_temp_step(ok, a, s, Sort::BitVec(w), fd);
    let a1 = assign(a, d.name, fd);
    let (s2, c) = temp(s1, Sort::BitVec((w + 1) as u128));
    let fc = |i: int| carry_upto(a1, d.name, y, i as nat);
    lemma_temp_not_ok(ok, step_state(blast_bv_sub(s, args)), s, s1, Sort::BitVec((w + 1) as u128));
    lemma_temp_step(ok, a1, s1, Sort::BitVec((w + 1) as u128), fc);
    let a2 = assign(a1, c.name, fc);
    lemma_same_old_trans(ok, a2, a1, a, s.next as nat, s1.next as nat);
    lemma_old_mono(ok, s.next as nat, s2.next as nat, x);
    lemma_old_mono(ok, s.next as nat, s2.next as nat, y);
    lemma_old_mono(ok, s1.next as nat, s2.next as nat, d.name);
    assert(d.name != c.name);
    // the sum of d and y, bit by bit, under a third name
    let z = x + y + d.name + c.name + seq!['_'];
    assert(z.len() > x.len() && z.len() > y.len() && z.len() > d.name.len() && z.len() > c.name.len());
    assert(z != x && z != y && z != d.name && z != c.name);
    let fz = |i: int| (a2(d.name, i) != a2(y, i)) != a2(c.name, i);
    let b = assign(a2, z, fz);
    assert forall|i: int| 0 <= i < n implies #[trigger] adder_bit(b, d.name, y, c.name, z, i) by {
        assert(b(d.name, i) == a1(d.name, i));
        assert(b(y, i) == a1(y, i));
        assert(b(c.name, i) == fc(i));
        assert(b(c.name, i + 1) == fc(i + 1));
    }
    assert(b(c.name, 0) == fc(0));
    law_add_clauses(b, d.name, y, c.name, z, n);
    law_add_result(b, d.name, y, c.name, z, n);
    assert forall|i: int| 0 <= i < n implies #[trigger] b(d.name, i) == bit_of(vd as nat, i as nat) by {
        assert(b(d.name, i) == a1(d.name, i));
    }
    lemma_value_of_bits(b, d.name, vd as nat, n);
    lemma_bv_value_bound(a, y, n);
    lemma_bv_value_bound(a, x, n);
    assert forall|i: int| 0 <= i < n implies #[trigger] b(y, i) == a(y, i) by {}
    lemma_bv_value_same(b, a, y, n);
    assert forall|i: int| 0 <= i < n implies #[trigger] b(x, i) == a(x, i) by {}
    lemma_bv_value_same(b, a, x, n);
    vstd::arithmetic::div_mod::lemma_add_mod_noop(vx - vy, vy, p);
    vstd::arithmetic::div_mod::lemma_small_mod(vy as nat, p as nat);
    vstd::arithmetic::div_mod::lemma_small_mod(vx as nat, p as nat);
    assert(bv_value(b, z, n) == bv_value(b, x, n));
    lemma_bv_value_eq(b, z, x, n);
    assert forall|i: int| 0 <= i < n implies #[trigger] adder_bit(a2, d.name, y, c.name, x, i) by {
        assert(b(z, i) == b(x, i));
        assert(b(x, i) == a2(x, i));
        assert(a2(c.name, i) == fc(i));
        assert(a2(c.name, i + 1) == fc(i + 1));
    }
    assert(a2(c.name, 0) == fc(0));
    let cs = adder_clauses(d.name, y, c.name, x, n);
    law_add_clauses(a2, d.name, y, c.name, x, n);
    lemma_adder_within(d.name, y, c.name, x, n);
    lemma_clauses_step(ok, a2, s2, cs, set![d.name, y, c.name, x]);
    a2
}

/// Splitting a run at the state from which its last builtin function was
/// blasted.
proof fn lemma_split_op(ok: spec_fn(Seq<char>) -> bool, t: StateView, s: StateView, u: StateView, op: Op, args: Seq<BvVarView>)
    requires
        new_hidden_outside(t, s, ok),
        blast_op(u, op, args) is Ok,
        t == step_state(blast_op(u, op, args)),
        s.vars.len() <= u.vars.len(),
    ensures
        new_hidden_outside(u, s, ok),
        new_hidden_outside(t, u, ok),
{
    law_blast_op(|n: Seq<char>, i: int| false, u, op, args);
    lemma_new_hidden_split(t, u, s, ok);
}

proof fn lemma_ule_ext(ok: spec_fn(Seq<char>) -> bool, a: spec_fn(Seq<char>, int) -> bool, s: StateView, args: Seq<BvVarView>) -> (a2: spec_fn(Seq<char>, int) -> bool)
    requires
        blast_ule(s, args) is Ok,
        names_ok(ok, s),
        args_old(ok, s, args),
        cnf_holds(a, s.clauses),
        s.next + step_state(blast_ule(s, args)).vars.len() - s.vars.len() < usize::MAX,
        new_hidden_outside(step_state(blast_ule(s, args)), s, ok),
    ensures
        names_ok(ok, step_state(blast_ule(s, args))),
        cnf_holds(a2, step_state(blast_ule(s, args)).clauses),
        same_old(ok, a2, a, s.next as nat),
        step_state(blast_ule(s, args)).next - s.next <= step_state(blast_ule(s, args)).vars.len() - s.vars.len(),
        step_state(blast_ule(s, args)).next >= s.next,
        old_name(ok, step_state(blast_ule(s, args)).next as nat, step_var(blast_ule(s, args)).name),
{
    let (s1, lt) = blast_ult(s, args)->Ok_0;
    let (s2, eq) = blast_eq(s1, args)->Ok_0;
    let t = step_state(blast_ule(s, args));
    assert(blast_op(s, Op::Ult, args) == blast_ult(s, args));
    law_blast_op(a, s, Op::Ult, args);
    assert(t == step_state(blast_op(s2, Op::Or, seq![lt, eq])));
    lemma_split_op(ok, t, s, s2, Op::Or, seq![lt, eq]);
    lemma_split_op(ok, s2, s, s1, Op::Eq, args);
    let a1 = lemma_ult_ext(ok, a, s, args);
    assert(s1.next == s.next + 2);
    lemma_fresh_old(ok, (s.next + 1) as nat);
    assert(lt.name == fresh_name_of((s.next + 1) as nat));
    assert forall|i: int| 0 <= i < args.len() implies old_name(ok, s1.next as nat, #[trigger] args[i].name) by {
        lemma_old_mono(ok, s.next as nat, s1.next as nat, args[i].name);
    }
    let a2 = lemma_eq_ext(ok, a1, s1, args);
    assert(s2.next == s1.next + 2);
    lemma_fresh_old(ok, (s1.next + 1) as nat);
    assert(eq.name == fresh_name_of((s1.next + 1) as nat));
    lemma_old_mono(ok, s1.next as nat, s2.next as nat, lt.name);
    let a3 = lemma_bool_ext(ok, a2, s2, seq![lt, eq], BitGate::Or, Op::Or);
    lemma_same_old_trans(ok, a2, a1, a, s.next as nat, s1.next as nat);
    lemma_same_old_trans(ok, a3, a2, a, s.next as nat, s2.next as nat);
    a3
}

/// The clauses of a builtin function can be met by giving values to its
/// hidden variables only (for an assertion: when its operand bit is set).
proof fn lemma_op_ext(ok: spec_fn(Seq<char>) -> bool, a: spec_fn(Seq<char>, int) -> bool, s: StateView, op: Op, args: Seq<BvVarView>) -> (a2: spec_fn(Seq<char>, int) -> bool)
    requires
        blast_op(s, op, args) is Ok,
        names_ok(ok, s),
        args_old(ok, s, args),
        cnf_holds(a, s.clauses),
        op == Op::Assert ==> a(args[0].name, 0),
        s.next + step_state(blast_op(s, op, args)).vars.len() - s.vars.len() < usize::MAX,
        new_hidden_outside(step_state(blast_op(s, op, args)), s, ok),
    ensures
        names_ok(ok, step_state(blast_op(s, op, args))),
        cnf_holds(a2, step_state(blast_op(s, op, args)).clauses),
        same_old(ok, a2, a, s.next as nat),
        step_state(blast_op(s, op, args)).next - s.next <= step_state(blast_op(s, op, args)).vars.len() - s.vars.len(),
        step_state(blast_op(s, op, args)).next >= s.next,
        old_name(ok, step_state(blast_op(s, op, args)).next as nat, step_var(blast_op(s, op, args)).name),
{
    match op {
        Op::Assert => lemma_assert_ext(ok, a, s, args),
        Op::Eq => lemma_eq_ext(ok, a, s, args),
        Op::Ne => {
            let (s1, e) = blast_eq(s, args)->Ok_0;
            assert(blast_op(s, Op::Eq, args) == blast_eq(s, args));
            law_blast_op(a, s, Op::Eq, args);
            lemma_split_op(ok, step_state(blast_op(s, op, args)), s, s1, Op::Not, seq![e]);
            let a1 = lemma_eq_ext(ok, a, s, args);
            assert(s1.next == s.next + 2);
            lemma_fresh_old(ok, (s.next + 1) as nat);
            assert(e.name == fresh_name_of((s.next + 1) as nat));
            let a2 = lemma_not_ext(ok, a1, s1, seq![e]);
            lemma_same_old_trans(ok, a2, a1, a, s.next as nat, s1.next as nat);
            a2
        },
        Op::Ult => lemma_ult_ext(ok, a, s, args),
        Op::Ule => lemma_ule_ext(ok, a, s, args),
        Op::Ugt => {
            let (s1, le) = blast_ule(s, args)->Ok_0;
            assert(blast_op(s, Op::Ule, args) == blast_ule(s, args));
            law_blast_op(a, s, Op::Ule, args);
            lemma_split_op(ok, step_state(blast_op(s, op, args)), s, s1, Op::Not, seq![le]);
            let a1 = lemma_ule_ext(ok, a, s, args);
            assert(s1.next == s.next + 5);
            lemma_fresh_old(ok, (s.next + 4) as nat);
            assert(le.name == fresh_name_of((s.next + 4) as nat));
            let a2 = lemma_not_ext(ok, a1, s1, seq![le]);
            lemma_same_old_trans(ok, a2, a1, a, s.next as nat, s1.next as nat);
            a2
        },
        Op::Uge => {
            let (s1, lt) = blast_ult(s, args)->Ok_0;
            assert(blast_op(s, Op::Ult, args) == blast_ult(s, args));
            law_blast_op(a, s, Op::Ult, args);
            lemma_split_op(ok, step_state(blast_op(s, op, args)), s, s1, Op::Not, seq![lt]);
            let a1 = lemma_ult_ext(ok, a, s, args);
            assert(s1.next == s.next + 2);
            lemma_fresh_old(ok, (s.next + 1) as nat);
            assert(lt.name == fresh_name_of((s.next + 1) as nat));
            let a2 = lemma_not_ext(ok, a1, s1, seq![lt]);
            lemma_same_old_trans(ok, a2, a1, a, s.next as nat, s1.next as nat);
            a2
        },
        Op::And => lemma_bool_ext(ok, a, s, args, BitGate::And, Op::And),
        Op::Or => lemma_bool_ext(ok, a, s, args, BitGate::Or, Op::Or),
        Op::Xor => lemma_bool_ext(ok, a, s, args, BitGate::Xor, Op::Xor),
        Op::Not => lemma_not_ext(ok, a, s, args),
        Op::Implies => lemma_bool_ext(ok, a, s, args, BitGate::Implies, Op::Implies),
        Op::Ite => lemma_ite_ext(ok, a, s, args),
        Op::BvAnd => lemma_bitwise_ext(ok, a, s, args, BitGate::And, Op::BvAnd),
        Op::BvOr => lemma_bitwise_ext(ok, a, s, args, BitGate::Or, Op::BvOr),
        Op::BvXor => lemma_bitwise_ext(ok, a, s, args, BitGate::Xor, Op::BvXor),
        Op::BvNand => lemma_bitwise_ext(ok, a, s, args, BitGate::Nand, Op::BvNand),
        Op::BvNor => lemma_bitwise_ext(ok, a, s, args, BitGate::Nor, Op::BvNor),
        Op::BvXnor => lemma_bitwise_ext(ok, a, s, args, BitGate::Xnor, Op::BvXnor),
        Op::BvNot => lemma_bv_not_ext(ok, a, s, args),
        Op::BvAdd => lemma_add_ext(ok, a, s, args),
        Op::BvSub => lemma_sub_ext(ok, a, s, args),
    }
}

// ---------------------------------------------------------------------
// Expressions and programs
// ---------------------------------------------------------------------

/// `a` gives every name that `ok` admits the bits that `a0` gives it.
pub open spec fn same_ok(ok: spec_fn(Seq<char>) -> bool, a: spec_fn(Seq<char>, int) -> bool, a0: spec_fn(Seq<char>, int) -> bool) -> bool {
    forall|n: Seq<char>, i: int| ok(n) ==> #[trigger] a(n, i) == a0(n, i)
}

proof fn lemma_same_ok_keep(ok: spec_fn(Seq<char>) -> bool, b: spec_fn(Seq<char>, int) -> bool, a: spec_fn(Seq<char>, int) -> bool, a0: spec_fn(Seq<char>, int) -> bool, next: nat)
    requires
        same_old(ok, b, a, next),
        same_ok(ok, a, a0),
    ensures
        same_ok(ok, b, a0),
{
    assert forall|n: Seq<char>, i: int| ok(n) implies #[trigger] b(n, i) == a0(n, i) by {
        assert(old_name(ok, next, n));
        assert(b(n, i) == a(n, i));
        assert(a(n, i) == a0(n, i));
    }
}

proof fn lemma_holds_keep(ok: spec_fn(Seq<char>) -> bool, a: spec_fn(Seq<char>, int) -> bool, b: spec_fn(Seq<char>, int) -> bool, r: BvVarView, v: Val, next: nat)
    requires
        holds_val(a, r, v),
        old_name(ok, next, r.name),
        same_old(ok, b, a, next),
    ensures
        holds_val(b, r, v),
{
    assert forall|i: int| 0 <= i < width(r.sort) implies #[trigger] b(r.name, i) == (v.bits)(i) by {
        assert(b(r.name, i) == a(r.name, i));
        assert(a(r.name, i) == (v.bits)(i));
    }
}

/// Completeness of blasting one expression: when the expression evaluates
/// under `a0` with its assertions true, an assignment that satisfies the
/// clauses so far and gives the names that `ok` admits the bits of `a0` extends, on new
/// hidden variables only, to one that satisfies the clauses after it, in
/// which the result variable holds the expression's value.
pub proof fn law_expr_complete(ok: spec_fn(Seq<char>) -> bool, a0: spec_fn(Seq<char>, int) -> bool, a: spec_fn(Seq<char>, int) -> bool, s: StateView, env: Seq<BvVarView>, e: ExprView) -> (a2: spec_fn(Seq<char>, int) -> bool)
    requires
        blast_expr(s, e) is Ok,
        names_in(e, ok),
        agree(s.vars, env, ok),
        names_ok(ok, s),
        cnf_holds(a, s.clauses),
        same_ok(ok, a, a0),
        eval_expr(a0, env, e) matches Some(o) && o.holds,
        s.next + step_state(blast_expr(s, e)).vars.len() - s.vars.len() < usize::MAX,
        new_hidden_outside(step_state(blast_expr(s, e)), s, ok),
    ensures
        names_ok(ok, step_state(blast_expr(s, e))),
        cnf_holds(a2, step_state(blast_expr(s, e)).clauses),
        same_old(ok, a2, a, s.next as nat),
        step_state(blast_expr(s, e)).next - s.next <= step_state(blast_expr(s, e)).vars.len() - s.vars.len(),
        step_state(blast_expr(s, e)).next >= s.next,
        old_name(ok, step_state(blast_expr(s, e)).next as nat, step_var(blast_expr(s, e)).name),
        holds_val(a2, step_var(blast_expr(s, e)), eval_expr(a0, env, e)->Some_0.val),
        agree(step_state(blast_expr(s, e)).vars, eval_expr(a0, env, e)->Some_0.env, ok),
    decreases e,
{
    match e {
        ExprView::Var(n) => {
            lemma_lookup_name(s.vars, n);
            assert(var_lookup(s.vars, n) == var_lookup(env, n));
            let v = var_lookup(s.vars, n)->Some_0;
            assert forall|i: int| 0 <= i < width(v.sort) implies #[trigger] a(v.name, i) == a0(n, i) by {}
            a
        },
        ExprView::List(l) => {
            lemma_names_in_list(l, ok);
            law_list_complete(ok, a0, a, s, env, l)
        },
        ExprView::Int(_) => a,
    }
}

/// Completeness of blasting a list expression.
pub proof fn law_list_complete(ok: spec_fn(Seq<char>) -> bool, a0: spec_fn(Seq<char>, int) -> bool, a: spec_fn(Seq<char>, int) -> bool, s: StateView, env: Seq<BvVarView>, l: Seq<ExprView>) -> (a2: spec_fn(Seq<char>, int) -> bool)
    requires
        blast_list(s, l) is Ok,
        forall|i: int| 0 <= i < l.len() ==> #[trigger] names_in(l[i], ok),
        agree(s.vars, env, ok),
        names_ok(ok, s),
        cnf_holds(a, s.clauses),
        same_ok(ok, a, a0),
        eval_list(a0, env, l) matches Some(o) && o.holds,
        s.next + step_state(blast_list(s, l)).vars.len() - s.vars.len() < usize::MAX,
        new_hidden_outside(step_state(blast_list(s, l)), s, ok),
    ensures
        names_ok(ok, step_state(blast_list(s, l))),
        cnf_holds(a2, step_state(blast_list(s, l)).clauses),
        same_old(ok, a2, a, s.next as nat),
        step_state(blast_list(s, l)).next - s.next <= step_state(blast_list(s, l)).vars.len() - s.vars.len(),
        step_state(blast_list(s, l)).next >= s.next,
        old_name(ok, step_state(blast_list(s, l)).next as nat, step_var(blast_list(s, l)).name),
        holds_val(a2, step_var(blast_list(s, l)), eval_list(a0, env, l)->Some_0.val),
        agree(step_state(blast_list(s, l)).vars, eval_list(a0, env, l)->Some_0.env, ok),
    decreases l,
{
    if l.len() == 3 && l[0] == ExprView::Var("to-bv"@) && l[1] is Int && l[2] is Int {
        let size = int_of(l[2]);
        let num = int_of(l[1]) as u128;
        let (s1, t) = temp(s, Sort::BitVec(size as u128));
        let f = |i: int| num_bit(num, i);
        lemma_temp_not_ok(ok, step_state(blast_list(s, l)), s, s, Sort::BitVec(size as u128));
        lemma_temp_step(ok, a, s, Sort::BitVec(size as u128), f);
        let a1 = assign(a, t.name, f);
        let cs = const_clauses(t.name, num, size as nat);
        law_const_clauses(a1, t.name, num, size as nat);
        lemma_const_within(t.name, num, size as nat);
        lemma_clauses_step(ok, a1, s1, cs, set![t.name]);
        lemma_temp_kept(s, Sort::BitVec(size as u128));
        lemma_kept_agree(s1, s, env, ok);
        a1
    } else if l.len() == 3 && l[0] == ExprView::Var("declare-bv-fun"@) && l[1] is Var && l[2] is Int {
        let v = BvVarView { name: name_of(l[1]), sort: Sort::BitVec(int_of(l[2]) as u128), display: true };
        let s1 = with_var(s, v);
        assert(names_in(l[1], ok));
        assert forall|k: int| 0 <= k < s1.vars.len() implies old_name(ok, s1.next as nat, #[trigger] s1.vars[k].name) by {
            if k < s.vars.len() {
                assert(s1.vars[k] == s.vars[k]);
            }
        }
        assert forall|n: Seq<char>| ok(n) implies #[trigger] var_lookup(s1.vars, n) == var_lookup(env.push(v), n) by {
            lemma_lookup_push(s.vars, v, n);
            lemma_lookup_push(env, v, n);
        }
        lemma_temp_not_ok(ok, step_state(blast_list(s, l)), s, s1, Sort::Unit);
        lemma_temp_step(ok, a, s1, Sort::Unit, |i: int| false);
        lemma_temp_kept(s1, Sort::Unit);
        lemma_kept_agree(temp(s1, Sort::Unit).0, s1, env.push(v), ok);
        assign(a, temp(s1, Sort::Unit).1.name, |i: int| false)
    } else if l.len() >= 2 && l[0] == ExprView::Var("declare-bv-fun"@) && l[1] is Var {
        let sig = int_args(l.skip(2))->Ok_0;
        let s1 = with_fun(s, name_of(l[1]), sig);
        lemma_temp_not_ok(ok, step_state(blast_list(s, l)), s, s1, Sort::Unit);
        lemma_temp_step(ok, a, s1, Sort::Unit, |i: int| false);
        lemma_temp_kept(s1, Sort::Unit);
        lemma_kept_agree(temp(s1, Sort::Unit).0, s1, env, ok);
        assign(a, temp(s1, Sort::Unit).1.name, |i: int| false)
    } else {
        let es = l.skip(1);
        assert forall|i: int| 0 <= i < es.len() implies #[trigger] names_in(es[i], ok) by {
            assert(es[i] == l[i + 1]);
        }
        let (s1, bargs) = blast_args(s, es)->Ok_0;
        let op = op_named(name_of(l[0]))->Some_0;
        let t = step_state(blast_op(s1, op, bargs));
        law_blast_op(|n: Seq<char>, i: int| false, s1, op, bargs);
        let (env1, vals, h) = eval_args(a0, env, es)->Some_0;
        let a1 = law_args_complete(ok, a0, a, s, env, es);
        if op == Op::Assert {
            assert(widths_are(bargs, seq![1u128]));
            assert(holds_val(a1, bargs[0], vals[0]));
            assert(a1(bargs[0].name, 0) == (vals[0].bits)(0));
        }
        let a2 = lemma_op_ext(ok, a1, s1, op, bargs);
        assert forall|i: int| 0 <= i < bargs.len() implies #[trigger] holds_val(a2, bargs[i], vals[i]) by {
            assert(old_name(ok, s1.next as nat, bargs[i].name));
            lemma_holds_keep(ok, a1, a2, bargs[i], vals[i], s1.next as nat);
        }
        lemma_op_sound(a2, s1, op, bargs, vals);
        lemma_op_kept(s1, op, bargs);
        lemma_kept_agree(t, s1, env1, ok);
        lemma_same_old_trans(ok, a2, a1, a, s.next as nat, s1.next as nat);
        a2
    }
}

/// Completeness of blasting the arguments of a call.
pub proof fn law_args_complete(ok: spec_fn(Seq<char>) -> bool, a0: spec_fn(Seq<char>, int) -> bool, a: spec_fn(Seq<char>, int) -> bool, s: StateView, env: Seq<BvVarView>, es: Seq<ExprView>) -> (a2: spec_fn(Seq<char>, int) -> bool)
    requires
        blast_args(s, es) is Ok,
        forall|i: int| 0 <= i < es.len() ==> #[trigger] names_in(es[i], ok),
        agree(s.vars, env, ok),
        names_ok(ok, s),
        cnf_holds(a, s.clauses),
        same_ok(ok, a, a0),
        eval_args(a0, env, es) matches Some((_, _, h)) && h,
        s.next + blast_args(s, es)->Ok_0.0.vars.len() - s.vars.len() < usize::MAX,
        new_hidden_outside(blast_args(s, es)->Ok_0.0, s, ok),
    ensures
        ({
            let (t, bargs) = blast_args(s, es)->Ok_0;
            let (env1, vals, h) = eval_args(a0, env, es)->Some_0;
            &&& names_ok(ok, t)
            &&& cnf_holds(a2, t.clauses)
            &&& same_old(ok, a2, a, s.next as nat)
            &&& t.next >= s.next
            &&& t.next - s.next <= t.vars.len() - s.vars.len()
            &&& vals.len() == bargs.len()
            &&& forall|i: int| 0 <= i < bargs.len() ==> old_name(ok, t.next as nat, #[trigger] bargs[i].name)
            &&& forall|i: int| 0 <= i < bargs.len() ==> #[trigger] holds_val(a2, bargs[i], vals[i])
            &&& agree(t.vars, env1, ok)
        }),
    decreases es,
{
    if es.len() == 0 {
        a
    } else {
        let init = es.drop_last();
        assert forall|i: int| 0 <= i < init.len() implies #[trigger] names_in(init[i], ok) by {
            assert(init[i] == es[i]);
        }
        let (s1, vs) = blast_args(s, init)->Ok_0;
        law_blast_expr_extends(s1, es.last());
        let a1 = law_args_complete(ok, a0, a, s, env, init);
        let (env1, vals, h) = eval_args(a0, env, init)->Some_0;
        assert(names_in(es[es.len() - 1], ok));
        lemma_same_ok_keep(ok, a1, a, a0, s.next as nat);
        let a2 = law_expr_complete(ok, a0, a1, s1, env1, es.last());
        let t = step_state(blast_expr(s1, es.last()));
        let o = eval_expr(a0, env1, es.last())->Some_0;
        let bargs = blast_args(s, es)->Ok_0.1;
        assert(bargs == vs.push(step_var(blast_expr(s1, es.last()))));
        assert forall|i: int| 0 <= i < bargs.len() implies old_name(ok, t.next as nat, #[trigger] bargs[i].name) by {
            if i < vs.len() {
                assert(bargs[i] == vs[i]);
                lemma_old_mono(ok, s1.next as nat, t.next as nat, vs[i].name);
            }
        }
        assert forall|i: int| 0 <= i < bargs.len() implies #[trigger] holds_val(a2, bargs[i], vals.push(o.val)[i]) by {
            if i < vs.len() {
                assert(bargs[i] == vs[i]);
                assert(holds_val(a1, vs[i], vals[i]));
                lemma_holds_keep(ok, a1, a2, vs[i], vals[i], s1.next as nat);
            }
        }
        lemma_same_old_trans(ok, a2, a1, a, s.next as nat, s1.next as nat);
        a2
    }
}

/// `n` is the name of a hidden variable that `t` has past the variables of
/// `s`.
pub open spec fn new_hidden_name(t: StateView, s: StateView, n: Seq<char>) -> bool {
    exists|i: int| s.vars.len() <= i < t.vars.len() && !t.vars[i].display && #[trigger] t.vars[i].name == n
}

/// Blasting the sum `x + y` and then the difference of that sum and `y`
/// loses no model: when no hidden variable that these two steps make has a
/// name that occurs in `s` (in its clauses or variables) or names `x` or
/// `y` (and ids and variables stay below `usize::MAX`), every assignment
/// that satisfies the clauses before extends, changing only the bits of
/// those hidden variables, to one that satisfies the clauses after.
pub proof fn law_sub_add_extends(a: spec_fn(Seq<char>, int) -> bool, s: StateView, x: BvVarView, y: BvVarView) -> (a2: spec_fn(Seq<char>, int) -> bool)
    requires
        blast_bv_add(s, seq![x, y]) is Ok,
        forall|j: int, k: int| 0 <= j < s.clauses.len() && 0 <= k < s.clauses[j].len()
            ==> !new_hidden_name(step_state(add_then_sub(s, x, y)), s, #[trigger] s.clauses[j][k].name),
        forall|k: int| 0 <= k < s.vars.len() ==> !new_hidden_name(step_state(add_then_sub(s, x, y)), s, #[trigger] s.vars[k].name),
        !new_hidden_name(step_state(add_then_sub(s, x, y)), s, x.name),
        !new_hidden_name(step_state(add_then_sub(s, x, y)), s, y.name),
        cnf_holds(a, s.clauses),
        s.next + step_state(add_then_sub(s, x, y)).vars.len() - s.vars.len() < usize::MAX,
    ensures
        cnf_holds(a2, step_state(add_then_sub(s, x, y)).clauses),
        forall|n: Seq<char>, i: int| !new_hidden_name(step_state(add_then_sub(s, x, y)), s, n) ==> #[trigger] a2(n, i) == a(n, i),
{
    let out = step_state(add_then_sub(s, x, y));
    let ok = |n: Seq<char>| !new_hidden_name(out, s, n);
    law_sub_undoes_add(a, s, x, y);
    assert(blast_op(s, Op::BvAdd, seq![x, y]) == blast_bv_add(s, seq![x, y]));
    let s1 = step_state(blast_op(s, Op::BvAdd, seq![x, y]));
    let r = step_var(blast_op(s, Op::BvAdd, seq![x, y]));
    assert(add_then_sub(s, x, y) == blast_op(s1, Op::BvSub, seq![r, y]));
    let s2 = step_state(blast_op(s1, Op::BvSub, seq![r, y]));
    law_blast_op(a, s, Op::BvAdd, seq![x, y]);
    law_blast_op(a, s1, Op::BvSub, seq![r, y]);
    assert(s1.vars.len() <= s2.vars.len());
    assert(new_hidden_outside(out, s, ok)) by {
        assert forall|i: int| s.vars.len() <= i < out.vars.len() && !out.vars[i].display implies !ok((#[trigger] out.vars[i]).name) by {
            assert(new_hidden_name(out, s, out.vars[i].name));
        }
    }
    lemma_new_hidden_split(out, s1, s, ok);
    assert(names_ok(ok, s)) by {
        assert forall|j: int, k: int| 0 <= j < s.clauses.len() && 0 <= k < s.clauses[j].len() implies old_name(ok, s.next as nat, #[trigger] s.clauses[j][k].name) by {
            assert(ok(s.clauses[j][k].name));
        }
        assert forall|k: int| 0 <= k < s.vars.len() implies old_name(ok, s.next as nat, #[trigger] s.vars[k].name) by {
            assert(ok(s.vars[k].name));
        }
    }
    assert(seq![x, y][0] == x && seq![x, y][1] == y && seq![r, y][0] == r && seq![r, y][1] == y);
    assert(ok(x.name) && ok(y.name));
    assert(args_old(ok, s, seq![x, y]));
    let a1 = lemma_op_ext(ok, a, s, Op::BvAdd, seq![x, y]);
    assert(old_name(ok, s.next as nat, y.name));
    lemma_old_mono(ok, s.next as nat, s1.next as nat, y.name);
    assert(args_old(ok, s1, seq![r, y]));
    let a2 = lemma_op_ext(ok, a1, s1, Op::BvSub, seq![r, y]);
    lemma_same_old_trans(ok, a2, a1, a, s.next as nat, s1.next as nat);
    assert forall|n: Seq<char>, i: int| !new_hidden_name(out, s, n) implies #[trigger] a2(n, i) == a(n, i) by {
        assert(ok(n));
        assert(old_name(ok, s.next as nat, n));
    }
    a2
}

/// Completeness of blasting a program from a state.
pub proof fn law_program_complete_from(ok: spec_fn(Seq<char>) -> bool, a0: spec_fn(Seq<char>, int) -> bool, a: spec_fn(Seq<char>, int) -> bool, s: StateView, env: Seq<BvVarView>, p: Seq<ExprView>) -> (a2: spec_fn(Seq<char>, int) -> bool)
    requires
        blast_program(s, p) is Ok,
        forall|i: int| 0 <= i < p.len() ==> #[trigger] names_in(p[i], ok),
        agree(s.vars, env, ok),
        names_ok(ok, s),
        cnf_holds(a, s.clauses),
        same_ok(ok, a, a0),
        eval_program(a0, env, p) matches Some((_, h)) && h,
        s.next + blast_program(s, p)->Ok_0.vars.len() - s.vars.len() < usize::MAX,
        new_hidden_outside(blast_program(s, p)->Ok_0, s, ok),
    ensures
        names_ok(ok, blast_program(s, p)->Ok_0),
        cnf_holds(a2, blast_program(s, p)->Ok_0.clauses),
        same_old(ok, a2, a, s.next as nat),
        blast_program(s, p)->Ok_0.next - s.next <= blast_program(s, p)->Ok_0.vars.len() - s.vars.len(),
        blast_program(s, p)->Ok_0.next >= s.next,
        agree(blast_program(s, p)->Ok_0.vars, eval_program(a0, env, p)->Some_0.0, ok),
    decreases p.len(),
{
    if p.len() == 0 {
        a
    } else {
        let init = p.drop_last();
        assert forall|i: int| 0 <= i < init.len() implies #[trigger] names_in(init[i], ok) by {
            assert(init[i] == p[i]);
        }
        let s1 = blast_program(s, init)->Ok_0;
        law_blast_expr_extends(s1, p.last());
        let a1 = law_program_complete_from(ok, a0, a, s, env, init);
        let (env1, h) = eval_program(a0, env, init)->Some_0;
        assert(names_in(p[p.len() - 1], ok));
        lemma_same_ok_keep(ok, a1, a, a0, s.next as nat);
        let a2 = law_expr_complete(ok, a0, a1, s1, env1, p.last());
        lemma_same_old_trans(ok, a2, a1, a, s.next as nat, s1.next as nat);
        a2
    }
}

/// Blasting is complete: for a program none of whose names is the name of
/// a hidden variable that blasting it makes, blasted with fresh ids from
/// `k` on (and whose ids and variables stay below `usize::MAX`), every
/// assignment that makes the program hold (every top-level expression a
/// declaration or an assertion, and every assertion true) extends, on the
/// hidden variables only, to an assignment that satisfies all of the
/// program's clauses.
pub proof fn law_program_complete(a0: spec_fn(Seq<char>, int) -> bool, k: usize, p: Seq<ExprView>) -> (a: spec_fn(Seq<char>, int) -> bool)
    requires
        blast_program(start_state(k), p) is Ok,
        forall|i: int| 0 <= i < p.len() ==> #[trigger] names_in(p[i], free_names(k, p)),
        eval_program(a0, Seq::empty(), p) matches Some((_, h)) && h,
        k + blast_program(start_state(k), p)->Ok_0.vars.len() < usize::MAX,
    ensures
        cnf_holds(a, blast_program(start_state(k), p)->Ok_0.clauses),
        forall|n: Seq<char>, i: int| (free_names(k, p))(n) ==> #[trigger] a(n, i) == a0(n, i),
{
    let ok = free_names(k, p);
    let s = start_state(k);
    lemma_free_names(k, p);
    assert(cnf_holds(a0, s.clauses));
    assert(clauses_old(ok, s.clauses, k as nat));
    let a = law_program_complete_from(ok, a0, a0, s, Seq::empty(), p);
    lemma_same_ok_keep(ok, a, a0, a0, k as nat);
    a
}

/// Blasting neither adds nor loses solutions: for a program none of whose
/// names is the name of a hidden variable that blasting it makes, blasted
/// with fresh ids from `k` on (and whose ids and variables stay below
/// `usize::MAX`), its clauses can be satisfied exactly when some assignment
/// of the declared variables makes the program hold.
pub proof fn law_blasting_exact(k: usize, p: Seq<ExprView>)
    requires
        blast_program(start_state(k), p) is Ok,
        forall|i: int| 0 <= i < p.len() ==> #[trigger] names_in(p[i], free_names(k, p)),
        k + blast_program(start_state(k), p)->Ok_0.vars.len() < usize::MAX,
    ensures
        (exists|a: spec_fn(Seq<char>, int) -> bool| cnf_holds(a, blast_program(start_state(k), p)->Ok_0.clauses))
            <==> (exists|a0: spec_fn(Seq<char>, int) -> bool| #[trigger] eval_program(a0, Seq::empty(), p) matches Some((_, h)) && h),
{
    let cs = blast_program(start_state(k), p)->Ok_0.clauses;
    if exists|a: spec_fn(Seq<char>, int) -> bool| cnf_holds(a, cs) {
        let a = choose|a: spec_fn(Seq<char>, int) -> bool| cnf_holds(a, cs);
        law_program_sound(a, k, p);
    }
    if exists|a0: spec_fn(Seq<char>, int) -> bool| #[trigger] eval_program(a0, Seq::empty(), p) matches Some((_, h)) && h {
        let a0 = choose|a0: spec_fn(Seq<char>, int) -> bool| #[trigger] eval_program(a0, Seq::empty(), p) matches Some((_, h)) && h;
        let a = law_program_complete(a0, k, p);
    }
}

/// A model of the numbered clauses of a program none of whose names is the
/// name of a hidden variable that blasting it makes is a model of the
/// program: under the assignment it gives the variables, every assertion
/// holds.
pub proof fn law_model_sound(k: usize, p: Seq<ExprView>, slots: Seq<SlotView>, enc: Seq<Vec<SatLit>>, m: Seq<bool>)
    requires
        blast_program(start_state(k), p) is Ok,
        forall|i: int| 0 <= i < p.len() ==> #[trigger] names_in(p[i], free_names(k, p)),
        encodes_cnf(slots, blast_program(start_state(k), p)->Ok_0.clauses, enc),
        sat_cnf_holds(m, enc),
    ensures
        eval_program(model_assignment(slots, m), Seq::empty(), p) matches Some((_, h)) && h,
{
    law_encoding(slots, blast_program(start_state(k), p)->Ok_0.clauses, enc, m);
    law_program_sound(model_assignment(slots, m), k, p);
}

} // verus!
