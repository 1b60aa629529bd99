//! What blasting guarantees: clauses and variables are only ever added,
//! and under every assignment that satisfies the clauses, the variable
//! that holds the result of a builtin function holds the function of its
//! arguments.
use vstd::prelude::*;
use vstd::arithmetic::power2::{pow2, lemma_pow2_pos};
use crate::vars::{Sort, BvVarView, Literal};
use crate::cnf::{cnf_holds, per_bit, lemma_cnf_concat};
use crate::gates::{
    BitGate, gate_op, gate_bit, gate_bits, gate_clauses, not_bit, not_bits, not_clauses, bv_value,
    law_gate_clauses, law_not_clauses, law_eq_result, law_ult_result, law_add_result, law_assert_clauses,
    lemma_bv_value_bound, assert_clauses,
};
use crate::check::{
    StateView, Op, width, widths_are, temp, with_clauses, blast_op, blast_bitwise, blast_bool, blast_not,
    blast_bv_not, blast_assert, blast_eq, blast_ult, blast_ule, blast_ite, blast_add_triple, blast_expr, blast_list,
    blast_args, with_var, with_fun, int_args, int_of, name_of, blast_program, op_named,
    Step, blast_bv_add, blast_bv_sub, common_width,
};
use crate::syntax::ExprView;

verus! {

/// The state `t` extends the state `s`: it keeps all of its clauses and
/// variables, in order, and may add more after them.
pub open spec fn extends(t: StateView, s: StateView) -> bool {
    &&& s.clauses.len() <= t.clauses.len()
    &&& t.clauses.take(s.clauses.len() as int) == s.clauses
    &&& s.vars.len() <= t.vars.len()
    &&& t.vars.take(s.vars.len() as int) == s.vars
}

/// `n` is the name of a hidden variable of `vars`: one that blasting made
/// for a subexpression or a declaration, not a declared variable.
pub open spec fn hidden_name(vars: Seq<BvVarView>, n: Seq<char>) -> bool {
    exists|i: int| 0 <= i < vars.len() && !vars[i].display && #[trigger] vars[i].name == n
}

/// No hidden variable that `t` has past the first `s.vars.len()` variables
/// has a name that `ok` admits.
pub open spec fn new_hidden_outside(t: StateView, s: StateView, ok: spec_fn(Seq<char>) -> bool) -> bool {
    forall|i: int| s.vars.len() <= i < t.vars.len() && !t.vars[i].display ==> !ok((#[trigger] t.vars[i]).name)
}

/// Splitting a run `s` to `t` at a state `u` that `t` extends.
pub proof fn lemma_new_hidden_split(t: StateView, u: StateView, s: StateView, ok: spec_fn(Seq<char>) -> bool)
    requires
        new_hidden_outside(t, s, ok),
        extends(t, u),
        s.vars.len() <= u.vars.len(),
    ensures
        new_hidden_outside(u, s, ok),
        new_hidden_outside(t, u, ok),
{
    assert forall|i: int| s.vars.len() <= i < u.vars.len() && !u.vars[i].display implies !ok((#[trigger] u.vars[i]).name) by {
        assert(t.vars.take(u.vars.len() as int)[i] == t.vars[i]);
    }
}

/// The unsigned value of the variable `v` under `a`.
pub open spec fn value_of(a: spec_fn(Seq<char>, int) -> bool, v: BvVarView) -> nat {
    bv_value(a, v.name, width(v.sort) as nat)
}

/// What a builtin function computes, stated over the values of its
/// arguments and of the variable `r` that holds its result.
pub open spec fn op_holds(a: spec_fn(Seq<char>, int) -> bool, op: Op, args: Seq<BvVarView>, r: BvVarView) -> bool {
    let w = width(args[0].sort) as nat;
    let x = args[0].name;
    let y = args[1].name;
    let vx = bv_value(a, x, w) as int;
    let vy = bv_value(a, y, w) as int;
    let p = pow2(w) as int;
    match op {
        Op::Assert => r.sort == Sort::Unit && a(x, 0),
        Op::Eq => r.sort == Sort::BitVec(1) && a(r.name, 0) == (vx == vy),
        Op::Ne => r.sort == Sort::BitVec(1) && a(r.name, 0) == (vx != vy),
        Op::Ult => r.sort == Sort::BitVec(1) && a(r.name, 0) == (vx < vy),
        Op::Ugt => r.sort == Sort::BitVec(1) && a(r.name, 0) == (vx > vy),
        Op::Ule => r.sort == Sort::BitVec(1) && a(r.name, 0) == (vx <= vy),
        Op::Uge => r.sort == Sort::BitVec(1) && a(r.name, 0) == (vx >= vy),
        Op::And => r.sort == Sort::BitVec(1) && a(r.name, 0) == (a(x, 0) && a(y, 0)),
        Op::Or => r.sort == Sort::BitVec(1) && a(r.name, 0) == (a(x, 0) || a(y, 0)),
        Op::Xor => r.sort == Sort::BitVec(1) && a(r.name, 0) == (a(x, 0) != a(y, 0)),
        Op::Not => r.sort == Sort::BitVec(1) && a(r.name, 0) == !a(x, 0),
        Op::BvAnd => r.sort == args[0].sort && forall|i: int| 0 <= i < w ==> #[trigger] a(r.name, i) == (a(x, i) && a(y, i)),
        Op::BvOr => r.sort == args[0].sort && forall|i: int| 0 <= i < w ==> #[trigger] a(r.name, i) == (a(x, i) || a(y, i)),
        Op::BvXor => r.sort == args[0].sort && forall|i: int| 0 <= i < w ==> #[trigger] a(r.name, i) == (a(x, i) != a(y, i)),
        Op::BvNand => r.sort == args[0].sort && forall|i: int| 0 <= i < w ==> #[trigger] a(r.name, i) == !(a(x, i) && a(y, i)),
        Op::BvNor => r.sort == args[0].sort && forall|i: int| 0 <= i < w ==> #[trigger] a(r.name, i) == !(a(x, i) || a(y, i)),
        Op::BvXnor => r.sort == args[0].sort && forall|i: int| 0 <= i < w ==> #[trigger] a(r.name, i) == (a(x, i) == a(y, i)),
        Op::BvNot => r.sort == args[0].sort && forall|i: int| 0 <= i < w ==> #[trigger] a(r.name, i) == !a(x, i),
        Op::BvAdd => r.sort == args[0].sort && value_of(a, r) as int == (vx + vy) % p,
        Op::BvSub => r.sort == args[0].sort && value_of(a, r) as int == (vx - vy) % p,
        Op::Implies => r.sort == Sort::BitVec(1) && a(r.name, 0) == (!a(x, 0) || a(y, 0)),
        Op::Ite => r.sort == args[1].sort && forall|i: int| 0 <= i < width(args[1].sort) ==>
            #[trigger] a(r.name, i) == if a(x, 0) { a(y, i) } else { a(args[2].name, i) },
    }
}

proof fn lemma_with_clauses_holds(a: spec_fn(Seq<char>, int) -> bool, s: StateView, cs: Seq<Seq<Literal>>)
    requires
        cnf_holds(a, with_clauses(s, cs).clauses),
    ensures
        cnf_holds(a, s.clauses),
        cnf_holds(a, cs),
{
    lemma_cnf_concat(a, s.clauses, cs);
}

/// Two values over the same `n` bits are equal exactly when all bits agree.
pub proof fn lemma_bv_value_eq(a: spec_fn(Seq<char>, int) -> bool, x: Seq<char>, y: Seq<char>, n: nat)
    ensures
        (bv_value(a, x, n) == bv_value(a, y, n)) == (forall|i: int| 0 <= i < n ==> #[trigger] a(x, i) == a(y, i)),
    decreases n,
{
    if n > 0 {
        let k = (n - 1) as nat;
        lemma_bv_value_eq(a, x, y, k);
        lemma_bv_value_bound(a, x, k);
        lemma_bv_value_bound(a, y, k);
        if bv_value(a, x, n) == bv_value(a, y, n) {
            assert(a(x, k as int) == a(y, k as int));
            assert forall|i: int| 0 <= i < n implies #[trigger] a(x, i) == a(y, i) by {
                if i < k {
                    assert(bv_value(a, x, k) == bv_value(a, y, k));
                }
            }
        }
        if forall|i: int| 0 <= i < n ==> #[trigger] a(x, i) == a(y, i) {
            assert(a(x, k as int) == a(y, k as int));
            assert forall|i: int| 0 <= i < k implies #[trigger] a(x, i) == a(y, i) by {
                assert(a(x, i) == a(y, i));
            }
        }
    }
}

proof fn lemma_temp_extends(s: StateView, sort: Sort)
    ensures
        extends(temp(s, sort).0, s),
{
    assert(temp(s, sort).0.vars.take(s.vars.len() as int) =~= s.vars);
    assert(temp(s, sort).0.clauses.take(s.clauses.len() as int) =~= s.clauses);
}

proof fn lemma_with_clauses_extends(s: StateView, cs: Seq<Seq<Literal>>)
    ensures
        extends(with_clauses(s, cs), s),
{
    assert(with_clauses(s, cs).clauses.take(s.clauses.len() as int) =~= s.clauses);
    assert(with_clauses(s, cs).vars.take(s.vars.len() as int) =~= s.vars);
}

proof fn lemma_extends_trans(u: StateView, t: StateView, s: StateView)
    requires
        extends(u, t),
        extends(t, s),
    ensures
        extends(u, s),
{
    assert(u.clauses.take(s.clauses.len() as int) =~= t.clauses.take(s.clauses.len() as int));
    assert(u.vars.take(s.vars.len() as int) =~= t.vars.take(s.vars.len() as int));
}

/// Under an assignment that satisfies an extension of `s`, the clauses of
/// `s` hold.
pub proof fn lemma_extends_holds(a: spec_fn(Seq<char>, int) -> bool, t: StateView, s: StateView)
    requires
        extends(t, s),
        cnf_holds(a, t.clauses),
    ensures
        cnf_holds(a, s.clauses),
{
    assert(t.clauses =~= s.clauses + t.clauses.skip(s.clauses.len() as int));
    lemma_cnf_concat(a, s.clauses, t.clauses.skip(s.clauses.len() as int));
}


pub open spec fn step_state(st: crate::check::Step) -> StateView {
    match st {
        Ok((s2, _)) => s2,
        Err(_) => arbitrary(),
    }
}

pub open spec fn step_var(st: crate::check::Step) -> BvVarView {
    match st {
        Ok((_, r)) => r,
        Err(_) => arbitrary(),
    }
}

proof fn lemma_bitwise(a: spec_fn(Seq<char>, int) -> bool, s: StateView, args: Seq<BvVarView>, g: BitGate, op: Op)
    requires
        blast_bitwise(s, args, g, op) is Ok,
    ensures
        ({
            let st = blast_bitwise(s, args, g, op);
            let w = width(args[0].sort) as nat;
            &&& extends(step_state(st), s)
            &&& step_var(st).sort == args[0].sort
            &&& args.len() == 2 && args[1].sort == args[0].sort
            &&& cnf_holds(a, step_state(st).clauses) ==> forall|i: int| 0 <= i < w ==>
                #[trigger] a(step_var(st).name, i) == gate_op(g, a(args[0].name, i), a(args[1].name, i))
        }),
{
    let w = width(args[0].sort);
    assert(args[1].sort == args[0].sort);
    let (s1, r) = temp(s, Sort::BitVec(w));
    let cs = gate_clauses(g, args[0].name, args[1].name, r.name, w as nat);
    lemma_temp_extends(s, Sort::BitVec(w));
    lemma_with_clauses_extends(s1, cs);
    lemma_extends_trans(with_clauses(s1, cs), s1, s);
    if cnf_holds(a, with_clauses(s1, cs).clauses) {
        lemma_with_clauses_holds(a, s1, cs);
        law_gate_clauses(a, g, args[0].name, args[1].name, r.name, w as nat);
    }
}

proof fn lemma_bool(a: spec_fn(Seq<char>, int) -> bool, s: StateView, args: Seq<BvVarView>, g: BitGate, op: Op)
    requires
        blast_bool(s, args, g, op) is Ok,
    ensures
        ({
            let st = blast_bool(s, args, g, op);
            &&& extends(step_state(st), s)
            &&& step_var(st).sort == Sort::BitVec(1)
            &&& widths_are(args, seq![1u128, 1u128])
            &&& cnf_holds(a, step_state(st).clauses) ==>
                a(step_var(st).name, 0) == gate_op(g, a(args[0].name, 0), a(args[1].name, 0))
        }),
{
    let (s1, r) = temp(s, Sort::BitVec(1));
    let cs = gate_bit(g, args[0].name, args[1].name, r.name, 0);
    lemma_temp_extends(s, Sort::BitVec(1));
    lemma_with_clauses_extends(s1, cs);
    lemma_extends_trans(with_clauses(s1, cs), s1, s);
    if cnf_holds(a, with_clauses(s1, cs).clauses) {
        lemma_with_clauses_holds(a, s1, cs);
        let f = gate_bits(g, args[0].name, args[1].name, r.name);
        assert(per_bit(0, f) == Seq::<Seq<Literal>>::empty());
        assert(f(0) == cs);
        assert(per_bit(1, f) == per_bit(0, f) + f(0));
        assert(Seq::<Seq<Literal>>::empty() + cs =~= cs);
        assert(gate_clauses(g, args[0].name, args[1].name, r.name, 1) == cs);
        law_gate_clauses(a, g, args[0].name, args[1].name, r.name, 1);
        assert(a(r.name, 0) == gate_op(g, a(args[0].name, 0), a(args[1].name, 0)));
    }
}

proof fn lemma_ite(a: spec_fn(Seq<char>, int) -> bool, s: StateView, args: Seq<BvVarView>)
    requires
        blast_ite(s, args) is Ok,
    ensures
        ({
            let st = blast_ite(s, args);
            let w = width(args[1].sort) as nat;
            &&& extends(step_state(st), s)
            &&& step_var(st).sort == args[1].sort
            &&& cnf_holds(a, step_state(st).clauses) ==> forall|i: int| 0 <= i < w ==>
                #[trigger] a(step_var(st).name, i) == if a(args[0].name, 0) { a(args[1].name, i) } else { a(args[2].name, i) }
        }),
{
    let w = width(args[1].sort);
    let (s1, r) = temp(s, Sort::BitVec(w));
    let cs = crate::gates::ite_clauses(args[0].name, args[1].name, args[2].name, r.name, w as nat);
    lemma_temp_extends(s, Sort::BitVec(w));
    lemma_with_clauses_extends(s1, cs);
    lemma_extends_trans(with_clauses(s1, cs), s1, s);
    if cnf_holds(a, with_clauses(s1, cs).clauses) {
        lemma_with_clauses_holds(a, s1, cs);
        crate::gates::law_ite_clauses(a, args[0].name, args[1].name, args[2].name, r.name, w as nat);
    }
}

proof fn lemma_not(a: spec_fn(Seq<char>, int) -> bool, s: StateView, args: Seq<BvVarView>)
    requires
        blast_not(s, args) is Ok,
    ensures
        ({
            let st = blast_not(s, args);
            &&& extends(step_state(st), s)
            &&& step_var(st).sort == Sort::BitVec(1)
            &&& args[0].sort == Sort::BitVec(1)
            &&& cnf_holds(a, step_state(st).clauses) ==> a(step_var(st).name, 0) == !a(args[0].name, 0)
        }),
{
    let (s1, r) = temp(s, Sort::BitVec(1));
    let cs = not_bit(args[0].name, r.name, 0);
    lemma_temp_extends(s, Sort::BitVec(1));
    lemma_with_clauses_extends(s1, cs);
    lemma_extends_trans(with_clauses(s1, cs), s1, s);
    if cnf_holds(a, with_clauses(s1, cs).clauses) {
        lemma_with_clauses_holds(a, s1, cs);
        let f = not_bits(args[0].name, r.name);
        assert(per_bit(0, f) == Seq::<Seq<Literal>>::empty());
        assert(f(0) == cs);
        assert(per_bit(1, f) == per_bit(0, f) + f(0));
        assert(Seq::<Seq<Literal>>::empty() + cs =~= cs);
        assert(not_clauses(args[0].name, r.name, 1) == cs);
        law_not_clauses(a, args[0].name, r.name, 1);
        assert(a(r.name, 0) == !a(args[0].name, 0));
    }
}

proof fn lemma_bv_not(a: spec_fn(Seq<char>, int) -> bool, s: StateView, args: Seq<BvVarView>)
    requires
        blast_bv_not(s, args) is Ok,
    ensures
        ({
            let st = blast_bv_not(s, args);
            let w = width(args[0].sort) as nat;
            &&& extends(step_state(st), s)
            &&& step_var(st).sort == args[0].sort
            &&& cnf_holds(a, step_state(st).clauses) ==> forall|i: int| 0 <= i < w ==>
                #[trigger] a(step_var(st).name, i) == !a(args[0].name, i)
        }),
{
    let w = width(args[0].sort);
    let (s1, r) = temp(s, Sort::BitVec(w));
    let cs = not_clauses(args[0].name, r.name, w as nat);
    lemma_temp_extends(s, Sort::BitVec(w));
    lemma_with_clauses_extends(s1, cs);
    lemma_extends_trans(with_clauses(s1, cs), s1, s);
    if cnf_holds(a, with_clauses(s1, cs).clauses) {
        lemma_with_clauses_holds(a, s1, cs);
        law_not_clauses(a, args[0].name, r.name, w as nat);
    }
}

proof fn lemma_assert(a: spec_fn(Seq<char>, int) -> bool, s: StateView, args: Seq<BvVarView>)
    requires
        blast_assert(s, args) is Ok,
    ensures
        ({
            let st = blast_assert(s, args);
            &&& extends(step_state(st), s)
            &&& step_var(st).sort == Sort::Unit
            &&& cnf_holds(a, step_state(st).clauses) ==> a(args[0].name, 0)
        }),
{
    let (s1, t) = temp(s, Sort::Unit);
    let cs = assert_clauses(args[0].name);
    lemma_temp_extends(s, Sort::Unit);
    lemma_with_clauses_extends(s1, cs);
    lemma_extends_trans(with_clauses(s1, cs), s1, s);
    if cnf_holds(a, with_clauses(s1, cs).clauses) {
        lemma_with_clauses_holds(a, s1, cs);
        law_assert_clauses(a, args[0].name);
    }
}

proof fn lemma_eq(a: spec_fn(Seq<char>, int) -> bool, s: StateView, args: Seq<BvVarView>)
    requires
        blast_eq(s, args) is Ok,
    ensures
        ({
            let st = blast_eq(s, args);
            let w = width(args[0].sort) as nat;
            &&& extends(step_state(st), s)
            &&& step_var(st).sort == Sort::BitVec(1)
            &&& args.len() == 2 && args[1].sort == args[0].sort && args[0].sort is BitVec
            &&& cnf_holds(a, step_state(st).clauses) ==> a(step_var(st).name, 0)
                == (bv_value(a, args[0].name, w) == bv_value(a, args[1].name, w))
        }),
{
    let w = width(args[0].sort);
    assert(args[1].sort == args[0].sort);
    let (s1, h) = temp(s, Sort::BitVec(w));
    let (s2, r) = temp(s1, Sort::BitVec(1));
    let cs = crate::gates::eq_clauses(args[0].name, args[1].name, h.name, r.name, w as nat);
    lemma_temp_extends(s, Sort::BitVec(w));
    lemma_temp_extends(s1, Sort::BitVec(1));
    lemma_with_clauses_extends(s2, cs);
    lemma_extends_trans(s2, s1, s);
    lemma_extends_trans(with_clauses(s2, cs), s2, s);
    if cnf_holds(a, with_clauses(s2, cs).clauses) {
        lemma_with_clauses_holds(a, s2, cs);
        law_eq_result(a, args[0].name, args[1].name, h.name, r.name, w as nat);
        lemma_bv_value_eq(a, args[0].name, args[1].name, w as nat);
    }
}

proof fn lemma_ult(a: spec_fn(Seq<char>, int) -> bool, s: StateView, args: Seq<BvVarView>)
    requires
        blast_ult(s, args) is Ok,
    ensures
        ({
            let st = blast_ult(s, args);
            let w = width(args[0].sort) as nat;
            &&& extends(step_state(st), s)
            &&& step_var(st).sort == Sort::BitVec(1)
            &&& args.len() == 2 && args[1].sort == args[0].sort && args[0].sort is BitVec
            &&& cnf_holds(a, step_state(st).clauses) ==> a(step_var(st).name, 0)
                == (bv_value(a, args[0].name, w) < bv_value(a, args[1].name, w))
        }),
{
    let w = width(args[0].sort);
    assert(args[1].sort == args[0].sort);
    let (s1, lt) = temp(s, Sort::BitVec(w));
    let (s2, r) = temp(s1, Sort::BitVec(1));
    let cs = crate::gates::ult_clauses(args[0].name, args[1].name, lt.name, r.name, w as nat);
    lemma_temp_extends(s, Sort::BitVec(w));
    lemma_temp_extends(s1, Sort::BitVec(1));
    lemma_with_clauses_extends(s2, cs);
    lemma_extends_trans(s2, s1, s);
    lemma_extends_trans(with_clauses(s2, cs), s2, s);
    if cnf_holds(a, with_clauses(s2, cs).clauses) {
        lemma_with_clauses_holds(a, s2, cs);
        law_ult_result(a, args[0].name, args[1].name, lt.name, r.name, w as nat);
    }
}

proof fn lemma_add_triple(a: spec_fn(Seq<char>, int) -> bool, s: StateView, x: Seq<char>, y: Seq<char>, sum: Seq<char>, w: u128)
    requires
        blast_add_triple(s, x, y, sum, w) is Ok,
    ensures
        ({
            let s2 = blast_add_triple(s, x, y, sum, w)->Ok_0;
            &&& extends(s2, s)
            &&& cnf_holds(a, s2.clauses) ==> bv_value(a, sum, w as nat) as int
                == (bv_value(a, x, w as nat) + bv_value(a, y, w as nat)) as int % (pow2(w as nat) as int)
        }),
{
    let (s1, c) = temp(s, Sort::BitVec((w + 1) as u128));
    let cs = crate::gates::adder_clauses(x, y, c.name, sum, w as nat);
    lemma_temp_extends(s, Sort::BitVec((w + 1) as u128));
    lemma_with_clauses_extends(s1, cs);
    lemma_extends_trans(with_clauses(s1, cs), s1, s);
    if cnf_holds(a, with_clauses(s1, cs).clauses) {
        lemma_with_clauses_holds(a, s1, cs);
        law_add_result(a, x, y, c.name, sum, w as nat);
    }
}


proof fn lemma_sub_value(vd: int, vx: int, vy: int, p: int)
    requires
        p > 0,
        0 <= vd < p,
        0 <= vx,
        0 <= vy,
        vx == (vd + vy) % p,
    ensures
        vd == (vx - vy) % p,
{
    let t = vd + vy;
    vstd::arithmetic::div_mod::lemma_fundamental_div_mod(t, p);
    let q = t / p;
    assert(vx - vy == (-q) * p + vd) by (nonlinear_arith)
        requires
            t == p * q + vx,
            t == vd + vy,
    ;
    vstd::arithmetic::div_mod::lemma_fundamental_div_mod_converse(vx - vy, p, -q, vd);
}

/// Blasting a builtin function keeps the state's clauses and variables and
/// adds after them; under every assignment that satisfies the new clauses,
/// the result variable holds the function of the argument variables
/// (unsigned comparisons and arithmetic modulo `2^width`).
pub proof fn law_blast_op(a: spec_fn(Seq<char>, int) -> bool, s: StateView, op: Op, args: Seq<BvVarView>)
    requires
        blast_op(s, op, args) is Ok,
    ensures
        extends(step_state(blast_op(s, op, args)), s),
        cnf_holds(a, step_state(blast_op(s, op, args)).clauses) ==> op_holds(a, op, args, step_var(blast_op(s, op, args))),
{
    let w = width(args[0].sort) as nat;
    match op {
        Op::Assert => lemma_assert(a, s, args),
        Op::Eq => lemma_eq(a, s, args),
        Op::Ne => {
            let (s1, e) = blast_eq(s, args)->Ok_0;
            lemma_eq(a, s, args);
            lemma_not(a, s1, seq![e]);
            let s2 = step_state(blast_not(s1, seq![e]));
            lemma_extends_trans(s2, s1, s);
            if cnf_holds(a, s2.clauses) {
                lemma_extends_holds(a, s2, s1);
            }
        },
        Op::Ult => lemma_ult(a, s, args),
        Op::Ule => {
            let (s1, lt) = blast_ult(s, args)->Ok_0;
            lemma_ult(a, s, args);
            let (s2, eq) = blast_eq(s1, args)->Ok_0;
            lemma_eq(a, s1, args);
            lemma_bool(a, s2, seq![lt, eq], BitGate::Or, Op::Or);
            let s3 = step_state(blast_bool(s2, seq![lt, eq], BitGate::Or, Op::Or));
            lemma_extends_trans(s2, s1, s);
            lemma_extends_trans(s3, s2, s);
            if cnf_holds(a, s3.clauses) {
                lemma_extends_holds(a, s3, s2);
                lemma_extends_holds(a, s2, s1);
            }
        },
        Op::Ugt => {
            let (s1, le) = blast_ule(s, args)->Ok_0;
            let (t1, lt) = blast_ult(s, args)->Ok_0;
            lemma_ult(a, s, args);
            let (t2, eq) = blast_eq(t1, args)->Ok_0;
            lemma_eq(a, t1, args);
            lemma_bool(a, t2, seq![lt, eq], BitGate::Or, Op::Or);
            lemma_extends_trans(t2, t1, s);
            lemma_extends_trans(s1, t2, s);
            lemma_not(a, s1, seq![le]);
            let s2 = step_state(blast_not(s1, seq![le]));
            lemma_extends_trans(s2, s1, s);
            if cnf_holds(a, s2.clauses) {
                lemma_extends_holds(a, s2, s1);
                lemma_extends_holds(a, s1, t2);
                lemma_extends_holds(a, t2, t1);
            }
        },
        Op::Uge => {
            let (s1, lt) = blast_ult(s, args)->Ok_0;
            lemma_ult(a, s, args);
            lemma_not(a, s1, seq![lt]);
            let s2 = step_state(blast_not(s1, seq![lt]));
            lemma_extends_trans(s2, s1, s);
            if cnf_holds(a, s2.clauses) {
                lemma_extends_holds(a, s2, s1);
            }
        },
        Op::And => lemma_bool(a, s, args, BitGate::And, Op::And),
        Op::Or => lemma_bool(a, s, args, BitGate::Or, Op::Or),
        Op::Xor => lemma_bool(a, s, args, BitGate::Xor, Op::Xor),
        Op::Not => lemma_not(a, s, args),
        Op::Implies => lemma_bool(a, s, args, BitGate::Implies, Op::Implies),
        Op::Ite => lemma_ite(a, s, args),
        Op::BvAnd => lemma_bitwise(a, s, args, BitGate::And, Op::BvAnd),
        Op::BvOr => lemma_bitwise(a, s, args, BitGate::Or, Op::BvOr),
        Op::BvXor => lemma_bitwise(a, s, args, BitGate::Xor, Op::BvXor),
        Op::BvNand => lemma_bitwise(a, s, args, BitGate::Nand, Op::BvNand),
        Op::BvNor => lemma_bitwise(a, s, args, BitGate::Nor, Op::BvNor),
        Op::BvXnor => lemma_bitwise(a, s, args, BitGate::Xnor, Op::BvXnor),
        Op::BvNot => lemma_bv_not(a, s, args),
        Op::BvAdd => {
            let wu = width(args[0].sort);
            let (s1, sum) = temp(s, Sort::BitVec(wu));
            lemma_temp_extends(s, Sort::BitVec(wu));
            lemma_add_triple(a, s1, args[0].name, args[1].name, sum.name, wu);
            let s2 = blast_add_triple(s1, args[0].name, args[1].name, sum.name, wu)->Ok_0;
            lemma_extends_trans(s2, s1, s);
        },
        Op::BvSub => {
            let wu = width(args[0].sort);
            let (s1, d) = temp(s, Sort::BitVec(wu));
            lemma_temp_extends(s, Sort::BitVec(wu));
            lemma_add_triple(a, s1, d.name, args[1].name, args[0].name, wu);
            let s2 = blast_add_triple(s1, d.name, args[1].name, args[0].name, wu)->Ok_0;
            lemma_extends_trans(s2, s1, s);
            if cnf_holds(a, s2.clauses) {
                lemma_bv_value_bound(a, d.name, w);
                lemma_pow2_pos(w);
                lemma_sub_value(bv_value(a, d.name, w) as int, bv_value(a, args[0].name, w) as int, bv_value(a, args[1].name, w) as int, pow2(w) as int);
            }
        },
    }
}


proof fn lemma_with_var_extends(s: StateView, v: BvVarView)
    ensures
        extends(with_var(s, v), s),
{
    assert(with_var(s, v).vars.take(s.vars.len() as int) =~= s.vars);
    assert(with_var(s, v).clauses.take(s.clauses.len() as int) =~= s.clauses);
}

proof fn lemma_with_fun_extends(s: StateView, n: Seq<char>, sig: Seq<u128>)
    ensures
        extends(with_fun(s, n, sig), s),
{
    assert(with_fun(s, n, sig).vars.take(s.vars.len() as int) =~= s.vars);
    assert(with_fun(s, n, sig).clauses.take(s.clauses.len() as int) =~= s.clauses);
}

proof fn lemma_extends_refl(s: StateView)
    ensures
        extends(s, s),
{
    assert(s.vars.take(s.vars.len() as int) =~= s.vars);
    assert(s.clauses.take(s.clauses.len() as int) =~= s.clauses);
}

/// Blasting an expression only adds clauses and variables.
pub proof fn law_blast_expr_extends(s: StateView, e: ExprView)
    requires
        blast_expr(s, e) is Ok,
    ensures
        extends(step_state(blast_expr(s, e)), s),
    decreases e,
{
    match e {
        ExprView::Var(n) => lemma_extends_refl(s),
        ExprView::List(l) => law_blast_list_extends(s, l),
        ExprView::Int(_) => {},
    }
}

/// Blasting a list expression only adds clauses and variables.
pub proof fn law_blast_list_extends(s: StateView, l: Seq<ExprView>)
    requires
        blast_list(s, l) is Ok,
    ensures
        extends(step_state(blast_list(s, l)), s),
    decreases l,
{
    if l.len() == 3 && l[0] == ExprView::Var("to-bv"@) && l[1] is Int && l[2] is Int {
        let size = int_of(l[2]);
        let (s1, t) = temp(s, Sort::BitVec(size as u128));
        lemma_temp_extends(s, Sort::BitVec(size as u128));
        let cs = crate::gates::const_clauses(t.name, int_of(l[1]) as u128, size as nat);
        lemma_with_clauses_extends(s1, cs);
        lemma_extends_trans(with_clauses(s1, cs), s1, s);
    } else if l.len() == 3 && l[0] == ExprView::Var("declare-bv-fun"@) && l[1] is Var && l[2] is Int {
        let v = BvVarView { name: name_of(l[1]), sort: Sort::BitVec(int_of(l[2]) as u128), display: true };
        lemma_with_var_extends(s, v);
        lemma_temp_extends(with_var(s, v), Sort::Unit);
        lemma_extends_trans(temp(with_var(s, v), Sort::Unit).0, with_var(s, v), s);
    } else if l.len() >= 2 && l[0] == ExprView::Var("declare-bv-fun"@) && l[1] is Var {
        let sig = int_args(l.skip(2))->Ok_0;
        lemma_with_fun_extends(s, name_of(l[1]), sig);
        lemma_temp_extends(with_fun(s, name_of(l[1]), sig), Sort::Unit);
        lemma_extends_trans(temp(with_fun(s, name_of(l[1]), sig), Sort::Unit).0, with_fun(s, name_of(l[1]), sig), s);
    } else if l.len() >= 1 && l[0] is Var {
        law_blast_args_extends(s, l.skip(1));
        let (s1, vs) = blast_args(s, l.skip(1))->Ok_0;
        let op = op_named(name_of(l[0]))->Some_0;
        law_blast_op(|n: Seq<char>, i: int| false, s1, op, vs);
        lemma_extends_trans(step_state(blast_op(s1, op, vs)), s1, s);
    }
}

/// Blasting the arguments of a call only adds clauses and variables.
pub proof fn law_blast_args_extends(s: StateView, es: Seq<ExprView>)
    requires
        blast_args(s, es) is Ok,
    ensures
        extends(blast_args(s, es)->Ok_0.0, s),
    decreases es,
{
    if es.len() == 0 {
        lemma_extends_refl(s);
    } else {
        law_blast_args_extends(s, es.drop_last());
        let (s1, vs) = blast_args(s, es.drop_last())->Ok_0;
        law_blast_expr_extends(s1, es.last());
        lemma_extends_trans(step_state(blast_expr(s1, es.last())), s1, s);
    }
}

/// Blasting a program only adds clauses and variables.
pub proof fn law_blast_program_extends(s: StateView, p: Seq<ExprView>)
    requires
        blast_program(s, p) is Ok,
    ensures
        extends(blast_program(s, p)->Ok_0, s),
    decreases p.len(),
{
    if p.len() == 0 {
        lemma_extends_refl(s);
    } else {
        law_blast_program_extends(s, p.drop_last());
        let s1 = blast_program(s, p.drop_last())->Ok_0;
        law_blast_expr_extends(s1, p.last());
        lemma_extends_trans(step_state(blast_expr(s1, p.last())), s1, s);
    }
}

/// In every assignment that satisfies the clauses of a program that ends
/// with `(assert c)`, the variable that holds `c` has bit 0 set.
pub proof fn law_assertion_holds(a: spec_fn(Seq<char>, int) -> bool, s: StateView, p: Seq<ExprView>, c: ExprView)
    requires
        blast_program(s, p.push(ExprView::List(seq![ExprView::Var("assert"@), c]))) is Ok,
        cnf_holds(a, blast_program(s, p.push(ExprView::List(seq![ExprView::Var("assert"@), c])))->Ok_0.clauses),
    ensures
        blast_program(s, p) is Ok,
        blast_expr(blast_program(s, p)->Ok_0, c) is Ok,
        a(step_var(blast_expr(blast_program(s, p)->Ok_0, c)).name, 0),
{
    let e = ExprView::List(seq![ExprView::Var("assert"@), c]);
    let l = seq![ExprView::Var("assert"@), c];
    assert(p.push(e).drop_last() =~= p);
    assert(p.push(e).last() == e);
    let s1 = blast_program(s, p)->Ok_0;
    assert(blast_expr(s1, e) is Ok);
    reveal_strlit("assert");
    reveal_strlit("declare-bv-fun");
    reveal_strlit("to-bv");
    assert("assert"@.len() == 6);
    assert("declare-bv-fun"@.len() == 14);
    assert(l[0] != ExprView::Var("declare-bv-fun"@));
    assert(blast_list(s1, l) is Ok);
    let es = l.skip(1);
    assert(es.len() == 1);
    assert(es.drop_last() =~= Seq::<ExprView>::empty());
    assert(es.last() == c);
    assert(blast_args(s1, es.drop_last()) == Ok::<(StateView, Seq<BvVarView>), crate::check::BlastFailure>((s1, Seq::<BvVarView>::empty())));
    assert(blast_args(s1, es) is Ok);
    assert(blast_expr(s1, c) is Ok);
    let (s2, v) = blast_expr(s1, c)->Ok_0;
    assert(Seq::<BvVarView>::empty().push(v) =~= seq![v]);
    assert(blast_args(s1, es) == Ok::<(StateView, Seq<BvVarView>), crate::check::BlastFailure>((s2, seq![v])));
    assert(op_named("assert"@) == Some(Op::Assert));
    lemma_assert(a, s2, seq![v]);
}

/// Blasting the sum `x + y` from `s`, and then the difference of that sum
/// and `y`: the final state and the difference, or why one step failed.
pub open spec fn add_then_sub(s: StateView, x: BvVarView, y: BvVarView) -> Step {
    match blast_bv_add(s, seq![x, y]) {
        Ok((s1, r)) => blast_bv_sub(s1, seq![r, y]),
        Err(e) => Err(e),
    }
}

/// Subtraction undoes addition: whenever the sum `x + y` can be blasted,
/// so can the difference of that sum and `y`, and every assignment that
/// satisfies the clauses then gives the difference the sort and the value
/// of `x` (all modulo `2^width`).
pub proof fn law_sub_undoes_add(a: spec_fn(Seq<char>, int) -> bool, s: StateView, x: BvVarView, y: BvVarView)
    requires
        blast_bv_add(s, seq![x, y]) is Ok,
    ensures
        add_then_sub(s, x, y) is Ok,
        step_var(add_then_sub(s, x, y)).sort == x.sort,
        cnf_holds(a, step_state(add_then_sub(s, x, y)).clauses) ==> value_of(a, step_var(add_then_sub(s, x, y))) == value_of(a, x),
{
    assert(blast_op(s, Op::BvAdd, seq![x, y]) == blast_bv_add(s, seq![x, y]));
    let s1 = step_state(blast_op(s, Op::BvAdd, seq![x, y]));
    let r = step_var(blast_op(s, Op::BvAdd, seq![x, y]));
    let w = width(x.sort);
    assert(seq![x, y][0] == x && seq![x, y][1] == y);
    assert(r.sort == Sort::BitVec(w));
    assert(seq![r, y][0] == r && seq![r, y][1] == y);
    assert(y.sort == x.sort);
    assert(common_width(seq![r, y], 2, Op::BvSub) == Ok::<u128, crate::check::BlastFailure>(w));
    assert(blast_bv_sub(s1, seq![r, y]) is Ok);
    assert(blast_op(s1, Op::BvSub, seq![r, y]) == blast_bv_sub(s1, seq![r, y]));
    assert(add_then_sub(s, x, y) == blast_op(s1, Op::BvSub, seq![r, y]));
    let s2 = step_state(blast_op(s1, Op::BvSub, seq![r, y]));
    let d = step_var(blast_op(s1, Op::BvSub, seq![r, y]));
    law_blast_op(a, s, Op::BvAdd, seq![x, y]);
    law_blast_op(a, s1, Op::BvSub, seq![r, y]);
    if cnf_holds(a, s2.clauses) {
        lemma_extends_holds(a, s2, s1);
        let w = width(x.sort) as nat;
        let p = pow2(w) as int;
        let vx = bv_value(a, x.name, w) as int;
        let vy = bv_value(a, y.name, w) as int;
        lemma_pow2_pos(w);
        lemma_bv_value_bound(a, x.name, w);
        lemma_bv_value_bound(a, y.name, w);
        assert(op_holds(a, Op::BvAdd, seq![x, y], r));
        assert(op_holds(a, Op::BvSub, seq![r, y], d));
        assert(value_of(a, r) as int == (vx + vy) % p);
        vstd::arithmetic::div_mod::lemma_sub_mod_noop(vx + vy, vy, p);
        vstd::arithmetic::div_mod::lemma_small_mod(vy as nat, p as nat);
        vstd::arithmetic::div_mod::lemma_small_mod(vx as nat, p as nat);
    }
}

/// Each builtin name denotes its own builtin function: `or` is disjunction,
/// `xor` exclusive or, and so on, whatever order the names are tried in;
/// the words of declarations and constants denote none.
pub proof fn law_builtin_names()
    ensures
        op_named("assert"@) == Some(Op::Assert),
        op_named("eq"@) == Some(Op::Eq),
        op_named("ne"@) == Some(Op::Ne),
        op_named("ult"@) == Some(Op::Ult),
        op_named("ugt"@) == Some(Op::Ugt),
        op_named("ule"@) == Some(Op::Ule),
        op_named("uge"@) == Some(Op::Uge),
        op_named("and"@) == Some(Op::And),
        op_named("or"@) == Some(Op::Or),
        op_named("xor"@) == Some(Op::Xor),
        op_named("not"@) == Some(Op::Not),
        op_named("bv-and"@) == Some(Op::BvAnd),
        op_named("bv-or"@) == Some(Op::BvOr),
        op_named("bv-xor"@) == Some(Op::BvXor),
        op_named("bv-not"@) == Some(Op::BvNot),
        op_named("bv-nand"@) == Some(Op::BvNand),
        op_named("bv-nor"@) == Some(Op::BvNor),
        op_named("bv-xnor"@) == Some(Op::BvXnor),
        op_named("bv-add"@) == Some(Op::BvAdd),
        op_named("bv-sub"@) == Some(Op::BvSub),
        op_named("ite"@) == Some(Op::Ite),
        op_named("implies"@) == Some(Op::Implies),
        op_named("to-bv"@) is None,
        op_named("declare-bv-fun"@) is None,
{
    reveal_strlit("assert");
    assert("assert"@ =~= seq!['a', 's', 's', 'e', 'r', 't']);
    reveal_strlit("eq");
    assert("eq"@ =~= seq!['e', 'q']);
    reveal_strlit("ne");
    assert("ne"@ =~= seq!['n', 'e']);
    reveal_strlit("ult");
    assert("ult"@ =~= seq!['u', 'l', 't']);
    reveal_strlit("ugt");
    assert("ugt"@ =~= seq!['u', 'g', 't']);
    reveal_strlit("ule");
    assert("ule"@ =~= seq!['u', 'l', 'e']);
    reveal_strlit("uge");
    assert("uge"@ =~= seq!['u', 'g', 'e']);
    reveal_strlit("and");
    assert("and"@ =~= seq!['a', 'n', 'd']);
    reveal_strlit("or");
    assert("or"@ =~= seq!['o', 'r']);
    reveal_strlit("xor");
    assert("xor"@ =~= seq!['x', 'o', 'r']);
    reveal_strlit("not");
    assert("not"@ =~= seq!['n', 'o', 't']);
    reveal_strlit("bv-and");
    assert("bv-and"@ =~= seq!['b', 'v', '-', 'a', 'n', 'd']);
    reveal_strlit("bv-or");
    assert("bv-or"@ =~= seq!['b', 'v', '-', 'o', 'r']);
    reveal_strlit("bv-xor");
    assert("bv-xor"@ =~= seq!['b', 'v', '-', 'x', 'o', 'r']);
    reveal_strlit("bv-not");
    assert("bv-not"@ =~= seq!['b', 'v', '-', 'n', 'o', 't']);
    reveal_strlit("bv-nand");
    assert("bv-nand"@ =~= seq!['b', 'v', '-', 'n', 'a', 'n', 'd']);
    reveal_strlit("bv-nor");
    assert("bv-nor"@ =~= seq!['b', 'v', '-', 'n', 'o', 'r']);
    reveal_strlit("bv-xnor");
    assert("bv-xnor"@ =~= seq!['b', 'v', '-', 'x', 'n', 'o', 'r']);
    reveal_strlit("bv-add");
    assert("bv-add"@ =~= seq!['b', 'v', '-', 'a', 'd', 'd']);
    reveal_strlit("bv-sub");
    assert("bv-sub"@ =~= seq!['b', 'v', '-', 's', 'u', 'b']);
    reveal_strlit("ite");
    assert("ite"@ =~= seq!['i', 't', 'e']);
    reveal_strlit("implies");
    assert("implies"@ =~= seq!['i', 'm', 'p', 'l', 'i', 'e', 's']);
    reveal_strlit("to-bv");
    assert("to-bv"@ =~= seq!['t', 'o', '-', 'b', 'v']);
    reveal_strlit("declare-bv-fun");
    assert("declare-bv-fun"@ =~= seq!['d', 'e', 'c', 'l', 'a', 'r', 'e', '-', 'b', 'v', '-', 'f', 'u', 'n']);
}

} // verus!
