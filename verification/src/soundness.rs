//! Blasting is sound: every assignment that satisfies the clauses of a
//! program makes the program hold, with each blasted variable holding the
//! value of the expression it stands for.
use vstd::prelude::*;

use crate::vars::{Sort, BvVarView};
use crate::cnf::cnf_holds;
use crate::gates::{BitGate, lemma_bv_value_bound};
use crate::check::{
    StateView, Op, width, common_width, widths_are, temp, with_clauses, with_var, with_fun, var_lookup,
    blast_op, blast_bool, blast_not, blast_eq, blast_ult, blast_ule, blast_add_triple, blast_expr,
    blast_list, blast_args, blast_program, start_state, int_args, int_of, name_of, op_named,
};
use crate::syntax::ExprView;
use crate::semantics::{
    Val, flags, same_width, op_val, eval_expr, eval_list, eval_args, eval_program, names_in,
    lemma_names_in_list, lemma_bit_of_value, lemma_fn_value,
};
use crate::laws::{
    op_holds, step_state, step_var, law_blast_op, lemma_extends_holds, law_blast_expr_extends,
    law_blast_args_extends, law_blast_program_extends, hidden_name, new_hidden_outside, lemma_new_hidden_split,
};

verus! {

/// Under `a`, the variable `r` holds the value `v`: same sort, same bits
/// below the width.
pub open spec fn holds_val(a: spec_fn(Seq<char>, int) -> bool, r: BvVarView, v: Val) -> bool {
    &&& r.sort == v.sort
    &&& forall|i: int| 0 <= i < width(r.sort) ==> #[trigger] a(r.name, i) == (v.bits)(i)
}

/// The blasting variables and the declared variables denote the same
/// variable under every name that `ok` admits.
pub open spec fn agree(vars: Seq<BvVarView>, env: Seq<BvVarView>, ok: spec_fn(Seq<char>) -> bool) -> bool {
    forall|n: Seq<char>| ok(n) ==> #[trigger] var_lookup(vars, n) == var_lookup(env, n)
}

/// `t` keeps the variables of `s` in front of its own and adds only hidden
/// ones.
pub open spec fn lookups_kept(t: StateView, s: StateView) -> bool {
    &&& s.vars.len() <= t.vars.len()
    &&& forall|i: int| 0 <= i < s.vars.len() ==> #[trigger] t.vars[i] == s.vars[i]
    &&& forall|i: int| s.vars.len() <= i < t.vars.len() ==> !(#[trigger] t.vars[i]).display
}

/// Variables added after `base` under other names leave the lookup of `n`
/// as it was.
proof fn lemma_lookup_tail(vs: Seq<BvVarView>, base: Seq<BvVarView>, n: Seq<char>)
    requires
        base.len() <= vs.len(),
        forall|i: int| 0 <= i < base.len() ==> #[trigger] vs[i] == base[i],
        forall|i: int| base.len() <= i < vs.len() ==> (#[trigger] vs[i]).name != n,
    ensures
        var_lookup(vs, n) == var_lookup(base, n),
    decreases vs.len(),
{
    if vs.len() == base.len() {
        assert(vs =~= base);
    } else {
        assert(vs[vs.len() - 1].name != n);
        let init = vs.drop_last();
        assert forall|i: int| 0 <= i < base.len() implies #[trigger] init[i] == base[i] by {
            assert(init[i] == vs[i]);
        }
        assert forall|i: int| base.len() <= i < init.len() implies (#[trigger] init[i]).name != n by {
            assert(init[i] == vs[i]);
        }
        lemma_lookup_tail(init, base, n);
    }
}

pub proof fn lemma_lookup_name(vars: Seq<BvVarView>, n: Seq<char>)
    requires
        var_lookup(vars, n) is Some,
    ensures
        var_lookup(vars, n)->Some_0.name == n,
    decreases vars.len(),
{
    if vars.last().name != n {
        lemma_lookup_name(vars.drop_last(), n);
    }
}

pub proof fn lemma_lookup_push(vars: Seq<BvVarView>, v: BvVarView, n: Seq<char>)
    ensures
        var_lookup(vars.push(v), n) == if v.name == n { Some(v) } else { var_lookup(vars, n) },
{
    assert(vars.push(v).drop_last() =~= vars);
}

pub proof fn lemma_temp_kept(s: StateView, sort: Sort)
    ensures
        lookups_kept(temp(s, sort).0, s),
{
}

pub proof fn lemma_kept_trans(u: StateView, t: StateView, s: StateView)
    requires
        lookups_kept(u, t),
        lookups_kept(t, s),
    ensures
        lookups_kept(u, s),
{
    assert forall|i: int| 0 <= i < s.vars.len() implies #[trigger] u.vars[i] == s.vars[i] by {
        assert(u.vars[i] == t.vars[i]);
    }
    assert forall|i: int| s.vars.len() <= i < u.vars.len() implies !(#[trigger] u.vars[i]).display by {
        if i < t.vars.len() {
            assert(u.vars[i] == t.vars[i]);
        }
    }
}

pub proof fn lemma_kept_agree(t: StateView, s: StateView, env: Seq<BvVarView>, ok: spec_fn(Seq<char>) -> bool)
    requires
        lookups_kept(t, s),
        new_hidden_outside(t, s, ok),
        agree(s.vars, env, ok),
    ensures
        agree(t.vars, env, ok),
{
    assert forall|n: Seq<char>| ok(n) implies #[trigger] var_lookup(t.vars, n) == var_lookup(env, n) by {
        assert forall|i: int| s.vars.len() <= i < t.vars.len() implies (#[trigger] t.vars[i]).name != n by {
            assert(!t.vars[i].display);
        }
        lemma_lookup_tail(t.vars, s.vars, n);
        assert(var_lookup(s.vars, n) == var_lookup(env, n));
    }
}

/// A step that makes one hidden variable and adds clauses.
proof fn lemma_temp_clauses_kept(s: StateView, sort: Sort, cs: Seq<Seq<crate::vars::Literal>>)
    ensures
        lookups_kept(with_clauses(temp(s, sort).0, cs), s),
{
    lemma_temp_kept(s, sort);
}

/// A step that makes two hidden variables and adds clauses.
proof fn lemma_temp2_clauses_kept(s: StateView, s1: StateView, sort1: Sort, sort2: Sort, cs: Seq<Seq<crate::vars::Literal>>)
    requires
        s1 == temp(s, sort1).0,
    ensures
        lookups_kept(with_clauses(temp(s1, sort2).0, cs), s),
{
    lemma_temp_kept(s, sort1);
    lemma_temp_kept(s1, sort2);
    lemma_kept_trans(temp(s1, sort2).0, s1, s);
}

proof fn lemma_eq_kept(s: StateView, args: Seq<BvVarView>)
    requires
        blast_eq(s, args) is Ok,
    ensures
        lookups_kept(step_state(blast_eq(s, args)), s),
{
    let w = width(args[0].sort);
    let s1 = temp(s, Sort::BitVec(w)).0;
    lemma_temp2_clauses_kept(s, s1, Sort::BitVec(w), Sort::BitVec(1), crate::gates::eq_clauses(
        args[0].name, args[1].name, temp(s, Sort::BitVec(w)).1.name, temp(s1, Sort::BitVec(1)).1.name, w as nat));
}

proof fn lemma_ult_kept(s: StateView, args: Seq<BvVarView>)
    requires
        blast_ult(s, args) is Ok,
    ensures
        lookups_kept(step_state(blast_ult(s, args)), s),
{
    let w = width(args[0].sort);
    let s1 = temp(s, Sort::BitVec(w)).0;
    lemma_temp2_clauses_kept(s, s1, Sort::BitVec(w), Sort::BitVec(1), crate::gates::ult_clauses(
        args[0].name, args[1].name, temp(s, Sort::BitVec(w)).1.name, temp(s1, Sort::BitVec(1)).1.name, w as nat));
}

proof fn lemma_not_kept(s: StateView, args: Seq<BvVarView>)
    requires
        blast_not(s, args) is Ok,
    ensures
        lookups_kept(step_state(blast_not(s, args)), s),
{
    let (s1, r) = temp(s, Sort::BitVec(1));
    lemma_temp_clauses_kept(s, Sort::BitVec(1), crate::gates::not_bit(args[0].name, r.name, 0));
}

proof fn lemma_bool_kept(s: StateView, args: Seq<BvVarView>, g: BitGate, op: Op)
    requires
        blast_bool(s, args, g, op) is Ok,
    ensures
        lookups_kept(step_state(blast_bool(s, args, g, op)), s),
{
    let (s1, r) = temp(s, Sort::BitVec(1));
    lemma_temp_clauses_kept(s, Sort::BitVec(1), crate::gates::gate_bit(g, args[0].name, args[1].name, r.name, 0));
}

proof fn lemma_ule_kept(s: StateView, args: Seq<BvVarView>)
    requires
        blast_ule(s, args) is Ok,
    ensures
        lookups_kept(step_state(blast_ule(s, args)), s),
{
    let (s1, lt) = blast_ult(s, args)->Ok_0;
    lemma_ult_kept(s, args);
    let (s2, eq) = blast_eq(s1, args)->Ok_0;
    lemma_eq_kept(s1, args);
    lemma_bool_kept(s2, seq![lt, eq], BitGate::Or, Op::Or);
    lemma_kept_trans(s2, s1, s);
    lemma_kept_trans(step_state(blast_ule(s, args)), s2, s);
}

proof fn lemma_add_triple_kept(s: StateView, x: Seq<char>, y: Seq<char>, sum: Seq<char>, w: u128)
    requires
        blast_add_triple(s, x, y, sum, w) is Ok,
    ensures
        lookups_kept(blast_add_triple(s, x, y, sum, w)->Ok_0, s),
{
    let (s1, c) = temp(s, Sort::BitVec((w + 1) as u128));
    lemma_temp_clauses_kept(s, Sort::BitVec((w + 1) as u128), crate::gates::adder_clauses(x, y, c.name, sum, w as nat));
}

/// Blasting a builtin function only makes hidden variables.
pub proof fn lemma_op_kept(s: StateView, op: Op, args: Seq<BvVarView>)
    requires
        blast_op(s, op, args) is Ok,
    ensures
        lookups_kept(step_state(blast_op(s, op, args)), s),
{
    match op {
        Op::Assert => {
            let (s1, t) = temp(s, Sort::Unit);
            lemma_temp_clauses_kept(s, Sort::Unit, crate::gates::assert_clauses(args[0].name));
        },
        Op::Eq => lemma_eq_kept(s, args),
        Op::Ne => {
            let (s1, e) = blast_eq(s, args)->Ok_0;
            lemma_eq_kept(s, args);
            lemma_not_kept(s1, seq![e]);
            lemma_kept_trans(step_state(blast_not(s1, seq![e])), s1, s);
        },
        Op::Ult => lemma_ult_kept(s, args),
        Op::Ule => lemma_ule_kept(s, args),
        Op::Ugt => {
            let (s1, le) = blast_ule(s, args)->Ok_0;
            lemma_ule_kept(s, args);
            lemma_not_kept(s1, seq![le]);
            lemma_kept_trans(step_state(blast_not(s1, seq![le])), s1, s);
        },
        Op::Uge => {
            let (s1, lt) = blast_ult(s, args)->Ok_0;
            lemma_ult_kept(s, args);
            lemma_not_kept(s1, seq![lt]);
            lemma_kept_trans(step_state(blast_not(s1, seq![lt])), s1, s);
        },
        Op::And => lemma_bool_kept(s, args, BitGate::And, Op::And),
        Op::Or => lemma_bool_kept(s, args, BitGate::Or, Op::Or),
        Op::Xor => lemma_bool_kept(s, args, BitGate::Xor, Op::Xor),
        Op::Not => lemma_not_kept(s, args),
        Op::Implies => lemma_bool_kept(s, args, BitGate::Implies, Op::Implies),
        Op::Ite => {
            let w = width(args[1].sort);
            let (s1, r) = temp(s, Sort::BitVec(w));
            lemma_temp_clauses_kept(s, Sort::BitVec(w), crate::gates::ite_clauses(args[0].name, args[1].name, args[2].name, r.name, w as nat));
        },
        Op::BvNot => {
            let w = width(args[0].sort);
            let (s1, r) = temp(s, Sort::BitVec(w));
            lemma_temp_clauses_kept(s, Sort::BitVec(w), crate::gates::not_clauses(args[0].name, r.name, w as nat));
        },
        Op::BvAdd => {
            let w = width(args[0].sort);
            let (s1, sum) = temp(s, Sort::BitVec(w));
            lemma_temp_kept(s, Sort::BitVec(w));
            lemma_add_triple_kept(s1, args[0].name, args[1].name, sum.name, w);
            lemma_kept_trans(blast_add_triple(s1, args[0].name, args[1].name, sum.name, w)->Ok_0, s1, s);
        },
        Op::BvSub => {
            let w = width(args[0].sort);
            let (s1, d) = temp(s, Sort::BitVec(w));
            lemma_temp_kept(s, Sort::BitVec(w));
            lemma_add_triple_kept(s1, d.name, args[1].name, args[0].name, w);
            lemma_kept_trans(blast_add_triple(s1, d.name, args[1].name, args[0].name, w)->Ok_0, s1, s);
        },
        _ => {
            let g = match op {
                Op::BvAnd => BitGate::And,
                Op::BvOr => BitGate::Or,
                Op::BvXor => BitGate::Xor,
                Op::BvNand => BitGate::Nand,
                Op::BvNor => BitGate::Nor,
                _ => BitGate::Xnor,
            };
            let w = width(args[0].sort);
            let (s1, r) = temp(s, Sort::BitVec(w));
            lemma_temp_clauses_kept(s, Sort::BitVec(w), crate::gates::gate_clauses(g, args[0].name, args[1].name, r.name, w as nat));
        },
    }
}

proof fn lemma_same_width(a: spec_fn(Seq<char>, int) -> bool, args: Seq<BvVarView>, vals: Seq<Val>, k: nat, op: Op)
    requires
        common_width(args, k, op) is Ok,
        args.len() == vals.len(),
        forall|i: int| 0 <= i < args.len() ==> #[trigger] holds_val(a, args[i], vals[i]),
    ensures
        same_width(vals, k),
        forall|i: int| 0 <= i < args.len() ==> #[trigger] args[i].sort == args[0].sort,
{
    assert(holds_val(a, args[0], vals[0]));
    assert forall|i: int| 0 <= i < vals.len() implies #[trigger] vals[i].sort == vals[0].sort by {
        assert(holds_val(a, args[i], vals[i]));
        assert(args[i].sort == args[0].sort);
    }
}

proof fn lemma_flags(a: spec_fn(Seq<char>, int) -> bool, args: Seq<BvVarView>, vals: Seq<Val>, sizes: Seq<u128>)
    requires
        widths_are(args, sizes),
        forall|i: int| 0 <= i < sizes.len() ==> #[trigger] sizes[i] == 1,
        args.len() == vals.len(),
        forall|i: int| 0 <= i < args.len() ==> #[trigger] holds_val(a, args[i], vals[i]),
    ensures
        flags(vals, sizes.len()),
        forall|i: int| 0 <= i < args.len() ==> #[trigger] args[i].sort == Sort::BitVec(1),
{
    assert forall|i: int| 0 <= i < vals.len() implies #[trigger] vals[i].sort == Sort::BitVec(1) by {
        assert(holds_val(a, args[i], vals[i]));
        assert(args[i].sort == Sort::BitVec(sizes[i]));
    }
}

/// The blasted arguments of a builtin function hold the values of its
/// arguments: then the function gives a value on them, the result variable
/// holds it, and what the function asserts holds.
pub proof fn lemma_op_sound(a: spec_fn(Seq<char>, int) -> bool, s: StateView, op: Op, args: Seq<BvVarView>, vals: Seq<Val>)
    requires
        blast_op(s, op, args) is Ok,
        args.len() == vals.len(),
        forall|i: int| 0 <= i < args.len() ==> #[trigger] holds_val(a, args[i], vals[i]),
        cnf_holds(a, step_state(blast_op(s, op, args)).clauses),
    ensures
        op_val(op, vals) matches Some((v, h)) && holds_val(a, step_var(blast_op(s, op, args)), v) && h,
{
    law_blast_op(a, s, op, args);
    let r = step_var(blast_op(s, op, args));
    let w = width(args[0].sort) as nat;
    let x = args[0].name;
    let y = args[1].name;
    assert(op_holds(a, op, args, r));
    match op {
        Op::Assert => {
            lemma_flags(a, args, vals, seq![1u128]);
            assert(holds_val(a, args[0], vals[0]));
            assert(a(x, 0) == (vals[0].bits)(0));
        },
        Op::Ite => {
            assert(args.len() == 3);
            assert(holds_val(a, args[0], vals[0]));
            assert(holds_val(a, args[1], vals[1]));
            assert(holds_val(a, args[2], vals[2]));
            assert(a(x, 0) == (vals[0].bits)(0));
        },
        Op::And | Op::Or | Op::Xor | Op::Implies | Op::Not => {
            let sizes = if op == Op::Not && args.len() == 1 { seq![1u128] } else { seq![1u128, 1u128] };
            assert(widths_are(args, sizes));
            lemma_flags(a, args, vals, sizes);
            assert(holds_val(a, args[0], vals[0]));
            assert(a(x, 0) == (vals[0].bits)(0));
            if op != Op::Not {
                assert(holds_val(a, args[1], vals[1]));
                assert(a(y, 0) == (vals[1].bits)(0));
            }
        },
        Op::BvNot => {
            assert(common_width(args, crate::check::neg_arity(args), op) is Ok);
            lemma_same_width(a, args, vals, crate::check::neg_arity(args), op);
            assert(holds_val(a, args[0], vals[0]));
        },
        _ => {
            assert(common_width(args, 2, op) is Ok);
            lemma_same_width(a, args, vals, 2, op);
            assert(holds_val(a, args[0], vals[0]));
            assert(holds_val(a, args[1], vals[1]));
            lemma_fn_value(a, x, vals[0].bits, w);
            lemma_fn_value(a, y, vals[1].bits, w);
            if op == Op::Ult || op == Op::Ugt || op == Op::Ule || op == Op::Uge {
                assert(w > 0);
            }
            if op == Op::BvAdd || op == Op::BvSub {
                assert(w < u128::MAX);
                let v = op_val(op, vals)->Some_0.0;
                assert forall|i: int| 0 <= i < width(r.sort) implies #[trigger] a(r.name, i) == (v.bits)(i) by {
                    lemma_bit_of_value(a, r.name, w, i as nat);
                    lemma_bv_value_bound(a, r.name, w);
                }
            }
        },
    }
}

/// Soundness of blasting one expression: if the blasted and the declared
/// variables agree on the names that `ok` admits, every name of the
/// expression is one of them, and no hidden variable that blasting makes has
/// one of them, then every assignment that satisfies the clauses after
/// blasting makes the expression evaluate, with the result variable holding
/// its value, all its assertions true, and the variables still in agreement.
pub proof fn law_expr_sound(a: spec_fn(Seq<char>, int) -> bool, s: StateView, env: Seq<BvVarView>, e: ExprView, ok: spec_fn(Seq<char>) -> bool)
    requires
        blast_expr(s, e) is Ok,
        names_in(e, ok),
        agree(s.vars, env, ok),
        new_hidden_outside(step_state(blast_expr(s, e)), s, ok),
        cnf_holds(a, step_state(blast_expr(s, e)).clauses),
    ensures
        eval_expr(a, env, e) matches Some(o) && o.holds
            && holds_val(a, step_var(blast_expr(s, e)), o.val)
            && agree(step_state(blast_expr(s, e)).vars, o.env, ok),
    decreases e,
{
    match e {
        ExprView::Var(n) => {
            lemma_lookup_name(s.vars, n);
            assert(var_lookup(s.vars, n) == var_lookup(env, n));
        },
        ExprView::List(l) => {
            lemma_names_in_list(l, ok);
            law_list_sound(a, s, env, l, ok);
        },
        ExprView::Int(_) => {},
    }
}

/// Soundness of blasting a list expression.
pub proof fn law_list_sound(a: spec_fn(Seq<char>, int) -> bool, s: StateView, env: Seq<BvVarView>, l: Seq<ExprView>, ok: spec_fn(Seq<char>) -> bool)
    requires
        blast_list(s, l) is Ok,
        forall|i: int| 0 <= i < l.len() ==> #[trigger] names_in(l[i], ok),
        agree(s.vars, env, ok),
        new_hidden_outside(step_state(blast_list(s, l)), s, ok),
        cnf_holds(a, step_state(blast_list(s, l)).clauses),
    ensures
        eval_list(a, env, l) matches Some(o) && o.holds
            && holds_val(a, step_var(blast_list(s, l)), o.val)
            && agree(step_state(blast_list(s, l)).vars, o.env, ok),
    decreases l,
{
    if l.len() == 3 && l[0] == ExprView::Var("to-bv"@) && l[1] is Int && l[2] is Int {
        let size = int_of(l[2]);
        let num = int_of(l[1]) as u128;
        let (s1, t) = temp(s, Sort::BitVec(size as u128));
        let cs = crate::gates::const_clauses(t.name, num, size as nat);
        lemma_temp_clauses_kept(s, Sort::BitVec(size as u128), cs);
        lemma_kept_agree(with_clauses(s1, cs), s, env, ok);
        crate::cnf::lemma_cnf_concat(a, s1.clauses, cs);
        crate::gates::law_const_clauses(a, t.name, num, size as nat);
    } else if l.len() == 3 && l[0] == ExprView::Var("declare-bv-fun"@) && l[1] is Var && l[2] is Int {
        let v = BvVarView { name: name_of(l[1]), sort: Sort::BitVec(int_of(l[2]) as u128), display: true };
        let s1 = with_var(s, v);
        assert(names_in(l[1], ok));
        assert forall|n: Seq<char>| ok(n) implies #[trigger] var_lookup(s1.vars, n) == var_lookup(env.push(v), n) by {
            lemma_lookup_push(s.vars, v, n);
            lemma_lookup_push(env, v, n);
        }
        lemma_temp_kept(s1, Sort::Unit);
        lemma_kept_agree(temp(s1, Sort::Unit).0, s1, env.push(v), ok);
    } else if l.len() >= 2 && l[0] == ExprView::Var("declare-bv-fun"@) && l[1] is Var {
        let sig = int_args(l.skip(2))->Ok_0;
        let s1 = with_fun(s, name_of(l[1]), sig);
        lemma_temp_kept(s1, Sort::Unit);
        lemma_kept_agree(temp(s1, Sort::Unit).0, s1, env, ok);
    } else if l.len() >= 1 && l[0] is Var {
        let es = l.skip(1);
        assert forall|i: int| 0 <= i < es.len() implies #[trigger] names_in(es[i], ok) by {
            assert(es[i] == l[i + 1]);
        }
        let (s1, bargs) = blast_args(s, es)->Ok_0;
        let op = op_named(name_of(l[0]))->Some_0;
        law_blast_op(a, s1, op, bargs);
        law_blast_args_extends(s, es);
        lemma_new_hidden_split(step_state(blast_op(s1, op, bargs)), s1, s, ok);
        lemma_extends_holds(a, step_state(blast_op(s1, op, bargs)), s1);
        law_args_sound(a, s, env, es, ok);
        let (env1, vals, h) = eval_args(a, env, es)->Some_0;
        lemma_op_sound(a, s1, op, bargs, vals);
        lemma_op_kept(s1, op, bargs);
        lemma_kept_agree(step_state(blast_op(s1, op, bargs)), s1, env1, ok);
    }
}

/// Soundness of blasting the arguments of a call.
pub proof fn law_args_sound(a: spec_fn(Seq<char>, int) -> bool, s: StateView, env: Seq<BvVarView>, es: Seq<ExprView>, ok: spec_fn(Seq<char>) -> bool)
    requires
        blast_args(s, es) is Ok,
        forall|i: int| 0 <= i < es.len() ==> #[trigger] names_in(es[i], ok),
        agree(s.vars, env, ok),
        new_hidden_outside(blast_args(s, es)->Ok_0.0, s, ok),
        cnf_holds(a, blast_args(s, es)->Ok_0.0.clauses),
    ensures
        eval_args(a, env, es) matches Some((env1, vals, h)) && h
            && vals.len() == blast_args(s, es)->Ok_0.1.len()
            && (forall|i: int| 0 <= i < vals.len() ==> #[trigger] holds_val(a, blast_args(s, es)->Ok_0.1[i], vals[i]))
            && agree(blast_args(s, es)->Ok_0.0.vars, env1, ok),
    decreases es,
{
    if es.len() > 0 {
        let init = es.drop_last();
        assert forall|i: int| 0 <= i < init.len() implies #[trigger] names_in(init[i], ok) by {
            assert(init[i] == es[i]);
        }
        let (s1, vs) = blast_args(s, init)->Ok_0;
        law_blast_expr_extends(s1, es.last());
        law_blast_args_extends(s, init);
        lemma_new_hidden_split(step_state(blast_expr(s1, es.last())), s1, s, ok);
        lemma_extends_holds(a, step_state(blast_expr(s1, es.last())), s1);
        law_args_sound(a, s, env, init, ok);
        let (env1, vals, h) = eval_args(a, env, init)->Some_0;
        assert(names_in(es[es.len() - 1], ok));
        law_expr_sound(a, s1, env1, es.last(), ok);
        let o = eval_expr(a, env1, es.last())->Some_0;
        let bargs = blast_args(s, es)->Ok_0.1;
        assert(bargs == vs.push(step_var(blast_expr(s1, es.last()))));
        assert forall|i: int| 0 <= i < vals.push(o.val).len() implies #[trigger] holds_val(a, bargs[i], vals.push(o.val)[i]) by {
            if i < vals.len() {
                assert(holds_val(a, vs[i], vals[i]));
            }
        }
    }
}

/// Soundness of blasting a program from a state that agrees with the
/// declared variables.
pub proof fn law_program_sound_from(a: spec_fn(Seq<char>, int) -> bool, s: StateView, env: Seq<BvVarView>, p: Seq<ExprView>, ok: spec_fn(Seq<char>) -> bool)
    requires
        blast_program(s, p) is Ok,
        forall|i: int| 0 <= i < p.len() ==> #[trigger] names_in(p[i], ok),
        agree(s.vars, env, ok),
        new_hidden_outside(blast_program(s, p)->Ok_0, s, ok),
        cnf_holds(a, blast_program(s, p)->Ok_0.clauses),
    ensures
        eval_program(a, env, p) matches Some((env1, h)) && h && agree(blast_program(s, p)->Ok_0.vars, env1, ok),
    decreases p.len(),
{
    if p.len() > 0 {
        let init = p.drop_last();
        assert forall|i: int| 0 <= i < init.len() implies #[trigger] names_in(init[i], ok) by {
            assert(init[i] == p[i]);
        }
        let s1 = blast_program(s, init)->Ok_0;
        law_blast_expr_extends(s1, p.last());
        law_blast_program_extends(s, init);
        lemma_new_hidden_split(step_state(blast_expr(s1, p.last())), s1, s, ok);
        lemma_extends_holds(a, step_state(blast_expr(s1, p.last())), s1);
        law_program_sound_from(a, s, env, init, ok);
        let (env1, h) = eval_program(a, env, init)->Some_0;
        assert(names_in(p[p.len() - 1], ok));
        law_expr_sound(a, s1, env1, p.last(), ok);
    }
}

/// The names that a program blasted from `k` can use without meeting a
/// hidden variable: every name but those of the hidden variables that
/// blasting it makes.
pub open spec fn free_names(k: usize, p: Seq<ExprView>) -> spec_fn(Seq<char>) -> bool {
    |n: Seq<char>| !hidden_name(blast_program(start_state(k), p)->Ok_0.vars, n)
}

/// The hidden variables that blasting makes have no free name.
pub proof fn lemma_free_names(k: usize, p: Seq<ExprView>)
    requires
        blast_program(start_state(k), p) is Ok,
    ensures
        new_hidden_outside(blast_program(start_state(k), p)->Ok_0, start_state(k), free_names(k, p)),
{
    let t = blast_program(start_state(k), p)->Ok_0;
    assert forall|i: int| start_state(k).vars.len() <= i < t.vars.len() && !t.vars[i].display
        implies !(free_names(k, p))((#[trigger] t.vars[i]).name) by {
        assert(hidden_name(t.vars, t.vars[i].name));
    }
}

/// Blasting is sound: for a program none of whose names is the name of a
/// hidden variable that blasting it makes, every assignment that satisfies
/// its clauses makes every assertion of the program true of the bits it
/// gives the declared variables.
pub proof fn law_program_sound(a: spec_fn(Seq<char>, int) -> bool, k: usize, p: Seq<ExprView>)
    requires
        blast_program(start_state(k), p) is Ok,
        forall|i: int| 0 <= i < p.len() ==> #[trigger] names_in(p[i], free_names(k, p)),
        cnf_holds(a, blast_program(start_state(k), p)->Ok_0.clauses),
    ensures
        eval_program(a, Seq::empty(), p) matches Some((_, h)) && h,
{
    lemma_free_names(k, p);
    law_program_sound_from(a, start_state(k), Seq::empty(), p, free_names(k, p));
}

/// Every call that the meaning of a program accepts can be blasted: when a
/// builtin function gives a value on arguments of the sorts of `args` (the
/// right number of them, of the widths it needs, and below `u128::MAX` bits
/// for `bv-add` and `bv-sub`), blasting it on `args` succeeds, from any
/// state.
pub proof fn law_accepted_calls_blast(s: StateView, op: Op, args: Seq<BvVarView>, vals: Seq<Val>)
    requires
        args.len() == vals.len(),
        forall|i: int| 0 <= i < args.len() ==> #[trigger] args[i].sort == vals[i].sort,
        op_val(op, vals) is Some,
    ensures
        blast_op(s, op, args) is Ok,
{
    assert forall|i: int| 0 <= i < args.len() implies #[trigger] args[i].sort == vals[i].sort by {}
    if args.len() > 0 {
        assert(args[0].sort == vals[0].sort);
    }
    if args.len() > 1 {
        assert(args[1].sort == vals[1].sort);
    }
    if args.len() > 2 {
        assert(args[2].sort == vals[2].sort);
    }
    match op {
        Op::Ule | Op::Ugt => {
            let w = width(args[0].sort);
            let (s1, lt) = blast_ult(s, args)->Ok_0;
            let (s2, eq) = blast_eq(s1, args)->Ok_0;
            assert(widths_are(seq![lt, eq], seq![1u128, 1u128]));
        },
        _ => {},
    }
}

} // verus!
