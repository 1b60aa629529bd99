//! Every literal that blasting writes names a bit of a variable it made:
//! so, when no two variables share a name, the clauses of a program can be
//! numbered with the variables that `make_clauses` returns.
use vstd::prelude::*;
use crate::vars::{Sort, BvVarView, Literal, sort_bits};
use crate::check::{
    StateView, Op, width, temp, with_clauses, blast_op, blast_bitwise, blast_bool, blast_not, blast_bv_not,
    blast_assert, blast_eq, blast_ult, blast_ule, blast_ite, blast_add_triple, blast_expr, blast_list,
    blast_args, blast_program, start_state, var_lookup, with_var, with_fun, int_args, int_of, name_of,
    op_named, denoted_vars,
};
use crate::syntax::ExprView;
use crate::sat::{SlotView, slots_of, bit_slot, encode_lit, clause_encodable, cnf_encodable};
use crate::laws::{step_state, step_var};
use crate::cnf::{per_bit, cl1, lit};
use crate::gates::{
    BitGate, gate_bit, gate_bits, gate_clauses, not_bit, not_bits, not_clauses, const_bit, const_bits,
    const_clauses, assert_clauses, eq_bit, eq_bits, eq_last, eq_clauses, ult_bit, ult_bits, ult_result,
    ult_clauses, add_bit, add_bits, adder_clauses, ite_bit, ite_bits, ite_clauses,
};

verus! {

/// The literal names a bit of one of `vs`: a variable of that name whose
/// width is above the literal's offset.
pub open spec fn lit_within(l: Literal, vs: Seq<BvVarView>) -> bool {
    exists|q: int| 0 <= q < vs.len() && #[trigger] vs[q].name == l.name && 0 <= l.offset < sort_bits(vs[q].sort)
}

/// Every literal of `cs` names a bit of one of `vs`.
pub open spec fn clauses_within(cs: Seq<Seq<Literal>>, vs: Seq<BvVarView>) -> bool {
    forall|j: int, k: int| 0 <= j < cs.len() && 0 <= k < cs[j].len() ==> lit_within(#[trigger] cs[j][k], vs)
}

/// `u` is one of `vs`.
pub open spec fn is_member(u: BvVarView, vs: Seq<BvVarView>) -> bool {
    exists|m: int| 0 <= m < vs.len() && #[trigger] vs[m] == u
}

/// Every variable of `us` is one of `vs`.
pub open spec fn members(us: Seq<BvVarView>, vs: Seq<BvVarView>) -> bool {
    forall|q: int| 0 <= q < us.len() ==> #[trigger] is_member(us[q], vs)
}

pub proof fn lemma_within_members(cs: Seq<Seq<Literal>>, us: Seq<BvVarView>, vs: Seq<BvVarView>)
    requires
        clauses_within(cs, us),
        members(us, vs),
    ensures
        clauses_within(cs, vs),
{
    assert forall|j: int, k: int| 0 <= j < cs.len() && 0 <= k < cs[j].len() implies lit_within(#[trigger] cs[j][k], vs) by {
        let l = cs[j][k];
        assert(lit_within(l, us));
        let q = choose|q: int| 0 <= q < us.len() && #[trigger] us[q].name == l.name && 0 <= l.offset < sort_bits(us[q].sort);
        assert(is_member(us[q], vs));
        let m = choose|m: int| 0 <= m < vs.len() && #[trigger] vs[m] == us[q];
        assert(vs[m].name == l.name);
    }
}

pub proof fn lemma_members_prefix(us: Seq<BvVarView>, vs: Seq<BvVarView>, ws: Seq<BvVarView>)
    requires
        members(us, vs),
        vs.len() <= ws.len(),
        ws.take(vs.len() as int) == vs,
    ensures
        members(us, ws),
{
    assert forall|q: int| 0 <= q < us.len() implies #[trigger] is_member(us[q], ws) by {
        assert(is_member(us[q], vs));
        let m = choose|m: int| 0 <= m < vs.len() && #[trigger] vs[m] == us[q];
        assert(ws.take(vs.len() as int)[m] == ws[m]);
        assert(0 <= m < ws.len() && ws[m] == us[q]);
    }
}

pub proof fn lemma_within_prefix(cs: Seq<Seq<Literal>>, vs: Seq<BvVarView>, ws: Seq<BvVarView>)
    requires
        clauses_within(cs, vs),
        vs.len() <= ws.len(),
        ws.take(vs.len() as int) == vs,
    ensures
        clauses_within(cs, ws),
{
    assert forall|q: int| 0 <= q < vs.len() implies #[trigger] is_member(vs[q], ws) by {
        assert(ws.take(vs.len() as int)[q] == ws[q]);
        assert(0 <= q < ws.len() && ws[q] == vs[q]);
    }
    lemma_within_members(cs, vs, ws);
}

pub proof fn lemma_within_concat(x: Seq<Seq<Literal>>, y: Seq<Seq<Literal>>, vs: Seq<BvVarView>)
    requires
        clauses_within(x, vs),
        clauses_within(y, vs),
    ensures
        clauses_within(x + y, vs),
{
    assert forall|j: int, k: int| 0 <= j < (x + y).len() && 0 <= k < (x + y)[j].len() implies lit_within(#[trigger] (x + y)[j][k], vs) by {
        if j < x.len() {
            assert((x + y)[j] == x[j]);
            assert(lit_within(x[j][k], vs));
        } else {
            assert((x + y)[j] == y[j - x.len()]);
            assert(lit_within(y[j - x.len()][k], vs));
        }
    }
}

pub proof fn lemma_per_bit_within(n: nat, f: spec_fn(int) -> Seq<Seq<Literal>>, vs: Seq<BvVarView>)
    requires
        forall|i: int| 0 <= i < n ==> clauses_within(#[trigger] f(i), vs),
    ensures
        clauses_within(per_bit(n, f), vs),
    decreases n,
{
    if n > 0 {
        lemma_per_bit_within((n - 1) as nat, f, vs);
        assert(clauses_within(f(n - 1), vs));
        lemma_within_concat(per_bit((n - 1) as nat, f), f(n - 1), vs);
    }
}

/// The literal names bit `i` of the variable at `q`.
proof fn lemma_lit_at(l: Literal, vs: Seq<BvVarView>, q: int)
    requires
        0 <= q < vs.len(),
        vs[q].name == l.name,
        0 <= l.offset < sort_bits(vs[q].sort),
    ensures
        lit_within(l, vs),
{
}

pub proof fn lemma_gate_bounded(g: BitGate, x: BvVarView, y: BvVarView, r: BvVarView, n: nat)
    requires
        sort_bits(x.sort) >= n,
        sort_bits(y.sort) >= n,
        sort_bits(r.sort) >= n,
    ensures
        clauses_within(gate_clauses(g, x.name, y.name, r.name, n), seq![x, y, r]),
{
    let vs = seq![x, y, r];
    assert forall|i: int| 0 <= i < n implies clauses_within(#[trigger] gate_bits(g, x.name, y.name, r.name)(i), vs) by {
        let c = gate_bit(g, x.name, y.name, r.name, i);
        assert forall|j: int, k: int| 0 <= j < c.len() && 0 <= k < c[j].len() implies lit_within(#[trigger] c[j][k], vs) by {
            let l = c[j][k];
            if l.name == x.name {
                lemma_lit_at(l, vs, 0);
            } else if l.name == y.name {
                lemma_lit_at(l, vs, 1);
            } else {
                lemma_lit_at(l, vs, 2);
            }
        }
    }
    lemma_per_bit_within(n, gate_bits(g, x.name, y.name, r.name), vs);
}

pub proof fn lemma_gate_bit_bounded(g: BitGate, x: BvVarView, y: BvVarView, r: BvVarView)
    requires
        sort_bits(x.sort) >= 1,
        sort_bits(y.sort) >= 1,
        sort_bits(r.sort) >= 1,
    ensures
        clauses_within(gate_bit(g, x.name, y.name, r.name, 0), seq![x, y, r]),
{
    let vs = seq![x, y, r];
    let c = gate_bit(g, x.name, y.name, r.name, 0);
    assert forall|j: int, k: int| 0 <= j < c.len() && 0 <= k < c[j].len() implies lit_within(#[trigger] c[j][k], vs) by {
        let l = c[j][k];
        if l.name == x.name {
            lemma_lit_at(l, vs, 0);
        } else if l.name == y.name {
            lemma_lit_at(l, vs, 1);
        } else {
            lemma_lit_at(l, vs, 2);
        }
    }
}

pub proof fn lemma_not_bounded(x: BvVarView, r: BvVarView, n: nat)
    requires
        sort_bits(x.sort) >= n,
        sort_bits(r.sort) >= n,
    ensures
        clauses_within(not_clauses(x.name, r.name, n), seq![x, r]),
{
    let vs = seq![x, r];
    assert forall|i: int| 0 <= i < n implies clauses_within(#[trigger] not_bits(x.name, r.name)(i), vs) by {
        let c = not_bit(x.name, r.name, i);
        assert forall|j: int, k: int| 0 <= j < c.len() && 0 <= k < c[j].len() implies lit_within(#[trigger] c[j][k], vs) by {
            let l = c[j][k];
            if l.name == x.name {
                lemma_lit_at(l, vs, 0);
            } else {
                lemma_lit_at(l, vs, 1);
            }
        }
    }
    lemma_per_bit_within(n, not_bits(x.name, r.name), vs);
}

pub proof fn lemma_not_bit_bounded(x: BvVarView, r: BvVarView)
    requires
        sort_bits(x.sort) >= 1,
        sort_bits(r.sort) >= 1,
    ensures
        clauses_within(not_bit(x.name, r.name, 0), seq![x, r]),
{
    let vs = seq![x, r];
    let c = not_bit(x.name, r.name, 0);
    assert forall|j: int, k: int| 0 <= j < c.len() && 0 <= k < c[j].len() implies lit_within(#[trigger] c[j][k], vs) by {
        let l = c[j][k];
        if l.name == x.name {
            lemma_lit_at(l, vs, 0);
        } else {
            lemma_lit_at(l, vs, 1);
        }
    }
}

pub proof fn lemma_const_bounded(t: BvVarView, num: u128, n: nat)
    requires
        sort_bits(t.sort) >= n,
    ensures
        clauses_within(const_clauses(t.name, num, n), seq![t]),
{
    let vs = seq![t];
    assert forall|i: int| 0 <= i < n implies clauses_within(#[trigger] const_bits(t.name, num)(i), vs) by {
        let c = const_bit(t.name, num, i);
        assert forall|j: int, k: int| 0 <= j < c.len() && 0 <= k < c[j].len() implies lit_within(#[trigger] c[j][k], vs) by {
            lemma_lit_at(c[j][k], vs, 0);
        }
    }
    lemma_per_bit_within(n, const_bits(t.name, num), vs);
}

pub proof fn lemma_assert_bounded(x: BvVarView)
    requires
        sort_bits(x.sort) >= 1,
    ensures
        clauses_within(assert_clauses(x.name), seq![x]),
{
    let c = assert_clauses(x.name);
    assert forall|j: int, k: int| 0 <= j < c.len() && 0 <= k < c[j].len() implies lit_within(#[trigger] c[j][k], seq![x]) by {
        lemma_lit_at(c[j][k], seq![x], 0);
    }
}

proof fn lemma_eq_last_bounded(h: BvVarView, r: BvVarView, n: nat)
    requires
        sort_bits(h.sort) >= n,
        sort_bits(r.sort) >= 1,
    ensures
        forall|k: int| 0 <= k < eq_last(h.name, r.name, n).len() ==> lit_within(#[trigger] eq_last(h.name, r.name, n)[k], seq![h, r]),
    decreases n,
{
    if n > 0 {
        lemma_eq_last_bounded(h, r, (n - 1) as nat);
        let prev = eq_last(h.name, r.name, (n - 1) as nat);
        assert forall|k: int| 0 <= k < eq_last(h.name, r.name, n).len() implies lit_within(#[trigger] eq_last(h.name, r.name, n)[k], seq![h, r]) by {
            if k < prev.len() {
                assert(eq_last(h.name, r.name, n)[k] == prev[k]);
            } else {
                lemma_lit_at(eq_last(h.name, r.name, n)[k], seq![h, r], 0);
            }
        }
    } else {
        lemma_lit_at(eq_last(h.name, r.name, 0)[0], seq![h, r], 1);
    }
}

pub proof fn lemma_eq_bounded(x: BvVarView, y: BvVarView, h: BvVarView, r: BvVarView, n: nat)
    requires
        sort_bits(x.sort) >= n,
        sort_bits(y.sort) >= n,
        sort_bits(h.sort) >= n,
        sort_bits(r.sort) >= 1,
    ensures
        clauses_within(eq_clauses(x.name, y.name, h.name, r.name, n), seq![x, y, h, r]),
{
    let vs = seq![x, y, h, r];
    assert forall|i: int| 0 <= i < n implies clauses_within(#[trigger] eq_bits(x.name, y.name, h.name, r.name)(i), vs) by {
        let c = eq_bit(x.name, y.name, h.name, r.name, i);
        assert forall|j: int, k: int| 0 <= j < c.len() && 0 <= k < c[j].len() implies lit_within(#[trigger] c[j][k], vs) by {
            let l = c[j][k];
            if l.name == x.name {
                lemma_lit_at(l, vs, 0);
            } else if l.name == y.name {
                lemma_lit_at(l, vs, 1);
            } else if l.name == h.name {
                lemma_lit_at(l, vs, 2);
            } else {
                lemma_lit_at(l, vs, 3);
            }
        }
    }
    lemma_per_bit_within(n, eq_bits(x.name, y.name, h.name, r.name), vs);
    lemma_eq_last_bounded(h, r, n);
    let body = per_bit(n, eq_bits(x.name, y.name, h.name, r.name));
    let last = eq_last(h.name, r.name, n);
    assert forall|j: int, k: int| 0 <= j < body.push(last).len() && 0 <= k < body.push(last)[j].len() implies lit_within(#[trigger] body.push(last)[j][k], vs) by {
        if j < body.len() {
            assert(body.push(last)[j] == body[j]);
            assert(lit_within(body[j][k], vs));
        } else {
            assert(body.push(last)[j] == last);
            let l = last[k];
            assert(lit_within(l, seq![h, r]));
            if l.name == h.name && 0 <= l.offset < sort_bits(h.sort) {
                lemma_lit_at(l, vs, 2);
            } else {
                lemma_lit_at(l, vs, 3);
            }
        }
    }
}

pub proof fn lemma_ult_bounded(x: BvVarView, y: BvVarView, lt: BvVarView, r: BvVarView, n: nat)
    requires
        n > 0,
        sort_bits(x.sort) >= n,
        sort_bits(y.sort) >= n,
        sort_bits(lt.sort) >= n,
        sort_bits(r.sort) >= 1,
    ensures
        clauses_within(ult_clauses(x.name, y.name, lt.name, r.name, n), seq![x, y, lt, r]),
{
    let vs = seq![x, y, lt, r];
    assert forall|i: int| 0 <= i < n implies clauses_within(#[trigger] ult_bits(x.name, y.name, lt.name)(i), vs) by {
        let c = ult_bit(x.name, y.name, lt.name, i);
        assert forall|j: int, k: int| 0 <= j < c.len() && 0 <= k < c[j].len() implies lit_within(#[trigger] c[j][k], vs) by {
            let l = c[j][k];
            if l.name == x.name {
                lemma_lit_at(l, vs, 0);
            } else if l.name == y.name {
                lemma_lit_at(l, vs, 1);
            } else {
                lemma_lit_at(l, vs, 2);
            }
        }
    }
    lemma_per_bit_within(n, ult_bits(x.name, y.name, lt.name), vs);
    let c = ult_result(lt.name, r.name, n);
    assert forall|j: int, k: int| 0 <= j < c.len() && 0 <= k < c[j].len() implies lit_within(#[trigger] c[j][k], vs) by {
        let l = c[j][k];
        if l.name == lt.name && l.offset == n - 1 {
            lemma_lit_at(l, vs, 2);
        } else {
            lemma_lit_at(l, vs, 3);
        }
    }
    lemma_within_concat(per_bit(n, ult_bits(x.name, y.name, lt.name)), c, vs);
}

pub proof fn lemma_adder_bounded(x: BvVarView, y: BvVarView, c: BvVarView, s: BvVarView, n: nat)
    requires
        sort_bits(x.sort) >= n,
        sort_bits(y.sort) >= n,
        sort_bits(c.sort) >= n + 1,
        sort_bits(s.sort) >= n,
    ensures
        clauses_within(adder_clauses(x.name, y.name, c.name, s.name, n), seq![x, y, c, s]),
{
    let vs = seq![x, y, c, s];
    assert forall|i: int| 0 <= i < n implies clauses_within(#[trigger] add_bits(x.name, y.name, c.name, s.name)(i), vs) by {
        let cs = add_bit(x.name, y.name, c.name, s.name, i);
        assert forall|j: int, k: int| 0 <= j < cs.len() && 0 <= k < cs[j].len() implies lit_within(#[trigger] cs[j][k], vs) by {
            let l = cs[j][k];
            if l.name == c.name {
                lemma_lit_at(l, vs, 2);
            } else if l.name == x.name {
                lemma_lit_at(l, vs, 0);
            } else if l.name == y.name {
                lemma_lit_at(l, vs, 1);
            } else {
                lemma_lit_at(l, vs, 3);
            }
        }
    }
    lemma_per_bit_within(n, add_bits(x.name, y.name, c.name, s.name), vs);
    let first = Seq::<Seq<Literal>>::empty().push(cl1(lit(c.name, 0, false)));
    assert forall|j: int, k: int| 0 <= j < first.len() && 0 <= k < first[j].len() implies lit_within(#[trigger] first[j][k], vs) by {
        lemma_lit_at(first[j][k], vs, 2);
    }
    lemma_within_concat(first, per_bit(n, add_bits(x.name, y.name, c.name, s.name)), vs);
}

pub proof fn lemma_ite_bounded(c: BvVarView, x: BvVarView, y: BvVarView, r: BvVarView, n: nat)
    requires
        sort_bits(c.sort) >= 1,
        sort_bits(x.sort) >= n,
        sort_bits(y.sort) >= n,
        sort_bits(r.sort) >= n,
    ensures
        clauses_within(ite_clauses(c.name, x.name, y.name, r.name, n), seq![c, x, y, r]),
{
    let vs = seq![c, x, y, r];
    assert forall|i: int| 0 <= i < n implies clauses_within(#[trigger] ite_bits(c.name, x.name, y.name, r.name)(i), vs) by {
        let cs = ite_bit(c.name, x.name, y.name, r.name, i);
        assert forall|j: int, k: int| 0 <= j < cs.len() && 0 <= k < cs[j].len() implies lit_within(#[trigger] cs[j][k], vs) by {
            let l = cs[j][k];
            if l.name == c.name && l.offset == 0 {
                lemma_lit_at(l, vs, 0);
            } else if l.name == x.name {
                lemma_lit_at(l, vs, 1);
            } else if l.name == y.name {
                lemma_lit_at(l, vs, 2);
            } else {
                lemma_lit_at(l, vs, 3);
            }
        }
    }
    lemma_per_bit_within(n, ite_bits(c.name, x.name, y.name, r.name), vs);
}

// ---------------------------------------------------------------------
// Blasting keeps every literal on a bit of a variable made
// ---------------------------------------------------------------------

/// The clauses of `s` name bits of its variables.
pub open spec fn state_bounded(s: StateView) -> bool {
    clauses_within(s.clauses, s.vars)
}

/// `t` keeps the variables of `s` in front of its own.
pub open spec fn vars_prefix(t: StateView, s: StateView) -> bool {
    s.vars.len() <= t.vars.len() && t.vars.take(s.vars.len() as int) == s.vars
}

proof fn lemma_members_lit(us: Seq<BvVarView>, vs: Seq<BvVarView>)
    requires
        forall|q: int| 0 <= q < us.len() ==> #[trigger] is_member(us[q], vs),
    ensures
        members(us, vs),
{
}

proof fn lemma_member_prefix(u: BvVarView, vs: Seq<BvVarView>, ws: Seq<BvVarView>)
    requires
        is_member(u, vs),
        vs.len() <= ws.len(),
        ws.take(vs.len() as int) == vs,
    ensures
        is_member(u, ws),
{
    let m = choose|m: int| 0 <= m < vs.len() && #[trigger] vs[m] == u;
    assert(ws.take(vs.len() as int)[m] == ws[m]);
    assert(0 <= m < ws.len() && ws[m] == u);
}

proof fn lemma_prefix_trans(u: StateView, t: StateView, s: StateView)
    requires
        vars_prefix(u, t),
        vars_prefix(t, s),
    ensures
        vars_prefix(u, s),
{
    assert(u.vars.take(s.vars.len() as int) =~= t.vars.take(s.vars.len() as int));
}

/// Making a hidden variable keeps the bounds, and the variable is made.
proof fn lemma_temp_bounded(s: StateView, sort: Sort)
    requires
        state_bounded(s),
    ensures
        state_bounded(temp(s, sort).0),
        vars_prefix(temp(s, sort).0, s),
        is_member(temp(s, sort).1, temp(s, sort).0.vars),
{
    let (t, v) = temp(s, sort);
    assert(t.vars.take(s.vars.len() as int) =~= s.vars);
    lemma_within_prefix(s.clauses, s.vars, t.vars);
    assert(t.vars[s.vars.len() as int] == v);
}

/// Adding clauses over made variables keeps the bounds.
proof fn lemma_clauses_bounded(s: StateView, cs: Seq<Seq<Literal>>, refs: Seq<BvVarView>)
    requires
        state_bounded(s),
        clauses_within(cs, refs),
        members(refs, s.vars),
    ensures
        state_bounded(with_clauses(s, cs)),
        vars_prefix(with_clauses(s, cs), s),
{
    lemma_within_members(cs, refs, s.vars);
    lemma_within_concat(s.clauses, cs, s.vars);
    assert(s.vars.take(s.vars.len() as int) =~= s.vars);
}

proof fn lemma_args_prefix(args: Seq<BvVarView>, t: StateView, s: StateView)
    requires
        members(args, s.vars),
        vars_prefix(t, s),
    ensures
        members(args, t.vars),
{
    lemma_members_prefix(args, s.vars, t.vars);
}

proof fn lemma_bitwise_bounded(s: StateView, args: Seq<BvVarView>, g: BitGate, op: Op)
    requires
        blast_bitwise(s, args, g, op) is Ok,
        state_bounded(s),
        members(args, s.vars),
    ensures
        state_bounded(step_state(blast_bitwise(s, args, g, op))),
        vars_prefix(step_state(blast_bitwise(s, args, g, op)), s),
        is_member(step_var(blast_bitwise(s, args, g, op)), step_state(blast_bitwise(s, args, g, op)).vars),
{
    let w = width(args[0].sort);
    assert(args[1].sort == args[0].sort);
    let (s1, r) = temp(s, Sort::BitVec(w));
    lemma_temp_bounded(s, Sort::BitVec(w));
    lemma_args_prefix(args, s1, s);
    assert(is_member(args[0], s1.vars) && is_member(args[1], s1.vars));
    let refs = seq![args[0], args[1], r];
    lemma_members_lit(refs, s1.vars);
    lemma_gate_bounded(g, args[0], args[1], r, w as nat);
    lemma_clauses_bounded(s1, gate_clauses(g, args[0].name, args[1].name, r.name, w as nat), refs);
    lemma_prefix_trans(with_clauses(s1, gate_clauses(g, args[0].name, args[1].name, r.name, w as nat)), s1, s);
}

proof fn lemma_bool_bounded(s: StateView, args: Seq<BvVarView>, g: BitGate, op: Op)
    requires
        blast_bool(s, args, g, op) is Ok,
        state_bounded(s),
        members(args, s.vars),
    ensures
        state_bounded(step_state(blast_bool(s, args, g, op))),
        vars_prefix(step_state(blast_bool(s, args, g, op)), s),
        is_member(step_var(blast_bool(s, args, g, op)), step_state(blast_bool(s, args, g, op)).vars),
{
    assert(args[0].sort == Sort::BitVec(1) && args[1].sort == Sort::BitVec(1));
    let (s1, r) = temp(s, Sort::BitVec(1));
    lemma_temp_bounded(s, Sort::BitVec(1));
    lemma_args_prefix(args, s1, s);
    assert(is_member(args[0], s1.vars) && is_member(args[1], s1.vars));
    let refs = seq![args[0], args[1], r];
    lemma_members_lit(refs, s1.vars);
    lemma_gate_bit_bounded(g, args[0], args[1], r);
    lemma_clauses_bounded(s1, gate_bit(g, args[0].name, args[1].name, r.name, 0), refs);
    lemma_prefix_trans(with_clauses(s1, gate_bit(g, args[0].name, args[1].name, r.name, 0)), s1, s);
}

proof fn lemma_not_bounded_step(s: StateView, args: Seq<BvVarView>)
    requires
        blast_not(s, args) is Ok,
        state_bounded(s),
        members(args, s.vars),
    ensures
        state_bounded(step_state(blast_not(s, args))),
        vars_prefix(step_state(blast_not(s, args)), s),
        is_member(step_var(blast_not(s, args)), step_state(blast_not(s, args)).vars),
{
    assert(args[0].sort == Sort::BitVec(1));
    let (s1, r) = temp(s, Sort::BitVec(1));
    lemma_temp_bounded(s, Sort::BitVec(1));
    lemma_args_prefix(args, s1, s);
    assert(is_member(args[0], s1.vars));
    let refs = seq![args[0], r];
    lemma_members_lit(refs, s1.vars);
    lemma_not_bit_bounded(args[0], r);
    lemma_clauses_bounded(s1, not_bit(args[0].name, r.name, 0), refs);
    lemma_prefix_trans(with_clauses(s1, not_bit(args[0].name, r.name, 0)), s1, s);
}

proof fn lemma_bv_not_bounded(s: StateView, args: Seq<BvVarView>)
    requires
        blast_bv_not(s, args) is Ok,
        state_bounded(s),
        members(args, s.vars),
    ensures
        state_bounded(step_state(blast_bv_not(s, args))),
        vars_prefix(step_state(blast_bv_not(s, args)), s),
        is_member(step_var(blast_bv_not(s, args)), step_state(blast_bv_not(s, args)).vars),
{
    let w = width(args[0].sort);
    let (s1, r) = temp(s, Sort::BitVec(w));
    lemma_temp_bounded(s, Sort::BitVec(w));
    lemma_args_prefix(args, s1, s);
    assert(is_member(args[0], s1.vars));
    let refs = seq![args[0], r];
    lemma_members_lit(refs, s1.vars);
    lemma_not_bounded(args[0], r, w as nat);
    lemma_clauses_bounded(s1, not_clauses(args[0].name, r.name, w as nat), refs);
    lemma_prefix_trans(with_clauses(s1, not_clauses(args[0].name, r.name, w as nat)), s1, s);
}

proof fn lemma_assert_bounded_step(s: StateView, args: Seq<BvVarView>)
    requires
        blast_assert(s, args) is Ok,
        state_bounded(s),
        members(args, s.vars),
    ensures
        state_bounded(step_state(blast_assert(s, args))),
        vars_prefix(step_state(blast_assert(s, args)), s),
        is_member(step_var(blast_assert(s, args)), step_state(blast_assert(s, args)).vars),
{
    assert(args[0].sort == Sort::BitVec(1));
    let (s1, t) = temp(s, Sort::Unit);
    lemma_temp_bounded(s, Sort::Unit);
    lemma_args_prefix(args, s1, s);
    assert(is_member(args[0], s1.vars));
    let refs = seq![args[0]];
    lemma_members_lit(refs, s1.vars);
    lemma_assert_bounded(args[0]);
    lemma_clauses_bounded(s1, assert_clauses(args[0].name), refs);
    lemma_prefix_trans(with_clauses(s1, assert_clauses(args[0].name)), s1, s);
}

proof fn lemma_eq_bounded_step(s: StateView, args: Seq<BvVarView>)
    requires
        blast_eq(s, args) is Ok,
        state_bounded(s),
        members(args, s.vars),
    ensures
        state_bounded(step_state(blast_eq(s, args))),
        vars_prefix(step_state(blast_eq(s, args)), s),
        is_member(step_var(blast_eq(s, args)), step_state(blast_eq(s, args)).vars),
{
    let w = width(args[0].sort);
    assert(args[1].sort == args[0].sort);
    let (s1, h) = temp(s, Sort::BitVec(w));
    lemma_temp_bounded(s, Sort::BitVec(w));
    let (s2, r) = temp(s1, Sort::BitVec(1));
    lemma_temp_bounded(s1, Sort::BitVec(1));
    lemma_prefix_trans(s2, s1, s);
    lemma_args_prefix(args, s2, s);
    lemma_member_prefix(h, s1.vars, s2.vars);
    assert(is_member(args[0], s2.vars) && is_member(args[1], s2.vars));
    let refs = seq![args[0], args[1], h, r];
    lemma_members_lit(refs, s2.vars);
    let cs = eq_clauses(args[0].name, args[1].name, h.name, r.name, w as nat);
    lemma_eq_bounded(args[0], args[1], h, r, w as nat);
    lemma_clauses_bounded(s2, cs, refs);
    lemma_prefix_trans(with_clauses(s2, cs), s2, s);
}

proof fn lemma_ult_bounded_step(s: StateView, args: Seq<BvVarView>)
    requires
        blast_ult(s, args) is Ok,
        state_bounded(s),
        members(args, s.vars),
    ensures
        state_bounded(step_state(blast_ult(s, args))),
        vars_prefix(step_state(blast_ult(s, args)), s),
        is_member(step_var(blast_ult(s, args)), step_state(blast_ult(s, args)).vars),
{
    let w = width(args[0].sort);
    assert(args[1].sort == args[0].sort);
    let (s1, lt) = temp(s, Sort::BitVec(w));
    lemma_temp_bounded(s, Sort::BitVec(w));
    let (s2, r) = temp(s1, Sort::BitVec(1));
    lemma_temp_bounded(s1, Sort::BitVec(1));
    lemma_prefix_trans(s2, s1, s);
    lemma_args_prefix(args, s2, s);
    lemma_member_prefix(lt, s1.vars, s2.vars);
    assert(is_member(args[0], s2.vars) && is_member(args[1], s2.vars));
    let refs = seq![args[0], args[1], lt, r];
    lemma_members_lit(refs, s2.vars);
    let cs = ult_clauses(args[0].name, args[1].name, lt.name, r.name, w as nat);
    lemma_ult_bounded(args[0], args[1], lt, r, w as nat);
    lemma_clauses_bounded(s2, cs, refs);
    lemma_prefix_trans(with_clauses(s2, cs), s2, s);
}

proof fn lemma_ite_bounded_step(s: StateView, args: Seq<BvVarView>)
    requires
        blast_ite(s, args) is Ok,
        state_bounded(s),
        members(args, s.vars),
    ensures
        state_bounded(step_state(blast_ite(s, args))),
        vars_prefix(step_state(blast_ite(s, args)), s),
        is_member(step_var(blast_ite(s, args)), step_state(blast_ite(s, args)).vars),
{
    let w = width(args[1].sort);
    let (s1, r) = temp(s, Sort::BitVec(w));
    lemma_temp_bounded(s, Sort::BitVec(w));
    lemma_args_prefix(args, s1, s);
    assert(is_member(args[0], s1.vars) && is_member(args[1], s1.vars) && is_member(args[2], s1.vars));
    let refs = seq![args[0], args[1], args[2], r];
    lemma_members_lit(refs, s1.vars);
    let cs = ite_clauses(args[0].name, args[1].name, args[2].name, r.name, w as nat);
    lemma_ite_bounded(args[0], args[1], args[2], r, w as nat);
    lemma_clauses_bounded(s1, cs, refs);
    lemma_prefix_trans(with_clauses(s1, cs), s1, s);
}

proof fn lemma_add_triple_bounded(s: StateView, x: BvVarView, y: BvVarView, sum: BvVarView, w: u128)
    requires
        blast_add_triple(s, x.name, y.name, sum.name, w) is Ok,
        state_bounded(s),
        is_member(x, s.vars),
        is_member(y, s.vars),
        is_member(sum, s.vars),
        sort_bits(x.sort) == w,
        sort_bits(y.sort) == w,
        sort_bits(sum.sort) == w,
    ensures
        state_bounded(blast_add_triple(s, x.name, y.name, sum.name, w)->Ok_0),
        vars_prefix(blast_add_triple(s, x.name, y.name, sum.name, w)->Ok_0, s),
{
    let (s1, c) = temp(s, Sort::BitVec((w + 1) as u128));
    lemma_temp_bounded(s, Sort::BitVec((w + 1) as u128));
    lemma_member_prefix(x, s.vars, s1.vars);
    lemma_member_prefix(y, s.vars, s1.vars);
    lemma_member_prefix(sum, s.vars, s1.vars);
    let refs = seq![x, y, c, sum];
    lemma_members_lit(refs, s1.vars);
    let cs = adder_clauses(x.name, y.name, c.name, sum.name, w as nat);
    lemma_adder_bounded(x, y, c, sum, w as nat);
    lemma_clauses_bounded(s1, cs, refs);
    lemma_prefix_trans(with_clauses(s1, cs), s1, s);
}

/// Blasting a builtin function keeps every literal on a bit of a variable
/// made, and makes its result variable.
pub proof fn lemma_op_bounded(s: StateView, op: Op, args: Seq<BvVarView>)
    requires
        blast_op(s, op, args) is Ok,
        state_bounded(s),
        members(args, s.vars),
    ensures
        state_bounded(step_state(blast_op(s, op, args))),
        vars_prefix(step_state(blast_op(s, op, args)), s),
        is_member(step_var(blast_op(s, op, args)), step_state(blast_op(s, op, args)).vars),
{
    match op {
        Op::Assert => lemma_assert_bounded_step(s, args),
        Op::Eq => lemma_eq_bounded_step(s, args),
        Op::Ne => {
            let (s1, e) = blast_eq(s, args)->Ok_0;
            lemma_eq_bounded_step(s, args);
            lemma_members_lit(seq![e], s1.vars);
            lemma_not_bounded_step(s1, seq![e]);
            lemma_prefix_trans(step_state(blast_not(s1, seq![e])), s1, s);
        },
        Op::Ult => lemma_ult_bounded_step(s, args),
        Op::Ule => lemma_ule_bounded(s, args),
        Op::Ugt => {
            let (s1, le) = blast_ule(s, args)->Ok_0;
            lemma_ule_bounded(s, args);
            lemma_members_lit(seq![le], s1.vars);
            lemma_not_bounded_step(s1, seq![le]);
            lemma_prefix_trans(step_state(blast_not(s1, seq![le])), s1, s);
        },
        Op::Uge => {
            let (s1, lt) = blast_ult(s, args)->Ok_0;
            lemma_ult_bounded_step(s, args);
            lemma_members_lit(seq![lt], s1.vars);
            lemma_not_bounded_step(s1, seq![lt]);
            lemma_prefix_trans(step_state(blast_not(s1, seq![lt])), s1, s);
        },
        Op::And => lemma_bool_bounded(s, args, BitGate::And, Op::And),
        Op::Or => lemma_bool_bounded(s, args, BitGate::Or, Op::Or),
        Op::Xor => lemma_bool_bounded(s, args, BitGate::Xor, Op::Xor),
        Op::Implies => lemma_bool_bounded(s, args, BitGate::Implies, Op::Implies),
        Op::Not => lemma_not_bounded_step(s, args),
        Op::BvAnd => lemma_bitwise_bounded(s, args, BitGate::And, Op::BvAnd),
        Op::BvOr => lemma_bitwise_bounded(s, args, BitGate::Or, Op::BvOr),
        Op::BvXor => lemma_bitwise_bounded(s, args, BitGate::Xor, Op::BvXor),
        Op::BvNand => lemma_bitwise_bounded(s, args, BitGate::Nand, Op::BvNand),
        Op::BvNor => lemma_bitwise_bounded(s, args, BitGate::Nor, Op::BvNor),
        Op::BvXnor => lemma_bitwise_bounded(s, args, BitGate::Xnor, Op::BvXnor),
        Op::BvNot => lemma_bv_not_bounded(s, args),
        Op::Ite => lemma_ite_bounded_step(s, args),
        Op::BvAdd => {
            let w = width(args[0].sort);
            assert(args[1].sort == args[0].sort);
            let (s1, sum) = temp(s, Sort::BitVec(w));
            lemma_temp_bounded(s, Sort::BitVec(w));
            lemma_args_prefix(args, s1, s);
            assert(is_member(args[0], s1.vars) && is_member(args[1], s1.vars));
            lemma_add_triple_bounded(s1, args[0], args[1], sum, w);
            let s2 = blast_add_triple(s1, args[0].name, args[1].name, sum.name, w)->Ok_0;
            lemma_member_prefix(sum, s1.vars, s2.vars);
            lemma_prefix_trans(s2, s1, s);
        },
        Op::BvSub => {
            let w = width(args[0].sort);
            assert(args[1].sort == args[0].sort);
            let (s1, d) = temp(s, Sort::BitVec(w));
            lemma_temp_bounded(s, Sort::BitVec(w));
            lemma_args_prefix(args, s1, s);
            assert(is_member(args[0], s1.vars) && is_member(args[1], s1.vars));
            lemma_add_triple_bounded(s1, d, args[1], args[0], w);
            let s2 = blast_add_triple(s1, d.name, args[1].name, args[0].name, w)->Ok_0;
            lemma_member_prefix(d, s1.vars, s2.vars);
            lemma_prefix_trans(s2, s1, s);
        },
    }
}

proof fn lemma_ule_bounded(s: StateView, args: Seq<BvVarView>)
    requires
        blast_ule(s, args) is Ok,
        state_bounded(s),
        members(args, s.vars),
    ensures
        state_bounded(step_state(blast_ule(s, args))),
        vars_prefix(step_state(blast_ule(s, args)), s),
        is_member(step_var(blast_ule(s, args)), step_state(blast_ule(s, args)).vars),
{
    let (s1, lt) = blast_ult(s, args)->Ok_0;
    lemma_ult_bounded_step(s, args);
    lemma_args_prefix(args, s1, s);
    let (s2, eq) = blast_eq(s1, args)->Ok_0;
    lemma_eq_bounded_step(s1, args);
    lemma_member_prefix(lt, s1.vars, s2.vars);
    lemma_members_lit(seq![lt, eq], s2.vars);
    lemma_bool_bounded(s2, seq![lt, eq], BitGate::Or, Op::Or);
    lemma_prefix_trans(s2, s1, s);
    lemma_prefix_trans(step_state(blast_bool(s2, seq![lt, eq], BitGate::Or, Op::Or)), s2, s);
}

proof fn lemma_lookup_member(vars: Seq<BvVarView>, n: Seq<char>)
    requires
        var_lookup(vars, n) is Some,
    ensures
        is_member(var_lookup(vars, n)->Some_0, vars),
    decreases vars.len(),
{
    if vars.last().name == n {
        assert(vars[vars.len() - 1] == vars.last());
    } else {
        lemma_lookup_member(vars.drop_last(), n);
        let u = var_lookup(vars, n)->Some_0;
        let m = choose|m: int| 0 <= m < vars.drop_last().len() && #[trigger] vars.drop_last()[m] == u;
        assert(vars[m] == vars.drop_last()[m]);
    }
}

/// Blasting an expression keeps every literal on a bit of a variable made,
/// and makes (or finds) its result variable.
pub proof fn lemma_expr_bounded(s: StateView, e: ExprView)
    requires
        blast_expr(s, e) is Ok,
        state_bounded(s),
    ensures
        state_bounded(step_state(blast_expr(s, e))),
        vars_prefix(step_state(blast_expr(s, e)), s),
        is_member(step_var(blast_expr(s, e)), step_state(blast_expr(s, e)).vars),
    decreases e,
{
    match e {
        ExprView::Var(n) => {
            lemma_lookup_member(s.vars, n);
            assert(s.vars.take(s.vars.len() as int) =~= s.vars);
        },
        ExprView::List(l) => lemma_list_bounded(s, l),
        ExprView::Int(_) => {},
    }
}

pub proof fn lemma_list_bounded(s: StateView, l: Seq<ExprView>)
    requires
        blast_list(s, l) is Ok,
        state_bounded(s),
    ensures
        state_bounded(step_state(blast_list(s, l))),
        vars_prefix(step_state(blast_list(s, l)), s),
        is_member(step_var(blast_list(s, l)), step_state(blast_list(s, l)).vars),
    decreases l,
{
    if l.len() == 3 && l[0] == ExprView::Var("to-bv"@) && l[1] is Int && l[2] is Int {
        let size = int_of(l[2]);
        let num = int_of(l[1]) as u128;
        let (s1, t) = temp(s, Sort::BitVec(size as u128));
        lemma_temp_bounded(s, Sort::BitVec(size as u128));
        let refs = seq![t];
        lemma_members_lit(refs, s1.vars);
        lemma_const_bounded(t, num, size as nat);
        lemma_clauses_bounded(s1, const_clauses(t.name, num, size as nat), refs);
        lemma_member_prefix(t, s1.vars, s1.vars);
        lemma_prefix_trans(with_clauses(s1, const_clauses(t.name, num, size as nat)), s1, s);
    } else if l.len() == 3 && l[0] == ExprView::Var("declare-bv-fun"@) && l[1] is Var && l[2] is Int {
        let v = BvVarView { name: name_of(l[1]), sort: Sort::BitVec(int_of(l[2]) as u128), display: true };
        let s1 = with_var(s, v);
        assert(s1.vars.take(s.vars.len() as int) =~= s.vars);
        lemma_within_prefix(s.clauses, s.vars, s1.vars);
        lemma_temp_bounded(s1, Sort::Unit);
        lemma_prefix_trans(temp(s1, Sort::Unit).0, s1, s);
    } else if l.len() >= 2 && l[0] == ExprView::Var("declare-bv-fun"@) && l[1] is Var {
        let sig = int_args(l.skip(2))->Ok_0;
        let s1 = with_fun(s, name_of(l[1]), sig);
        assert(s1.vars.take(s.vars.len() as int) =~= s.vars);
        lemma_temp_bounded(s1, Sort::Unit);
        lemma_prefix_trans(temp(s1, Sort::Unit).0, s1, s);
    } else {
        let es = l.skip(1);
        let (s1, bargs) = blast_args(s, es)->Ok_0;
        let op = op_named(name_of(l[0]))->Some_0;
        lemma_args_bounded(s, es);
        lemma_op_bounded(s1, op, bargs);
        lemma_prefix_trans(step_state(blast_op(s1, op, bargs)), s1, s);
    }
}

pub proof fn lemma_args_bounded(s: StateView, es: Seq<ExprView>)
    requires
        blast_args(s, es) is Ok,
        state_bounded(s),
    ensures
        state_bounded(blast_args(s, es)->Ok_0.0),
        vars_prefix(blast_args(s, es)->Ok_0.0, s),
        members(blast_args(s, es)->Ok_0.1, blast_args(s, es)->Ok_0.0.vars),
    decreases es,
{
    if es.len() == 0 {
        assert(s.vars.take(s.vars.len() as int) =~= s.vars);
    } else {
        let (s1, vs) = blast_args(s, es.drop_last())->Ok_0;
        lemma_args_bounded(s, es.drop_last());
        lemma_expr_bounded(s1, es.last());
        let t = step_state(blast_expr(s1, es.last()));
        let r = step_var(blast_expr(s1, es.last()));
        lemma_members_prefix(vs, s1.vars, t.vars);
        lemma_prefix_trans(t, s1, s);
        let all = vs.push(r);
        assert forall|q: int| 0 <= q < all.len() implies #[trigger] is_member(all[q], t.vars) by {
            if q < vs.len() {
                assert(all[q] == vs[q]);
                assert(is_member(vs[q], t.vars));
            }
        }
    }
}

pub proof fn lemma_program_bounded(s: StateView, p: Seq<ExprView>)
    requires
        blast_program(s, p) is Ok,
        state_bounded(s),
    ensures
        state_bounded(blast_program(s, p)->Ok_0),
    decreases p.len(),
{
    if p.len() > 0 {
        let s1 = blast_program(s, p.drop_last())->Ok_0;
        lemma_program_bounded(s, p.drop_last());
        lemma_expr_bounded(s1, p.last());
    }
}

/// No two variables share a name.
pub open spec fn distinct_names(vs: Seq<BvVarView>) -> bool {
    forall|i: int, j: int| 0 <= i < j < vs.len() ==> #[trigger] vs[i].name != #[trigger] vs[j].name
}

proof fn lemma_lookup_distinct(vs: Seq<BvVarView>, m: int)
    requires
        distinct_names(vs),
        0 <= m < vs.len(),
    ensures
        var_lookup(vs, vs[m].name) == Some(vs[m]),
    decreases vs.len(),
{
    if m < vs.len() - 1 {
        assert(vs[vs.len() - 1].name != vs[m].name);
        assert(vs.drop_last()[m] == vs[m]);
        assert forall|i: int, j: int| 0 <= i < j < vs.drop_last().len() implies #[trigger] vs.drop_last()[i].name != #[trigger] vs.drop_last()[j].name by {
            assert(vs[i].name != vs[j].name);
        }
        lemma_lookup_distinct(vs.drop_last(), m);
    }
}

proof fn lemma_slots_of(vs: Seq<BvVarView>)
    ensures
        slots_of(vs).len() == vs.len(),
        forall|i: int| 0 <= i < vs.len() ==> (#[trigger] slots_of(vs)[i]).name == vs[i].name
            && slots_of(vs)[i].width == sort_bits(vs[i].sort),
    decreases vs.len(),
{
    if vs.len() > 0 {
        lemma_slots_of(vs.drop_last());
        assert forall|i: int| 0 <= i < vs.len() implies (#[trigger] slots_of(vs)[i]).name == vs[i].name
            && slots_of(vs)[i].width == sort_bits(vs[i].sort) by {
            if i < vs.len() - 1 {
                assert(slots_of(vs)[i] == slots_of(vs.drop_last())[i]);
                assert(vs.drop_last()[i] == vs[i]);
            }
        }
    }
}

proof fn lemma_bit_slot_distinct(slots: Seq<SlotView>, m: int, off: int)
    requires
        0 <= m < slots.len(),
        0 <= off < slots[m].width,
        forall|i: int, j: int| 0 <= i < j < slots.len() ==> #[trigger] slots[i].name != #[trigger] slots[j].name,
    ensures
        bit_slot(slots, slots[m].name, off) == Some(slots[m]),
    decreases slots.len(),
{
    if m < slots.len() - 1 {
        assert(slots[slots.len() - 1].name != slots[m].name);
        assert(slots.drop_last()[m] == slots[m]);
        assert forall|i: int, j: int| 0 <= i < j < slots.drop_last().len() implies #[trigger] slots.drop_last()[i].name != #[trigger] slots.drop_last()[j].name by {
            assert(slots[i].name != slots[j].name);
        }
        lemma_bit_slot_distinct(slots.drop_last(), m, off);
    }
}

/// When no two variables of a blasted program share a name, every literal
/// of its clauses has a number in the numbering of the variables that the
/// program's names denote: the clauses that `make_clauses` returns can be
/// numbered with the variables it returns.
pub proof fn law_clauses_encodable(k: usize, p: Seq<ExprView>, out: Seq<BvVarView>)
    requires
        blast_program(start_state(k), p) is Ok,
        distinct_names(blast_program(start_state(k), p)->Ok_0.vars),
        denoted_vars(out, blast_program(start_state(k), p)->Ok_0.vars),
    ensures
        cnf_encodable(slots_of(out), blast_program(start_state(k), p)->Ok_0.clauses),
{
    let t = blast_program(start_state(k), p)->Ok_0;
    assert(state_bounded(start_state(k)));
    lemma_program_bounded(start_state(k), p);
    lemma_slots_of(out);
    let slots = slots_of(out);
    assert forall|i: int, j: int| 0 <= i < j < slots.len() implies #[trigger] slots[i].name != #[trigger] slots[j].name by {
        assert(out[i].name != out[j].name);
    }
    assert forall|j: int| 0 <= j < t.clauses.len() implies #[trigger] clause_encodable(slots, t.clauses[j]) by {
        assert forall|k: int| 0 <= k < t.clauses[j].len() implies #[trigger] encode_lit(slots, t.clauses[j][k]) is Some by {
            let l = t.clauses[j][k];
            assert(lit_within(l, t.vars));
            let q = choose|q: int| 0 <= q < t.vars.len() && #[trigger] t.vars[q].name == l.name && 0 <= l.offset < sort_bits(t.vars[q].sort);
            lemma_lookup_distinct(t.vars, q);
            assert(var_lookup(t.vars, l.name) is Some);
            let i = choose|i: int| 0 <= i < out.len() && #[trigger] out[i].name == l.name;
            assert(var_lookup(t.vars, out[i].name) == Some(out[i]));
            assert(slots[i].name == l.name);
            assert(slots[i].width == sort_bits(out[i].sort));
            lemma_bit_slot_distinct(slots, i, l.offset as int);
        }
    }
}

} // verus!
