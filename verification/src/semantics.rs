//! What a program means, independently of clauses: every expression has a
//! sort and bits, computed from the bits that an assignment gives the
//! declared variables; a program holds when all of its assertions do.
use vstd::prelude::*;
use vstd::arithmetic::power2::{pow2, lemma_pow2_unfold};
use vstd::arithmetic::div_mod::lemma_fundamental_div_mod_converse;
use crate::vars::{Sort, BvVarView};
use crate::gates::{BitGate, gate_op, num_bit, bv_value};
use crate::check::{Op, width, var_lookup, int_args, int_of, name_of, op_named};
use crate::syntax::ExprView;

verus! {

/// The value of an expression: its sort and its bits, bit 0 first (only
/// the bits below the width of the sort mean anything).
pub struct Val {
    pub sort: Sort,
    pub bits: spec_fn(int) -> bool,
}

/// The value of a declaration or an assertion.
pub open spec fn unit_val() -> Val {
    Val { sort: Sort::Unit, bits: |i: int| false }
}

/// A one-bit value.
pub open spec fn flag(b: bool) -> Val {
    Val { sort: Sort::BitVec(1), bits: |i: int| b }
}

/// Bit `i` of the natural number `v`.
pub open spec fn bit_of(v: nat, i: nat) -> bool
    decreases i,
{
    if i == 0 {
        v % 2 == 1
    } else {
        bit_of(v / 2, (i - 1) as nat)
    }
}

/// The bits of `v` modulo `2^w`.
pub open spec fn mod_bits(v: int, w: nat) -> spec_fn(int) -> bool {
    |i: int| bit_of((v % (pow2(w) as int)) as nat, i as nat)
}

/// The unsigned value of the low `n` bits of `f`.
pub open spec fn fn_value(f: spec_fn(int) -> bool, n: nat) -> nat
    decreases n,
{
    if n == 0 {
        0
    } else {
        fn_value(f, (n - 1) as nat) + if f(n - 1) { pow2((n - 1) as nat) } else { 0 }
    }
}

/// The values are `len` bit vectors of one width.
pub open spec fn same_width(vs: Seq<Val>, len: nat) -> bool {
    &&& vs.len() == len
    &&& len > 0
    &&& vs[0].sort is BitVec
    &&& forall|i: int| 0 <= i < vs.len() ==> #[trigger] vs[i].sort == vs[0].sort
}

/// The values are one-bit vectors, `len` of them.
pub open spec fn flags(vs: Seq<Val>, len: nat) -> bool {
    vs.len() == len && forall|i: int| 0 <= i < vs.len() ==> #[trigger] vs[i].sort == Sort::BitVec(1)
}

/// What a builtin function gives on the values of its arguments, and
/// whether what it asserts holds; none when the arguments do not fit it.
pub open spec fn op_val(op: Op, vs: Seq<Val>) -> Option<(Val, bool)> {
    let w = width(vs[0].sort) as nat;
    let xb = vs[0].bits;
    let yb = vs[1].bits;
    let vx = fn_value(xb, w) as int;
    let vy = fn_value(yb, w) as int;
    let two = same_width(vs, 2);
    let bitwise = |g: BitGate| Val { sort: vs[0].sort, bits: |i: int| gate_op(g, xb(i), yb(i)) };
    match op {
        Op::Assert => if flags(vs, 1) { Some((unit_val(), xb(0))) } else { None },
        Op::Eq => if two { Some((flag(vx == vy), true)) } else { None },
        Op::Ne => if two { Some((flag(vx != vy), true)) } else { None },
        Op::Ult => if two && w > 0 { Some((flag(vx < vy), true)) } else { None },
        Op::Ugt => if two && w > 0 { Some((flag(vx > vy), true)) } else { None },
        Op::Ule => if two && w > 0 { Some((flag(vx <= vy), true)) } else { None },
        Op::Uge => if two && w > 0 { Some((flag(vx >= vy), true)) } else { None },
        Op::And => if flags(vs, 2) { Some((flag(xb(0) && yb(0)), true)) } else { None },
        Op::Or => if flags(vs, 2) { Some((flag(xb(0) || yb(0)), true)) } else { None },
        Op::Xor => if flags(vs, 2) { Some((flag(xb(0) != yb(0)), true)) } else { None },
        Op::Not => if flags(vs, 1) || flags(vs, 2) { Some((flag(!xb(0)), true)) } else { None },
        Op::Implies => if flags(vs, 2) { Some((flag(!xb(0) || yb(0)), true)) } else { None },
        Op::Ite => if vs.len() == 3 && vs[0].sort == Sort::BitVec(1) && vs[1].sort is BitVec && vs[2].sort == vs[1].sort {
            Some((Val { sort: vs[1].sort, bits: |i: int| if xb(0) { (vs[1].bits)(i) } else { (vs[2].bits)(i) } }, true))
        } else {
            None
        },
        Op::BvAnd => if two { Some((bitwise(BitGate::And), true)) } else { None },
        Op::BvOr => if two { Some((bitwise(BitGate::Or), true)) } else { None },
        Op::BvXor => if two { Some((bitwise(BitGate::Xor), true)) } else { None },
        Op::BvNand => if two { Some((bitwise(BitGate::Nand), true)) } else { None },
        Op::BvNor => if two { Some((bitwise(BitGate::Nor), true)) } else { None },
        Op::BvXnor => if two { Some((bitwise(BitGate::Xnor), true)) } else { None },
        Op::BvNot => if same_width(vs, 1) || same_width(vs, 2) {
            Some((Val { sort: vs[0].sort, bits: |i: int| !xb(i) }, true))
        } else {
            None
        },
        Op::BvAdd => if two && w < u128::MAX {
            Some((Val { sort: vs[0].sort, bits: mod_bits(vx + vy, w) }, true))
        } else {
            None
        },
        Op::BvSub => if two && w < u128::MAX {
            Some((Val { sort: vs[0].sort, bits: mod_bits(vx - vy, w) }, true))
        } else {
            None
        },
    }
}

/// The outcome of evaluating an expression: the declared variables after
/// it, its value, and whether every assertion in it holds.
pub struct Outcome {
    pub env: Seq<BvVarView>,
    pub val: Val,
    pub holds: bool,
}

/// The value of an expression under the assignment `a`, with `env` the
/// variables declared so far; none when the expression is ill-formed.
pub open spec fn eval_expr(a: spec_fn(Seq<char>, int) -> bool, env: Seq<BvVarView>, e: ExprView) -> Option<Outcome>
    decreases e,
{
    match e {
        ExprView::Var(n) => match var_lookup(env, n) {
            Some(v) => Some(Outcome { env, val: Val { sort: v.sort, bits: |i: int| a(n, i) }, holds: true }),
            None => None,
        },
        ExprView::List(l) => eval_list(a, env, l),
        ExprView::Int(_) => None,
    }
}

/// The value of a list expression.
pub open spec fn eval_list(a: spec_fn(Seq<char>, int) -> bool, env: Seq<BvVarView>, l: Seq<ExprView>) -> Option<Outcome>
    decreases l,
{
    if l.len() == 3 && l[0] == ExprView::Var("to-bv"@) && l[1] is Int && l[2] is Int {
        let size = int_of(l[2]);
        if size < 0 || size > 128 {
            None
        } else {
            let num = int_of(l[1]) as u128;
            Some(Outcome { env, val: Val { sort: Sort::BitVec(size as u128), bits: |i: int| num_bit(num, i) }, holds: true })
        }
    } else if l.len() == 3 && l[0] == ExprView::Var("declare-bv-fun"@) && l[1] is Var && l[2] is Int {
        let size = int_of(l[2]);
        if size < 0 {
            None
        } else {
            let v = BvVarView { name: name_of(l[1]), sort: Sort::BitVec(size as u128), display: true };
            Some(Outcome { env: env.push(v), val: unit_val(), holds: true })
        }
    } else if l.len() >= 2 && l[0] == ExprView::Var("declare-bv-fun"@) && l[1] is Var {
        if int_args(l.skip(2)) is Ok {
            Some(Outcome { env, val: unit_val(), holds: true })
        } else {
            None
        }
    } else if l.len() >= 1 && l[0] is Var {
        match eval_args(a, env, l.skip(1)) {
            Some((env1, vs, h)) => match op_named(name_of(l[0])) {
                Some(op) => match op_val(op, vs) {
                    Some((v, h2)) => Some(Outcome { env: env1, val: v, holds: h && h2 }),
                    None => None,
                },
                None => None,
            },
            None => None,
        }
    } else {
        None
    }
}

/// The values of the arguments of a call, from left to right.
pub open spec fn eval_args(a: spec_fn(Seq<char>, int) -> bool, env: Seq<BvVarView>, es: Seq<ExprView>) -> Option<(Seq<BvVarView>, Seq<Val>, bool)>
    decreases es,
{
    if es.len() == 0 {
        Some((env, Seq::empty(), true))
    } else {
        match eval_args(a, env, es.drop_last()) {
            Some((env1, vs, h)) => match eval_expr(a, env1, es.last()) {
                Some(o) => Some((o.env, vs.push(o.val), h && o.holds)),
                None => None,
            },
            None => None,
        }
    }
}

/// Whether a program holds under `a`: every top-level expression is a
/// declaration or an assertion, and every assertion holds.  Gives the
/// declared variables at the end.
pub open spec fn eval_program(a: spec_fn(Seq<char>, int) -> bool, env: Seq<BvVarView>, p: Seq<ExprView>) -> Option<(Seq<BvVarView>, bool)>
    decreases p.len(),
{
    if p.len() == 0 {
        Some((env, true))
    } else {
        match eval_program(a, env, p.drop_last()) {
            Some((env1, h)) => match eval_expr(a, env1, p.last()) {
                Some(o) => if o.val.sort == Sort::Unit {
                    Some((o.env, h && o.holds))
                } else {
                    None
                },
                None => None,
            },
            None => None,
        }
    }
}

/// Every name in the expression satisfies `ok`.
pub open spec fn names_in(e: ExprView, ok: spec_fn(Seq<char>) -> bool) -> bool
    decreases e,
{
    match e {
        ExprView::Var(n) => ok(n),
        ExprView::Int(_) => true,
        ExprView::List(l) => names_in_list(l, ok),
    }
}

/// Every name in the expressions satisfies `ok`.
pub open spec fn names_in_list(l: Seq<ExprView>, ok: spec_fn(Seq<char>) -> bool) -> bool
    decreases l,
{
    if l.len() == 0 {
        true
    } else {
        names_in_list(l.drop_last(), ok) && names_in(l.last(), ok)
    }
}

/// The names of a list satisfy `ok` exactly when those of each expression do.
pub proof fn lemma_names_in_list(l: Seq<ExprView>, ok: spec_fn(Seq<char>) -> bool)
    ensures
        names_in_list(l, ok) == forall|i: int| 0 <= i < l.len() ==> #[trigger] names_in(l[i], ok),
    decreases l.len(),
{
    if l.len() > 0 {
        lemma_names_in_list(l.drop_last(), ok);
        if names_in_list(l, ok) {
            assert forall|i: int| 0 <= i < l.len() implies #[trigger] names_in(l[i], ok) by {
                if i < l.len() - 1 {
                    assert(names_in(l.drop_last()[i], ok));
                }
            }
        }
        if forall|i: int| 0 <= i < l.len() ==> #[trigger] names_in(l[i], ok) {
            assert forall|i: int| 0 <= i < l.drop_last().len() implies #[trigger] names_in(l.drop_last()[i], ok) by {
                assert(names_in(l[i], ok));
            }
            assert(names_in(l[l.len() - 1], ok));
        }
    }
}

/// The assignment that gives bit `i` of each name what `a` gives bit `i + 1`.
pub open spec fn shifted(a: spec_fn(Seq<char>, int) -> bool) -> spec_fn(Seq<char>, int) -> bool {
    |m: Seq<char>, i: int| a(m, i + 1)
}

/// A value in bits: bit 0 is its parity and the rest are the bits of its
/// half.
proof fn lemma_bv_value_low_bit(a: spec_fn(Seq<char>, int) -> bool, x: Seq<char>, n: nat)
    requires
        n > 0,
    ensures
        bv_value(a, x, n) == (if a(x, 0) { 1nat } else { 0nat }) + 2 * bv_value(shifted(a), x, (n - 1) as nat),
    decreases n,
{
    let sa = shifted(a);
    if n == 1 {
        vstd::arithmetic::power2::lemma2_to64();
        assert(bv_value(a, x, 0) == 0);
        assert(bv_value(sa, x, 0) == 0);
    } else {
        lemma_bv_value_low_bit(a, x, (n - 1) as nat);
        lemma_pow2_unfold((n - 1) as nat);
        assert(sa(x, n - 2) == a(x, n - 1));
        assert(bv_value(sa, x, (n - 1) as nat) == bv_value(sa, x, (n - 2) as nat) + if sa(x, n - 2) { pow2((n - 2) as nat) } else { 0 });
        assert(bv_value(a, x, n) == bv_value(a, x, (n - 1) as nat) + if a(x, n - 1) { pow2((n - 1) as nat) } else { 0 });
    }
}

/// Bit `i` of the value of `x` is bit `i` of `x`.
pub proof fn lemma_bit_of_value(a: spec_fn(Seq<char>, int) -> bool, x: Seq<char>, n: nat, i: nat)
    requires
        i < n,
    ensures
        bit_of(bv_value(a, x, n), i) == a(x, i as int),
    decreases i,
{
    let sa = shifted(a);
    let b: int = if a(x, 0) { 1 } else { 0 };
    let rest = bv_value(sa, x, (n - 1) as nat) as int;
    lemma_bv_value_low_bit(a, x, n);
    lemma_fundamental_div_mod_converse(bv_value(a, x, n) as int, 2, rest, b);
    if i > 0 {
        lemma_bit_of_value(sa, x, (n - 1) as nat, (i - 1) as nat);
        assert(sa(x, i - 1) == a(x, i as int));
    }
}

/// The value of bits that agree with `x` below `n` is the value of `x`.
pub proof fn lemma_fn_value(a: spec_fn(Seq<char>, int) -> bool, x: Seq<char>, f: spec_fn(int) -> bool, n: nat)
    requires
        forall|i: int| 0 <= i < n ==> #[trigger] f(i) == a(x, i),
    ensures
        fn_value(f, n) == bv_value(a, x, n),
    decreases n,
{
    if n > 0 {
        lemma_fn_value(a, x, f, (n - 1) as nat);
        assert(f(n - 1) == a(x, n - 1));
    }
}

/// Bit `i` of a constant `(to-bv num w)` is bit `i` of the number `num`
/// written in binary (two's complement for a negative one): the parity of
/// `num` halved `i` times, for every bit a `u128` has.
pub proof fn law_constant_bits(num: u128, i: int)
    requires
        0 <= i < 128,
    ensures
        num_bit(num, i) == bit_of(num as nat, i as nat),
    decreases i,
{
    let iu = i as u128;
    if i == 0 {
        assert(((num >> iu) & 1 != 0) == (num % 2 == 1)) by (bit_vector)
            requires
                iu == 0;
    } else {
        law_constant_bits(num / 2, i - 1);
        let ju = (i - 1) as u128;
        assert(((num >> iu) & 1) == (((num / 2) >> ju) & 1)) by (bit_vector)
            requires
                1 <= iu < 128,
                ju == iu - 1;
        assert((num / 2) as nat == (num as nat) / 2);
    }
}

proof fn lemma_bit_of_div(v: nat, k: nat)
    ensures
        bit_of(v, k) == ((v / pow2(k)) % 2 == 1),
    decreases k,
{
    if k == 0 {
        vstd::arithmetic::power2::lemma2_to64();
    } else {
        lemma_bit_of_div(v / 2, (k - 1) as nat);
        lemma_pow2_unfold(k);
        vstd::arithmetic::power2::lemma_pow2_pos((k - 1) as nat);
        vstd::arithmetic::div_mod::lemma_div_denominator(v as int, 2, pow2((k - 1) as nat) as int);
    }
}

proof fn lemma_bits_value(v: nat, n: nat)
    ensures
        fn_value(|i: int| bit_of(v, i as nat), n) == v % pow2(n),
    decreases n,
{
    let f = |i: int| bit_of(v, i as nat);
    if n == 0 {
        vstd::arithmetic::power2::lemma2_to64();
    } else {
        let k = (n - 1) as nat;
        lemma_bits_value(v, k);
        lemma_bit_of_div(v, k);
        lemma_pow2_unfold(n);
        vstd::arithmetic::power2::lemma_pow2_pos(k);
        vstd::arithmetic::div_mod::lemma_mod_breakdown(v as int, pow2(k) as int, 2);
        assert(f(n - 1) == bit_of(v, k));
        assert(pow2(k) * 2 == pow2(n));
    }
}

/// The value of a constant `(to-bv num w)` of at most 128 bits is `num`
/// modulo `2^w`.
pub proof fn law_constant_value(num: u128, w: nat)
    requires
        w <= 128,
    ensures
        fn_value(|i: int| num_bit(num, i), w) == (num as nat) % pow2(w),
{
    let f = |i: int| num_bit(num, i);
    let g = |i: int| bit_of(num as nat, i as nat);
    assert forall|i: int| 0 <= i < w implies #[trigger] f(i) == g(i) by {
        law_constant_bits(num, i);
    }
    lemma_fn_value_ext(f, g, w);
    lemma_bits_value(num as nat, w);
}

proof fn lemma_fn_value_ext(f: spec_fn(int) -> bool, g: spec_fn(int) -> bool, n: nat)
    requires
        forall|i: int| 0 <= i < n ==> #[trigger] f(i) == g(i),
    ensures
        fn_value(f, n) == fn_value(g, n),
    decreases n,
{
    if n > 0 {
        lemma_fn_value_ext(f, g, (n - 1) as nat);
        assert(f(n - 1) == g(n - 1));
    }
}

/// What the builtins on one-bit values mean: `and`, `or`, `xor`, `implies`
/// and `not` are the Boolean connectives of their bits, and an assertion
/// holds exactly when its bit is set.
pub proof fn law_flag_builtins(p: bool, q: bool)
    ensures
        op_val(Op::And, seq![flag(p), flag(q)]) == Some((flag(p && q), true)),
        op_val(Op::Or, seq![flag(p), flag(q)]) == Some((flag(p || q), true)),
        op_val(Op::Xor, seq![flag(p), flag(q)]) == Some((flag(p != q), true)),
        op_val(Op::Implies, seq![flag(p), flag(q)]) == Some((flag(!p || q), true)),
        op_val(Op::Not, seq![flag(p)]) == Some((flag(!p), true)),
        op_val(Op::Assert, seq![flag(p)]) == Some((unit_val(), p)),
{
    assert(flags(seq![flag(p), flag(q)], 2));
    assert(flags(seq![flag(p)], 1));
}

/// What the arithmetic builtins mean on two bit vectors of one width `w`
/// below `u128::MAX`: the unsigned value of `bv-add` is the sum of the
/// values modulo `2^w`, that of `bv-sub` their difference modulo `2^w`,
/// and `eq` and `ult` compare the values.
pub proof fn law_arith_builtins(x: Val, y: Val, w: u128)
    requires
        x.sort == Sort::BitVec(w),
        y.sort == Sort::BitVec(w),
        w < u128::MAX,
    ensures
        op_val(Op::BvAdd, seq![x, y]) matches Some((r, h)) && h && r.sort == x.sort
            && fn_value(r.bits, w as nat) == (fn_value(x.bits, w as nat) + fn_value(y.bits, w as nat)) % pow2(w as nat),
        op_val(Op::BvSub, seq![x, y]) matches Some((r, h)) && h && r.sort == x.sort
            && fn_value(r.bits, w as nat) as int == (fn_value(x.bits, w as nat) - fn_value(y.bits, w as nat)) % (pow2(w as nat) as int),
        op_val(Op::Eq, seq![x, y]) == Some((flag(fn_value(x.bits, w as nat) == fn_value(y.bits, w as nat)), true)),
        w > 0 ==> op_val(Op::Ult, seq![x, y]) == Some((flag(fn_value(x.bits, w as nat) < fn_value(y.bits, w as nat)), true)),
{
    let vs = seq![x, y];
    assert(vs[0] == x && vs[1] == y);
    assert(same_width(vs, 2));
    let n = w as nat;
    let p = pow2(n) as int;
    vstd::arithmetic::power2::lemma_pow2_pos(n);
    let vx = fn_value(x.bits, n) as int;
    let vy = fn_value(y.bits, n) as int;
    let sum = (vx + vy) % p;
    let dif = (vx - vy) % p;
    lemma_bits_value(sum as nat, n);
    lemma_bits_value(dif as nat, n);
    vstd::arithmetic::div_mod::lemma_mod_bound(vx + vy, p);
    vstd::arithmetic::div_mod::lemma_mod_bound(vx - vy, p);
    vstd::arithmetic::div_mod::lemma_small_mod(sum as nat, p as nat);
    vstd::arithmetic::div_mod::lemma_small_mod(dif as nat, p as nat);
    assert(fn_value(mod_bits(vx + vy, n), n) == fn_value(|i: int| bit_of(sum as nat, i as nat), n));
    assert(fn_value(mod_bits(vx - vy, n), n) == fn_value(|i: int| bit_of(dif as nat, i as nat), n));
}

} // verus!
