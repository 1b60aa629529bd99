//! The clauses that encode each operation bit by bit (a Tseytin encoding:
//! every result bit gets a variable of its own), and what each set of
//! clauses means under an assignment.
use vstd::prelude::*;
use vstd::arithmetic::power2::{pow2, lemma_pow2_unfold, lemma_pow2_pos};
use crate::vars::Literal;
use crate::cnf::{lit, cl1, cl2, cl3, cl4, clause_holds, cnf_holds, per_bit, lemma_per_bit, lemma_cnf_concat, group_cnf_push};

verus! {

broadcast use group_cnf_push;

/// The bitwise operations on two operands.
#[derive(Debug, Clone, Copy, PartialEq, Eq, Structural)]
pub enum BitGate {
    And,
    Or,
    Xor,
    Nand,
    Nor,
    Xnor,
    Implies,
}

/// What a bitwise operation computes on one pair of bits.
pub open spec fn gate_op(g: BitGate, p: bool, q: bool) -> bool {
    match g {
        BitGate::And => p && q,
        BitGate::Or => p || q,
        BitGate::Xor => p != q,
        BitGate::Nand => !(p && q),
        BitGate::Nor => !(p || q),
        BitGate::Xnor => p == q,
        BitGate::Implies => !p || q,
    }
}

/// The clauses that tie bit `i` of `r` to the operation on bit `i` of
/// `x` and `y`.
pub open spec fn gate_bit(g: BitGate, x: Seq<char>, y: Seq<char>, r: Seq<char>, i: int) -> Seq<Seq<Literal>> {
    match g {
        BitGate::And => Seq::empty()
            .push(cl3(lit(x, i, false), lit(y, i, false), lit(r, i, true)))
            .push(cl2(lit(x, i, true), lit(r, i, false)))
            .push(cl2(lit(y, i, true), lit(r, i, false))),
        BitGate::Or => Seq::empty()
            .push(cl3(lit(x, i, true), lit(y, i, true), lit(r, i, false)))
            .push(cl2(lit(x, i, false), lit(r, i, true)))
            .push(cl2(lit(y, i, false), lit(r, i, true))),
        BitGate::Xor => Seq::empty()
            .push(cl3(lit(x, i, false), lit(y, i, false), lit(r, i, false)))
            .push(cl3(lit(x, i, true), lit(y, i, true), lit(r, i, false)))
            .push(cl3(lit(x, i, true), lit(y, i, false), lit(r, i, true)))
            .push(cl3(lit(x, i, false), lit(y, i, true), lit(r, i, true))),
        BitGate::Nand => Seq::empty()
            .push(cl3(lit(x, i, false), lit(y, i, false), lit(r, i, false)))
            .push(cl2(lit(x, i, true), lit(r, i, true)))
            .push(cl2(lit(y, i, true), lit(r, i, true))),
        BitGate::Nor => Seq::empty()
            .push(cl3(lit(x, i, true), lit(y, i, true), lit(r, i, true)))
            .push(cl2(lit(x, i, false), lit(r, i, false)))
            .push(cl2(lit(y, i, false), lit(r, i, false))),
        BitGate::Xnor => Seq::empty()
            .push(cl3(lit(x, i, false), lit(y, i, false), lit(r, i, true)))
            .push(cl3(lit(x, i, true), lit(y, i, true), lit(r, i, true)))
            .push(cl3(lit(x, i, true), lit(y, i, false), lit(r, i, false)))
            .push(cl3(lit(x, i, false), lit(y, i, true), lit(r, i, false))),
        BitGate::Implies => Seq::empty()
            .push(cl3(lit(x, i, false), lit(y, i, true), lit(r, i, false)))
            .push(cl2(lit(x, i, true), lit(r, i, true)))
            .push(cl2(lit(y, i, false), lit(r, i, true))),
    }
}

pub open spec fn gate_bits(g: BitGate, x: Seq<char>, y: Seq<char>, r: Seq<char>) -> spec_fn(int) -> Seq<Seq<Literal>> {
    |i: int| gate_bit(g, x, y, r, i)
}

/// The clauses of a bitwise operation over `n` bits.
pub open spec fn gate_clauses(g: BitGate, x: Seq<char>, y: Seq<char>, r: Seq<char>, n: nat) -> Seq<Seq<Literal>> {
    per_bit(n, gate_bits(g, x, y, r))
}

/// The clauses that make bit `i` of `r` the negation of bit `i` of `x`.
pub open spec fn not_bit(x: Seq<char>, r: Seq<char>, i: int) -> Seq<Seq<Literal>> {
    Seq::empty().push(cl2(lit(x, i, false), lit(r, i, false))).push(cl2(lit(x, i, true), lit(r, i, true)))
}

pub open spec fn not_bits(x: Seq<char>, r: Seq<char>) -> spec_fn(int) -> Seq<Seq<Literal>> {
    |i: int| not_bit(x, r, i)
}

pub open spec fn not_clauses(x: Seq<char>, r: Seq<char>, n: nat) -> Seq<Seq<Literal>> {
    per_bit(n, not_bits(x, r))
}

/// Bit `i` of a choice: `r[i]` is `x[i]` when `c[0]` is set and `y[i]`
/// otherwise.
pub open spec fn ite_bit(c: Seq<char>, x: Seq<char>, y: Seq<char>, r: Seq<char>, i: int) -> Seq<Seq<Literal>> {
    Seq::empty()
        .push(cl3(lit(c, 0, false), lit(x, i, false), lit(r, i, true)))
        .push(cl3(lit(c, 0, false), lit(x, i, true), lit(r, i, false)))
        .push(cl3(lit(c, 0, true), lit(y, i, false), lit(r, i, true)))
        .push(cl3(lit(c, 0, true), lit(y, i, true), lit(r, i, false)))
}

pub open spec fn ite_bits(c: Seq<char>, x: Seq<char>, y: Seq<char>, r: Seq<char>) -> spec_fn(int) -> Seq<Seq<Literal>> {
    |i: int| ite_bit(c, x, y, r, i)
}

/// The clauses of a choice over `n` bits.
pub open spec fn ite_clauses(c: Seq<char>, x: Seq<char>, y: Seq<char>, r: Seq<char>, n: nat) -> Seq<Seq<Literal>> {
    per_bit(n, ite_bits(c, x, y, r))
}

/// Bit `i` of `num` (bit 0 is the least significant).
pub open spec fn num_bit(num: u128, i: int) -> bool {
    (num >> (i as u128)) & 1 != 0
}

/// The unit clause that fixes bit `i` of `t` to bit `i` of `num`.
pub open spec fn const_bit(t: Seq<char>, num: u128, i: int) -> Seq<Seq<Literal>> {
    Seq::empty().push(cl1(lit(t, i, num_bit(num, i))))
}

pub open spec fn const_bits(t: Seq<char>, num: u128) -> spec_fn(int) -> Seq<Seq<Literal>> {
    |i: int| const_bit(t, num, i)
}

pub open spec fn const_clauses(t: Seq<char>, num: u128, n: nat) -> Seq<Seq<Literal>> {
    per_bit(n, const_bits(t, num))
}

/// The unit clause that asserts bit 0 of `x`.
pub open spec fn assert_clauses(x: Seq<char>) -> Seq<Seq<Literal>> {
    Seq::empty().push(cl1(lit(x, 0, true)))
}

/// Bit `i` of an equality test: `h[i]` is set exactly when `x[i]` and
/// `y[i]` agree, and the result bit `r[0]` implies `h[i]`.
pub open spec fn eq_bit(x: Seq<char>, y: Seq<char>, h: Seq<char>, r: Seq<char>, i: int) -> Seq<Seq<Literal>> {
    Seq::empty()
        .push(cl3(lit(x, i, false), lit(y, i, true), lit(h, i, false)))
        .push(cl3(lit(x, i, true), lit(y, i, false), lit(h, i, false)))
        .push(cl3(lit(x, i, true), lit(y, i, true), lit(h, i, true)))
        .push(cl3(lit(x, i, false), lit(y, i, false), lit(h, i, true)))
        .push(cl2(lit(h, i, true), lit(r, 0, false)))
}

pub open spec fn eq_bits(x: Seq<char>, y: Seq<char>, h: Seq<char>, r: Seq<char>) -> spec_fn(int) -> Seq<Seq<Literal>> {
    |i: int| eq_bit(x, y, h, r, i)
}

/// The clause `r[0] or not h[0] or ... or not h[n - 1]`.
pub open spec fn eq_last(h: Seq<char>, r: Seq<char>, n: nat) -> Seq<Literal>
    decreases n,
{
    if n == 0 {
        cl1(lit(r, 0, true))
    } else {
        eq_last(h, r, (n - 1) as nat).push(lit(h, n - 1, false))
    }
}

/// The clauses of an equality test over `n` bits with helper `h`.
pub open spec fn eq_clauses(x: Seq<char>, y: Seq<char>, h: Seq<char>, r: Seq<char>, n: nat) -> Seq<Seq<Literal>> {
    per_bit(n, eq_bits(x, y, h, r)).push(eq_last(h, r, n))
}

/// Bit `i` of an unsigned less-than chain: `lt[i]` holds when the low
/// `i + 1` bits of `x` are below those of `y`.
pub open spec fn ult_bit(x: Seq<char>, y: Seq<char>, lt: Seq<char>, i: int) -> Seq<Seq<Literal>> {
    if i == 0 {
        Seq::empty()
            .push(cl3(lit(x, i, true), lit(y, i, true), lit(lt, i, false)))
            .push(cl3(lit(x, i, false), lit(y, i, false), lit(lt, i, false)))
            .push(cl3(lit(x, i, true), lit(y, i, false), lit(lt, i, true)))
            .push(cl3(lit(x, i, false), lit(y, i, true), lit(lt, i, false)))
    } else {
        Seq::empty()
            .push(cl4(lit(x, i, true), lit(y, i, true), lit(lt, i - 1, true), lit(lt, i, false)))
            .push(cl4(lit(x, i, true), lit(y, i, true), lit(lt, i - 1, false), lit(lt, i, true)))
            .push(cl4(lit(x, i, true), lit(y, i, false), lit(lt, i - 1, true), lit(lt, i, true)))
            .push(cl4(lit(x, i, false), lit(y, i, true), lit(lt, i - 1, true), lit(lt, i, false)))
            .push(cl4(lit(x, i, false), lit(y, i, false), lit(lt, i - 1, true), lit(lt, i, false)))
            .push(cl4(lit(x, i, false), lit(y, i, true), lit(lt, i - 1, false), lit(lt, i, false)))
            .push(cl4(lit(x, i, true), lit(y, i, false), lit(lt, i - 1, false), lit(lt, i, true)))
            .push(cl4(lit(x, i, false), lit(y, i, false), lit(lt, i - 1, false), lit(lt, i, true)))
    }
}

pub open spec fn ult_bits(x: Seq<char>, y: Seq<char>, lt: Seq<char>) -> spec_fn(int) -> Seq<Seq<Literal>> {
    |i: int| ult_bit(x, y, lt, i)
}

/// The two clauses that make `r[0]` equal to `lt[n - 1]`.
pub open spec fn ult_result(lt: Seq<char>, r: Seq<char>, n: nat) -> Seq<Seq<Literal>> {
    Seq::empty()
        .push(cl2(lit(r, 0, true), lit(lt, n - 1, false)))
        .push(cl2(lit(r, 0, false), lit(lt, n - 1, true)))
}

/// The clauses of an unsigned less-than test over `n` bits with chain `lt`.
pub open spec fn ult_clauses(x: Seq<char>, y: Seq<char>, lt: Seq<char>, r: Seq<char>, n: nat) -> Seq<Seq<Literal>> {
    per_bit(n, ult_bits(x, y, lt)) + ult_result(lt, r, n)
}

/// Bit `i` of a ripple-carry adder: `s[i]` is the sum bit and `c[i + 1]`
/// the carry out of `x[i]`, `y[i]` and the carry in `c[i]`.
pub open spec fn add_bit(x: Seq<char>, y: Seq<char>, c: Seq<char>, s: Seq<char>, i: int) -> Seq<Seq<Literal>> {
    Seq::empty()
        .push(cl4(lit(x, i, true), lit(y, i, true), lit(c, i, true), lit(s, i, false)))
        .push(cl4(lit(x, i, false), lit(y, i, false), lit(c, i, true), lit(s, i, false)))
        .push(cl4(lit(x, i, false), lit(y, i, true), lit(c, i, false), lit(s, i, false)))
        .push(cl4(lit(x, i, true), lit(y, i, false), lit(c, i, false), lit(s, i, false)))
        .push(cl4(lit(x, i, true), lit(y, i, true), lit(c, i, false), lit(s, i, true)))
        .push(cl4(lit(x, i, true), lit(y, i, false), lit(c, i, true), lit(s, i, true)))
        .push(cl4(lit(x, i, false), lit(y, i, true), lit(c, i, true), lit(s, i, true)))
        .push(cl4(lit(x, i, false), lit(y, i, false), lit(c, i, false), lit(s, i, true)))
        .push(cl4(lit(x, i, false), lit(y, i, false), lit(c, i, true), lit(c, i + 1, true)))
        .push(cl4(lit(x, i, false), lit(y, i, true), lit(c, i, false), lit(c, i + 1, true)))
        .push(cl4(lit(x, i, true), lit(y, i, false), lit(c, i, false), lit(c, i + 1, true)))
        .push(cl4(lit(x, i, false), lit(y, i, false), lit(c, i, false), lit(c, i + 1, true)))
        .push(cl4(lit(x, i, true), lit(y, i, true), lit(c, i, false), lit(c, i + 1, false)))
        .push(cl4(lit(x, i, true), lit(y, i, false), lit(c, i, true), lit(c, i + 1, false)))
        .push(cl4(lit(x, i, false), lit(y, i, true), lit(c, i, true), lit(c, i + 1, false)))
        .push(cl4(lit(x, i, true), lit(y, i, true), lit(c, i, true), lit(c, i + 1, false)))
}

pub open spec fn add_bits(x: Seq<char>, y: Seq<char>, c: Seq<char>, s: Seq<char>) -> spec_fn(int) -> Seq<Seq<Literal>> {
    |i: int| add_bit(x, y, c, s, i)
}

/// The clauses of `x + y = s` over `n` bits with carry chain `c`.
pub open spec fn adder_clauses(x: Seq<char>, y: Seq<char>, c: Seq<char>, s: Seq<char>, n: nat) -> Seq<Seq<Literal>> {
    Seq::empty().push(cl1(lit(c, 0, false))) + per_bit(n, add_bits(x, y, c, s))
}

/// The unsigned value of the low `n` bits of `x` under `a`.
pub open spec fn bv_value(a: spec_fn(Seq<char>, int) -> bool, x: Seq<char>, n: nat) -> nat
    decreases n,
{
    if n == 0 {
        0
    } else {
        bv_value(a, x, (n - 1) as nat) + if a(x, n - 1) { pow2((n - 1) as nat) } else { 0 }
    }
}

// ---------------------------------------------------------------------
// Laws
// ---------------------------------------------------------------------

/// The clauses of a bitwise operation hold exactly when every result bit
/// is the operation on the operand bits.
pub proof fn law_gate_clauses(a: spec_fn(Seq<char>, int) -> bool, g: BitGate, x: Seq<char>, y: Seq<char>, r: Seq<char>, n: nat)
    ensures
        cnf_holds(a, gate_clauses(g, x, y, r, n))
            == (forall|i: int| 0 <= i < n ==> #[trigger] a(r, i) == gate_op(g, a(x, i), a(y, i))),
{
    lemma_per_bit(a, n, gate_bits(g, x, y, r));
    assert forall|i: int| 0 <= i < n implies #[trigger] cnf_holds(a, gate_bits(g, x, y, r)(i))
        == (a(r, i) == gate_op(g, a(x, i), a(y, i))) by {
    }
    if cnf_holds(a, gate_clauses(g, x, y, r, n)) {
        assert forall|i: int| 0 <= i < n implies #[trigger] a(r, i) == gate_op(g, a(x, i), a(y, i)) by {
            assert(cnf_holds(a, gate_bits(g, x, y, r)(i)));
        }
    }
}

/// The clauses of a choice hold exactly when every result bit is the bit
/// of `x` if `c[0]` is set and the bit of `y` otherwise.
pub proof fn law_ite_clauses(a: spec_fn(Seq<char>, int) -> bool, c: Seq<char>, x: Seq<char>, y: Seq<char>, r: Seq<char>, n: nat)
    ensures
        cnf_holds(a, ite_clauses(c, x, y, r, n))
            == (forall|i: int| 0 <= i < n ==> #[trigger] a(r, i) == if a(c, 0) { a(x, i) } else { a(y, i) }),
{
    lemma_per_bit(a, n, ite_bits(c, x, y, r));
    assert forall|i: int| 0 <= i < n implies #[trigger] cnf_holds(a, ite_bits(c, x, y, r)(i))
        == (a(r, i) == if a(c, 0) { a(x, i) } else { a(y, i) }) by {
    }
    if cnf_holds(a, ite_clauses(c, x, y, r, n)) {
        assert forall|i: int| 0 <= i < n implies #[trigger] a(r, i) == if a(c, 0) { a(x, i) } else { a(y, i) } by {
            assert(cnf_holds(a, ite_bits(c, x, y, r)(i)));
        }
    }
}

/// The clauses of a bitwise negation hold exactly when every result bit
/// is the negated operand bit.
pub proof fn law_not_clauses(a: spec_fn(Seq<char>, int) -> bool, x: Seq<char>, r: Seq<char>, n: nat)
    ensures
        cnf_holds(a, not_clauses(x, r, n)) == (forall|i: int| 0 <= i < n ==> #[trigger] a(r, i) == !a(x, i)),
{
    lemma_per_bit(a, n, not_bits(x, r));
    assert forall|i: int| 0 <= i < n implies #[trigger] cnf_holds(a, not_bits(x, r)(i)) == (a(r, i) == !a(x, i)) by {
    }
    if cnf_holds(a, not_clauses(x, r, n)) {
        assert forall|i: int| 0 <= i < n implies #[trigger] a(r, i) == !a(x, i) by {
            assert(cnf_holds(a, not_bits(x, r)(i)));
        }
    }
}

/// The clauses of a constant hold exactly when its bits are those of the
/// number.
pub proof fn law_const_clauses(a: spec_fn(Seq<char>, int) -> bool, t: Seq<char>, num: u128, n: nat)
    ensures
        cnf_holds(a, const_clauses(t, num, n)) == (forall|i: int| 0 <= i < n ==> #[trigger] a(t, i) == num_bit(num, i)),
{
    lemma_per_bit(a, n, const_bits(t, num));
    assert forall|i: int| 0 <= i < n implies #[trigger] cnf_holds(a, const_bits(t, num)(i)) == (a(t, i) == num_bit(num, i)) by {
    }
    if cnf_holds(a, const_clauses(t, num, n)) {
        assert forall|i: int| 0 <= i < n implies #[trigger] a(t, i) == num_bit(num, i) by {
            assert(cnf_holds(a, const_bits(t, num)(i)));
        }
    }
}

/// An assertion holds exactly when bit 0 of its operand is set.
pub proof fn law_assert_clauses(a: spec_fn(Seq<char>, int) -> bool, x: Seq<char>)
    ensures
        cnf_holds(a, assert_clauses(x)) == a(x, 0),
{
}

proof fn lemma_eq_last(a: spec_fn(Seq<char>, int) -> bool, h: Seq<char>, r: Seq<char>, n: nat)
    ensures
        clause_holds(a, eq_last(h, r, n)) == (a(r, 0) || exists|i: int| 0 <= i < n && !#[trigger] a(h, i)),
    decreases n,
{
    if n > 0 {
        lemma_eq_last(a, h, r, (n - 1) as nat);
        if exists|i: int| 0 <= i < n && !#[trigger] a(h, i) {
            let i = choose|i: int| 0 <= i < n && !#[trigger] a(h, i);
            if i < n - 1 {
                assert(exists|j: int| 0 <= j < n - 1 && !#[trigger] a(h, j));
            }
        }
    }
}

/// The clauses of an equality test hold exactly when each helper bit says
/// whether the operand bits agree and the result bit says whether all
/// helper bits are set.
pub proof fn law_eq_clauses(a: spec_fn(Seq<char>, int) -> bool, x: Seq<char>, y: Seq<char>, h: Seq<char>, r: Seq<char>, n: nat)
    ensures
        cnf_holds(a, eq_clauses(x, y, h, r, n)) == (
            (forall|i: int| 0 <= i < n ==> #[trigger] a(h, i) == (a(x, i) == a(y, i)))
            && a(r, 0) == (forall|i: int| 0 <= i < n ==> #[trigger] a(h, i))),
{
    lemma_per_bit(a, n, eq_bits(x, y, h, r));
    lemma_eq_last(a, h, r, n);
    assert forall|i: int| 0 <= i < n implies #[trigger] cnf_holds(a, eq_bits(x, y, h, r)(i))
        == (a(h, i) == (a(x, i) == a(y, i)) && (a(r, 0) ==> a(h, i))) by {
    }
    if cnf_holds(a, eq_clauses(x, y, h, r, n)) {
        assert forall|i: int| 0 <= i < n implies #[trigger] a(h, i) == (a(x, i) == a(y, i)) by {
            assert(cnf_holds(a, eq_bits(x, y, h, r)(i)));
        }
        if a(r, 0) {
            assert forall|i: int| 0 <= i < n implies #[trigger] a(h, i) by {
                assert(cnf_holds(a, eq_bits(x, y, h, r)(i)));
            }
        }
    }
    if (forall|i: int| 0 <= i < n ==> #[trigger] a(h, i) == (a(x, i) == a(y, i)))
        && a(r, 0) == (forall|i: int| 0 <= i < n ==> #[trigger] a(h, i)) {
        assert forall|i: int| 0 <= i < n implies #[trigger] cnf_holds(a, eq_bits(x, y, h, r)(i)) by {
        }
    }
}

/// The clauses of an equality test force the result bit to say whether
/// the operands agree on all `n` bits.
pub proof fn law_eq_result(a: spec_fn(Seq<char>, int) -> bool, x: Seq<char>, y: Seq<char>, h: Seq<char>, r: Seq<char>, n: nat)
    requires
        cnf_holds(a, eq_clauses(x, y, h, r, n)),
    ensures
        a(r, 0) == (forall|i: int| 0 <= i < n ==> #[trigger] a(x, i) == a(y, i)),
{
    law_eq_clauses(a, x, y, h, r, n);
    if a(r, 0) {
        assert forall|i: int| 0 <= i < n implies #[trigger] a(x, i) == a(y, i) by {
            assert(a(h, i));
        }
    }
    if forall|i: int| 0 <= i < n ==> #[trigger] a(x, i) == a(y, i) {
        assert forall|i: int| 0 <= i < n implies #[trigger] a(h, i) by {
            assert(a(x, i) == a(y, i));
        }
    }
}

/// The recurrence of the less-than chain.
pub open spec fn ult_chain(a: spec_fn(Seq<char>, int) -> bool, x: Seq<char>, y: Seq<char>, lt: Seq<char>, i: int) -> bool {
    if i == 0 {
        a(lt, 0) == (!a(x, 0) && a(y, 0))
    } else {
        a(lt, i) == if a(x, i) == a(y, i) { a(lt, i - 1) } else { a(y, i) }
    }
}

/// The clauses of an unsigned less-than test over `n > 0` bits hold
/// exactly when the chain follows its recurrence and the result bit is the
/// last chain bit.
pub proof fn law_ult_clauses(a: spec_fn(Seq<char>, int) -> bool, x: Seq<char>, y: Seq<char>, lt: Seq<char>, r: Seq<char>, n: nat)
    requires
        n > 0,
    ensures
        cnf_holds(a, ult_clauses(x, y, lt, r, n)) == (
            (forall|i: int| 0 <= i < n ==> #[trigger] ult_chain(a, x, y, lt, i))
            && a(r, 0) == a(lt, n - 1)),
{
    lemma_per_bit(a, n, ult_bits(x, y, lt));
    lemma_cnf_concat(a, per_bit(n, ult_bits(x, y, lt)), ult_result(lt, r, n));
    assert forall|i: int| 0 <= i < n implies #[trigger] cnf_holds(a, ult_bits(x, y, lt)(i))
        == ult_chain(a, x, y, lt, i) by {
    }
    if cnf_holds(a, ult_clauses(x, y, lt, r, n)) {
        assert forall|i: int| 0 <= i < n implies #[trigger] ult_chain(a, x, y, lt, i) by {
            assert(cnf_holds(a, ult_bits(x, y, lt)(i)));
        }
    }
    if forall|i: int| 0 <= i < n ==> #[trigger] ult_chain(a, x, y, lt, i) {
        assert forall|i: int| 0 <= i < n implies #[trigger] cnf_holds(a, ult_bits(x, y, lt)(i)) by {
            assert(ult_chain(a, x, y, lt, i));
        }
    }
}

pub proof fn lemma_bv_value_bound(a: spec_fn(Seq<char>, int) -> bool, x: Seq<char>, n: nat)
    ensures
        bv_value(a, x, n) < pow2(n),
    decreases n,
{
    if n > 0 {
        lemma_bv_value_bound(a, x, (n - 1) as nat);
        lemma_pow2_unfold(n);
    } else {
        lemma_pow2_pos(0);
    }
}

proof fn lemma_ult_chain_value(a: spec_fn(Seq<char>, int) -> bool, x: Seq<char>, y: Seq<char>, lt: Seq<char>, n: nat)
    requires
        n > 0,
        forall|i: int| 0 <= i < n ==> #[trigger] ult_chain(a, x, y, lt, i),
    ensures
        a(lt, n - 1) == (bv_value(a, x, n) < bv_value(a, y, n)),
    decreases n,
{
    let k = (n - 1) as nat;
    assert(ult_chain(a, x, y, lt, k as int));
    lemma_bv_value_bound(a, x, k);
    lemma_bv_value_bound(a, y, k);
    if n > 1 {
        lemma_ult_chain_value(a, x, y, lt, k);
    } else {
        assert(bv_value(a, x, 0) == 0);
        assert(bv_value(a, y, 0) == 0);
        vstd::arithmetic::power2::lemma2_to64();
    }
}

/// The clauses of an unsigned less-than test over `n > 0` bits force the
/// result bit to say whether the value of `x` is below that of `y`.
pub proof fn law_ult_result(a: spec_fn(Seq<char>, int) -> bool, x: Seq<char>, y: Seq<char>, lt: Seq<char>, r: Seq<char>, n: nat)
    requires
        n > 0,
        cnf_holds(a, ult_clauses(x, y, lt, r, n)),
    ensures
        a(r, 0) == (bv_value(a, x, n) < bv_value(a, y, n)),
{
    law_ult_clauses(a, x, y, lt, r, n);
    lemma_ult_chain_value(a, x, y, lt, n);
}

/// The full-adder relation of bit `i`.
pub open spec fn adder_bit(a: spec_fn(Seq<char>, int) -> bool, x: Seq<char>, y: Seq<char>, c: Seq<char>, s: Seq<char>, i: int) -> bool {
    &&& a(s, i) == ((a(x, i) != a(y, i)) != a(c, i))
    &&& a(c, i + 1) == ((a(x, i) && a(y, i)) || (a(x, i) && a(c, i)) || (a(y, i) && a(c, i)))
}

/// The clauses of an addition hold exactly when the carry in is clear and
/// every bit is a full adder.
pub proof fn law_add_clauses(a: spec_fn(Seq<char>, int) -> bool, x: Seq<char>, y: Seq<char>, c: Seq<char>, s: Seq<char>, n: nat)
    ensures
        cnf_holds(a, adder_clauses(x, y, c, s, n)) == (
            !a(c, 0) && forall|i: int| 0 <= i < n ==> #[trigger] adder_bit(a, x, y, c, s, i)),
{
    lemma_per_bit(a, n, add_bits(x, y, c, s));
    lemma_cnf_concat(a, Seq::empty().push(cl1(lit(c, 0, false))), per_bit(n, add_bits(x, y, c, s)));
    assert forall|i: int| 0 <= i < n implies #[trigger] cnf_holds(a, add_bits(x, y, c, s)(i))
        == adder_bit(a, x, y, c, s, i) by {
    }
    if cnf_holds(a, adder_clauses(x, y, c, s, n)) {
        assert forall|i: int| 0 <= i < n implies #[trigger] adder_bit(a, x, y, c, s, i) by {
            assert(cnf_holds(a, add_bits(x, y, c, s)(i)));
        }
    }
    if forall|i: int| 0 <= i < n ==> #[trigger] adder_bit(a, x, y, c, s, i) {
        assert forall|i: int| 0 <= i < n implies #[trigger] cnf_holds(a, add_bits(x, y, c, s)(i)) by {
            assert(adder_bit(a, x, y, c, s, i));
        }
    }
}

proof fn lemma_adder_value(a: spec_fn(Seq<char>, int) -> bool, x: Seq<char>, y: Seq<char>, c: Seq<char>, s: Seq<char>, n: nat)
    requires
        !a(c, 0),
        forall|i: int| 0 <= i < n ==> #[trigger] adder_bit(a, x, y, c, s, i),
    ensures
        bv_value(a, s, n) + (if a(c, n as int) { pow2(n) } else { 0 }) == bv_value(a, x, n) + bv_value(a, y, n),
    decreases n,
{
    if n > 0 {
        let k = (n - 1) as nat;
        lemma_adder_value(a, x, y, c, s, k);
        assert(adder_bit(a, x, y, c, s, k as int));
        lemma_pow2_unfold(n);
    }
}

/// The clauses of an addition force `s` to hold the sum of `x` and `y`
/// modulo `2^n`: the sum plus the carry out is the exact sum.
pub proof fn law_add_result(a: spec_fn(Seq<char>, int) -> bool, x: Seq<char>, y: Seq<char>, c: Seq<char>, s: Seq<char>, n: nat)
    requires
        cnf_holds(a, adder_clauses(x, y, c, s, n)),
    ensures
        bv_value(a, s, n) + (if a(c, n as int) { pow2(n) } else { 0 }) == bv_value(a, x, n) + bv_value(a, y, n),
        bv_value(a, s, n) as int == (bv_value(a, x, n) + bv_value(a, y, n)) as int % (pow2(n) as int),
{
    law_add_clauses(a, x, y, c, s, n);
    lemma_adder_value(a, x, y, c, s, n);
    lemma_bv_value_bound(a, s, n);
    lemma_pow2_pos(n);
    let p = pow2(n) as int;
    let t = (bv_value(a, x, n) + bv_value(a, y, n)) as int;
    if a(c, n as int) {
        vstd::arithmetic::div_mod::lemma_fundamental_div_mod_converse(t, p, 1, bv_value(a, s, n) as int);
    } else {
        vstd::arithmetic::div_mod::lemma_fundamental_div_mod_converse(t, p, 0, bv_value(a, s, n) as int);
    }
}

} // verus!
