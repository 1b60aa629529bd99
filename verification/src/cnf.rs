//! Meaning of clauses: an assignment gives every bit of every named
//! variable a truth value; a literal holds when the bit has the literal's
//! polarity, a clause when one of its literals holds, a clause set when
//! all its clauses hold.
use vstd::prelude::*;
use crate::vars::Literal;

verus! {

/// The literal on bit `offset` of `name` with polarity `value`.
pub open spec fn lit(name: Seq<char>, offset: int, value: bool) -> Literal {
    Literal { name, offset, value }
}

pub open spec fn lit_holds(a: spec_fn(Seq<char>, int) -> bool, l: Literal) -> bool {
    a(l.name, l.offset) == l.value
}

pub open spec fn clause_holds(a: spec_fn(Seq<char>, int) -> bool, c: Seq<Literal>) -> bool {
    exists|k: int| 0 <= k < c.len() && #[trigger] lit_holds(a, c[k])
}

pub open spec fn cnf_holds(a: spec_fn(Seq<char>, int) -> bool, cs: Seq<Seq<Literal>>) -> bool {
    forall|j: int| 0 <= j < cs.len() ==> #[trigger] clause_holds(a, cs[j])
}

pub broadcast proof fn lemma_clause_empty(a: spec_fn(Seq<char>, int) -> bool)
    ensures
        !#[trigger] clause_holds(a, Seq::<Literal>::empty()),
{
}

pub broadcast proof fn lemma_clause_push(a: spec_fn(Seq<char>, int) -> bool, c: Seq<Literal>, l: Literal)
    ensures
        #[trigger] clause_holds(a, c.push(l)) == (clause_holds(a, c) || lit_holds(a, l)),
{
    if clause_holds(a, c) {
        let k = choose|k: int| 0 <= k < c.len() && #[trigger] lit_holds(a, c[k]);
        assert(c.push(l)[k] == c[k]);
    }
    if lit_holds(a, l) {
        assert(c.push(l)[c.len() as int] == l);
    }
    if clause_holds(a, c.push(l)) {
        let k = choose|k: int| 0 <= k < c.push(l).len() && #[trigger] lit_holds(a, c.push(l)[k]);
        if k < c.len() {
            assert(c.push(l)[k] == c[k]);
        }
    }
}

pub broadcast proof fn lemma_cnf_empty(a: spec_fn(Seq<char>, int) -> bool)
    ensures
        #[trigger] cnf_holds(a, Seq::<Seq<Literal>>::empty()),
{
}

pub broadcast proof fn lemma_cnf_push(a: spec_fn(Seq<char>, int) -> bool, cs: Seq<Seq<Literal>>, c: Seq<Literal>)
    ensures
        #[trigger] cnf_holds(a, cs.push(c)) == (cnf_holds(a, cs) && clause_holds(a, c)),
{
    if cnf_holds(a, cs.push(c)) {
        assert(cs.push(c)[cs.len() as int] == c);
        assert forall|j: int| 0 <= j < cs.len() implies #[trigger] clause_holds(a, cs[j]) by {
            assert(cs.push(c)[j] == cs[j]);
        }
    }
    if cnf_holds(a, cs) && clause_holds(a, c) {
        assert forall|j: int| 0 <= j < cs.push(c).len() implies #[trigger] clause_holds(a, cs.push(c)[j]) by {
            if j < cs.len() {
                assert(cs.push(c)[j] == cs[j]);
            }
        }
    }
}

pub broadcast group group_cnf_push {
    lemma_clause_empty,
    lemma_clause_push,
    lemma_cnf_empty,
    lemma_cnf_push,
}

/// The clauses `f(0) + f(1) + ... + f(n - 1)`.
pub open spec fn per_bit(n: nat, f: spec_fn(int) -> Seq<Seq<Literal>>) -> Seq<Seq<Literal>>
    decreases n,
{
    if n == 0 {
        seq![]
    } else {
        per_bit((n - 1) as nat, f) + f(n - 1)
    }
}

pub proof fn lemma_cnf_concat(a: spec_fn(Seq<char>, int) -> bool, x: Seq<Seq<Literal>>, y: Seq<Seq<Literal>>)
    ensures
        cnf_holds(a, x + y) == (cnf_holds(a, x) && cnf_holds(a, y)),
{
    if cnf_holds(a, x + y) {
        assert forall|j: int| 0 <= j < x.len() implies #[trigger] clause_holds(a, x[j]) by {
            assert((x + y)[j] == x[j]);
        }
        assert forall|j: int| 0 <= j < y.len() implies #[trigger] clause_holds(a, y[j]) by {
            assert((x + y)[x.len() + j] == y[j]);
        }
    }
    if cnf_holds(a, x) && cnf_holds(a, y) {
        assert forall|j: int| 0 <= j < (x + y).len() implies #[trigger] clause_holds(a, (x + y)[j]) by {
            if j < x.len() {
                assert((x + y)[j] == x[j]);
            } else {
                assert((x + y)[j] == y[j - x.len()]);
            }
        }
    }
}

pub proof fn lemma_per_bit(a: spec_fn(Seq<char>, int) -> bool, n: nat, f: spec_fn(int) -> Seq<Seq<Literal>>)
    ensures
        cnf_holds(a, per_bit(n, f)) == (forall|i: int| 0 <= i < n ==> #[trigger] cnf_holds(a, f(i))),
    decreases n,
{
    if n > 0 {
        lemma_per_bit(a, (n - 1) as nat, f);
        lemma_cnf_concat(a, per_bit((n - 1) as nat, f), f(n - 1));
    }
}

/// The clause of one literal.
pub open spec fn cl1(l0: Literal) -> Seq<Literal> {
    Seq::empty().push(l0)
}

/// The clause of two literals.
pub open spec fn cl2(l0: Literal, l1: Literal) -> Seq<Literal> {
    Seq::empty().push(l0).push(l1)
}

/// The clause of three literals.
pub open spec fn cl3(l0: Literal, l1: Literal, l2: Literal) -> Seq<Literal> {
    Seq::empty().push(l0).push(l1).push(l2)
}

/// The clause of four literals.
pub open spec fn cl4(l0: Literal, l1: Literal, l2: Literal, l3: Literal) -> Seq<Literal> {
    Seq::empty().push(l0).push(l1).push(l2).push(l3)
}

} // verus!
