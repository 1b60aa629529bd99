//! Numbering the bits of blasted variables for a SAT solver, and reading
//! bit-vector values back from a model.
use vstd::prelude::*;
use vstd::arithmetic::power2::{pow2, lemma_pow2_unfold, lemma_pow2_strictly_increases, lemma2_to64, lemma_pow2_adds};
use crate::vars::{Sort, BvVar, BvVarView, Literal, sort_bits};
use crate::check::{Clause, clause_view, clauses_view, vars_view};
use crate::cnf::{clause_holds, cnf_holds, lit_holds};
use crate::gates::bv_value;

verus! {

/// A literal of the numbered problem: a variable number and a sign.
#[derive(Debug, Clone, Copy, PartialEq, Eq, Structural)]
pub struct SatLit {
    pub var: usize,
    pub negated: bool,
}

/// Where the bits of one variable are numbered: `width` numbers from
/// `base` on.
pub struct SlotView {
    pub name: Seq<char>,
    pub width: nat,
    pub base: nat,
}

struct Slot {
    name: String,
    width: u128,
    base: usize,
}

/// The numbering of the bits of a list of variables, in order.
pub struct Numbering {
    slots: Vec<Slot>,
}

impl Numbering {
    /// Every numbered bit has a number that fits in `usize`.
    #[verifier::type_invariant]
    spec fn numbers_fit(self) -> bool {
        forall|i: int| 0 <= i < self.slots@.len() ==> #[trigger] self.slots@[i].base + self.slots@[i].width <= usize::MAX
    }
}

impl View for Numbering {
    type V = Seq<SlotView>;

    closed spec fn view(&self) -> Seq<SlotView> {
        self.slots@.map_values(|s: Slot| SlotView { name: s.name@, width: s.width as nat, base: s.base as nat })
    }
}

/// Why the clauses cannot be numbered.
#[derive(Debug, PartialEq, Eq, Structural)]
pub enum EncodeError {
    /// The variables have more bits than there are numbers.
    TooManyBits,
    /// A literal names a bit that no variable of the list has.
    UnknownBit,
}

/// The number of bits of a sort.
pub fn get_bits(sort: &Sort) -> (n: u128)
    ensures
        n as nat == sort_bits(*sort),
{
    match sort {
        Sort::Unit => 0,
        Sort::BitVec(n) => *n,
    }
}

/// The number of bits that `slots` number.
pub open spec fn total_bits(slots: Seq<SlotView>) -> nat {
    if slots.len() == 0 {
        0
    } else {
        slots.last().base + slots.last().width
    }
}

/// The numbering of `vars`: each variable's bits follow those of the
/// variables before it.
pub open spec fn slots_of(vars: Seq<BvVarView>) -> Seq<SlotView>
    decreases vars.len(),
{
    if vars.len() == 0 {
        Seq::empty()
    } else {
        let prev = slots_of(vars.drop_last());
        prev.push(SlotView { name: vars.last().name, width: sort_bits(vars.last().sort), base: total_bits(prev) })
    }
}

/// Numbers the bits of `vars` in order, from 0.
pub fn number_vars(vars: &Vec<BvVar>) -> (r: Result<Numbering, EncodeError>)
    ensures
        total_bits(slots_of(vars_view(vars@))) <= usize::MAX ==> (r matches Ok(n) && n@ == slots_of(vars_view(vars@))),
        total_bits(slots_of(vars_view(vars@))) > usize::MAX ==> r == Err::<Numbering, EncodeError>(EncodeError::TooManyBits),
{
    let ghost vv = vars_view(vars@);
    let mut slots: Vec<Slot> = Vec::new();
    let mut total: usize = 0;
    let mut i: usize = 0;
    while i < vars.len()
        invariant
            vv == vars_view(vars@),
            0 <= i <= vars@.len(),
            (Numbering { slots })@ == slots_of(vv.take(i as int)),
            total as nat == total_bits(slots_of(vv.take(i as int))),
            forall|k: int| 0 <= k < slots@.len() ==> #[trigger] slots@[k].base + slots@[k].width <= total,
        decreases vars@.len() - i,
    {
        assert(vv.take(i + 1).drop_last() =~= vv.take(i as int));
        assert(vv.take(i + 1).last() == vars@[i as int]@);
        let w = get_bits(vars[i].get_sort());
        let ghost before = (Numbering { slots })@;
        if w > (usize::MAX - total) as u128 {
            proof {
                lemma_total_bits_mono(vv, i + 1);
            }
            return Err(EncodeError::TooManyBits);
        }
        slots.push(Slot { name: vars[i].owned_name(), width: w, base: total });
        total = total + w as usize;
        assert((Numbering { slots })@ =~= before.push(SlotView { name: vv[i as int].name, width: w as nat, base: total_bits(before) }));
        i += 1;
    }
    assert(vv.take(vars@.len() as int) =~= vv);
    Ok(Numbering { slots })
}

proof fn lemma_total_bits_mono(vv: Seq<BvVarView>, k: int)
    requires
        0 <= k <= vv.len(),
    ensures
        total_bits(slots_of(vv.take(k))) <= total_bits(slots_of(vv)),
    decreases vv.len() - k,
{
    if k < vv.len() {
        lemma_total_bits_mono(vv, k + 1);
        assert(vv.take(k + 1).drop_last() =~= vv.take(k));
    } else {
        assert(vv.take(k) =~= vv);
    }
}


/// The slot that numbers bit `off` of the name `name`: the last slot under
/// that name that has such a bit.
pub open spec fn bit_slot(slots: Seq<SlotView>, name: Seq<char>, off: int) -> Option<SlotView>
    decreases slots.len(),
{
    if slots.len() == 0 {
        None
    } else if slots.last().name == name && 0 <= off < slots.last().width {
        Some(slots.last())
    } else {
        bit_slot(slots.drop_last(), name, off)
    }
}

proof fn lemma_bit_slot_range(slots: Seq<SlotView>, name: Seq<char>, off: int)
    ensures
        bit_slot(slots, name, off) matches Some(sl) ==> sl.name == name && 0 <= off < sl.width,
    decreases slots.len(),
{
    if slots.len() > 0 {
        lemma_bit_slot_range(slots.drop_last(), name, off);
    }
}

/// The numbered literal of `l`: the number of its bit, negated when the
/// literal asks for a clear bit; none when no slot has that bit.
pub open spec fn encode_lit(slots: Seq<SlotView>, l: Literal) -> Option<(nat, bool)> {
    match bit_slot(slots, l.name, l.offset as int) {
        Some(sl) => Some(((sl.base + l.offset) as nat, !l.value)),
        None => None,
    }
}

pub open spec fn sat_lit_view(l: SatLit) -> (nat, bool) {
    (l.var as nat, l.negated)
}

/// `enc` is the numbered form of the clause `c`.
pub open spec fn encodes_clause(slots: Seq<SlotView>, c: Seq<Literal>, enc: Seq<SatLit>) -> bool {
    enc.len() == c.len() && forall|k: int| 0 <= k < c.len() ==> encode_lit(slots, #[trigger] c[k]) == Some(sat_lit_view(enc[k]))
}

/// Every literal of `c` has a numbered form.
pub open spec fn clause_encodable(slots: Seq<SlotView>, c: Seq<Literal>) -> bool {
    forall|k: int| 0 <= k < c.len() ==> #[trigger] encode_lit(slots, c[k]) is Some
}

/// Every literal of every clause has a numbered form.
pub open spec fn cnf_encodable(slots: Seq<SlotView>, cs: Seq<Seq<Literal>>) -> bool {
    forall|j: int| 0 <= j < cs.len() ==> #[trigger] clause_encodable(slots, cs[j])
}

/// `enc` is the numbered form of the clauses `cs`.
pub open spec fn encodes_cnf(slots: Seq<SlotView>, cs: Seq<Seq<Literal>>, enc: Seq<Vec<SatLit>>) -> bool {
    enc.len() == cs.len() && forall|j: int| 0 <= j < cs.len() ==> #[trigger] encodes_clause(slots, cs[j], enc[j]@)
}

impl Numbering {
    /// The number of bit `off` of the name `name`.
    fn find_bit(&self, name: &String, off: u128) -> (r: Option<usize>)
        ensures
            match bit_slot(self@, name@, off as int) {
                Some(sl) => r == Some((sl.base + off) as usize) && sl.base + off <= usize::MAX,
                None => r is None,
            },
    {
        proof {
            use_type_invariant(self);
        }
        let ghost v = self@;
        let mut i = self.slots.len();
        assert(v.take(i as int) =~= v);
        while i > 0
            invariant
                i <= self.slots@.len(),
                v == self@,
                forall|k: int| 0 <= k < self.slots@.len() ==> #[trigger] self.slots@[k].base + self.slots@[k].width <= usize::MAX,
                bit_slot(v, name@, off as int) == bit_slot(v.take(i as int), name@, off as int),
            decreases i,
        {
            assert(v.take(i as int).last() == v[i - 1]);
            assert(v.take(i as int).drop_last() =~= v.take(i - 1));
            let sl = &self.slots[i - 1];
            if sl.name == *name && off < sl.width {
                assert(sl.base + sl.width <= usize::MAX);
                return Some(sl.base + off as usize);
            }
            i -= 1;
        }
        assert(v.take(0) =~= Seq::<SlotView>::empty());
        None
    }

    /// How many numbers the bits use: one past the last number.
    pub fn num_vars(&self) -> (n: usize)
        ensures
            n as nat == total_bits(self@),
    {
        proof {
            use_type_invariant(self);
        }
        let k = self.slots.len();
        if k == 0 {
            0
        } else {
            let sl = &self.slots[k - 1];
            assert(self@.last() == self@[k - 1]);
            assert(sl.base + sl.width <= usize::MAX);
            sl.base + sl.width as usize
        }
    }

    /// The values that `model` gives the first `width` bits of the name
    /// `name`, bit 0 first; none when one of those bits has no number or
    /// its number is past the end of the model.
    pub fn var_bits(&self, name: &String, width: u128, model: &Vec<bool>) -> (r: Option<Vec<bool>>)
        ensures
            bits_in_model(self@, model@, name@, width as nat) ==> (r matches Some(b)
                && b@ == Seq::new(width as nat, |i: int| model_assignment(self@, model@)(name@, i))),
            !bits_in_model(self@, model@, name@, width as nat) ==> r is None,
    {
        let mut out: Vec<bool> = Vec::new();
        let mut i: u128 = 0;
        while i < width
            invariant
                0 <= i <= width,
                out@.len() == i,
                bits_in_model(self@, model@, name@, i as nat),
                out@ == Seq::new(i as nat, |k: int| model_assignment(self@, model@)(name@, k)),
            decreases width - i,
        {
            match self.find_bit(name, i) {
                Some(num) => {
                    if num >= model.len() {
                        return None;
                    }
                    out.push(model[num]);
                    assert(out@ =~= Seq::new((i + 1) as nat, |k: int| model_assignment(self@, model@)(name@, k)));
                },
                None => {
                    return None;
                },
            }
            i += 1;
        }
        Some(out)
    }

    /// The numbered form of one clause.
    pub fn encode_clause(&self, clause: &Clause) -> (r: Result<Vec<SatLit>, EncodeError>)
        ensures
            clause_encodable(self@, clause_view(clause@)) ==> (r matches Ok(enc) && encodes_clause(self@, clause_view(clause@), enc@)),
            !clause_encodable(self@, clause_view(clause@)) ==> r == Err::<Vec<SatLit>, EncodeError>(EncodeError::UnknownBit),
    {
        let ghost c = clause_view(clause@);
        let mut out: Vec<SatLit> = Vec::new();
        let mut k: usize = 0;
        while k < clause.len()
            invariant
                c == clause_view(clause@),
                0 <= k <= clause@.len(),
                out@.len() == k,
                forall|x: int| 0 <= x < k ==> encode_lit(self@, #[trigger] c[x]) == Some(sat_lit_view(out@[x])),
            decreases clause@.len() - k,
        {
            let pv = &clause[k];
            assert(c[k as int] == pv@);
            let name = pv.owned_name();
            let off = pv.get_offset();
            match self.find_bit(&name, off) {
                Some(num) => {
                    out.push(SatLit { var: num, negated: !pv.get_value() });
                },
                None => {
                    return Err(EncodeError::UnknownBit);
                },
            }
            k += 1;
        }
        Ok(out)
    }

    /// The numbered form of all clauses.
    pub fn encode_clauses(&self, clauses: &Vec<Clause>) -> (r: Result<Vec<Vec<SatLit>>, EncodeError>)
        ensures
            cnf_encodable(self@, clauses_view(clauses@)) ==> (r matches Ok(enc) && encodes_cnf(self@, clauses_view(clauses@), enc@)),
            !cnf_encodable(self@, clauses_view(clauses@)) ==> r == Err::<Vec<Vec<SatLit>>, EncodeError>(EncodeError::UnknownBit),
    {
        let ghost cs = clauses_view(clauses@);
        let mut out: Vec<Vec<SatLit>> = Vec::new();
        let mut j: usize = 0;
        while j < clauses.len()
            invariant
                cs == clauses_view(clauses@),
                0 <= j <= clauses@.len(),
                out@.len() == j,
                forall|x: int| 0 <= x < j ==> #[trigger] encodes_clause(self@, cs[x], out@[x]@),
                forall|x: int| 0 <= x < j ==> #[trigger] clause_encodable(self@, cs[x]),
            decreases clauses@.len() - j,
        {
            assert(cs[j as int] == clause_view(clauses@[j as int]@));
            match self.encode_clause(&clauses[j]) {
                Ok(enc) => {
                    out.push(enc);
                },
                Err(e) => {
                    return Err(e);
                },
            }
            j += 1;
        }
        Ok(out)
    }
}


// ---------------------------------------------------------------------
// Models
// ---------------------------------------------------------------------

/// A numbered literal holds in a model when the model gives its variable
/// the value opposite to its sign.
pub open spec fn sat_lit_holds(m: Seq<bool>, l: SatLit) -> bool {
    m[l.var as int] != l.negated
}

pub open spec fn sat_clause_holds(m: Seq<bool>, c: Seq<SatLit>) -> bool {
    exists|k: int| 0 <= k < c.len() && #[trigger] sat_lit_holds(m, c[k])
}

pub open spec fn sat_cnf_holds(m: Seq<bool>, cs: Seq<Vec<SatLit>>) -> bool {
    forall|j: int| 0 <= j < cs.len() ==> #[trigger] sat_clause_holds(m, cs[j]@)
}

/// The assignment that a model of the numbered problem gives the bits of
/// the named variables.
pub open spec fn model_assignment(slots: Seq<SlotView>, m: Seq<bool>) -> spec_fn(Seq<char>, int) -> bool {
    |name: Seq<char>, i: int| match bit_slot(slots, name, i) {
        Some(sl) => m[sl.base + i],
        None => false,
    }
}

/// Each of the first `width` bits of `name` has a number, and the number is
/// within the model.
pub open spec fn bits_in_model(slots: Seq<SlotView>, m: Seq<bool>, name: Seq<char>, width: nat) -> bool {
    forall|i: int| 0 <= i < width ==> (#[trigger] bit_slot(slots, name, i) matches Some(sl) && sl.base + i < m.len())
}

/// A model satisfies the numbered clauses exactly when the assignment it
/// gives satisfies the clauses they number.
pub proof fn law_encoding(slots: Seq<SlotView>, cs: Seq<Seq<Literal>>, enc: Seq<Vec<SatLit>>, m: Seq<bool>)
    requires
        encodes_cnf(slots, cs, enc),
    ensures
        sat_cnf_holds(m, enc) == cnf_holds(model_assignment(slots, m), cs),
{
    let a = model_assignment(slots, m);
    assert forall|j: int| 0 <= j < cs.len() implies #[trigger] clause_holds(a, cs[j]) == sat_clause_holds(m, enc[j]@) by {
        assert(encodes_clause(slots, cs[j], enc[j]@));
        let c = cs[j];
        let e = enc[j]@;
        assert forall|k: int| 0 <= k < c.len() implies #[trigger] lit_holds(a, c[k]) == sat_lit_holds(m, e[k]) by {
            assert(encode_lit(slots, c[k]) == Some(sat_lit_view(e[k])));
            lemma_bit_slot_range(slots, c[k].name, c[k].offset);
        }
        if clause_holds(a, c) {
            let k = choose|k: int| 0 <= k < c.len() && #[trigger] lit_holds(a, c[k]);
            assert(sat_lit_holds(m, e[k]));
        }
        if sat_clause_holds(m, e) {
            let k = choose|k: int| 0 <= k < e.len() && #[trigger] sat_lit_holds(m, e[k]);
            assert(lit_holds(a, c[k]));
        }
    }
    if sat_cnf_holds(m, enc) {
        assert forall|j: int| 0 <= j < cs.len() implies #[trigger] clause_holds(a, cs[j]) by {
            assert(sat_clause_holds(m, enc[j]@));
        }
    }
    if cnf_holds(a, cs) {
        assert forall|j: int| 0 <= j < enc.len() implies #[trigger] sat_clause_holds(m, enc[j]@) by {
            assert(clause_holds(a, cs[j]));
        }
    }
}

/// The unsigned value of the low `n` bits of `b` (bit 0 first).
pub open spec fn bits_value(b: Seq<bool>, n: nat) -> nat
    decreases n,
{
    if n == 0 {
        0
    } else {
        bits_value(b, (n - 1) as nat) + if b[n - 1] { pow2((n - 1) as nat) } else { 0 }
    }
}

proof fn lemma_bits_value_bound(b: Seq<bool>, n: nat)
    ensures
        bits_value(b, n) < pow2(n),
    decreases n,
{
    if n > 0 {
        lemma_bits_value_bound(b, (n - 1) as nat);
        lemma_pow2_unfold(n);
    } else {
        lemma2_to64();
    }
}

/// The bits that a model gives a variable are the variable's value under
/// the model's assignment.
pub proof fn law_bits_value(slots: Seq<SlotView>, m: Seq<bool>, name: Seq<char>, b: Seq<bool>, n: nat)
    requires
        forall|i: int| 0 <= i < n ==> #[trigger] b[i] == model_assignment(slots, m)(name, i),
    ensures
        bits_value(b, n) == bv_value(model_assignment(slots, m), name, n),
    decreases n,
{
    if n > 0 {
        law_bits_value(slots, m, name, b, (n - 1) as nat);
        assert(b[n - 1] == model_assignment(slots, m)(name, n - 1));
    }
}

/// The unsigned value of the bits (bit 0 first), when there are at most 128.
pub fn bits_to_value(bits: &Vec<bool>) -> (r: Option<u128>)
    ensures
        bits@.len() <= 128 ==> r == Some(bits_value(bits@, bits@.len()) as u128),
        bits@.len() > 128 ==> r is None,
{
    let n = bits.len();
    if n > 128 {
        return None;
    }
    proof {
        lemma2_to64();
        lemma_pow2_adds(64, 64);
    }
    assert(pow2(128) == 0x1_0000_0000_0000_0000_0000_0000_0000_0000);
    let mut v: u128 = 0;
    let mut p: u128 = 1;
    let mut i: usize = 0;
    while i < n
        invariant
            n == bits@.len() <= 128,
            0 <= i <= n,
            v as nat == bits_value(bits@, i as nat),
            i < 128 ==> p as nat == pow2(i as nat),
            pow2(128) == 0x1_0000_0000_0000_0000_0000_0000_0000_0000,
        decreases n - i,
    {
        proof {
            lemma_bits_value_bound(bits@, i as nat);
            lemma_pow2_unfold((i + 1) as nat);
            if i + 1 < 128 {
                lemma_pow2_strictly_increases((i + 1) as nat, 128);
            }
        }
        if bits[i] {
            v = v + p;
        }
        if i + 1 < 128 {
            p = p * 2;
        }
        i += 1;
    }
    Some(v)
}

/// The bits as `0` and `1` characters, most significant first.
pub fn bits_to_string(bits: &Vec<bool>) -> (s: String)
    ensures
        s@ == Seq::new(bits@.len(), |k: int| if bits@[bits@.len() - 1 - k] { '1' } else { '0' }),
{
    let n = bits.len();
    let mut s = String::new();
    let mut k: usize = 0;
    proof {
        reveal_strlit("0");
        reveal_strlit("1");
    }
    while k < n
        invariant
            n == bits@.len(),
            0 <= k <= n,
            "0"@ == seq!['0'],
            "1"@ == seq!['1'],
            s@ == Seq::new(k as nat, |x: int| if bits@[n - 1 - x] { '1' } else { '0' }),
        decreases n - k,
    {
        let ghost before = s@;
        if bits[n - 1 - k] {
            s.append("1");
        } else {
            s.append("0");
        }
        assert(s@ =~= Seq::new((k + 1) as nat, |x: int| if bits@[n - 1 - x] { '1' } else { '0' }));
        k += 1;
    }
    s
}

/// The numbering gives every bit its own number: the `i`-th variable gets
/// as many numbers as it has bits, the numbers of each variable lie below
/// those of every later one, and the first variable starts at 0; so no two
/// bits of the variables share a number.
pub proof fn law_numbering_disjoint(vars: Seq<BvVarView>)
    ensures
        slots_of(vars).len() == vars.len(),
        forall|i: int| 0 <= i < vars.len() ==> (#[trigger] slots_of(vars)[i]).width == sort_bits(vars[i].sort),
        forall|i: int| 0 <= i < vars.len() ==> (#[trigger] slots_of(vars)[i]).base + slots_of(vars)[i].width <= total_bits(slots_of(vars)),
        forall|i: int, j: int| 0 <= i < j < vars.len() ==>
            (#[trigger] slots_of(vars)[i]).base + slots_of(vars)[i].width <= (#[trigger] slots_of(vars)[j]).base,
        vars.len() > 0 ==> slots_of(vars)[0].base == 0,
    decreases vars.len(),
{
    if vars.len() > 0 {
        let prev = slots_of(vars.drop_last());
        law_numbering_disjoint(vars.drop_last());
        let sl = slots_of(vars);
        let n = vars.len() - 1;
        assert(sl == prev.push(SlotView { name: vars.last().name, width: sort_bits(vars.last().sort), base: total_bits(prev) }));
        assert forall|i: int| 0 <= i < n implies #[trigger] sl[i] == prev[i] && vars[i] == vars.drop_last()[i] by {}
        assert forall|i: int| 0 <= i < vars.len() implies (#[trigger] sl[i]).width == sort_bits(vars[i].sort) by {
            if i < n {
                assert(sl[i] == prev[i]);
                assert(vars[i] == vars.drop_last()[i]);
            }
        }
        assert forall|i: int| 0 <= i < vars.len() implies (#[trigger] sl[i]).base + sl[i].width <= total_bits(sl) by {
            if i < n {
                assert(sl[i] == prev[i]);
                assert(prev[i].base + prev[i].width <= total_bits(prev));
            }
        }
        assert forall|i: int, j: int| 0 <= i < j < vars.len() implies
            (#[trigger] sl[i]).base + sl[i].width <= (#[trigger] sl[j]).base by {
            assert(sl[i] == prev[i]);
            if j < n {
                assert(sl[j] == prev[j]);
                assert(prev[i].base + prev[i].width <= prev[j].base);
            } else {
                assert(prev[i].base + prev[i].width <= total_bits(prev));
            }
        }
        if n > 0 {
            assert(sl[0] == prev[0]);
        }
    }
}

} // verus!
