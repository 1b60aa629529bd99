//! Bit-vector variables, propositional literals and fresh names.
//!
//! Fresh names are drawn from an explicit counter owned by the caller
//! (the blasting state holds one), so that every name can be stated and
//! checked: the `k`-th fresh name is `fresh_name_k`.
use vstd::prelude::*;

verus! {

/// The sort of a blasted expression: unit (for declarations and
/// assertions) or a bit vector of a fixed width.
#[derive(Debug, Clone, Copy, PartialEq, Eq, Structural, Hash)]
pub enum Sort {
    Unit,
    BitVec(u128),
}

/// Width in bits of a sort; `Unit` has none.
pub open spec fn sort_bits(s: Sort) -> nat {
    match s {
        Sort::Unit => 0,
        Sort::BitVec(n) => n as nat,
    }
}

/// What a bit-vector variable is: its name, its sort and whether it is
/// shown in a model.
pub struct BvVarView {
    pub name: Seq<char>,
    pub sort: Sort,
    pub display: bool,
}

/// A bit-vector variable of the blasted problem.
#[derive(Debug, PartialEq, Eq, Hash)]
pub struct BvVar {
    name: String,
    sort: Sort,
    display: bool,
}

impl View for BvVar {
    type V = BvVarView;

    closed spec fn view(&self) -> BvVarView {
        BvVarView { name: self.name@, sort: self.sort, display: self.display }
    }
}

impl Clone for BvVar {
    fn clone(&self) -> (r: Self)
        ensures
            r@ == self@,
    {
        BvVar { name: self.name.clone(), sort: self.sort, display: self.display }
    }
}

/// The literal that a `PropVar` denotes: bit `offset` of the variable
/// `name`, required to equal `value`.
pub struct Literal {
    pub name: Seq<char>,
    pub offset: int,
    pub value: bool,
}

/// A literal over one bit of a bit-vector variable.
#[derive(Debug, PartialEq, Eq, Hash)]
pub struct PropVar {
    name: String,
    offset: u128,
    value: bool,
}

impl View for PropVar {
    type V = Literal;

    closed spec fn view(&self) -> Literal {
        Literal { name: self.name@, offset: self.offset as int, value: self.value }
    }
}

impl Clone for PropVar {
    fn clone(&self) -> (r: Self)
        ensures
            r@ == self@,
    {
        PropVar { name: self.name.clone(), offset: self.offset, value: self.value }
    }
}

/// The character of a decimal digit.
pub open spec fn digit_char(d: nat) -> char {
    if d == 0 {
        '0'
    } else if d == 1 {
        '1'
    } else if d == 2 {
        '2'
    } else if d == 3 {
        '3'
    } else if d == 4 {
        '4'
    } else if d == 5 {
        '5'
    } else if d == 6 {
        '6'
    } else if d == 7 {
        '7'
    } else if d == 8 {
        '8'
    } else {
        '9'
    }
}

/// The decimal notation of a natural number, without leading zeros.
pub open spec fn decimal(n: nat) -> Seq<char>
    decreases n,
{
    if n < 10 {
        seq![digit_char(n)]
    } else {
        decimal(n / 10).push(digit_char(n % 10))
    }
}

/// The fresh name with number `id`.
pub open spec fn fresh_name_of(id: nat) -> Seq<char> {
    "fresh_name_"@ + decimal(id)
}

/// How a sort is written: `Unit` or `BitVec(n)`.
pub open spec fn sort_text(s: Sort) -> Seq<char> {
    match s {
        Sort::Unit => "Unit"@,
        Sort::BitVec(n) => "BitVec("@ + decimal(n as nat) + ")"@,
    }
}

/// How a variable is written: `name: sort=S, display=B`.
pub open spec fn var_text(v: BvVarView) -> Seq<char> {
    v.name + ": sort="@ + sort_text(v.sort) + ", display="@ + (if v.display { "true"@ } else { "false"@ })
}

/// The counter after one fresh id is drawn: it wraps at `usize::MAX`.
pub open spec fn next_id(id: usize) -> usize {
    if id == usize::MAX {
        0
    } else {
        (id + 1) as usize
    }
}

fn push_digit(s: &mut String, d: usize)
    requires
        d < 10,
    ensures
        final(s)@ == old(s)@.push(digit_char(d as nat)),
{
    let lit = if d == 0 {
        proof {
            reveal_strlit("0");
        }
        "0"
    } else if d == 1 {
        proof {
            reveal_strlit("1");
        }
        "1"
    } else if d == 2 {
        proof {
            reveal_strlit("2");
        }
        "2"
    } else if d == 3 {
        proof {
            reveal_strlit("3");
        }
        "3"
    } else if d == 4 {
        proof {
            reveal_strlit("4");
        }
        "4"
    } else if d == 5 {
        proof {
            reveal_strlit("5");
        }
        "5"
    } else if d == 6 {
        proof {
            reveal_strlit("6");
        }
        "6"
    } else if d == 7 {
        proof {
            reveal_strlit("7");
        }
        "7"
    } else if d == 8 {
        proof {
            reveal_strlit("8");
        }
        "8"
    } else {
        proof {
            reveal_strlit("9");
        }
        "9"
    };
    assert(lit@ =~= seq![digit_char(d as nat)]);
    s.append(lit);
}

pub(crate) fn push_decimal(s: &mut String, n: u128)
    ensures
        final(s)@ == old(s)@ + decimal(n as nat),
    decreases n,
{
    if n >= 10 {
        push_decimal(s, n / 10);
    }
    push_digit(s, (n % 10) as usize);
    assert(final(s)@ =~= old(s)@ + decimal(n as nat)) by {
        if n >= 10 {
            assert(decimal(n as nat) == decimal((n / 10) as nat).push(digit_char((n % 10) as nat)));
        }
    }
}

/// Draws a fresh id from `counter`: returns its value and advances it
/// (wrapping at `usize::MAX`).
pub fn fresh_id(counter: &mut usize) -> (id: usize)
    ensures
        id == *old(counter),
        *final(counter) == next_id(*old(counter)),
{
    let id = *counter;
    if *counter == usize::MAX {
        *counter = 0;
    } else {
        *counter = *counter + 1;
    }
    id
}

/// Draws a fresh id from `counter` and returns the name `fresh_name_<id>`.
pub fn fresh_name(counter: &mut usize) -> (name: String)
    ensures
        name@ == fresh_name_of(*old(counter) as nat),
        *final(counter) == next_id(*old(counter)),
{
    let id = fresh_id(counter);
    let mut name = String::from_str("fresh_name_");
    push_decimal(&mut name, id as u128);
    name
}

impl BvVar {
    /// A variable with the given name, sort and display flag.
    pub fn new(name: String, sort: Sort, display: bool) -> (v: Self)
        ensures
            v@ == (BvVarView { name: name@, sort, display }),
    {
        BvVar { name, sort, display }
    }

    /// A hidden variable of the given sort under a fresh name drawn from
    /// `counter`.
    pub fn new_temp(sort: Sort, counter: &mut usize) -> (v: Self)
        ensures
            v@ == (BvVarView { name: fresh_name_of(*old(counter) as nat), sort, display: false }),
            *final(counter) == next_id(*old(counter)),
    {
        let name = fresh_name(counter);
        BvVar { name, sort, display: false }
    }

    pub fn get_sort(&self) -> (s: &Sort)
        ensures
            *s == self@.sort,
    {
        &self.sort
    }

    pub fn get_display(&self) -> (d: bool)
        ensures
            d == self@.display,
    {
        self.display
    }

    pub fn owned_name(&self) -> (n: String)
        ensures
            n@ == self@.name,
    {
        self.name.clone()
    }

    /// The variable written as `name: sort=S, display=B`.
    pub fn to_string(&self) -> (t: String)
        ensures
            t@ == var_text(self@),
    {
        let mut t = self.name.clone();
        t.append(": sort=");
        match self.sort {
            Sort::Unit => t.append("Unit"),
            Sort::BitVec(n) => {
                t.append("BitVec(");
                push_decimal(&mut t, n);
                t.append(")");
            },
        }
        t.append(", display=");
        if self.display {
            t.append("true");
        } else {
            t.append("false");
        }
        t
    }

    /// Whether the two variables have the same name.
    pub(crate) fn same_name(&self, other: &BvVar) -> (b: bool)
        ensures
            b == (self@.name == other@.name),
    {
        self.name == other.name
    }

    /// Whether the variable is named `n`.
    pub(crate) fn has_name(&self, n: &String) -> (b: bool)
        ensures
            b == (self@.name == n@),
    {
        self.name == *n
    }
}

impl PropVar {
    /// The literal on bit `offset` of variable `name` with polarity `value`.
    pub fn new(name: String, offset: u128, value: bool) -> (p: Self)
        ensures
            p@ == (Literal { name: name@, offset: offset as int, value }),
    {
        PropVar { name, offset, value }
    }

    pub fn owned_name(&self) -> (n: String)
        ensures
            n@ == self@.name,
    {
        self.name.clone()
    }

    pub fn get_offset(&self) -> (o: u128)
        ensures
            o as int == self@.offset,
    {
        self.offset
    }

    pub fn get_value(&self) -> (v: bool)
        ensures
            v == self@.value,
    {
        self.value
    }
}

} // verus!
