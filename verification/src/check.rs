//! Blasting: every expression of a program becomes a bit-vector variable
//! whose bits are tied by clauses to the bits of its operands (Tseytin's
//! transformation: a fresh variable for each subexpression).
use vstd::prelude::*;
use vstd::std_specs::cmp::PartialEqSpecImpl;
use crate::vars::{Sort, BvVar, BvVarView, PropVar, Literal, fresh_name_of, next_id, decimal, sort_text, push_decimal};
use crate::cnf::{lit, cl1};
use crate::gates::{
    BitGate, gate_bit, gate_bits, gate_clauses, not_bit, not_bits, not_clauses, num_bit, const_bit,
    const_bits, const_clauses, assert_clauses, eq_bit, eq_bits, eq_last, eq_clauses, ult_bit, ult_bits,
    ult_result, ult_clauses, add_bit, add_bits, adder_clauses, ite_bit, ite_bits, ite_clauses,
};
use crate::cnf::per_bit;
use crate::syntax::{Expr, ExprView, Program, expr_view, exprs_view, lemma_exprs_view};

verus! {

/// A disjunction of literals.
pub type Clause = Vec<PropVar>;

/// What the blasting state holds: the clauses so far, every variable made
/// so far in order of making (a later one shadows an earlier one of the
/// same name), the declared functions with their signatures in bits, and
/// the next fresh id.
pub struct StateView {
    pub clauses: Seq<Seq<Literal>>,
    pub vars: Seq<BvVarView>,
    pub funs: Seq<(Seq<char>, Seq<u128>)>,
    pub next: usize,
}

/// A declared function: its name and the widths of its signature.
#[derive(Debug, Clone, PartialEq, Eq)]
struct FunDecl {
    name: String,
    sig: Vec<u128>,
}

/// The state of blasting: clauses, variables and declared functions.
#[derive(Debug, Clone, Eq)]
pub struct State {
    clauses: Vec<Clause>,
    vars: Vec<BvVar>,
    fun_insts: Vec<FunDecl>,
    next_id: usize,
}

pub open spec fn clause_view(c: Seq<PropVar>) -> Seq<Literal> {
    c.map_values(|p: PropVar| p@)
}

pub open spec fn clauses_view(cs: Seq<Clause>) -> Seq<Seq<Literal>> {
    cs.map_values(|c: Clause| clause_view(c@))
}

pub open spec fn vars_view(vs: Seq<BvVar>) -> Seq<BvVarView> {
    vs.map_values(|v: BvVar| v@)
}

impl View for State {
    type V = StateView;

    closed spec fn view(&self) -> StateView {
        StateView {
            clauses: clauses_view(self.clauses@),
            vars: vars_view(self.vars@),
            funs: self.fun_insts@.map_values(|f: FunDecl| (f.name@, f.sig@)),
            next: self.next_id,
        }
    }
}

/// The state with nothing in it whose next fresh id is `next`.
pub open spec fn start_state(next: usize) -> StateView {
    StateView { clauses: Seq::empty(), vars: Seq::empty(), funs: Seq::empty(), next }
}

/// The state with nothing in it.
pub open spec fn empty_state() -> StateView {
    start_state(0)
}

/// The state with `cs` added after its clauses.
pub open spec fn with_clauses(s: StateView, cs: Seq<Seq<Literal>>) -> StateView {
    StateView { clauses: s.clauses + cs, vars: s.vars, funs: s.funs, next: s.next }
}

/// The state with `v` made after its variables.
pub open spec fn with_var(s: StateView, v: BvVarView) -> StateView {
    StateView { clauses: s.clauses, vars: s.vars.push(v), funs: s.funs, next: s.next }
}

/// The hidden variable of sort `sort` that the state makes next, and the
/// state after making it.
pub open spec fn temp(s: StateView, sort: Sort) -> (StateView, BvVarView) {
    let v = BvVarView { name: fresh_name_of(s.next as nat), sort, display: false };
    (StateView { clauses: s.clauses, vars: s.vars.push(v), funs: s.funs, next: next_id(s.next) }, v)
}

/// The variable that `name` denotes: the last one made under that name.
pub open spec fn var_lookup(vars: Seq<BvVarView>, name: Seq<char>) -> Option<BvVarView>
    decreases vars.len(),
{
    if vars.len() == 0 {
        None
    } else if vars.last().name == name {
        Some(vars.last())
    } else {
        var_lookup(vars.drop_last(), name)
    }
}

/// One literal given as a variable, a bit offset and a polarity.
pub open spec fn triple_lit(t: (&BvVar, u128, bool)) -> Literal {
    lit(t.0@.name, t.1 as int, t.2)
}

pub open spec fn triples_view(cs: Seq<Vec<(&BvVar, u128, bool)>>) -> Seq<Seq<Literal>> {
    cs.map_values(|c: Vec<(&BvVar, u128, bool)>| c@.map_values(|t: (&BvVar, u128, bool)| triple_lit(t)))
}

impl State {
    /// An empty state.
    pub fn new() -> (s: Self)
        ensures
            s@ == empty_state(),
    {
        let s = State { clauses: Vec::new(), vars: Vec::new(), fun_insts: Vec::new(), next_id: 0 };
        assert(s@.clauses =~= Seq::<Seq<Literal>>::empty());
        assert(s@.vars =~= Seq::<BvVarView>::empty());
        assert(s@.funs =~= Seq::<(Seq<char>, Seq<u128>)>::empty());
        s
    }

    /// An empty state that draws fresh ids from `next` on.
    fn starting_at(next: usize) -> (s: Self)
        ensures
            s@ == start_state(next),
    {
        let s = State { clauses: Vec::new(), vars: Vec::new(), fun_insts: Vec::new(), next_id: next };
        assert(s@.clauses =~= Seq::<Seq<Literal>>::empty());
        assert(s@.vars =~= Seq::<BvVarView>::empty());
        assert(s@.funs =~= Seq::<(Seq<char>, Seq<u128>)>::empty());
        s
    }

    /// Makes a variable under `name` (shadowing any earlier one) and
    /// returns it.
    pub fn mk_bv(&mut self, name: String, sort: Sort, display: bool) -> (bv: BvVar)
        ensures
            bv@ == (BvVarView { name: name@, sort, display }),
            final(self)@ == with_var(old(self)@, bv@),
    {
        let bv = BvVar::new(name, sort, display);
        self.vars.push(bv.clone());
        assert(final(self)@.vars =~= old(self)@.vars.push(bv@));
        bv
    }

    /// Makes a hidden variable of sort `sort` under the next fresh name and
    /// returns it.
    pub fn mk_temp_bv(&mut self, sort: Sort) -> (bv: BvVar)
        ensures
            (final(self)@, bv@) == temp(old(self)@, sort),
    {
        let bv = BvVar::new_temp(sort, &mut self.next_id);
        self.vars.push(bv.clone());
        assert(final(self)@.vars =~= old(self)@.vars.push(bv@));
        bv
    }

    /// Adds the given clauses, each literal given as a variable, a bit
    /// offset and a polarity.
    fn bulk_clause_push(&mut self, clauses: Vec<Vec<(&BvVar, u128, bool)>>)
        ensures
            final(self)@ == with_clauses(old(self)@, triples_view(clauses@)),
    {
        let n = clauses.len();
        let mut i: usize = 0;
        while i < n
            invariant
                n == clauses@.len(),
                0 <= i <= n,
                self@ == with_clauses(old(self)@, triples_view(clauses@.take(i as int))),
            decreases n - i,
        {
            let clause = &clauses[i];
            let m = clause.len();
            let mut out: Vec<PropVar> = Vec::new();
            let mut j: usize = 0;
            while j < m
                invariant
                    m == clause@.len(),
                    0 <= j <= m,
                    clause_view(out@) =~= clause@.take(j as int).map_values(|t: (&BvVar, u128, bool)| triple_lit(t)),
                decreases m - j,
            {
                let (var, off, b) = clause[j];
                let p = PropVar::new(var.owned_name(), off, b);
                assert(p@ == triple_lit(clause@[j as int]));
                let ghost prev = out@;
                out.push(p);
                assert(out@ =~= prev.push(p));
                assert(clause_view(out@) =~= clause_view(prev).push(p@));
                assert(clause@.take(j + 1) =~= clause@.take(j as int).push(clause@[j as int]));
                j += 1;
            }
            assert(clause@.take(m as int) =~= clause@);
            let ghost before = self@;
            self.clauses.push(out);
            assert(clauses@.take(i + 1) =~= clauses@.take(i as int).push(clauses@[i as int]));
            assert(self@.clauses =~= before.clauses.push(clause_view(out@)));
            assert(triples_view(clauses@.take(i + 1)) =~= triples_view(clauses@.take(i as int)).push(clause_view(out@)));
            i += 1;
        }
        assert(clauses@.take(n as int) =~= clauses@);
    }
}

/// The clauses of bit `i` of a bitwise operation, as triples.
fn gate_triples<'a>(g: BitGate, x: &'a BvVar, y: &'a BvVar, r: &'a BvVar, i: u128) -> (cs: Vec<Vec<(&'a BvVar, u128, bool)>>)
    ensures
        triples_view(cs@) =~~= gate_bit(g, x@.name, y@.name, r@.name, i as int),
{
    match g {
        BitGate::And => vec![
            vec![(x, i, false), (y, i, false), (r, i, true)],
            vec![(x, i, true), (r, i, false)],
            vec![(y, i, true), (r, i, false)],
        ],
        BitGate::Or => vec![
            vec![(x, i, true), (y, i, true), (r, i, false)],
            vec![(x, i, false), (r, i, true)],
            vec![(y, i, false), (r, i, true)],
        ],
        BitGate::Xor => vec![
            vec![(x, i, false), (y, i, false), (r, i, false)],
            vec![(x, i, true), (y, i, true), (r, i, false)],
            vec![(x, i, true), (y, i, false), (r, i, true)],
            vec![(x, i, false), (y, i, true), (r, i, true)],
        ],
        BitGate::Nand => vec![
            vec![(x, i, false), (y, i, false), (r, i, false)],
            vec![(x, i, true), (r, i, true)],
            vec![(y, i, true), (r, i, true)],
        ],
        BitGate::Nor => vec![
            vec![(x, i, true), (y, i, true), (r, i, true)],
            vec![(x, i, false), (r, i, false)],
            vec![(y, i, false), (r, i, false)],
        ],
        BitGate::Xnor => vec![
            vec![(x, i, false), (y, i, false), (r, i, true)],
            vec![(x, i, true), (y, i, true), (r, i, true)],
            vec![(x, i, true), (y, i, false), (r, i, false)],
            vec![(x, i, false), (y, i, true), (r, i, false)],
        ],
        BitGate::Implies => vec![
            vec![(x, i, false), (y, i, true), (r, i, false)],
            vec![(x, i, true), (r, i, true)],
            vec![(y, i, false), (r, i, true)],
        ],
    }
}


/// The builtin functions of the language.
#[derive(Debug, Clone, Copy, PartialEq, Eq, Structural)]
pub enum Op {
    Assert,
    Eq,
    Ne,
    Ult,
    Ugt,
    Ule,
    Uge,
    And,
    Or,
    Xor,
    Not,
    BvAnd,
    BvOr,
    BvXor,
    BvNot,
    BvNand,
    BvNor,
    BvXnor,
    BvAdd,
    BvSub,
    Ite,
    Implies,
}

/// The builtin function that a name denotes, if any.
pub open spec fn op_named(n: Seq<char>) -> Option<Op> {
    if n == "assert"@ {
        Some(Op::Assert)
    } else if n == "eq"@ {
        Some(Op::Eq)
    } else if n == "ne"@ {
        Some(Op::Ne)
    } else if n == "ult"@ {
        Some(Op::Ult)
    } else if n == "ugt"@ {
        Some(Op::Ugt)
    } else if n == "ule"@ {
        Some(Op::Ule)
    } else if n == "uge"@ {
        Some(Op::Uge)
    } else if n == "and"@ {
        Some(Op::And)
    } else if n == "or"@ {
        Some(Op::Or)
    } else if n == "xor"@ {
        Some(Op::Xor)
    } else if n == "not"@ {
        Some(Op::Not)
    } else if n == "bv-and"@ {
        Some(Op::BvAnd)
    } else if n == "bv-or"@ {
        Some(Op::BvOr)
    } else if n == "bv-xor"@ {
        Some(Op::BvXor)
    } else if n == "bv-not"@ {
        Some(Op::BvNot)
    } else if n == "bv-nand"@ {
        Some(Op::BvNand)
    } else if n == "bv-nor"@ {
        Some(Op::BvNor)
    } else if n == "bv-xnor"@ {
        Some(Op::BvXnor)
    } else if n == "bv-add"@ {
        Some(Op::BvAdd)
    } else if n == "bv-sub"@ {
        Some(Op::BvSub)
    } else if n == "ite"@ {
        Some(Op::Ite)
    } else if n == "implies"@ {
        Some(Op::Implies)
    } else {
        None
    }
}

fn name_is(n: &String, s: &str) -> (b: bool)
    ensures
        b == (n@ == s@),
{
    *n == String::from_str(s)
}

/// The builtin function named `n`, if any.
pub fn op_from_name(n: &String) -> (op: Option<Op>)
    ensures
        op == op_named(n@),
{
    if name_is(n, "assert") {
        Some(Op::Assert)
    } else if name_is(n, "eq") {
        Some(Op::Eq)
    } else if name_is(n, "ne") {
        Some(Op::Ne)
    } else if name_is(n, "ult") {
        Some(Op::Ult)
    } else if name_is(n, "ugt") {
        Some(Op::Ugt)
    } else if name_is(n, "ule") {
        Some(Op::Ule)
    } else if name_is(n, "uge") {
        Some(Op::Uge)
    } else if name_is(n, "and") {
        Some(Op::And)
    } else if name_is(n, "or") {
        Some(Op::Or)
    } else if name_is(n, "xor") {
        Some(Op::Xor)
    } else if name_is(n, "not") {
        Some(Op::Not)
    } else if name_is(n, "bv-and") {
        Some(Op::BvAnd)
    } else if name_is(n, "bv-or") {
        Some(Op::BvOr)
    } else if name_is(n, "bv-xor") {
        Some(Op::BvXor)
    } else if name_is(n, "bv-not") {
        Some(Op::BvNot)
    } else if name_is(n, "bv-nand") {
        Some(Op::BvNand)
    } else if name_is(n, "bv-nor") {
        Some(Op::BvNor)
    } else if name_is(n, "bv-xnor") {
        Some(Op::BvXnor)
    } else if name_is(n, "bv-add") {
        Some(Op::BvAdd)
    } else if name_is(n, "bv-sub") {
        Some(Op::BvSub)
    } else if name_is(n, "ite") {
        Some(Op::Ite)
    } else if name_is(n, "implies") {
        Some(Op::Implies)
    } else {
        None
    }
}

/// Why a program cannot be blasted.
pub enum BlastFailure {
    /// A top-level expression is not a declaration or an assertion.
    TopLevelNotUnit,
    /// A number stands where an expression is expected.
    LoneNumber,
    /// A list does not start with a function name.
    UnknownListExpr,
    /// A list starts with a name that is no builtin function.
    UnknownFunction(Seq<char>),
    /// A name is used before it is declared.
    UsedBeforeDefinition(Seq<char>),
    /// A width or a signature entry is not a non-negative number.
    ExpectedInt,
    /// A builtin function got the wrong number of arguments.
    WrongArgCount(Op),
    /// The arguments of a builtin function are not bit vectors of one width.
    MismatchedWidths(Op),
    /// The arguments of a builtin function do not have the widths it needs.
    WrongSizes(Op),
    /// An unsigned comparison of bit vectors of width zero.
    ZeroWidthComparison,
    /// A carry chain one bit wider than the widest width.
    WidthOverflow,
    /// A constant wider than 128 bits.
    ToBvTooWide,
}

/// Why a program cannot be blasted (names are owned strings).
#[derive(Debug, PartialEq, Eq)]
pub enum BlastError {
    TopLevelNotUnit,
    LoneNumber,
    UnknownListExpr,
    UnknownFunction(String),
    UsedBeforeDefinition(String),
    ExpectedInt,
    WrongArgCount(Op),
    MismatchedWidths(Op),
    WrongSizes(Op),
    ZeroWidthComparison,
    WidthOverflow,
    ToBvTooWide,
}

impl View for BlastError {
    type V = BlastFailure;

    open spec fn view(&self) -> BlastFailure {
        match self {
            BlastError::TopLevelNotUnit => BlastFailure::TopLevelNotUnit,
            BlastError::LoneNumber => BlastFailure::LoneNumber,
            BlastError::UnknownListExpr => BlastFailure::UnknownListExpr,
            BlastError::UnknownFunction(n) => BlastFailure::UnknownFunction(n@),
            BlastError::UsedBeforeDefinition(n) => BlastFailure::UsedBeforeDefinition(n@),
            BlastError::ExpectedInt => BlastFailure::ExpectedInt,
            BlastError::WrongArgCount(op) => BlastFailure::WrongArgCount(*op),
            BlastError::MismatchedWidths(op) => BlastFailure::MismatchedWidths(*op),
            BlastError::WrongSizes(op) => BlastFailure::WrongSizes(*op),
            BlastError::ZeroWidthComparison => BlastFailure::ZeroWidthComparison,
            BlastError::WidthOverflow => BlastFailure::WidthOverflow,
            BlastError::ToBvTooWide => BlastFailure::ToBvTooWide,
        }
    }
}

/// The outcome of one blasting step: the new state and the variable that
/// holds the result, or the reason for failing.
pub type Step = Result<(StateView, BvVarView), BlastFailure>;

/// `r` and the state `s` after a step are what `spec` says.
pub open spec fn step_holds(r: Result<BvVar, BlastError>, s: StateView, spec: Step) -> bool {
    match spec {
        Ok((s2, v)) => r matches Ok(b) && b@ == v && s == s2,
        Err(e) => r matches Err(x) && x@ == e,
    }
}

/// The state and variable after a step that succeeds are `s` and `r`.
pub open spec fn steps_to(r: BvVar, s: StateView, spec: Step) -> bool {
    spec matches Ok((s2, v)) && r@ == v && s == s2
}

/// The width of a sort (zero for `Unit`).
pub open spec fn width(s: Sort) -> u128 {
    match s {
        Sort::Unit => 0,
        Sort::BitVec(n) => n,
    }
}

/// The common width of `len` arguments that are bit vectors of one width.
pub open spec fn common_width(args: Seq<BvVarView>, len: nat, op: Op) -> Result<u128, BlastFailure> {
    if args.len() != len {
        Err(BlastFailure::WrongArgCount(op))
    } else if args.len() > 0 && args[0].sort is BitVec && forall|i: int| 0 <= i < args.len() ==> #[trigger] args[i].sort == args[0].sort {
        Ok(width(args[0].sort))
    } else {
        Err(BlastFailure::MismatchedWidths(op))
    }
}

/// The arguments are bit vectors of exactly the given widths.
pub open spec fn widths_are(args: Seq<BvVarView>, sizes: Seq<u128>) -> bool {
    args.len() == sizes.len() && forall|i: int| 0 <= i < args.len() ==> #[trigger] args[i].sort == Sort::BitVec(sizes[i])
}

/// Checks whether `len` arguments are bit vectors of one width: gives the
/// width, or why not.
fn common_width_of(lst: &Vec<BvVar>, len: usize, op: Op) -> (r: Result<u128, BlastError>)
    ensures
        match common_width(vars_view(lst@), len as nat, op) {
            Ok(w) => r == Ok::<u128, BlastError>(w),
            Err(e) => r matches Err(x) && x@ == e,
        },
{
    let ghost args = vars_view(lst@);
    if lst.len() != len {
        return Err(BlastError::WrongArgCount(op));
    }
    let mut cur: Option<u128> = None;
    let mut i: usize = 0;
    while i < lst.len()
        invariant
            args == vars_view(lst@),
            args.len() == len,
            0 <= i <= lst@.len(),
            i == 0 ==> cur is None,
            i > 0 ==> args[0].sort is BitVec && cur == Some(width(args[0].sort)),
            forall|k: int| 0 <= k < i ==> #[trigger] args[k].sort == args[0].sort,
        decreases lst@.len() - i,
    {
        assert(args[i as int] == lst@[i as int]@);
        match lst[i].get_sort() {
            Sort::BitVec(n) => {
                match cur {
                    None => {
                        cur = Some(*n);
                    },
                    Some(c) => {
                        if c != *n {
                            assert(args[i as int].sort != args[0].sort);
                            return Err(BlastError::MismatchedWidths(op));
                        }
                    },
                }
            },
            Sort::Unit => {
                assert(!(args[i as int].sort is BitVec));
                return Err(BlastError::MismatchedWidths(op));
            },
        }
        i += 1;
    }
    match cur {
        Some(c) => Ok(c),
        None => Err(BlastError::MismatchedWidths(op)),
    }
}

/// Whether the arguments are bit vectors of exactly the given widths.
fn has_widths(lst: &[BvVar], sizes: &[u128]) -> (r: bool)
    ensures
        r == widths_are(vars_view(lst@), sizes@),
{
    let ghost args = vars_view(lst@);
    if lst.len() != sizes.len() {
        return false;
    }
    let mut i: usize = 0;
    while i < lst.len()
        invariant
            args == vars_view(lst@),
            lst@.len() == sizes@.len(),
            0 <= i <= lst@.len(),
            forall|k: int| 0 <= k < i ==> #[trigger] args[k].sort == Sort::BitVec(sizes@[k]),
        decreases lst@.len() - i,
    {
        assert(args[i as int] == lst@[i as int]@);
        match lst[i].get_sort() {
            Sort::BitVec(n) => {
                if *n != sizes[i] {
                    assert(args[i as int].sort != Sort::BitVec(sizes@[i as int]));
                    return false;
                }
            },
            Sort::Unit => {
                assert(args[i as int].sort != Sort::BitVec(sizes@[i as int]));
                return false;
            },
        }
        i += 1;
    }
    true
}

/// The common width of `len` arguments that are bit vectors of one width.
fn expect_all_bv_size(lst: &Vec<BvVar>, len: usize, op: Op) -> (w: u128)
    requires
        common_width(vars_view(lst@), len as nat, op) is Ok,
    ensures
        w == width(lst@[0]@.sort),
        w == common_width(vars_view(lst@), len as nat, op)->Ok_0,
{
    assert(vars_view(lst@)[0] == lst@[0]@);
    match lst[0].get_sort() {
        Sort::BitVec(n) => *n,
        Sort::Unit => 0,
    }
}



// ---------------------------------------------------------------------
// What each builtin function does to the state
// ---------------------------------------------------------------------

/// A bitwise operation on two bit vectors of one width.
pub open spec fn blast_bitwise(s: StateView, args: Seq<BvVarView>, g: BitGate, op: Op) -> Step {
    match common_width(args, 2, op) {
        Err(e) => Err(e),
        Ok(w) => {
            let (s1, r) = temp(s, Sort::BitVec(w));
            Ok((with_clauses(s1, gate_clauses(g, args[0].name, args[1].name, r.name, w as nat)), r))
        },
    }
}

/// A boolean operation on two one-bit vectors.
pub open spec fn blast_bool(s: StateView, args: Seq<BvVarView>, g: BitGate, op: Op) -> Step {
    if !widths_are(args, seq![1u128, 1u128]) {
        Err(BlastFailure::WrongSizes(op))
    } else {
        let (s1, r) = temp(s, Sort::BitVec(1));
        Ok((with_clauses(s1, gate_bit(g, args[0].name, args[1].name, r.name, 0)), r))
    }
}

/// Boolean negation of a one-bit vector (a second one-bit operand is
/// checked and not used).
pub open spec fn blast_not(s: StateView, args: Seq<BvVarView>) -> Step {
    if !widths_are(args, seq![1u128]) && !widths_are(args, seq![1u128, 1u128]) {
        Err(BlastFailure::WrongSizes(Op::Not))
    } else {
        let (s1, r) = temp(s, Sort::BitVec(1));
        Ok((with_clauses(s1, not_bit(args[0].name, r.name, 0)), r))
    }
}

/// The number of operands that a negation is checked for: two when it is
/// given two (the second is checked and not used), else one.
pub open spec fn neg_arity(args: Seq<BvVarView>) -> nat {
    if args.len() == 2 { 2 } else { 1 }
}

/// Bitwise negation of the first operand.
pub open spec fn blast_bv_not(s: StateView, args: Seq<BvVarView>) -> Step {
    match common_width(args, neg_arity(args), Op::BvNot) {
        Err(e) => Err(e),
        Ok(w) => {
            let (s1, r) = temp(s, Sort::BitVec(w));
            Ok((with_clauses(s1, not_clauses(args[0].name, r.name, w as nat)), r))
        },
    }
}

/// An assertion of a one-bit vector; the result is a unit.
pub open spec fn blast_assert(s: StateView, args: Seq<BvVarView>) -> Step {
    let (s1, t) = temp(s, Sort::Unit);
    if !widths_are(args, seq![1u128]) {
        Err(BlastFailure::WrongSizes(Op::Assert))
    } else {
        Ok((with_clauses(s1, assert_clauses(args[0].name)), t))
    }
}

/// Equality of two bit vectors of one width.
pub open spec fn blast_eq(s: StateView, args: Seq<BvVarView>) -> Step {
    match common_width(args, 2, Op::Eq) {
        Err(e) => Err(e),
        Ok(w) => {
            let (s1, h) = temp(s, Sort::BitVec(w));
            let (s2, r) = temp(s1, Sort::BitVec(1));
            Ok((with_clauses(s2, eq_clauses(args[0].name, args[1].name, h.name, r.name, w as nat)), r))
        },
    }
}

/// Disequality: the negated equality.
pub open spec fn blast_ne(s: StateView, args: Seq<BvVarView>) -> Step {
    match common_width(args, 2, Op::Ne) {
        Err(e) => Err(e),
        Ok(_) => match blast_eq(s, args) {
            Err(e) => Err(e),
            Ok((s1, e)) => blast_not(s1, seq![e]),
        },
    }
}

/// Unsigned less-than.
pub open spec fn blast_ult(s: StateView, args: Seq<BvVarView>) -> Step {
    match common_width(args, 2, Op::Ult) {
        Err(e) => Err(e),
        Ok(w) => {
            let (s1, lt) = temp(s, Sort::BitVec(w));
            let (s2, r) = temp(s1, Sort::BitVec(1));
            if w == 0 {
                Err(BlastFailure::ZeroWidthComparison)
            } else {
                Ok((with_clauses(s2, ult_clauses(args[0].name, args[1].name, lt.name, r.name, w as nat)), r))
            }
        },
    }
}

/// Unsigned less-or-equal: less-than or equal.
pub open spec fn blast_ule(s: StateView, args: Seq<BvVarView>) -> Step {
    match common_width(args, 2, Op::Ule) {
        Err(e) => Err(e),
        Ok(_) => match blast_ult(s, args) {
            Err(e) => Err(e),
            Ok((s1, lt)) => match blast_eq(s1, args) {
                Err(e) => Err(e),
                Ok((s2, eq)) => blast_bool(s2, seq![lt, eq], BitGate::Or, Op::Or),
            },
        },
    }
}

/// Unsigned greater-than: not less-or-equal.
pub open spec fn blast_ugt(s: StateView, args: Seq<BvVarView>) -> Step {
    match common_width(args, 2, Op::Ugt) {
        Err(e) => Err(e),
        Ok(_) => match blast_ule(s, args) {
            Err(e) => Err(e),
            Ok((s1, le)) => blast_not(s1, seq![le]),
        },
    }
}

/// Unsigned greater-or-equal: not less-than.
pub open spec fn blast_uge(s: StateView, args: Seq<BvVarView>) -> Step {
    match common_width(args, 2, Op::Uge) {
        Err(e) => Err(e),
        Ok(_) => match blast_ult(s, args) {
            Err(e) => Err(e),
            Ok((s1, lt)) => blast_not(s1, seq![lt]),
        },
    }
}

/// The clauses of `x + y = sum` over `w` bits, with a fresh carry chain.
pub open spec fn blast_add_triple(s: StateView, x: Seq<char>, y: Seq<char>, sum: Seq<char>, w: u128) -> Result<StateView, BlastFailure> {
    if w == u128::MAX {
        Err(BlastFailure::WidthOverflow)
    } else {
        let (s1, c) = temp(s, Sort::BitVec((w + 1) as u128));
        Ok(with_clauses(s1, adder_clauses(x, y, c.name, sum, w as nat)))
    }
}

/// Addition modulo the width.
pub open spec fn blast_bv_add(s: StateView, args: Seq<BvVarView>) -> Step {
    match common_width(args, 2, Op::BvAdd) {
        Err(e) => Err(e),
        Ok(w) => {
            let (s1, sum) = temp(s, Sort::BitVec(w));
            match blast_add_triple(s1, args[0].name, args[1].name, sum.name, w) {
                Err(e) => Err(e),
                Ok(s2) => Ok((s2, sum)),
            }
        },
    }
}

/// Subtraction modulo the width: the difference `d` with `d + y = x`.
pub open spec fn blast_bv_sub(s: StateView, args: Seq<BvVarView>) -> Step {
    match common_width(args, 2, Op::BvSub) {
        Err(e) => Err(e),
        Ok(w) => {
            let (s1, d) = temp(s, Sort::BitVec(w));
            match blast_add_triple(s1, d.name, args[1].name, args[0].name, w) {
                Err(e) => Err(e),
                Ok(s2) => Ok((s2, d)),
            }
        },
    }
}

/// A choice between two bit vectors of one width by a one-bit condition.
pub open spec fn blast_ite(s: StateView, args: Seq<BvVarView>) -> Step {
    if args.len() != 3 {
        Err(BlastFailure::WrongArgCount(Op::Ite))
    } else if args[0].sort != Sort::BitVec(1) {
        Err(BlastFailure::WrongSizes(Op::Ite))
    } else if !(args[1].sort is BitVec && args[2].sort == args[1].sort) {
        Err(BlastFailure::MismatchedWidths(Op::Ite))
    } else {
        let w = width(args[1].sort);
        let (s1, r) = temp(s, Sort::BitVec(w));
        Ok((with_clauses(s1, ite_clauses(args[0].name, args[1].name, args[2].name, r.name, w as nat)), r))
    }
}

/// What a builtin function does to the state, given its arguments.
pub open spec fn blast_op(s: StateView, op: Op, args: Seq<BvVarView>) -> Step {
    match op {
        Op::Assert => blast_assert(s, args),
        Op::Eq => blast_eq(s, args),
        Op::Ne => blast_ne(s, args),
        Op::Ult => blast_ult(s, args),
        Op::Ugt => blast_ugt(s, args),
        Op::Ule => blast_ule(s, args),
        Op::Uge => blast_uge(s, args),
        Op::And => blast_bool(s, args, BitGate::And, Op::And),
        Op::Or => blast_bool(s, args, BitGate::Or, Op::Or),
        Op::Xor => blast_bool(s, args, BitGate::Xor, Op::Xor),
        Op::Not => blast_not(s, args),
        Op::BvAnd => blast_bitwise(s, args, BitGate::And, Op::BvAnd),
        Op::BvOr => blast_bitwise(s, args, BitGate::Or, Op::BvOr),
        Op::BvXor => blast_bitwise(s, args, BitGate::Xor, Op::BvXor),
        Op::BvNot => blast_bv_not(s, args),
        Op::BvNand => blast_bitwise(s, args, BitGate::Nand, Op::BvNand),
        Op::BvNor => blast_bitwise(s, args, BitGate::Nor, Op::BvNor),
        Op::BvXnor => blast_bitwise(s, args, BitGate::Xnor, Op::BvXnor),
        Op::BvAdd => blast_bv_add(s, args),
        Op::BvSub => blast_bv_sub(s, args),
        Op::Ite => blast_ite(s, args),
        Op::Implies => blast_bool(s, args, BitGate::Implies, Op::Implies),
    }
}

// ---------------------------------------------------------------------
// The builtin functions
// ---------------------------------------------------------------------

proof fn lemma_with_clauses_twice(s: StateView, a: Seq<Seq<Literal>>, b: Seq<Seq<Literal>>)
    ensures
        with_clauses(with_clauses(s, a), b) == with_clauses(s, a + b),
{
    assert(s.clauses + a + b =~= s.clauses + (a + b));
}

proof fn lemma_per_bit_step(n: nat, f: spec_fn(int) -> Seq<Seq<Literal>>)
    ensures
        per_bit(n + 1, f) == per_bit(n, f) + f(n as int),
{
}

/// Adds the clauses of a bitwise operation over `size` bits.
fn push_gate(state: &mut State, g: BitGate, x: &BvVar, y: &BvVar, r: &BvVar, size: u128)
    ensures
        final(state)@ == with_clauses(old(state)@, gate_clauses(g, x@.name, y@.name, r@.name, size as nat)),
{
    let mut i: u128 = 0;
    while i < size
        invariant
            0 <= i <= size,
            state@ == with_clauses(old(state)@, per_bit(i as nat, gate_bits(g, x@.name, y@.name, r@.name))),
        decreases size - i,
    {
        let ghost before = state@;
        state.bulk_clause_push(gate_triples(g, x, y, r, i));
        proof {
            lemma_per_bit_step(i as nat, gate_bits(g, x@.name, y@.name, r@.name));
            lemma_with_clauses_twice(old(state)@, per_bit(i as nat, gate_bits(g, x@.name, y@.name, r@.name)), gate_bit(g, x@.name, y@.name, r@.name, i as int));
        }
        i += 1;
    }
}

fn add_clauses_bitwise(state: &mut State, args: &Vec<BvVar>, g: BitGate, op: Op) -> (r: BvVar)
    requires
        blast_bitwise(old(state)@, vars_view(args@), g, op) is Ok,
    ensures
        steps_to(r, final(state)@, blast_bitwise(old(state)@, vars_view(args@), g, op)),
{
    let size = expect_all_bv_size(args, 2, op);
    assert(vars_view(args@)[0] == args@[0]@ && vars_view(args@)[1] == args@[1]@);
    let res = state.mk_temp_bv(Sort::BitVec(size));
    push_gate(state, g, &args[0], &args[1], &res, size);
    res
}

fn add_clauses_bv_and(state: &mut State, args: &Vec<BvVar>) -> (r: BvVar)
    requires
        blast_bitwise(old(state)@, vars_view(args@), BitGate::And, Op::BvAnd) is Ok,
    ensures
        steps_to(r, final(state)@, blast_bitwise(old(state)@, vars_view(args@), BitGate::And, Op::BvAnd)),
{
    add_clauses_bitwise(state, args, BitGate::And, Op::BvAnd)
}

fn add_clauses_bv_or(state: &mut State, args: &Vec<BvVar>) -> (r: BvVar)
    requires
        blast_bitwise(old(state)@, vars_view(args@), BitGate::Or, Op::BvOr) is Ok,
    ensures
        steps_to(r, final(state)@, blast_bitwise(old(state)@, vars_view(args@), BitGate::Or, Op::BvOr)),
{
    add_clauses_bitwise(state, args, BitGate::Or, Op::BvOr)
}

fn add_clauses_bv_xor(state: &mut State, args: &Vec<BvVar>) -> (r: BvVar)
    requires
        blast_bitwise(old(state)@, vars_view(args@), BitGate::Xor, Op::BvXor) is Ok,
    ensures
        steps_to(r, final(state)@, blast_bitwise(old(state)@, vars_view(args@), BitGate::Xor, Op::BvXor)),
{
    add_clauses_bitwise(state, args, BitGate::Xor, Op::BvXor)
}

fn add_clauses_bv_nand(state: &mut State, args: &Vec<BvVar>) -> (r: BvVar)
    requires
        blast_bitwise(old(state)@, vars_view(args@), BitGate::Nand, Op::BvNand) is Ok,
    ensures
        steps_to(r, final(state)@, blast_bitwise(old(state)@, vars_view(args@), BitGate::Nand, Op::BvNand)),
{
    add_clauses_bitwise(state, args, BitGate::Nand, Op::BvNand)
}

fn add_clauses_bv_nor(state: &mut State, args: &Vec<BvVar>) -> (r: BvVar)
    requires
        blast_bitwise(old(state)@, vars_view(args@), BitGate::Nor, Op::BvNor) is Ok,
    ensures
        steps_to(r, final(state)@, blast_bitwise(old(state)@, vars_view(args@), BitGate::Nor, Op::BvNor)),
{
    add_clauses_bitwise(state, args, BitGate::Nor, Op::BvNor)
}

fn add_clauses_bv_xnor(state: &mut State, args: &Vec<BvVar>) -> (r: BvVar)
    requires
        blast_bitwise(old(state)@, vars_view(args@), BitGate::Xnor, Op::BvXnor) is Ok,
    ensures
        steps_to(r, final(state)@, blast_bitwise(old(state)@, vars_view(args@), BitGate::Xnor, Op::BvXnor)),
{
    add_clauses_bitwise(state, args, BitGate::Xnor, Op::BvXnor)
}


fn not_triples<'a>(x: &'a BvVar, r: &'a BvVar, i: u128) -> (cs: Vec<Vec<(&'a BvVar, u128, bool)>>)
    ensures
        triples_view(cs@) =~~= not_bit(x@.name, r@.name, i as int),
{
    vec![vec![(x, i, false), (r, i, false)], vec![(x, i, true), (r, i, true)]]
}

fn add_clauses_bool(state: &mut State, args: &Vec<BvVar>, g: BitGate, op: Op) -> (r: BvVar)
    requires
        blast_bool(old(state)@, vars_view(args@), g, op) is Ok,
    ensures
        steps_to(r, final(state)@, blast_bool(old(state)@, vars_view(args@), g, op)),
{
    assert(vars_view(args@)[0] == args@[0]@ && vars_view(args@)[1] == args@[1]@);
    let res = state.mk_temp_bv(Sort::BitVec(1));
    state.bulk_clause_push(gate_triples(g, &args[0], &args[1], &res, 0));
    res
}

fn add_clauses_and(state: &mut State, args: &Vec<BvVar>) -> (r: BvVar)
    requires
        blast_bool(old(state)@, vars_view(args@), BitGate::And, Op::And) is Ok,
    ensures
        steps_to(r, final(state)@, blast_bool(old(state)@, vars_view(args@), BitGate::And, Op::And)),
{
    add_clauses_bool(state, args, BitGate::And, Op::And)
}

fn add_clauses_or(state: &mut State, args: &Vec<BvVar>) -> (r: BvVar)
    requires
        blast_bool(old(state)@, vars_view(args@), BitGate::Or, Op::Or) is Ok,
    ensures
        steps_to(r, final(state)@, blast_bool(old(state)@, vars_view(args@), BitGate::Or, Op::Or)),
{
    add_clauses_bool(state, args, BitGate::Or, Op::Or)
}

fn add_clauses_xor(state: &mut State, args: &Vec<BvVar>) -> (r: BvVar)
    requires
        blast_bool(old(state)@, vars_view(args@), BitGate::Xor, Op::Xor) is Ok,
    ensures
        steps_to(r, final(state)@, blast_bool(old(state)@, vars_view(args@), BitGate::Xor, Op::Xor)),
{
    add_clauses_bool(state, args, BitGate::Xor, Op::Xor)
}

fn add_clauses_not(state: &mut State, args: &Vec<BvVar>) -> (r: BvVar)
    requires
        blast_not(old(state)@, vars_view(args@)) is Ok,
    ensures
        steps_to(r, final(state)@, blast_not(old(state)@, vars_view(args@))),
{
    assert(vars_view(args@)[0] == args@[0]@);
    let res = state.mk_temp_bv(Sort::BitVec(1));
    state.bulk_clause_push(not_triples(&args[0], &res, 0));
    res
}

fn add_clauses_bv_not(state: &mut State, args: &Vec<BvVar>) -> (r: BvVar)
    requires
        blast_bv_not(old(state)@, vars_view(args@)) is Ok,
    ensures
        steps_to(r, final(state)@, blast_bv_not(old(state)@, vars_view(args@))),
{
    let n: usize = if args.len() == 2 { 2 } else { 1 };
    let size = expect_all_bv_size(args, n, Op::BvNot);
    assert(vars_view(args@)[0] == args@[0]@);
    let res = state.mk_temp_bv(Sort::BitVec(size));
    let ghost s1 = state@;
    let x = &args[0];
    let mut i: u128 = 0;
    while i < size
        invariant
            0 <= i <= size,
            state@ == with_clauses(s1, per_bit(i as nat, not_bits(x@.name, res@.name))),
        decreases size - i,
    {
        state.bulk_clause_push(not_triples(x, &res, i));
        proof {
            lemma_per_bit_step(i as nat, not_bits(x@.name, res@.name));
            lemma_with_clauses_twice(s1, per_bit(i as nat, not_bits(x@.name, res@.name)), not_bit(x@.name, res@.name, i as int));
        }
        i += 1;
    }
    res
}

fn add_clauses_assert(state: &mut State, args: &Vec<BvVar>) -> (r: BvVar)
    requires
        blast_assert(old(state)@, vars_view(args@)) is Ok,
    ensures
        steps_to(r, final(state)@, blast_assert(old(state)@, vars_view(args@))),
{
    let temp = state.mk_temp_bv(Sort::Unit);
    assert(vars_view(args@)[0] == args@[0]@);
    let cs = vec![vec![(&args[0], 0u128, true)]];
    assert(triples_view(cs@) =~~= assert_clauses(args@[0]@.name));
    state.bulk_clause_push(cs);
    temp
}

fn eq_triples<'a>(x: &'a BvVar, y: &'a BvVar, h: &'a BvVar, r: &'a BvVar, i: u128) -> (cs: Vec<Vec<(&'a BvVar, u128, bool)>>)
    ensures
        triples_view(cs@) =~~= eq_bit(x@.name, y@.name, h@.name, r@.name, i as int),
{
    vec![
        vec![(x, i, false), (y, i, true), (h, i, false)],
        vec![(x, i, true), (y, i, false), (h, i, false)],
        vec![(x, i, true), (y, i, true), (h, i, true)],
        vec![(x, i, false), (y, i, false), (h, i, true)],
        vec![(h, i, true), (r, 0, false)],
    ]
}

fn add_clauses_eq(state: &mut State, args: &Vec<BvVar>) -> (r: BvVar)
    requires
        blast_eq(old(state)@, vars_view(args@)) is Ok,
    ensures
        steps_to(r, final(state)@, blast_eq(old(state)@, vars_view(args@))),
{
    let size = expect_all_bv_size(args, 2, Op::Eq);
    assert(vars_view(args@)[0] == args@[0]@ && vars_view(args@)[1] == args@[1]@);
    let helper = state.mk_temp_bv(Sort::BitVec(size));
    let res = state.mk_temp_bv(Sort::BitVec(1));
    let ghost s2 = state@;
    let x = &args[0];
    let y = &args[1];
    let mut negated_helpers: Clause = vec![PropVar::new(res.owned_name(), 0, true)];
    assert(clause_view(negated_helpers@) =~= eq_last(helper@.name, res@.name, 0));
    let mut i: u128 = 0;
    while i < size
        invariant
            0 <= i <= size,
            state@ == with_clauses(s2, per_bit(i as nat, eq_bits(x@.name, y@.name, helper@.name, res@.name))),
            clause_view(negated_helpers@) == eq_last(helper@.name, res@.name, i as nat),
        decreases size - i,
    {
        state.bulk_clause_push(eq_triples(x, y, &helper, &res, i));
        let ghost before = negated_helpers@;
        negated_helpers.push(PropVar::new(helper.owned_name(), i, false));
        proof {
            lemma_per_bit_step(i as nat, eq_bits(x@.name, y@.name, helper@.name, res@.name));
            lemma_with_clauses_twice(s2, per_bit(i as nat, eq_bits(x@.name, y@.name, helper@.name, res@.name)), eq_bit(x@.name, y@.name, helper@.name, res@.name, i as int));
            assert(clause_view(negated_helpers@) =~= clause_view(before).push(lit(helper@.name, i as int, false)));
        }
        i += 1;
    }
    let ghost before = state@;
    state.clauses.push(negated_helpers);
    assert(state@.clauses =~= before.clauses.push(eq_last(helper@.name, res@.name, size as nat)));
    res
}

fn add_clauses_ne(state: &mut State, args: &Vec<BvVar>) -> (r: BvVar)
    requires
        blast_ne(old(state)@, vars_view(args@)) is Ok,
    ensures
        steps_to(r, final(state)@, blast_ne(old(state)@, vars_view(args@))),
{
    let eq_bv = add_clauses_eq(state, args);
    let nargs = vec![eq_bv];
    assert(vars_view(nargs@) =~= seq![nargs@[0]@]);
    add_clauses_not(state, &nargs)
}

fn ult_triples<'a>(x: &'a BvVar, y: &'a BvVar, lt: &'a BvVar, i: u128) -> (cs: Vec<Vec<(&'a BvVar, u128, bool)>>)
    ensures
        triples_view(cs@) =~~= ult_bit(x@.name, y@.name, lt@.name, i as int),
{
    if i == 0 {
        vec![
            vec![(x, i, true), (y, i, true), (lt, i, false)],
            vec![(x, i, false), (y, i, false), (lt, i, false)],
            vec![(x, i, true), (y, i, false), (lt, i, true)],
            vec![(x, i, false), (y, i, true), (lt, i, false)],
        ]
    } else {
        vec![
            vec![(x, i, true), (y, i, true), (lt, i - 1, true), (lt, i, false)],
            vec![(x, i, true), (y, i, true), (lt, i - 1, false), (lt, i, true)],
            vec![(x, i, true), (y, i, false), (lt, i - 1, true), (lt, i, true)],
            vec![(x, i, false), (y, i, true), (lt, i - 1, true), (lt, i, false)],
            vec![(x, i, false), (y, i, false), (lt, i - 1, true), (lt, i, false)],
            vec![(x, i, false), (y, i, true), (lt, i - 1, false), (lt, i, false)],
            vec![(x, i, true), (y, i, false), (lt, i - 1, false), (lt, i, true)],
            vec![(x, i, false), (y, i, false), (lt, i - 1, false), (lt, i, true)],
        ]
    }
}

fn add_clauses_ult(state: &mut State, args: &Vec<BvVar>) -> (r: BvVar)
    requires
        blast_ult(old(state)@, vars_view(args@)) is Ok,
    ensures
        steps_to(r, final(state)@, blast_ult(old(state)@, vars_view(args@))),
{
    let size = expect_all_bv_size(args, 2, Op::Ult);
    assert(vars_view(args@)[0] == args@[0]@ && vars_view(args@)[1] == args@[1]@);
    let lt = state.mk_temp_bv(Sort::BitVec(size));
    let res = state.mk_temp_bv(Sort::BitVec(1));
    let ghost s2 = state@;
    let x = &args[0];
    let y = &args[1];
    let mut i: u128 = 0;
    while i < size
        invariant
            0 <= i <= size,
            state@ == with_clauses(s2, per_bit(i as nat, ult_bits(x@.name, y@.name, lt@.name))),
        decreases size - i,
    {
        state.bulk_clause_push(ult_triples(x, y, &lt, i));
        proof {
            lemma_per_bit_step(i as nat, ult_bits(x@.name, y@.name, lt@.name));
            lemma_with_clauses_twice(s2, per_bit(i as nat, ult_bits(x@.name, y@.name, lt@.name)), ult_bit(x@.name, y@.name, lt@.name, i as int));
        }
        i += 1;
    }
    let cs = vec![vec![(&res, 0u128, true), (&lt, size - 1, false)], vec![(&res, 0u128, false), (&lt, size - 1, true)]];
    assert(triples_view(cs@) =~~= ult_result(lt@.name, res@.name, size as nat));
    state.bulk_clause_push(cs);
    proof {
        lemma_with_clauses_twice(s2, per_bit(size as nat, ult_bits(x@.name, y@.name, lt@.name)), ult_result(lt@.name, res@.name, size as nat));
    }
    res
}

fn add_clauses_ule(state: &mut State, args: &Vec<BvVar>) -> (r: BvVar)
    requires
        blast_ule(old(state)@, vars_view(args@)) is Ok,
    ensures
        steps_to(r, final(state)@, blast_ule(old(state)@, vars_view(args@))),
{
    let lt = add_clauses_ult(state, args);
    let eq = add_clauses_eq(state, args);
    let oargs = vec![lt, eq];
    assert(vars_view(oargs@) =~= seq![oargs@[0]@, oargs@[1]@]);
    add_clauses_or(state, &oargs)
}

fn add_clauses_ugt(state: &mut State, args: &Vec<BvVar>) -> (r: BvVar)
    requires
        blast_ugt(old(state)@, vars_view(args@)) is Ok,
    ensures
        steps_to(r, final(state)@, blast_ugt(old(state)@, vars_view(args@))),
{
    let le = add_clauses_ule(state, args);
    let nargs = vec![le];
    assert(vars_view(nargs@) =~= seq![nargs@[0]@]);
    add_clauses_not(state, &nargs)
}

fn add_clauses_uge(state: &mut State, args: &Vec<BvVar>) -> (r: BvVar)
    requires
        blast_uge(old(state)@, vars_view(args@)) is Ok,
    ensures
        steps_to(r, final(state)@, blast_uge(old(state)@, vars_view(args@))),
{
    let lt = add_clauses_ult(state, args);
    let nargs = vec![lt];
    assert(vars_view(nargs@) =~= seq![nargs@[0]@]);
    add_clauses_not(state, &nargs)
}

fn add_triples<'a>(x: &'a BvVar, y: &'a BvVar, c: &'a BvVar, s: &'a BvVar, i: u128) -> (cs: Vec<Vec<(&'a BvVar, u128, bool)>>)
    requires
        i < u128::MAX,
    ensures
        triples_view(cs@) =~~= add_bit(x@.name, y@.name, c@.name, s@.name, i as int),
{
    vec![
        vec![(x, i, true), (y, i, true), (c, i, true), (s, i, false)],
        vec![(x, i, false), (y, i, false), (c, i, true), (s, i, false)],
        vec![(x, i, false), (y, i, true), (c, i, false), (s, i, false)],
        vec![(x, i, true), (y, i, false), (c, i, false), (s, i, false)],
        vec![(x, i, true), (y, i, true), (c, i, false), (s, i, true)],
        vec![(x, i, true), (y, i, false), (c, i, true), (s, i, true)],
        vec![(x, i, false), (y, i, true), (c, i, true), (s, i, true)],
        vec![(x, i, false), (y, i, false), (c, i, false), (s, i, true)],
        vec![(x, i, false), (y, i, false), (c, i, true), (c, i + 1, true)],
        vec![(x, i, false), (y, i, true), (c, i, false), (c, i + 1, true)],
        vec![(x, i, true), (y, i, false), (c, i, false), (c, i + 1, true)],
        vec![(x, i, false), (y, i, false), (c, i, false), (c, i + 1, true)],
        vec![(x, i, true), (y, i, true), (c, i, false), (c, i + 1, false)],
        vec![(x, i, true), (y, i, false), (c, i, true), (c, i + 1, false)],
        vec![(x, i, false), (y, i, true), (c, i, true), (c, i + 1, false)],
        vec![(x, i, true), (y, i, true), (c, i, true), (c, i + 1, false)],
    ]
}

/// Adds the clauses of `arg0 + arg1 = sum` over `size` bits.
fn add_clauses_bv_add_triple(state: &mut State, arg0: &BvVar, arg1: &BvVar, sum: &BvVar, size: u128)
    requires
        blast_add_triple(old(state)@, arg0@.name, arg1@.name, sum@.name, size) is Ok,
    ensures
        final(state)@ == blast_add_triple(old(state)@, arg0@.name, arg1@.name, sum@.name, size)->Ok_0,
{
    let carry = state.mk_temp_bv(Sort::BitVec(size + 1));
    let ghost s1 = state@;
    let cs = vec![vec![(&carry, 0u128, false)]];
    assert(triples_view(cs@) =~~= Seq::empty().push(cl1(lit(carry@.name, 0, false))));
    state.bulk_clause_push(cs);
    let ghost first = Seq::<Seq<Literal>>::empty().push(cl1(lit(carry@.name, 0, false)));
    let mut i: u128 = 0;
    while i < size
        invariant
            0 <= i <= size,
            size < u128::MAX,
            state@ == with_clauses(s1, first + per_bit(i as nat, add_bits(arg0@.name, arg1@.name, carry@.name, sum@.name))),
        decreases size - i,
    {
        state.bulk_clause_push(add_triples(arg0, arg1, &carry, sum, i));
        proof {
            let pb = per_bit(i as nat, add_bits(arg0@.name, arg1@.name, carry@.name, sum@.name));
            let b = add_bit(arg0@.name, arg1@.name, carry@.name, sum@.name, i as int);
            lemma_per_bit_step(i as nat, add_bits(arg0@.name, arg1@.name, carry@.name, sum@.name));
            lemma_with_clauses_twice(s1, first + pb, b);
            assert(first + pb + b =~= first + (pb + b));
        }
        i += 1;
    }
}

/// Blasts `bv-add` of two bit vectors of one width: a new hidden variable
/// that holds their sum modulo `2^width`, with the clauses that say so.
pub fn add_clauses_bv_add(state: &mut State, args: &Vec<BvVar>) -> (r: BvVar)
    requires
        blast_bv_add(old(state)@, vars_view(args@)) is Ok,
    ensures
        steps_to(r, final(state)@, blast_bv_add(old(state)@, vars_view(args@))),
{
    let size = expect_all_bv_size(args, 2, Op::BvAdd);
    assert(vars_view(args@)[0] == args@[0]@ && vars_view(args@)[1] == args@[1]@);
    let sum = state.mk_temp_bv(Sort::BitVec(size));
    add_clauses_bv_add_triple(state, &args[0], &args[1], &sum, size);
    sum
}

/// Blasts `bv-sub` of two bit vectors of one width: a new hidden variable
/// `d` with `d + args[1] = args[0]` modulo `2^width`, with the clauses that
/// say so.
pub fn add_clauses_bv_sub(state: &mut State, args: &Vec<BvVar>) -> (r: BvVar)
    requires
        blast_bv_sub(old(state)@, vars_view(args@)) is Ok,
    ensures
        steps_to(r, final(state)@, blast_bv_sub(old(state)@, vars_view(args@))),
{
    let size = expect_all_bv_size(args, 2, Op::BvSub);
    assert(vars_view(args@)[0] == args@[0]@ && vars_view(args@)[1] == args@[1]@);
    let subt = state.mk_temp_bv(Sort::BitVec(size));
    add_clauses_bv_add_triple(state, &subt, &args[1], &args[0], size);
    subt
}


// ---------------------------------------------------------------------
// Expressions
// ---------------------------------------------------------------------

/// The state with the function `name` of signature `sig` declared.
pub open spec fn with_fun(s: StateView, name: Seq<char>, sig: Seq<u128>) -> StateView {
    StateView { clauses: s.clauses, vars: s.vars, funs: s.funs.push((name, sig)), next: s.next }
}

/// A call of the function named `name` on blasted arguments.
pub open spec fn blast_fun(s: StateView, name: Seq<char>, args: Seq<BvVarView>) -> Step {
    match op_named(name) {
        Some(op) => blast_op(s, op, args),
        None => Err(BlastFailure::UnknownFunction(name)),
    }
}

/// A constant: the low `size` bits of `num` (two's complement).
pub open spec fn blast_to_bv(s: StateView, num: i128, size: i128) -> Step {
    if size < 0 {
        Err(BlastFailure::ExpectedInt)
    } else if size > 128 {
        Err(BlastFailure::ToBvTooWide)
    } else {
        let (s1, t) = temp(s, Sort::BitVec(size as u128));
        Ok((with_clauses(s1, const_clauses(t.name, num as u128, size as nat)), t))
    }
}

/// A declaration of a shown variable of width `size`; the result is a unit.
pub open spec fn blast_decl_var(s: StateView, name: Seq<char>, size: i128) -> Step {
    if size < 0 {
        Err(BlastFailure::ExpectedInt)
    } else {
        let s1 = with_var(s, BvVarView { name, sort: Sort::BitVec(size as u128), display: true });
        Ok(temp(s1, Sort::Unit))
    }
}

/// A declaration of a function; the result is a unit.
pub open spec fn blast_decl_fun(s: StateView, name: Seq<char>, sig: Seq<u128>) -> Step {
    Ok(temp(with_fun(s, name, sig), Sort::Unit))
}

pub open spec fn int_of(e: ExprView) -> i128 {
    match e {
        ExprView::Int(n) => n,
        _ => 0,
    }
}

pub open spec fn name_of(e: ExprView) -> Seq<char> {
    match e {
        ExprView::Var(n) => n,
        _ => Seq::empty(),
    }
}

/// The expression is a non-negative number.
pub open spec fn is_width(e: ExprView) -> bool {
    e matches ExprView::Int(n) && n >= 0
}

/// The widths of a function signature.
pub open spec fn int_args(es: Seq<ExprView>) -> Result<Seq<u128>, BlastFailure> {
    if forall|i: int| 0 <= i < es.len() ==> #[trigger] is_width(es[i]) {
        Ok(Seq::new(es.len(), |i: int| int_of(es[i]) as u128))
    } else {
        Err(BlastFailure::ExpectedInt)
    }
}

/// What blasting an expression does: the variable that holds its value.
pub open spec fn blast_expr(s: StateView, e: ExprView) -> Step
    decreases e,
{
    match e {
        ExprView::Var(n) => match var_lookup(s.vars, n) {
            Some(v) => Ok((s, v)),
            None => Err(BlastFailure::UsedBeforeDefinition(n)),
        },
        ExprView::List(l) => blast_list(s, l),
        ExprView::Int(_) => Err(BlastFailure::LoneNumber),
    }
}

/// What blasting a list expression does.
pub open spec fn blast_list(s: StateView, l: Seq<ExprView>) -> Step
    decreases l,
{
    if l.len() == 3 && l[0] == ExprView::Var("to-bv"@) && l[1] is Int && l[2] is Int {
        blast_to_bv(s, int_of(l[1]), int_of(l[2]))
    } else if l.len() == 3 && l[0] == ExprView::Var("declare-bv-fun"@) && l[1] is Var && l[2] is Int {
        blast_decl_var(s, name_of(l[1]), int_of(l[2]))
    } else if l.len() >= 2 && l[0] == ExprView::Var("declare-bv-fun"@) && l[1] is Var {
        match int_args(l.skip(2)) {
            Ok(sig) => blast_decl_fun(s, name_of(l[1]), sig),
            Err(e) => Err(e),
        }
    } else if l.len() >= 1 && l[0] is Var {
        match blast_args(s, l.skip(1)) {
            Ok((s1, vs)) => blast_fun(s1, name_of(l[0]), vs),
            Err(e) => Err(e),
        }
    } else {
        Err(BlastFailure::UnknownListExpr)
    }
}

/// Blasting a list of arguments from left to right.
pub open spec fn blast_args(s: StateView, es: Seq<ExprView>) -> Result<(StateView, Seq<BvVarView>), BlastFailure>
    decreases es,
{
    if es.len() == 0 {
        Ok((s, Seq::empty()))
    } else {
        match blast_args(s, es.drop_last()) {
            Err(e) => Err(e),
            Ok((s1, vs)) => match blast_expr(s1, es.last()) {
                Err(e) => Err(e),
                Ok((s2, v)) => Ok((s2, vs.push(v))),
            },
        }
    }
}


/// The variable that `name` denotes, if any: the last one made under it.
fn find_var(state: &State, name: &String) -> (r: Option<BvVar>)
    ensures
        match var_lookup(state@.vars, name@) {
            Some(v) => r matches Some(b) && b@ == v,
            None => r is None,
        },
{
    let ghost vs = state@.vars;
    let mut i = state.vars.len();
    assert(vs.take(i as int) =~= vs);
    while i > 0
        invariant
            i <= state.vars@.len(),
            vs == vars_view(state.vars@),
            var_lookup(vs, name@) == var_lookup(vs.take(i as int), name@),
        decreases i,
    {
        assert(vs.take(i as int).last() == state.vars@[i - 1]@);
        assert(vs.take(i as int).drop_last() =~= vs.take(i - 1));
        if state.vars[i - 1].has_name(name) {
            return Some(state.vars[i - 1].clone());
        }
        i -= 1;
    }
    assert(vs.take(0) =~= Seq::<BvVarView>::empty());
    None
}

/// The variable that `name` denotes, which must have been made.
fn lookup_var(state: &State, name: &String) -> (r: BvVar)
    requires
        var_lookup(state@.vars, name@) is Some,
    ensures
        r@ == var_lookup(state@.vars, name@)->Some_0,
{
    find_var(state, name).unwrap()
}

/// Bit `n` of `num`.
fn get_bit(num: u128, n: u128) -> (b: bool)
    requires
        n < 128,
    ensures
        b == num_bit(num, n as int),
{
    ((num >> n) & 1) != 0
}

fn add_clauses_to_bv(state: &mut State, num: i128, size: i128) -> (r: BvVar)
    requires
        blast_to_bv(old(state)@, num, size) is Ok,
    ensures
        steps_to(r, final(state)@, blast_to_bv(old(state)@, num, size)),
{
    let size = size as u128;
    let bits = num as u128;
    let temp = state.mk_temp_bv(Sort::BitVec(size));
    let ghost s1 = state@;
    let mut i: u128 = 0;
    while i < size
        invariant
            0 <= i <= size <= 128,
            state@ == with_clauses(s1, per_bit(i as nat, const_bits(temp@.name, bits))),
        decreases size - i,
    {
        let cs = vec![vec![(&temp, i, get_bit(bits, i))]];
        assert(triples_view(cs@) =~~= const_bit(temp@.name, bits, i as int));
        state.bulk_clause_push(cs);
        proof {
            lemma_per_bit_step(i as nat, const_bits(temp@.name, bits));
            lemma_with_clauses_twice(s1, per_bit(i as nat, const_bits(temp@.name, bits)), const_bit(temp@.name, bits, i as int));
        }
        i += 1;
    }
    temp
}

fn add_clauses_decl_fun(state: &mut State, name: String, sig: Vec<u128>) -> (r: BvVar)
    requires
        blast_decl_fun(old(state)@, name@, sig@) is Ok,
    ensures
        steps_to(r, final(state)@, blast_decl_fun(old(state)@, name@, sig@)),
{
    let ghost before = state@;
    state.fun_insts.push(FunDecl { name, sig });
    assert(state@.funs =~= before.funs.push((name@, sig@)));
    state.mk_temp_bv(Sort::Unit)
}

fn add_clauses_decl_var(state: &mut State, name: String, size: i128) -> (r: BvVar)
    requires
        blast_decl_var(old(state)@, name@, size) is Ok,
    ensures
        steps_to(r, final(state)@, blast_decl_var(old(state)@, name@, size)),
{
    state.mk_bv(name, Sort::BitVec(size as u128), true);
    state.mk_temp_bv(Sort::Unit)
}

/// The width that a non-negative number gives.
fn get_int(expr: &Expr) -> (w: u128)
    requires
        is_width(expr@),
    ensures
        w == int_of(expr@) as u128,
{
    match expr {
        Expr::Int(n) => *n as u128,
        _ => 0,
    }
}

fn add_clauses_implies(state: &mut State, args: &Vec<BvVar>) -> (r: BvVar)
    requires
        blast_bool(old(state)@, vars_view(args@), BitGate::Implies, Op::Implies) is Ok,
    ensures
        steps_to(r, final(state)@, blast_bool(old(state)@, vars_view(args@), BitGate::Implies, Op::Implies)),
{
    add_clauses_bool(state, args, BitGate::Implies, Op::Implies)
}

fn ite_triples<'a>(c: &'a BvVar, x: &'a BvVar, y: &'a BvVar, r: &'a BvVar, i: u128) -> (cs: Vec<Vec<(&'a BvVar, u128, bool)>>)
    ensures
        triples_view(cs@) =~~= ite_bit(c@.name, x@.name, y@.name, r@.name, i as int),
{
    vec![
        vec![(c, 0, false), (x, i, false), (r, i, true)],
        vec![(c, 0, false), (x, i, true), (r, i, false)],
        vec![(c, 0, true), (y, i, false), (r, i, true)],
        vec![(c, 0, true), (y, i, true), (r, i, false)],
    ]
}

fn add_clauses_ite(state: &mut State, args: &Vec<BvVar>) -> (r: BvVar)
    requires
        blast_ite(old(state)@, vars_view(args@)) is Ok,
    ensures
        steps_to(r, final(state)@, blast_ite(old(state)@, vars_view(args@))),
{
    assert(vars_view(args@)[0] == args@[0]@ && vars_view(args@)[1] == args@[1]@ && vars_view(args@)[2] == args@[2]@);
    let size = match args[1].get_sort() {
        Sort::BitVec(n) => *n,
        Sort::Unit => 0,
    };
    let res = state.mk_temp_bv(Sort::BitVec(size));
    let ghost s1 = state@;
    let c = &args[0];
    let x = &args[1];
    let y = &args[2];
    let mut i: u128 = 0;
    while i < size
        invariant
            0 <= i <= size,
            state@ == with_clauses(s1, per_bit(i as nat, ite_bits(c@.name, x@.name, y@.name, res@.name))),
        decreases size - i,
    {
        state.bulk_clause_push(ite_triples(c, x, y, &res, i));
        proof {
            lemma_per_bit_step(i as nat, ite_bits(c@.name, x@.name, y@.name, res@.name));
            lemma_with_clauses_twice(s1, per_bit(i as nat, ite_bits(c@.name, x@.name, y@.name, res@.name)), ite_bit(c@.name, x@.name, y@.name, res@.name, i as int));
        }
        i += 1;
    }
    res
}

/// Whether a builtin function accepts the blasted arguments: nothing, or
/// why not.
fn op_check(state: &State, op: Op, args: &Vec<BvVar>) -> (r: Result<(), BlastError>)
    ensures
        match blast_op(state@, op, vars_view(args@)) {
            Ok(_) => r is Ok,
            Err(e) => r matches Err(x) && x@ == e,
        },
{
    match op {
        Op::Assert => {
            if has_widths(args.as_slice(), &[1]) {
                Ok(())
            } else {
                Err(BlastError::WrongSizes(op))
            }
        },
        Op::Not => {
            if has_widths(args.as_slice(), &[1]) || has_widths(args.as_slice(), &[1, 1]) {
                Ok(())
            } else {
                Err(BlastError::WrongSizes(op))
            }
        },
        Op::And | Op::Or | Op::Xor | Op::Implies => {
            if has_widths(args.as_slice(), &[1, 1]) {
                Ok(())
            } else {
                Err(BlastError::WrongSizes(op))
            }
        },
        Op::BvNot => match common_width_of(args, if args.len() == 2 { 2 } else { 1 }, op) {
            Ok(_) => Ok(()),
            Err(e) => Err(e),
        },
        Op::Ult | Op::Ugt | Op::Ule | Op::Uge => match common_width_of(args, 2, op) {
            Ok(w) => if w == 0 {
                Err(BlastError::ZeroWidthComparison)
            } else {
                Ok(())
            },
            Err(e) => Err(e),
        },
        Op::BvAdd | Op::BvSub => match common_width_of(args, 2, op) {
            Ok(w) => if w == u128::MAX {
                Err(BlastError::WidthOverflow)
            } else {
                Ok(())
            },
            Err(e) => Err(e),
        },
        Op::Ite => {
            let ghost a = vars_view(args@);
            if args.len() != 3 {
                return Err(BlastError::WrongArgCount(op));
            }
            assert(a[0] == args@[0]@ && a[1] == args@[1]@ && a[2] == args@[2]@);
            match args[0].get_sort() {
                Sort::BitVec(n) => if *n != 1 {
                    return Err(BlastError::WrongSizes(op));
                },
                Sort::Unit => return Err(BlastError::WrongSizes(op)),
            }
            match (args[1].get_sort(), args[2].get_sort()) {
                (Sort::BitVec(n), Sort::BitVec(m)) => if *n == *m {
                    Ok(())
                } else {
                    Err(BlastError::MismatchedWidths(op))
                },
                _ => Err(BlastError::MismatchedWidths(op)),
            }
        },
        _ => match common_width_of(args, 2, op) {
            Ok(_) => Ok(()),
            Err(e) => Err(e),
        },
    }
}

/// Applies the builtin function named `name` to blasted arguments.
fn add_clauses_fun_bvs(state: &mut State, name: &String, args: &Vec<BvVar>) -> (r: BvVar)
    requires
        blast_fun(old(state)@, name@, vars_view(args@)) is Ok,
    ensures
        steps_to(r, final(state)@, blast_fun(old(state)@, name@, vars_view(args@))),
{
    match op_from_name(name).unwrap() {
        Op::Assert => add_clauses_assert(state, args),
        Op::Eq => add_clauses_eq(state, args),
        Op::Ne => add_clauses_ne(state, args),
        Op::Ult => add_clauses_ult(state, args),
        Op::Ugt => add_clauses_ugt(state, args),
        Op::Ule => add_clauses_ule(state, args),
        Op::Uge => add_clauses_uge(state, args),
        Op::And => add_clauses_and(state, args),
        Op::Or => add_clauses_or(state, args),
        Op::Xor => add_clauses_xor(state, args),
        Op::Not => add_clauses_not(state, args),
        Op::BvAnd => add_clauses_bv_and(state, args),
        Op::BvOr => add_clauses_bv_or(state, args),
        Op::BvXor => add_clauses_bv_xor(state, args),
        Op::BvNot => add_clauses_bv_not(state, args),
        Op::BvNand => add_clauses_bv_nand(state, args),
        Op::BvNor => add_clauses_bv_nor(state, args),
        Op::BvXnor => add_clauses_bv_xnor(state, args),
        Op::BvAdd => add_clauses_bv_add(state, args),
        Op::BvSub => add_clauses_bv_sub(state, args),
        Op::Ite => add_clauses_ite(state, args),
        Op::Implies => add_clauses_implies(state, args),
    }
}

proof fn lemma_args_prefix_err(s: StateView, es: Seq<ExprView>, k: int)
    requires
        0 <= k <= es.len(),
        blast_args(s, es.take(k)) is Err,
    ensures
        blast_args(s, es) == blast_args(s, es.take(k)),
    decreases es.len(),
{
    if k < es.len() {
        assert(es.drop_last().take(k) =~= es.take(k));
        lemma_args_prefix_err(s, es.drop_last(), k);
    } else {
        assert(es.take(k) =~= es);
    }
}

proof fn lemma_args_prefix_ok(s: StateView, es: Seq<ExprView>, k: int)
    requires
        0 <= k <= es.len(),
        blast_args(s, es) is Ok,
    ensures
        blast_args(s, es.take(k)) is Ok,
{
    if blast_args(s, es.take(k)) is Err {
        lemma_args_prefix_err(s, es, k);
    }
}

/// Whether `e` is a non-negative number.
fn is_width_expr(e: &Expr) -> (b: bool)
    ensures
        b == is_width(e@),
{
    match e {
        Expr::Int(n) => *n >= 0,
        _ => false,
    }
}

/// Whether `e` is the identifier `s`.
fn is_var_named(e: &Expr, s: &str) -> (b: bool)
    ensures
        b == (e@ == ExprView::Var(s@)),
{
    match e {
        Expr::Var(n) => name_is(n, s),
        _ => false,
    }
}

/// Blasts a list expression.
fn add_clauses_list(state: &mut State, lst: &Vec<Expr>) -> (r: BvVar)
    requires
        blast_list(old(state)@, exprs_view(lst@)) is Ok,
    ensures
        steps_to(r, final(state)@, blast_list(old(state)@, exprs_view(lst@))),
    decreases lst, 1int,
{
    let ghost l = exprs_view(lst@);
    proof {
        lemma_exprs_view(lst@);
        reveal_strlit("to-bv");
        reveal_strlit("declare-bv-fun");
    }
    let n = lst.len();
    if n == 3 && is_var_named(&lst[0], "to-bv") {
        if let (Expr::Int(num), Expr::Int(size)) = (&lst[1], &lst[2]) {
            return add_clauses_to_bv(state, *num, *size);
        }
    }
    if n == 3 && is_var_named(&lst[0], "declare-bv-fun") {
        if let (Expr::Var(name), Expr::Int(size)) = (&lst[1], &lst[2]) {
            return add_clauses_decl_var(state, name.clone(), *size);
        }
    }
    if n >= 2 && is_var_named(&lst[0], "declare-bv-fun") {
        if let Expr::Var(name) = &lst[1] {
            let mut sig: Vec<u128> = Vec::new();
            let mut i: usize = 2;
            assert(l[0] == ExprView::Var("declare-bv-fun"@));
            assert(l[1] is Var);
            proof {
                reveal_strlit("to-bv");
                reveal_strlit("declare-bv-fun");
                assert("declare-bv-fun"@.len() == 14);
                assert("to-bv"@.len() == 5);
            }
            while i < n
                invariant
                    n == lst@.len(),
                    l[0] == ExprView::Var("declare-bv-fun"@),
                    "declare-bv-fun"@ != "to-bv"@,
                    l[1] is Var,
                    !(l.len() == 3 && l[1] is Var && l[2] is Int),
                    l == exprs_view(lst@),
                    l.len() == n,
                    2 <= i <= n,
                    forall|k: int| 0 <= k < lst@.len() ==> #[trigger] l[k] == expr_view(lst@[k]),
                    sig@.len() == i - 2,
                    forall|k: int| 2 <= k < i ==> #[trigger] is_width(l[k]),
                    int_args(l.skip(2)) is Ok,
                    forall|k: int| 0 <= k < i - 2 ==> #[trigger] sig@[k] as int == int_of(l[k + 2]) as int,
                decreases n - i,
            {
                assert(l.skip(2)[i - 2] == l[i as int]);
                assert(is_width(l.skip(2)[i - 2]));
                sig.push(get_int(&lst[i]));
                i += 1;
            }
            assert forall|k: int| 0 <= k < l.skip(2).len() implies #[trigger] is_width(l.skip(2)[k]) by {
                assert(l.skip(2)[k] == l[k + 2]);
            }
            assert(sig@ =~= Seq::new(l.skip(2).len(), |k: int| int_of(l.skip(2)[k]) as u128));
            return add_clauses_decl_fun(state, name.clone(), sig);
        }
    }
    if n >= 1 {
        if let Expr::Var(fname) = &lst[0] {
            let bvs = add_clauses_args(state, lst);
            return add_clauses_fun_bvs(state, fname, &bvs);
        }
    }
    unreached()
}

/// Blasts an expression and returns the variable that holds its value.
fn add_clauses_expr(state: &mut State, expr: &Expr) -> (r: BvVar)
    requires
        blast_expr(old(state)@, expr@) is Ok,
    ensures
        steps_to(r, final(state)@, blast_expr(old(state)@, expr@)),
    decreases expr, 2int,
{
    match expr {
        Expr::Var(name) => lookup_var(state, name),
        Expr::List(lst) => add_clauses_list(state, lst),
        Expr::Int(_) => unreached(),
    }
}


/// Blasts the arguments of a call, `lst[1..]`, from left to right.
fn add_clauses_args(state: &mut State, lst: &Vec<Expr>) -> (r: Vec<BvVar>)
    requires
        lst@.len() >= 1,
        blast_args(old(state)@, exprs_view(lst@).skip(1)) is Ok,
    ensures
        blast_args(old(state)@, exprs_view(lst@).skip(1)) == Ok::<(StateView, Seq<BvVarView>), BlastFailure>((final(state)@, vars_view(r@))),
    decreases lst, 0int,
{
    let ghost l = exprs_view(lst@);
    proof {
        lemma_exprs_view(lst@);
    }
    let n = lst.len();
    let ghost s0 = state@;
    let ghost args = l.skip(1);
    let mut bvs: Vec<BvVar> = Vec::new();
    let mut i: usize = 1;
    assert(args.take(0) =~= Seq::<ExprView>::empty());
    assert(vars_view(bvs@) =~= Seq::<BvVarView>::empty());
    while i < n
        invariant
            n == lst@.len(),
            l == exprs_view(lst@),
            l.len() == n,
            args == l.skip(1),
            s0 == old(state)@,
            1 <= i <= n,
            forall|k: int| 0 <= k < lst@.len() ==> #[trigger] l[k] == expr_view(lst@[k]),
            blast_args(s0, args.take(i - 1)) == Ok::<(StateView, Seq<BvVarView>), BlastFailure>((state@, vars_view(bvs@))),
            blast_args(s0, args) is Ok,
        decreases n - i,
    {
        let ghost bvs_before = bvs@;
        let ghost before = state@;
        assert(args.take(i as int).drop_last() =~= args.take(i - 1));
        assert(args.take(i as int).last() == expr_view(lst@[i as int]));
        proof {
            lemma_args_prefix_ok(s0, args, i as int);
        }
        let v = add_clauses_expr(state, &lst[i]);
        bvs.push(v);
        assert(vars_view(bvs@) =~= vars_view(bvs_before).push(v@));
        i += 1;
    }
    assert(args.take(n - 1) =~= args);
    bvs
}


/// Blasts a list expression, or says why it cannot be blasted.
fn check_list(state: &mut State, lst: &Vec<Expr>) -> (r: Result<BvVar, BlastError>)
    ensures
        step_holds(r, final(state)@, blast_list(old(state)@, exprs_view(lst@))),
    decreases lst, 1int,
{
    let ghost l = exprs_view(lst@);
    proof {
        lemma_exprs_view(lst@);
        reveal_strlit("to-bv");
        reveal_strlit("declare-bv-fun");
    }
    let n = lst.len();
    if n == 3 && is_var_named(&lst[0], "to-bv") {
        if let (Expr::Int(num), Expr::Int(size)) = (&lst[1], &lst[2]) {
            if *size < 0 {
                return Err(BlastError::ExpectedInt);
            }
            if *size > 128 {
                return Err(BlastError::ToBvTooWide);
            }
            return Ok(add_clauses_to_bv(state, *num, *size));
        }
    }
    if n == 3 && is_var_named(&lst[0], "declare-bv-fun") {
        if let (Expr::Var(name), Expr::Int(size)) = (&lst[1], &lst[2]) {
            if *size < 0 {
                return Err(BlastError::ExpectedInt);
            }
            return Ok(add_clauses_decl_var(state, name.clone(), *size));
        }
    }
    if n >= 2 && is_var_named(&lst[0], "declare-bv-fun") {
        if let Expr::Var(name) = &lst[1] {
            let mut sig: Vec<u128> = Vec::new();
            let mut i: usize = 2;
            assert(l[0] == ExprView::Var("declare-bv-fun"@));
            assert(l[1] is Var);
            proof {
                reveal_strlit("to-bv");
                reveal_strlit("declare-bv-fun");
                assert("declare-bv-fun"@.len() == 14);
                assert("to-bv"@.len() == 5);
            }
            while i < n
                invariant
                    n == lst@.len(),
                    l[0] == ExprView::Var("declare-bv-fun"@),
                    "declare-bv-fun"@ != "to-bv"@,
                    l[1] is Var,
                    !(l.len() == 3 && l[1] is Var && l[2] is Int),
                    l == exprs_view(lst@),
                    l.len() == n,
                    2 <= i <= n,
                    forall|k: int| 0 <= k < lst@.len() ==> #[trigger] l[k] == expr_view(lst@[k]),
                    sig@.len() == i - 2,
                    forall|k: int| 2 <= k < i ==> #[trigger] is_width(l[k]),
                    forall|k: int| 0 <= k < i - 2 ==> #[trigger] sig@[k] as int == int_of(l[k + 2]) as int,
                decreases n - i,
            {
                if is_width_expr(&lst[i]) {
                    sig.push(get_int(&lst[i]));
                } else {
                    assert(l.skip(2)[i - 2] == l[i as int]);
                    assert(!is_width(l.skip(2)[i - 2]));
                    assert(int_args(l.skip(2)) is Err);
                    return Err(BlastError::ExpectedInt);
                }
                i += 1;
            }
            assert forall|k: int| 0 <= k < l.skip(2).len() implies #[trigger] is_width(l.skip(2)[k]) by {
                assert(l.skip(2)[k] == l[k + 2]);
            }
            assert(sig@ =~= Seq::new(l.skip(2).len(), |k: int| int_of(l.skip(2)[k]) as u128));
            return Ok(add_clauses_decl_fun(state, name.clone(), sig));
        }
    }
    if n >= 1 {
        if let Expr::Var(fname) = &lst[0] {
            let bvs = match check_args(state, lst) {
                Ok(bvs) => bvs,
                Err(e) => return Err(e),
            };
            let op = match op_from_name(fname) {
                Some(op) => op,
                None => return Err(BlastError::UnknownFunction(fname.clone())),
            };
            match op_check(state, op, &bvs) {
                Ok(()) => {},
                Err(e) => return Err(e),
            }
            return Ok(add_clauses_fun_bvs(state, fname, &bvs));
        }
    }
    Err(BlastError::UnknownListExpr)
}

/// Blasts an expression and returns the variable that holds its value, or
/// says why it cannot be blasted.
fn check_expr(state: &mut State, expr: &Expr) -> (r: Result<BvVar, BlastError>)
    ensures
        step_holds(r, final(state)@, blast_expr(old(state)@, expr@)),
    decreases expr, 2int,
{
    match expr {
        Expr::Var(name) => match find_var(state, name) {
            Some(v) => Ok(v),
            None => Err(BlastError::UsedBeforeDefinition(name.clone())),
        },
        Expr::List(lst) => check_list(state, lst),
        Expr::Int(_) => Err(BlastError::LoneNumber),
    }
}


/// Blasts the arguments of a call, `lst[1..]`, from left to right, or says
/// why they cannot be blasted.
fn check_args(state: &mut State, lst: &Vec<Expr>) -> (r: Result<Vec<BvVar>, BlastError>)
    requires
        lst@.len() >= 1,
    ensures
        match blast_args(old(state)@, exprs_view(lst@).skip(1)) {
            Ok((s, vs)) => r matches Ok(b) && vars_view(b@) == vs && final(state)@ == s,
            Err(e) => r matches Err(x) && x@ == e,
        },
    decreases lst, 0int,
{
    let ghost l = exprs_view(lst@);
    proof {
        lemma_exprs_view(lst@);
    }
    let n = lst.len();
    let ghost s0 = state@;
    let ghost args = l.skip(1);
    let mut bvs: Vec<BvVar> = Vec::new();
    let mut i: usize = 1;
    assert(args.take(0) =~= Seq::<ExprView>::empty());
    assert(vars_view(bvs@) =~= Seq::<BvVarView>::empty());
    while i < n
        invariant
            n == lst@.len(),
            l == exprs_view(lst@),
            l.len() == n,
            args == l.skip(1),
            s0 == old(state)@,
            1 <= i <= n,
            forall|k: int| 0 <= k < lst@.len() ==> #[trigger] l[k] == expr_view(lst@[k]),
            blast_args(s0, args.take(i - 1)) == Ok::<(StateView, Seq<BvVarView>), BlastFailure>((state@, vars_view(bvs@))),
        decreases n - i,
    {
        let ghost bvs_before = bvs@;
        let ghost before = state@;
        assert(args.take(i as int).drop_last() =~= args.take(i - 1));
        assert(args.take(i as int).last() == expr_view(lst@[i as int]));
        let v = match check_expr(state, &lst[i]) {
            Ok(v) => v,
            Err(e) => {
                assert(blast_expr(before, args.take(i as int).last()) == Err::<(StateView, BvVarView), BlastFailure>(e@));
                assert(blast_args(s0, args.take(i as int)) == Err::<(StateView, Seq<BvVarView>), BlastFailure>(e@));
                proof {
                    lemma_args_prefix_err(s0, args, i as int);
                }
                return Err(e);
            },
        };
        bvs.push(v);
        assert(vars_view(bvs@) =~= vars_view(bvs_before).push(v@));
        i += 1;
    }
    assert(args.take(n - 1) =~= args);
    Ok(bvs)
}


// ---------------------------------------------------------------------
// Programs
// ---------------------------------------------------------------------

/// What blasting a program does: every top-level expression in turn, each
/// of which must be a declaration or an assertion.
pub open spec fn blast_program(s: StateView, p: Seq<ExprView>) -> Result<StateView, BlastFailure>
    decreases p.len(),
{
    if p.len() == 0 {
        Ok(s)
    } else {
        match blast_program(s, p.drop_last()) {
            Err(e) => Err(e),
            Ok(s1) => match blast_expr(s1, p.last()) {
                Err(e) => Err(e),
                Ok((s2, v)) => if v.sort == Sort::Unit {
                    Ok(s2)
                } else {
                    Err(BlastFailure::TopLevelNotUnit)
                },
            },
        }
    }
}

/// No later variable in `vars` has the name of `vars[i]`.
pub open spec fn last_of_name(vars: Seq<BvVarView>, i: int) -> bool {
    forall|j: int| i < j < vars.len() ==> #[trigger] vars[j].name != vars[i].name
}

/// `out` holds, once each, the variables that the names of `vars` denote.
pub open spec fn denoted_vars(out: Seq<BvVarView>, vars: Seq<BvVarView>) -> bool {
    &&& forall|i: int, j: int| 0 <= i < j < out.len() ==> #[trigger] out[i].name != #[trigger] out[j].name
    &&& forall|i: int| 0 <= i < out.len() ==> var_lookup(vars, #[trigger] out[i].name) == Some(out[i])
    &&& forall|n: Seq<char>| #[trigger] var_lookup(vars, n) is Some ==> exists|i: int| 0 <= i < out.len() && #[trigger] out[i].name == n
}

proof fn lemma_lookup_last(vars: Seq<BvVarView>, i: int)
    requires
        0 <= i < vars.len(),
        last_of_name(vars, i),
    ensures
        var_lookup(vars, vars[i].name) == Some(vars[i]),
    decreases vars.len(),
{
    if i < vars.len() - 1 {
        assert(vars.last() == vars[vars.len() - 1]);
        let d = vars.drop_last();
        assert(d[i] == vars[i]);
        assert forall|j: int| i < j < d.len() implies #[trigger] d[j].name != d[i].name by {
            assert(d[j] == vars[j]);
        }
        lemma_lookup_last(d, i);
    }
}

proof fn lemma_lookup_found(vars: Seq<BvVarView>, n: Seq<char>)
    requires
        var_lookup(vars, n) is Some,
    ensures
        exists|i: int| 0 <= i < vars.len() && last_of_name(vars, i) && vars[i].name == n && Some(vars[i]) == var_lookup(vars, n),
    decreases vars.len(),
{
    if vars.last().name == n {
        let i = vars.len() - 1;
        assert(last_of_name(vars, i));
        assert(0 <= i < vars.len() && last_of_name(vars, i) && vars[i].name == n && Some(vars[i]) == var_lookup(vars, n));
    } else {
        let d = vars.drop_last();
        lemma_lookup_found(d, n);
        let i = choose|i: int| 0 <= i < d.len() && last_of_name(d, i) && d[i].name == n && Some(d[i]) == var_lookup(d, n);
        assert(vars[i] == d[i]);
        assert forall|j: int| i < j < vars.len() implies #[trigger] vars[j].name != vars[i].name by {
            if j < d.len() {
                assert(d[j] == vars[j]);
            }
        }
        assert(0 <= i < vars.len() && last_of_name(vars, i) && vars[i].name == n && Some(vars[i]) == var_lookup(vars, n));
    }
}

/// The variables that the names of `vars` denote, once each.
fn distinct_vars(vars: &Vec<BvVar>) -> (out: Vec<BvVar>)
    ensures
        denoted_vars(vars_view(out@), vars_view(vars@)),
{
    let ghost vv = vars_view(vars@);
    let n = vars.len();
    let mut out: Vec<BvVar> = Vec::new();
    let ghost mut idxs: Seq<int> = Seq::empty();
    let mut i: usize = 0;
    while i < n
        invariant
            n == vars@.len(),
            vv == vars_view(vars@),
            0 <= i <= n,
            idxs.len() == out@.len(),
            forall|k: int| 0 <= k < idxs.len() ==> 0 <= #[trigger] idxs[k] < i,
            forall|k1: int, k2: int| 0 <= k1 < k2 < idxs.len() ==> #[trigger] idxs[k1] < #[trigger] idxs[k2],
            forall|k: int| 0 <= k < idxs.len() ==> last_of_name(vv, #[trigger] idxs[k]),
            forall|k: int| 0 <= k < idxs.len() ==> #[trigger] vars_view(out@)[k] == vv[idxs[k]],
            forall|m: int| 0 <= m < i && last_of_name(vv, m) ==> exists|k: int| 0 <= k < idxs.len() && #[trigger] idxs[k] == m,
        decreases n - i,
    {
        let mut later = false;
        let mut j: usize = i + 1;
        while j < n
            invariant
                n == vars@.len(),
                vv == vars_view(vars@),
                i < n,
                i + 1 <= j <= n,
                later == exists|m: int| i < m < j && #[trigger] vv[m].name == vv[i as int].name,
            decreases n - j,
        {
            assert(vv[j as int] == vars@[j as int]@ && vv[i as int] == vars@[i as int]@);
            if vars[j].same_name(&vars[i]) {
                later = true;
            }
            j += 1;
        }
        let ghost old_out = vars_view(out@);
        let ghost old_idxs = idxs;
        if !later {
            assert(last_of_name(vv, i as int));
            out.push(vars[i].clone());
            proof {
                idxs = idxs.push(i as int);
                assert(vars_view(out@) =~= old_out.push(vv[i as int]));
            }
        } else {
            assert(!last_of_name(vv, i as int));
        }
        assert forall|m: int| 0 <= m < i + 1 && last_of_name(vv, m) implies exists|k: int| 0 <= k < idxs.len() && #[trigger] idxs[k] == m by {
            if m < i {
                let k = choose|k: int| 0 <= k < old_idxs.len() && #[trigger] old_idxs[k] == m;
                assert(idxs[k] == m);
            } else {
                assert(idxs[idxs.len() - 1] == m);
            }
        }
        i += 1;
    }
    let ghost ov = vars_view(out@);
    assert forall|a: int, b: int| 0 <= a < b < ov.len() implies #[trigger] ov[a].name != #[trigger] ov[b].name by {
        assert(idxs[a] < idxs[b]);
        assert(last_of_name(vv, idxs[a]));
        assert(vv[idxs[b]].name != vv[idxs[a]].name);
    }
    assert forall|a: int| 0 <= a < ov.len() implies var_lookup(vv, #[trigger] ov[a].name) == Some(ov[a]) by {
        lemma_lookup_last(vv, idxs[a]);
    }
    assert forall|nm: Seq<char>| #[trigger] var_lookup(vv, nm) is Some implies exists|a: int| 0 <= a < ov.len() && #[trigger] ov[a].name == nm by {
        lemma_lookup_found(vv, nm);
        let m = choose|m: int| 0 <= m < vv.len() && last_of_name(vv, m) && vv[m].name == nm && Some(vv[m]) == var_lookup(vv, nm);
        let k = choose|k: int| 0 <= k < idxs.len() && #[trigger] idxs[k] == m;
        assert(ov[k].name == nm);
    }
    out
}

proof fn lemma_program_prefix_err(s: StateView, p: Seq<ExprView>, k: int)
    requires
        0 <= k <= p.len(),
        blast_program(s, p.take(k)) is Err,
    ensures
        blast_program(s, p) == blast_program(s, p.take(k)),
    decreases p.len(),
{
    if k < p.len() {
        assert(p.drop_last().take(k) =~= p.take(k));
        lemma_program_prefix_err(s, p.drop_last(), k);
    } else {
        assert(p.take(k) =~= p);
    }
}

/// Blasts a program into clauses, drawing the ids of hidden variables from
/// `counter` (which is left after the last id drawn); returns the clauses
/// with, for every name under which a variable was made (declared or
/// hidden), the last variable made under it (each once, in no particular
/// order).  The program must blast (see `check_program`).
pub fn make_clauses(prog: Program, counter: &mut usize) -> (r: (Vec<Clause>, Vec<BvVar>))
    requires
        blast_program(start_state(*old(counter)), exprs_view(prog@)) is Ok,
    ensures
        clauses_view(r.0@) == blast_program(start_state(*old(counter)), exprs_view(prog@))->Ok_0.clauses,
        denoted_vars(vars_view(r.1@), blast_program(start_state(*old(counter)), exprs_view(prog@))->Ok_0.vars),
        *final(counter) == blast_program(start_state(*old(counter)), exprs_view(prog@))->Ok_0.next,
{
    let ghost p = exprs_view(prog@);
    proof {
        lemma_exprs_view(prog@);
    }
    let ghost k = *counter;
    let mut state = State::starting_at(*counter);
    let n = prog.len();
    let mut i: usize = 0;
    assert(p.take(0) =~= Seq::<ExprView>::empty());
    while i < n
        invariant
            n == prog@.len(),
            p == exprs_view(prog@),
            p.len() == n,
            forall|k: int| 0 <= k < n ==> #[trigger] p[k] == expr_view(prog@[k]),
            0 <= i <= n,
            blast_program(start_state(k), p.take(i as int)) == Ok::<StateView, BlastFailure>(state@),
            blast_program(start_state(k), p) is Ok,
        decreases n - i,
    {
        assert(p.take(i + 1).drop_last() =~= p.take(i as int));
        assert(p.take(i + 1).last() == expr_view(prog@[i as int]));
        proof {
            if blast_program(start_state(k), p.take(i + 1)) is Err {
                lemma_program_prefix_err(start_state(k), p, i + 1);
            }
        }
        add_clauses_expr(&mut state, &prog[i]);
        i += 1;
    }
    assert(p.take(n as int) =~= p);
    let vars = distinct_vars(&state.vars);
    *counter = state.next_id;
    (state.clauses, vars)
}

/// Whether a program can be blasted with fresh ids drawn from `counter`:
/// nothing, or the reason it cannot, exactly as `make_clauses` would meet
/// it.
pub fn check_program(prog: &Program, counter: usize) -> (r: Result<(), BlastError>)
    ensures
        match blast_program(start_state(counter), exprs_view(prog@)) {
            Ok(_) => r is Ok,
            Err(e) => r matches Err(x) && x@ == e,
        },
{
    let ghost p = exprs_view(prog@);
    proof {
        lemma_exprs_view(prog@);
    }
    let mut state = State::starting_at(counter);
    let n = prog.len();
    let mut i: usize = 0;
    assert(p.take(0) =~= Seq::<ExprView>::empty());
    while i < n
        invariant
            n == prog@.len(),
            p == exprs_view(prog@),
            p.len() == n,
            forall|k: int| 0 <= k < n ==> #[trigger] p[k] == expr_view(prog@[k]),
            0 <= i <= n,
            blast_program(start_state(counter), p.take(i as int)) == Ok::<StateView, BlastFailure>(state@),
        decreases n - i,
    {
        assert(p.take(i + 1).drop_last() =~= p.take(i as int));
        assert(p.take(i + 1).last() == expr_view(prog@[i as int]));
        match check_expr(&mut state, &prog[i]) {
            Ok(bv) => {
                if *bv.get_sort() != Sort::Unit {
                    proof {
                        lemma_program_prefix_err(start_state(counter), p, i + 1);
                    }
                    return Err(BlastError::TopLevelNotUnit);
                }
            },
            Err(e) => {
                proof {
                    lemma_program_prefix_err(start_state(counter), p, i + 1);
                }
                return Err(e);
            },
        }
        i += 1;
    }
    assert(p.take(n as int) =~= p);
    Ok(())
}

// ---------------------------------------------------------------------
// The state as text
// ---------------------------------------------------------------------

/// A hexadecimal digit.
pub open spec fn hex_digit(d: nat) -> Seq<char> {
    if d == 0 { "0"@ } else if d == 1 { "1"@ } else if d == 2 { "2"@ } else if d == 3 { "3"@ }
    else if d == 4 { "4"@ } else if d == 5 { "5"@ } else if d == 6 { "6"@ } else if d == 7 { "7"@ }
    else if d == 8 { "8"@ } else if d == 9 { "9"@ } else if d == 10 { "a"@ } else if d == 11 { "b"@ }
    else if d == 12 { "c"@ } else if d == 13 { "d"@ } else if d == 14 { "e"@ } else { "f"@ }
}

/// A number below 256 in hexadecimal, without leading zeros.
pub open spec fn hex_text(v: nat) -> Seq<char> {
    if v < 16 { hex_digit(v) } else { hex_digit(v / 16) + hex_digit(v % 16) }
}

/// What `char::escape_debug` of Rust's standard library yields for `c`.
pub uninterp spec fn char_escape_debug(c: char) -> Seq<char>;

/// Collects what `char::escape_debug` yields for `c`. Trusted: the text is
/// taken to be `char_escape_debug(c)`, a function of `c` alone; nothing is
/// stated of which characters it escapes.
#[verifier::external_body]
fn escape_debug_of(c: char) -> (r: String)
    ensures
        r@ == char_escape_debug(c),
{
    c.escape_debug().to_string()
}

/// How one character of a name is written between quotes, as Rust writes
/// strings for debugging: quotes, backslashes and ASCII control characters
/// are escaped, other ASCII characters stand as they are, and a character
/// past ASCII is written as the standard library escapes it.
pub open spec fn escaped_char(c: char) -> Seq<char> {
    if (c as u32) >= 0x80 {
        char_escape_debug(c)
    } else if c == '"' {
        "\\\""@
    } else if c == '\\' {
        "\\\\"@
    } else if c == '\n' {
        "\\n"@
    } else if c == '\r' {
        "\\r"@
    } else if c == '\t' {
        "\\t"@
    } else if c == '\0' {
        "\\0"@
    } else if (c as u32) < 0x20 || (c as u32) == 0x7f {
        "\\u{"@ + hex_text(c as u32 as nat) + "}"@
    } else {
        seq![c]
    }
}

/// A name with its characters escaped.
pub open spec fn escaped(n: Seq<char>) -> Seq<char>
    decreases n.len(),
{
    if n.len() == 0 {
        Seq::empty()
    } else {
        escaped(n.drop_last()) + escaped_char(n.last())
    }
}

/// A name between double quotes.
pub open spec fn quoted(n: Seq<char>) -> Seq<char> {
    "\""@ + escaped(n) + "\""@
}

pub open spec fn bool_text(b: bool) -> Seq<char> {
    if b { "true"@ } else { "false"@ }
}

/// The items with `, ` between them.
pub open spec fn joined(items: Seq<Seq<char>>) -> Seq<char>
    decreases items.len(),
{
    if items.len() == 0 {
        Seq::empty()
    } else if items.len() == 1 {
        items[0]
    } else {
        joined(items.drop_last()) + ", "@ + items.last()
    }
}

/// The items between square brackets.
pub open spec fn list_text(items: Seq<Seq<char>>) -> Seq<char> {
    "["@ + joined(items) + "]"@
}

pub open spec fn lit_text(l: Literal) -> Seq<char> {
    "PropVar { name: "@ + quoted(l.name) + ", offset: "@ + decimal(l.offset as nat) + ", value: "@ + bool_text(l.value) + " }"@
}

pub open spec fn clause_text(c: Seq<Literal>) -> Seq<char> {
    list_text(c.map_values(|l: Literal| lit_text(l)))
}

/// One variable as an entry `"name": BvVar { .. }`.
pub open spec fn var_entry(v: BvVarView) -> Seq<char> {
    quoted(v.name) + ": BvVar { name: "@ + quoted(v.name) + ", sort: "@ + sort_text(v.sort) + ", display: "@ + bool_text(v.display) + " }"@
}

/// One declared function as an entry `"name": ([], [w, ..])`.
pub open spec fn fun_entry(f: (Seq<char>, Seq<u128>)) -> Seq<char> {
    quoted(f.0) + ": ([], "@ + list_text(f.1.map_values(|w: u128| decimal(w as nat))) + ")"@
}

/// No later declaration in `fs` has the name of the one at `i`.
pub open spec fn last_decl(fs: Seq<(Seq<char>, Seq<u128>)>, i: int) -> bool {
    forall|j: int| i < j < fs.len() ==> #[trigger] fs[j].0 != fs[i].0
}

/// The declarations among the first `n` of `fs` that no later one of the
/// same name replaces, in order.
pub open spec fn last_decls(fs: Seq<(Seq<char>, Seq<u128>)>, n: nat) -> Seq<(Seq<char>, Seq<u128>)>
    decreases n,
{
    if n == 0 {
        Seq::empty()
    } else if last_decl(fs, n - 1) {
        last_decls(fs, (n - 1) as nat).push(fs[n - 1])
    } else {
        last_decls(fs, (n - 1) as nat)
    }
}

/// The state as text: its clauses, the variables `vars`, and the last
/// declaration of each function name, each written as Rust writes them for
/// debugging.
pub open spec fn state_text(s: StateView, vars: Seq<BvVarView>) -> Seq<char> {
    "clauses:\n"@ + list_text(s.clauses.map_values(|c: Seq<Literal>| clause_text(c))) + "\nvars:\n{"@
        + joined(vars.map_values(|v: BvVarView| var_entry(v))) + "}\nfun_insts:\n{"@
        + joined(last_decls(s.funs, s.funs.len()).map_values(|f: (Seq<char>, Seq<u128>)| fun_entry(f))) + "}"@
}

proof fn lemma_joined_step(items: Seq<Seq<char>>, i: int)
    requires
        0 <= i < items.len(),
    ensures
        joined(items.take(i + 1)) == if i == 0 { items[0] } else { joined(items.take(i)) + ", "@ + items[i] },
{
    assert(items.take(i + 1).drop_last() =~= items.take(i));
    if i == 0 {
        assert(items.take(1)[0] == items[0]);
    }
}

fn push_hex_digit(t: &mut String, d: u32)
    requires
        d < 16,
    ensures
        final(t)@ == old(t)@ + hex_digit(d as nat),
{
    let lit = if d == 0 { "0" } else if d == 1 { "1" } else if d == 2 { "2" } else if d == 3 { "3" }
        else if d == 4 { "4" } else if d == 5 { "5" } else if d == 6 { "6" } else if d == 7 { "7" }
        else if d == 8 { "8" } else if d == 9 { "9" } else if d == 10 { "a" } else if d == 11 { "b" }
        else if d == 12 { "c" } else if d == 13 { "d" } else if d == 14 { "e" } else { "f" };
    t.append(lit);
}

fn push_escaped_char(t: &mut String, src: &str, i: usize)
    requires
        i < src@.len() <= usize::MAX,
    ensures
        final(t)@ == old(t)@ + escaped_char(src@[i as int]),
{
    let c = src.get_char(i);
    if (c as u32) >= 0x80 {
        let e = escape_debug_of(c);
        t.append(e.as_str());
    } else if c == '"' {
        t.append("\\\"");
    } else if c == '\\' {
        t.append("\\\\");
    } else if c == '\n' {
        t.append("\\n");
    } else if c == '\r' {
        t.append("\\r");
    } else if c == '\t' {
        t.append("\\t");
    } else if c == '\0' {
        t.append("\\0");
    } else if (c as u32) < 0x20 || (c as u32) == 0x7f {
        let v = c as u32;
        t.append("\\u{");
        if v >= 16 {
            push_hex_digit(t, v / 16);
        }
        push_hex_digit(t, v % 16);
        t.append("}");
    } else {
        let piece = src.substring_char(i, i + 1);
        assert(piece@ =~= seq![c]);
        t.append(piece);
    }
}

fn push_quoted(t: &mut String, n: &String)
    ensures
        final(t)@ == old(t)@ + quoted(n@),
{
    let src = n.as_str();
    let len = src.unicode_len();
    let ghost start = t@;
    t.append("\"");
    let mut i: usize = 0;
    while i < len
        invariant
            len == src@.len(),
            src@ == n@,
            0 <= i <= len,
            t@ == start + "\""@ + escaped(n@.take(i as int)),
        decreases len - i,
    {
        push_escaped_char(t, src, i);
        assert(n@.take(i + 1).drop_last() =~= n@.take(i as int));
        assert(t@ =~= start + "\""@ + escaped(n@.take(i + 1)));
        i += 1;
    }
    assert(n@.take(len as int) =~= n@);
    t.append("\"");
    assert(t@ =~= start + quoted(n@));
}

fn push_bool(t: &mut String, b: bool)
    ensures
        final(t)@ == old(t)@ + bool_text(b),
{
    if b {
        t.append("true");
    } else {
        t.append("false");
    }
}

fn push_lit(t: &mut String, p: &PropVar)
    ensures
        final(t)@ == old(t)@ + lit_text(p@),
{
    t.append("PropVar { name: ");
    push_quoted(t, &p.owned_name());
    t.append(", offset: ");
    push_decimal(t, p.get_offset());
    t.append(", value: ");
    push_bool(t, p.get_value());
    t.append(" }");
    assert(final(t)@ =~= old(t)@ + lit_text(p@));
}

fn push_clause(t: &mut String, c: &Clause)
    ensures
        final(t)@ == old(t)@ + clause_text(clause_view(c@)),
{
    let ghost items = clause_view(c@).map_values(|l: Literal| lit_text(l));
    let ghost start = t@;
    t.append("[");
    let mut i: usize = 0;
    assert(items.take(0) =~= Seq::<Seq<char>>::empty());
    while i < c.len()
        invariant
            0 <= i <= c@.len(),
            items == clause_view(c@).map_values(|l: Literal| lit_text(l)),
            items.len() == c@.len(),
            t@ == start + "["@ + joined(items.take(i as int)),
        decreases c@.len() - i,
    {
        proof {
            lemma_joined_step(items, i as int);
        }
        if i > 0 {
            t.append(", ");
        }
        assert(items[i as int] == lit_text(c@[i as int]@));
        push_lit(t, &c[i]);
        assert(t@ =~= start + "["@ + joined(items.take(i + 1)));
        i += 1;
    }
    t.append("]");
    assert(items.take(c@.len() as int) =~= items);
    assert(t@ =~= start + clause_text(clause_view(c@)));
}

fn push_var_entry(t: &mut String, v: &BvVar)
    ensures
        final(t)@ == old(t)@ + var_entry(v@),
{
    let n = v.owned_name();
    push_quoted(t, &n);
    t.append(": BvVar { name: ");
    push_quoted(t, &n);
    t.append(", sort: ");
    match v.get_sort() {
        Sort::Unit => t.append("Unit"),
        Sort::BitVec(w) => {
            t.append("BitVec(");
            push_decimal(t, *w);
            t.append(")");
        },
    }
    t.append(", display: ");
    push_bool(t, v.get_display());
    t.append(" }");
    assert(final(t)@ =~= old(t)@ + var_entry(v@));
}

fn push_fun_entry(t: &mut String, f: &FunDecl)
    ensures
        final(t)@ == old(t)@ + fun_entry((f.name@, f.sig@)),
{
    let ghost items = f.sig@.map_values(|w: u128| decimal(w as nat));
    let ghost start = t@;
    push_quoted(t, &f.name);
    t.append(": ([], ");
    t.append("[");
    let ghost mid = t@;
    let mut i: usize = 0;
    assert(items.take(0) =~= Seq::<Seq<char>>::empty());
    while i < f.sig.len()
        invariant
            0 <= i <= f.sig@.len(),
            items == f.sig@.map_values(|w: u128| decimal(w as nat)),
            items.len() == f.sig@.len(),
            t@ == mid + joined(items.take(i as int)),
        decreases f.sig@.len() - i,
    {
        proof {
            lemma_joined_step(items, i as int);
        }
        if i > 0 {
            t.append(", ");
        }
        push_decimal(t, f.sig[i]);
        assert(t@ =~= mid + joined(items.take(i + 1)));
        i += 1;
    }
    t.append("]");
    t.append(")");
    assert(items.take(f.sig@.len() as int) =~= items);
    assert(t@ =~= start + fun_entry((f.name@, f.sig@)));
}

proof fn lemma_joined_push(items: Seq<Seq<char>>, x: Seq<char>)
    ensures
        joined(items.push(x)) == if items.len() == 0 { x } else { joined(items) + ", "@ + x },
{
    assert(items.push(x).drop_last() =~= items);
}

fn push_clause_list(t: &mut String, clauses: &Vec<Clause>)
    ensures
        final(t)@ == old(t)@ + list_text(clauses_view(clauses@).map_values(|c: Seq<Literal>| clause_text(c))),
{
    let ghost citems = clauses_view(clauses@).map_values(|c: Seq<Literal>| clause_text(c));
    let ghost start = t@;
    t.append("[");
    let mut i: usize = 0;
    assert(citems.take(0) =~= Seq::<Seq<char>>::empty());
    while i < clauses.len()
        invariant
            0 <= i <= clauses@.len(),
            citems == clauses_view(clauses@).map_values(|c: Seq<Literal>| clause_text(c)),
            citems.len() == clauses@.len(),
            t@ == start + "["@ + joined(citems.take(i as int)),
        decreases clauses@.len() - i,
    {
        proof {
            lemma_joined_step(citems, i as int);
        }
        if i > 0 {
            t.append(", ");
        }
        assert(citems[i as int] == clause_text(clause_view(clauses@[i as int]@)));
        push_clause(t, &clauses[i]);
        assert(t@ =~= start + "["@ + joined(citems.take(i + 1)));
        i += 1;
    }
    assert(citems.take(clauses@.len() as int) =~= citems);
    t.append("]");
    assert(t@ =~= start + list_text(citems));
}

fn push_var_entries(t: &mut String, vars: &Vec<BvVar>)
    ensures
        final(t)@ == old(t)@ + joined(vars_view(vars@).map_values(|v: BvVarView| var_entry(v))),
{
    let ghost vitems = vars_view(vars@).map_values(|v: BvVarView| var_entry(v));
    let ghost start = t@;
    let mut j: usize = 0;
    assert(vitems.take(0) =~= Seq::<Seq<char>>::empty());
    while j < vars.len()
        invariant
            0 <= j <= vars@.len(),
            vitems == vars_view(vars@).map_values(|v: BvVarView| var_entry(v)),
            vitems.len() == vars@.len(),
            t@ == start + joined(vitems.take(j as int)),
        decreases vars@.len() - j,
    {
        proof {
            lemma_joined_step(vitems, j as int);
        }
        if j > 0 {
            t.append(", ");
        }
        assert(vitems[j as int] == var_entry(vars@[j as int]@));
        push_var_entry(t, &vars[j]);
        assert(t@ =~= start + joined(vitems.take(j + 1)));
        j += 1;
    }
    assert(vitems.take(vars@.len() as int) =~= vitems);
}

spec fn funs_view(fs: Seq<FunDecl>) -> Seq<(Seq<char>, Seq<u128>)> {
    fs.map_values(|f: FunDecl| (f.name@, f.sig@))
}

fn push_fun_entries(t: &mut String, funs: &Vec<FunDecl>)
    ensures
        final(t)@ == old(t)@ + joined(last_decls(funs_view(funs@), funs@.len()).map_values(|f: (Seq<char>, Seq<u128>)| fun_entry(f))),
{
    let ghost fv = funs_view(funs@);
    let ghost start = t@;
    let n = funs.len();
    let mut i: usize = 0;
    let mut count: usize = 0;
    while i < n
        invariant
            n == funs@.len(),
            fv == funs_view(funs@),
            fv.len() == n,
            0 <= i <= n,
            count == last_decls(fv, i as nat).len(),
            count <= i,
            t@ == start + joined(last_decls(fv, i as nat).map_values(|f: (Seq<char>, Seq<u128>)| fun_entry(f))),
        decreases n - i,
    {
        let mut later = false;
        let mut j: usize = i + 1;
        while j < n
            invariant
                n == funs@.len(),
                fv == funs_view(funs@),
                i < n,
                i + 1 <= j <= n,
                later == exists|m: int| i < m < j && #[trigger] fv[m].0 == fv[i as int].0,
            decreases n - j,
        {
            assert(fv[j as int].0 == funs@[j as int].name@ && fv[i as int].0 == funs@[i as int].name@);
            if funs[j].name == funs[i].name {
                later = true;
            }
            j += 1;
        }
        let ghost prev = last_decls(fv, i as nat);
        let ghost items = prev.map_values(|f: (Seq<char>, Seq<u128>)| fun_entry(f));
        if !later {
            assert(last_decl(fv, i as int));
            assert(last_decls(fv, (i + 1) as nat) == prev.push(fv[i as int]));
            if count > 0 {
                t.append(", ");
            }
            push_fun_entry(t, &funs[i]);
            count += 1;
            proof {
                lemma_joined_push(items, fun_entry(fv[i as int]));
                assert(prev.push(fv[i as int]).map_values(|f: (Seq<char>, Seq<u128>)| fun_entry(f)) =~= items.push(fun_entry(fv[i as int])));
            }
        } else {
            assert(!last_decl(fv, i as int));
            assert(last_decls(fv, (i + 1) as nat) == prev);
        }
        i += 1;
    }
}

impl State {
    /// The state as text: its clauses, every variable that a name denotes
    /// (once each) and the last declaration of each function name, written
    /// as Rust writes them for debugging.
    pub fn to_string(&self) -> (t: String)
        ensures
            exists|out: Seq<BvVarView>| denoted_vars(out, self@.vars) && t@ == state_text(self@, out),
    {
        let mut t = String::new();
        t.append("clauses:\n");
        push_clause_list(&mut t, &self.clauses);
        t.append("\nvars:\n{");
        let vars = distinct_vars(&self.vars);
        push_var_entries(&mut t, &vars);
        t.append("}\nfun_insts:\n{");
        push_fun_entries(&mut t, &self.fun_insts);
        t.append("}");
        assert(t@ =~= state_text(self@, vars_view(vars@)));
        t
    }
}

// ---------------------------------------------------------------------
// Equality of states
// ---------------------------------------------------------------------

/// The signature of the last declaration of the function `n`.
pub open spec fn fun_lookup(fs: Seq<(Seq<char>, Seq<u128>)>, n: Seq<char>) -> Option<Seq<u128>>
    decreases fs.len(),
{
    if fs.len() == 0 {
        None
    } else if fs.last().0 == n {
        Some(fs.last().1)
    } else {
        fun_lookup(fs.drop_last(), n)
    }
}

/// Two states are equal when they hold the same clauses in the same order
/// and, under every name, denote the same variable and the same function
/// signature.
pub open spec fn same_state(s: StateView, t: StateView) -> bool {
    &&& s.clauses == t.clauses
    &&& forall|n: Seq<char>| #[trigger] var_lookup(s.vars, n) == var_lookup(t.vars, n)
    &&& forall|n: Seq<char>| #[trigger] fun_lookup(s.funs, n) == fun_lookup(t.funs, n)
}

fn prop_same(p: &PropVar, q: &PropVar) -> (r: bool)
    ensures
        r == (p@ == q@),
{
    p.owned_name() == q.owned_name() && p.get_offset() == q.get_offset() && p.get_value() == q.get_value()
}

fn var_same(v: &BvVar, w: &BvVar) -> (r: bool)
    ensures
        r == (v@ == w@),
{
    v.owned_name() == w.owned_name() && *v.get_sort() == *w.get_sort() && v.get_display() == w.get_display()
}

fn clause_same(c: &Clause, d: &Clause) -> (r: bool)
    ensures
        r == (clause_view(c@) == clause_view(d@)),
{
    if c.len() != d.len() {
        assert(clause_view(c@).len() != clause_view(d@).len());
        return false;
    }
    let mut i: usize = 0;
    while i < c.len()
        invariant
            c@.len() == d@.len(),
            0 <= i <= c@.len(),
            forall|k: int| 0 <= k < i ==> #[trigger] c@[k]@ == d@[k]@,
        decreases c@.len() - i,
    {
        if !prop_same(&c[i], &d[i]) {
            assert(clause_view(c@)[i as int] != clause_view(d@)[i as int]);
            return false;
        }
        i += 1;
    }
    assert(clause_view(c@) =~= clause_view(d@));
    true
}

fn clauses_same(cs: &Vec<Clause>, ds: &Vec<Clause>) -> (r: bool)
    ensures
        r == (clauses_view(cs@) == clauses_view(ds@)),
{
    if cs.len() != ds.len() {
        assert(clauses_view(cs@).len() != clauses_view(ds@).len());
        return false;
    }
    let mut i: usize = 0;
    while i < cs.len()
        invariant
            cs@.len() == ds@.len(),
            0 <= i <= cs@.len(),
            forall|k: int| 0 <= k < i ==> #[trigger] clause_view(cs@[k]@) == clause_view(ds@[k]@),
        decreases cs@.len() - i,
    {
        if !clause_same(&cs[i], &ds[i]) {
            assert(clauses_view(cs@)[i as int] != clauses_view(ds@)[i as int]);
            return false;
        }
        i += 1;
    }
    assert(clauses_view(cs@) =~= clauses_view(ds@));
    true
}

/// The variable that `name` denotes among `vars`.
fn lookup_in(vars: &Vec<BvVar>, name: &String) -> (r: Option<BvVar>)
    ensures
        match var_lookup(vars_view(vars@), name@) {
            Some(v) => r matches Some(b) && b@ == v,
            None => r is None,
        },
{
    let ghost vs = vars_view(vars@);
    let mut i = vars.len();
    assert(vs.take(i as int) =~= vs);
    while i > 0
        invariant
            i <= vars@.len(),
            vs == vars_view(vars@),
            var_lookup(vs, name@) == var_lookup(vs.take(i as int), name@),
        decreases i,
    {
        assert(vs.take(i as int).last() == vars@[i - 1]@);
        assert(vs.take(i as int).drop_last() =~= vs.take(i - 1));
        if vars[i - 1].has_name(name) {
            return Some(vars[i - 1].clone());
        }
        i -= 1;
    }
    assert(vs.take(0) =~= Seq::<BvVarView>::empty());
    None
}

proof fn lemma_lookup_none(vs: Seq<BvVarView>, n: Seq<char>)
    requires
        forall|i: int| 0 <= i < vs.len() ==> (#[trigger] vs[i]).name != n,
    ensures
        var_lookup(vs, n) is None,
    decreases vs.len(),
{
    if vs.len() > 0 {
        assert(vs[vs.len() - 1].name != n);
        assert forall|i: int| 0 <= i < vs.drop_last().len() implies (#[trigger] vs.drop_last()[i]).name != n by {
            assert(vs.drop_last()[i] == vs[i]);
        }
        lemma_lookup_none(vs.drop_last(), n);
    }
}

/// Every name of a variable of `vars` denotes in `vars` what it denotes in
/// `other`.
fn lookups_match(vars: &Vec<BvVar>, other: &Vec<BvVar>) -> (r: bool)
    ensures
        r == forall|i: int| 0 <= i < vars@.len() ==>
            var_lookup(vars_view(vars@), #[trigger] vars@[i]@.name) == var_lookup(vars_view(other@), vars@[i]@.name),
{
    let mut i: usize = 0;
    while i < vars.len()
        invariant
            0 <= i <= vars@.len(),
            forall|k: int| 0 <= k < i ==>
                var_lookup(vars_view(vars@), #[trigger] vars@[k]@.name) == var_lookup(vars_view(other@), vars@[k]@.name),
        decreases vars@.len() - i,
    {
        let n = vars[i].owned_name();
        let a = lookup_in(vars, &n);
        let b = lookup_in(other, &n);
        let same = match (&a, &b) {
            (Some(x), Some(y)) => var_same(x, y),
            (None, None) => true,
            _ => false,
        };
        if !same {
            return false;
        }
        i += 1;
    }
    true
}

/// The two lists of variables denote the same variable under every name.
fn vars_same(vs: &Vec<BvVar>, ws: &Vec<BvVar>) -> (r: bool)
    ensures
        r == forall|n: Seq<char>| #[trigger] var_lookup(vars_view(vs@), n) == var_lookup(vars_view(ws@), n),
{
    let r1 = lookups_match(vs, ws);
    let r2 = lookups_match(ws, vs);
    proof {
        if r1 && r2 {
            assert forall|n: Seq<char>| #[trigger] var_lookup(vars_view(vs@), n) == var_lookup(vars_view(ws@), n) by {
                if exists|i: int| 0 <= i < vs@.len() && vs@[i]@.name == n {
                    let i = choose|i: int| 0 <= i < vs@.len() && vs@[i]@.name == n;
                    assert(var_lookup(vars_view(vs@), vs@[i]@.name) == var_lookup(vars_view(ws@), vs@[i]@.name));
                } else if exists|i: int| 0 <= i < ws@.len() && ws@[i]@.name == n {
                    let i = choose|i: int| 0 <= i < ws@.len() && ws@[i]@.name == n;
                    assert(var_lookup(vars_view(ws@), ws@[i]@.name) == var_lookup(vars_view(vs@), ws@[i]@.name));
                } else {
                    assert forall|i: int| 0 <= i < vars_view(vs@).len() implies (#[trigger] vars_view(vs@)[i]).name != n by {
                        assert(vars_view(vs@)[i] == vs@[i]@);
                    }
                    assert forall|i: int| 0 <= i < vars_view(ws@).len() implies (#[trigger] vars_view(ws@)[i]).name != n by {
                        assert(vars_view(ws@)[i] == ws@[i]@);
                    }
                    lemma_lookup_none(vars_view(vs@), n);
                    lemma_lookup_none(vars_view(ws@), n);
                }
            }
        } else if !r1 {
            let i = choose|i: int| 0 <= i < vs@.len() && !(var_lookup(vars_view(vs@), #[trigger] vs@[i]@.name) == var_lookup(vars_view(ws@), vs@[i]@.name));
            assert(!(var_lookup(vars_view(vs@), vs@[i]@.name) == var_lookup(vars_view(ws@), vs@[i]@.name)));
        } else {
            let i = choose|i: int| 0 <= i < ws@.len() && !(var_lookup(vars_view(ws@), #[trigger] ws@[i]@.name) == var_lookup(vars_view(vs@), ws@[i]@.name));
            assert(!(var_lookup(vars_view(vs@), ws@[i]@.name) == var_lookup(vars_view(ws@), ws@[i]@.name)));
        }
    }
    r1 && r2
}

fn sig_same(a: &Vec<u128>, b: &Vec<u128>) -> (r: bool)
    ensures
        r == (a@ == b@),
{
    if a.len() != b.len() {
        return false;
    }
    let mut i: usize = 0;
    while i < a.len()
        invariant
            a@.len() == b@.len(),
            0 <= i <= a@.len(),
            forall|k: int| 0 <= k < i ==> a@[k] == b@[k],
        decreases a@.len() - i,
    {
        if a[i] != b[i] {
            return false;
        }
        i += 1;
    }
    assert(a@ =~= b@);
    true
}

/// Where the last declaration of the function `name` stands in `funs`.
fn fun_index(funs: &Vec<FunDecl>, name: &String) -> (r: Option<usize>)
    ensures
        match fun_lookup(funs_view(funs@), name@) {
            Some(sig) => r matches Some(i) && i < funs@.len() && funs@[i as int].sig@ == sig,
            None => r is None,
        },
{
    let ghost fs = funs_view(funs@);
    let mut i = funs.len();
    assert(fs.take(i as int) =~= fs);
    while i > 0
        invariant
            i <= funs@.len(),
            fs == funs_view(funs@),
            fun_lookup(fs, name@) == fun_lookup(fs.take(i as int), name@),
        decreases i,
    {
        assert(fs.take(i as int).last() == fs[i - 1]);
        assert(fs.take(i as int).drop_last() =~= fs.take(i - 1));
        if funs[i - 1].name == *name {
            return Some(i - 1);
        }
        i -= 1;
    }
    assert(fs.take(0) =~= Seq::<(Seq<char>, Seq<u128>)>::empty());
    None
}

proof fn lemma_fun_lookup_none(fs: Seq<(Seq<char>, Seq<u128>)>, n: Seq<char>)
    requires
        forall|i: int| 0 <= i < fs.len() ==> (#[trigger] fs[i]).0 != n,
    ensures
        fun_lookup(fs, n) is None,
    decreases fs.len(),
{
    if fs.len() > 0 {
        assert(fs[fs.len() - 1].0 != n);
        assert forall|i: int| 0 <= i < fs.drop_last().len() implies (#[trigger] fs.drop_last()[i]).0 != n by {
            assert(fs.drop_last()[i] == fs[i]);
        }
        lemma_fun_lookup_none(fs.drop_last(), n);
    }
}

/// Every name of a declaration of `funs` gives in `funs` the signature it
/// gives in `other`.
fn fun_lookups_match(funs: &Vec<FunDecl>, other: &Vec<FunDecl>) -> (r: bool)
    ensures
        r == forall|i: int| 0 <= i < funs@.len() ==>
            fun_lookup(funs_view(funs@), #[trigger] funs@[i].name@) == fun_lookup(funs_view(other@), funs@[i].name@),
{
    let mut i: usize = 0;
    while i < funs.len()
        invariant
            0 <= i <= funs@.len(),
            forall|k: int| 0 <= k < i ==>
                fun_lookup(funs_view(funs@), #[trigger] funs@[k].name@) == fun_lookup(funs_view(other@), funs@[k].name@),
        decreases funs@.len() - i,
    {
        let a = fun_index(funs, &funs[i].name);
        let b = fun_index(other, &funs[i].name);
        let same = match (a, b) {
            (Some(x), Some(y)) => sig_same(&funs[x].sig, &other[y].sig),
            (None, None) => true,
            _ => false,
        };
        if !same {
            return false;
        }
        i += 1;
    }
    true
}

/// The two lists of declarations give the same signature under every name.
fn funs_same(fs: &Vec<FunDecl>, gs: &Vec<FunDecl>) -> (r: bool)
    ensures
        r == forall|n: Seq<char>| #[trigger] fun_lookup(funs_view(fs@), n) == fun_lookup(funs_view(gs@), n),
{
    let r1 = fun_lookups_match(fs, gs);
    let r2 = fun_lookups_match(gs, fs);
    proof {
        if r1 && r2 {
            assert forall|n: Seq<char>| #[trigger] fun_lookup(funs_view(fs@), n) == fun_lookup(funs_view(gs@), n) by {
                if exists|i: int| 0 <= i < fs@.len() && fs@[i].name@ == n {
                    let i = choose|i: int| 0 <= i < fs@.len() && fs@[i].name@ == n;
                    assert(fun_lookup(funs_view(fs@), fs@[i].name@) == fun_lookup(funs_view(gs@), fs@[i].name@));
                } else if exists|i: int| 0 <= i < gs@.len() && gs@[i].name@ == n {
                    let i = choose|i: int| 0 <= i < gs@.len() && gs@[i].name@ == n;
                    assert(fun_lookup(funs_view(gs@), gs@[i].name@) == fun_lookup(funs_view(fs@), gs@[i].name@));
                } else {
                    assert forall|i: int| 0 <= i < funs_view(fs@).len() implies (#[trigger] funs_view(fs@)[i]).0 != n by {
                        assert(funs_view(fs@)[i].0 == fs@[i].name@);
                    }
                    assert forall|i: int| 0 <= i < funs_view(gs@).len() implies (#[trigger] funs_view(gs@)[i]).0 != n by {
                        assert(funs_view(gs@)[i].0 == gs@[i].name@);
                    }
                    lemma_fun_lookup_none(funs_view(fs@), n);
                    lemma_fun_lookup_none(funs_view(gs@), n);
                }
            }
        } else if !r1 {
            let i = choose|i: int| 0 <= i < fs@.len() && !(fun_lookup(funs_view(fs@), #[trigger] fs@[i].name@) == fun_lookup(funs_view(gs@), fs@[i].name@));
            assert(!(fun_lookup(funs_view(fs@), fs@[i].name@) == fun_lookup(funs_view(gs@), fs@[i].name@)));
        } else {
            let i = choose|i: int| 0 <= i < gs@.len() && !(fun_lookup(funs_view(gs@), #[trigger] gs@[i].name@) == fun_lookup(funs_view(fs@), gs@[i].name@));
            assert(!(fun_lookup(funs_view(fs@), gs@[i].name@) == fun_lookup(funs_view(gs@), gs@[i].name@)));
        }
    }
    r1 && r2
}

impl PartialEq for State {
    fn eq(&self, other: &Self) -> (r: bool) {
        let c = clauses_same(&self.clauses, &other.clauses);
        let v = vars_same(&self.vars, &other.vars);
        let f = funs_same(&self.fun_insts, &other.fun_insts);
        c && v && f
    }
}

impl PartialEqSpecImpl for State {
    open spec fn obeys_eq_spec() -> bool {
        true
    }

    open spec fn eq_spec(&self, other: &Self) -> bool {
        same_state(self@, other@)
    }
}

} // verus!
