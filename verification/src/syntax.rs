//! The s-expression language of problems and its parser.
use vstd::prelude::*;
use vstd::string::StrSliceExecFns;
use crate::vars::{decimal, digit_char};

verus! {

/// An s-expression: an identifier, an integer or a parenthesised list.
#[derive(Debug, PartialEq, Eq, Hash)]
pub enum Expr {
    Var(String),
    Int(i128),
    List(Vec<Expr>),
}

/// A program is a sequence of top-level expressions.
pub type Program = Vec<Expr>;

/// What an s-expression is, with identifiers as character sequences.
pub enum ExprView {
    Var(Seq<char>),
    Int(i128),
    List(Seq<ExprView>),
}

pub open spec fn expr_view(e: Expr) -> ExprView
    decreases e,
{
    match e {
        Expr::Var(s) => ExprView::Var(s@),
        Expr::Int(n) => ExprView::Int(n),
        Expr::List(l) => ExprView::List(exprs_view(l@)),
    }
}

pub open spec fn exprs_view(l: Seq<Expr>) -> Seq<ExprView>
    decreases l,
{
    if l.len() == 0 {
        Seq::empty()
    } else {
        exprs_view(l.drop_last()).push(expr_view(l.last()))
    }
}

impl View for Expr {
    type V = ExprView;

    open spec fn view(&self) -> ExprView {
        expr_view(*self)
    }
}


pub proof fn lemma_exprs_view(l: Seq<Expr>)
    ensures
        exprs_view(l).len() == l.len(),
        forall|i: int| 0 <= i < l.len() ==> #[trigger] exprs_view(l)[i] == expr_view(l[i]),
    decreases l.len(),
{
    if l.len() > 0 {
        lemma_exprs_view(l.drop_last());
    }
}


fn clone_expr(e: &Expr) -> (r: Expr)
    ensures
        r@ == e@,
    decreases e, 1int,
{
    match e {
        Expr::Var(n) => Expr::Var(n.clone()),
        Expr::Int(n) => Expr::Int(*n),
        Expr::List(l) => Expr::List(clone_exprs(l)),
    }
}

fn clone_exprs(l: &Vec<Expr>) -> (r: Vec<Expr>)
    ensures
        exprs_view(r@) == exprs_view(l@),
    decreases l, 0int,
{
    proof {
        lemma_exprs_view(l@);
    }
    let mut out: Vec<Expr> = Vec::new();
    let mut i: usize = 0;
    while i < l.len()
        invariant
            0 <= i <= l@.len(),
            out@.len() == i,
            forall|k: int| 0 <= k < i ==> #[trigger] expr_view(out@[k]) == expr_view(l@[k]),
        decreases l@.len() - i,
    {
        let c = clone_expr(&l[i]);
        out.push(c);
        i += 1;
    }
    proof {
        lemma_exprs_view(out@);
        assert(exprs_view(out@) =~= exprs_view(l@));
    }
    out
}

impl Clone for Expr {
    fn clone(&self) -> (r: Self)
        ensures
            r@ == self@,
    {
        clone_expr(self)
    }
}

// ---------------------------------------------------------------------
// The grammar, over characters and positions
// ---------------------------------------------------------------------

/// Whitespace between tokens: space, tab, carriage return, line feed.
pub open spec fn is_space(c: char) -> bool {
    c == ' ' || c == '\t' || c == '\r' || c == '\n'
}

/// An ASCII letter.
pub open spec fn is_alpha(c: char) -> bool {
    ('a' <= c && c <= 'z') || ('A' <= c && c <= 'Z')
}

/// An ASCII decimal digit.
pub open spec fn is_digit(c: char) -> bool {
    '0' <= c && c <= '9'
}

/// A character that may start an identifier: a letter, `-` or `_`.
pub open spec fn is_ident_start(c: char) -> bool {
    is_alpha(c) || c == '-' || c == '_'
}

/// A character that may continue an identifier: a letter, a digit, `-`
/// or `_`.
pub open spec fn is_ident_char(c: char) -> bool {
    is_ident_start(c) || is_digit(c)
}

pub open spec fn digit_value(c: char) -> int {
    c as int - '0' as int
}

/// The first position at or after `i` that holds no whitespace.
pub open spec fn skip_space(s: Seq<char>, i: int) -> int
    decreases s.len() - i,
{
    if 0 <= i < s.len() && is_space(s[i]) {
        skip_space(s, i + 1)
    } else {
        i
    }
}

/// The first position at or after `i` that holds no identifier character.
pub open spec fn ident_end(s: Seq<char>, i: int) -> int
    decreases s.len() - i,
{
    if 0 <= i < s.len() && is_ident_char(s[i]) {
        ident_end(s, i + 1)
    } else {
        i
    }
}

/// The first position at or after `i` that holds no digit.
pub open spec fn digits_end(s: Seq<char>, i: int) -> int
    decreases s.len() - i,
{
    if 0 <= i < s.len() && is_digit(s[i]) {
        digits_end(s, i + 1)
    } else {
        i
    }
}

/// The value of the decimal digits `s[i..j]`.
pub open spec fn digits_value(s: Seq<char>, i: int, j: int) -> int
    decreases j - i,
{
    if j <= i {
        0
    } else {
        10 * digits_value(s, i, j - 1) + digit_value(s[j - 1])
    }
}

/// An integer at `i`: whitespace, an optional sign, digits whose signed
/// value fits in `i128`, whitespace.  Gives the number and the position
/// after it.
pub open spec fn parse_int_at(s: Seq<char>, i: int) -> Option<(ExprView, int)> {
    let j = skip_space(s, i);
    let neg = 0 <= j < s.len() && s[j] == '-';
    let k = if 0 <= j < s.len() && (s[j] == '+' || s[j] == '-') { j + 1 } else { j };
    let d = digits_end(s, k);
    let v = if neg { -digits_value(s, k, d) } else { digits_value(s, k, d) };
    if d == k || v > i128::MAX || v < i128::MIN {
        None
    } else {
        Some((ExprView::Int(v as i128), skip_space(s, d)))
    }
}

/// An identifier at `i`: a start character and every identifier character
/// after it.  Gives the position after it.
pub open spec fn parse_ident_at(s: Seq<char>, i: int) -> Option<int> {
    if 0 <= i < s.len() && is_ident_start(s[i]) {
        Some(ident_end(s, i + 1))
    } else {
        None
    }
}

/// A variable at `i`: whitespace, an identifier, whitespace.
pub open spec fn parse_var_at(s: Seq<char>, i: int) -> Option<(ExprView, int)> {
    let j = skip_space(s, i);
    match parse_ident_at(s, j) {
        Some(e) => Some((ExprView::Var(s.subrange(j, e)), skip_space(s, e))),
        None => None,
    }
}

/// An expression at `i`: a list, else a variable, else an integer.
pub open spec fn parse_expr_at(s: Seq<char>, i: int) -> Option<(ExprView, int)>
    decreases s.len() - i, 0int,
{
    let j = skip_space(s, i);
    if 0 <= i <= j < s.len() && s[j] == '(' {
        let k = skip_space(s, j + 1);
        if j + 1 <= k <= s.len() {
            let (es, m) = parse_exprs_at(s, k);
            let m2 = skip_space(s, m);
            if es.len() > 0 && 0 <= m2 < s.len() && s[m2] == ')' {
                Some((ExprView::List(es), skip_space(s, m2 + 1)))
            } else {
                None
            }
        } else {
            None
        }
    } else {
        match parse_var_at(s, i) {
            Some(r) => Some(r),
            None => parse_int_at(s, i),
        }
    }
}

/// As many expressions as follow one another from `i` (possibly none), and
/// the position after the last.
pub open spec fn parse_exprs_at(s: Seq<char>, i: int) -> (Seq<ExprView>, int)
    decreases s.len() - i, 1int,
{
    match parse_expr_at(s, i) {
        None => (Seq::empty(), i),
        Some((e, i2)) => if i < i2 <= s.len() {
            let (es, m) = parse_exprs_at(s, i2);
            (Seq::empty().push(e) + es, m)
        } else {
            (Seq::empty().push(e), i2)
        },
    }
}

/// A list at `i`: whitespace, `(`, whitespace, one or more expressions,
/// whitespace, `)`, whitespace.
pub open spec fn parse_list_at(s: Seq<char>, i: int) -> Option<(ExprView, int)> {
    let j = skip_space(s, i);
    if 0 <= j < s.len() && s[j] == '(' {
        parse_expr_at(s, i)
    } else {
        None
    }
}

/// A program: one or more expressions from the start.
pub open spec fn parse_program_at(s: Seq<char>) -> Option<(Seq<ExprView>, int)> {
    let (es, m) = parse_exprs_at(s, 0);
    if es.len() > 0 {
        Some((es, m))
    } else {
        None
    }
}

proof fn lemma_skip_space(s: Seq<char>, i: int)
    requires
        0 <= i <= s.len(),
    ensures
        i <= skip_space(s, i) <= s.len(),
        skip_space(s, i) < s.len() ==> !is_space(s[skip_space(s, i)]),
    decreases s.len() - i,
{
    if i < s.len() && is_space(s[i]) {
        lemma_skip_space(s, i + 1);
    }
}

proof fn lemma_ident_end(s: Seq<char>, i: int)
    requires
        0 <= i <= s.len(),
    ensures
        i <= ident_end(s, i) <= s.len(),
    decreases s.len() - i,
{
    if i < s.len() && is_ident_char(s[i]) {
        lemma_ident_end(s, i + 1);
    }
}

proof fn lemma_digits_end(s: Seq<char>, i: int)
    requires
        0 <= i <= s.len(),
    ensures
        i <= digits_end(s, i) <= s.len(),
        forall|k: int| i <= k < digits_end(s, i) ==> is_digit(#[trigger] s[k]),
    decreases s.len() - i,
{
    if i < s.len() && is_digit(s[i]) {
        lemma_digits_end(s, i + 1);
    }
}

proof fn lemma_expr_bounds(s: Seq<char>, i: int)
    requires
        0 <= i <= s.len(),
    ensures
        parse_expr_at(s, i) matches Some((e, i2)) ==> i < i2 <= s.len(),
    decreases s.len() - i, 0int,
{
    lemma_skip_space(s, i);
    let j = skip_space(s, i);
    if j < s.len() && s[j] == '(' {
        lemma_skip_space(s, j + 1);
        let k = skip_space(s, j + 1);
        lemma_exprs_bounds(s, k);
        let m = parse_exprs_at(s, k).1;
        lemma_skip_space(s, m);
        let m2 = skip_space(s, m);
        if m2 < s.len() {
            lemma_skip_space(s, m2 + 1);
        }
    } else {
        if j < s.len() && is_ident_start(s[j]) {
            lemma_ident_end(s, j + 1);
            lemma_skip_space(s, ident_end(s, j + 1));
        }
        let k = if j < s.len() && (s[j] == '+' || s[j] == '-') { j + 1 } else { j };
        lemma_digits_end(s, k);
        lemma_skip_space(s, digits_end(s, k));
    }
}

proof fn lemma_exprs_bounds(s: Seq<char>, i: int)
    requires
        0 <= i <= s.len(),
    ensures
        i <= parse_exprs_at(s, i).1 <= s.len(),
    decreases s.len() - i, 1int,
{
    lemma_expr_bounds(s, i);
    if let Some((e, i2)) = parse_expr_at(s, i) {
        if i < i2 <= s.len() {
            lemma_exprs_bounds(s, i2);
        }
    }
}


proof fn lemma_digits_value_mono(s: Seq<char>, i: int, j1: int, j2: int)
    requires
        i <= j1 <= j2 <= s.len(),
        forall|k: int| i <= k < j2 ==> is_digit(#[trigger] s[k]),
    ensures
        0 <= digits_value(s, i, j1) <= digits_value(s, i, j2),
    decreases j2 - i,
{
    if j2 > i {
        if j1 < j2 {
            lemma_digits_value_mono(s, i, j1, j2 - 1);
        } else {
            lemma_digits_value_mono(s, i, j1 - 1, j2 - 1);
        }
        assert(is_digit(s[j2 - 1]));
    }
}

// ---------------------------------------------------------------------
// The parser
// ---------------------------------------------------------------------

/// The input does not start with what the parser expects.
#[derive(Debug, PartialEq, Eq)]
pub struct ParseError;

/// `r` is what `spec` says: the same expression and end position, or none.
pub open spec fn parsed(r: Option<(Expr, usize)>, spec: Option<(ExprView, int)>) -> bool {
    match spec {
        Some((e, p)) => r matches Some((x, q)) && x@ == e && q as int == p,
        None => r is None,
    }
}

/// `r` is what `spec` says, with the rest of `input` after the end position.
pub open spec fn parsed_rest(r: Result<(&str, Expr), ParseError>, input: &str, spec: Option<(ExprView, int)>) -> bool {
    match spec {
        Some((e, p)) => r matches Ok((rest, x)) && x@ == e && rest@ == input@.skip(p),
        None => r is Err,
    }
}

fn chars_of(s: &str) -> (v: Vec<char>)
    ensures
        v@ == s@,
{
    broadcast use vstd::string::group_string_axioms;

    let mut v: Vec<char> = Vec::new();
    for c in it: s.chars()
        invariant
            v@ == it.seq().take(it.index() as int),
            it.seq() == s@,
    {
        v.push(c);
    }
    v
}

fn is_space_char(c: char) -> (b: bool)
    ensures
        b == is_space(c),
{
    c == ' ' || c == '\t' || c == '\r' || c == '\n'
}

fn is_digit_char(c: char) -> (b: bool)
    ensures
        b == is_digit(c),
{
    '0' <= c && c <= '9'
}

fn is_ident_start_char(c: char) -> (b: bool)
    ensures
        b == is_ident_start(c),
{
    ('a' <= c && c <= 'z') || ('A' <= c && c <= 'Z') || c == '-' || c == '_'
}

fn is_ident_char_char(c: char) -> (b: bool)
    ensures
        b == is_ident_char(c),
{
    is_ident_start_char(c) || is_digit_char(c)
}

fn skip_spaces(cs: &Vec<char>, i: usize) -> (r: usize)
    requires
        i <= cs@.len(),
    ensures
        r as int == skip_space(cs@, i as int),
{
    let mut j = i;
    while j < cs.len() && is_space_char(cs[j])
        invariant
            i <= j <= cs@.len(),
            skip_space(cs@, i as int) == skip_space(cs@, j as int),
        decreases cs@.len() - j,
    {
        j += 1;
    }
    j
}

fn ident_chars_end(cs: &Vec<char>, i: usize) -> (r: usize)
    requires
        i <= cs@.len(),
    ensures
        r as int == ident_end(cs@, i as int),
{
    let mut j = i;
    while j < cs.len() && is_ident_char_char(cs[j])
        invariant
            i <= j <= cs@.len(),
            ident_end(cs@, i as int) == ident_end(cs@, j as int),
        decreases cs@.len() - j,
    {
        j += 1;
    }
    j
}

fn digit_chars_end(cs: &Vec<char>, i: usize) -> (r: usize)
    requires
        i <= cs@.len(),
    ensures
        r as int == digits_end(cs@, i as int),
{
    let mut j = i;
    while j < cs.len() && is_digit_char(cs[j])
        invariant
            i <= j <= cs@.len(),
            digits_end(cs@, i as int) == digits_end(cs@, j as int),
        decreases cs@.len() - j,
    {
        j += 1;
    }
    j
}

/// The value of the digits `cs[k..d]`, if it fits in `i128`.
fn digits_number(cs: &Vec<char>, k: usize, d: usize, limit: u128) -> (r: Option<u128>)
    requires
        k <= d <= cs@.len(),
        forall|x: int| k <= x < d ==> is_digit(#[trigger] cs@[x]),
    ensures
        digits_value(cs@, k as int, d as int) <= limit ==> r == Some(digits_value(cs@, k as int, d as int) as u128),
        digits_value(cs@, k as int, d as int) > limit ==> r is None,
{
    let mut v: u128 = 0;
    let mut p = k;
    while p < d
        invariant
            k <= p <= d <= cs@.len(),
            forall|x: int| k <= x < d ==> is_digit(#[trigger] cs@[x]),
            v as int == digits_value(cs@, k as int, p as int),
            v <= limit,
        decreases d - p,
    {
        let c = cs[p];
        assert(is_digit(cs@[p as int]));
        let dig = (c as u32 - '0' as u32) as u128;
        assert(dig as int == digit_value(cs@[p as int]));
        if dig > limit || v > (limit - dig) / 10 {
            assert(10 * v + dig > limit) by (nonlinear_arith)
                requires
                    v > (limit - dig) / 10 || dig > limit,
                    0 <= dig <= 9,
                    0 <= v,
            ;
            proof {
                lemma_digits_value_mono(cs@, k as int, p + 1, d as int);
            }
            return None;
        }
        assert(10 * v + dig <= limit) by (nonlinear_arith)
            requires
                v <= (limit - dig) / 10,
                dig <= limit,
                0 <= dig <= 9,
        ;
        v = 10 * v + dig;
        p += 1;
    }
    Some(v)
}

fn int_at(cs: &Vec<char>, i: usize) -> (r: Option<(Expr, usize)>)
    requires
        i <= cs@.len(),
    ensures
        parsed(r, parse_int_at(cs@, i as int)),
        r matches Some((_, q)) ==> q <= cs@.len(),
{
    proof {
        lemma_skip_space(cs@, i as int);
    }
    let j = skip_spaces(cs, i);
    let neg = j < cs.len() && cs[j] == '-';
    let k = if j < cs.len() && (cs[j] == '+' || cs[j] == '-') { j + 1 } else { j };
    let d = digit_chars_end(cs, k);
    proof {
        lemma_digits_end(cs@, k as int);
    }
    if d == k {
        return None;
    }
    let limit: u128 = if neg { 0x8000_0000_0000_0000_0000_0000_0000_0000 } else { 0x7fff_ffff_ffff_ffff_ffff_ffff_ffff_ffff };
    proof {
        lemma_digits_value_mono(cs@, k as int, d as int, d as int);
    }
    match digits_number(cs, k, d, limit) {
        None => None,
        Some(m) => {
            proof {
                lemma_skip_space(cs@, d as int);
            }
            assert(m as int == digits_value(cs@, k as int, d as int));
            let v: i128 = if !neg {
                assert(m as i128 == m) by (bit_vector)
                    requires
                        m <= 0x7fff_ffff_ffff_ffff_ffff_ffff_ffff_ffffu128,
                ;
                m as i128
            } else if m == 0x8000_0000_0000_0000_0000_0000_0000_0000 {
                i128::MIN
            } else {
                assert(m as i128 == m) by (bit_vector)
                    requires
                        m < 0x8000_0000_0000_0000_0000_0000_0000_0000u128,
                ;
                -(m as i128)
            };
            Some((Expr::Int(v), skip_spaces(cs, d)))
        },
    }
}

fn ident_at(cs: &Vec<char>, i: usize) -> (r: Option<usize>)
    requires
        i <= cs@.len(),
    ensures
        match parse_ident_at(cs@, i as int) {
            Some(e) => r matches Some(x) && x as int == e && i < e <= cs@.len(),
            None => r is None,
        },
{
    if i < cs.len() && is_ident_start_char(cs[i]) {
        proof {
            lemma_ident_end(cs@, i + 1);
        }
        Some(ident_chars_end(cs, i + 1))
    } else {
        None
    }
}

fn var_at(src: &str, cs: &Vec<char>, i: usize) -> (r: Option<(Expr, usize)>)
    requires
        cs@ == src@,
        i <= cs@.len(),
    ensures
        parsed(r, parse_var_at(cs@, i as int)),
        r matches Some((_, q)) ==> q <= cs@.len(),
{
    proof {
        lemma_skip_space(cs@, i as int);
    }
    let j = skip_spaces(cs, i);
    match ident_at(cs, j) {
        None => None,
        Some(e) => {
            let name = String::from_str(src.substring_char(j, e));
            proof {
                lemma_skip_space(cs@, e as int);
            }
            Some((Expr::Var(name), skip_spaces(cs, e)))
        },
    }
}

fn expr_at(src: &str, cs: &Vec<char>, i: usize) -> (r: Option<(Expr, usize)>)
    requires
        cs@ == src@,
        i <= cs@.len(),
    ensures
        parsed(r, parse_expr_at(cs@, i as int)),
        r matches Some((_, q)) ==> q <= cs@.len(),
    decreases cs@.len() - i, 0int,
{
    proof {
        lemma_skip_space(cs@, i as int);
    }
    let j = skip_spaces(cs, i);
    if j < cs.len() && cs[j] == '(' {
        proof {
            lemma_skip_space(cs@, j + 1);
        }
        let k = skip_spaces(cs, j + 1);
        let (es, m) = exprs_at(src, cs, k);
        proof {
            lemma_exprs_bounds(cs@, k as int);
            lemma_skip_space(cs@, m as int);
        }
        let m2 = skip_spaces(cs, m);
        if es.len() > 0 && m2 < cs.len() && cs[m2] == ')' {
            proof {
                lemma_skip_space(cs@, m2 + 1);
            }
            let end = skip_spaces(cs, m2 + 1);
            Some((Expr::List(es), end))
        } else {
            None
        }
    } else {
        match var_at(src, cs, i) {
            Some(r) => Some(r),
            None => int_at(cs, i),
        }
    }
}

proof fn lemma_exprs_view_push(l: Seq<Expr>, e: Expr)
    ensures
        exprs_view(l.push(e)) == exprs_view(l).push(expr_view(e)),
{
    assert(l.push(e).drop_last() =~= l);
}

fn exprs_at(src: &str, cs: &Vec<char>, i: usize) -> (r: (Vec<Expr>, usize))
    requires
        cs@ == src@,
        i <= cs@.len(),
    ensures
        (exprs_view(r.0@), r.1 as int) == parse_exprs_at(cs@, i as int),
    decreases cs@.len() - i, 1int,
{
    let mut v: Vec<Expr> = Vec::new();
    let mut pos = i;
    assert(exprs_view(v@) =~= Seq::<ExprView>::empty());
    assert(parse_exprs_at(cs@, i as int) == (exprs_view(v@) + parse_exprs_at(cs@, pos as int).0, parse_exprs_at(cs@, pos as int).1));
    loop
        invariant
            cs@ == src@,
            i <= pos <= cs@.len(),
            parse_exprs_at(cs@, i as int) == (exprs_view(v@) + parse_exprs_at(cs@, pos as int).0, parse_exprs_at(cs@, pos as int).1),
        decreases cs@.len() - pos,
    {
        match expr_at(src, cs, pos) {
            None => {
                assert(exprs_view(v@) + Seq::<ExprView>::empty() =~= exprs_view(v@));
                return (v, pos);
            },
            Some((e, p2)) => {
                proof {
                    lemma_expr_bounds(cs@, pos as int);
                    lemma_exprs_view_push(v@, e);
                    let rest = parse_exprs_at(cs@, p2 as int);
                    assert(exprs_view(v@) + (Seq::empty().push(expr_view(e)) + rest.0) =~= exprs_view(v@).push(expr_view(e)) + rest.0);
                }
                v.push(e);
                pos = p2;
            },
        }
    }
}

/// Skips the whitespace at the start of `input`.
pub fn whitespace(input: &str) -> (rest: &str)
    ensures
        rest@ == input@.skip(skip_space(input@, 0)),
{
    let cs = chars_of(input);
    proof {
        lemma_skip_space(cs@, 0);
    }
    let j = skip_spaces(&cs, 0);
    input.substring_char(j, cs.len())
}

/// An integer, with the whitespace around it.
pub fn parse_int(input: &str) -> (r: Result<(&str, Expr), ParseError>)
    ensures
        parsed_rest(r, input, parse_int_at(input@, 0)),
{
    let cs = chars_of(input);
    match int_at(&cs, 0) {
        Some((e, p)) => Ok((input.substring_char(p, cs.len()), e)),
        None => Err(ParseError),
    }
}

/// A `-` or an `_`.
pub fn other_ident_char(input: &str) -> (r: Result<(&str, &str), ParseError>)
    ensures
        input@.len() > 0 && (input@[0] == '-' || input@[0] == '_') ==> (r matches Ok((rest, c)) && c@ == input@.take(1) && rest@ == input@.skip(1)),
        !(input@.len() > 0 && (input@[0] == '-' || input@[0] == '_')) ==> r is Err,
{
    let n = input.unicode_len();
    if n > 0 {
        let c = input.get_char(0);
        if c == '-' || c == '_' {
            return Ok((input.substring_char(1, n), input.substring_char(0, 1)));
        }
    }
    Err(ParseError)
}

/// An identifier (without whitespace around it).
pub fn parse_ident(input: &str) -> (r: Result<(&str, &str), ParseError>)
    ensures
        match parse_ident_at(input@, 0) {
            Some(e) => r matches Ok((rest, id)) && id@ == input@.take(e) && rest@ == input@.skip(e),
            None => r is Err,
        },
{
    let cs = chars_of(input);
    match ident_at(&cs, 0) {
        Some(e) => {
            let rest = input.substring_char(e, cs.len());
            let id = input.substring_char(0, e);
            assert(id@ =~= input@.take(e as int));
            assert(rest@ =~= input@.skip(e as int));
            Ok((rest, id))
        },
        None => Err(ParseError),
    }
}

/// A variable: an identifier, with the whitespace around it.
pub fn parse_var(input: &str) -> (r: Result<(&str, Expr), ParseError>)
    ensures
        parsed_rest(r, input, parse_var_at(input@, 0)),
{
    let cs = chars_of(input);
    match var_at(input, &cs, 0) {
        Some((e, p)) => Ok((input.substring_char(p, cs.len()), e)),
        None => Err(ParseError),
    }
}

/// A parenthesised list of one or more expressions.
pub fn parse_list(input: &str) -> (r: Result<(&str, Expr), ParseError>)
    ensures
        parsed_rest(r, input, parse_list_at(input@, 0)),
{
    let cs = chars_of(input);
    proof {
        lemma_skip_space(cs@, 0);
    }
    let j = skip_spaces(&cs, 0);
    if j < cs.len() && cs[j] == '(' {
        match expr_at(input, &cs, 0) {
            Some((e, p)) => Ok((input.substring_char(p, cs.len()), e)),
            None => Err(ParseError),
        }
    } else {
        Err(ParseError)
    }
}

/// An expression: a list, a variable or an integer.
pub fn parse_expr(input: &str) -> (r: Result<(&str, Expr), ParseError>)
    ensures
        parsed_rest(r, input, parse_expr_at(input@, 0)),
{
    let cs = chars_of(input);
    match expr_at(input, &cs, 0) {
        Some((e, p)) => Ok((input.substring_char(p, cs.len()), e)),
        None => Err(ParseError),
    }
}

/// A program: one or more expressions; returns them with the rest of the
/// input after the last.
pub fn parse_program(input: &str) -> (r: Result<(&str, Program), ParseError>)
    ensures
        match parse_program_at(input@) {
            Some((es, p)) => r matches Ok((rest, prog)) && exprs_view(prog@) == es && rest@ == input@.skip(p),
            None => r is Err,
        },
{
    let cs = chars_of(input);
    let (es, p) = exprs_at(input, &cs, 0);
    proof {
        lemma_exprs_bounds(cs@, 0);
        lemma_exprs_view(es@);
    }
    if es.len() > 0 {
        Ok((input.substring_char(p, cs.len()), es))
    } else {
        Err(ParseError)
    }
}

/// Where identifiers start: at an ASCII letter of either case, `-` or `_`,
/// and at no other character (not at a digit, a bracket or a blank).
pub proof fn law_identifier_start(s: Seq<char>, i: int)
    requires
        0 <= i < s.len(),
    ensures
        parse_ident_at(s, i) is Some
            <==> (('a' <= s[i] && s[i] <= 'z') || ('A' <= s[i] && s[i] <= 'Z') || s[i] == '-' || s[i] == '_'),
{
}

/// How far identifiers go: from `i` over ASCII letters of either case,
/// decimal digits, `-` and `_`, up to the first other character or the
/// end of the text.
pub proof fn law_identifier_end(s: Seq<char>, i: int)
    requires
        0 <= i <= s.len(),
    ensures
        i <= ident_end(s, i) <= s.len(),
        forall|k: int| i <= k < ident_end(s, i) ==>
            ('a' <= #[trigger] s[k] && s[k] <= 'z') || ('A' <= s[k] && s[k] <= 'Z') || ('0' <= s[k] && s[k] <= '9')
                || s[k] == '-' || s[k] == '_',
        ident_end(s, i) < s.len() ==> !(
            ('a' <= s[ident_end(s, i)] && s[ident_end(s, i)] <= 'z') || ('A' <= s[ident_end(s, i)] && s[ident_end(s, i)] <= 'Z')
                || ('0' <= s[ident_end(s, i)] && s[ident_end(s, i)] <= '9') || s[ident_end(s, i)] == '-' || s[ident_end(s, i)] == '_'),
    decreases s.len() - i,
{
    if i < s.len() && is_ident_char(s[i]) {
        law_identifier_end(s, i + 1);
    }
}

proof fn lemma_decimal_digits(n: nat)
    ensures
        decimal(n).len() > 0,
        forall|k: int| 0 <= k < decimal(n).len() ==> is_digit(#[trigger] decimal(n)[k]),
        digits_value(decimal(n), 0, decimal(n).len() as int) == n,
    decreases n,
{
    if n < 10 {
        assert(digit_value(digit_char(n)) == n);
        assert(digits_value(decimal(n), 0, 0) == 0);
    } else {
        let t = decimal(n / 10);
        lemma_decimal_digits(n / 10);
        let d = (n % 10) as nat;
        assert(digit_value(digit_char(d)) == d);
        let u = t.push(digit_char(d));
        assert(u == decimal(n));
        lemma_digits_value_prefix(t, digit_char(d), 0, t.len() as int);
        assert forall|k: int| 0 <= k < u.len() implies is_digit(#[trigger] u[k]) by {
            if k < t.len() {
                assert(u[k] == t[k]);
            }
        }
    }
}

proof fn lemma_digits_value_prefix(t: Seq<char>, c: char, i: int, j: int)
    requires
        0 <= i,
        j <= t.len(),
    ensures
        digits_value(t.push(c), i, j) == digits_value(t, i, j),
    decreases j - i,
{
    if j > i {
        lemma_digits_value_prefix(t, c, i, j - 1);
        assert(t.push(c)[j - 1] == t[j - 1]);
    }
}

proof fn lemma_digits_end_all(s: Seq<char>, k: int)
    requires
        0 <= k <= s.len(),
        forall|m: int| k <= m < s.len() ==> is_digit(#[trigger] s[m]),
    ensures
        digits_end(s, k) == s.len(),
    decreases s.len() - k,
{
    if k < s.len() {
        lemma_digits_end_all(s, k + 1);
    }
}

/// Integers read back as written: the decimal text of every `n` that fits
/// in `i128` parses to the integer `n`, and with a `-` in front to `-n`,
/// using the whole text.
pub proof fn law_decimal_parses(n: nat)
    requires
        n <= i128::MAX,
    ensures
        parse_int_at(decimal(n), 0) == Some((ExprView::Int(n as i128), decimal(n).len() as int)),
        parse_int_at(seq!['-'] + decimal(n), 0)
            == Some((ExprView::Int(-(n as int) as i128), (decimal(n).len() + 1) as int)),
{
    let t = decimal(n);
    lemma_decimal_digits(n);
    lemma_digits_end_all(t, 0);
    assert(!is_space(t[0]) && t[0] != '-' && t[0] != '+');
    let u = seq!['-'] + t;
    assert forall|m: int| 1 <= m < u.len() implies is_digit(#[trigger] u[m]) by {
        assert(u[m] == t[m - 1]);
    }
    lemma_digits_end_all(u, 1);
    assert(u.subrange(1, u.len() as int) =~= t);
    lemma_digits_value_shift(u, t, 1, u.len() as int);
}

proof fn lemma_digits_value_shift(u: Seq<char>, t: Seq<char>, d: int, j: int)
    requires
        0 <= d <= j <= u.len(),
        t.len() == u.len() - d,
        forall|m: int| 0 <= m < t.len() ==> #[trigger] t[m] == u[m + d],
    ensures
        digits_value(u, d, j) == digits_value(t, 0, j - d),
    decreases j - d,
{
    if j > d {
        lemma_digits_value_shift(u, t, d, j - 1);
        assert(t[j - 1 - d] == u[j - 1]);
    }
}

} // verus!
