//! The OpenQASM 2.0 statement grammar: comments, statements separated by
//! `;`, and the statement forms the importer understands.
//!
//! Gate parameters are kept as expressions (`pi`, numbers, `+ - * /`,
//! unary minus, parentheses); the numeric literal text is kept as written.
use vstd::prelude::*;
use crate::text::{chars_of, alphabetic, numeric, white_space, is_alphabetic, is_numeric, is_whitespace, push_char};

verus! {

/// A gate parameter expression.
#[derive(Debug)]
pub enum ParamExpr {
    /// The constant `pi`.
    Pi,
    /// A numeric literal, as written.
    Number(String),
    /// Unary minus.
    Neg(Box<ParamExpr>),
    /// Sum.
    Add(Box<ParamExpr>, Box<ParamExpr>),
    /// Difference.
    Sub(Box<ParamExpr>, Box<ParamExpr>),
    /// Product.
    Mul(Box<ParamExpr>, Box<ParamExpr>),
    /// Quotient.
    Div(Box<ParamExpr>, Box<ParamExpr>),
}

/// Model of a parameter expression.
pub enum ExprView {
    Pi,
    Number(Seq<char>),
    Neg(Box<ExprView>),
    Add(Box<ExprView>, Box<ExprView>),
    Sub(Box<ExprView>, Box<ExprView>),
    Mul(Box<ExprView>, Box<ExprView>),
    Div(Box<ExprView>, Box<ExprView>),
}

/// The model of an expression.
pub open spec fn expr_view(e: ParamExpr) -> ExprView
    decreases e,
{
    match e {
        ParamExpr::Pi => ExprView::Pi,
        ParamExpr::Number(t) => ExprView::Number(t@),
        ParamExpr::Neg(a) => ExprView::Neg(Box::new(expr_view(*a))),
        ParamExpr::Add(a, b) => ExprView::Add(Box::new(expr_view(*a)), Box::new(expr_view(*b))),
        ParamExpr::Sub(a, b) => ExprView::Sub(Box::new(expr_view(*a)), Box::new(expr_view(*b))),
        ParamExpr::Mul(a, b) => ExprView::Mul(Box::new(expr_view(*a)), Box::new(expr_view(*b))),
        ParamExpr::Div(a, b) => ExprView::Div(Box::new(expr_view(*a)), Box::new(expr_view(*b))),
    }
}

impl View for ParamExpr {
    type V = ExprView;

    open spec fn view(&self) -> ExprView {
        expr_view(*self)
    }
}

/// A reference to one qubit or bit of a register: `name[index]`.
#[derive(Debug, Clone)]
pub struct RegRef {
    /// Register name.
    pub name: String,
    /// Index within the register.
    pub index: usize,
}

/// A parsed statement.
#[derive(Debug)]
pub enum QasmStmt {
    /// `OPENQASM <version>`, with the version as written.
    Header(String),
    /// `include "<file>"`.
    Include(String),
    /// `qreg <name>[<size>]`.
    Qreg(String, usize),
    /// `creg <name>[<size>]`.
    Creg(String, usize),
    /// `<name>(<params>) <qubits>`.
    Gate { name: String, params: Vec<ParamExpr>, qubits: Vec<RegRef> },
    /// `measure <qubit> -> <bit>`.
    Measure { qubit: RegRef, cbit: RegRef },
    /// `barrier <qubits>`.
    Barrier(Vec<RegRef>),
}

/// Model of a register reference.
pub open spec fn reg_view(r: RegRef) -> (Seq<char>, usize) {
    (r.name@, r.index)
}

/// Model of a list of register references.
pub open spec fn regs_view(rs: Seq<RegRef>) -> Seq<(Seq<char>, usize)> {
    rs.map_values(|r: RegRef| reg_view(r))
}

/// Model of a statement.
pub enum StmtView {
    Header(Seq<char>),
    Include(Seq<char>),
    Qreg(Seq<char>, usize),
    Creg(Seq<char>, usize),
    Gate { name: Seq<char>, params: Seq<ExprView>, qubits: Seq<(Seq<char>, usize)> },
    Measure { qubit: (Seq<char>, usize), cbit: (Seq<char>, usize) },
    Barrier(Seq<(Seq<char>, usize)>),
}

impl View for QasmStmt {
    type V = StmtView;

    open spec fn view(&self) -> StmtView {
        match self {
            QasmStmt::Header(v) => StmtView::Header(v@),
            QasmStmt::Include(f) => StmtView::Include(f@),
            QasmStmt::Qreg(n, k) => StmtView::Qreg(n@, *k),
            QasmStmt::Creg(n, k) => StmtView::Creg(n@, *k),
            QasmStmt::Gate { name, params, qubits } => StmtView::Gate {
                name: name@,
                params: params@.map_values(|e: ParamExpr| e@),
                qubits: regs_view(qubits@),
            },
            QasmStmt::Measure { qubit, cbit } => StmtView::Measure { qubit: reg_view(*qubit), cbit: reg_view(*cbit) },
            QasmStmt::Barrier(qs) => StmtView::Barrier(regs_view(qs@)),
        }
    }
}

/// The statements of a source text and the warnings for the statements
/// that could not be read.
pub struct QasmProgram {
    /// Statements in source order.
    pub statements: Vec<QasmStmt>,
    /// One warning per unrecognized statement, in source order.
    pub warnings: Vec<String>,
}

/// Whitespace as the grammar skips it: space, tab, carriage return, newline.
pub open spec fn is_space(c: char) -> bool {
    c == ' ' || c == '\t' || c == '\r' || c == '\n'
}

/// An ASCII decimal digit.
pub open spec fn is_digit(c: char) -> bool {
    '0' <= c && c <= '9'
}

/// A character that may continue an identifier.
pub open spec fn is_ident_char(c: char) -> bool {
    alphabetic(c) || numeric(c) || c == '_'
}

/// `s[i]` exists and is `c`.
pub open spec fn char_at(s: Seq<char>, i: int, c: char) -> bool {
    0 <= i < s.len() && s[i] == c
}

/// The end of the run of grammar whitespace starting at `i`.
pub open spec fn skip_ws(s: Seq<char>, i: int) -> int
    decreases s.len() - i,
{
    if 0 <= i < s.len() && is_space(s[i]) { skip_ws(s, i + 1) } else { i }
}

/// The end of the run of digits starting at `i`.
pub open spec fn digits_end(s: Seq<char>, i: int) -> int
    decreases s.len() - i,
{
    if 0 <= i < s.len() && is_digit(s[i]) { digits_end(s, i + 1) } else { i }
}

/// The end of the run of identifier characters starting at `i`.
pub open spec fn ident_rest_end(s: Seq<char>, i: int) -> int
    decreases s.len() - i,
{
    if 0 <= i < s.len() && is_ident_char(s[i]) { ident_rest_end(s, i + 1) } else { i }
}

/// The end of the identifier starting at `i`: a letter or `_`, then
/// letters, digits and `_`.
pub open spec fn ident_end(s: Seq<char>, i: int) -> Option<int> {
    if 0 <= i < s.len() && (alphabetic(s[i]) || s[i] == '_') { Some(ident_rest_end(s, i + 1)) } else { None }
}

/// `lit` is written at `i`.
pub open spec fn tag_at(s: Seq<char>, i: int, lit: Seq<char>) -> bool {
    0 <= i && i + lit.len() <= s.len() && s.subrange(i, i + lit.len()) == lit
}

/// A word is written at `i` in any mix of the cases given by `lower` and
/// `upper` (same length, letter by letter).
pub open spec fn tag_any_case(s: Seq<char>, i: int, lower: Seq<char>, upper: Seq<char>) -> bool {
    &&& 0 <= i && i + lower.len() <= s.len()
    &&& forall|k: int| 0 <= k < lower.len() ==> #[trigger] s[i + k] == lower[k] || s[i + k] == upper[k]
}

/// Position after an optional `+` or `-` at `i`.
pub open spec fn sign_end(s: Seq<char>, i: int) -> int {
    if char_at(s, i, '+') || char_at(s, i, '-') { i + 1 } else { i }
}

/// The end of a decimal number at `i`: optional sign, digits with an
/// optional fraction (or a fraction alone), optional exponent.
pub open spec fn float_end(s: Seq<char>, i: int) -> Option<int> {
    let a = sign_end(s, i);
    let d = digits_end(s, a);
    let m = if d > a {
        if char_at(s, d, '.') { Some(digits_end(s, d + 1)) } else { Some(d) }
    } else if char_at(s, a, '.') && digits_end(s, a + 1) > a + 1 {
        Some(digits_end(s, a + 1))
    } else {
        None
    };
    match m {
        None => None,
        Some(m) => if char_at(s, m, 'e') || char_at(s, m, 'E') {
            let b = sign_end(s, m + 1);
            let e = digits_end(s, b);
            if e > b { Some(e) } else { None }
        } else {
            Some(m)
        },
    }
}

/// The end of a number at `i`: a decimal number, `nan` or `inf` (any case).
pub open spec fn number_end(s: Seq<char>, i: int) -> Option<int> {
    match float_end(s, i) {
        Some(e) => Some(e),
        None => if tag_any_case(s, i, "nan"@, "NAN"@) || tag_any_case(s, i, "inf"@, "INF"@) { Some(i + 3) } else { None },
    }
}

pub proof fn lemma_skip_ws(s: Seq<char>, i: int)
    ensures
        i <= skip_ws(s, i),
        0 <= i <= s.len() ==> skip_ws(s, i) <= s.len(),
    decreases s.len() - i,
{
    if 0 <= i < s.len() && is_space(s[i]) {
        lemma_skip_ws(s, i + 1);
    }
}

/// A parameter expression at `i`: optional whitespace, then a sum.
pub open spec fn expr_at(s: Seq<char>, i: int) -> Option<(ExprView, int)>
    decreases s.len() - i, 5int,
{
    proof { lemma_skip_ws(s, i); }
    sum_at(s, skip_ws(s, i))
}

/// A sum: products joined by `+` or `-`, left to right.
pub open spec fn sum_at(s: Seq<char>, i: int) -> Option<(ExprView, int)>
    decreases s.len() - i, 4int,
{
    match product_at(s, i) {
        Some((e, k)) => if i < k <= s.len() { sum_rest(s, e, k) } else { None },
        None => None,
    }
}

/// The rest of a sum after `acc`, at `k`; whitespace before an operator
/// that is not there is left unconsumed.
pub open spec fn sum_rest(s: Seq<char>, acc: ExprView, k: int) -> Option<(ExprView, int)>
    decreases s.len() - k, 4int,
{
    proof { lemma_skip_ws(s, k); }
    let j = skip_ws(s, k);
    if char_at(s, j, '+') || char_at(s, j, '-') {
        proof { lemma_skip_ws(s, j + 1); }
        match product_at(s, skip_ws(s, j + 1)) {
            Some((r, k2)) => if k < k2 <= s.len() {
                sum_rest(s, if s[j] == '+' { ExprView::Add(Box::new(acc), Box::new(r)) } else { ExprView::Sub(Box::new(acc), Box::new(r)) }, k2)
            } else {
                None
            },
            None => None,
        }
    } else {
        Some((acc, k))
    }
}

/// A product: unary terms joined by `*` or `/`, left to right.
pub open spec fn product_at(s: Seq<char>, i: int) -> Option<(ExprView, int)>
    decreases s.len() - i, 3int,
{
    match unary_at(s, i) {
        Some((e, k)) => if i < k <= s.len() { product_rest(s, e, k) } else { None },
        None => None,
    }
}

/// The rest of a product after `acc`, at `k`.
pub open spec fn product_rest(s: Seq<char>, acc: ExprView, k: int) -> Option<(ExprView, int)>
    decreases s.len() - k, 3int,
{
    proof { lemma_skip_ws(s, k); }
    let j = skip_ws(s, k);
    if char_at(s, j, '*') || char_at(s, j, '/') {
        proof { lemma_skip_ws(s, j + 1); }
        match unary_at(s, skip_ws(s, j + 1)) {
            Some((r, k2)) => if k < k2 <= s.len() {
                product_rest(s, if s[j] == '*' { ExprView::Mul(Box::new(acc), Box::new(r)) } else { ExprView::Div(Box::new(acc), Box::new(r)) }, k2)
            } else {
                None
            },
            None => None,
        }
    } else {
        Some((acc, k))
    }
}

/// A unary term: optional whitespace, then `-` and a primary, or a primary.
pub open spec fn unary_at(s: Seq<char>, i: int) -> Option<(ExprView, int)>
    decreases s.len() - i, 2int,
{
    proof { lemma_skip_ws(s, i); }
    let j = skip_ws(s, i);
    if char_at(s, j, '-') {
        match primary_at(s, j + 1) {
            Some((e, k)) => Some((ExprView::Neg(Box::new(e)), k)),
            None => None,
        }
    } else {
        primary_at(s, j)
    }
}

/// A primary: optional whitespace, then `pi`, a number, or a
/// parenthesised expression.
pub open spec fn primary_at(s: Seq<char>, i: int) -> Option<(ExprView, int)>
    decreases s.len() - i, 1int,
{
    proof { lemma_skip_ws(s, i); }
    let j = skip_ws(s, i);
    if tag_at(s, j, "pi"@) {
        Some((ExprView::Pi, j + 2))
    } else {
        match number_end(s, j) {
            Some(e) => Some((ExprView::Number(s.subrange(j, e)), e)),
            None => if char_at(s, j, '(') {
                match expr_at(s, j + 1) {
                    Some((e, k)) => if char_at(s, k, ')') { Some((e, k + 1)) } else { None },
                    None => None,
                }
            } else {
                None
            },
        }
    }
}

fn space_at(s: &Vec<char>, i: usize) -> (b: bool)
    ensures
        b == (0 <= i < s@.len() && is_space(s@[i as int])),
{
    i < s.len() && (s[i] == ' ' || s[i] == '\t' || s[i] == '\r' || s[i] == '\n')
}

fn char_at_exec(s: &Vec<char>, i: usize, c: char) -> (b: bool)
    ensures
        b == char_at(s@, i as int, c),
{
    i < s.len() && s[i] == c
}

fn skip_ws_exec(s: &Vec<char>, i: usize) -> (j: usize)
    requires
        i <= s@.len(),
    ensures
        j == skip_ws(s@, i as int),
        i <= j <= s@.len(),
{
    let len = s.len();
    let mut j = i;
    while space_at(s, j)
        invariant
            len == s@.len(),
            i <= j <= s@.len(),
            skip_ws(s@, j as int) == skip_ws(s@, i as int),
        decreases s@.len() - j,
    {
        j = j + 1;
    }
    j
}

fn digits_end_exec(s: &Vec<char>, i: usize) -> (j: usize)
    requires
        i <= s@.len(),
    ensures
        j == digits_end(s@, i as int),
        i <= j <= s@.len(),
{
    let len = s.len();
    let mut j = i;
    while j < s.len() && '0' <= s[j] && s[j] <= '9'
        invariant
            len == s@.len(),
            i <= j <= s@.len(),
            digits_end(s@, j as int) == digits_end(s@, i as int),
        decreases s@.len() - j,
    {
        j = j + 1;
    }
    j
}

fn ident_char_at(s: &Vec<char>, j: usize) -> (b: bool)
    ensures
        b == (0 <= j < s@.len() && is_ident_char(s@[j as int])),
{
    j < s.len() && (is_alphabetic(s[j]) || is_numeric(s[j]) || s[j] == '_')
}

fn ident_end_exec(s: &Vec<char>, i: usize) -> (r: Option<usize>)
    requires
        i <= s@.len(),
    ensures
        r matches Some(e) ==> ident_end(s@, i as int) == Some(e as int) && i < e <= s@.len(),
        r is None ==> ident_end(s@, i as int) is None,
{
    if !(i < s.len() && (is_alphabetic(s[i]) || s[i] == '_')) {
        return None;
    }
    let len = s.len();
    let mut j = i + 1;
    while ident_char_at(s, j)
        invariant
            len == s@.len(),
            i < j <= s@.len(),
            ident_rest_end(s@, j as int) == ident_rest_end(s@, i as int + 1),
        decreases s@.len() - j,
    {
        j = j + 1;
    }
    Some(j)
}

fn tag_at_exec(s: &Vec<char>, i: usize, lit: &str) -> (b: bool)
    requires
        i <= s@.len(),
    ensures
        b == tag_at(s@, i as int, lit@),
{
    let n = lit.unicode_len();
    let len = s.len();
    if n > len - i {
        return false;
    }
    let mut k: usize = 0;
    while k < n
        invariant
            len == s@.len(),
            k <= n,
            n == lit@.len(),
            i + n <= s@.len(),
            forall|m: int| 0 <= m < k ==> s@[i + m] == lit@[m],
        decreases n - k,
    {
        if s[i + k] != lit.get_char(k) {
            assert(s@.subrange(i as int, i + n)[k as int] != lit@[k as int]);
            return false;
        }
        k = k + 1;
    }
    assert(s@.subrange(i as int, i + n) =~= lit@);
    true
}

fn tag_any_case_exec(s: &Vec<char>, i: usize, lower: &str, upper: &str) -> (b: bool)
    requires
        i <= s@.len(),
        lower@.len() == upper@.len(),
    ensures
        b == tag_any_case(s@, i as int, lower@, upper@),
{
    let n = lower.unicode_len();
    let len = s.len();
    if n > len - i {
        return false;
    }
    let mut k: usize = 0;
    while k < n
        invariant
            len == s@.len(),
            k <= n,
            n == lower@.len(),
            lower@.len() == upper@.len(),
            i + n <= s@.len(),
            forall|m: int| 0 <= m < k ==> #[trigger] s@[i + m] == lower@[m] || s@[i + m] == upper@[m],
        decreases n - k,
    {
        let c = s[i + k];
        if c != lower.get_char(k) && c != upper.get_char(k) {
            return false;
        }
        k = k + 1;
    }
    true
}

fn sign_end_exec(s: &Vec<char>, i: usize) -> (j: usize)
    requires
        i <= s@.len(),
    ensures
        j == sign_end(s@, i as int),
        j <= s@.len(),
{
    let _len = s.len();
    if char_at_exec(s, i, '+') || char_at_exec(s, i, '-') { i + 1 } else { i }
}

fn float_end_exec(s: &Vec<char>, i: usize) -> (r: Option<usize>)
    requires
        i <= s@.len(),
    ensures
        r matches Some(e) ==> float_end(s@, i as int) == Some(e as int) && i < e <= s@.len(),
        r is None ==> float_end(s@, i as int) is None,
{
    let _len = s.len();
    let a = sign_end_exec(s, i);
    let d = digits_end_exec(s, a);
    let m = if d > a {
        if char_at_exec(s, d, '.') { digits_end_exec(s, d + 1) } else { d }
    } else if char_at_exec(s, a, '.') && digits_end_exec(s, a + 1) > a + 1 {
        digits_end_exec(s, a + 1)
    } else {
        return None;
    };
    if char_at_exec(s, m, 'e') || char_at_exec(s, m, 'E') {
        let b = sign_end_exec(s, m + 1);
        let e = digits_end_exec(s, b);
        if e > b { Some(e) } else { None }
    } else {
        Some(m)
    }
}

fn number_end_exec(s: &Vec<char>, i: usize) -> (r: Option<usize>)
    requires
        i <= s@.len(),
    ensures
        r matches Some(e) ==> number_end(s@, i as int) == Some(e as int) && i < e <= s@.len(),
        r is None ==> number_end(s@, i as int) is None,
{
    let _len = s.len();
    match float_end_exec(s, i) {
        Some(e) => Some(e),
        None => {
            proof {
                reveal_strlit("nan");
                reveal_strlit("NAN");
                reveal_strlit("inf");
                reveal_strlit("INF");
            }
            if tag_any_case_exec(s, i, "nan", "NAN") || tag_any_case_exec(s, i, "inf", "INF") {
                Some(i + 3)
            } else {
                None
            }
        },
    }
}

/// The characters `s[a..b]` as a string.
fn substring(s: &Vec<char>, a: usize, b: usize) -> (r: String)
    requires
        a <= b <= s@.len(),
    ensures
        r@ == s@.subrange(a as int, b as int),
{
    let mut r = String::new();
    let mut k = a;
    while k < b
        invariant
            a <= k <= b,
            b <= s@.len(),
            r@ == s@.subrange(a as int, k as int),
        decreases b - k,
    {
        push_char(&mut r, s[k]);
        k = k + 1;
        assert(r@ =~= s@.subrange(a as int, k as int));
    }
    r
}

/// The model of an expression parse result.
pub open spec fn parsed(r: Option<(ParamExpr, usize)>) -> Option<(ExprView, int)> {
    match r {
        Some((e, k)) => Some((e@, k as int)),
        None => None,
    }
}

fn expr_exec(s: &Vec<char>, i: usize) -> (r: Option<(ParamExpr, usize)>)
    requires
        i <= s@.len(),
    ensures
        parsed(r) == expr_at(s@, i as int),
        r matches Some((_, k)) ==> i < k <= s@.len(),
    decreases s@.len() - i, 5int,
{
    let j = skip_ws_exec(s, i);
    sum_exec(s, j)
}

fn sum_exec(s: &Vec<char>, i: usize) -> (r: Option<(ParamExpr, usize)>)
    requires
        i <= s@.len(),
    ensures
        parsed(r) == sum_at(s@, i as int),
        r matches Some((_, k)) ==> i < k <= s@.len(),
    decreases s@.len() - i, 4int,
{
    let len = s.len();
    let (mut acc, mut k) = match product_exec(s, i) {
        Some(p) => p,
        None => { return None; },
    };
    loop
        invariant
            len == s@.len(),
            i < k <= s@.len(),
            sum_rest(s@, acc@, k as int) == sum_at(s@, i as int),
        decreases s@.len() - k,
    {
        let j = skip_ws_exec(s, k);
        if char_at_exec(s, j, '+') || char_at_exec(s, j, '-') {
            let plus = s[j] == '+';
            let j2 = skip_ws_exec(s, j + 1);
            match product_exec(s, j2) {
                Some((r, k2)) => {
                    acc = if plus { ParamExpr::Add(Box::new(acc), Box::new(r)) } else { ParamExpr::Sub(Box::new(acc), Box::new(r)) };
                    k = k2;
                },
                None => { return None; },
            }
        } else {
            return Some((acc, k));
        }
    }
}

fn product_exec(s: &Vec<char>, i: usize) -> (r: Option<(ParamExpr, usize)>)
    requires
        i <= s@.len(),
    ensures
        parsed(r) == product_at(s@, i as int),
        r matches Some((_, k)) ==> i < k <= s@.len(),
    decreases s@.len() - i, 3int,
{
    let len = s.len();
    let (mut acc, mut k) = match unary_exec(s, i) {
        Some(p) => p,
        None => { return None; },
    };
    loop
        invariant
            len == s@.len(),
            i < k <= s@.len(),
            product_rest(s@, acc@, k as int) == product_at(s@, i as int),
        decreases s@.len() - k,
    {
        let j = skip_ws_exec(s, k);
        if char_at_exec(s, j, '*') || char_at_exec(s, j, '/') {
            let times = s[j] == '*';
            let j2 = skip_ws_exec(s, j + 1);
            match unary_exec(s, j2) {
                Some((r, k2)) => {
                    acc = if times { ParamExpr::Mul(Box::new(acc), Box::new(r)) } else { ParamExpr::Div(Box::new(acc), Box::new(r)) };
                    k = k2;
                },
                None => { return None; },
            }
        } else {
            return Some((acc, k));
        }
    }
}

fn unary_exec(s: &Vec<char>, i: usize) -> (r: Option<(ParamExpr, usize)>)
    requires
        i <= s@.len(),
    ensures
        parsed(r) == unary_at(s@, i as int),
        r matches Some((_, k)) ==> i < k <= s@.len(),
    decreases s@.len() - i, 2int,
{
    let _len = s.len();
    let j = skip_ws_exec(s, i);
    if char_at_exec(s, j, '-') {
        match primary_exec(s, j + 1) {
            Some((e, k)) => Some((ParamExpr::Neg(Box::new(e)), k)),
            None => None,
        }
    } else {
        primary_exec(s, j)
    }
}

fn primary_exec(s: &Vec<char>, i: usize) -> (r: Option<(ParamExpr, usize)>)
    requires
        i <= s@.len(),
    ensures
        parsed(r) == primary_at(s@, i as int),
        r matches Some((_, k)) ==> i < k <= s@.len(),
    decreases s@.len() - i, 1int,
{
    let _len = s.len();
    let j = skip_ws_exec(s, i);
    proof { reveal_strlit("pi"); }
    if tag_at_exec(s, j, "pi") {
        return Some((ParamExpr::Pi, j + 2));
    }
    match number_end_exec(s, j) {
        Some(e) => Some((ParamExpr::Number(substring(s, j, e)), e)),
        None => {
            if char_at_exec(s, j, '(') {
                match expr_exec(s, j + 1) {
                    Some((e, k)) => if char_at_exec(s, k, ')') { Some((e, k + 1)) } else { None },
                    None => None,
                }
            } else {
                None
            }
        },
    }
}

/// The value of a string of decimal digits.
pub open spec fn digits_value(d: Seq<char>) -> nat
    decreases d.len(),
{
    if d.len() == 0 {
        0
    } else {
        digits_value(d.drop_last()) * 10 + ((d.last() as int) - ('0' as int)) as nat
    }
}

/// A register reference at `i`: an identifier, optional whitespace, `[`,
/// a decimal index that fits a `usize`, `]`, with whitespace allowed inside
/// the brackets.
pub open spec fn reg_ref_at(s: Seq<char>, i: int) -> Option<((Seq<char>, usize), int)> {
    match ident_end(s, i) {
        None => None,
        Some(e) => {
            let j = skip_ws(s, e);
            if !char_at(s, j, '[') {
                None
            } else {
                let j2 = skip_ws(s, j + 1);
                let d = digits_end(s, j2);
                if d == j2 || digits_value(s.subrange(j2, d)) > usize::MAX {
                    None
                } else {
                    let j3 = skip_ws(s, d);
                    if char_at(s, j3, ']') {
                        Some(((s.subrange(i, e), digits_value(s.subrange(j2, d)) as usize), j3 + 1))
                    } else {
                        None
                    }
                }
            }
        },
    }
}

/// More comma-separated register references after `acc`, at `k`; a comma
/// not followed by a reference is left unconsumed.
pub open spec fn reg_list_rest(s: Seq<char>, acc: Seq<(Seq<char>, usize)>, k: int) -> Option<(Seq<(Seq<char>, usize)>, int)>
    decreases s.len() - k,
{
    let j = skip_ws(s, k);
    if char_at(s, j, ',') {
        match reg_ref_at(s, skip_ws(s, j + 1)) {
            Some((r, k2)) => if k < k2 <= s.len() { reg_list_rest(s, acc.push(r), k2) } else { None },
            None => Some((acc, k)),
        }
    } else {
        Some((acc, k))
    }
}

/// One or more comma-separated register references at `i`.
pub open spec fn reg_list_at(s: Seq<char>, i: int) -> Option<(Seq<(Seq<char>, usize)>, int)> {
    match reg_ref_at(s, i) {
        Some((r, k)) => reg_list_rest(s, seq![r], k),
        None => None,
    }
}

/// More comma-separated expressions after `acc`, at `k`.
pub open spec fn expr_list_rest(s: Seq<char>, acc: Seq<ExprView>, k: int) -> Option<(Seq<ExprView>, int)>
    decreases s.len() - k,
{
    proof { lemma_skip_ws(s, k); }
    let j = skip_ws(s, k);
    if char_at(s, j, ',') {
        match expr_at(s, skip_ws(s, j + 1)) {
            Some((e, k2)) => if k < k2 <= s.len() { expr_list_rest(s, acc.push(e), k2) } else { None },
            None => Some((acc, k)),
        }
    } else {
        Some((acc, k))
    }
}

/// A parenthesised parameter list at `i`: `()` or expressions separated
/// by commas, the closing parenthesis right after the last one.
pub open spec fn params_at(s: Seq<char>, i: int) -> Option<(Seq<ExprView>, int)> {
    if !char_at(s, i, '(') {
        None
    } else {
        match expr_at(s, i + 1) {
            None => if char_at(s, i + 1, ')') { Some((Seq::empty(), i + 2)) } else { None },
            Some((e, k)) => match expr_list_rest(s, seq![e], k) {
                Some((es, k2)) => if char_at(s, k2, ')') { Some((es, k2 + 1)) } else { None },
                None => None,
            },
        }
    }
}

/// The first `"` at or after `i` (or the end).
pub open spec fn quote_end(s: Seq<char>, i: int) -> int
    decreases s.len() - i,
{
    if 0 <= i < s.len() && s[i] != '"' { quote_end(s, i + 1) } else { i }
}

/// `word`, then at least one whitespace character, at the start.
pub open spec fn keyword_end(s: Seq<char>, word: Seq<char>) -> Option<int> {
    if tag_at(s, 0, word) && skip_ws(s, word.len() as int) > word.len() { Some(skip_ws(s, word.len() as int)) } else { None }
}

/// `OPENQASM <number>` (the keyword in any case).
pub open spec fn header_at(s: Seq<char>) -> Option<(StmtView, int)> {
    if tag_any_case(s, 0, "openqasm"@, "OPENQASM"@) && skip_ws(s, 8) > 8 {
        match number_end(s, skip_ws(s, 8)) {
            Some(e) => Some((StmtView::Header(s.subrange(skip_ws(s, 8), e)), e)),
            None => None,
        }
    } else {
        None
    }
}

/// `include "<file>"`.
pub open spec fn include_at(s: Seq<char>) -> Option<(StmtView, int)> {
    match keyword_end(s, "include"@) {
        Some(j) => if char_at(s, j, '"') && char_at(s, quote_end(s, j + 1), '"') {
            Some((StmtView::Include(s.subrange(j + 1, quote_end(s, j + 1))), quote_end(s, j + 1) + 1))
        } else {
            None
        },
        None => None,
    }
}

/// `qreg name[size]`.
pub open spec fn qreg_at(s: Seq<char>) -> Option<(StmtView, int)> {
    match keyword_end(s, "qreg"@) {
        Some(j) => match reg_ref_at(s, j) {
            Some((r, k)) => Some((StmtView::Qreg(r.0, r.1), k)),
            None => None,
        },
        None => None,
    }
}

/// `creg name[size]`.
pub open spec fn creg_at(s: Seq<char>) -> Option<(StmtView, int)> {
    match keyword_end(s, "creg"@) {
        Some(j) => match reg_ref_at(s, j) {
            Some((r, k)) => Some((StmtView::Creg(r.0, r.1), k)),
            None => None,
        },
        None => None,
    }
}

/// `measure q -> c`.
pub open spec fn measure_at(s: Seq<char>) -> Option<(StmtView, int)> {
    match keyword_end(s, "measure"@) {
        Some(j) => match reg_ref_at(s, j) {
            Some((q, k)) => if tag_at(s, skip_ws(s, k), "->"@) {
                match reg_ref_at(s, skip_ws(s, skip_ws(s, k) + 2)) {
                    Some((c, k2)) => Some((StmtView::Measure { qubit: q, cbit: c }, k2)),
                    None => None,
                }
            } else {
                None
            },
            None => None,
        },
        None => None,
    }
}

/// `barrier q, ...`.
pub open spec fn barrier_at(s: Seq<char>) -> Option<(StmtView, int)> {
    match keyword_end(s, "barrier"@) {
        Some(j) => match reg_list_at(s, j) {
            Some((qs, k)) => Some((StmtView::Barrier(qs), k)),
            None => None,
        },
        None => None,
    }
}

/// `name(params) q, ...`, the parameter list optional.
pub open spec fn gate_at(s: Seq<char>) -> Option<(StmtView, int)> {
    match ident_end(s, 0) {
        None => None,
        Some(e) => {
            let ps: Option<(Seq<ExprView>, int)> = if char_at(s, e, '(') { params_at(s, e) } else { Some((Seq::empty(), e)) };
            match ps {
                None => None,
                Some((params, p)) => match reg_list_at(s, skip_ws(s, p)) {
                    Some((qs, k)) => Some((StmtView::Gate { name: s.subrange(0, e), params, qubits: qs }, k)),
                    None => None,
                },
            }
        },
    }
}

/// Everything from `e` on is whitespace.
pub open spec fn blank_from(s: Seq<char>, e: int) -> bool {
    forall|k: int| e <= k < s.len() ==> white_space(#[trigger] s[k])
}

/// The statement form read when it covers the text up to trailing
/// whitespace.
pub open spec fn whole(r: Option<(StmtView, int)>, s: Seq<char>) -> Option<StmtView> {
    match r {
        Some((st, e)) => if blank_from(s, e) { Some(st) } else { None },
        None => None,
    }
}

/// The statement a text is: the first of header, include, qreg, creg,
/// measure, barrier and gate that reads the whole text.
pub open spec fn statement_at(s: Seq<char>) -> Option<StmtView> {
    if whole(header_at(s), s) is Some { whole(header_at(s), s) }
    else if whole(include_at(s), s) is Some { whole(include_at(s), s) }
    else if whole(qreg_at(s), s) is Some { whole(qreg_at(s), s) }
    else if whole(creg_at(s), s) is Some { whole(creg_at(s), s) }
    else if whole(measure_at(s), s) is Some { whole(measure_at(s), s) }
    else if whole(barrier_at(s), s) is Some { whole(barrier_at(s), s) }
    else { whole(gate_at(s), s) }
}

proof fn lemma_digits_value_prefix(d: Seq<char>, k: int)
    requires
        0 <= k <= d.len(),
        forall|m: int| 0 <= m < d.len() ==> is_digit(#[trigger] d[m]),
    ensures
        digits_value(d.take(k)) <= digits_value(d),
    decreases d.len() - k,
{
    if k < d.len() {
        lemma_digits_value_prefix(d, k + 1);
        assert(d.take(k + 1).drop_last() =~= d.take(k));
    } else {
        assert(d.take(k) =~= d);
    }
}

fn digits_value_exec(s: &Vec<char>, a: usize, b: usize) -> (r: Option<usize>)
    requires
        a <= b <= s@.len(),
        forall|m: int| a <= m < b ==> is_digit(#[trigger] s@[m]),
    ensures
        r matches Some(v) ==> v == digits_value(s@.subrange(a as int, b as int)),
        r is None ==> digits_value(s@.subrange(a as int, b as int)) > usize::MAX,
{
    let ghost d = s@.subrange(a as int, b as int);
    let mut v: usize = 0;
    let mut k = a;
    while k < b
        invariant
            a <= k <= b,
            b <= s@.len(),
            d == s@.subrange(a as int, b as int),
            forall|m: int| a <= m < b ==> is_digit(#[trigger] s@[m]),
            v == digits_value(d.take(k - a)),
        decreases b - k,
    {
        assert(d.take(k - a + 1).drop_last() =~= d.take(k - a));
        assert(d.take(k - a + 1).last() == s@[k as int]);
        assert(is_digit(s@[k as int]));
        let digit = (s[k] as u32 - '0' as u32) as usize;
        let next = match v.checked_mul(10) {
            Some(t) => t.checked_add(digit),
            None => None,
        };
        match next {
            Some(n) => { v = n; },
            None => {
                proof {
                    assert forall|m: int| 0 <= m < d.len() implies is_digit(#[trigger] d[m]) by {
                        assert(d[m] == s@[a + m]);
                    }
                    lemma_digits_value_prefix(d, k - a + 1);
                }
                return None;
            },
        }
        k = k + 1;
    }
    assert(d.take(b - a) =~= d);
    Some(v)
}

/// The model of a register reference parse result.
pub open spec fn reg_parsed(r: Option<(RegRef, usize)>) -> Option<((Seq<char>, usize), int)> {
    match r {
        Some((x, k)) => Some((reg_view(x), k as int)),
        None => None,
    }
}

fn reg_ref_exec(s: &Vec<char>, i: usize) -> (r: Option<(RegRef, usize)>)
    requires
        i <= s@.len(),
    ensures
        reg_parsed(r) == reg_ref_at(s@, i as int),
        r matches Some((_, k)) ==> i < k <= s@.len(),
{
    let _len = s.len();
    let e = match ident_end_exec(s, i) {
        Some(e) => e,
        None => { return None; },
    };
    let j = skip_ws_exec(s, e);
    if !char_at_exec(s, j, '[') {
        return None;
    }
    let j2 = skip_ws_exec(s, j + 1);
    let d = digits_end_exec(s, j2);
    if d == j2 {
        return None;
    }
    proof { lemma_digits_end_all(s@, j2 as int); }
    let v = match digits_value_exec(s, j2, d) {
        Some(v) => v,
        None => { return None; },
    };
    let j3 = skip_ws_exec(s, d);
    if !char_at_exec(s, j3, ']') {
        return None;
    }
    Some((RegRef { name: substring(s, i, e), index: v }, j3 + 1))
}

proof fn lemma_digits_end_all(s: Seq<char>, i: int)
    requires
        0 <= i <= s.len(),
    ensures
        i <= digits_end(s, i) <= s.len(),
        forall|m: int| i <= m < digits_end(s, i) ==> is_digit(#[trigger] s[m]),
    decreases s.len() - i,
{
    if 0 <= i < s.len() && is_digit(s[i]) {
        lemma_digits_end_all(s, i + 1);
    }
}

/// The model of a register list parse result.
pub open spec fn regs_parsed(r: Option<(Vec<RegRef>, usize)>) -> Option<(Seq<(Seq<char>, usize)>, int)> {
    match r {
        Some((x, k)) => Some((regs_view(x@), k as int)),
        None => None,
    }
}

fn reg_list_exec(s: &Vec<char>, i: usize) -> (r: Option<(Vec<RegRef>, usize)>)
    requires
        i <= s@.len(),
    ensures
        regs_parsed(r) == reg_list_at(s@, i as int),
        r matches Some((_, k)) ==> i < k <= s@.len(),
{
    let len = s.len();
    let (first, mut k) = match reg_ref_exec(s, i) {
        Some(p) => p,
        None => { return None; },
    };
    let mut acc: Vec<RegRef> = Vec::new();
    acc.push(first);
    assert(regs_view(acc@) =~= seq![reg_view(first)]);
    loop
        invariant
            len == s@.len(),
            i < k <= s@.len(),
            reg_list_rest(s@, regs_view(acc@), k as int) == reg_list_at(s@, i as int),
        decreases s@.len() - k,
    {
        let j = skip_ws_exec(s, k);
        if !char_at_exec(s, j, ',') {
            return Some((acc, k));
        }
        let j2 = skip_ws_exec(s, j + 1);
        match reg_ref_exec(s, j2) {
            Some((r, k2)) => {
                let ghost before = regs_view(acc@);
                acc.push(r);
                assert(regs_view(acc@) =~= before.push(reg_view(r)));
                k = k2;
            },
            None => { return Some((acc, k)); },
        }
    }
}

/// The model of a parameter list parse result.
pub open spec fn exprs_parsed(r: Option<(Vec<ParamExpr>, usize)>) -> Option<(Seq<ExprView>, int)> {
    match r {
        Some((x, k)) => Some((x@.map_values(|e: ParamExpr| e@), k as int)),
        None => None,
    }
}

fn params_exec(s: &Vec<char>, i: usize) -> (r: Option<(Vec<ParamExpr>, usize)>)
    requires
        i <= s@.len(),
    ensures
        exprs_parsed(r) == params_at(s@, i as int),
        r matches Some((_, k)) ==> i < k <= s@.len(),
{
    let len = s.len();
    if !char_at_exec(s, i, '(') {
        return None;
    }
    let (first, mut k) = match expr_exec(s, i + 1) {
        Some(p) => p,
        None => {
            if char_at_exec(s, i + 1, ')') {
                let v: Vec<ParamExpr> = Vec::new();
                assert(v@.map_values(|e: ParamExpr| e@) =~= Seq::<ExprView>::empty());
                return Some((v, i + 2));
            }
            return None;
        },
    };
    let mut acc: Vec<ParamExpr> = Vec::new();
    acc.push(first);
    assert(acc@.map_values(|e: ParamExpr| e@) =~= seq![first@]);
    loop
        invariant
            len == s@.len(),
            i < k <= s@.len(),
            char_at(s@, i as int, '('),
            expr_at(s@, i as int + 1) is Some,
            expr_list_rest(s@, acc@.map_values(|e: ParamExpr| e@), k as int) == expr_list_rest(s@, seq![expr_at(s@, i as int + 1)->Some_0.0], expr_at(s@, i as int + 1)->Some_0.1),
        decreases s@.len() - k,
    {
        let j = skip_ws_exec(s, k);
        if !char_at_exec(s, j, ',') {
            if char_at_exec(s, k, ')') {
                return Some((acc, k + 1));
            }
            return None;
        }
        let j2 = skip_ws_exec(s, j + 1);
        match expr_exec(s, j2) {
            Some((e, k2)) => {
                let ghost before = acc@.map_values(|e: ParamExpr| e@);
                acc.push(e);
                assert(acc@.map_values(|e: ParamExpr| e@) =~= before.push(e@));
                k = k2;
            },
            None => {
                if char_at_exec(s, k, ')') {
                    return Some((acc, k + 1));
                }
                return None;
            },
        }
    }
}

/// The model of a statement parse result.
pub open spec fn stmt_parsed(r: Option<(QasmStmt, usize)>) -> Option<(StmtView, int)> {
    match r {
        Some((x, k)) => Some((x@, k as int)),
        None => None,
    }
}

fn keyword_end_exec(s: &Vec<char>, word: &str) -> (r: Option<usize>)
    ensures
        r matches Some(j) ==> keyword_end(s@, word@) == Some(j as int) && j <= s@.len(),
        r is None ==> keyword_end(s@, word@) is None,
{
    let n = word.unicode_len();
    if n > s.len() || !tag_at_exec(s, 0, word) {
        return None;
    }
    let j = skip_ws_exec(s, n);
    if j > n { Some(j) } else { None }
}

fn header_exec(s: &Vec<char>) -> (r: Option<(QasmStmt, usize)>)
    ensures
        stmt_parsed(r) == header_at(s@),
        r matches Some((_, k)) ==> k <= s@.len(),
{
    proof { reveal_strlit("openqasm"); reveal_strlit("OPENQASM"); }
    if !tag_any_case_exec(s, 0, "openqasm", "OPENQASM") {
        return None;
    }
    let j = skip_ws_exec(s, 8);
    if j <= 8 {
        return None;
    }
    match number_end_exec(s, j) {
        Some(e) => Some((QasmStmt::Header(substring(s, j, e)), e)),
        None => None,
    }
}

fn quote_end_exec(s: &Vec<char>, i: usize) -> (j: usize)
    requires
        i <= s@.len(),
    ensures
        j == quote_end(s@, i as int),
        i <= j <= s@.len(),
{
    let mut j = i;
    while j < s.len() && s[j] != '"'
        invariant
            i <= j <= s@.len(),
            quote_end(s@, j as int) == quote_end(s@, i as int),
        decreases s@.len() - j,
    {
        j = j + 1;
    }
    j
}

fn include_exec(s: &Vec<char>) -> (r: Option<(QasmStmt, usize)>)
    ensures
        stmt_parsed(r) == include_at(s@),
        r matches Some((_, k)) ==> k <= s@.len(),
{
    let _len = s.len();
    let j = match keyword_end_exec(s, "include") {
        Some(j) => j,
        None => { return None; },
    };
    if !char_at_exec(s, j, '"') {
        return None;
    }
    let f = quote_end_exec(s, j + 1);
    if !char_at_exec(s, f, '"') {
        return None;
    }
    Some((QasmStmt::Include(substring(s, j + 1, f)), f + 1))
}

fn reg_decl_exec(s: &Vec<char>, word: &str, quantum: bool) -> (r: Option<(QasmStmt, usize)>)
    ensures
        quantum ==> stmt_parsed(r) == (match keyword_end(s@, word@) {
            Some(j) => match reg_ref_at(s@, j) {
                Some((x, k)) => Some((StmtView::Qreg(x.0, x.1), k)),
                None => None,
            },
            None => None,
        }),
        !quantum ==> stmt_parsed(r) == (match keyword_end(s@, word@) {
            Some(j) => match reg_ref_at(s@, j) {
                Some((x, k)) => Some((StmtView::Creg(x.0, x.1), k)),
                None => None,
            },
            None => None,
        }),
        r matches Some((_, k)) ==> k <= s@.len(),
{
    let j = match keyword_end_exec(s, word) {
        Some(j) => j,
        None => { return None; },
    };
    match reg_ref_exec(s, j) {
        Some((x, k)) => Some((if quantum { QasmStmt::Qreg(x.name, x.index) } else { QasmStmt::Creg(x.name, x.index) }, k)),
        None => None,
    }
}

fn measure_exec(s: &Vec<char>) -> (r: Option<(QasmStmt, usize)>)
    ensures
        stmt_parsed(r) == measure_at(s@),
        r matches Some((_, k)) ==> k <= s@.len(),
{
    let _len = s.len();
    let j = match keyword_end_exec(s, "measure") {
        Some(j) => j,
        None => { return None; },
    };
    let (q, k) = match reg_ref_exec(s, j) {
        Some(p) => p,
        None => { return None; },
    };
    let a = skip_ws_exec(s, k);
    proof { reveal_strlit("->"); }
    if !tag_at_exec(s, a, "->") {
        return None;
    }
    let b = skip_ws_exec(s, a + 2);
    match reg_ref_exec(s, b) {
        Some((c, k2)) => Some((QasmStmt::Measure { qubit: q, cbit: c }, k2)),
        None => None,
    }
}

fn barrier_exec(s: &Vec<char>) -> (r: Option<(QasmStmt, usize)>)
    ensures
        stmt_parsed(r) == barrier_at(s@),
        r matches Some((_, k)) ==> k <= s@.len(),
{
    let j = match keyword_end_exec(s, "barrier") {
        Some(j) => j,
        None => { return None; },
    };
    match reg_list_exec(s, j) {
        Some((qs, k)) => Some((QasmStmt::Barrier(qs), k)),
        None => None,
    }
}

fn gate_exec(s: &Vec<char>) -> (r: Option<(QasmStmt, usize)>)
    ensures
        stmt_parsed(r) == gate_at(s@),
        r matches Some((_, k)) ==> k <= s@.len(),
{
    let e = match ident_end_exec(s, 0) {
        Some(e) => e,
        None => { return None; },
    };
    let (params, p) = if char_at_exec(s, e, '(') {
        match params_exec(s, e) {
            Some(x) => x,
            None => { return None; },
        }
    } else {
        let v: Vec<ParamExpr> = Vec::new();
        assert(v@.map_values(|x: ParamExpr| x@) =~= Seq::<ExprView>::empty());
        (v, e)
    };
    let j = skip_ws_exec(s, p);
    match reg_list_exec(s, j) {
        Some((qs, k)) => Some((QasmStmt::Gate { name: substring(s, 0, e), params, qubits: qs }, k)),
        None => None,
    }
}

fn blank_from_exec(s: &Vec<char>, e: usize) -> (b: bool)
    requires
        e <= s@.len(),
    ensures
        b == blank_from(s@, e as int),
{
    let mut k = e;
    while k < s.len()
        invariant
            e <= k <= s@.len(),
            forall|m: int| e <= m < k ==> white_space(#[trigger] s@[m]),
        decreases s@.len() - k,
    {
        if !is_whitespace(s[k]) {
            return false;
        }
        k = k + 1;
    }
    true
}

fn whole_exec(r: Option<(QasmStmt, usize)>, s: &Vec<char>) -> (w: Option<QasmStmt>)
    requires
        r matches Some((_, k)) ==> k <= s@.len(),
    ensures
        (match w { Some(x) => Some(x@), None => None }) == whole(stmt_parsed(r), s@),
{
    match r {
        Some((st, e)) => if blank_from_exec(s, e) { Some(st) } else { None },
        None => None,
    }
}

/// The statement the characters `s` form, if any (see `statement_at`).
fn statement_exec(s: &Vec<char>) -> (r: Option<QasmStmt>)
    ensures
        (match r { Some(x) => Some(x@), None => None }) == statement_at(s@),
{
    proof { reveal_strlit("qreg"); reveal_strlit("creg"); }
    let h = whole_exec(header_exec(s), s);
    if h.is_some() { return h; }
    let h = whole_exec(include_exec(s), s);
    if h.is_some() { return h; }
    let h = whole_exec(reg_decl_exec(s, "qreg", true), s);
    if h.is_some() { return h; }
    let h = whole_exec(reg_decl_exec(s, "creg", false), s);
    if h.is_some() { return h; }
    let h = whole_exec(measure_exec(s), s);
    if h.is_some() { return h; }
    let h = whole_exec(barrier_exec(s), s);
    if h.is_some() { return h; }
    whole_exec(gate_exec(s), s)
}

/// The pieces of `s` between occurrences of `c` (one more than there are
/// occurrences).
pub open spec fn split_on(s: Seq<char>, c: char) -> Seq<Seq<char>>
    decreases s.len(),
{
    if s.len() == 0 {
        seq![Seq::empty()]
    } else {
        let prev = split_on(s.drop_last(), c);
        if s.last() == c {
            prev.push(Seq::empty())
        } else {
            prev.update(prev.len() - 1, prev.last().push(s.last()))
        }
    }
}

pub proof fn lemma_split_on_nonempty(s: Seq<char>, c: char)
    ensures
        split_on(s, c).len() >= 1,
    decreases s.len(),
{
    if s.len() > 0 {
        lemma_split_on_nonempty(s.drop_last(), c);
    }
}

/// A line without its trailing carriage return.
pub open spec fn strip_cr(l: Seq<char>) -> Seq<char> {
    if l.len() > 0 && l.last() == '\r' { l.drop_last() } else { l }
}

/// The lines of a text: split at newlines, a carriage return before a
/// newline dropped, and no line after a final newline.
pub open spec fn text_lines(s: Seq<char>) -> Seq<Seq<char>> {
    let p = split_on(s, '\n');
    let body = p.drop_last().map_values(|l: Seq<char>| strip_cr(l));
    if p.last().len() == 0 { body } else { body.push(p.last()) }
}

/// Where the first `//` of a line starts, searching from `k`.
pub open spec fn comment_start(l: Seq<char>, k: int) -> Option<int>
    decreases l.len() - k,
{
    if 0 <= k && k + 1 < l.len() {
        if l[k] == '/' && l[k + 1] == '/' { Some(k) } else { comment_start(l, k + 1) }
    } else {
        None
    }
}

/// A line up to its first `//`.
pub open spec fn uncommented(l: Seq<char>) -> Seq<char> {
    match comment_start(l, 0) {
        Some(k) => l.take(k),
        None => l,
    }
}

/// Lines joined with newlines.
pub open spec fn join_lines(ls: Seq<Seq<char>>) -> Seq<char>
    decreases ls.len(),
{
    if ls.len() == 0 {
        Seq::empty()
    } else if ls.len() == 1 {
        ls[0]
    } else {
        join_lines(ls.drop_last()) + seq!['\n'] + ls.last()
    }
}

/// A text with every `//` comment removed, line by line.
pub open spec fn without_comments(s: Seq<char>) -> Seq<char> {
    join_lines(text_lines(s).map_values(|l: Seq<char>| uncommented(l)))
}

fn split_chars(s: &Vec<char>, c: char) -> (r: Vec<Vec<char>>)
    ensures
        r@.map_values(|x: Vec<char>| x@) == split_on(s@, c),
{
    let mut done: Vec<Vec<char>> = Vec::new();
    let mut cur: Vec<char> = Vec::new();
    let mut k: usize = 0;
    while k < s.len()
        invariant
            k <= s@.len(),
            done@.map_values(|x: Vec<char>| x@).push(cur@) == split_on(s@.take(k as int), c),
        decreases s@.len() - k,
    {
        assert(s@.take(k as int + 1).drop_last() =~= s@.take(k as int));
        let ghost before = done@.map_values(|x: Vec<char>| x@);
        let ghost old_cur = cur@;
        if s[k] == c {
            done.push(cur);
            cur = Vec::new();
            assert(done@.map_values(|x: Vec<char>| x@) =~= before.push(old_cur));
            assert(done@.map_values(|x: Vec<char>| x@).push(cur@) =~= split_on(s@.take(k as int + 1), c));
        } else {
            cur.push(s[k]);
            assert(before.push(old_cur).update(before.len() as int, old_cur.push(s@[k as int])) =~= before.push(cur@));
        }
        k = k + 1;
    }
    assert(s@.take(s@.len() as int) =~= s@);
    done.push(cur);
    done
}

/// A line of `v` (without a trailing carriage return when `strip`), cut
/// at its first `//`, appended to `out`.
fn push_line(out: &mut String, v: &Vec<char>, strip: bool)
    ensures
        final(out)@ == old(out)@ + uncommented(if strip { strip_cr(v@) } else { v@ }),
{
    let ghost l = if strip { strip_cr(v@) } else { v@ };
    let mut end = v.len();
    if strip && end > 0 && v[end - 1] == '\r' {
        end = end - 1;
    }
    assert(l =~= v@.take(end as int));
    let mut k: usize = 0;
    let mut cut = end;
    while cut == end && end > 0 && k < end - 1
        invariant
            end <= v@.len(),
            k <= end,
            l == v@.take(end as int),
            cut == end ==> comment_start(l, k as int) == comment_start(l, 0),
            cut != end ==> comment_start(l, 0) == Some(cut as int) && cut < end,
        decreases end - k,
    {
        if v[k] == '/' && v[k + 1] == '/' {
            cut = k;
            k = end;
        } else {
            k = k + 1;
        }
    }
    assert(l.take(cut as int) == uncommented(l));
    let mut m: usize = 0;
    let ghost start = out@;
    while m < cut
        invariant
            m <= cut <= end <= v@.len(),
            l == v@.take(end as int),
            out@ == start + l.take(m as int),
        decreases cut - m,
    {
        push_char(out, v[m]);
        m = m + 1;
        assert(out@ =~= start + l.take(m as int));
    }
}

/// The text with every `//` comment removed, line by line; lines are
/// joined with newlines.
pub fn strip_comments(input: &str) -> (r: String)
    ensures
        r@ == without_comments(input@),
{
    let chars = chars_of(input);
    let pieces = split_chars(&chars, '\n');
    let ghost p = split_on(input@, '\n');
    proof { lemma_split_on_nonempty(input@, '\n'); }
    let ghost ls = text_lines(input@).map_values(|l: Seq<char>| uncommented(l));
    let n = pieces.len();
    let mut out = String::new();
    let mut k: usize = 0;
    while k + 1 < n
        invariant
            n == pieces@.len(),
            n >= 1,
            p == pieces@.map_values(|x: Vec<char>| x@),
            ls == text_lines(input@).map_values(|l: Seq<char>| uncommented(l)),
            p == split_on(input@, '\n'),
            k + 1 <= n,
            out@ == join_lines(ls.take(k as int)),
        decreases n - k,
    {
        let ghost before = out@;
        assert(ls[k as int] == uncommented(strip_cr(pieces@[k as int]@)));
        if k > 0 {
            push_char(&mut out, '\n');
        }
        push_line(&mut out, &pieces[k], true);
        proof {
            let t = ls.take(k as int + 1);
            assert(t.drop_last() =~= ls.take(k as int));
            if k == 0 {
                assert(out@ =~= join_lines(t));
            } else {
                assert(out@ =~= join_lines(t));
            }
        }
        k = k + 1;
    }
    if pieces[n - 1].len() > 0 {
        assert(ls.len() == n);
        assert(ls[n - 1] == uncommented(pieces@[n - 1]@));
        if n > 1 {
            push_char(&mut out, '\n');
        }
        push_line(&mut out, &pieces[n - 1], false);
        assert(ls.take(n as int - 1) =~= ls.drop_last());
        assert(out@ =~= join_lines(ls));
    } else {
        assert(ls.take(n as int - 1) =~= ls);
    }
    out
}

/// The first position at or after `i` that is not whitespace.
pub open spec fn trim_start(l: Seq<char>, i: int) -> int
    decreases l.len() - i,
{
    if 0 <= i < l.len() && white_space(l[i]) { trim_start(l, i + 1) } else { i }
}

/// The end of `l[..j]` without trailing whitespace.
pub open spec fn trim_end(l: Seq<char>, j: int) -> int
    decreases j,
{
    if 0 < j <= l.len() && white_space(l[j - 1]) { trim_end(l, j - 1) } else { j }
}

/// `l` without leading and trailing whitespace.
pub open spec fn trimmed(l: Seq<char>) -> Seq<char> {
    let a = trim_start(l, 0);
    let b = trim_end(l, l.len() as int);
    if a < b { l.subrange(a, b) } else { Seq::empty() }
}

/// The trimmed pieces that are not empty, in order.
pub open spec fn nonblank_trimmed(ps: Seq<Seq<char>>) -> Seq<Seq<char>>
    decreases ps.len(),
{
    if ps.len() == 0 {
        Seq::empty()
    } else {
        let r = nonblank_trimmed(ps.drop_last());
        let t = trimmed(ps.last());
        if t.len() > 0 { r.push(t) } else { r }
    }
}

/// The statement texts of a source: comments removed, split at `;`,
/// trimmed, empty ones dropped.
pub open spec fn statement_texts(src: Seq<char>) -> Seq<Seq<char>> {
    nonblank_trimmed(split_on(without_comments(src), ';'))
}

/// Bytes a character takes in UTF-8.
pub open spec fn char_utf8_len(c: char) -> nat {
    if (c as u32) < 0x80 { 1 } else if (c as u32) < 0x800 { 2 } else if (c as u32) < 0x10000 { 3 } else { 4 }
}

/// Bytes a text takes in UTF-8.
pub open spec fn utf8_len(t: Seq<char>) -> nat
    decreases t.len(),
{
    if t.len() == 0 { 0 } else { utf8_len(t.drop_last()) + char_utf8_len(t.last()) }
}

/// How many characters of `t`, counting on from `k`, fit in `n` bytes.
pub open spec fn prefix_count(t: Seq<char>, n: nat, k: int) -> int
    decreases t.len() - k,
{
    if 0 <= k < t.len() && utf8_len(t.take(k + 1)) <= n { prefix_count(t, n, k + 1) } else { k }
}

/// The longest prefix of `t` that takes at most `n` bytes.
pub open spec fn bytes_prefix(t: Seq<char>, n: nat) -> Seq<char> {
    t.take(prefix_count(t, n, 0))
}

/// The first 60 bytes of `t` end on a character boundary (or `t` is
/// shorter): the cut a warning shows is well defined.
pub open spec fn cut_ok(t: Seq<char>) -> bool {
    utf8_len(t) <= 60 || utf8_len(bytes_prefix(t, 60)) == 60
}

/// The warning for a statement that is not recognized: its first 60 bytes.
pub open spec fn unrecognized_message(t: Seq<char>) -> Seq<char> {
    "Unrecognized: '"@ + bytes_prefix(t, 60) + "'"@
}

/// The statements and warnings a sequence of statement texts gives.
pub open spec fn parse_texts(ts: Seq<Seq<char>>) -> (Seq<StmtView>, Seq<Seq<char>>)
    decreases ts.len(),
{
    if ts.len() == 0 {
        (Seq::empty(), Seq::empty())
    } else {
        let (a, w) = parse_texts(ts.drop_last());
        match statement_at(ts.last()) {
            Some(st) => (a.push(st), w),
            None => (a, w.push(unrecognized_message(ts.last()))),
        }
    }
}

/// Every statement text that is not recognized can be cut for its warning.
pub open spec fn warnings_cuttable(src: Seq<char>) -> bool {
    forall|i: int| 0 <= i < statement_texts(src).len() && statement_at(#[trigger] statement_texts(src)[i]) is None
        ==> cut_ok(statement_texts(src)[i])
}

/// `p` holds what parsing `src` gives.
pub open spec fn parsed_program(src: Seq<char>, p: QasmProgram) -> bool {
    &&& p.statements@.map_values(|x: QasmStmt| x@) == parse_texts(statement_texts(src)).0
    &&& p.warnings@.map_values(|w: String| w@) == parse_texts(statement_texts(src)).1
}

fn char_utf8_len_exec(c: char) -> (n: usize)
    ensures
        n == char_utf8_len(c),
{
    let v = c as u32;
    if v < 0x80 { 1 } else if v < 0x800 { 2 } else if v < 0x10000 { 3 } else { 4 }
}

/// The warning for an unrecognized statement text, or `None` when its
/// first 60 bytes do not end on a character boundary.
fn unrecognized_warning(t: &Vec<char>) -> (r: Option<String>)
    ensures
        r is Some == cut_ok(t@),
        r matches Some(m) ==> m@ == unrecognized_message(t@),
{
    let mut used: usize = 0;
    let mut k: usize = 0;
    let mut shown = String::from_str("Unrecognized: '");
    let ghost start = shown@;
    while k < t.len() && used + char_utf8_len_exec(t[k]) <= 60
        invariant
            k <= t@.len(),
            used <= 60,
            used == utf8_len(t@.take(k as int)),
            prefix_count(t@, 60, k as int) == prefix_count(t@, 60, 0),
            shown@ == start + t@.take(k as int),
        decreases t@.len() - k,
    {
        assert(t@.take(k as int + 1).drop_last() =~= t@.take(k as int));
        used = used + char_utf8_len_exec(t[k]);
        push_char(&mut shown, t[k]);
        k = k + 1;
        assert(shown@ =~= start + t@.take(k as int));
    }
    proof {
        if k < t@.len() {
            assert(t@.take(k as int + 1).drop_last() =~= t@.take(k as int));
            lemma_utf8_len_prefix(t@, k as int + 1);
        } else {
            assert(t@.take(k as int) =~= t@);
        }
    }
    if k < t.len() && used < 60 {
        return None;
    }
    shown.append("'");
    Some(shown)
}

proof fn lemma_utf8_len_prefix(t: Seq<char>, k: int)
    requires
        0 <= k <= t.len(),
    ensures
        utf8_len(t.take(k)) <= utf8_len(t),
    decreases t.len() - k,
{
    if k < t.len() {
        lemma_utf8_len_prefix(t, k + 1);
        assert(t.take(k + 1).drop_last() =~= t.take(k));
    } else {
        assert(t.take(k) =~= t);
    }
}

fn trim_exec(v: &Vec<char>) -> (r: Vec<char>)
    ensures
        r@ == trimmed(v@),
{
    let mut a: usize = 0;
    while a < v.len() && is_whitespace(v[a])
        invariant
            a <= v@.len(),
            trim_start(v@, a as int) == trim_start(v@, 0),
        decreases v@.len() - a,
    {
        a = a + 1;
    }
    let mut b: usize = v.len();
    while b > 0 && is_whitespace(v[b - 1])
        invariant
            b <= v@.len(),
            trim_end(v@, b as int) == trim_end(v@, v@.len() as int),
        decreases b,
    {
        b = b - 1;
    }
    let mut r: Vec<char> = Vec::new();
    if a < b {
        let mut k = a;
        while k < b
            invariant
                a <= k <= b,
                b <= v@.len(),
                r@ == v@.subrange(a as int, k as int),
            decreases b - k,
        {
            r.push(v[k]);
            k = k + 1;
            assert(r@ =~= v@.subrange(a as int, k as int));
        }
    }
    assert(a < b ==> r@ =~= v@.subrange(a as int, b as int));
    r
}

proof fn lemma_nonblank_prefix(ps: Seq<Seq<char>>, k: int)
    requires
        0 <= k <= ps.len(),
    ensures
        nonblank_trimmed(ps.take(k)).len() <= nonblank_trimmed(ps).len(),
        forall|i: int| 0 <= i < nonblank_trimmed(ps.take(k)).len() ==>
            #[trigger] nonblank_trimmed(ps.take(k))[i] == nonblank_trimmed(ps)[i],
    decreases ps.len() - k,
{
    if k < ps.len() {
        lemma_nonblank_prefix(ps, k + 1);
        assert(ps.take(k + 1).drop_last() =~= ps.take(k));
        let a = nonblank_trimmed(ps.take(k));
        let b = nonblank_trimmed(ps.take(k + 1));
        assert forall|i: int| 0 <= i < a.len() implies #[trigger] a[i] == nonblank_trimmed(ps)[i] by {
            assert(a[i] == b[i]);
        }
    } else {
        assert(ps.take(k) =~= ps);
    }
}

/// Splits a source into statements. Comments are removed, the text is
/// split at `;`, each piece trimmed and empty pieces dropped; each piece is
/// read as a statement, or gives an `Unrecognized` warning. Gives `None`
/// when such a warning cannot be cut at 60 bytes on a character boundary.
pub fn parse_program(input: &str) -> (r: Option<QasmProgram>)
    ensures
        r is Some == warnings_cuttable(input@),
        r matches Some(p) ==> parsed_program(input@, p),
{
    let cleaned = strip_comments(input);
    let chars = chars_of(cleaned.as_str());
    let pieces = split_chars(&chars, ';');
    let ghost ps = split_on(without_comments(input@), ';');
    let mut statements: Vec<QasmStmt> = Vec::new();
    let mut warnings: Vec<String> = Vec::new();
    let mut k: usize = 0;
    while k < pieces.len()
        invariant
            k <= pieces@.len(),
            ps == pieces@.map_values(|x: Vec<char>| x@),
            ps == split_on(without_comments(input@), ';'),
            statements@.map_values(|x: QasmStmt| x@) == parse_texts(nonblank_trimmed(ps.take(k as int))).0,
            warnings@.map_values(|w: String| w@) == parse_texts(nonblank_trimmed(ps.take(k as int))).1,
            forall|i: int| 0 <= i < nonblank_trimmed(ps.take(k as int)).len()
                && statement_at(#[trigger] nonblank_trimmed(ps.take(k as int))[i]) is None
                ==> cut_ok(nonblank_trimmed(ps.take(k as int))[i]),
        decreases pieces@.len() - k,
    {
        let ghost tk = nonblank_trimmed(ps.take(k as int));
        assert(ps.take(k as int + 1).drop_last() =~= ps.take(k as int));
        assert(ps.take(k as int + 1).last() == pieces@[k as int]@);
        let t = trim_exec(&pieces[k]);
        if t.len() > 0 {
            let ghost tk1 = tk.push(t@);
            assert(tk1.drop_last() =~= tk);
            match statement_exec(&t) {
                Some(st) => {
                    let ghost before = statements@.map_values(|x: QasmStmt| x@);
                    statements.push(st);
                    assert(statements@.map_values(|x: QasmStmt| x@) =~= before.push(st@));
                },
                None => {
                    match unrecognized_warning(&t) {
                        Some(w) => {
                            let ghost before = warnings@.map_values(|w: String| w@);
                            warnings.push(w);
                            assert(warnings@.map_values(|w: String| w@) =~= before.push(w@));
                        },
                        None => {
                            proof {
                                lemma_nonblank_prefix(ps, k as int + 1);
                                assert(nonblank_trimmed(ps.take(k as int + 1))[tk.len() as int] == t@);
                            }
                            return None;
                        },
                    }
                },
            }
        }
        k = k + 1;
    }
    assert(ps.take(pieces@.len() as int) =~= ps);
    Some(QasmProgram { statements, warnings })
}

/// Splits a source into statements (see `parse_program`), for a source
/// whose unrecognized statements can all be cut for their warnings.
pub fn parse_qasm(input: &str) -> (p: QasmProgram)
    requires
        warnings_cuttable(input@),
    ensures
        parsed_program(input@, p),
{
    match parse_program(input) {
        Some(p) => p,
        None => QasmProgram { statements: Vec::new(), warnings: Vec::new() },
    }
}

} // verus!
