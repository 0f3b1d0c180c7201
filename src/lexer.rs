use vstd::prelude::*;

use crate::string_builder::{chars_of, collapse};
use crate::utility::LinedError;

verus! {

#[derive(Debug, Clone, Copy, PartialEq, Eq, Structural)]
pub enum Symbol {
    Asterix,
    Equal,
    Colon,
    Comma,
    ParenthesisOpen,
    ParenthesisClose,
    BraceOpen,
    BraceClose,
    Dot,
    Ampersand,
    Minus,
}

/// Target code copied into the output as it stands.
#[derive(Debug, Clone)]
pub struct Inline(pub String);

#[derive(Debug, Clone, Copy, PartialEq, Eq, Structural)]
pub enum ConditionKind {
    Eq,
    Less,
    More,
}

#[derive(Debug, Clone)]
pub enum Token {
    Symbol(Symbol),
    Label(String),
    Number(i32),
    Inline(Inline),
    CondKind(ConditionKind),
}

/// The mathematical value of a token: strings seen as character sequences.
pub enum TokenV {
    Symbol(Symbol),
    Label(Seq<char>),
    Number(i32),
    Inline(Seq<char>),
    CondKind(ConditionKind),
}

impl View for Token {
    type V = TokenV;

    open spec fn view(&self) -> TokenV {
        match self {
            Token::Symbol(s) => TokenV::Symbol(*s),
            Token::Label(l) => TokenV::Label(l@),
            Token::Number(n) => TokenV::Number(*n),
            Token::Inline(i) => TokenV::Inline(i.0@),
            Token::CondKind(k) => TokenV::CondKind(*k),
        }
    }
}

impl PartialEq for Token {
    fn eq(&self, o: &Token) -> (r: bool) {
        match (self, o) {
            (Token::Symbol(a), Token::Symbol(b)) => *a == *b,
            (Token::Label(a), Token::Label(b)) => *a == *b,
            (Token::Number(a), Token::Number(b)) => *a == *b,
            (Token::Inline(a), Token::Inline(b)) => a.0 == b.0,
            (Token::CondKind(a), Token::CondKind(b)) => *a == *b,
            _ => false,
        }
    }
}

impl vstd::std_specs::cmp::PartialEqSpecImpl for Token {
    open spec fn obeys_eq_spec() -> bool {
        true
    }

    open spec fn eq_spec(&self, o: &Token) -> bool {
        self@ == o@
    }
}

/// One source line that held at least one token.
#[derive(Debug, Clone)]
pub struct TokenLine {
    pub elements: Vec<Token>,
    pub org: String,
    pub line_number: usize,
}

pub open spec fn tokens_view(v: Seq<Token>) -> Seq<TokenV> {
    v.map_values(|t: Token| t@)
}

impl TokenLine {
    pub fn new(elements: Vec<Token>, org: String, line_number: usize) -> (r: TokenLine)
        ensures
            r.elements@ == elements@,
            r.org@ == org@,
            r.line_number == line_number,
    {
        TokenLine { elements, org, line_number }
    }

    /// A line with no tokens, standing for "no line at all".
    pub fn none() -> (r: TokenLine)
        ensures
            r.elements@.len() == 0,
            r.org@.len() == 0,
            r.line_number == usize::MAX,
    {
        TokenLine { elements: Vec::new(), org: String::new(), line_number: usize::MAX }
    }
}

impl Token {
    pub fn m_label(t: &str) -> (r: Token)
        ensures
            r@ == TokenV::Label(t@),
    {
        Token::Label(t.to_owned())
    }

    pub fn t_inline(t: String) -> (r: Token)
        ensures
            r@ == TokenV::Inline(t@),
    {
        Token::Inline(Inline(t))
    }

    pub fn is_exact_label(&self, t: &str) -> (r: bool)
        ensures
            r == (self@ == TokenV::Label(t@)),
    {
        match self {
            Token::Label(label) => {
                let owned = t.to_owned();
                *label == owned
            },
            _ => false,
        }
    }

    pub fn to_label(&self) -> (r: Option<String>)
        ensures
            r.is_some() == (self@ is Label),
            r.is_some() ==> self@ == TokenV::Label(r.unwrap()@),
    {
        match self {
            Token::Label(label) => Some(label.clone()),
            _ => None,
        }
    }

    pub fn to_cond(&self) -> (r: Option<ConditionKind>)
        ensures
            r.is_some() == (self@ is CondKind),
            r.is_some() ==> self@ == TokenV::CondKind(r.unwrap()),
    {
        match self {
            Token::CondKind(kind) => Some(*kind),
            _ => None,
        }
    }

    /// A copy of the token with the same value.
    pub fn duplicate(&self) -> (r: Token)
        ensures
            r@ == self@,
    {
        match self {
            Token::Symbol(s) => Token::Symbol(*s),
            Token::Label(l) => Token::Label(l.clone()),
            Token::Number(n) => Token::Number(*n),
            Token::Inline(i) => Token::Inline(Inline(i.0.clone())),
            Token::CondKind(k) => Token::CondKind(*k),
        }
    }
}

// ---------------------------------------------------------------------------
// Characters
pub open spec fn symbol_of(c: char) -> Option<Symbol> {
    if c == '(' {
        Some(Symbol::ParenthesisOpen)
    } else if c == ')' {
        Some(Symbol::ParenthesisClose)
    } else if c == '{' {
        Some(Symbol::BraceOpen)
    } else if c == '}' {
        Some(Symbol::BraceClose)
    } else if c == '*' {
        Some(Symbol::Asterix)
    } else if c == ',' {
        Some(Symbol::Comma)
    } else if c == '=' {
        Some(Symbol::Equal)
    } else if c == '.' {
        Some(Symbol::Dot)
    } else if c == '&' {
        Some(Symbol::Ampersand)
    } else if c == '-' {
        Some(Symbol::Minus)
    } else if c == ':' {
        Some(Symbol::Colon)
    } else {
        None
    }
}

pub open spec fn is_digit(c: char) -> bool {
    '0' <= c && c <= '9'
}

/// Unicode's White_Space property, which `char::is_whitespace` tests.
pub open spec fn is_white(c: char) -> bool {
    ('\u{9}' <= c && c <= '\u{d}') || c == ' ' || c == '\u{85}' || c == '\u{a0}'
        || c == '\u{1680}' || ('\u{2000}' <= c && c <= '\u{200a}') || c == '\u{2028}'
        || c == '\u{2029}' || c == '\u{202f}' || c == '\u{205f}' || c == '\u{3000}'
}

fn char_character_as_symbol(ch: char) -> (r: Option<Symbol>)
    ensures
        r == symbol_of(ch),
{
    match ch {
        '(' => Some(Symbol::ParenthesisOpen),
        ')' => Some(Symbol::ParenthesisClose),
        '{' => Some(Symbol::BraceOpen),
        '}' => Some(Symbol::BraceClose),
        '*' => Some(Symbol::Asterix),
        ',' => Some(Symbol::Comma),
        '=' => Some(Symbol::Equal),
        '.' => Some(Symbol::Dot),
        '&' => Some(Symbol::Ampersand),
        '-' => Some(Symbol::Minus),
        ':' => Some(Symbol::Colon),
        _ => None,
    }
}

fn is_simple_number(chr: char) -> (r: bool)
    ensures
        r == is_digit(chr),
{
    chr >= '0' && chr <= '9'
}

pub fn is_white_space(c: char) -> (r: bool)
    ensures
        r == is_white(c),
{
    ('\u{9}' <= c && c <= '\u{d}') || c == ' ' || c == '\u{85}' || c == '\u{a0}' || c
        == '\u{1680}' || ('\u{2000}' <= c && c <= '\u{200a}') || c == '\u{2028}' || c
        == '\u{2029}' || c == '\u{202f}' || c == '\u{205f}' || c == '\u{3000}'
}

/// Whether `p` stands in `t` from position `pos` on.
pub open spec fn starts_at(t: Seq<char>, pos: int, p: Seq<char>) -> bool {
    0 <= pos && pos + p.len() <= t.len() && t.subrange(pos, pos + p.len()) == p
}

fn char_array_starts_with(t: &Vec<char>, pos: usize, pattern: &Vec<char>) -> (r: bool)
    requires
        pos <= t@.len(),
    ensures
        r == starts_at(t@, pos as int, pattern@),
{
    let tl = t.len();
    if pattern.len() > tl - pos {
        return false;
    }
    let mut i: usize = 0;
    while i < pattern.len()
        invariant
            i <= pattern@.len(),
            tl == t@.len(),
            pos <= t@.len(),
            pos + pattern@.len() <= t@.len(),
            forall|k: int| 0 <= k < i ==> t@[pos + k] == pattern@[k],
        decreases pattern@.len() - i,
    {
        if pattern[i] != t[pos + i] {
            assert(t@.subrange(pos as int, pos + pattern@.len())[i as int] != pattern@[i as int]);
            return false;
        }
        i += 1;
    }
    assert(t@.subrange(pos as int, pos + pattern@.len()) =~= pattern@);
    true
}

// ---------------------------------------------------------------------------
// The lexing of one line
/// The first position from `pos` on that holds no white space.
pub open spec fn skip_ws(t: Seq<char>, pos: int) -> int
    decreases t.len() - pos,
{
    if 0 <= pos < t.len() && is_white(t[pos]) {
        skip_ws(t, pos + 1)
    } else {
        pos
    }
}

/// The end of the run from `i` on of characters that are neither white space nor symbols.
pub open spec fn label_end(t: Seq<char>, i: int) -> int
    decreases t.len() - i,
{
    if 0 <= i < t.len() && !is_white(t[i]) && symbol_of(t[i]).is_none() {
        label_end(t, i + 1)
    } else {
        i
    }
}

/// The end of the run of digits from `i` on.
pub open spec fn digits_end(t: Seq<char>, i: int) -> int
    decreases t.len() - i,
{
    if 0 <= i < t.len() && is_digit(t[i]) {
        digits_end(t, i + 1)
    } else {
        i
    }
}

/// The value of the decimal digits `t[a..b]`.
pub open spec fn digits_value(t: Seq<char>, a: int, b: int) -> int
    decreases b - a,
{
    if b <= a {
        0
    } else {
        digits_value(t, a, b - 1) * 10 + (t[b - 1] as int - '0' as int)
    }
}

pub open spec fn cond_keyword_at(t: Seq<char>, p: int) -> Option<(ConditionKind, int)> {
    if starts_at(t, p, seq!['E', 'Q']) {
        Some((ConditionKind::Eq, 2))
    } else if starts_at(t, p, seq!['L', 'E', 'S', 'S']) {
        Some((ConditionKind::Less, 4))
    } else if starts_at(t, p, seq!['M', 'O', 'R', 'E']) {
        Some((ConditionKind::More, 4))
    } else {
        None
    }
}

/// What the lexer finds at a position of a line.
pub enum LexStep {
    /// Nothing but white space or a comment is left.
    Done,
    /// A token, and the position after it.
    Next(TokenV, int),
    /// An integer literal that does not fit in 32 bits.
    Overflow,
}

pub open spec fn lex_step(t: Seq<char>, pos: int) -> LexStep {
    let p = skip_ws(t, pos);
    if p >= t.len() {
        LexStep::Done
    } else if p + 1 < t.len() && t[p] == '/' && t[p + 1] == '/' {
        LexStep::Done
    } else if cond_keyword_at(t, p).is_some() {
        let (k, n) = cond_keyword_at(t, p).unwrap();
        LexStep::Next(TokenV::CondKind(k), p + n)
    } else if symbol_of(t[p]).is_some() {
        LexStep::Next(TokenV::Symbol(symbol_of(t[p]).unwrap()), p + 1)
    } else if !is_digit(t[p]) {
        let e = label_end(t, p + 1);
        LexStep::Next(TokenV::Label(t.subrange(p, e)), e)
    } else {
        let e = digits_end(t, p + 1);
        let v = digits_value(t, p, e);
        if v > i32::MAX {
            LexStep::Overflow
        } else {
            LexStep::Next(TokenV::Number(v as i32), e)
        }
    }
}

proof fn lemma_skip_ws(t: Seq<char>, pos: int)
    requires
        0 <= pos,
    ensures
        pos <= skip_ws(t, pos),
        skip_ws(t, pos) < t.len() ==> !is_white(t[skip_ws(t, pos)]),
        forall|k: int| pos <= k < skip_ws(t, pos) ==> is_white(t[k]),
    decreases t.len() - pos,
{
    if 0 <= pos < t.len() && is_white(t[pos]) {
        lemma_skip_ws(t, pos + 1);
    }
}

proof fn lemma_label_end(t: Seq<char>, i: int)
    requires
        0 <= i <= t.len(),
    ensures
        i <= label_end(t, i) <= t.len(),
        label_end(t, i) < t.len() ==> (is_white(t[label_end(t, i)]) || symbol_of(
            t[label_end(t, i)],
        ).is_some()),
        forall|k: int|
            i <= k < label_end(t, i) ==> !is_white(t[k]) && symbol_of(t[k]).is_none(),
    decreases t.len() - i,
{
    if 0 <= i < t.len() && !is_white(t[i]) && symbol_of(t[i]).is_none() {
        lemma_label_end(t, i + 1);
    }
}

proof fn lemma_digits_end(t: Seq<char>, i: int)
    requires
        0 <= i <= t.len(),
    ensures
        i <= digits_end(t, i) <= t.len(),
        digits_end(t, i) < t.len() ==> !is_digit(t[digits_end(t, i)]),
        forall|k: int| i <= k < digits_end(t, i) ==> is_digit(t[k]),
    decreases t.len() - i,
{
    if 0 <= i < t.len() && is_digit(t[i]) {
        lemma_digits_end(t, i + 1);
    }
}

proof fn lemma_digits_value_grows(t: Seq<char>, a: int, b: int)
    requires
        a <= b,
        forall|k: int| a <= k < b ==> is_digit(t[k]),
    ensures
        0 <= digits_value(t, a, b),
        digits_value(t, a, b - 1) <= digits_value(t, a, b),
    decreases b - a,
{
    if b > a {
        lemma_digits_value_grows(t, a, b - 1);
    }
}

/// A step of the lexer never stands still.
pub proof fn lemma_lex_step_advances(t: Seq<char>, pos: int)
    requires
        0 <= pos,
    ensures
        lex_step(t, pos) matches LexStep::Next(_, q) ==> pos < q <= t.len(),
{
    lemma_skip_ws(t, pos);
    let p = skip_ws(t, pos);
    if p < t.len() {
        lemma_label_end(t, p + 1);
        lemma_digits_end(t, p + 1);
    }
}

/// The tokens of a line from `pos` on; `None` where a literal overflows.
pub open spec fn lex_from(t: Seq<char>, pos: int) -> Option<Seq<TokenV>>
    decreases t.len() - pos,
{
    if pos < 0 {
        None
    } else {
        match lex_step(t, pos) {
            LexStep::Done => Some(Seq::empty()),
            LexStep::Overflow => None,
            LexStep::Next(tok, q) => {
                proof {
                    lemma_lex_step_advances(t, pos);
                }
                match lex_from(t, q) {
                    Some(rest) => Some(seq![tok] + rest),
                    None => None,
                }
            },
        }
    }
}

/// Strips white space at both ends.
pub open spec fn trim_start(s: Seq<char>) -> Seq<char>
    decreases s.len(),
{
    if s.len() > 0 && is_white(s[0]) {
        trim_start(s.drop_first())
    } else {
        s
    }
}

pub open spec fn trim_end(s: Seq<char>) -> Seq<char>
    decreases s.len(),
{
    if s.len() > 0 && is_white(s.last()) {
        trim_end(s.drop_last())
    } else {
        s
    }
}

pub open spec fn trim(s: Seq<char>) -> Seq<char> {
    trim_end(trim_start(s))
}

/// The tokens of one line, after trimming: one inline token where the line
/// starts with `%`, else what the lexer finds.
pub open spec fn line_tokens(line: Seq<char>) -> Option<Seq<TokenV>> {
    let t = trim(line);
    if t.len() == 0 {
        Some(Seq::empty())
    } else if t[0] == '%' {
        Some(seq![TokenV::Inline(t.subrange(1, t.len() as int))])
    } else {
        lex_from(t, 0)
    }
}

pub fn trim_chars(t: &Vec<char>) -> (r: Vec<char>)
    ensures
        r@ == trim(t@),
{
    let mut a: usize = 0;
    assert(t@.subrange(0, t@.len() as int) =~= t@);
    while a < t.len() && is_white_space(t[a])
        invariant
            a <= t@.len(),
            trim_start(t@) == trim_start(t@.subrange(a as int, t@.len() as int)),
        decreases t@.len() - a,
    {
        assert(t@.subrange(a as int, t@.len() as int).drop_first() =~= t@.subrange(
            a + 1,
            t@.len() as int,
        ));
        a += 1;
    }
    let ghost s = t@.subrange(a as int, t@.len() as int);
    assert(trim_start(t@) == s);
    let mut b: usize = t.len();
    while b > a && is_white_space(t[b - 1])
        invariant
            a <= b <= t@.len(),
            s == t@.subrange(a as int, t@.len() as int),
            trim_end(s) == trim_end(t@.subrange(a as int, b as int)),
        decreases b,
    {
        assert(t@.subrange(a as int, b as int).drop_last() =~= t@.subrange(a as int, b - 1));
        b -= 1;
    }
    let mut r: Vec<char> = Vec::new();
    let mut k: usize = a;
    while k < b
        invariant
            a <= k <= b <= t@.len(),
            r@ =~= t@.subrange(a as int, k as int),
        decreases b - k,
    {
        r.push(t[k]);
        k += 1;
    }
    r
}

fn keyword(c0: char, c1: char, c2: char, c3: char, n: usize) -> (r: Vec<char>)
    requires
        n == 2 || n == 4,
    ensures
        n == 2 ==> r@ == seq![c0, c1],
        n == 4 ==> r@ == seq![c0, c1, c2, c3],
{
    let mut r: Vec<char> = Vec::new();
    r.push(c0);
    r.push(c1);
    if n == 4 {
        r.push(c2);
        r.push(c3);
    }
    r
}

/// Reads the token at `pos` of a trimmed line: `Ok(None)` when only white
/// space or a comment is left, `Err` when an integer literal overflows.
fn tokenize_next(t: &Vec<char>, pos: usize) -> (r: Result<Option<(Token, usize)>, String>)
    requires
        pos <= t@.len(),
    ensures
        match lex_step(t@, pos as int) {
            LexStep::Done => r == Ok::<Option<(Token, usize)>, String>(None),
            LexStep::Overflow => r is Err,
            LexStep::Next(tok, q) => r is Ok && r->Ok_0 is Some && r->Ok_0->Some_0.0@ == tok
                && r->Ok_0->Some_0.1 == q,
        },
{
    proof {
        lemma_skip_ws(t@, pos as int);
    }
    let mut p = pos;
    while p < t.len() && is_white_space(t[p])
        invariant
            pos <= p <= t@.len(),
            skip_ws(t@, pos as int) == skip_ws(t@, p as int),
        decreases t@.len() - p,
    {
        p += 1;
    }
    assert(p == skip_ws(t@, pos as int));
    if p >= t.len() {
        return Ok(None);
    }
    if p + 1 < t.len() && t[p] == '/' && t[p + 1] == '/' {
        return Ok(None);
    }
    if char_array_starts_with(t, p, &keyword('E', 'Q', ' ', ' ', 2)) {
        return Ok(Some((Token::CondKind(ConditionKind::Eq), p + 2)));
    }
    if char_array_starts_with(t, p, &keyword('L', 'E', 'S', 'S', 4)) {
        return Ok(Some((Token::CondKind(ConditionKind::Less), p + 4)));
    }
    if char_array_starts_with(t, p, &keyword('M', 'O', 'R', 'E', 4)) {
        return Ok(Some((Token::CondKind(ConditionKind::More), p + 4)));
    }
    if let Some(s) = char_character_as_symbol(t[p]) {
        return Ok(Some((Token::Symbol(s), p + 1)));
    }
    if !is_simple_number(t[p]) {
        let mut i = p + 1;
        while i < t.len() && !is_white_space(t[i]) && char_character_as_symbol(t[i]).is_none()
            invariant
                p < i <= t@.len(),
                label_end(t@, p + 1) == label_end(t@, i as int),
            decreases t@.len() - i,
        {
            i += 1;
        }
        let mut text: Vec<char> = Vec::new();
        let mut k = p;
        while k < i
            invariant
                p <= k <= i <= t@.len(),
                text@ =~= t@.subrange(p as int, k as int),
            decreases i - k,
        {
            text.push(t[k]);
            k += 1;
        }
        Ok(Some((Token::Label(collapse(text)), i)))
    } else {
        let mut e = p + 1;
        while e < t.len() && is_simple_number(t[e])
            invariant
                p < e <= t@.len(),
                digits_end(t@, p + 1) == digits_end(t@, e as int),
            decreases t@.len() - e,
        {
            e += 1;
        }
        proof {
            lemma_digits_end(t@, p + 1);
        }
        assert(lex_step(t@, pos as int) == (if digits_value(t@, p as int, e as int) > i32::MAX {
            LexStep::Overflow
        } else {
            LexStep::Next(TokenV::Number(digits_value(t@, p as int, e as int) as i32), e as int)
        }));
        let mut value: i32 = 0;
        let mut i = p;
        while i < e
            invariant
                lex_step(t@, pos as int) == (if digits_value(t@, p as int, e as int) > i32::MAX {
                    LexStep::Overflow
                } else {
                    LexStep::Next(
                        TokenV::Number(digits_value(t@, p as int, e as int) as i32),
                        e as int,
                    )
                }),
                p <= i <= e,
                e == digits_end(t@, p + 1),
                e <= t@.len(),
                forall|k: int| p <= k < e ==> is_digit(t@[k]),
                value == digits_value(t@, p as int, i as int),
            decreases e - i,
        {
            let d = (t[i] as u32 - '0' as u32) as i32;
            proof {
                lemma_digits_value_grows(t@, p as int, i as int);
            }
            if value > (i32::MAX - d) / 10 {
                proof {
                    let v = value as int;
                    let dd = d as int;
                    assert(v * 10 + dd > i32::MAX) by (nonlinear_arith)
                        requires
                            v > (i32::MAX - dd) / 10,
                            0 <= dd <= 9,
                    ;
                    lemma_digits_value_monotone(t@, p as int, i + 1, e as int);
                }
                return Err("integer literal does not fit in 32 bits".to_owned());
            }
            value = value * 10 + d;
            i += 1;
        }
        Ok(Some((Token::Number(value), e)))
    }
}

proof fn lemma_digits_value_monotone(t: Seq<char>, a: int, b: int, c: int)
    requires
        a <= b <= c,
        forall|k: int| a <= k < c ==> is_digit(t[k]),
    ensures
        digits_value(t, a, b) <= digits_value(t, a, c),
    decreases c - b,
{
    if c > b {
        lemma_digits_value_grows(t, a, c);
        lemma_digits_value_monotone(t, a, b, c - 1);
    }
}

} // verus!

verus! {

// ---------------------------------------------------------------------------
// Lines
/// The position of the first line feed from `i` on, or the length.
pub open spec fn newline_from(s: Seq<char>, i: int) -> int
    decreases s.len() - i,
{
    if 0 <= i < s.len() && s[i] != '\n' {
        newline_from(s, i + 1)
    } else {
        i
    }
}

pub proof fn lemma_newline_from(s: Seq<char>, i: int)
    requires
        0 <= i <= s.len(),
    ensures
        i <= newline_from(s, i) <= s.len(),
        newline_from(s, i) < s.len() ==> s[newline_from(s, i)] == '\n',
    decreases s.len() - i,
{
    if 0 <= i < s.len() && s[i] != '\n' {
        lemma_newline_from(s, i + 1);
    }
}

/// A line ended by `\r\n` loses its `\r`.
pub open spec fn line_at(s: Seq<char>, i: int, j: int) -> Seq<char> {
    if j < s.len() && j > i && s[j - 1] == '\r' {
        s.subrange(i, j - 1)
    } else {
        s.subrange(i, j)
    }
}

/// The lines of `s` from position `i` on, as `str::lines` splits them.
pub open spec fn lines_from(s: Seq<char>, i: int) -> Seq<Seq<char>>
    decreases s.len() - i,
    via lines_from_decreases
{
    if i < 0 || i >= s.len() {
        Seq::empty()
    } else {
        if newline_from(s, i) >= s.len() {
            seq![line_at(s, i, newline_from(s, i))]
        } else {
            seq![line_at(s, i, newline_from(s, i))] + lines_from(s, newline_from(s, i) + 1)
        }
    }
}

#[via_fn]
pub proof fn lines_from_decreases(s: Seq<char>, i: int) {
    if 0 <= i < s.len() {
        lemma_newline_from(s, i);
    }
}

pub open spec fn lines_of(s: Seq<char>) -> Seq<Seq<char>> {
    lines_from(s, 0)
}

/// Splits a text into its lines.
pub fn split_lines(s: &Vec<char>) -> (r: Vec<Vec<char>>)
    ensures
        r@.len() == lines_of(s@).len(),
        forall|k: int| 0 <= k < r@.len() ==> #[trigger] r@[k]@ == lines_of(s@)[k],
{
    let mut r: Vec<Vec<char>> = Vec::new();
    let mut i: usize = 0;
    let ghost done: Seq<Seq<char>> = Seq::empty();
    while i < s.len()
        invariant
            i <= s@.len(),
            r@.len() == done.len(),
            forall|k: int| 0 <= k < r@.len() ==> #[trigger] r@[k]@ == done[k],
            lines_of(s@) == done + lines_from(s@, i as int),
        decreases s@.len() - i,
    {
        proof {
            lemma_newline_from(s@, i as int);
        }
        let mut j = i;
        while j < s.len() && s[j] != '\n'
            invariant
                i <= j <= s@.len(),
                newline_from(s@, i as int) == newline_from(s@, j as int),
            decreases s@.len() - j,
        {
            j += 1;
        }
        let end = if j < s.len() && j > i && s[j - 1] == '\r' {
            j - 1
        } else {
            j
        };
        let mut line: Vec<char> = Vec::new();
        let mut k = i;
        while k < end
            invariant
                i <= k <= end <= s@.len(),
                line@ =~= s@.subrange(i as int, k as int),
            decreases end - k,
        {
            line.push(s[k]);
            k += 1;
        }
        assert(line@ == line_at(s@, i as int, j as int));
        proof {
            assert(lines_from(s@, i as int) == seq![line@] + lines_from(s@, j + 1));
            assert(done + lines_from(s@, i as int) =~= done.push(line@) + lines_from(s@, j + 1));
            done = done.push(line@);
        }
        r.push(line);
        i = if j < s.len() {
            j + 1
        } else {
            j
        };
        assert(lines_from(s@, i as int) == lines_from(s@, j + 1)) by {
            if j >= s.len() {
                assert(lines_from(s@, j + 1) =~= Seq::<Seq<char>>::empty());
            }
        };
    }
    assert(lines_from(s@, i as int) =~= Seq::<Seq<char>>::empty());
    assert(done + Seq::<Seq<char>>::empty() =~= done);
    r
}

// ---------------------------------------------------------------------------
// Lines of tokens
pub open spec fn prefix_tokens(p: Seq<TokenV>, o: Option<Seq<TokenV>>) -> Option<Seq<TokenV>> {
    match o {
        Some(rest) => Some(p + rest),
        None => None,
    }
}

fn tokenize_chars(line: &Vec<char>) -> (r: Result<Vec<Token>, String>)
    ensures
        match line_tokens(line@) {
            Some(ts) => r is Ok && tokens_view(r->Ok_0@) == ts,
            None => r is Err,
        },
{
    let t = trim_chars(line);
    if t.len() == 0 {
        let v: Vec<Token> = Vec::new();
        assert(tokens_view(v@) =~= Seq::<TokenV>::empty());
        return Ok(v);
    }
    if t[0] == '%' {
        let mut text: Vec<char> = Vec::new();
        let mut k: usize = 1;
        while k < t.len()
            invariant
                1 <= k <= t@.len(),
                text@ =~= t@.subrange(1, k as int),
            decreases t@.len() - k,
        {
            text.push(t[k]);
            k += 1;
        }
        let mut v: Vec<Token> = Vec::new();
        v.push(Token::t_inline(collapse(text)));
        assert(tokens_view(v@) =~= seq![TokenV::Inline(t@.subrange(1, t@.len() as int))]);
        return Ok(v);
    }
    let mut tokens: Vec<Token> = Vec::new();
    let mut ptr: usize = 0;
    assert(tokens_view(tokens@) + Seq::<TokenV>::empty() =~= Seq::<TokenV>::empty());
    assert(prefix_tokens(tokens_view(tokens@), lex_from(t@, 0)) == lex_from(t@, 0)) by {
        assert(tokens_view(tokens@) =~= Seq::<TokenV>::empty());
        if lex_from(t@, 0) is Some {
            assert(Seq::<TokenV>::empty() + lex_from(t@, 0)->Some_0 =~= lex_from(t@, 0)->Some_0);
        }
    };
    loop
        invariant
            ptr <= t@.len(),
            line_tokens(line@) == lex_from(t@, 0),
            lex_from(t@, 0) == prefix_tokens(tokens_view(tokens@), lex_from(t@, ptr as int)),
        decreases t@.len() - ptr,
    {
        let step = tokenize_next(&t, ptr);
        proof {
            lemma_lex_step_advances(t@, ptr as int);
        }
        match step {
            Err(e) => {
                return Err(e);
            },
            Ok(None) => {
                assert(tokens_view(tokens@) + Seq::<TokenV>::empty() =~= tokens_view(tokens@));
                return Ok(tokens);
            },
            Ok(Some((tok, q))) => {
                let ghost old_tokens = tokens@;
                tokens.push(tok);
                proof {
                    assert(tokens_view(tokens@) =~= tokens_view(old_tokens) + seq![tok@]);
                    if lex_from(t@, q as int) is Some {
                        let rest = lex_from(t@, q as int)->Some_0;
                        assert(tokens_view(old_tokens) + (seq![tok@] + rest) =~= tokens_view(
                            tokens@,
                        ) + rest);
                    }
                }
                ptr = q;
            },
        }
    }
}

/// The tokens of one line of source.
pub fn tokenize_line(t: &str) -> (r: Result<Vec<Token>, String>)
    ensures
        match line_tokens(t@) {
            Some(ts) => r is Ok && tokens_view(r->Ok_0@) == ts,
            None => r is Err,
        },
{
    let chars = chars_of(t);
    tokenize_chars(&chars)
}

/// The value of a line of tokens.
pub struct TokenLineV {
    pub elements: Seq<TokenV>,
    pub org: Seq<char>,
    pub line_number: nat,
}

impl View for TokenLine {
    type V = TokenLineV;

    open spec fn view(&self) -> TokenLineV {
        TokenLineV {
            elements: tokens_view(self.elements@),
            org: self.org@,
            line_number: self.line_number as nat,
        }
    }
}

pub open spec fn token_lines_view(v: Seq<TokenLine>) -> Seq<TokenLineV> {
    v.map_values(|l: TokenLine| l@)
}

/// The lines of tokens of `ls[i..]`; lines without tokens are dropped.
/// `Err(k)` names the first line whose integer literal overflows.
pub open spec fn lex_lines(ls: Seq<Seq<char>>, i: int) -> Result<Seq<TokenLineV>, nat>
    decreases ls.len() - i,
{
    if i < 0 || i >= ls.len() {
        Ok(Seq::empty())
    } else {
        match line_tokens(ls[i]) {
            None => Err(i as nat),
            Some(ts) => match lex_lines(ls, i + 1) {
                Err(k) => Err(k),
                Ok(rest) => Ok(
                    if ts.len() == 0 {
                        rest
                    } else {
                        seq![TokenLineV { elements: ts, org: trim(ls[i]), line_number: i as nat }]
                            + rest
                    },
                ),
            },
        }
    }
}

/// What the lexer makes of a whole source text.
pub open spec fn lex_text(s: Seq<char>) -> Result<Seq<TokenLineV>, nat> {
    lex_lines(lines_of(s), 0)
}

pub open spec fn prefix_lines(p: Seq<TokenLineV>, o: Result<Seq<TokenLineV>, nat>) -> Result<
    Seq<TokenLineV>,
    nat,
> {
    match o {
        Ok(rest) => Ok(p + rest),
        Err(k) => Err(k),
    }
}

/// Turns source text into lines of tokens, each with its trimmed text and
/// its line number (from 0).
pub fn tokenize(t: &str) -> (r: Result<Vec<TokenLine>, LinedError>)
    ensures
        match lex_text(t@) {
            Ok(ls) => r is Ok && token_lines_view(r->Ok_0@) == ls,
            Err(k) => r is Err && r->Err_0.line == k,
        },
        r is Ok ==> forall|k: int|
            0 <= k < r->Ok_0@.len() ==> #[trigger] r->Ok_0@[k].elements@.len() > 0,
{
    let chars = chars_of(t);
    let lines = split_lines(&chars);
    let ghost ls = lines_of(t@);
    let mut token_lines: Vec<TokenLine> = Vec::new();
    let mut i: usize = 0;
    assert(prefix_lines(token_lines_view(token_lines@), lex_lines(ls, 0)) == lex_lines(ls, 0))
        by {
        assert(token_lines_view(token_lines@) =~= Seq::<TokenLineV>::empty());
        if lex_lines(ls, 0) is Ok {
            assert(Seq::<TokenLineV>::empty() + lex_lines(ls, 0)->Ok_0 =~= lex_lines(
                ls,
                0,
            )->Ok_0);
        }
    };
    while i < lines.len()
        invariant
            i <= lines@.len(),
            lines@.len() == ls.len(),
            forall|k: int| 0 <= k < lines@.len() ==> #[trigger] lines@[k]@ == ls[k],
            lex_text(t@) == prefix_lines(token_lines_view(token_lines@), lex_lines(ls, i as int)),
            forall|k: int|
                0 <= k < token_lines@.len() ==> #[trigger] token_lines@[k].elements@.len() > 0,
        decreases lines@.len() - i,
    {
        let line = &lines[i];
        assert(line@ == ls[i as int]);
        let tokens = tokenize_chars(line);
        match tokens {
            Err(e) => {
                let text = collapse(trim_chars(line));
                return Err(LinedError::new(i, text, e));
            },
            Ok(tokens) => {
                if tokens.len() > 0 {
                    let ghost old_lines = token_lines@;
                    let org = collapse(trim_chars(line));
                    let token_line = TokenLine::new(tokens, org, i);
                    token_lines.push(token_line);
                    proof {
                        assert(token_lines_view(token_lines@) =~= token_lines_view(old_lines)
                            + seq![token_line@]);
                        if lex_lines(ls, i + 1) is Ok {
                            let rest = lex_lines(ls, i + 1)->Ok_0;
                            assert(token_lines_view(old_lines) + (seq![token_line@] + rest)
                                =~= token_lines_view(token_lines@) + rest);
                        }
                    }
                } else {
                    assert(tokens_view(tokens@).len() == 0);
                }
            },
        }
        i += 1;
    }
    assert(lex_lines(ls, i as int) =~= Ok(Seq::<TokenLineV>::empty()));
    assert(token_lines_view(token_lines@) + Seq::<TokenLineV>::empty() =~= token_lines_view(
        token_lines@,
    ));
    Ok(token_lines)
}

} // verus!
