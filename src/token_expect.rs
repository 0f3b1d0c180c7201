use vstd::prelude::*;

use crate::lexer::{Symbol, Token, TokenV, tokens_view};
use crate::string_builder::{collapse, push, push_nat};

verus! {

/// What a token must be.
pub enum TokenReq {
    Literal(Token),
    Either(Token, Token),
    Label,
    Number,
    Inline,
    Any,
    /// No token at all: with `Next`, "the tokens end here".
    NoToken,
}

/// Which tokens a requirement applies to.
#[derive(Debug, Clone, Copy, PartialEq, Eq, Structural)]
pub enum IndexReq {
    /// The token after the previous requirement's range.
    Next,
    /// The token at this index.
    Beg(usize),
    /// The token at this index counted from the end (0 is the last).
    End(usize),
    /// The tokens of the range `[i, j)`.
    Between(usize, usize),
}

pub open spec fn req_ok(r: TokenReq, t: TokenV) -> bool {
    match r {
        TokenReq::Literal(v) => v@ == t,
        TokenReq::Either(a, b) => a@ == t || b@ == t,
        TokenReq::Label => t is Label,
        TokenReq::Number => t is Number,
        TokenReq::Inline => t is Inline,
        TokenReq::Any => true,
        TokenReq::NoToken => false,
    }
}

impl TokenReq {
    pub fn is_ok(&self, t: &Token) -> (r: bool)
        ensures
            r == req_ok(*self, t@),
    {
        match self {
            TokenReq::Literal(v) => *v == *t,
            TokenReq::Either(a, b) => *t == *a || *t == *b,
            TokenReq::Label => matches!(t, Token::Label(_)),
            TokenReq::Number => matches!(t, Token::Number(_)),
            TokenReq::Inline => matches!(t, Token::Inline(_)),
            TokenReq::Any => true,
            TokenReq::NoToken => false,
        }
    }

    pub fn m_symbol(s: Symbol) -> (r: TokenReq)
        ensures
            r matches TokenReq::Literal(t) && t@ == TokenV::Symbol(s),
    {
        TokenReq::Literal(Token::Symbol(s))
    }

    pub fn m_label(t: &str) -> (r: TokenReq)
        ensures
            r matches TokenReq::Literal(l) && l@ == TokenV::Label(t@),
    {
        TokenReq::Literal(Token::m_label(t))
    }
}

/// The range `[a, b)` that a requirement covers, given the cursor and the
/// number of tokens; `None` where an index from the end lies before the start.
pub open spec fn req_range(ir: IndexReq, next: int, len: int) -> Option<(int, int)> {
    match ir {
        IndexReq::Next => Some((next, next + 1)),
        IndexReq::Beg(i) => Some((i as int, i + 1)),
        IndexReq::End(i) => if i < len {
            Some((len - 1 - i, len - i))
        } else {
            None
        },
        IndexReq::Between(i, j) => Some((i as int, j as int)),
    }
}

/// The first index in `[a, e)` whose token fails `r`.
pub open spec fn first_failing(r: TokenReq, t: Seq<TokenV>, a: int, e: int) -> Option<int>
    decreases e - a,
{
    if a >= e {
        None
    } else if !req_ok(r, t[a]) {
        Some(a)
    } else {
        first_failing(r, t, a + 1, e)
    }
}

/// Where the pattern from element `k` on, with the cursor at `next`, first
/// fails on `t`; `None` where it matches.
pub open spec fn pattern_failure(
    p: Seq<(TokenReq, IndexReq)>,
    t: Seq<TokenV>,
    k: int,
    next: int,
) -> Option<int>
    decreases p.len() - k,
{
    if k < 0 || k >= p.len() {
        None
    } else {
        let (r, ir) = p[k];
        match req_range(ir, next, t.len() as int) {
            None => Some(0),
            Some((a, b)) => if b > t.len() && !(r is NoToken) {
                Some(a)
            } else {
                let e = if b < t.len() {
                    b
                } else {
                    t.len() as int
                };
                match first_failing(r, t, a, e) {
                    Some(i) => Some(i),
                    None => pattern_failure(p, t, k + 1, b),
                }
            },
        }
    }
}

pub open spec fn pattern_matches(p: Seq<(TokenReq, IndexReq)>, t: Seq<TokenV>) -> bool {
    pattern_failure(p, t, 0, 0) is None
}

/// Whether every token `tokens[i]` equals the token paired with `i`.
pub open spec fn check_add_spec(add: Seq<(Token, usize)>, tokens: Seq<TokenV>) -> bool {
    forall|k: int|
        0 <= k < add.len() ==> add[k].1 < tokens.len() && tokens[add[k].1 as int] == add[k].0@
}

pub fn check_add(add: &[(Token, usize)], tokens: &[Token]) -> (r: bool)
    ensures
        r == check_add_spec(add@, tokens_view(tokens@)),
{
    let mut k: usize = 0;
    while k < add.len()
        invariant
            k <= add@.len(),
            forall|m: int|
                0 <= m < k ==> (#[trigger] add@[m]).1 < tokens@.len() && tokens_view(
                    tokens@,
                )[add@[m].1 as int] == add@[m].0@,
        decreases add@.len() - k,
    {
        let el = &add[k];
        if tokens.len() <= el.1 || tokens[el.1] != el.0 {
            assert(!check_add_spec(add@, tokens_view(tokens@))) by {
                assert(add@[k as int] == *el);
            };
            return false;
        }
        k += 1;
    }
    true
}

fn pattern_error_string(bad_index: u64) -> (r: String) {
    let mut b: Vec<char> = Vec::new();
    push(&mut b, "pattern doesn't match the tokens given, specifically at index ");
    push_nat(&mut b, bad_index);
    collapse(b)
}

/// Checks `tokens` against `pattern`; the error names the first index that fails.
pub fn match_exact(pattern: &Vec<(TokenReq, IndexReq)>, tokens: &[Token]) -> (r: Result<
    (),
    String,
>)
    ensures
        r is Ok == pattern_matches(pattern@, tokens_view(tokens@)),
{
    let ghost t = tokens_view(tokens@);
    // the cursor may pass the last index by more than a machine word holds
    let mut next: u128 = 0;
    let mut k: usize = 0;
    let len = tokens.len();
    while k < pattern.len()
        invariant
            k <= pattern@.len(),
            len == tokens@.len(),
            t == tokens_view(tokens@),
            next <= usize::MAX + 1 + k,
            pattern_failure(pattern@, t, 0, 0) == pattern_failure(
                pattern@,
                t,
                k as int,
                next as int,
            ),
        decreases pattern@.len() - k,
    {
        let el = &pattern[k];
        let (a, b): (u128, u128) = match el.1 {
            IndexReq::Next => (next, next + 1),
            IndexReq::Beg(i) => (i as u128, i as u128 + 1),
            IndexReq::End(i) => {
                if i >= len {
                    return Err(pattern_error_string(0));
                }
                ((len - 1 - i) as u128, (len - i) as u128)
            },
            IndexReq::Between(i, j) => (i as u128, j as u128),
        };
        let is_none = matches!(el.0, TokenReq::NoToken);
        if b > len as u128 && !is_none {
            return Err(pattern_error_string(#[verifier::truncate] (a as u64)));
        }
        next = b;
        let e: u128 = if b < len as u128 {
            b
        } else {
            len as u128
        };
        let mut i: u128 = a;
        while i < e
            invariant
                a <= i,
                e <= len,
                len == tokens@.len(),
                k < pattern@.len(),
                *el == pattern@[k as int],
                next == b,
                next <= usize::MAX + 1 + (k + 1),
                t == tokens_view(tokens@),
                pattern_failure(pattern@, t, 0, 0) == match first_failing(
                    el.0,
                    t,
                    a as int,
                    e as int,
                ) {
                    Some(x) => Some(x),
                    None => pattern_failure(pattern@, t, k + 1, b as int),
                },
                first_failing(el.0, t, a as int, e as int) == first_failing(
                    el.0,
                    t,
                    i as int,
                    e as int,
                ),
            decreases e - i,
        {
            if !el.0.is_ok(&tokens[i as usize]) {
                return Err(pattern_error_string(#[verifier::truncate] (i as u64)));
            }
            i += 1;
        }
        k += 1;
    }
    Ok(())
}

pub fn match_exact_cond(pattern: &Vec<(TokenReq, IndexReq)>, tokens: &[Token]) -> (r: bool)
    ensures
        r == pattern_matches(pattern@, tokens_view(tokens@)),
{
    match_exact(pattern, tokens).is_ok()
}

} // verus!

verus! {

/// Where the first `n` requirements of a matching pattern are all `Next`,
/// token `k < n` exists unless its requirement is `NoToken`, and meets it.
pub proof fn lemma_pattern_prefix(p: Seq<(TokenReq, IndexReq)>, t: Seq<TokenV>, n: int)
    requires
        pattern_matches(p, t),
        0 <= n <= p.len(),
        forall|k: int| 0 <= k < n ==> (#[trigger] p[k]).1 == IndexReq::Next,
    ensures
        forall|k: int|
            0 <= k < n ==> (!(p[k].0 is NoToken) ==> k < t.len()) && (k < t.len() ==> req_ok(
                #[trigger] p[k].0,
                t[k],
            )),
        pattern_failure(p, t, n, n) is None,
    decreases n,
{
    if n > 0 {
        lemma_pattern_prefix(p, t, n - 1);
        let k = n - 1;
        assert(p[k].1 == IndexReq::Next);
        if k < t.len() {
            assert(first_failing(p[k].0, t, k, k + 1) is None ==> req_ok(p[k].0, t[k]));
        }
    }
}

/// A requirement `(r, End(0))` at position `n` of a pattern whose failure
/// from `n` on is `None`: the last token exists and meets `r`.
pub proof fn lemma_pattern_last(p: Seq<(TokenReq, IndexReq)>, t: Seq<TokenV>, n: int, next: int)
    requires
        0 <= n < p.len(),
        p[n].1 == IndexReq::End(0),
        pattern_failure(p, t, n, next) is None,
    ensures
        t.len() > 0,
        req_ok(p[n].0, t[t.len() - 1]),
{
    assert(first_failing(p[n].0, t, t.len() - 1, t.len() as int) is None);
}

} // verus!
