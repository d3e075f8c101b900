//! The tokens of an expression.

use vstd::prelude::*;
use crate::assoc::Name;
use crate::text::{alphabetic, alphanumeric, chars_of, debug_char, debug_of_char, debug_str, debug_text, dec, dec_i64, digit, find_char, find_from, is_alnum, is_alpha, is_digit, is_space, join2, lemma_find_char, parse_i64, parse_i64_spec, space, text_span};
use crate::value::{float_text, read_float};

verus! {

/// A token.
#[derive(Debug)]
pub enum Tok {
    Ident(String),
    Str(String),
    Int(i64),
    /// A float literal, as it is written.
    Float(String),
    Mark(Mark),
}

/// A token of punctuation.
#[derive(Debug, Clone, Copy, PartialEq, Eq, Structural)]
pub enum Mark {
    Pipe,
    LParen,
    RParen,
    LBracket,
    RBracket,
    Comma,
    Dot,
    Colon,
    Plus,
    Minus,
    Star,
    StarStar,
    Slash,
    SlashSlash,
    Percent,
    Tilde,
    Eq,
    Ne,
    Lt,
    Le,
    Gt,
    Ge,
}

/// What a token is.
pub enum TokView {
    Ident(Name),
    Str(Seq<char>),
    Int(int),
    Float(Seq<char>),
    Mark(Mark),
}

impl View for Tok {
    type V = TokView;

    open spec fn view(&self) -> TokView {
        match self {
            Tok::Ident(s) => TokView::Ident(s@),
            Tok::Str(s) => TokView::Str(s@),
            Tok::Int(i) => TokView::Int(*i as int),
            Tok::Float(s) => TokView::Float(s@),
            Tok::Mark(m) => TokView::Mark(*m),
        }
    }
}

/// What a sequence of tokens is.
pub open spec fn toks(v: Seq<Tok>) -> Seq<TokView> {
    Seq::new(v.len(), |i: int| v[i]@)
}

/// `s` holds `c` at `p`.
pub open spec fn char_at(s: Seq<char>, p: int, c: char) -> bool {
    0 <= p < s.len() && s[p] == c
}

/// The punctuation at `p` and its length.
pub open spec fn mark_at(s: Seq<char>, p: int) -> Option<(Mark, int)> {
    let c = s[p];
    if c == '|' {
        Some((Mark::Pipe, 1))
    } else if c == '(' {
        Some((Mark::LParen, 1))
    } else if c == ')' {
        Some((Mark::RParen, 1))
    } else if c == '[' {
        Some((Mark::LBracket, 1))
    } else if c == ']' {
        Some((Mark::RBracket, 1))
    } else if c == ',' {
        Some((Mark::Comma, 1))
    } else if c == ':' {
        Some((Mark::Colon, 1))
    } else if c == '~' {
        Some((Mark::Tilde, 1))
    } else if c == '+' {
        Some((Mark::Plus, 1))
    } else if c == '-' {
        Some((Mark::Minus, 1))
    } else if c == '*' {
        if char_at(s, p + 1, '*') {
            Some((Mark::StarStar, 2))
        } else {
            Some((Mark::Star, 1))
        }
    } else if c == '/' {
        if char_at(s, p + 1, '/') {
            Some((Mark::SlashSlash, 2))
        } else {
            Some((Mark::Slash, 1))
        }
    } else if c == '%' {
        Some((Mark::Percent, 1))
    } else if c == '.' {
        Some((Mark::Dot, 1))
    } else if c == '=' && char_at(s, p + 1, '=') {
        Some((Mark::Eq, 2))
    } else if c == '!' && char_at(s, p + 1, '=') {
        Some((Mark::Ne, 2))
    } else if c == '<' {
        if char_at(s, p + 1, '=') {
            Some((Mark::Le, 2))
        } else {
            Some((Mark::Lt, 1))
        }
    } else if c == '>' {
        if char_at(s, p + 1, '=') {
            Some((Mark::Ge, 2))
        } else {
            Some((Mark::Gt, 1))
        }
    } else {
        None
    }
}

/// Where the number from `p` on ends: digits, and points that a digit follows.
pub open spec fn number_end(s: Seq<char>, p: int) -> int
    decreases s.len() - p,
{
    if 0 <= p < s.len() && (is_digit(s[p]) || (s[p] == '.' && p + 1 < s.len() && is_digit(
        s[p + 1],
    ))) {
        number_end(s, p + 1)
    } else {
        p
    }
}

/// Where the identifier from `p` on ends.
pub open spec fn ident_end(s: Seq<char>, p: int) -> int
    decreases s.len() - p,
{
    if 0 <= p < s.len() && (is_alnum(s[p]) || s[p] == '_') {
        ident_end(s, p + 1)
    } else {
        p
    }
}

/// The token of a number.
pub open spec fn number_token(text: Seq<char>) -> Result<TokView, Seq<char>> {
    if text.contains('.') {
        if float_text(text) is None {
            Err("bad float literal "@ + debug_text(text))
        } else {
            Ok(TokView::Float(text))
        }
    } else {
        match parse_i64_spec(text) {
            Some(i) => Ok(TokView::Int(i as int)),
            None => Err("bad int literal "@ + debug_text(text)),
        }
    }
}

/// The token at `p`, where no white space stands, and where it ends; else what is wrong.
pub open spec fn token_at(s: Seq<char>, p: int) -> Result<(TokView, int), Seq<char>> {
    let c = s[p];
    if mark_at(s, p) is Some {
        let (m, n) = mark_at(s, p).unwrap();
        Ok((TokView::Mark(m), p + n))
    } else if c == '\'' || c == '"' {
        let n = find_char(s.skip(p + 1), c);
        if p + 1 + n < s.len() {
            Ok((TokView::Str(s.subrange(p + 1, p + 1 + n)), p + 2 + n))
        } else {
            Err("unterminated string literal"@)
        }
    } else if is_digit(c) {
        let q = number_end(s, p);
        match number_token(s.subrange(p, q)) {
            Ok(t) => Ok((t, q)),
            Err(e) => Err(e),
        }
    } else if is_alpha(c) || c == '_' {
        let q = ident_end(s, p + 1);
        Ok((TokView::Ident(s.subrange(p, q)), q))
    } else {
        Err("unexpected character "@ + debug_char(c))
    }
}

/// The tokens from `p` on; else what is wrong with the first that is none.
pub open spec fn tokens_from(s: Seq<char>, p: int) -> Result<Seq<TokView>, Seq<char>>
    decreases s.len() - p,
{
    if p < 0 || p >= s.len() {
        Ok(Seq::empty())
    } else if is_space(s[p]) {
        tokens_from(s, p + 1)
    } else {
        match token_at(s, p) {
            Ok((t, q)) => if p < q <= s.len() {
                match tokens_from(s, q) {
                    Ok(more) => Ok(seq![t] + more),
                    Err(e) => Err(e),
                }
            } else {
                Err(Seq::empty())
            },
            Err(e) => Err(e),
        }
    }
}

/// Whether `c` stands at `p`.
fn is_char(cs: &Vec<char>, p: usize, c: char) -> (r: bool)
    ensures
        r == char_at(cs@, p as int, c),
{
    p < cs.len() && cs[p] == c
}

/// Reads punctuation.
fn read_mark(cs: &Vec<char>, p: usize) -> (r: Option<(Mark, usize)>)
    requires
        p < cs.len(),
        p + 1 <= usize::MAX,
    ensures
        match r {
            Some((m, q)) => mark_at(cs@, p as int) == Some((m, q - p)) && p < q <= cs.len(),
            None => mark_at(cs@, p as int) is None,
        },
{
    let c = cs[p];
    if c == '|' {
        Some((Mark::Pipe, p + 1))
    } else if c == '(' {
        Some((Mark::LParen, p + 1))
    } else if c == ')' {
        Some((Mark::RParen, p + 1))
    } else if c == '[' {
        Some((Mark::LBracket, p + 1))
    } else if c == ']' {
        Some((Mark::RBracket, p + 1))
    } else if c == ',' {
        Some((Mark::Comma, p + 1))
    } else if c == ':' {
        Some((Mark::Colon, p + 1))
    } else if c == '~' {
        Some((Mark::Tilde, p + 1))
    } else if c == '+' {
        Some((Mark::Plus, p + 1))
    } else if c == '-' {
        Some((Mark::Minus, p + 1))
    } else if c == '*' {
        if is_char(cs, p + 1, '*') {
            Some((Mark::StarStar, p + 2))
        } else {
            Some((Mark::Star, p + 1))
        }
    } else if c == '/' {
        if is_char(cs, p + 1, '/') {
            Some((Mark::SlashSlash, p + 2))
        } else {
            Some((Mark::Slash, p + 1))
        }
    } else if c == '%' {
        Some((Mark::Percent, p + 1))
    } else if c == '.' {
        Some((Mark::Dot, p + 1))
    } else if c == '=' && is_char(cs, p + 1, '=') {
        Some((Mark::Eq, p + 2))
    } else if c == '!' && is_char(cs, p + 1, '=') {
        Some((Mark::Ne, p + 2))
    } else if c == '<' {
        if is_char(cs, p + 1, '=') {
            Some((Mark::Le, p + 2))
        } else {
            Some((Mark::Lt, p + 1))
        }
    } else if c == '>' {
        if is_char(cs, p + 1, '=') {
            Some((Mark::Ge, p + 2))
        } else {
            Some((Mark::Gt, p + 1))
        }
    } else {
        None
    }
}

/// Reads a number.
fn read_number(text: &str) -> (r: Result<Tok, String>)
    ensures
        (match r {
            Ok(t) => Ok(t@),
            Err(e) => Err(e@),
        }) == number_token(text@),
{
    let cs = chars_of(text);
    let dot = find_from(&cs, 0, '.');
    proof {
        assert(cs@.skip(0) =~= cs@);
        lemma_find_char(cs@, '.');
    }
    if dot < cs.len() {
        if read_float(text).is_none() {
            Err(join2("bad float literal ", debug_str(text).as_str()))
        } else {
            Ok(Tok::Float(text.to_owned()))
        }
    } else {
        match parse_i64(text) {
            Some(i) => Ok(Tok::Int(i)),
            None => Err(join2("bad int literal ", debug_str(text).as_str())),
        }
    }
}

/// Reads the token at a position.
fn read_token(cs: &Vec<char>, p: usize) -> (r: Result<(Tok, usize), String>)
    requires
        p < cs.len(),
    ensures
        (match r {
            Ok((t, q)) => Ok((t@, q as int)),
            Err(e) => Err(e@),
        }) == token_at(cs@, p as int),
        r matches Ok((t, q)) ==> p < q <= cs.len(),
{
    let c = cs[p];
    match read_mark(cs, p) {
        Some((m, q)) => {
            return Ok((Tok::Mark(m), q));
        },
        None => {},
    }
    if c == '\'' || c == '"' {
        let n = find_from(cs, p + 1, c);
        if n < cs.len() {
            Ok((Tok::Str(text_span(cs, p + 1, n)), n + 1))
        } else {
            Err("unterminated string literal".to_owned())
        }
    } else if digit(c) {
        let mut i: usize = p + 1;
        assert(number_end(cs@, p as int) == number_end(cs@, p + 1));
        while i < cs.len() && (digit(cs[i]) || (cs[i] == '.' && i + 1 < cs.len() && digit(
            cs[i + 1],
        )))
            invariant
                p < i <= cs.len(),
                number_end(cs@, p as int) == number_end(cs@, i as int),
            decreases cs.len() - i,
        {
            i += 1;
        }
        let text = text_span(cs, p, i);
        match read_number(text.as_str()) {
            Ok(t) => Ok((t, i)),
            Err(e) => Err(e),
        }
    } else if alphabetic(c) || c == '_' {
        let mut i: usize = p + 1;
        while i < cs.len() && (alphanumeric(cs[i]) || cs[i] == '_')
            invariant
                p < i <= cs.len(),
                ident_end(cs@, p + 1) == ident_end(cs@, i as int),
            decreases cs.len() - i,
        {
            i += 1;
        }
        Ok((Tok::Ident(text_span(cs, p, i)), i))
    } else {
        Err(join2("unexpected character ", debug_of_char(c).as_str()))
    }
}

/// Cuts an expression into tokens.
pub fn tokenize(src: &str) -> (r: Result<Vec<Tok>, String>)
    ensures
        (match r {
            Ok(v) => Ok(toks(v@)),
            Err(e) => Err(e@),
        }) == tokens_from(src@, 0),
{
    let cs = chars_of(src);
    let mut out: Vec<Tok> = Vec::new();
    let mut i: usize = 0;
    assert(match tokens_from(src@, 0) {
        Ok(more) => toks(out@) + more =~= more,
        Err(e) => true,
    });
    while i < cs.len()
        invariant
            cs@ == src@,
            i <= cs.len(),
            tokens_from(src@, 0) == (match tokens_from(src@, i as int) {
                Ok(more) => Ok::<Seq<TokView>, Seq<char>>(toks(out@) + more),
                Err(e) => Err(e),
            }),
        decreases cs.len() - i,
    {
        if space(cs[i]) {
            i += 1;
        } else {
            match read_token(&cs, i) {
                Ok((t, q)) => {
                    let ghost before = toks(out@);
                    out.push(t);
                    assert(toks(out@) =~= before.push(t@));
                    assert(match tokens_from(src@, q as int) {
                        Ok(more) => before + (seq![t@] + more) =~= toks(out@) + more,
                        Err(e) => true,
                    });
                    i = q;
                },
                Err(e) => {
                    return Err(e);
                },
            }
        }
    }
    assert(toks(out@) + Seq::<TokView>::empty() =~= toks(out@));
    Ok(out)
}

// ---------------------------------------------------------------------------------------
// Tokens in messages
// ---------------------------------------------------------------------------------------

/// What std's `Debug` writes for the float that a text reads as.
pub uninterp spec fn float_debug(s: Seq<char>) -> Seq<char>;

/// std's `Debug` for the float that `str::parse` reads (the empty text where it reads
/// none); what is written depends on the text alone. `serde_json::Number::from_f64` fixes
/// the type of the float.
#[verifier::external_body]
fn std_float_debug(s: &str) -> (r: String)
    ensures
        r@ == float_debug(s@),
{
    s.parse().map(|f| (serde_json::Number::from_f64(f), format!("{f:?}")).1).unwrap_or_default()
}

/// The name of a punctuation token.
pub open spec fn mark_name(m: Mark) -> Seq<char> {
    match m {
        Mark::Pipe => "Pipe"@,
        Mark::LParen => "LParen"@,
        Mark::RParen => "RParen"@,
        Mark::LBracket => "LBracket"@,
        Mark::RBracket => "RBracket"@,
        Mark::Comma => "Comma"@,
        Mark::Dot => "Dot"@,
        Mark::Colon => "Colon"@,
        Mark::Plus => "Plus"@,
        Mark::Minus => "Minus"@,
        Mark::Star => "Star"@,
        Mark::StarStar => "StarStar"@,
        Mark::Slash => "Slash"@,
        Mark::SlashSlash => "SlashSlash"@,
        Mark::Percent => "Percent"@,
        Mark::Tilde => "Tilde"@,
        Mark::Eq => "Eq"@,
        Mark::Ne => "Ne"@,
        Mark::Lt => "Lt"@,
        Mark::Le => "Le"@,
        Mark::Gt => "Gt"@,
        Mark::Ge => "Ge"@,
    }
}

/// A token as messages show it.
pub open spec fn token_name(t: TokView) -> Seq<char> {
    match t {
        TokView::Ident(s) => "Ident("@ + debug_text(s) + ")"@,
        TokView::Str(s) => "Str("@ + debug_text(s) + ")"@,
        TokView::Int(i) => "Int("@ + dec(i) + ")"@,
        TokView::Float(s) => "Float("@ + float_debug(s) + ")"@,
        TokView::Mark(m) => mark_name(m),
    }
}

/// The tokens from `p` on as messages show them, separated by commas.
pub open spec fn token_names(ts: Seq<TokView>, p: int) -> Seq<char>
    decreases ts.len() - p,
{
    if p < 0 || p >= ts.len() {
        Seq::empty()
    } else if p == ts.len() - 1 {
        token_name(ts[p])
    } else {
        token_name(ts[p]) + ", "@ + token_names(ts, p + 1)
    }
}

/// The name of a punctuation token.
pub fn mark_text(m: Mark) -> (r: &'static str)
    ensures
        r@ == mark_name(m),
{
    match m {
        Mark::Pipe => "Pipe",
        Mark::LParen => "LParen",
        Mark::RParen => "RParen",
        Mark::LBracket => "LBracket",
        Mark::RBracket => "RBracket",
        Mark::Comma => "Comma",
        Mark::Dot => "Dot",
        Mark::Colon => "Colon",
        Mark::Plus => "Plus",
        Mark::Minus => "Minus",
        Mark::Star => "Star",
        Mark::StarStar => "StarStar",
        Mark::Slash => "Slash",
        Mark::SlashSlash => "SlashSlash",
        Mark::Percent => "Percent",
        Mark::Tilde => "Tilde",
        Mark::Eq => "Eq",
        Mark::Ne => "Ne",
        Mark::Lt => "Lt",
        Mark::Le => "Le",
        Mark::Gt => "Gt",
        Mark::Ge => "Ge",
    }
}

impl Tok {
    /// The token as messages show it.
    pub fn name(&self) -> (r: String)
        ensures
            r@ == token_name(self@),
    {
        let (head, body) = match self {
            Tok::Ident(s) => ("Ident(", debug_str(s.as_str())),
            Tok::Str(s) => ("Str(", debug_str(s.as_str())),
            Tok::Int(i) => ("Int(", dec_i64(*i)),
            Tok::Float(s) => ("Float(", std_float_debug(s.as_str())),
            Tok::Mark(m) => {
                return mark_text(*m).to_owned();
            },
        };
        let mut out = head.to_owned();
        out.append(body.as_str());
        out.append(")");
        out
    }
}

/// The tokens from a position on as messages show them.
pub fn names_from(ts: &Vec<Tok>, p: usize) -> (r: String)
    requires
        p <= ts.len(),
    ensures
        r@ == token_names(toks(ts@), p as int),
    decreases ts.len() - p,
{
    if p == ts.len() {
        let out = String::new();
        assert(out@ =~= Seq::<char>::empty());
        return out;
    }
    let mut out = ts[p].name();
    if p + 1 < ts.len() {
        out.append(", ");
        let rest = names_from(ts, p + 1);
        out.append(rest.as_str());
    }
    out
}

} // verus!
