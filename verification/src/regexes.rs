//! Regular expressions, by the `regex` crate.

use vstd::prelude::*;
use crate::text::{is_digit, is_letter};

verus! {

/// Whether a pattern matches somewhere in a text; `None` where the pattern is no regular
/// expression.
pub uninterp spec fn regex_found(pattern: Seq<char>, text: Seq<char>) -> Option<bool>;

/// A text with every match of a pattern replaced; else what is wrong with the pattern.
pub uninterp spec fn regex_replaced(
    pattern: Seq<char>,
    text: Seq<char>,
    replacement: Seq<char>,
) -> Result<Seq<char>, Seq<char>>;

/// A part of a simple regular expression: a character, `.`, or `.*`.
pub enum Part {
    Lit(char),
    One,
    Many,
}

/// What a part is written as.
pub open spec fn part_text(p: Part) -> Seq<char> {
    match p {
        Part::Lit(c) => regex_escaped(seq![c]),
        Part::One => seq!['.'],
        Part::Many => seq!['.', '*'],
    }
}

/// What parts behind one another are written as.
pub open spec fn parts_text(ps: Seq<Part>) -> Seq<char>
    decreases ps.len(),
{
    if ps.len() == 0 {
        Seq::empty()
    } else {
        part_text(ps[0]) + parts_text(ps.drop_first())
    }
}

/// Parts behind one another match a whole text: a character matches itself, `.` any one
/// character, and `.*` any number of characters.
pub open spec fn parts_match(ps: Seq<Part>, s: Seq<char>) -> bool
    decreases ps.len(),
{
    if ps.len() == 0 {
        s.len() == 0
    } else {
        let rest = ps.drop_first();
        match ps[0] {
            Part::Lit(c) => s.len() > 0 && s[0] == c && parts_match(rest, s.drop_first()),
            Part::One => s.len() > 0 && parts_match(rest, s.drop_first()),
            Part::Many => exists|k: int|
                0 <= k <= s.len() && parts_match(rest, #[trigger] s.skip(k)),
        }
    }
}

/// A regular expression for a whole text, in which `.` is any character.
pub open spec fn whole(ps: Seq<Part>) -> Seq<char> {
    "(?s)^"@ + parts_text(ps) + seq!['$']
}

/// A regular expression for the start of a text.
pub open spec fn from_start(e: Seq<char>) -> Seq<char> {
    "(?s)^(?:"@ + e + ")"@
}

/// Letters and digits, which mean themselves in a regular expression.
pub open spec fn is_plain_text(t: Seq<char>) -> bool {
    forall|k: int| 0 <= k < t.len() ==> is_letter(#[trigger] t[k]) || is_digit(t[k])
}

/// `t` stands at the start of `s`.
pub open spec fn begins(s: Seq<char>, t: Seq<char>) -> bool {
    t.len() <= s.len() && s.take(t.len() as int) == t
}

/// `regex::Regex::is_match`, on the pattern that `regex::Regex::new` compiles: the answer,
/// and whether the pattern compiles, depend on the pattern and the text alone. A pattern of
/// up to 1000 escaped characters, `.` and `.*`, between `(?s)^` and `$`, matches the texts
/// that its parts match behind one another, from the first character to the last: `^` and
/// `$` are the beginning and the end of the text, and with the flag `s` a `.` is any
/// character. Up to 1000 letters and digits in the group of `(?s)^(?:..)` match the texts
/// that start with them. (The size of a compiled pattern is limited; these are far below the
/// limit.)
#[verifier::external_body]
pub(crate) fn is_match(pattern: &str, text: &str) -> (r: Option<bool>)
    ensures
        r == regex_found(pattern@, text@),
        forall|ps: Seq<Part>|
            ps.len() <= 1000 && pattern@ == #[trigger] whole(ps) ==> r == Some(
                parts_match(ps, text@),
            ),
        forall|t: Seq<char>|
            t.len() <= 1000 && is_plain_text(t) && pattern@ == #[trigger] from_start(t) ==> r == Some(
                begins(text@, t),
            ),
{
    regex::Regex::new(pattern).ok().map(|re| re.is_match(text))
}

/// `regex::Regex::replace_all`, on the pattern that `regex::Regex::new` compiles: the
/// result, or the words of the error, depend on the arguments alone.
#[verifier::external_body]
pub(crate) fn replace_all(pattern: &str, text: &str, replacement: &str) -> (r: Result<
    String,
    String,
>)
    ensures
        (match r {
            Ok(t) => Ok(t@),
            Err(e) => Err(e@),
        }) == regex_replaced(pattern@, text@, replacement@),
{
    match regex::Regex::new(pattern) {
        Ok(re) => Ok(re.replace_all(text, replacement).into_owned()),
        Err(e) => Err(e.to_string()),
    }
}

/// A character that means something in a regular expression.
pub open spec fn is_meta(c: char) -> bool {
    ||| c == '\\'
    ||| c == '.'
    ||| c == '+'
    ||| c == '*'
    ||| c == '?'
    ||| c == '('
    ||| c == ')'
    ||| c == '|'
    ||| c == '['
    ||| c == ']'
    ||| c == '{'
    ||| c == '}'
    ||| c == '^'
    ||| c == '$'
    ||| c == '#'
    ||| c == '&'
    ||| c == '-'
    ||| c == '~'
}

/// A text with a backslash before every such character.
pub open spec fn regex_escaped(s: Seq<char>) -> Seq<char>
    decreases s.len(),
{
    if s.len() == 0 {
        Seq::empty()
    } else if is_meta(s.last()) {
        regex_escaped(s.drop_last()) + seq!['\\', s.last()]
    } else {
        regex_escaped(s.drop_last()).push(s.last())
    }
}

/// `regex::escape`: a backslash before every character that means something in a regular
/// expression, and nothing else changed.
#[verifier::external_body]
pub(crate) fn escape(s: &str) -> (r: String)
    ensures
        r@ == regex_escaped(s@),
{
    regex::escape(s)
}

} // verus!
