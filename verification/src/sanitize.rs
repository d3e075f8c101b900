//! Group-name sanitization: every character that is not a word character becomes `_`, and
//! so does a leading digit. Word characters are the ASCII ones, `[A-Za-z0-9_]`.

use vstd::prelude::*;
use crate::text::{chars_of, digit, is_digit, is_letter, letter};

verus! {

/// A word character.
pub open spec fn is_word(c: char) -> bool {
    is_letter(c) || is_digit(c) || c == '_'
}

/// What stands at position `i` of the safe form of `s`.
pub open spec fn safe_char(s: Seq<char>, i: int) -> char {
    if !is_word(s[i]) || (i == 0 && is_digit(s[i])) {
        '_'
    } else {
        s[i]
    }
}

/// The safe form of a group name.
pub open spec fn safe_name(s: Seq<char>) -> Seq<char> {
    Seq::new(s.len(), |i: int| safe_char(s, i))
}

/// A name that needs no change: word characters only, and no leading digit.
pub open spec fn is_safe(s: Seq<char>) -> bool {
    &&& forall|i: int| 0 <= i < s.len() ==> is_word(#[trigger] s[i])
    &&& s.len() > 0 ==> !is_digit(s[0])
}

/// Converts a raw group name to its safe form. An empty name stays empty.
pub fn to_safe_group_name(name: &str) -> (r: String)
    ensures
        r@ == safe_name(name@),
{
    let cs = chars_of(name);
    let mut out = String::new();
    let mut i: usize = 0;
    while i < cs.len()
        invariant
            i <= cs.len(),
            cs@ == name@,
            out@ =~= safe_name(name@).take(i as int),
        decreases cs.len() - i,
    {
        let c = cs[i];
        let word = letter(c) || digit(c) || c == '_';
        if !word || (i == 0 && digit(c)) {
            out.push('_');
        } else {
            out.push(c);
        }
        i += 1;
    }
    assert(safe_name(name@).take(i as int) =~= safe_name(name@));
    out
}

/// The safe form is safe, and as long as the name.
pub proof fn lemma_safe_name_is_safe(s: Seq<char>)
    ensures
        is_safe(safe_name(s)),
        safe_name(s).len() == s.len(),
{
}

/// Safe names, and only those, stand unchanged; so sanitizing twice is sanitizing once.
pub proof fn lemma_safe_name_fixed(s: Seq<char>)
    ensures
        safe_name(s) == s <==> is_safe(s),
        safe_name(safe_name(s)) == safe_name(s),
{
    if is_safe(s) {
        assert(safe_name(s) =~= s);
    }
    assert(safe_name(safe_name(s)) =~= safe_name(s));
}

} // verus!
