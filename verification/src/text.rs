//! Text as sequences of characters: the vocabulary that every parser and renderer of the
//! library is specified in, and the executable primitives that meet it.

use vstd::prelude::*;

verus! {

// ---------------------------------------------------------------------------------------
// Character classes
// ---------------------------------------------------------------------------------------

/// Unicode's `White_Space` property, the class that `char::is_whitespace` tests.
pub open spec fn is_space(c: char) -> bool {
    ||| '\u{9}' <= c <= '\u{d}'
    ||| c == ' '
    ||| c == '\u{85}'
    ||| c == '\u{a0}'
    ||| c == '\u{1680}'
    ||| '\u{2000}' <= c <= '\u{200a}'
    ||| c == '\u{2028}'
    ||| c == '\u{2029}'
    ||| c == '\u{202f}'
    ||| c == '\u{205f}'
    ||| c == '\u{3000}'
}

/// An ASCII decimal digit.
pub open spec fn is_digit(c: char) -> bool {
    '0' <= c <= '9'
}

/// An ASCII letter.
pub open spec fn is_letter(c: char) -> bool {
    'a' <= c <= 'z' || 'A' <= c <= 'Z'
}

/// ASCII lower-casing of one character.
pub open spec fn ascii_lower(c: char) -> char {
    if 'A' <= c <= 'Z' {
        ((c as u8) + 32) as u8 as char
    } else {
        c
    }
}

/// ASCII lower-casing of a text.
pub open spec fn ascii_lower_text(s: Seq<char>) -> Seq<char> {
    Seq::new(s.len(), |i: int| ascii_lower(s[i]))
}

/// Tests for Unicode white space.
pub fn space(c: char) -> (r: bool)
    ensures
        r == is_space(c),
{
    ('\u{9}' <= c && c <= '\u{d}') || c == ' ' || c == '\u{85}' || c == '\u{a0}' || c
        == '\u{1680}' || ('\u{2000}' <= c && c <= '\u{200a}') || c == '\u{2028}' || c
        == '\u{2029}' || c == '\u{202f}' || c == '\u{205f}' || c == '\u{3000}'
}

/// Tests for an ASCII digit.
pub fn digit(c: char) -> (r: bool)
    ensures
        r == is_digit(c),
{
    '0' <= c && c <= '9'
}

/// Tests for an ASCII letter.
pub fn letter(c: char) -> (r: bool)
    ensures
        r == is_letter(c),
{
    ('a' <= c && c <= 'z') || ('A' <= c && c <= 'Z')
}

/// What `char::is_alphabetic` answers (Unicode's `Alphabetic` property).
pub uninterp spec fn char_alphabetic(c: char) -> bool;

/// What `char::is_alphanumeric` answers (`Alphabetic`, or a numeric general category).
pub uninterp spec fn char_alphanumeric(c: char) -> bool;

/// What `char::to_uppercase` yields, as text.
pub uninterp spec fn char_uppercase(c: char) -> Seq<char>;

/// What `char::to_lowercase` yields, as text.
pub uninterp spec fn char_lowercase(c: char) -> Seq<char>;

/// What `str::to_lowercase` returns.
pub uninterp spec fn str_lowercase(s: Seq<char>) -> Seq<char>;

/// What `str::to_uppercase` returns.
pub uninterp spec fn str_uppercase(s: Seq<char>) -> Seq<char>;

/// What formatting a string with `{:?}` writes: the text quoted and escaped.
pub uninterp spec fn str_debug(s: Seq<char>) -> Seq<char>;

/// What formatting a character with `{:?}` writes.
pub uninterp spec fn char_debug(c: char) -> Seq<char>;

/// `char::is_alphabetic`; the answer depends on the character alone.
#[verifier::external_body]
fn std_is_alphabetic(c: char) -> (r: bool)
    ensures
        r == char_alphabetic(c),
{
    c.is_alphabetic()
}

/// `char::is_alphanumeric`; the answer depends on the character alone.
#[verifier::external_body]
fn std_is_alphanumeric(c: char) -> (r: bool)
    ensures
        r == char_alphanumeric(c),
{
    c.is_alphanumeric()
}

/// `char::to_uppercase`, as text; the result depends on the character alone.
#[verifier::external_body]
fn std_char_uppercase(c: char) -> (r: String)
    ensures
        r@ == char_uppercase(c),
{
    c.to_uppercase().to_string()
}

/// `char::to_lowercase`, as text; the result depends on the character alone.
#[verifier::external_body]
fn std_char_lowercase(c: char) -> (r: String)
    ensures
        r@ == char_lowercase(c),
{
    c.to_lowercase().to_string()
}

/// `str::to_lowercase`; the result depends on the text alone.
#[verifier::external_body]
fn std_str_lowercase(s: &str) -> (r: String)
    ensures
        r@ == str_lowercase(s@),
{
    s.to_lowercase()
}

/// `str::to_uppercase`; the result depends on the text alone.
#[verifier::external_body]
fn std_str_uppercase(s: &str) -> (r: String)
    ensures
        r@ == str_uppercase(s@),
{
    s.to_uppercase()
}

/// std's `Debug` for `str`; what is written depends on the text alone.
#[verifier::external_body]
fn std_str_debug(s: &str) -> (r: String)
    ensures
        r@ == str_debug(s@),
{
    format!("{s:?}")
}

/// std's `Debug` for `char`; what is written depends on the character alone.
#[verifier::external_body]
fn std_char_debug(c: char) -> (r: String)
    ensures
        r@ == char_debug(c),
{
    format!("{c:?}")
}

/// An ASCII character.
pub open spec fn is_ascii(c: char) -> bool {
    (c as u32) <= 0x7f
}

/// Every character is an ASCII one.
pub open spec fn all_ascii(s: Seq<char>) -> bool {
    forall|i: int| 0 <= i < s.len() ==> is_ascii(#[trigger] s[i])
}

/// A letter: an ASCII one, or what Unicode calls alphabetic.
pub open spec fn is_alpha(c: char) -> bool {
    if is_ascii(c) {
        is_letter(c)
    } else {
        char_alphabetic(c)
    }
}

/// A letter or a number: an ASCII letter or digit, or what Unicode calls alphanumeric.
pub open spec fn is_alnum(c: char) -> bool {
    if is_ascii(c) {
        is_letter(c) || is_digit(c)
    } else {
        char_alphanumeric(c)
    }
}

/// ASCII upper-casing of one character.
pub open spec fn ascii_upper(c: char) -> char {
    if 'a' <= c <= 'z' {
        ((c as u8) - 32) as u8 as char
    } else {
        c
    }
}

/// ASCII upper-casing of a text.
pub open spec fn ascii_upper_text(s: Seq<char>) -> Seq<char> {
    Seq::new(s.len(), |i: int| ascii_upper(s[i]))
}

/// A text in lower case.
pub open spec fn lower_text(s: Seq<char>) -> Seq<char> {
    if all_ascii(s) {
        ascii_lower_text(s)
    } else {
        str_lowercase(s)
    }
}

/// A text in upper case.
pub open spec fn upper_text(s: Seq<char>) -> Seq<char> {
    if all_ascii(s) {
        ascii_upper_text(s)
    } else {
        str_uppercase(s)
    }
}

/// A character in lower case.
pub open spec fn lower_char(c: char) -> Seq<char> {
    if is_ascii(c) {
        seq![ascii_lower(c)]
    } else {
        char_lowercase(c)
    }
}

/// A character in upper case.
pub open spec fn upper_char(c: char) -> Seq<char> {
    if is_ascii(c) {
        seq![ascii_upper(c)]
    } else {
        char_uppercase(c)
    }
}

/// A character that a quoted text shows as it is.
pub open spec fn shows_plain(c: char) -> bool {
    ' ' <= c <= '~' && c != '"' && c != '\\'
}

/// A text quoted and escaped.
pub open spec fn debug_text(s: Seq<char>) -> Seq<char> {
    if forall|i: int| 0 <= i < s.len() ==> shows_plain(#[trigger] s[i]) {
        seq!['"'] + s + seq!['"']
    } else {
        str_debug(s)
    }
}

/// A character quoted and escaped.
pub open spec fn debug_char(c: char) -> Seq<char> {
    if shows_plain(c) && c != '\'' {
        seq!['\'', c, '\'']
    } else {
        char_debug(c)
    }
}

/// Tests for a letter.
pub fn alphabetic(c: char) -> (r: bool)
    ensures
        r == is_alpha(c),
{
    if c as u32 <= 0x7f {
        letter(c)
    } else {
        std_is_alphabetic(c)
    }
}

/// Tests for a letter or a number.
pub fn alphanumeric(c: char) -> (r: bool)
    ensures
        r == is_alnum(c),
{
    if c as u32 <= 0x7f {
        letter(c) || digit(c)
    } else {
        std_is_alphanumeric(c)
    }
}

/// Tests whether all characters are ASCII.
fn ascii_only(cs: &Vec<char>) -> (r: bool)
    ensures
        r == all_ascii(cs@),
{
    let mut i: usize = 0;
    while i < cs.len()
        invariant
            i <= cs.len(),
            forall|j: int| 0 <= j < i ==> is_ascii(#[trigger] cs@[j]),
        decreases cs.len() - i,
    {
        if cs[i] as u32 > 0x7f {
            return false;
        }
        i += 1;
    }
    true
}

/// Lower-cases a text.
pub fn to_lower(s: &str) -> (r: String)
    ensures
        r@ == lower_text(s@),
{
    let cs = chars_of(s);
    if ascii_only(&cs) {
        ascii_lower_of(s)
    } else {
        std_str_lowercase(s)
    }
}

/// Upper-cases a text.
pub fn to_upper(s: &str) -> (r: String)
    ensures
        r@ == upper_text(s@),
{
    let cs = chars_of(s);
    if !ascii_only(&cs) {
        return std_str_uppercase(s);
    }
    let mut out = String::new();
    let mut i: usize = 0;
    while i < cs.len()
        invariant
            i <= cs.len(),
            cs@ == s@,
            out@ =~= ascii_upper_text(s@).take(i as int),
        decreases cs.len() - i,
    {
        let c = cs[i];
        if 'a' <= c && c <= 'z' {
            out.push((c as u8 - 32) as char);
        } else {
            out.push(c);
        }
        i += 1;
    }
    assert(ascii_upper_text(s@).take(i as int) =~= ascii_upper_text(s@));
    out
}

/// Lower-cases a character.
pub fn char_to_lower(c: char) -> (r: String)
    ensures
        r@ == lower_char(c),
{
    if c as u32 <= 0x7f {
        if 'A' <= c && c <= 'Z' {
            text_of_char((c as u8 + 32) as char)
        } else {
            text_of_char(c)
        }
    } else {
        std_char_lowercase(c)
    }
}

/// Upper-cases a character.
pub fn char_to_upper(c: char) -> (r: String)
    ensures
        r@ == upper_char(c),
{
    if c as u32 <= 0x7f {
        if 'a' <= c && c <= 'z' {
            text_of_char((c as u8 - 32) as char)
        } else {
            text_of_char(c)
        }
    } else {
        std_char_uppercase(c)
    }
}

/// Quotes and escapes a text.
pub fn debug_str(s: &str) -> (r: String)
    ensures
        r@ == debug_text(s@),
{
    let cs = chars_of(s);
    let mut i: usize = 0;
    while i < cs.len()
        invariant
            i <= cs.len(),
            cs@ == s@,
            forall|j: int| 0 <= j < i ==> shows_plain(#[trigger] s@[j]),
        decreases cs.len() - i,
    {
        let c = cs[i];
        if !(' ' <= c && c <= '~' && c != '"' && c != '\\') {
            assert(!shows_plain(s@[i as int]));
            return std_str_debug(s);
        }
        i += 1;
    }
    let mut out = String::new();
    out.push('"');
    out.append(s);
    out.push('"');
    assert(out@ =~= seq!['"'] + s@ + seq!['"']);
    out
}

/// Quotes and escapes a character.
pub fn debug_of_char(c: char) -> (r: String)
    ensures
        r@ == debug_char(c),
{
    if ' ' <= c && c <= '~' && c != '"' && c != '\\' && c != '\'' {
        let mut out = String::new();
        out.push('\'');
        out.push(c);
        out.push('\'');
        assert(out@ =~= seq!['\'', c, '\'']);
        out
    } else {
        std_char_debug(c)
    }
}

/// std's `==` on strings compares their characters.
#[verifier::external_body]
pub(crate) fn same(a: &str, b: &str) -> (r: bool)
    ensures
        r == (a@ == b@),
{
    a == b
}

/// std's `String::push` appends one character.
pub assume_specification[ std::string::String::push ](s: &mut std::string::String, c: char)
    ensures
        final(s)@ == old(s)@.push(c),
;

// ---------------------------------------------------------------------------------------
// Conversions between strings and character vectors
// ---------------------------------------------------------------------------------------

/// The characters of a string.
pub fn chars_of(s: &str) -> (r: Vec<char>)
    ensures
        r@ == s@,
{
    let mut out: Vec<char> = Vec::new();
    for c in it: s.chars()
        invariant
            out@ == s@.take(it.index() as int),
            it.seq() == s@,
    {
        out.push(c);
    }
    assert(s@.take(s@.len() as int) =~= s@);
    out
}

/// The string made of some characters.
pub fn text_of(cs: &[char]) -> (r: String)
    ensures
        r@ == cs@,
{
    let mut out = String::new();
    let mut i: usize = 0;
    while i < cs.len()
        invariant
            i <= cs.len(),
            out@ == cs@.take(i as int),
        decreases cs.len() - i,
    {
        out.push(cs[i]);
        i += 1;
        assert(cs@.take(i as int) =~= cs@.take(i - 1).push(cs@[i - 1]));
    }
    assert(cs@.take(i as int) =~= cs@);
    out
}

/// The characters `from..to` of a vector.
pub fn span(cs: &Vec<char>, from: usize, to: usize) -> (r: Vec<char>)
    requires
        from <= to <= cs.len(),
    ensures
        r@ == cs@.subrange(from as int, to as int),
{
    let mut out: Vec<char> = Vec::new();
    let mut i: usize = from;
    while i < to
        invariant
            from <= i <= to <= cs.len(),
            out@ == cs@.subrange(from as int, i as int),
        decreases to - i,
    {
        out.push(cs[i]);
        i += 1;
        assert(cs@.subrange(from as int, i as int) =~= cs@.subrange(from as int, i - 1).push(
            cs@[i - 1],
        ));
    }
    out
}

/// The string made of the characters `from..to` of a vector.
pub fn text_span(cs: &Vec<char>, from: usize, to: usize) -> (r: String)
    requires
        from <= to <= cs.len(),
    ensures
        r@ == cs@.subrange(from as int, to as int),
{
    let part = span(cs, from, to);
    text_of(part.as_slice())
}

/// The string of a single character.
pub fn text_of_char(c: char) -> (r: String)
    ensures
        r@ == seq![c],
{
    let mut out = String::new();
    out.push(c);
    assert(out@ =~= seq![c]);
    out
}

/// The concatenation of two strings.
pub fn join2(a: &str, b: &str) -> (r: String)
    ensures
        r@ == a@ + b@,
{
    let mut out = a.to_owned();
    out.append(b);
    out
}

/// The concatenation of three strings.
pub fn join3(a: &str, b: &str, c: &str) -> (r: String)
    ensures
        r@ == a@ + b@ + c@,
{
    let mut out = a.to_owned();
    out.append(b);
    out.append(c);
    out
}

// ---------------------------------------------------------------------------------------
// Lists of strings
// ---------------------------------------------------------------------------------------

/// The texts that a sequence of strings holds.
pub open spec fn names(v: Seq<String>) -> Seq<Seq<char>> {
    Seq::new(v.len(), |i: int| v[i]@)
}

/// Appending a string appends its text.
pub broadcast proof fn lemma_names_push(v: Seq<String>, s: String)
    ensures
        #[trigger] names(v.push(s)) == names(v).push(s@),
{
    assert(names(v.push(s)) =~= names(v).push(s@));
}

/// Searches a list of strings for a text.
pub fn list_has(v: &Vec<String>, s: &str) -> (r: bool)
    ensures
        r == names(v@).contains(s@),
{
    let mut i: usize = 0;
    while i < v.len()
        invariant
            i <= v.len(),
            forall|j: int| 0 <= j < i ==> names(v@)[j] != s@,
        decreases v.len() - i,
    {
        if same(v[i].as_str(), s) {
            assert(names(v@)[i as int] == s@);
            return true;
        }
        i += 1;
    }
    false
}

/// A copy of a list of strings.
pub fn copy_list(v: &Vec<String>) -> (r: Vec<String>)
    ensures
        names(r@) == names(v@),
        r@ == v@,
{
    let mut out: Vec<String> = Vec::new();
    let mut i: usize = 0;
    while i < v.len()
        invariant
            i <= v.len(),
            out@ == v@.take(i as int),
        decreases v.len() - i,
    {
        out.push(v[i].clone());
        i += 1;
        assert(v@.take(i as int) =~= v@.take(i - 1).push(v@[i - 1]));
    }
    assert(v@.take(i as int) =~= v@);
    out
}

// ---------------------------------------------------------------------------------------
// Searching, splitting, trimming
// ---------------------------------------------------------------------------------------

/// The position of the first `c` in `s`, or the length of `s` where there is none.
pub open spec fn find_char(s: Seq<char>, c: char) -> int
    decreases s.len(),
{
    if s.len() == 0 {
        0
    } else if s[0] == c {
        0
    } else {
        1 + find_char(s.drop_first(), c)
    }
}

/// What `find_char` means: nothing before the position is `c`, and the position holds `c`
/// unless it is the end.
pub proof fn lemma_find_char(s: Seq<char>, c: char)
    ensures
        0 <= find_char(s, c) <= s.len(),
        forall|j: int| 0 <= j < find_char(s, c) ==> s[j] != c,
        find_char(s, c) < s.len() ==> s[find_char(s, c)] == c,
        s.contains(c) <==> find_char(s, c) < s.len(),
    decreases s.len(),
{
    if s.len() > 0 && s[0] != c {
        lemma_find_char(s.drop_first(), c);
        assert forall|j: int| 0 <= j < find_char(s, c) implies s[j] != c by {
            if j > 0 {
                assert(s.drop_first()[j - 1] == s[j]);
            }
        }
        if s.contains(c) {
            let k = choose|k: int| 0 <= k < s.len() && s[k] == c;
            assert(s.drop_first()[k - 1] == c);
        }
    }
}

/// A position with those two properties is the one `find_char` gives.
pub proof fn lemma_find_char_unique(s: Seq<char>, c: char, i: int)
    requires
        0 <= i <= s.len(),
        forall|j: int| 0 <= j < i ==> s[j] != c,
        i < s.len() ==> s[i] == c,
    ensures
        find_char(s, c) == i,
{
    lemma_find_char(s, c);
    let k = find_char(s, c);
    if k < i {
        assert(s[k] != c);
    } else if i < k {
        assert(s[i] != c);
    }
}

/// Finds the first `c` at or after `from`; the length where there is none.
pub fn find_from(cs: &Vec<char>, from: usize, c: char) -> (r: usize)
    requires
        from <= cs.len(),
    ensures
        from <= r <= cs.len(),
        r - from == find_char(cs@.skip(from as int), c),
        forall|j: int| from <= j < r ==> cs@[j] != c,
        r < cs.len() ==> cs@[r as int] == c,
{
    let mut i: usize = from;
    while i < cs.len() && cs[i] != c
        invariant
            from <= i <= cs.len(),
            forall|j: int| from <= j < i ==> cs@[j] != c,
        decreases cs.len() - i,
    {
        i += 1;
    }
    proof {
        let s = cs@.skip(from as int);
        assert forall|j: int| 0 <= j < i - from implies s[j] != c by {
            assert(s[j] == cs@[from + j]);
        }
        lemma_find_char_unique(s, c, i - from);
    }
    i
}

/// `s` cut at every `sep`; one more piece than there are separators.
pub open spec fn split(s: Seq<char>, sep: char) -> Seq<Seq<char>>
    decreases s.len(),
{
    let i = find_char(s, sep);
    if 0 <= i < s.len() {
        seq![s.take(i)] + split(s.skip(i + 1), sep)
    } else {
        seq![s]
    }
}

/// Cuts a text at every `sep`.
pub fn split_text(s: &str, sep: char) -> (r: Vec<String>)
    ensures
        names(r@) == split(s@, sep),
{
    let cs = chars_of(s);
    let mut out: Vec<String> = Vec::new();
    let mut from: usize = 0;
    assert(cs@.skip(0) =~= cs@);
    loop
        invariant
            cs@ == s@,
            from <= cs.len(),
            names(out@) + split(cs@.skip(from as int), sep) == split(s@, sep),
        decreases cs.len() - from,
    {
        let i = find_from(&cs, from, sep);
        let ghost rest = cs@.skip(from as int);
        let ghost before = names(out@);
        out.push(text_span(&cs, from, i));
        proof {
            lemma_names_push(out@.drop_last(), out@.last());
            assert(out@.drop_last().push(out@.last()) =~= out@);
            assert(cs@.subrange(from as int, i as int) =~= rest.take(i - from));
        }
        if i == cs.len() {
            assert(rest.take(i - from) =~= rest);
            assert(names(out@) =~= before + seq![rest]);
            return out;
        }
        proof {
            assert(rest.skip(i - from + 1) =~= cs@.skip(i + 1));
            assert(names(out@) + split(cs@.skip(i + 1), sep) =~= before + (seq![
                rest.take(i - from),
            ] + split(cs@.skip(i + 1), sep)));
        }
        from = i + 1;
    }
}

/// `s` without its leading white space.
pub open spec fn trim_start(s: Seq<char>) -> Seq<char>
    decreases s.len(),
{
    if s.len() > 0 && is_space(s[0]) {
        trim_start(s.drop_first())
    } else {
        s
    }
}

/// `s` without its trailing white space.
pub open spec fn trim_end(s: Seq<char>) -> Seq<char>
    decreases s.len(),
{
    if s.len() > 0 && is_space(s.last()) {
        trim_end(s.drop_last())
    } else {
        s
    }
}

/// `s` without the white space around it.
pub open spec fn trim(s: Seq<char>) -> Seq<char> {
    trim_end(trim_start(s))
}

/// Counts the leading white space of the characters from `from` on, up to `to`.
pub fn skip_space(cs: &Vec<char>, from: usize, to: usize) -> (r: usize)
    requires
        from <= to <= cs.len(),
    ensures
        from <= r <= to,
        cs@.subrange(r as int, to as int) == trim_start(cs@.subrange(from as int, to as int)),
        r < to ==> !is_space(cs@[r as int]),
        forall|j: int| from <= j < r ==> is_space(#[trigger] cs@[j]),
{
    let mut i: usize = from;
    while i < to && space(cs[i])
        invariant
            from <= i <= to <= cs.len(),
            trim_start(cs@.subrange(i as int, to as int)) == trim_start(
                cs@.subrange(from as int, to as int),
            ),
            forall|j: int| from <= j < i ==> is_space(#[trigger] cs@[j]),
        decreases to - i,
    {
        assert(cs@.subrange(i as int, to as int).drop_first() =~= cs@.subrange(
            i + 1,
            to as int,
        ));
        i += 1;
    }
    i
}

/// Drops the trailing white space of the characters `from..to`.
pub fn drop_space(cs: &Vec<char>, from: usize, to: usize) -> (r: usize)
    requires
        from <= to <= cs.len(),
    ensures
        from <= r <= to,
        cs@.subrange(from as int, r as int) == trim_end(cs@.subrange(from as int, to as int)),
{
    let mut i: usize = to;
    while i > from && space(cs[i - 1])
        invariant
            from <= i <= to <= cs.len(),
            trim_end(cs@.subrange(from as int, i as int)) == trim_end(
                cs@.subrange(from as int, to as int),
            ),
        decreases i,
    {
        assert(cs@.subrange(from as int, i as int).drop_last() =~= cs@.subrange(
            from as int,
            i - 1,
        ));
        i -= 1;
    }
    i
}

/// Trims the characters `from..to` on both sides.
pub fn trim_span(cs: &Vec<char>, from: usize, to: usize) -> (r: (usize, usize))
    requires
        from <= to <= cs.len(),
    ensures
        from <= r.0 <= r.1 <= to,
        cs@.subrange(r.0 as int, r.1 as int) == trim(cs@.subrange(from as int, to as int)),
{
    let a = skip_space(cs, from, to);
    let b = drop_space(cs, a, to);
    (a, b)
}

/// A text without the white space around it.
pub fn trim_text(s: &str) -> (r: String)
    ensures
        r@ == trim(s@),
{
    let cs = chars_of(s);
    let (a, b) = trim_span(&cs, 0, cs.len());
    assert(cs@.subrange(0, cs@.len() as int) =~= cs@);
    text_span(&cs, a, b)
}

/// ASCII-lower-cases a text.
pub fn ascii_lower_of(s: &str) -> (r: String)
    ensures
        r@ == ascii_lower_text(s@),
{
    let cs = chars_of(s);
    let mut out = String::new();
    let mut i: usize = 0;
    while i < cs.len()
        invariant
            i <= cs.len(),
            cs@ == s@,
            out@ =~= ascii_lower_text(s@).take(i as int),
        decreases cs.len() - i,
    {
        let c = cs[i];
        if 'A' <= c && c <= 'Z' {
            out.push((c as u8 + 32) as char);
        } else {
            out.push(c);
        }
        i += 1;
    }
    assert(ascii_lower_text(s@).take(i as int) =~= ascii_lower_text(s@));
    out
}

/// `s` ends with `p`.
pub open spec fn ends(s: Seq<char>, p: Seq<char>) -> bool {
    p.len() <= s.len() && s.skip(s.len() - p.len()) == p
}

/// `p` stands in `s` at position `i`.
pub open spec fn stands_at(s: Seq<char>, p: Seq<char>, i: int) -> bool {
    0 <= i && i + p.len() <= s.len() && s.subrange(i, i + p.len()) == p
}

/// `p` stands somewhere in `s`.
pub open spec fn occurs(s: Seq<char>, p: Seq<char>) -> bool {
    exists|i: int| stands_at(s, p, i)
}

/// Compares the characters of `cs` at `i` with all of `p`.
pub fn at(cs: &Vec<char>, i: usize, p: &Vec<char>) -> (r: bool)
    requires
        i <= cs.len(),
    ensures
        r == stands_at(cs@, p@, i as int),
{
    if p.len() > cs.len() - i {
        return false;
    }
    let mut j: usize = 0;
    while j < p.len()
        invariant
            i + p.len() <= cs.len(),
            j <= p.len(),
            forall|k: int| 0 <= k < j ==> cs@[i + k] == p@[k],
        decreases p.len() - j,
    {
        if cs[i + j] != p[j] {
            assert(cs@.subrange(i as int, i + p@.len())[j as int] != p@[j as int]);
            return false;
        }
        j += 1;
    }
    assert(cs@.subrange(i as int, i + p@.len()) =~= p@);
    true
}

/// Tests whether a text ends with another.
pub fn text_ends(s: &str, p: &str) -> (r: bool)
    ensures
        r == ends(s@, p@),
{
    let cs = chars_of(s);
    let ps = chars_of(p);
    if ps.len() > cs.len() {
        return false;
    }
    let i: usize = cs.len() - ps.len();
    assert(cs@.subrange(i as int, i + ps@.len()) =~= cs@.skip(i as int));
    at(&cs, i, &ps)
}

/// Tests whether a text holds another anywhere.
pub fn text_has(s: &str, p: &str) -> (r: bool)
    ensures
        r == occurs(s@, p@),
{
    let cs = chars_of(s);
    let ps = chars_of(p);
    let mut i: usize = 0;
    loop
        invariant
            cs@ == s@,
            ps@ == p@,
            i <= cs.len(),
            forall|k: int| 0 <= k < i ==> !stands_at(s@, p@, k),
        decreases cs.len() - i,
    {
        if at(&cs, i, &ps) {
            return true;
        }
        if i == cs.len() {
            assert forall|k: int| !stands_at(s@, p@, k) by {}
            return false;
        }
        i += 1;
    }
}

// ---------------------------------------------------------------------------------------
// Order
// ---------------------------------------------------------------------------------------

/// Lexicographic order by code point, the order of strings.
pub open spec fn text_le(a: Seq<char>, b: Seq<char>) -> bool
    decreases a.len(),
{
    if a.len() == 0 {
        true
    } else if b.len() == 0 {
        false
    } else if a[0] != b[0] {
        a[0] < b[0]
    } else {
        text_le(a.drop_first(), b.drop_first())
    }
}

/// The order is reflexive.
pub proof fn lemma_text_le_refl(a: Seq<char>)
    ensures
        text_le(a, a),
    decreases a.len(),
{
    if a.len() > 0 {
        lemma_text_le_refl(a.drop_first());
    }
}

/// The order is antisymmetric.
pub proof fn lemma_text_le_antisym(a: Seq<char>, b: Seq<char>)
    requires
        text_le(a, b),
        text_le(b, a),
    ensures
        a == b,
    decreases a.len(),
{
    if a.len() == 0 || b.len() == 0 {
        assert(a =~= b);
    } else {
        lemma_text_le_antisym(a.drop_first(), b.drop_first());
        assert(a =~= seq![a[0]] + a.drop_first());
        assert(b =~= seq![b[0]] + b.drop_first());
    }
}

/// The order is transitive.
pub proof fn lemma_text_le_trans(a: Seq<char>, b: Seq<char>, c: Seq<char>)
    requires
        text_le(a, b),
        text_le(b, c),
    ensures
        text_le(a, c),
    decreases a.len(),
{
    if a.len() > 0 && b.len() > 0 && c.len() > 0 && a[0] == b[0] && b[0] == c[0] {
        lemma_text_le_trans(a.drop_first(), b.drop_first(), c.drop_first());
    }
}

/// The order is total.
pub proof fn lemma_text_le_total(a: Seq<char>, b: Seq<char>)
    ensures
        text_le(a, b) || text_le(b, a),
    decreases a.len(),
{
    if a.len() > 0 && b.len() > 0 && a[0] == b[0] {
        lemma_text_le_total(a.drop_first(), b.drop_first());
    }
}

/// Tests the order of two texts.
pub fn text_not_after(a: &str, b: &str) -> (r: bool)
    ensures
        r == text_le(a@, b@),
{
    let x = chars_of(a);
    let y = chars_of(b);
    let mut i: usize = 0;
    assert(x@.skip(0) =~= x@);
    assert(y@.skip(0) =~= y@);
    loop
        invariant
            i <= x.len(),
            i <= y.len(),
            text_le(x@.skip(i as int), y@.skip(i as int)) == text_le(a@, b@),
        decreases x.len() - i,
    {
        if i == x.len() {
            return true;
        }
        if i == y.len() {
            return false;
        }
        if x[i] != y[i] {
            return x[i] < y[i];
        }
        assert(x@.skip(i as int).drop_first() =~= x@.skip(i + 1));
        assert(y@.skip(i as int).drop_first() =~= y@.skip(i + 1));
        i += 1;
    }
}

// ---------------------------------------------------------------------------------------
// Decimal integers
// ---------------------------------------------------------------------------------------

/// The character of a digit `0..=9`.
pub open spec fn digit_char(n: int) -> char {
    (n + 48) as u8 as char
}

/// The value of a digit character.
pub open spec fn digit_value(c: char) -> int {
    c as int - 48
}

/// A natural number in decimal, without leading zeros.
pub open spec fn dec_nat(n: nat) -> Seq<char>
    decreases n,
{
    if n < 10 {
        seq![digit_char(n as int)]
    } else {
        dec_nat(n / 10).push(digit_char((n % 10) as int))
    }
}

/// An integer in decimal, with a `-` where it is negative.
pub open spec fn dec(i: int) -> Seq<char> {
    if i < 0 {
        seq!['-'] + dec_nat((-i) as nat)
    } else {
        dec_nat(i as nat)
    }
}

/// Every character is a digit.
pub open spec fn all_digits(s: Seq<char>) -> bool {
    forall|i: int| 0 <= i < s.len() ==> is_digit(#[trigger] s[i])
}

/// The number that a row of digits writes.
pub open spec fn digits_value(s: Seq<char>) -> nat
    decreases s.len(),
{
    if s.len() == 0 {
        0
    } else {
        (10 * digits_value(s.drop_last()) + digit_value(s.last())) as nat
    }
}

/// The integer that a text writes in decimal: an optional sign, then at least one digit.
pub open spec fn parse_int(s: Seq<char>) -> Option<int> {
    let signed = s.len() > 0 && (s[0] == '-' || s[0] == '+');
    let body = if signed {
        s.drop_first()
    } else {
        s
    };
    if body.len() == 0 || !all_digits(body) {
        None
    } else if signed && s[0] == '-' {
        Some(-(digits_value(body) as int))
    } else {
        Some(digits_value(body) as int)
    }
}

/// What reading a text as an `i64` gives.
pub open spec fn parse_i64_spec(s: Seq<char>) -> Option<i64> {
    match parse_int(s) {
        Some(v) if i64::MIN <= v <= i64::MAX => Some(v as i64),
        _ => None,
    }
}

/// A digit more makes no row of digits smaller.
pub proof fn lemma_digits_value_take(s: Seq<char>, i: int)
    requires
        0 <= i <= s.len(),
        all_digits(s),
    ensures
        digits_value(s.take(i)) <= digits_value(s),
    decreases s.len() - i,
{
    if i == s.len() {
        assert(s.take(i) =~= s);
    } else {
        lemma_digits_value_take(s, i + 1);
        assert(s.take(i + 1).drop_last() =~= s.take(i));
        assert(is_digit(s[i]));
    }
}

/// Reads the digits of `cs[from..]`; `None` where they write more than `u64` holds.
pub fn read_digits(cs: &Vec<char>, from: usize) -> (r: Option<u64>)
    requires
        from <= cs.len(),
        all_digits(cs@.skip(from as int)),
    ensures
        r == (if digits_value(cs@.skip(from as int)) <= u64::MAX {
            Some(digits_value(cs@.skip(from as int)) as u64)
        } else {
            None
        }),
{
    let ghost s = cs@.skip(from as int);
    let mut acc: u64 = 0;
    let mut i: usize = from;
    while i < cs.len()
        invariant
            from <= i <= cs.len(),
            s == cs@.skip(from as int),
            all_digits(s),
            acc == digits_value(s.take(i - from)),
        decreases cs.len() - i,
    {
        assert(is_digit(s[i - from]));
        let d: u64 = (cs[i] as u32 - 48) as u64;
        proof {
            assert(s.take(i - from + 1).drop_last() =~= s.take(i - from));
            lemma_digits_value_take(s, i - from + 1);
        }
        if acc > (u64::MAX - d) / 10 {
            assert(10 * acc + d > u64::MAX);
            return None;
        }
        acc = 10 * acc + d;
        i += 1;
    }
    assert(s.take(i - from) =~= s);
    Some(acc)
}

/// Tests whether all characters from `from` on are digits.
pub fn digits_from(cs: &Vec<char>, from: usize) -> (r: bool)
    requires
        from <= cs.len(),
    ensures
        r == all_digits(cs@.skip(from as int)),
{
    let mut i: usize = from;
    while i < cs.len()
        invariant
            from <= i <= cs.len(),
            forall|j: int| from <= j < i ==> is_digit(#[trigger] cs@[j]),
        decreases cs.len() - i,
    {
        if !digit(cs[i]) {
            assert(!is_digit(cs@.skip(from as int)[i - from]));
            return false;
        }
        i += 1;
    }
    assert forall|k: int| 0 <= k < cs@.skip(from as int).len() implies is_digit(
        #[trigger] cs@.skip(from as int)[k],
    ) by {
        assert(is_digit(cs@[from + k]));
    }
    true
}

/// Reads a text as an `i64`, as `str::parse` does.
pub fn parse_i64(s: &str) -> (r: Option<i64>)
    ensures
        r == parse_i64_spec(s@),
{
    let cs = chars_of(s);
    let signed = cs.len() > 0 && (cs[0] == '-' || cs[0] == '+');
    let from: usize = if signed {
        1
    } else {
        0
    };
    proof {
        if signed {
            assert(cs@.skip(1) =~= cs@.drop_first());
        } else {
            assert(cs@.skip(0) =~= cs@);
        }
    }
    if cs.len() == from || !digits_from(&cs, from) {
        return None;
    }
    let v = match read_digits(&cs, from) {
        Some(v) => v,
        None => {
            return None;
        },
    };
    if signed && cs[0] == '-' {
        if v == 0x8000_0000_0000_0000 {
            Some(i64::MIN)
        } else if v < 0x8000_0000_0000_0000 {
            Some(-(v as i64))
        } else {
            None
        }
    } else if v <= 0x7fff_ffff_ffff_ffff {
        Some(v as i64)
    } else {
        None
    }
}

/// Writes a `u64` in decimal.
pub fn dec_u64(n: u64) -> (r: String)
    ensures
        r@ == dec_nat(n as nat),
    decreases n,
{
    if n < 10 {
        let mut out = String::new();
        out.push((n as u8 + 48) as char);
        assert(out@ =~= dec_nat(n as nat));
        out
    } else {
        let mut out = dec_u64(n / 10);
        out.push(((n % 10) as u8 + 48) as char);
        out
    }
}

/// Writes an `i64` in decimal.
pub fn dec_i64(i: i64) -> (r: String)
    ensures
        r@ == dec(i as int),
{
    if i < 0 {
        let n: u64 = if i == i64::MIN {
            0x8000_0000_0000_0000
        } else {
            (-i) as u64
        };
        let d = dec_u64(n);
        let mut out = String::new();
        out.push('-');
        out.append(d.as_str());
        assert(out@ =~= dec(i as int));
        out
    } else {
        dec_u64(i as u64)
    }
}

/// The number of bytes of a character in UTF-8.
pub open spec fn utf8_width(c: char) -> nat {
    let n = c as u32;
    if n < 0x80 {
        1
    } else if n < 0x800 {
        2
    } else if n < 0x10000 {
        3
    } else {
        4
    }
}

/// The number of bytes of a text in UTF-8.
pub open spec fn utf8_len(s: Seq<char>) -> nat
    decreases s.len(),
{
    if s.len() == 0 {
        0
    } else {
        utf8_len(s.drop_last()) + utf8_width(s.last())
    }
}

/// Counts the bytes of a text in UTF-8.
pub fn byte_len(cs: &Vec<char>) -> (r: u128)
    ensures
        r == utf8_len(cs@),
{
    let mut n: u128 = 0;
    let mut i: usize = 0;
    while i < cs.len()
        invariant
            i <= cs.len(),
            n == utf8_len(cs@.take(i as int)),
            n <= 4 * i,
        decreases cs.len() - i,
    {
        let c: u32 = cs[i] as u32;
        assert(cs@.take(i + 1).drop_last() =~= cs@.take(i as int));
        let w: u128 = if c < 0x80 {
            1
        } else if c < 0x800 {
            2
        } else if c < 0x10000 {
            3
        } else {
            4
        };
        n = n + w;
        i += 1;
    }
    assert(cs@.take(i as int) =~= cs@);
    n
}

/// `n` zeros.
pub open spec fn zeros(n: nat) -> Seq<char> {
    Seq::new(n, |i: int| '0')
}

/// A text filled up with leading zeros to a width.
pub open spec fn zero_filled(s: Seq<char>, width: nat) -> Seq<char> {
    if s.len() < width {
        zeros((width - s.len()) as nat) + s
    } else {
        s
    }
}

/// Fills a text up with leading zeros.
pub fn zero_fill(s: &str, width: usize) -> (r: String)
    ensures
        r@ == zero_filled(s@, width as nat),
{
    let cs = chars_of(s);
    let mut out = String::new();
    let mut i: usize = cs.len();
    while i < width
        invariant
            cs.len() <= i,
            i <= width || i == cs.len(),
            out@ =~= zeros((i - cs.len()) as nat),
        decreases width - i,
    {
        out.push('0');
        i += 1;
    }
    out.append(s);
    assert(out@ =~= zero_filled(s@, width as nat));
    out
}

// ---------------------------------------------------------------------------------------
// Laws
// ---------------------------------------------------------------------------------------

/// What the decimal digits of a number are: digits, without a leading zero, whose value is
/// the number.
pub proof fn lemma_dec_nat(n: nat)
    ensures
        all_digits(dec_nat(n)),
        dec_nat(n).len() > 0,
        dec_nat(n)[0] == '0' ==> n == 0,
        n < 10 ==> dec_nat(n).len() == 1,
        digits_value(dec_nat(n)) == n,
    decreases n,
{
    if n < 10 {
        let c = digit_char(n as int);
        assert(c as int == n + 48);
        assert(dec_nat(n).drop_last() =~= Seq::empty());
        assert(digits_value(dec_nat(n).drop_last()) == 0);
        assert(c == '0' ==> n == 0);
    } else {
        lemma_dec_nat(n / 10);
        let c = digit_char((n % 10) as int);
        assert(c as int == n % 10 + 48);
        assert(dec_nat(n).drop_last() =~= dec_nat(n / 10));
    }
}

/// An integer in decimal reads back as itself.
pub proof fn law_decimal_reads_back(i: int)
    ensures
        parse_int(dec(i)) == Some(i),
        i64::MIN <= i <= i64::MAX ==> parse_i64_spec(dec(i)) == Some(i as i64),
{
    if i < 0 {
        lemma_dec_nat((-i) as nat);
        assert(dec(i).drop_first() =~= dec_nat((-i) as nat));
    } else {
        lemma_dec_nat(i as nat);
        assert(is_digit(dec_nat(i as nat)[0]));
    }
}

/// An integer in decimal has no white space around it.
pub proof fn lemma_dec_is_trimmed(i: int)
    ensures
        trim(dec(i)) == dec(i),
{
    let s = dec(i);
    let n: nat = if i < 0 {
        (-i) as nat
    } else {
        i as nat
    };
    lemma_dec_nat(n);
    assert(is_digit(dec_nat(n)[0]));
    assert(is_digit(dec_nat(n)[dec_nat(n).len() - 1]));
    assert(s[s.len() - 1] == dec_nat(n)[dec_nat(n).len() - 1]);
    assert(!is_space(s[0]) && !is_space(s[s.len() - 1]));
}

/// What trimming leaves: a part of the text with white space before it and none at its
/// ends. So trimming again changes nothing.
pub proof fn lemma_trim(s: Seq<char>)
    ensures
        exists|a: int|
            #![trigger s.skip(a)]
            0 <= a && a + trim(s).len() <= s.len() && trim(s) == s.skip(a).take(
                trim(s).len() as int,
            ) && (forall|k: int| 0 <= k < a ==> is_space(#[trigger] s[k])),
        trim(trim(s)) == trim(s),
        trim(s).len() > 0 ==> !is_space(trim(s)[0]) && !is_space(trim(s).last()),
{
    lemma_trim_start(s);
    let a = choose|a: int|
        #![trigger s.skip(a)]
        0 <= a <= s.len() && trim_start(s) == s.skip(a) && (forall|k: int|
            0 <= k < a ==> is_space(#[trigger] s[k]));
    let t = trim_start(s);
    lemma_trim_end(t);
    let r = trim(s);
    assert(r == s.skip(a).take(r.len() as int));
    if r.len() > 0 {
        assert(r[0] == t[0]);
    }
}

proof fn lemma_trim_start(s: Seq<char>)
    ensures
        exists|a: int|
            #![trigger s.skip(a)]
            0 <= a <= s.len() && trim_start(s) == s.skip(a) && (forall|k: int|
                0 <= k < a ==> is_space(#[trigger] s[k])),
        trim_start(s).len() > 0 ==> !is_space(trim_start(s)[0]),
    decreases s.len(),
{
    if s.len() > 0 && is_space(s[0]) {
        let u = s.drop_first();
        lemma_trim_start(u);
        let b = choose|b: int|
            #![trigger u.skip(b)]
            0 <= b <= u.len() && trim_start(u) == u.skip(b) && (forall|k: int|
                0 <= k < b ==> is_space(#[trigger] u[k]));
        assert(u.skip(b) =~= s.skip(b + 1));
        assert forall|k: int| 0 <= k < b + 1 implies is_space(#[trigger] s[k]) by {
            if k > 0 {
                assert(u[k - 1] == s[k]);
            }
        }
    } else {
        assert(s.skip(0) =~= s);
    }
}

proof fn lemma_trim_end(s: Seq<char>)
    ensures
        trim_end(s).len() <= s.len(),
        trim_end(s) == s.take(trim_end(s).len() as int),
        trim_end(s).len() > 0 ==> !is_space(trim_end(s).last()),
    decreases s.len(),
{
    if s.len() > 0 && is_space(s.last()) {
        lemma_trim_end(s.drop_last());
        let n = trim_end(s).len() as int;
        assert(s.drop_last().take(n) =~= s.take(n));
    } else {
        assert(s.take(s.len() as int) =~= s);
    }
}

} // verus!
