//! INI inventories: `[group]` sections of hosts, `[group:children]` and `[group:vars]`
//! sections, host lines split like a shell would, inline `key=value` variables, host ranges,
//! and values read as Python literals.

use vstd::prelude::*;
use vstd::hash_map::StringHashMap;
use vstd::set_lib::lemma_len_subset;
use crate::assoc::Name;
use crate::error::{outcome, Error, ErrorView};
use crate::hostrange::{expand_hostpattern, expanded_pattern};
use crate::literal_eval::{law_leading_zeros_are_no_number, literal, literal_eval};
use crate::model::{lemma_add_child_wf, lemma_add_group_wf, lemma_special_names, InvView, InventoryData, UNGROUPED};
use crate::sanitize::{is_safe, lemma_safe_name_fixed, lemma_safe_name_is_safe, safe_name, to_safe_group_name};
use crate::text::{all_digits, alphanumeric, chars_of, copy_list, find_char, find_from, is_alnum, is_space, join2, join3, lemma_find_char, lemma_find_char_unique, lemma_names_push, names, same, skip_space, space, span, split, split_text, text_of, text_span, trim, trim_start, trim_text};
use crate::value::{int_value, Value, ValueView, VarsView};

verus! {

// ---------------------------------------------------------------------------------------
// Words of a line
// ---------------------------------------------------------------------------------------

/// The text of a double-quoted part from `p` on, and where it ends. A backslash takes the
/// next character as it is; a part that is not closed ends with the line.
pub open spec fn double_quoted(s: Seq<char>, p: int) -> (Seq<char>, int)
    decreases s.len() - p,
{
    if p < 0 || p >= s.len() {
        (Seq::empty(), p)
    } else if s[p] == '"' {
        (Seq::empty(), p + 1)
    } else if s[p] == '\\' {
        if p + 1 < s.len() {
            let (t, q) = double_quoted(s, p + 2);
            (seq![s[p + 1]] + t, q)
        } else {
            (Seq::empty(), p + 1)
        }
    } else {
        let (t, q) = double_quoted(s, p + 1);
        (seq![s[p]] + t, q)
    }
}

/// The text of a single-quoted part from `p` on, and where it ends.
pub open spec fn single_quoted(s: Seq<char>, p: int) -> (Seq<char>, int) {
    let n = find_char(s.skip(p), '\'');
    if p + n < s.len() {
        (s.subrange(p, p + n), p + n + 1)
    } else {
        (s.skip(p), s.len() as int)
    }
}

/// The words of `s` from `p` on, where `word` is the word that has begun, if one has.
/// White space separates words, quotes keep it, a backslash takes the next character as it
/// is, and a `#` between words starts a comment.
pub open spec fn words(s: Seq<char>, p: int, word: Option<Seq<char>>) -> Seq<Seq<char>>
    decreases s.len() - p,
    when 0 <= p <= s.len() via words_end
{
    let cur = match word {
        Some(w) => w,
        None => Seq::empty(),
    };
    let done = match word {
        Some(w) => seq![w],
        None => Seq::empty(),
    };
    if p >= s.len() {
        done
    } else if s[p] == '#' && word is None {
        Seq::empty()
    } else if is_space(s[p]) {
        done + words(s, p + 1, None)
    } else if s[p] == '\'' {
        let (t, q) = single_quoted(s, p + 1);
        words(s, q, Some(cur + t))
    } else if s[p] == '"' {
        let (t, q) = double_quoted(s, p + 1);
        words(s, q, Some(cur + t))
    } else if s[p] == '\\' {
        if p + 1 < s.len() {
            words(s, p + 2, Some(cur.push(s[p + 1])))
        } else {
            seq![cur]
        }
    } else {
        words(s, p + 1, Some(cur.push(s[p])))
    }
}

proof fn lemma_double_quoted(s: Seq<char>, p: int)
    requires
        0 <= p <= s.len(),
    ensures
        p <= double_quoted(s, p).1 <= s.len(),
    decreases s.len() - p,
{
    if p < s.len() && s[p] != '"' {
        if s[p] == '\\' {
            if p + 1 < s.len() {
                lemma_double_quoted(s, p + 2);
            }
        } else {
            lemma_double_quoted(s, p + 1);
        }
    }
}

proof fn lemma_single_quoted(s: Seq<char>, p: int)
    requires
        0 <= p <= s.len(),
    ensures
        p <= single_quoted(s, p).1 <= s.len(),
{
    lemma_find_char(s.skip(p), '\'');
}

#[via_fn]
proof fn words_end(s: Seq<char>, p: int, word: Option<Seq<char>>) {
    if p < s.len() {
        lemma_double_quoted(s, p + 1);
        lemma_single_quoted(s, p + 1);
    }
}

/// Reads a double-quoted part.
fn read_double_quoted(cs: &Vec<char>, p: usize, out: &mut String) -> (r: usize)
    requires
        p <= cs.len(),
    ensures
        (final(out)@, r as int) == ({
            let (t, q) = double_quoted(cs@, p as int);
            (old(out)@ + t, q)
        }),
        p <= r <= cs.len(),
{
    let ghost before = out@;
    let mut i: usize = p;
    proof {
        lemma_double_quoted(cs@, p as int);
    }
    assert(out@ + double_quoted(cs@, p as int).0 =~= before + double_quoted(cs@, p as int).0);
    loop
        invariant
            p <= i <= cs.len(),
            before == old(out)@,
            out@ + double_quoted(cs@, i as int).0 == before + double_quoted(cs@, p as int).0,
            double_quoted(cs@, i as int).1 == double_quoted(cs@, p as int).1,
        decreases cs.len() - i,
    {
        let ghost now = out@;
        if i >= cs.len() {
            assert(out@ + Seq::<char>::empty() =~= out@);
            return i;
        }
        let c = cs[i];
        if c == '"' {
            assert(out@ + Seq::<char>::empty() =~= out@);
            return i + 1;
        } else if c == '\\' {
            if i + 1 < cs.len() {
                out.push(cs[i + 1]);
                i += 2;
                let ghost t = double_quoted(cs@, i as int).0;
                assert(out@ + t =~= now + (seq![cs@[i - 1]] + t));
            } else {
                assert(out@ + Seq::<char>::empty() =~= out@);
                return i + 1;
            }
        } else {
            out.push(c);
            i += 1;
            let ghost t = double_quoted(cs@, i as int).0;
            assert(out@ + t =~= now + (seq![c] + t));
        }
    }
}

/// Splits a line into words, as a shell would.
pub fn shlex_split(line: &str) -> (r: Vec<String>)
    ensures
        names(r@) == words(line@, 0, None),
{
    let cs = chars_of(line);
    let mut tokens: Vec<String> = Vec::new();
    let mut cur = String::new();
    let mut in_token = false;
    let mut i: usize = 0;
    let ghost s = line@;
    assert(names(tokens@) + words(s, 0, None) =~= words(s, 0, None));
    loop
        invariant
            cs@ == s,
            s == line@,
            i <= cs.len(),
            !in_token ==> cur@ == Seq::<char>::empty(),
            names(tokens@) + words(
                s,
                i as int,
                if in_token {
                    Some(cur@)
                } else {
                    None
                },
            ) == words(s, 0, None),
        decreases cs.len() - i,
    {
        let ghost before = names(tokens@);
        let ghost word = if in_token {
            Some(cur@)
        } else {
            None
        };
        if i >= cs.len() {
            if in_token {
                proof {
                    lemma_names_push(tokens@, cur);
                    assert(before + seq![cur@] =~= before.push(cur@));
                }
                tokens.push(cur);
            } else {
                assert(before + Seq::<Seq<char>>::empty() =~= before);
            }
            return tokens;
        }
        let c = cs[i];
        if c == '#' && !in_token {
            assert(before + Seq::<Seq<char>>::empty() =~= before);
            return tokens;
        } else if space(c) {
            if in_token {
                let ghost rest = words(s, i + 1, None);
                proof {
                    lemma_names_push(tokens@, cur);
                    assert(before.push(cur@) + rest =~= before + (seq![cur@] + rest));
                }
                tokens.push(cur);
                cur = String::new();
                assert(cur@ =~= Seq::<char>::empty());
                in_token = false;
            } else {
                assert(before + (Seq::<Seq<char>>::empty() + words(s, i + 1, None)) =~= before
                    + words(s, i + 1, None));
            }
            i += 1;
        } else if c == '\'' {
            in_token = true;
            let n = find_from(&cs, i + 1, '\'');
            proof {
                lemma_single_quoted(s, i + 1);
            }
            let part = text_span(&cs, i + 1, n);
            cur.append(part.as_str());
            if n < cs.len() {
                i = n + 1;
            } else {
                assert(part@ =~= s.skip(i + 1));
                i = n;
            }
        } else if c == '"' {
            in_token = true;
            i = read_double_quoted(&cs, i + 1, &mut cur);
        } else if c == '\\' {
            in_token = true;
            if i + 1 < cs.len() {
                cur.push(cs[i + 1]);
                i += 2;
            } else {
                i += 1;
            }
        } else {
            in_token = true;
            cur.push(c);
            i += 1;
        }
    }
}

// ---------------------------------------------------------------------------------------
// Single lines
// ---------------------------------------------------------------------------------------

/// Some character of `s` is white space.
pub open spec fn holds_space(s: Seq<char>) -> bool {
    exists|i: int| 0 <= i < s.len() && is_space(#[trigger] s[i])
}

/// Every character of `s` is alphanumeric or an underscore.
pub open spec fn is_tag(s: Seq<char>) -> bool {
    forall|i: int| 0 <= i < s.len() ==> is_alnum(#[trigger] s[i]) || s[i] == '_'
}

/// The group and the tag of a section header `[group]` or `[group:tag]`; a comment may
/// follow it.
pub open spec fn section(line: Seq<char>) -> Option<(Name, Option<Name>)> {
    let close = find_char(line, ']');
    let inner = line.subrange(1, close);
    let rest = trim_start(line.skip(close + 1));
    let colon = find_char(inner, ':');
    if line.len() == 0 || line[0] != '[' || close >= line.len() {
        None
    } else if rest.len() > 0 && rest[0] != '#' {
        None
    } else if inner.len() == 0 || holds_space(inner) {
        None
    } else if colon >= inner.len() {
        Some((inner, None))
    } else if colon > 0 && colon + 1 < inner.len() && is_tag(inner.skip(colon + 1)) {
        Some((inner.take(colon), Some(inner.skip(colon + 1))))
    } else {
        None
    }
}

/// The part of a line before a `#`, trimmed.
pub open spec fn uncommented(line: Seq<char>) -> Seq<char> {
    trim(line.take(find_char(line, '#')))
}

/// Where the first word of `s` ends.
pub open spec fn word_end(s: Seq<char>) -> int
    decreases s.len(),
{
    if s.len() > 0 && !is_space(s[0]) {
        1 + word_end(s.drop_first())
    } else {
        0
    }
}

/// The group that a line of a `children` section names: its first word, comments aside.
pub open spec fn child_name(line: Seq<char>) -> Name {
    safe_name(uncommented(line).take(word_end(uncommented(line))))
}

/// What a value of an INI file is: a Python literal, or else the text itself.
pub open spec fn ini_value(s: Seq<char>) -> ValueView {
    match literal(s) {
        Some(v) => v,
        None => ValueView::Text(s),
    }
}

/// An error of an INI file.
pub open spec fn ini_fault(path: Seq<char>, msg: Seq<char>) -> ErrorView {
    ErrorView::Parse { path, msg }
}

/// The variables that the words of a host line assign, from word `from` on.
pub open spec fn host_assignments(ws: Seq<Seq<char>>, path: Seq<char>) -> Result<VarsView, ErrorView>
    decreases ws.len(),
{
    if ws.len() <= 1 {
        Ok(Seq::empty())
    } else {
        match host_assignments(ws.drop_last(), path) {
            Err(e) => Err(e),
            Ok(before) => {
                let w = ws.last();
                let eq = find_char(w, '=');
                if eq < w.len() {
                    Ok(before.push((w.take(eq), ini_value(w.skip(eq + 1)))))
                } else {
                    Err(
                        ini_fault(
                            path,
                            "Expected key=value host variable assignment, got: "@ + w,
                        ),
                    )
                }
            },
        }
    }
}

/// What a host line defines: host names, a port, and variables.
pub open spec fn host_definition(line: Seq<char>, path: Seq<char>) -> Result<
    (Seq<Name>, Option<u32>, VarsView),
    ErrorView,
> {
    let ws = words(line, 0, None);
    if ws.len() == 0 {
        Err(ini_fault(path, "Empty host definition: '"@ + line + "'"@))
    } else {
        match expanded_pattern(ws[0]) {
            Err(e) => Err(ini_fault(path, e.message())),
            Ok((hosts, port)) => match host_assignments(ws, path) {
                Err(e) => Err(e),
                Ok(vars) => Ok((hosts, port, vars)),
            },
        }
    }
}

/// What a line of a `vars` section assigns.
pub open spec fn variable_definition(line: Seq<char>, path: Seq<char>) -> Result<
    (Name, ValueView),
    ErrorView,
> {
    let eq = find_char(line, '=');
    if eq < line.len() {
        Ok((trim(line.take(eq)), ini_value(trim(line.skip(eq + 1)))))
    } else {
        Err(ini_fault(path, "Expected key=value, got: "@ + line))
    }
}

/// Whether some character is white space.
fn has_space(cs: &Vec<char>) -> (r: bool)
    ensures
        r == holds_space(cs@),
{
    let mut i: usize = 0;
    while i < cs.len()
        invariant
            i <= cs.len(),
            forall|j: int| 0 <= j < i ==> !is_space(#[trigger] cs@[j]),
        decreases cs.len() - i,
    {
        if space(cs[i]) {
            return true;
        }
        i += 1;
    }
    false
}

/// Whether every character may stand in a tag.
fn tag_chars(cs: &Vec<char>) -> (r: bool)
    ensures
        r == is_tag(cs@),
{
    let mut i: usize = 0;
    while i < cs.len()
        invariant
            i <= cs.len(),
            forall|j: int| 0 <= j < i ==> is_alnum(#[trigger] cs@[j]) || cs@[j] == '_',
        decreases cs.len() - i,
    {
        if !(alphanumeric(cs[i]) || cs[i] == '_') {
            return false;
        }
        i += 1;
    }
    true
}

/// Reads a section header.
pub fn parse_section(line: &str) -> (r: Option<(String, Option<String>)>)
    ensures
        (match r {
            Some((g, Some(t))) => Some((g@, Some(t@))),
            Some((g, None)) => Some((g@, None)),
            None => None,
        }) == section(line@),
{
    let cs = chars_of(line);
    if cs.len() == 0 || cs[0] != '[' {
        return None;
    }
    assert(cs@.skip(0) =~= cs@);
    let close = find_from(&cs, 0, ']');
    if close == cs.len() {
        return None;
    }
    let rest = skip_space(&cs, close + 1, cs.len());
    proof {
        assert(cs@.subrange(close + 1, cs@.len() as int) =~= cs@.skip(close + 1));
        assert(cs@.subrange(rest as int, cs@.len() as int).len() == cs@.len() - rest);
    }
    if rest < cs.len() && cs[rest] != '#' {
        return None;
    }
    let inner = span(&cs, 1, close);
    if inner.len() == 0 || has_space(&inner) {
        return None;
    }
    assert(inner@.skip(0) =~= inner@);
    let colon = find_from(&inner, 0, ':');
    if colon == inner.len() {
        return Some((text_of(inner.as_slice()), None));
    }
    if colon == 0 || colon + 1 == inner.len() {
        return None;
    }
    let tag = span(&inner, colon + 1, inner.len());
    assert(tag@ =~= inner@.skip(colon + 1));
    if !tag_chars(&tag) {
        return None;
    }
    assert(inner@.subrange(0, colon as int) =~= inner@.take(colon as int));
    Some((text_span(&inner, 0, colon), Some(text_of(tag.as_slice()))))
}

/// Counts the characters of the first word.
fn first_word_len(cs: &Vec<char>) -> (r: usize)
    ensures
        r == word_end(cs@),
        r <= cs.len(),
{
    let mut i: usize = 0;
    assert(cs@.skip(0) =~= cs@);
    while i < cs.len() && !space(cs[i])
        invariant
            i <= cs.len(),
            word_end(cs@) == i + word_end(cs@.skip(i as int)),
        decreases cs.len() - i,
    {
        assert(cs@.skip(i as int).drop_first() =~= cs@.skip(i + 1));
        i += 1;
    }
    i
}

/// The safe name of the group that a line of a `children` section names.
fn parse_child_name(line: &str) -> (r: String)
    ensures
        r@ == child_name(line@),
{
    let cs = chars_of(line);
    assert(cs@.skip(0) =~= cs@);
    let hash = find_from(&cs, 0, '#');
    let head = text_span(&cs, 0, hash);
    assert(head@ =~= line@.take(hash as int));
    let part = trim_text(head.as_str());
    let pcs = chars_of(part.as_str());
    let n = first_word_len(&pcs);
    let word = text_span(&pcs, 0, n);
    assert(word@ =~= pcs@.take(n as int));
    to_safe_group_name(word.as_str())
}

/// Reads a value of an INI file.
fn parse_value(v: &str) -> (r: Value)
    ensures
        r@ == ini_value(v@),
{
    match literal_eval(v) {
        Some(x) => x,
        None => Value::Text(v.to_owned()),
    }
}

/// An error of an INI file.
fn perr(path: &str, msg: String) -> (r: Error)
    ensures
        r@ == ini_fault(path@, msg@),
{
    Error::Parse { path: path.to_owned(), msg }
}

/// Cuts a text at its first `=`.
fn cut_at_equals(s: &str) -> (r: Option<(String, String)>)
    ensures
        r is Some <==> find_char(s@, '=') < s@.len(),
        r matches Some((k, v)) ==> k@ == s@.take(find_char(s@, '=')) && v@ == s@.skip(
            find_char(s@, '=') + 1,
        ),
{
    let cs = chars_of(s);
    assert(cs@.skip(0) =~= cs@);
    let eq = find_from(&cs, 0, '=');
    if eq == cs.len() {
        return None;
    }
    let k = text_span(&cs, 0, eq);
    let v = text_span(&cs, eq + 1, cs.len());
    assert(k@ =~= s@.take(eq as int));
    assert(v@ =~= s@.skip(eq + 1));
    Some((k, v))
}

/// The host names, the shared port and the variables of a host line.
pub struct HostDef {
    pub hosts: Vec<String>,
    pub port: Option<u32>,
    pub vars: Vec<(String, Value)>,
}

/// What a list of variables holds.
pub open spec fn assignments(v: Seq<(String, Value)>) -> VarsView {
    Seq::new(v.len(), |i: int| (v[i].0@, v[i].1@))
}

impl View for HostDef {
    type V = (Seq<Name>, Option<u32>, VarsView);

    open spec fn view(&self) -> (Seq<Name>, Option<u32>, VarsView) {
        (names(self.hosts@), self.port, assignments(self.vars@))
    }
}

/// An error among the first words is the error of all.
proof fn lemma_assignment_error(ws: Seq<Seq<char>>, path: Seq<char>, n: int)
    requires
        1 <= n <= ws.len(),
        host_assignments(ws.take(n), path) is Err,
    ensures
        host_assignments(ws, path) == host_assignments(ws.take(n), path),
    decreases ws.len() - n,
{
    if n == ws.len() {
        assert(ws.take(n) =~= ws);
    } else {
        assert(ws.take(n + 1).drop_last() =~= ws.take(n));
        lemma_assignment_error(ws, path, n + 1);
    }
}

/// Reads a host line.
fn parse_host_definition(line: &str, path: &str) -> (r: Result<HostDef, Error>)
    ensures
        outcome(r, |d: HostDef| d@) == host_definition(line@, path@),
{
    let tokens = shlex_split(line);
    let ghost ws = names(tokens@);
    if tokens.len() == 0 {
        let msg = join3("Empty host definition: '", line, "'");
        return Err(perr(path, msg));
    }
    assert(ws[0] == tokens@[0]@);
    let (hosts, port) = match expand_hostpattern(tokens[0].as_str()) {
        Ok(x) => x,
        Err(e) => {
            return Err(perr(path, e.message()));
        },
    };
    let mut vars: Vec<(String, Value)> = Vec::new();
    let mut i: usize = 1;
    assert(assignments(vars@) =~= Seq::empty());
    while i < tokens.len()
        invariant
            1 <= i <= tokens.len(),
            ws == names(tokens@),
            ws == words(line@, 0, None),
            expanded_pattern(ws[0]) == Ok::<(Seq<Name>, Option<u32>), ErrorView>(
                (names(hosts@), port),
            ),
            host_assignments(ws.take(i as int), path@) == Ok::<VarsView, ErrorView>(
                assignments(vars@),
            ),
        decreases tokens.len() - i,
    {
        let t = &tokens[i];
        proof {
            assert(ws[i as int] == t@);
            assert(ws.take(i + 1).drop_last() =~= ws.take(i as int));
            assert(ws.take(i + 1).last() == t@);
        }
        match cut_at_equals(t.as_str()) {
            Some((k, v)) => {
                let ghost before = assignments(vars@);
                let value = parse_value(v.as_str());
                vars.push((k, value));
                assert(assignments(vars@) =~= before.push((k@, value@)));
            },
            None => {
                proof {
                    lemma_assignment_error(ws, path@, i + 1);
                }
                let msg = join2("Expected key=value host variable assignment, got: ", t.as_str());
                return Err(perr(path, msg));
            },
        }
        i += 1;
    }
    assert(ws.take(i as int) =~= ws);
    Ok(HostDef { hosts, port, vars })
}

/// Reads a line of a `vars` section.
fn parse_variable_definition(line: &str, path: &str) -> (r: Result<(String, Value), Error>)
    ensures
        outcome(r, |d: (String, Value)| (d.0@, d.1@)) == variable_definition(line@, path@),
{
    match cut_at_equals(line) {
        Some((k, v)) => {
            let key = trim_text(k.as_str());
            let text = trim_text(v.as_str());
            Ok((key, parse_value(text.as_str())))
        },
        None => Err(perr(path, join2("Expected key=value, got: ", line))),
    }
}

// ---------------------------------------------------------------------------------------
// Whole files
// ---------------------------------------------------------------------------------------

/// What the lines of a section are about.
#[derive(Debug, Clone, Copy, PartialEq, Eq, Structural)]
pub enum State {
    Hosts,
    Children,
    Vars,
}

/// A group that was named before it was declared: by what, and the groups it goes under.
struct Pending {
    state: State,
    parents: Vec<String>,
}

/// What a pending group is.
pub struct PendingView {
    pub state: State,
    pub parents: Seq<Name>,
}

impl View for Pending {
    type V = PendingView;

    closed spec fn view(&self) -> PendingView {
        PendingView { state: self.state, parents: names(self.parents@) }
    }
}

/// The pending groups, by name.
pub type PendingGroups = Map<Name, PendingView>;

/// Where reading a file stands: the inventory, the current section's group and what its
/// lines are about, and the pending groups.
pub struct IniState {
    pub inv: InvView,
    pub group: Name,
    pub state: State,
    pub pending: PendingGroups,
}

/// The names of pending groups are safe, and so are those of the groups they go under.
pub open spec fn pending_wf(p: PendingGroups) -> bool {
    &&& p.dom().finite()
    &&& forall|g: Name| #[trigger] p.dom().contains(g) ==> is_safe(g)
    &&& forall|g: Name, k: int|
        p.dom().contains(g) && 0 <= k < p[g].parents.len() ==> is_safe(
            #[trigger] p[g].parents[k],
        )
}

impl IniState {
    /// The invariant of reading a file.
    pub open spec fn wf(self) -> bool {
        &&& self.inv.wf()
        &&& is_safe(self.group)
        &&& self.inv.groups.dom().contains(self.group)
        &&& pending_wf(self.pending)
    }
}

/// The state at the start of a file, as behind a line `[ungrouped]`.
pub open spec fn ini_start(i: InvView) -> IniState {
    IniState { inv: i, group: UNGROUPED@, state: State::Hosts, pending: Map::empty() }
}

/// The pending groups without some of them.
pub open spec fn left(p: PendingGroups, gone: Set<Name>) -> PendingGroups {
    p.remove_keys(gone)
}

/// The inventory after a pending group was declared: it goes under every group that named
/// it, and where such a group is itself pending as a child, that one is settled too.
/// `gone` are the pending groups settled so far.
pub open spec fn settle(i: InvView, p: PendingGroups, gone: Set<Name>, g: Name) -> (
    InvView,
    Set<Name>,
)
    decreases p.dom().difference(gone).len(), 0nat, 0nat,
    when p.dom().finite()
{
    if !p.dom().contains(g) || gone.contains(g) {
        (i, gone)
    } else {
        proof {
            lemma_fewer_pending(p.dom(), gone, gone.insert(g), g);
        }
        settle_under(i.add_group(g), p, gone.insert(g), g, p[g].parents)
    }
}

/// The inventory after `g` went under each of `ps`, in order.
pub open spec fn settle_under(
    i: InvView,
    p: PendingGroups,
    gone: Set<Name>,
    g: Name,
    ps: Seq<Name>,
) -> (InvView, Set<Name>)
    decreases p.dom().difference(gone).len(), 1nat, ps.len(),
    when p.dom().finite()
{
    if ps.len() == 0 {
        (i, gone)
    } else {
        let linked = i.add_group(ps[0]).add_child(ps[0], g);
        if p.dom().contains(ps[0]) && !gone.contains(ps[0]) && p[ps[0]].state == State::Children {
            let (j, s) = settle(linked, p, gone, ps[0]);
            proof {
                lemma_no_more_pending(p.dom(), gone, s);
            }
            settle_under(j, p, gone.union(s), g, ps.drop_first())
        } else {
            settle_under(linked, p, gone, g, ps.drop_first())
        }
    }
}

/// Settling a group leaves fewer to settle.
pub proof fn lemma_fewer_pending(d: Set<Name>, gone: Set<Name>, now: Set<Name>, g: Name)
    requires
        d.finite(),
        d.contains(g),
        !gone.contains(g),
        now.contains(g),
        gone.subset_of(now),
    ensures
        d.difference(now).len() < d.difference(gone).len(),
{
    let a = d.difference(gone);
    assert(d.difference(now).subset_of(a.remove(g)));
    lemma_len_subset(d.difference(now), a.remove(g));
}

/// Settling groups leaves no more to settle.
pub proof fn lemma_no_more_pending(d: Set<Name>, gone: Set<Name>, more: Set<Name>)
    requires
        d.finite(),
    ensures
        d.difference(gone.union(more)).len() <= d.difference(gone).len(),
{
    let now = gone.union(more);
    assert(d.difference(now).subset_of(d.difference(gone)));
    lemma_len_subset(d.difference(now), d.difference(gone));
}

/// What a section's tag says its lines are about; `None` for an unknown tag.
pub open spec fn section_state(tag: Option<Name>) -> Option<State> {
    match tag {
        None => Some(State::Hosts),
        Some(t) => if t == "hosts"@ {
            Some(State::Hosts)
        } else if t == "children"@ {
            Some(State::Children)
        } else if t == "vars"@ {
            Some(State::Vars)
        } else {
            None
        },
    }
}

/// The state behind a section header. A group that a `vars` section brings up is noted as
/// pending; a section of another kind settles a pending group.
pub open spec fn enter_section(st: IniState, g: Name, state: State) -> IniState {
    let known = st.inv.groups.dom().contains(g);
    let pending = if !known && state == State::Vars && !st.pending.dom().contains(g) {
        st.pending.insert(g, PendingView { state: State::Vars, parents: Seq::empty() })
    } else {
        st.pending
    };
    let inv = st.inv.add_group(g);
    if state != State::Vars && pending.dom().contains(g) {
        if pending[g].state == State::Children {
            let (i, gone) = settle(inv, pending, Set::empty(), g);
            IniState { inv: i, group: g, state, pending: left(pending, gone) }
        } else {
            IniState {
                inv,
                group: g,
                state,
                pending: if pending[g].state == State::Vars {
                    pending.remove(g)
                } else {
                    pending
                },
            }
        }
    } else {
        IniState { inv, group: g, state, pending }
    }
}

/// The inventory with variables of a host set, in order.
pub open spec fn set_host_vars(i: InvView, h: Name, vars: VarsView) -> InvView
    decreases vars.len(),
{
    if vars.len() == 0 {
        i
    } else {
        set_host_vars(i, h, vars.drop_last()).set_host_var(h, vars.last().0, vars.last().1)
    }
}

/// The inventory with one host of a host line in it.
pub open spec fn define_host(i: InvView, g: Name, h: Name, port: Option<u32>, vars: VarsView) -> InvView {
    let a = i.add_host(h).add_host_to_group(h, g);
    let b = match port {
        Some(p) => a.set_host_var(h, "ansible_port"@, ValueView::Int(p as int)),
        None => a,
    };
    set_host_vars(b, h, vars)
}

/// The inventory with the hosts of a host line in it.
pub open spec fn define_hosts(
    i: InvView,
    g: Name,
    hs: Seq<Name>,
    port: Option<u32>,
    vars: VarsView,
) -> InvView
    decreases hs.len(),
{
    if hs.len() == 0 {
        i
    } else {
        define_host(define_hosts(i, g, hs.drop_last(), port, vars), g, hs.last(), port, vars)
    }
}

/// The state behind a line of a `children` section: a child that exists is linked, one that
/// does not is noted as pending.
pub open spec fn name_child(st: IniState, c: Name) -> IniState {
    if st.inv.groups.dom().contains(c) {
        IniState { inv: st.inv.add_child(st.group, c), ..st }
    } else {
        let old = if st.pending.dom().contains(c) {
            st.pending[c]
        } else {
            PendingView { state: State::Children, parents: Seq::empty() }
        };
        IniState {
            pending: st.pending.insert(
                c,
                PendingView { state: old.state, parents: old.parents.push(st.group) },
            ),
            ..st
        }
    }
}

/// The state behind a trimmed line, and the error where it is wrong.
pub open spec fn ini_line(st: IniState, line: Seq<char>, path: Seq<char>) -> (
    IniState,
    Option<ErrorView>,
) {
    if line.len() == 0 || line[0] == '#' || line[0] == ';' {
        (st, None)
    } else {
        match section(line) {
            Some((g, tag)) => match section_state(tag) {
                Some(state) => (enter_section(st, safe_name(g), state), None),
                None => (
                    st,
                    Some(
                        ini_fault(
                            path,
                            "Section ["@ + g + ":"@ + tag.unwrap() + "] has unknown type"@,
                        ),
                    ),
                ),
            },
            None => if line[0] == '[' && line.last() == ']' {
                (st, Some(ini_fault(path, "Invalid section entry: '"@ + line + "'"@)))
            } else {
                match st.state {
                    State::Hosts => match host_definition(line, path) {
                        Ok((hs, port, vars)) => (
                            IniState { inv: define_hosts(st.inv, st.group, hs, port, vars), ..st },
                            None,
                        ),
                        Err(e) => (st, Some(e)),
                    },
                    State::Vars => match variable_definition(line, path) {
                        Ok((k, v)) => (
                            IniState { inv: st.inv.set_group_var(st.group, k, v), ..st },
                            None,
                        ),
                        Err(e) => (st, Some(e)),
                    },
                    State::Children => (name_child(st, child_name(line)), None),
                }
            },
        }
    }
}

/// The state behind some lines; the first error ends the reading.
pub open spec fn ini_lines(st: IniState, lines: Seq<Seq<char>>, path: Seq<char>) -> (
    IniState,
    Option<ErrorView>,
)
    decreases lines.len(),
{
    if lines.len() == 0 {
        (st, None)
    } else {
        let (now, e) = ini_lines(st, lines.drop_last(), path);
        match e {
            Some(_) => (now, e),
            None => ini_line(now, trim(lines.last()), path),
        }
    }
}

/// What reading an INI text makes of an inventory, and the error where it is wrong.
pub open spec fn ini_read(i: InvView, text: Seq<char>, path: Seq<char>) -> (
    InvView,
    Option<ErrorView>,
) {
    let (st, e) = ini_lines(ini_start(i), split(text, '\n'), path);
    (st.inv, e)
}

/// The pending groups, as mathematics.
spec fn pending_view(m: Map<Name, Pending>) -> PendingGroups {
    m.map_values(|p: Pending| p@)
}

/// Adding groups and links takes no group away.
proof fn lemma_groups_stay(i: InvView, p: Name, g: Name)
    requires
        i.wf(),
        is_safe(p),
        i.groups.dom().contains(g),
    ensures
        i.add_group(p).wf(),
        i.add_group(p).groups.dom().contains(p),
        i.groups.dom().subset_of(i.add_group(p).groups.dom()),
        i.add_group(p).add_child(p, g).wf(),
        i.groups.dom().subset_of(i.add_group(p).add_child(p, g).groups.dom()),
{
    lemma_safe_name_fixed(p);
    lemma_add_group_wf(i, p);
    lemma_add_child_wf(i.add_group(p), p, g);
}

/// Settles a pending group.
fn add_pending_children(
    inv: &mut InventoryData,
    group: &str,
    pending: &mut StringHashMap<Pending>,
    Ghost(all): Ghost<PendingGroups>,
    Ghost(gone): Ghost<Set<Name>>,
) -> (r: Ghost<Set<Name>>)
    requires
        old(inv)@.wf(),
        pending_wf(all),
        pending_view(old(pending)@) == left(all, gone),
        is_safe(group@),
    ensures
        (final(inv)@, r@) == settle(old(inv)@, all, gone, group@),
        pending_view(final(pending)@) == left(all, r@),
        gone.subset_of(r@),
        final(inv)@.wf(),
        old(inv)@.groups.dom().subset_of(final(inv)@.groups.dom()),
    decreases all.dom().difference(gone).len(),
{
    let ghost i0 = inv@;
    let parents = match pending.get(group) {
        Some(p) => copy_list(&p.parents),
        None => {
            proof {
                assert(!pending_view(pending@).dom().contains(group@));
            }
            return Ghost(gone);
        },
    };
    let ghost ps = all[group@].parents;
    proof {
        assert(pending_view(pending@).dom().contains(group@));
        assert(left(all, gone)[group@] == all[group@]);
        assert(names(parents@) == ps);
        lemma_safe_name_fixed(group@);
        lemma_fewer_pending(all.dom(), gone, gone.insert(group@), group@);
    }
    let ghost before = pending_view(pending@);
    pending.remove(group);
    proof {
        assert(pending_view(pending@) =~= before.remove(group@));
        assert(left(all, gone).remove(group@) =~= left(all, gone.insert(group@)));
    }
    let _ = inv.add_group(group);
    let ghost start = inv@;
    let ghost mut now = gone.insert(group@);
    let mut k: usize = 0;
    assert(ps.skip(0) =~= ps);
    while k < parents.len()
        invariant
            k <= parents.len(),
            names(parents@) == ps,
            ps == all[group@].parents,
            all.dom().contains(group@),
            pending_wf(all),
            gone.insert(group@).subset_of(now),
            !gone.contains(group@),
            all.dom().contains(group@),
            inv@.wf(),
            inv@.groups.dom().contains(group@),
            start.groups.dom().subset_of(inv@.groups.dom()),
            pending_view(pending@) == left(all, now),
            settle_under(inv@, all, now, group@, ps.skip(k as int)) == settle_under(
                start,
                all,
                gone.insert(group@),
                group@,
                ps,
            ),
        decreases parents.len() - k,
    {
        let parent = &parents[k];
        let ghost here = inv@;
        proof {
            assert(ps[k as int] == parent@);
            assert(ps.skip(k as int)[0] == parent@);
            assert(ps.skip(k as int).drop_first() =~= ps.skip(k + 1));
            assert(is_safe(all[group@].parents[k as int]));
            lemma_groups_stay(here, parent@, group@);
            lemma_safe_name_fixed(parent@);
        }
        let _ = inv.add_group(parent.as_str());
        inv.add_child(parent.as_str(), group);
        let more = match pending.get(parent.as_str()) {
            Some(p) => {
                proof {
                    assert(pending_view(pending@).dom().contains(parent@));
                    assert(left(all, now)[parent@] == all[parent@]);
                }
                p.state == State::Children
            },
            None => {
                proof {
                    assert(!pending_view(pending@).dom().contains(parent@));
                }
                false
            },
        };
        if more {
            proof {
                lemma_fewer_pending(all.dom(), gone, now, group@);
            }
            let Ghost(s) = add_pending_children(
                inv,
                parent.as_str(),
                pending,
                Ghost(all),
                Ghost(now),
            );
            proof {
                assert(now.union(s) =~= s);
                now = s;
            }
        }
        k += 1;
    }
    assert(ps.skip(k as int) =~= Seq::empty());
    Ghost(now)
}

/// What a section's tag says its lines are about.
fn state_of(tag: &Option<String>) -> (r: Option<State>)
    ensures
        r == section_state(
            match tag {
                Some(t) => Some(t@),
                None => None,
            },
        ),
{
    match tag {
        None => Some(State::Hosts),
        Some(t) => if same(t.as_str(), "hosts") {
            Some(State::Hosts)
        } else if same(t.as_str(), "children") {
            Some(State::Children)
        } else if same(t.as_str(), "vars") {
            Some(State::Vars)
        } else {
            None
        },
    }
}

/// The invariant survives a section header.
proof fn lemma_left_wf(p: PendingGroups, gone: Set<Name>)
    requires
        pending_wf(p),
    ensures
        pending_wf(left(p, gone)),
{
    assert(left(p, gone).dom() =~= p.dom().difference(gone));
    assert forall|g: Name, k: int|
        left(p, gone).dom().contains(g) && 0 <= k < left(p, gone)[g].parents.len() implies is_safe(
        #[trigger] left(p, gone)[g].parents[k],
    ) by {
        assert(is_safe(p[g].parents[k]));
    }
}

/// Goes into a section.
fn open_section(
    inv: &mut InventoryData,
    pending: &mut StringHashMap<Pending>,
    group: &str,
    state: State,
    Ghost(st): Ghost<IniState>,
)
    requires
        st.wf(),
        st.inv == old(inv)@,
        st.pending == pending_view(old(pending)@),
        is_safe(group@),
    ensures
        ({
            let now = enter_section(st, group@, state);
            &&& now.inv == final(inv)@
            &&& now.pending == pending_view(final(pending)@)
            &&& now.wf()
        }),
{
    proof {
        lemma_safe_name_fixed(group@);
        lemma_add_group_wf(st.inv, group@);
    }
    if inv.group(group).is_none() {
        if state == State::Vars && !pending.contains_key(group) {
            let ghost before = pending_view(pending@);
            assert(!before.dom().contains(group@));
            let p = Pending { state: State::Vars, parents: Vec::new() };
            assert(names(p.parents@) =~= Seq::empty());
            pending.insert(group.to_owned(), p);
            assert(pending_view(pending@) =~= before.insert(group@, p@));
        }
        let _ = inv.add_group(group);
    }
    let ghost pend = pending_view(pending@);
    proof {
        if st.pending.dom().contains(group@) {
            assert(pending_view(old(pending)@).dom().contains(group@));
        }
        assert(pending_wf(pend));
    }
    if state != State::Vars {
        let found = match pending.get(group) {
            Some(p) => {
                assert(pend.dom().contains(group@));
                assert(pend[group@].state == p.state);
                Some(p.state)
            },
            None => {
                assert(!pend.dom().contains(group@));
                None
            },
        };
        match found {
            Some(State::Children) => {
                assert(left(pend, Set::empty()) =~= pend);
                let Ghost(gone) = add_pending_children(
                    inv,
                    group,
                    pending,
                    Ghost(pend),
                    Ghost(Set::empty()),
                );
                proof {
                    lemma_left_wf(pend, gone);
                }
            },
            Some(State::Vars) => {
                pending.remove(group);
                proof {
                    assert(pending_view(pending@) =~= pend.remove(group@));
                    assert(pend.remove(group@) =~= left(pend, set![group@]));
                    lemma_left_wf(pend, set![group@]);
                }
            },
            _ => {},
        }
    }
}

/// Sets variables of a host.
fn assign_host_vars(inv: &mut InventoryData, host: &str, vars: &Vec<(String, Value)>)
    requires
        old(inv)@.wf(),
        old(inv)@.hosts.dom().contains(host@),
    ensures
        final(inv)@ == set_host_vars(old(inv)@, host@, assignments(vars@)),
        final(inv)@.wf(),
        final(inv)@.groups == old(inv)@.groups,
{
    let ghost i0 = inv@;
    let ghost vs = assignments(vars@);
    let mut i: usize = 0;
    while i < vars.len()
        invariant
            i <= vars.len(),
            vs == assignments(vars@),
            inv@.wf(),
            inv@.hosts.dom().contains(host@),
            inv@.groups == i0.groups,
            inv@ == set_host_vars(i0, host@, vs.take(i as int)),
        decreases vars.len() - i,
    {
        proof {
            assert(vs.take(i + 1).drop_last() =~= vs.take(i as int));
            assert(vs.take(i + 1).last() == vs[i as int]);
        }
        inv.set_host_var(host, vars[i].0.as_str(), vars[i].1.clone());
        i += 1;
    }
    assert(vs.take(i as int) =~= vs);
}

/// Puts the hosts of a host line into the inventory.
fn add_defined_hosts(inv: &mut InventoryData, group: &str, def: &HostDef)
    requires
        old(inv)@.wf(),
        old(inv)@.groups.dom().contains(group@),
    ensures
        final(inv)@ == define_hosts(old(inv)@, group@, def@.0, def@.1, def@.2),
        final(inv)@.wf(),
        final(inv)@.groups.dom() == old(inv)@.groups.dom(),
{
    let ghost i0 = inv@;
    let ghost hs = names(def.hosts@);
    let mut i: usize = 0;
    while i < def.hosts.len()
        invariant
            i <= def.hosts.len(),
            hs == names(def.hosts@),
            inv@.wf(),
            inv@.groups.dom() == i0.groups.dom(),
            i0.groups.dom().contains(group@),
            inv@ == define_hosts(i0, group@, hs.take(i as int), def@.1, def@.2),
        decreases def.hosts.len() - i,
    {
        proof {
            assert(hs[i as int] == def.hosts@[i as int]@);
            assert(hs.take(i + 1).drop_last() =~= hs.take(i as int));
            assert(hs.take(i + 1).last() == hs[i as int]);
        }
        let h = &def.hosts[i];
        inv.add_host(h.as_str());
        let ghost a = inv@;
        inv.add_host_to_group(h.as_str(), group);
        assert(inv@.groups.dom() =~= a.groups.dom());
        match def.port {
            Some(p) => {
                inv.set_host_var(h.as_str(), "ansible_port", int_value(p as i64));
            },
            None => {},
        }
        assign_host_vars(inv, h.as_str(), &def.vars);
        i += 1;
    }
    assert(hs.take(i as int) =~= hs);
}

/// Takes a line of a `children` section.
fn take_child(
    inv: &mut InventoryData,
    pending: &mut StringHashMap<Pending>,
    group: &str,
    child: String,
    Ghost(st): Ghost<IniState>,
)
    requires
        st.wf(),
        st.inv == old(inv)@,
        st.group == group@,
        st.pending == pending_view(old(pending)@),
        is_safe(child@),
    ensures
        ({
            let now = name_child(st, child@);
            &&& now.inv == final(inv)@
            &&& now.pending == pending_view(final(pending)@)
            &&& now.wf()
        }),
{
    if inv.group(child.as_str()).is_some() {
        proof {
            lemma_add_child_wf(st.inv, group@, child@);
        }
        inv.add_child(group, child.as_str());
        return;
    }
    let ghost before = pending_view(pending@);
    let (state, mut parents) = match pending.get(child.as_str()) {
        Some(p) => {
            assert(before.dom().contains(child@));
            (p.state, copy_list(&p.parents))
        },
        None => {
            assert(!before.dom().contains(child@));
            let none: Vec<String> = Vec::new();
            assert(names(none@) =~= Seq::empty());
            (State::Children, none)
        },
    };
    let ghost ps = names(parents@);
    let own = group.to_owned();
    proof {
        lemma_names_push(parents@, own);
    }
    parents.push(own);
    let entry = Pending { state, parents };
    let ghost c = child@;
    pending.insert(child, entry);
    proof {
        let now = name_child(st, c);
        assert(pending_view(pending@) =~= before.insert(c, entry@));
        assert(pending_view(pending@) == now.pending);
        assert forall|g: Name, k: int|
            now.pending.dom().contains(g) && 0 <= k < now.pending[g].parents.len() implies is_safe(
            #[trigger] now.pending[g].parents[k],
        ) by {
            if g == c {
                if k < ps.len() {
                    assert(before.dom().contains(c));
                    assert(is_safe(before[c].parents[k]));
                }
            } else {
                assert(is_safe(before[g].parents[k]));
            }
        }
    }
}

/// Takes one trimmed line.
fn take_line(
    inv: &mut InventoryData,
    pending: &mut StringHashMap<Pending>,
    group: &mut String,
    state: &mut State,
    line: &str,
    path: &str,
    Ghost(st): Ghost<IniState>,
) -> (r: Option<Error>)
    requires
        st.wf(),
        st.inv == old(inv)@,
        st.group == old(group)@,
        st.state == *old(state),
        st.pending == pending_view(old(pending)@),
    ensures
        ({
            let (now, e) = ini_line(st, line@, path@);
            &&& now == (IniState {
                inv: final(inv)@,
                group: final(group)@,
                state: *final(state),
                pending: pending_view(final(pending)@),
            })
            &&& now.wf()
            &&& e == (match r {
                Some(e) => Some(e@),
                None => None,
            })
        }),
{
    let cs = chars_of(line);
    if cs.len() == 0 || cs[0] == '#' || cs[0] == ';' {
        return None;
    }
    match parse_section(line) {
        Some((g, tag)) => match state_of(&tag) {
            Some(s) => {
                let name = to_safe_group_name(g.as_str());
                proof {
                    lemma_safe_name_is_safe(g@);
                }
                open_section(inv, pending, name.as_str(), s, Ghost(st));
                *group = name;
                *state = s;
                None
            },
            None => {
                let other = match tag {
                    Some(t) => t,
                    None => vstd::pervasive::unreached(),
                };
                let mut msg = "Section [".to_owned();
                msg.append(g.as_str());
                msg.append(":");
                msg.append(other.as_str());
                msg.append("] has unknown type");
                Some(perr(path, msg))
            },
        },
        None => if cs[0] == '[' && cs[cs.len() - 1] == ']' {
            let mut msg = "Invalid section entry: '".to_owned();
            msg.append(line);
            msg.append("'");
            Some(perr(path, msg))
        } else {
            match *state {
                State::Hosts => match parse_host_definition(line, path) {
                    Ok(def) => {
                        add_defined_hosts(inv, group.as_str(), &def);
                        None
                    },
                    Err(e) => Some(e),
                },
                State::Vars => match parse_variable_definition(line, path) {
                    Ok((k, v)) => {
                        inv.set_group_var(group.as_str(), k.as_str(), v);
                        assert(inv@.groups.dom() =~= st.inv.groups.dom());
                        None
                    },
                    Err(e) => Some(e),
                },
                State::Children => {
                    let child = parse_child_name(line);
                    proof {
                        lemma_safe_name_is_safe(
                            uncommented(line@).take(word_end(uncommented(line@))),
                        );
                    }
                    take_child(inv, pending, group.as_str(), child, Ghost(st));
                    None
                },
            }
        },
    }
}

/// An error in the first lines ends the reading.
proof fn lemma_error_ends(st: IniState, lines: Seq<Seq<char>>, path: Seq<char>, n: int)
    requires
        0 <= n <= lines.len(),
        ini_lines(st, lines.take(n), path).1 is Some,
    ensures
        ini_lines(st, lines, path) == ini_lines(st, lines.take(n), path),
    decreases lines.len() - n,
{
    if n == lines.len() {
        assert(lines.take(n) =~= lines);
    } else {
        assert(lines.take(n + 1).drop_last() =~= lines.take(n));
        lemma_error_ends(st, lines, path, n + 1);
    }
}

/// Reads an INI text into an inventory. `path` is what errors call the text.
pub fn parse_ini_str(inv: &mut InventoryData, text: &str, path: &str) -> (r: Result<(), Error>)
    requires
        old(inv)@.wf(),
    ensures
        final(inv)@.wf(),
        (final(inv)@, match r {
            Ok(_) => None,
            Err(e) => Some(e@),
        }) == ini_read(old(inv)@, text@, path@),
{
    let ghost start = ini_start(inv@);
    let mut pending: StringHashMap<Pending> = StringHashMap::new();
    let mut group = UNGROUPED.to_owned();
    let mut state = State::Hosts;
    proof {
        assert(pending_view(pending@) =~= Map::empty());
        lemma_special_names();
        lemma_safe_name_fixed(UNGROUPED@);
    }
    let lines = split_text(text, '\n');
    let ghost ls = names(lines@);
    let mut i: usize = 0;
    while i < lines.len()
        invariant
            i <= lines.len(),
            ls == names(lines@),
            ls == split(text@, '\n'),
            start == ini_start(old(inv)@),
            ({
                let (now, e) = ini_lines(start, ls.take(i as int), path@);
                &&& now == (IniState {
                    inv: inv@,
                    group: group@,
                    state,
                    pending: pending_view(pending@),
                })
                &&& now.wf()
                &&& e is None
            }),
        decreases lines.len() - i,
    {
        let ghost st = ini_lines(start, ls.take(i as int), path@).0;
        proof {
            assert(ls[i as int] == lines@[i as int]@);
            assert(ls.take(i + 1).drop_last() =~= ls.take(i as int));
            assert(ls.take(i + 1).last() == ls[i as int]);
        }
        let line = trim_text(lines[i].as_str());
        match take_line(
            inv,
            &mut pending,
            &mut group,
            &mut state,
            line.as_str(),
            path,
            Ghost(st),
        ) {
            Some(e) => {
                proof {
                    lemma_error_ends(start, ls, path@, i + 1);
                }
                return Err(e);
            },
            None => {},
        }
        i += 1;
    }
    assert(ls.take(i as int) =~= ls);
    Ok(())
}

// ---------------------------------------------------------------------------------------
// Laws
// ---------------------------------------------------------------------------------------

/// Blank lines and comments change nothing.
pub proof fn law_comments_change_nothing(st: IniState, line: Seq<char>, path: Seq<char>)
    requires
        trim(line).len() == 0 || trim(line)[0] == '#' || trim(line)[0] == ';',
    ensures
        ini_line(st, trim(line), path) == (st, None::<ErrorView>),
{
}

/// A file's lines before any section are read as if a line `[ungrouped]` stood before them.
pub proof fn law_start_is_ungrouped(i: InvView, path: Seq<char>)
    requires
        i.wf(),
    ensures
        ini_line(ini_start(i), "[ungrouped]"@, path) == (ini_start(i), None::<ErrorView>),
{
    lemma_special_names();
    reveal_strlit("[ungrouped]");
    reveal_strlit("ungrouped");
    let line = "[ungrouped]"@;
    let close = find_char(line, ']');
    lemma_find_char(line, ']');
    assert(line[10] == ']');
    assert(close == 10);
    let inner = line.subrange(1, close);
    assert(inner =~= UNGROUPED@);
    assert(line.skip(close + 1) =~= Seq::empty());
    assert(!holds_space(inner));
    lemma_find_char(inner, ':');
    assert(find_char(inner, ':') >= inner.len());
    assert(section(line) == Some((UNGROUPED@, None::<Name>)));
}

/// A value that is no literal is taken as it stands.
pub proof fn law_values_fall_back_to_text(s: Seq<char>)
    ensures
        literal(s) is None ==> ini_value(s) == ValueView::Text(s),
        s.len() > 1 && all_digits(s) && s[0] == '0' ==> ini_value(s) == ValueView::Text(s),
{
    if s.len() > 1 && all_digits(s) && s[0] == '0' {
        law_leading_zeros_are_no_number(s);
    }
}

/// A word that stands for itself: not empty, without white space, quotes and backslashes,
/// and without a `#` at its start.
pub open spec fn is_plain_word(w: Seq<char>) -> bool {
    &&& w.len() > 0
    &&& w[0] != '#'
    &&& forall|k: int|
        0 <= k < w.len() ==> !is_space(#[trigger] w[k]) && w[k] != '\'' && w[k] != '"' && w[k]
            != '\\'
}

/// Words with a space between each two.
pub open spec fn spaced(ws: Seq<Seq<char>>) -> Seq<char>
    decreases ws.len(),
{
    if ws.len() == 0 {
        Seq::empty()
    } else if ws.len() == 1 {
        ws[0]
    } else {
        ws[0] + seq![' '] + spaced(ws.drop_first())
    }
}

/// Reading on in a plain word reads it whole.
proof fn lemma_plain_word(s: Seq<char>, p: int, w: Seq<char>, k: int)
    requires
        is_plain_word(w),
        0 <= p,
        p + w.len() <= s.len(),
        s.subrange(p, p + w.len()) == w,
        1 <= k <= w.len(),
    ensures
        words(s, p + k, Some(w.take(k))) == words(s, p + w.len(), Some(w)),
    decreases w.len() - k,
{
    if k == w.len() {
        assert(w.take(k) =~= w);
    } else {
        assert(s[p + k] == s.subrange(p, p + w.len())[k]);
        assert(w.take(k).push(w[k]) =~= w.take(k + 1));
        lemma_plain_word(s, p, w, k + 1);
    }
}

/// Plain words with spaces between them, and a comment behind them or nothing, from `p` on.
proof fn lemma_plain_words(s: Seq<char>, p: int, ws: Seq<Seq<char>>, tail: Seq<char>)
    requires
        0 <= p <= s.len(),
        s.skip(p) == spaced(ws) + tail,
        tail.len() == 0 || (tail.len() >= 2 && tail[0] == ' ' && tail[1] == '#'),
        forall|k: int| 0 <= k < ws.len() ==> is_plain_word(#[trigger] ws[k]),
    ensures
        words(s, p, None) == ws,
    decreases ws.len(),
{
    let rest = s.skip(p);
    if ws.len() == 0 {
        assert(rest =~= tail);
        if tail.len() > 0 {
            assert(s[p] == rest[0] && s[p + 1] == rest[1]);
            assert(words(s, p + 1, None) =~= Seq::empty());
        }
        assert(words(s, p, None) =~= ws);
    } else {
        let w = ws[0];
        assert(is_plain_word(w));
        let q = p + w.len();
        let more = if ws.len() == 1 {
            tail
        } else {
            seq![' '] + spaced(ws.drop_first()) + tail
        };
        assert(rest =~= w + more);
        assert(s.len() == p + w.len() + more.len());
        assert(s.subrange(p, q) =~= w) by {
            assert forall|k: int| 0 <= k < w.len() implies s[p + k] == w[k] by {
                assert(rest[k] == w[k]);
            }
        }
        assert(s[p] == s.subrange(p, q)[0]);
        assert(Seq::<char>::empty().push(s[p]) =~= w.take(1));
        lemma_plain_word(s, p, w, 1);
        assert(words(s, p, None) == words(s, q, Some(w)));
        if ws.len() == 1 {
            if tail.len() > 0 {
                assert(s[q] == rest[w.len() as int] && s[q + 1] == rest[w.len() as int + 1]);
                assert(words(s, q + 1, None) =~= Seq::empty());
            }
            assert(words(s, q, Some(w)) =~= ws);
        } else {
            let others = ws.drop_first();
            assert(s[q] == rest[w.len() as int]);
            assert(s.skip(q + 1) =~= spaced(others) + tail) by {
                assert forall|k: int| 0 <= k < s.len() - q - 1 implies s[q + 1 + k] == (spaced(
                    others,
                ) + tail)[k] by {
                    assert(rest[w.len() + 1 + k] == s[q + 1 + k]);
                }
            }
            assert forall|k: int| 0 <= k < others.len() implies is_plain_word(
                #[trigger] others[k],
            ) by {
                assert(is_plain_word(ws[k + 1]));
            }
            lemma_plain_words(s, q + 1, others, tail);
            assert(seq![w] + others =~= ws);
        }
    }
}

/// Plain words joined by spaces split back to themselves, with a comment behind them or
/// without one.
pub proof fn law_words_split_back(ws: Seq<Seq<char>>, comment: Seq<char>)
    requires
        forall|k: int| 0 <= k < ws.len() ==> is_plain_word(#[trigger] ws[k]),
    ensures
        words(spaced(ws), 0, None) == ws,
        words(spaced(ws) + seq![' ', '#'] + comment, 0, None) == ws,
{
    let none = Seq::<char>::empty();
    assert(spaced(ws).skip(0) =~= spaced(ws) + none);
    lemma_plain_words(spaced(ws), 0, ws, none);
    let tail = seq![' ', '#'] + comment;
    let s = spaced(ws) + seq![' ', '#'] + comment;
    assert(s.skip(0) =~= spaced(ws) + tail);
    lemma_plain_words(s, 0, ws, tail);
}

/// A text between single quotes is one word, whatever it holds but such a quote.
pub proof fn law_single_quotes_keep(t: Seq<char>)
    requires
        !t.contains('\''),
    ensures
        words(seq!['\''] + t + seq!['\''], 0, None) == seq![t],
{
    let s = seq!['\''] + t + seq!['\''];
    let n = t.len() as int;
    assert forall|j: int| 0 <= j < n implies s.skip(1)[j] != '\'' by {
        assert(t.contains(t[j]));
    }
    assert(s.skip(1)[n] == '\'');
    lemma_find_char_unique(s.skip(1), '\'', n);
    assert(s.subrange(1, 1 + n) =~= t);
    assert(Seq::<char>::empty() + t =~= t);
    assert(words(s, s.len() as int, Some(t)) =~= seq![t]);
}

} // verus!
