//! What settings, names of sources and files of variables are taken for, by how they are
//! written.

use vstd::prelude::*;
use crate::assoc::Name;
use crate::cli::{arguments_fault, pruning_for, sources_for, strict_for, Args, Setting};
use crate::enabled::{lists_name, EnabledKinds};
use crate::error::ErrorView;
use crate::expr::filter_laws::lemma_trim_around;
use crate::output::GroupPruning;
use crate::parse::{action_for, ignored_entry, ActionView, SourceKind};
use crate::pattern::trimmed;
use crate::sanitize::safe_name;
use crate::script::{is_single_name, part_count};
use crate::telemetry::{traces_address, without_slashes};
use crate::text::{ascii_lower, ascii_lower_text, ends, find_char, is_space, lemma_find_char, lemma_find_char_unique, split, trim};
use crate::value::{ValueView, VarMap, VarsView};
use crate::vars_files::{candidates, choice_from, entry_action, file_vars, mappings, Entry, EntryAction, VarsChoice};

verus! {

// ---------------------------------------------------------------------------------------
// Lists
// ---------------------------------------------------------------------------------------

/// White space only.
pub open spec fn is_blank_text(s: Seq<char>) -> bool {
    forall|k: int| 0 <= k < s.len() ==> is_space(#[trigger] s[k])
}

/// An item of a list: not empty, without white space at its ends, and without a comma.
pub open spec fn is_item(s: Seq<char>) -> bool {
    s.len() > 0 && !is_space(s[0]) && !is_space(s.last()) && !s.contains(',')
}

/// A separator cuts a text in two: the pieces of what stands before it, then those of what
/// stands behind it. A text without one is its only piece.
pub proof fn law_split(a: Seq<char>, b: Seq<char>, sep: char)
    ensures
        split(a + seq![sep] + b, sep) == split(a, sep) + split(b, sep),
        !a.contains(sep) ==> split(a, sep) == seq![a],
    decreases a.len(),
{
    let s = a + seq![sep] + b;
    lemma_find_char(a, sep);
    let i = find_char(a, sep);
    if i < a.len() {
        lemma_find_char_unique(s, sep, i);
        assert(s.take(i) =~= a.take(i));
        assert(s.skip(i + 1) =~= a.skip(i + 1) + seq![sep] + b);
        law_split(a.skip(i + 1), b, sep);
        assert(split(s, sep) =~= split(a, sep) + split(b, sep));
    } else {
        lemma_find_char_unique(s, sep, a.len() as int);
        assert(s.take(a.len() as int) =~= a);
        assert(s.skip((a.len() + 1) as int) =~= b);
        assert(split(s, sep) =~= split(a, sep) + split(b, sep));
    }
}

proof fn lemma_blank(s: Seq<char>)
    requires
        is_blank_text(s),
    ensures
        trim(s).len() == 0,
    decreases s.len(),
{
    if s.len() > 0 {
        assert(is_space(s[0]));
        assert forall|k: int| 0 <= k < s.drop_first().len() implies is_space(
            #[trigger] s.drop_first()[k],
        ) by {
            assert(is_space(s[k + 1]));
        }
        lemma_blank(s.drop_first());
    }
}

proof fn lemma_trimmed(a: Seq<Seq<char>>, b: Seq<Seq<char>>)
    ensures
        trimmed(a + b) == trimmed(a) + trimmed(b),
    decreases b.len(),
{
    if b.len() == 0 {
        assert(a + b =~= a);
        assert(trimmed(a) + trimmed(b) =~= trimmed(a));
    } else {
        lemma_trimmed(a, b.drop_last());
        assert((a + b).drop_last() =~= a + b.drop_last());
        assert((a + b).last() == b.last());
        assert(trimmed(a + b) =~= trimmed(a) + trimmed(b));
    }
}

/// The items of a comma-separated list: those before a comma, then those behind it; an item
/// with white space around it is that item, and white space alone is none.
pub proof fn law_list_items(
    a: Seq<char>,
    b: Seq<char>,
    w: Seq<char>,
    x: Seq<char>,
    v: Seq<char>,
)
    requires
        is_item(x),
        is_blank_text(w),
        is_blank_text(v),
    ensures
        trimmed(split(a + seq![','] + b, ',')) == trimmed(split(a, ',')) + trimmed(split(b, ',')),
        trimmed(split(w + x + v, ',')) == seq![x],
        trimmed(split(w, ',')) == Seq::<Seq<char>>::empty(),
{
    law_split(a, b, ',');
    lemma_trimmed(split(a, ','), split(b, ','));
    lemma_item(w, x, v);
    lemma_no_comma(w);
    law_split(w, w, ',');
    lemma_blank(w);
    assert(seq![w].drop_last() =~= Seq::empty());
    assert(trimmed(seq![w].drop_last()) =~= Seq::empty());
    assert(trimmed(seq![w]) =~= Seq::empty());
}

proof fn lemma_no_comma(w: Seq<char>)
    requires
        is_blank_text(w),
    ensures
        !w.contains(','),
{
    if w.contains(',') {
        let k = choose|k: int| 0 <= k < w.len() && w[k] == ',';
        assert(is_space(w[k]));
    }
}

proof fn lemma_item(w: Seq<char>, x: Seq<char>, v: Seq<char>)
    requires
        is_item(x),
        is_blank_text(w),
        is_blank_text(v),
    ensures
        split(w + x + v, ',') == seq![w + x + v],
        trim(w + x + v) == x,
        trimmed(split(w + x + v, ',')) == seq![x],
{
    let s = w + x + v;
    lemma_no_comma(w);
    lemma_no_comma(v);
    assert(!s.contains(',')) by {
        if s.contains(',') {
            let k = choose|k: int| 0 <= k < s.len() && s[k] == ',';
            if k < w.len() {
                assert(w[k] == ',');
            } else if k < w.len() + x.len() {
                assert(x[k - w.len()] == ',');
            } else {
                assert(v[k - w.len() - x.len()] == ',');
            }
        }
    }
    law_split(s, s, ',');
    lemma_trim_around(w, x, v);
    let t = seq![s];
    assert(t.drop_last() =~= Seq::empty());
    assert(trimmed(t.drop_last()) =~= Seq::empty());
    assert(t.last() == s);
    assert(trimmed(t) =~= seq![x]);
}

/// A list names an item where it stands before a comma or behind it, white space aside; and
/// an item alone names itself and no other.
pub proof fn law_listed_kinds(
    a: Seq<char>,
    b: Seq<char>,
    w: Seq<char>,
    x: Seq<char>,
    v: Seq<char>,
    n: Seq<char>,
)
    requires
        is_item(x),
        is_blank_text(w),
        is_blank_text(v),
    ensures
        lists_name(a + seq![','] + b, n) <==> lists_name(a, n) || lists_name(b, n),
        lists_name(w + x + v, n) <==> n == x,
{
    let s = a + seq![','] + b;
    let (p, q) = (split(a, ','), split(b, ','));
    law_split(a, b, ',');
    if lists_name(a, n) {
        let i = choose|i: int| 0 <= i < p.len() && trim(#[trigger] p[i]) == n;
        assert(split(s, ',')[i] == p[i]);
    }
    if lists_name(b, n) {
        let i = choose|i: int| 0 <= i < q.len() && trim(#[trigger] q[i]) == n;
        assert(split(s, ',')[p.len() + i] == q[i]);
    }
    if lists_name(s, n) {
        let i = choose|i: int| 0 <= i < split(s, ',').len() && trim(#[trigger] split(s, ',')[i]) == n;
        if i < p.len() {
            assert(p[i] == split(s, ',')[i]);
        } else {
            assert(q[i - p.len()] == split(s, ',')[i]);
        }
    }
    lemma_item(w, x, v);
    assert(split(w + x + v, ',')[0] == w + x + v);
}

// ---------------------------------------------------------------------------------------
// Command lines
// ---------------------------------------------------------------------------------------

/// The sources of a command line count, whatever is listed beside it. Without any, those of
/// the list count, in its order; and where it has none, that is an error.
pub proof fn law_sources(given: Seq<Name>, setting: Option<Seq<char>>, s: Seq<char>)
    ensures
        given.len() > 0 ==> sources_for(given, setting) == Ok::<Seq<Name>, Seq<char>>(given),
        trimmed(split(s, ',')).len() > 0 ==> sources_for(Seq::empty(), Some(s)) == Ok::<
            Seq<Name>,
            Seq<char>,
        >(trimmed(split(s, ','))),
        trimmed(split(s, ',')).len() == 0 ==> sources_for(Seq::empty(), Some(s)) is Err,
        sources_for(Seq::empty(), None) is Err,
{
}

/// `s` is `t`, in capitals or not.
pub open spec fn in_any_case(s: Seq<char>, t: Seq<char>) -> bool {
    &&& s.len() == t.len()
    &&& forall|k: int|
        0 <= k < s.len() ==> #[trigger] s[k] == t[k] || ('a' <= t[k] <= 'z' && s[k] as int + 32
            == t[k] as int)
}

/// A text without capitals.
spec fn is_lower(t: Seq<char>) -> bool {
    forall|k: int| 0 <= k < t.len() ==> !('A' <= #[trigger] t[k] <= 'Z')
}

proof fn lemma_in_any_case(s: Seq<char>, t: Seq<char>)
    requires
        is_lower(t),
    ensures
        in_any_case(s, t) ==> ascii_lower_text(s) == t,
{
    if in_any_case(s, t) {
        let r = ascii_lower_text(s);
        assert forall|k: int| 0 <= k < s.len() implies r[k] == t[k] by {
            assert(s[k] == t[k] || ('a' <= t[k] <= 'z' && s[k] as int + 32 == t[k] as int));
            assert(r[k] == ascii_lower(s[k]));
        }
        assert(r =~= t);
    }
}

/// Strict compatibility is asked for by the flag, or by a setting that is `true` or `1`,
/// in capitals or not and with white space around it or not; `false` and `0` leave it to the
/// flag, as does a setting that is not there.
pub proof fn law_strict(
    flag: bool,
    setting: Setting,
    w: Seq<char>,
    x: Seq<char>,
    v: Seq<char>,
)
    requires
        is_blank_text(w),
        is_blank_text(v),
        setting matches Setting::Text(s) ==> s@ == w + x + v,
    ensures
        setting is Unset ==> strict_for(flag, setting) == Ok::<bool, Seq<char>>(flag),
        setting is NotText ==> strict_for(flag, setting) is Err,
        setting is Text && (in_any_case(x, "true"@) || x == "1"@) ==> strict_for(flag, setting)
            == Ok::<bool, Seq<char>>(true),
        setting is Text && (in_any_case(x, "false"@) || x == "0"@) ==> strict_for(flag, setting)
            == Ok::<bool, Seq<char>>(flag),
{
    reveal_strlit("true");
    reveal_strlit("false");
    reveal_strlit("1");
    reveal_strlit("0");
    let (t, f) = ("true"@, "false"@);
    assert(t[0] == 't' && t[3] == 'e' && f[0] == 'f' && f[4] == 'e');
    assert("1"@[0] == '1' && "0"@[0] == '0');
    lemma_in_any_case(x, t);
    lemma_in_any_case(x, f);
    lemma_in_any_case(x, "1"@);
    lemma_in_any_case(x, "0"@);
    if in_any_case(x, t) || in_any_case(x, f) || x == "1"@ || x == "0"@ {
        assert(x.len() > 0);
        assert(!is_space(x[0]) && !is_space(x.last())) by {
            let n = x.len() - 1;
            assert(x[0] == x[0] && x[n] == x[n]);
        }
        lemma_trim_around(w, x, v);
    }
    assert("1"@ != f && "0"@ != t && "0"@ != "1"@ && f != t && "0"@ != f && "1"@ != t);
}

/// A command line that asks for a list or for a host, not for both and not for neither, and
/// for YAML or for TOML at most, is in order, where the setting for strict compatibility is;
/// and any other is not.
pub proof fn law_arguments(args: Args, strict: Setting)
    requires
        strict_for(args.strict_compatibility, strict) is Ok,
    ensures
        arguments_fault(args, strict) is None <==> args.list != (args.host is Some) && !(args.yaml
            && args.toml),
        pruning_for(args, strict) == GroupPruning::AnsibleCompatible <==> args.list && strict_for(
            args.strict_compatibility,
            strict,
        )->Ok_0,
{
}

// ---------------------------------------------------------------------------------------
// Kinds of sources
// ---------------------------------------------------------------------------------------

/// What is done with a source whose kind is known.
pub open spec fn read_or_skipped(k: SourceKind, on: bool) -> ActionView {
    if on {
        ActionView::Read(k)
    } else {
        ActionView::Skip(k)
    }
}

/// An extension of a format, in capitals or not.
pub open spec fn is_format(e: Seq<char>) -> bool {
    ||| in_any_case(e, "yaml"@)
    ||| in_any_case(e, "yml"@)
    ||| in_any_case(e, "json"@)
    ||| in_any_case(e, "toml"@)
    ||| in_any_case(e, "ini"@)
}

proof fn lemma_formats(e: Seq<char>)
    ensures
        in_any_case(e, "yaml"@) <==> ascii_lower_text(e) == "yaml"@,
        in_any_case(e, "yml"@) <==> ascii_lower_text(e) == "yml"@,
        in_any_case(e, "json"@) <==> ascii_lower_text(e) == "json"@,
        in_any_case(e, "toml"@) <==> ascii_lower_text(e) == "toml"@,
        in_any_case(e, "ini"@) <==> ascii_lower_text(e) == "ini"@,
        "yaml"@ != "toml"@,
        "yaml"@ != "ini"@,
        "yml"@ != "toml"@,
        "yml"@ != "ini"@,
        "json"@ != "toml"@,
        "json"@ != "ini"@,
        "toml"@ != "ini"@,
        "toml"@.len() > 0,
        "ini"@.len() > 0,
{
    reveal_strlit("yaml");
    reveal_strlit("yml");
    reveal_strlit("json");
    reveal_strlit("toml");
    reveal_strlit("ini");
    assert("yaml"@[0] == 'y' && "yml"@[0] == 'y' && "json"@[0] == 'j' && "toml"@[0] == 't'
        && "ini"@[0] == 'i');
    lemma_lowered(e, "yaml"@);
    lemma_lowered(e, "yml"@);
    lemma_lowered(e, "json"@);
    lemma_lowered(e, "toml"@);
    lemma_lowered(e, "ini"@);
}

proof fn lemma_lowered(s: Seq<char>, t: Seq<char>)
    requires
        forall|k: int| 0 <= k < t.len() ==> 'a' <= #[trigger] t[k] <= 'z',
    ensures
        in_any_case(s, t) <==> ascii_lower_text(s) == t,
{
    assert(is_lower(t));
    lemma_in_any_case(s, t);
    let r = ascii_lower_text(s);
    if r == t {
        assert forall|k: int| 0 <= k < s.len() implies #[trigger] s[k] == t[k] || ('a' <= t[k]
            <= 'z' && s[k] as int + 32 == t[k] as int) by {
            assert(r[k] == ascii_lower(s[k]));
            assert('a' <= t[k] <= 'z');
        }
    }
}

/// The kind of a source goes by its extension, in capitals or not; without one it is a
/// structured document. An executable is a script unless its extension is that of a format.
/// Directories are gone through whatever they are called.
pub proof fn law_kinds_of_sources(executable: bool, ext: Option<Seq<char>>, on: EnabledKinds)
    ensures
        action_for(true, executable, ext, on) == ActionView::Directory,
        ext matches Some(e) ==> (in_any_case(e, "yaml"@) || in_any_case(e, "yml"@) || in_any_case(
            e,
            "json"@,
        ) ==> action_for(false, executable, ext, on) == read_or_skipped(SourceKind::Yaml, on.yaml)),
        ext matches Some(e) ==> (in_any_case(e, "toml"@) ==> action_for(false, executable, ext, on)
            == read_or_skipped(SourceKind::Toml, on.toml)),
        ext matches Some(e) ==> (in_any_case(e, "ini"@) ==> action_for(false, executable, ext, on)
            == read_or_skipped(SourceKind::Ini, on.ini)),
        executable && (ext matches Some(e) ==> !is_format(e)) ==> action_for(
            false,
            executable,
            ext,
            on,
        ) == read_or_skipped(SourceKind::Script, on.script),
        !executable && ext is None ==> action_for(false, executable, ext, on) == read_or_skipped(
            SourceKind::Yaml,
            on.yaml,
        ),
        ext matches Some(e) ==> (!executable && e.len() > 0 && !is_format(e) ==> action_for(
            false,
            executable,
            ext,
            on,
        ) is Unsupported),
{
    if let Some(e) = ext {
        lemma_formats(e);
        assert(ascii_lower_text(e).len() == e.len());
    } else {
        reveal_strlit("yaml");
        reveal_strlit("yml");
        reveal_strlit("json");
        reveal_strlit("toml");
        reveal_strlit("ini");
        assert("yaml"@.len() == 4 && "yml"@.len() == 3 && "json"@.len() == 4 && "toml"@.len() == 4
            && "ini"@.len() == 3);
    }
}

/// The endings of names in a directory that are no sources.
pub open spec fn is_ignored_ending(e: Seq<char>) -> bool {
    ||| e == "~"@ || e == ".pyc"@ || e == ".pyo"@ || e == ".swp"@ || e == ".bak"@ || e == ".rpm"@
    ||| e == ".md"@ || e == ".txt"@ || e == ".rst"@ || e == ".orig"@ || e == ".ini"@
    ||| e == ".cfg"@ || e == ".retry"@
}

/// An entry of a directory is no source if its name starts with a dot, has one of the
/// endings, or is that of a directory for variables or plugins; and only then.
pub proof fn law_ignored_entries(n: Name, x: Seq<char>, e: Seq<char>)
    ensures
        ignored_entry(seq!['.'] + x),
        is_ignored_ending(e) ==> ignored_entry(x + e),
        ignored_entry("host_vars"@) && ignored_entry("group_vars"@) && ignored_entry(
            "vars_plugins"@,
        ),
        ignored_entry(n) ==> (n.len() > 0 && n[0] == '.') || n == "host_vars"@ || n == "group_vars"@
            || n == "vars_plugins"@ || exists|y: Seq<char>, d: Seq<char>|
            #![trigger y + d]
            n == y + d && is_ignored_ending(d),
{
    assert((seq!['.'] + x)[0] == '.');
    assert((x + e).skip((x + e).len() - e.len()) =~= e);
    if ignored_entry(n) && !(n.len() > 0 && n[0] == '.') && n != "host_vars"@ && n != "group_vars"@
        && n != "vars_plugins"@ {
        let d = if ends(n, "~"@) {
            "~"@
        } else if ends(n, ".pyc"@) {
            ".pyc"@
        } else if ends(n, ".pyo"@) {
            ".pyo"@
        } else if ends(n, ".swp"@) {
            ".swp"@
        } else if ends(n, ".bak"@) {
            ".bak"@
        } else if ends(n, ".rpm"@) {
            ".rpm"@
        } else if ends(n, ".md"@) {
            ".md"@
        } else if ends(n, ".txt"@) {
            ".txt"@
        } else if ends(n, ".rst"@) {
            ".rst"@
        } else if ends(n, ".orig"@) {
            ".orig"@
        } else if ends(n, ".ini"@) {
            ".ini"@
        } else if ends(n, ".cfg"@) {
            ".cfg"@
        } else {
            ".retry"@
        };
        assert(ends(n, d));
        let y = n.take(n.len() - d.len());
        assert(n =~= y + d);
        assert(is_ignored_ending(d));
    }
}

// ---------------------------------------------------------------------------------------
// Names and files
// ---------------------------------------------------------------------------------------

/// The safe form of a group's name, character by character: ASCII letters and underscores
/// stay, digits stay but at the start, and everything else becomes an underscore.
pub proof fn law_safe_names(s: Seq<char>, k: int)
    requires
        0 <= k < s.len(),
    ensures
        safe_name(s).len() == s.len(),
        'a' <= s[k] <= 'z' || 'A' <= s[k] <= 'Z' || s[k] == '_' ==> safe_name(s)[k] == s[k],
        '0' <= s[k] <= '9' && k > 0 ==> safe_name(s)[k] == s[k],
        '0' <= s[k] <= '9' && k == 0 ==> safe_name(s)[k] == '_',
        !('a' <= s[k] <= 'z' || 'A' <= s[k] <= 'Z' || '0' <= s[k] <= '9' || s[k] == '_')
            ==> safe_name(s)[k] == '_',
{
}

/// The variables of a group or a host are looked for under its name, first without an
/// extension and then with each of them; a name with a separator within it is not looked for.
pub proof fn law_candidates(n: Name, a: Seq<char>, b: Seq<char>)
    requires
        n.len() > 0,
        !n.contains('/'),
        n != "."@,
        n != ".."@,
        b.len() > 0,
        b[0] != '.',
        b[0] != '/',
    ensures
        candidates(n) == seq![n, n + ".yml"@, n + ".yaml"@, n + ".json"@],
        candidates(a + seq!['/'] + b) == Seq::<Name>::empty(),
        candidates("."@) == Seq::<Name>::empty(),
        candidates(".."@) == Seq::<Name>::empty(),
        candidates(Seq::empty()) == Seq::<Name>::empty(),
{
    reveal_strlit("");
    reveal_strlit(".");
    reveal_strlit("..");
    assert(n + ""@ =~= n);
    law_split(n, n, '/');
    law_split(a, b, '/');
    let ps = split(a + seq!['/'] + b, '/');
    let k = split(a, '/').len() as int;
    lemma_find_char(b, '/');
    let i = find_char(b, '/');
    assert(split(a, '/').len() > 0);
    assert(split(b, '/').len() > 0);
    assert(ps[k] == split(b, '/')[0]);
    if i < b.len() {
        assert(split(b, '/')[0] == b.take(i));
        assert(b.take(i)[0] == b[0]);
    } else {
        assert(split(b, '/')[0] == b);
    }
    assert(ps[k].len() > 0 && ps[k][0] == b[0]);
    assert("."@[0] == '.');
    law_split("."@, "."@, '/');
    law_split(".."@, ".."@, '/');
    law_split(Seq::empty(), Seq::empty(), '/');
    assert(!"."@.contains('/'));
    assert(!".."@.contains('/'));
    assert(!Seq::<char>::empty().contains('/'));
}

/// Of the candidates, the first that is there counts: a file is read, a directory is gone
/// through where it has no extension.
pub proof fn law_first_candidate(es: Seq<Entry>, k: int)
    requires
        0 <= k <= es.len() <= usize::MAX,
        forall|j: int| 0 <= j < k ==> #[trigger] es[j] is Missing,
    ensures
        k < es.len() && es[k] is File ==> choice_from(es, 0) == VarsChoice::File(k as usize),
        k == 0 && k < es.len() && es[k] is Directory ==> choice_from(es, 0)
            == VarsChoice::Directory,
        0 < k && k < es.len() && es[k] is Directory ==> choice_from(es, 0) == VarsChoice::Nothing,
        k == es.len() ==> choice_from(es, 0) == VarsChoice::Nothing,
{
    lemma_passed_over(es, 0, k);
}

proof fn lemma_passed_over(es: Seq<Entry>, a: int, k: int)
    requires
        0 <= a <= k <= es.len(),
        forall|j: int| 0 <= j < k ==> #[trigger] es[j] is Missing,
    ensures
        choice_from(es, a) == choice_from(es, k),
    decreases k - a,
{
    if a < k {
        assert(es[a] is Missing);
        lemma_passed_over(es, a + 1, k);
    }
}

/// In a directory of variables hidden entries and backups are passed over, directories
/// without an extension are gone through, and files without one or with that of YAML or JSON
/// are taken; nothing else is.
pub proof fn law_entries_of_a_directory(x: Seq<char>, n: Name, ext: Option<Seq<char>>, is_dir: bool)
    ensures
        entry_action(seq!['.'] + x, ext, is_dir) == EntryAction::Skip,
        entry_action(x + seq!['~'], ext, is_dir) == EntryAction::Skip,
        n.len() > 0 && n[0] != '.' && n.last() != '~' ==> {
            &&& entry_action(n, None, true) == EntryAction::Descend
            &&& entry_action(n, None, false) == EntryAction::Take
            &&& entry_action(n, Some("yml"@), false) == EntryAction::Take
            &&& entry_action(n, Some("yaml"@), false) == EntryAction::Take
            &&& entry_action(n, Some("json"@), false) == EntryAction::Take
            &&& ext is Some ==> entry_action(n, ext, true) == EntryAction::Skip
            &&& ext is Some && ext != Some("yml"@) && ext != Some("yaml"@) && ext != Some("json"@)
                ==> entry_action(n, ext, false) == EntryAction::Skip
        },
{
    reveal_strlit("~");
    assert("~"@ =~= seq!['~']);
    assert((seq!['.'] + x)[0] == '.');
    let s = x + seq!['~'];
    assert(s.skip(s.len() - 1) =~= "~"@);
    if n.len() > 0 && ends(n, "~"@) {
        assert(n.skip(n.len() - 1)[0] == n.last());
    }
}

/// A file of variables holds the mapping that it is; a blank one, and one that is anything
/// else, holds nothing; and one that cannot be read is an error that names it.
pub proof fn law_file_of_variables(
    text: Seq<char>,
    blank: Seq<char>,
    doc: Result<ValueView, Seq<char>>,
    path: Seq<char>,
)
    requires
        is_blank_text(blank),
        trim(text).len() > 0,
    ensures
        file_vars(blank, doc, path) == Ok::<Option<VarsView>, ErrorView>(None),
        doc matches Ok(ValueView::Dict(o)) ==> file_vars(text, doc, path) == Ok::<
            Option<VarsView>,
            ErrorView,
        >(Some(o)),
        doc is Ok && !(doc->Ok_0 is Dict) ==> file_vars(text, doc, path) == Ok::<
            Option<VarsView>,
            ErrorView,
        >(None),
        doc matches Err(m) ==> file_vars(text, doc, path) == Err::<Option<VarsView>, ErrorView>(
            ErrorView::Parse { path, msg: m },
        ),
{
    lemma_blank(blank);
}

/// A script is run by its path, but one that is a name alone is not to be searched for: a
/// name without a separator needs the directory before it, a path with a directory or from
/// the root does not.
pub proof fn law_names_of_scripts(n: Seq<char>, a: Seq<char>, b: Seq<char>)
    requires
        n.len() > 0,
        !n.contains('/'),
        a.len() > 0,
        !a.contains('/'),
        b.len() > 0,
        !b.contains('/'),
        b != "."@,
    ensures
        is_single_name(n),
        !is_single_name(a + seq!['/'] + b),
        !is_single_name(seq!['/'] + a),
{
    law_split(n, n, '/');
    law_split(a, b, '/');
    law_split(b, b, '/');
    let ps = seq![n];
    assert(split(n, '/') == ps);
    assert(n[0] != '/') by {
        assert(n.contains(n[0]));
    }
    reveal_with_fuel(part_count, 3);
    assert(ps[0] == n);
    assert(part_count(ps, 1) == 1);
    let qs = seq![a] + seq![b];
    assert(split(a + seq!['/'] + b, '/') == qs);
    assert(qs.len() == 2 && qs[0] == a && qs[1] == b);
    assert(part_count(qs, 2) == 2);
    assert((seq!['/'] + a)[0] == '/');
}

/// Files that hold no mapping count for nothing; the others count in their order.
pub proof fn law_files_of_variables(v: Seq<Option<VarMap>>, m: VarMap)
    ensures
        mappings(Seq::empty()) == Seq::<VarsView>::empty(),
        mappings(v.push(None)) == mappings(v),
        mappings(v.push(Some(m))) == mappings(v).push(m@),
{
    assert(v.push(None).drop_last() =~= v);
    assert(v.push(Some(m)).drop_last() =~= v);
}

/// The address for traces of a base address: with the path behind it, and without slashes
/// between them, however many stand there.
pub proof fn law_traces_address(b: Seq<char>, n: nat)
    requires
        b.len() > 0 ==> b.last() != '/',
        !ends(b, "/v1/traces"@),
    ensures
        traces_address(b + Seq::new(n, |k: int| '/')) == b + "/v1/traces"@,
{
    lemma_slashes(b, n);
}

proof fn lemma_slashes(b: Seq<char>, n: nat)
    requires
        b.len() > 0 ==> b.last() != '/',
    ensures
        without_slashes(b + Seq::new(n, |k: int| '/')) == b,
    decreases n,
{
    let s = b + Seq::new(n, |k: int| '/');
    if n == 0 {
        assert(s =~= b);
    } else {
        let m = (n - 1) as nat;
        lemma_slashes(b, m);
        assert(s.last() == '/');
        assert(s.drop_last() =~= b + Seq::new(m, |k: int| '/'));
    }
}

} // verus!
