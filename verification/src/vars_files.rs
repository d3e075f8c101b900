//! Adjacent `group_vars/` and `host_vars/` files: which files hold the variables of a group
//! or a host, and how they are merged.

use vstd::prelude::*;
use crate::assoc::{overlay, Name};
use crate::documents::{read_yaml, reading, yaml_document};
use crate::error::{outcome, Error, ErrorView};
use crate::model::{lemma_group_data_wf, lemma_host_data_wf, GroupView, HostView, InvView, InventoryData};
use crate::parse::{opt_str, starts_with_dot};
use crate::text::{ends, find_char, join2, lemma_find_char, lemma_find_char_unique, names, same, split, split_text, text_ends, trim, trim_text};
use crate::value::{Value, ValueView, VarMap, VarsView};
use crate::vars::{combine, stacked};

verus! {

/// The extensions that a file of variables may have, in the order in which they are tried.
/// The empty one comes first, so that a directory is found before a file.
pub const VAR_EXTS: [&'static str; 4] = ["", ".yml", ".yaml", ".json"];

/// A name that is one part of a path and stays in its directory: it is not empty, `.` or
/// `..`, and nothing but separators and `.` follows.
pub open spec fn is_entity_file(name: Seq<char>) -> bool {
    let ps = split(name, '/');
    &&& ps[0].len() > 0
    &&& ps[0] != "."@
    &&& ps[0] != ".."@
    &&& forall|k: int| 1 <= k < ps.len() ==> (#[trigger] ps[k]).len() == 0 || ps[k] == "."@
}

/// Whether a name can be looked up as a file in a directory of variables.
pub fn is_safe_entity_name(name: &str) -> (r: bool)
    ensures
        r == is_entity_file(name@),
{
    let pieces = split_text(name, '/');
    let ghost ps = names(pieces@);
    if pieces.len() == 0 {
        assert(ps.len() == 0);
        proof {
            lemma_split_some(name@, '/');
        }
        return false;
    }
    assert(ps[0] == pieces@[0]@);
    let first = pieces[0].as_str();
    if first.is_empty() || same(first, ".") || same(first, "..") {
        return false;
    }
    let mut i: usize = 1;
    while i < pieces.len()
        invariant
            1 <= i <= pieces.len(),
            ps == names(pieces@),
            ps == split(name@, '/'),
            forall|k: int| 1 <= k < i ==> (#[trigger] ps[k]).len() == 0 || ps[k] == "."@,
        decreases pieces.len() - i,
    {
        assert(ps[i as int] == pieces@[i as int]@);
        let p = pieces[i].as_str();
        if !p.is_empty() && !same(p, ".") {
            return false;
        }
        i += 1;
    }
    true
}

/// What is looked for in a directory of variables for a group or a host: its name with each
/// of the extensions; nothing, where the name cannot be looked up.
pub open spec fn candidates(name: Name) -> Seq<Name> {
    if is_entity_file(name) {
        seq![name + ""@, name + ".yml"@, name + ".yaml"@, name + ".json"@]
    } else {
        Seq::empty()
    }
}

/// Lists what is looked for in a directory of variables for a group or a host, in the order
/// of the extensions.
pub fn vars_candidates(name: &str) -> (r: Vec<String>)
    ensures
        names(r@) == candidates(name@),
{
    let mut out: Vec<String> = Vec::new();
    if !is_safe_entity_name(name) {
        assert(names(out@) =~= Seq::empty());
        return out;
    }
    let mut i: usize = 0;
    while i < VAR_EXTS.len()
        invariant
            i <= VAR_EXTS.len(),
            out.len() == i,
            forall|k: int| 0 <= k < i ==> (#[trigger] out@[k])@ == name@ + VAR_EXTS@[k]@,
        decreases VAR_EXTS.len() - i,
    {
        out.push(join2(name, VAR_EXTS[i]));
        i += 1;
    }
    assert(names(out@) =~= candidates(name@));
    out
}

/// A path that stays below the directory that it is looked up in: it does not start at the
/// root, and no part of it leads up.
pub open spec fn stays_inside(path: Seq<char>) -> bool {
    let ps = split(path, '/');
    &&& ps[0].len() > 0
    &&& forall|k: int| 0 <= k < ps.len() ==> #[trigger] ps[k] != ".."@
}

/// A text that goes on without a separator goes on in its last piece.
proof fn lemma_split_more(s: Seq<char>, t: Seq<char>, sep: char)
    requires
        !t.contains(sep),
    ensures
        split(s + t, sep) == split(s, sep).drop_last().push(split(s, sep).last() + t),
    decreases s.len(),
{
    let i = find_char(s, sep);
    lemma_find_char(s, sep);
    if 0 <= i < s.len() {
        lemma_split_more(s.skip(i + 1), t, sep);
        lemma_find_char_unique(s + t, sep, i);
        assert((s + t).take(i) =~= s.take(i));
        assert((s + t).skip(i + 1) =~= s.skip(i + 1) + t);
        let rest = split(s.skip(i + 1), sep);
        lemma_split_some(s.skip(i + 1), sep);
        assert(split(s, sep) =~= seq![s.take(i)] + rest);
        assert(split(s + t, sep) =~= split(s, sep).drop_last().push(split(s, sep).last() + t));
    } else {
        lemma_find_char(s + t, sep);
        assert(split(s + t, sep) =~= split(s, sep).drop_last().push(split(s, sep).last() + t));
    }
}

/// The name of a group or a host cannot lead out of a directory of variables: whatever the
/// name, everything that is looked for stays inside.
pub proof fn law_vars_stay_inside(name: Name, k: int)
    requires
        0 <= k < candidates(name).len(),
    ensures
        stays_inside(candidates(name)[k]),
{
    reveal_strlit("");
    reveal_strlit(".yml");
    reveal_strlit(".yaml");
    reveal_strlit(".json");
    reveal_strlit(".");
    reveal_strlit("..");
    let ext = if k == 0 {
        ""@
    } else if k == 1 {
        ".yml"@
    } else if k == 2 {
        ".yaml"@
    } else {
        ".json"@
    };
    let path = candidates(name)[k];
    let ps = split(name, '/');
    let qs = split(path, '/');
    assert(path == name + ext);
    lemma_split_some(name, '/');
    lemma_split_more(name, ext, '/');
    let n = ps.len() - 1;
    assert(qs.len() == ps.len());
    assert(qs[n] == ps[n] + ext);
    assert(".."@.len() == 2 && "."@.len() == 1);
    assert forall|j: int| 0 <= j < qs.len() implies #[trigger] qs[j] != ".."@ by {
        if j < n {
            assert(qs[j] == ps[j]);
        }
        if j == n && k == 0 {
            assert(qs[n] =~= ps[n]);
        }
    }
}

/// A split text has at least one piece.
proof fn lemma_split_some(s: Seq<char>, sep: char)
    ensures
        split(s, sep).len() > 0,
{
}

/// Where the variables beside a source are looked for.
#[derive(Debug, Clone, Copy, PartialEq, Eq, Structural)]
pub enum BaseDir {
    /// In the source itself.
    Itself,
    /// In the directory that holds it.
    Parent,
    /// In the current directory.
    Current,
}

/// Decides where the variables beside a source are looked for: in a directory itself, else
/// in the directory its path names before its last part, where it names one.
pub fn base_dir(is_dir: bool, names_parent: bool) -> (r: BaseDir)
    ensures
        r == (if is_dir {
            BaseDir::Itself
        } else if names_parent {
            BaseDir::Parent
        } else {
            BaseDir::Current
        }),
{
    if is_dir {
        BaseDir::Itself
    } else if names_parent {
        BaseDir::Parent
    } else {
        BaseDir::Current
    }
}

/// What stands at a path.
#[derive(Debug, Clone, Copy, PartialEq, Eq, Structural)]
pub enum Entry {
    Missing,
    File,
    Directory,
}

/// Which candidate holds the variables.
#[derive(Debug, Clone, Copy, PartialEq, Eq, Structural)]
pub enum VarsChoice {
    /// None does.
    Nothing,
    /// The file with the extension of this position.
    File(usize),
    /// The directory without an extension.
    Directory,
}

/// Which of the candidates from `k` on holds the variables: the first that is there. A
/// directory counts only without an extension.
pub open spec fn choice_from(es: Seq<Entry>, k: int) -> VarsChoice
    decreases es.len() - k,
{
    if k < 0 || k >= es.len() {
        VarsChoice::Nothing
    } else {
        match es[k] {
            Entry::Missing => choice_from(es, k + 1),
            Entry::File => VarsChoice::File(k as usize),
            Entry::Directory => if k == 0 {
                VarsChoice::Directory
            } else {
                VarsChoice::Nothing
            },
        }
    }
}

/// Chooses among the candidates for the extensions in their order.
pub fn choose_vars(entries: &Vec<Entry>) -> (r: VarsChoice)
    ensures
        r == choice_from(entries@, 0),
{
    let mut i: usize = 0;
    while i < entries.len()
        invariant
            i <= entries.len(),
            choice_from(entries@, 0) == choice_from(entries@, i as int),
        decreases entries.len() - i,
    {
        match entries[i] {
            Entry::Missing => {},
            Entry::File => {
                return VarsChoice::File(i);
            },
            Entry::Directory => {
                return if i == 0 {
                    VarsChoice::Directory
                } else {
                    VarsChoice::Nothing
                };
            },
        }
        i += 1;
    }
    VarsChoice::Nothing
}

/// What is to be done with an entry of a directory of variables.
#[derive(Debug, Clone, Copy, PartialEq, Eq, Structural)]
pub enum EntryAction {
    Skip,
    Take,
    Descend,
}

/// What is to be done with an entry: hidden files and backups are skipped, directories
/// without an extension are gone through, and files without an extension or with one for
/// YAML or JSON are taken.
pub open spec fn entry_action(name: Name, ext: Option<Seq<char>>, is_dir: bool) -> EntryAction {
    if (name.len() > 0 && name[0] == '.') || ends(name, "~"@) {
        EntryAction::Skip
    } else if is_dir {
        if ext is None {
            EntryAction::Descend
        } else {
            EntryAction::Skip
        }
    } else {
        match ext {
            None => EntryAction::Take,
            Some(e) => if e == "yml"@ || e == "yaml"@ || e == "json"@ {
                EntryAction::Take
            } else {
                EntryAction::Skip
            },
        }
    }
}

/// Decides what to do with an entry of a directory of variables.
pub fn vars_entry_action(name: &str, ext: Option<&str>, is_dir: bool) -> (r: EntryAction)
    ensures
        r == entry_action(name@, opt_str(ext), is_dir),
{
    if starts_with_dot(name) || text_ends(name, "~") {
        return EntryAction::Skip;
    }
    if is_dir {
        return if ext.is_none() {
            EntryAction::Descend
        } else {
            EntryAction::Skip
        };
    }
    match ext {
        None => EntryAction::Take,
        Some(e) => if same(e, "yml") || same(e, "yaml") || same(e, "json") {
            EntryAction::Take
        } else {
            EntryAction::Skip
        },
    }
}

/// Whether a file of variables is blank.
pub fn is_blank(text: &str) -> (r: bool)
    ensures
        r == (trim(text@).len() == 0),
{
    let t = trim_text(text);
    t.as_str().is_empty()
}

/// What the document of a file of variables holds; what is no mapping counts as nothing.
pub open spec fn document_vars(doc: Result<ValueView, Seq<char>>, path: Seq<char>) -> Result<
    Option<VarsView>,
    ErrorView,
> {
    match doc {
        Ok(ValueView::Dict(o)) => Ok(Some(o)),
        Ok(_) => Ok(None),
        Err(m) => Err(ErrorView::Parse { path, msg: m }),
    }
}

/// What a file of variables holds, given its document: nothing where it is blank.
pub open spec fn file_vars(
    text: Seq<char>,
    doc: Result<ValueView, Seq<char>>,
    path: Seq<char>,
) -> Result<Option<VarsView>, ErrorView> {
    if trim(text).len() == 0 {
        Ok(None)
    } else {
        document_vars(doc, path)
    }
}

/// What an optional map is.
pub open spec fn opt_map(o: Option<VarMap>) -> Option<VarsView> {
    match o {
        Some(m) => Some(m@),
        None => None,
    }
}

/// What a file of variables holds that is not blank, given what its text was read as.
pub fn vars_result(doc: Result<Value, String>, path: &str) -> (r: Result<Option<VarMap>, Error>)
    ensures
        outcome(r, |o: Option<VarMap>| opt_map(o)) == document_vars(reading(doc), path@),
{
    match doc {
        Ok(Value::Dict(o)) => Ok(Some(o)),
        Ok(_) => Ok(None),
        Err(m) => Err(Error::Parse { path: path.to_owned(), msg: m }),
    }
}

/// Reads a file of variables, given its text.
pub fn load_vars_file(text: &str, path: &str) -> (r: Result<Option<VarMap>, Error>)
    ensures
        outcome(r, |o: Option<VarMap>| opt_map(o)) == file_vars(
            text@,
            yaml_document(text@),
            path@,
        ),
{
    if is_blank(text) {
        return Ok(None);
    }
    vars_result(read_yaml(text), path)
}

/// The mappings among what files hold.
pub open spec fn mappings(v: Seq<Option<VarMap>>) -> Seq<VarsView>
    decreases v.len(),
{
    if v.len() == 0 {
        Seq::empty()
    } else {
        match v.last() {
            Some(m) => mappings(v.drop_last()).push(m@),
            None => mappings(v.drop_last()),
        }
    }
}

/// Merges what the files of a group or a host hold, in order.
pub fn collect_entity_vars(files: &Vec<Option<VarMap>>) -> (r: VarMap)
    ensures
        r@ == stacked(mappings(files@)),
{
    let mut merged = VarMap::new();
    let mut i: usize = 0;
    while i < files.len()
        invariant
            i <= files.len(),
            merged@ == stacked(mappings(files@.take(i as int))),
        decreases files.len() - i,
    {
        proof {
            assert(files@.take(i + 1).drop_last() =~= files@.take(i as int));
            assert(files@.take(i + 1).last() == files@[i as int]);
        }
        match &files[i] {
            Some(m) => {
                let ghost before = mappings(files@.take(i as int));
                combine(&mut merged, m);
                assert(before.push(m@).drop_last() =~= before);
            },
            None => {},
        }
        i += 1;
    }
    assert(files@.take(i as int) =~= files@);
    merged
}

/// The inventory with variables of files put over those that a group has from files.
pub open spec fn with_group_file_vars(i: InvView, g: Name, vars: VarsView) -> InvView {
    let v = i.groups[g];
    i.with_group(g, GroupView { file_vars: overlay(v.file_vars, vars), ..v })
}

/// The inventory with variables of files put over those that a host has from files.
pub open spec fn with_host_file_vars(i: InvView, h: Name, vars: VarsView) -> InvView {
    let v = i.hosts[h];
    i.with_host(h, HostView { file_vars: overlay(v.file_vars, vars), ..v })
}

/// Gives a group the variables of its files.
pub fn add_group_file_vars(inv: &mut InventoryData, group: &str, vars: &VarMap)
    requires
        old(inv)@.wf(),
        old(inv)@.groups.dom().contains(group@),
    ensures
        final(inv)@ == with_group_file_vars(old(inv)@, group@, vars@),
        final(inv)@.wf(),
{
    let ghost before = inv@;
    let g = inv.group_mut(group);
    combine(&mut g.file_vars, vars);
    proof {
        assert(before.group_wf(group@));
        lemma_group_data_wf(before, group@, inv@.groups[group@]);
    }
}

/// Gives a host the variables of its files.
pub fn add_host_file_vars(inv: &mut InventoryData, host: &str, vars: &VarMap)
    requires
        old(inv)@.wf(),
        old(inv)@.hosts.dom().contains(host@),
    ensures
        final(inv)@ == with_host_file_vars(old(inv)@, host@, vars@),
        final(inv)@.wf(),
{
    let ghost before = inv@;
    let h = inv.host_mut(host);
    combine(&mut h.file_vars, vars);
    proof {
        lemma_host_data_wf(before, host@, inv@.hosts[host@]);
    }
}

/// A name that can be looked up leaves no directory: it does not start at the root and has
/// no `..` among its parts.
pub proof fn law_entity_stays_inside(name: Seq<char>)
    requires
        is_entity_file(name),
    ensures
        name.len() > 0,
        name[0] != '/',
        forall|k: int| 0 <= k < split(name, '/').len() ==> #[trigger] split(name, '/')[k] != ".."@,
{
    reveal_strlit(".");
    reveal_strlit("..");
    let ps = split(name, '/');
    crate::text::lemma_find_char(name, '/');
    assert("."@.len() == 1 && ".."@.len() == 2);
    assert forall|k: int| 0 <= k < ps.len() implies #[trigger] ps[k] != ".."@ by {
        if k > 0 {
            assert(ps[k].len() == 0 || ps[k] == "."@);
        }
    }
    if name.len() > 0 && name[0] == '/' {
        assert(ps[0] == name.take(0));
    }
}

} // verus!
