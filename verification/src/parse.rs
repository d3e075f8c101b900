//! Inventory sources: what kind a source is, which entries of a directory are sources, and
//! what a structured document makes of an inventory.

use vstd::prelude::*;
use vstd::relations::sorted_by;
use vstd::seq_lib::lemma_sorted_unique;
use crate::assoc::{get, lemma_pos, overlay, pos, Name};
use crate::constructed::{apply, constructed, is_constructed, names_plugin, ApplyStop, Halt};
use crate::documents::{read_toml, read_yaml, reading, toml_document, yaml_document};
use crate::enabled::EnabledKinds;
use crate::error::{outcome, Error, ErrorView};
use crate::expr::number::{FloatTable, Floats};
use crate::model::{lemma_add_child_wf, lemma_filter_names, lemma_host_data_wf, HostView, InvView, InventoryData};
use crate::sanitize::safe_name;
use crate::serialize::{in_order, lemma_in_order, lemma_name_order, sort_names};
use crate::text::{ascii_lower_of, ascii_lower_text, chars_of, ends, lemma_names_push, names, same, text_ends, text_le};
use crate::value::{lemma_list_view, values, Value, ValueView, VarMap, VarsView};
use crate::vars::combine;

verus! {

// ---------------------------------------------------------------------------------------
// Kinds of sources
// ---------------------------------------------------------------------------------------

/// A kind of source that can be switched off.
#[derive(Debug, Clone, Copy, PartialEq, Eq, Structural)]
pub enum SourceKind {
    Script,
    Yaml,
    Toml,
    Ini,
}

/// What is to be done with a source.
#[derive(Debug)]
pub enum SourceAction {
    /// Go through a directory.
    Directory,
    /// Read a source of a kind.
    Read(SourceKind),
    /// Leave out a source whose kind is switched off.
    Skip(SourceKind),
    /// Give up on an unknown extension.
    Unsupported(String),
}

/// What an action is.
pub enum ActionView {
    Directory,
    Read(SourceKind),
    Skip(SourceKind),
    Unsupported(Seq<char>),
}

impl View for SourceAction {
    type V = ActionView;

    open spec fn view(&self) -> ActionView {
        match self {
            SourceAction::Directory => ActionView::Directory,
            SourceAction::Read(k) => ActionView::Read(*k),
            SourceAction::Skip(k) => ActionView::Skip(*k),
            SourceAction::Unsupported(e) => ActionView::Unsupported(e@),
        }
    }
}

/// An extension as it is looked at: in lower case, empty where there is none.
pub open spec fn plain_ext(ext: Option<Seq<char>>) -> Seq<char> {
    match ext {
        Some(e) => ascii_lower_text(e),
        None => Seq::empty(),
    }
}

/// An extension that stands for a format.
pub open spec fn is_inventory_ext(e: Seq<char>) -> bool {
    e == "yaml"@ || e == "yml"@ || e == "json"@ || e == "toml"@ || e == "ini"@
}

/// A kind is switched on.
pub open spec fn kind_enabled(enabled: EnabledKinds, k: SourceKind) -> bool {
    match k {
        SourceKind::Script => enabled.script,
        SourceKind::Yaml => enabled.yaml,
        SourceKind::Toml => enabled.toml,
        SourceKind::Ini => enabled.ini,
    }
}

/// The kind of a source that is no directory: an executable without an inventory extension
/// is a script, everything else goes by its extension; `None` for an unknown one.
pub open spec fn kind_of_source(executable: bool, e: Seq<char>) -> Option<SourceKind> {
    if executable && !is_inventory_ext(e) {
        Some(SourceKind::Script)
    } else if e == "yaml"@ || e == "yml"@ || e == "json"@ || e.len() == 0 {
        Some(SourceKind::Yaml)
    } else if e == "toml"@ {
        Some(SourceKind::Toml)
    } else if e == "ini"@ {
        Some(SourceKind::Ini)
    } else {
        None
    }
}

/// What is to be done with a source.
pub open spec fn action_for(
    is_dir: bool,
    executable: bool,
    ext: Option<Seq<char>>,
    enabled: EnabledKinds,
) -> ActionView {
    let e = plain_ext(ext);
    if is_dir {
        ActionView::Directory
    } else {
        match kind_of_source(executable, e) {
            Some(k) => if kind_enabled(enabled, k) {
                ActionView::Read(k)
            } else {
                ActionView::Skip(k)
            },
            None => ActionView::Unsupported(e),
        }
    }
}

/// What an optional text slice holds.
pub open spec fn opt_str(o: Option<&str>) -> Option<Seq<char>> {
    match o {
        Some(s) => Some(s@),
        None => None,
    }
}

/// An extension as it is looked at.
fn lower_ext(ext: Option<&str>) -> (r: String)
    ensures
        r@ == plain_ext(opt_str(ext)),
{
    match ext {
        Some(e) => ascii_lower_of(e),
        None => {
            let r = String::new();
            assert(r@ =~= Seq::<char>::empty());
            r
        },
    }
}

/// Whether an extension stands for a format.
pub fn has_inventory_ext(ext: Option<&str>) -> (r: bool)
    ensures
        r == is_inventory_ext(plain_ext(opt_str(ext))),
{
    let low = lower_ext(ext);
    let e = low.as_str();
    same(e, "yaml") || same(e, "yml") || same(e, "json") || same(e, "toml") || same(e, "ini")
}

/// Whether a kind is switched on.
fn is_enabled(enabled: EnabledKinds, k: SourceKind) -> (r: bool)
    ensures
        r == kind_enabled(enabled, k),
{
    match k {
        SourceKind::Script => enabled.script,
        SourceKind::Yaml => enabled.yaml,
        SourceKind::Toml => enabled.toml,
        SourceKind::Ini => enabled.ini,
    }
}

/// Decides what to do with a source: `executable` says whether it is a file that can be
/// run, `ext` is the extension of its name.
pub fn source_action(is_dir: bool, executable: bool, ext: Option<&str>, enabled: EnabledKinds) -> (r:
    SourceAction)
    ensures
        r@ == action_for(is_dir, executable, opt_str(ext), enabled),
{
    if is_dir {
        return SourceAction::Directory;
    }
    let low = lower_ext(ext);
    let e = low.as_str();
    let kind = if executable && !has_inventory_ext(ext) {
        Some(SourceKind::Script)
    } else if same(e, "yaml") || same(e, "yml") || same(e, "json") || e.is_empty() {
        Some(SourceKind::Yaml)
    } else if same(e, "toml") {
        Some(SourceKind::Toml)
    } else if same(e, "ini") {
        Some(SourceKind::Ini)
    } else {
        None
    };
    match kind {
        Some(k) => if is_enabled(enabled, k) {
            SourceAction::Read(k)
        } else {
            SourceAction::Skip(k)
        },
        None => SourceAction::Unsupported(low),
    }
}

// ---------------------------------------------------------------------------------------
// Directories
// ---------------------------------------------------------------------------------------

/// An entry of a directory that is no source: hidden, a backup, one of the directories for
/// variables, or of an ignored extension.
pub open spec fn ignored_entry(n: Name) -> bool {
    ||| n.len() > 0 && n[0] == '.'
    ||| ends(n, "~"@)
    ||| n == "host_vars"@
    ||| n == "group_vars"@
    ||| n == "vars_plugins"@
    ||| ends(n, ".pyc"@)
    ||| ends(n, ".pyo"@)
    ||| ends(n, ".swp"@)
    ||| ends(n, ".bak"@)
    ||| ends(n, ".rpm"@)
    ||| ends(n, ".md"@)
    ||| ends(n, ".txt"@)
    ||| ends(n, ".rst"@)
    ||| ends(n, ".orig"@)
    ||| ends(n, ".ini"@)
    ||| ends(n, ".cfg"@)
    ||| ends(n, ".retry"@)
}

/// Whether an entry of a directory is no source.
pub fn is_ignored_dir_entry(name: &str) -> (r: bool)
    ensures
        r == ignored_entry(name@),
{
    starts_with_dot(name) || text_ends(name, "~") || same(name, "host_vars") || same(
        name,
        "group_vars",
    ) || same(name, "vars_plugins") || text_ends(name, ".pyc") || text_ends(name, ".pyo")
        || text_ends(name, ".swp") || text_ends(name, ".bak") || text_ends(name, ".rpm")
        || text_ends(name, ".md") || text_ends(name, ".txt") || text_ends(name, ".rst")
        || text_ends(name, ".orig") || text_ends(name, ".ini") || text_ends(name, ".cfg")
        || text_ends(name, ".retry")
}

/// Whether a name starts with a dot.
pub fn starts_with_dot(name: &str) -> (r: bool)
    ensures
        r == (name@.len() > 0 && name@[0] == '.'),
{
    let cs = chars_of(name);
    cs.len() > 0 && cs[0] == '.'
}

/// The sources among the entries of a directory, in the order in which they are read: that
/// of the code points of their names.
pub open spec fn sources_of(ns: Seq<Name>) -> Seq<Name> {
    in_order(ns).filter(|n: Name| !ignored_entry(n))
}

/// The sources among the entries of a directory, in the order in which they are read.
pub fn directory_sources(entries: &Vec<String>) -> (r: Vec<String>)
    ensures
        names(r@) == sources_of(names(entries@)),
{
    let ghost pred = |n: Name| !ignored_entry(n);
    let sorted = sort_names(entries);
    let ghost src = names(sorted@);
    let mut out: Vec<String> = Vec::new();
    let mut i: usize = 0;
    assert(names(out@) =~= Seq::empty());
    assert(src.take(0).filter(pred) =~= Seq::empty()) by {
        reveal(Seq::filter);
    }
    while i < sorted.len()
        invariant
            i <= sorted.len(),
            src == names(sorted@),
            pred == (|n: Name| !ignored_entry(n)),
            names(out@) == src.take(i as int).filter(pred),
        decreases sorted.len() - i,
    {
        proof {
            reveal(Seq::filter);
            assert(src.take(i + 1).drop_last() =~= src.take(i as int));
            assert(src[i as int] == sorted@[i as int]@);
            lemma_names_push(out@, sorted@[i as int]);
        }
        if !is_ignored_dir_entry(sorted[i].as_str()) {
            out.push(sorted[i].clone());
        }
        i += 1;
    }
    assert(src.take(i as int) =~= src);
    out
}

// ---------------------------------------------------------------------------------------
// Structured documents
// ---------------------------------------------------------------------------------------

/// The inventory with one host of a group in it, and its variables combined.
pub open spec fn ingest_host(i: InvView, g: Name, h: Name, vars: Option<VarsView>) -> InvView {
    let j = i.add_host(h).add_host_to_group(h, g);
    match vars {
        Some(v) => {
            let w = j.hosts[h];
            j.with_host(h, HostView { vars: overlay(w.vars, v), ..w })
        },
        None => j,
    }
}

/// The variables of a value that is a map.
pub open spec fn as_map(v: ValueView) -> Option<VarsView> {
    match v {
        ValueView::Dict(o) => Some(o),
        _ => None,
    }
}

/// The inventory with the first `n` hosts of a map of hosts in it.
pub open spec fn ingest_host_map(i: InvView, g: Name, o: VarsView, n: nat) -> InvView
    decreases n,
{
    if n == 0 || n > o.len() {
        i
    } else {
        ingest_host(
            ingest_host_map(i, g, o, (n - 1) as nat),
            g,
            o[n - 1].0,
            as_map(o[n - 1].1),
        )
    }
}

/// The inventory with the first `n` hosts of a list of names in it; what is no text is
/// passed over.
pub open spec fn ingest_host_list(i: InvView, g: Name, a: Seq<ValueView>, n: nat) -> InvView
    decreases n,
{
    if n == 0 || n > a.len() {
        i
    } else {
        let j = ingest_host_list(i, g, a, (n - 1) as nat);
        match a[n - 1] {
            ValueView::Text(h) => ingest_host(j, g, h, None),
            _ => j,
        }
    }
}

/// The inventory with the hosts of a group in it.
pub open spec fn ingest_hosts(i: InvView, g: Name, v: ValueView) -> InvView {
    match v {
        ValueView::Dict(o) => ingest_host_map(i, g, o, o.len()),
        ValueView::List(a) => ingest_host_list(i, g, a, a.len()),
        _ => i,
    }
}

/// The inventory with the first `n` variables of a group set, one after the other.
pub open spec fn ingest_vars(i: InvView, g: Name, o: VarsView, n: nat) -> InvView
    decreases n,
{
    if n == 0 || n > o.len() {
        i
    } else {
        ingest_vars(i, g, o, (n - 1) as nat).set_group_var(g, o[n - 1].0, o[n - 1].1)
    }
}

/// The inventory with the first `n` names of a list linked under a group; what is no text
/// is passed over.
pub open spec fn ingest_child_list(i: InvView, g: Name, a: Seq<ValueView>, n: nat) -> InvView
    decreases n,
{
    if n == 0 || n > a.len() {
        i
    } else {
        let j = ingest_child_list(i, g, a, (n - 1) as nat);
        match a[n - 1] {
            ValueView::Text(c) => j.add_group(c).add_child(g, safe_name(c)),
            _ => j,
        }
    }
}

/// The inventory with a group's definition in it: the group is made and linked, then its
/// hosts, its variables and its children follow. Children are a map of definitions or a list
/// of names.
pub open spec fn ingest_group(i: InvView, raw: Name, def: ValueView, parent: Option<Name>) -> InvView
    decreases def, 1nat,
{
    let g = safe_name(raw);
    let made = i.add_group(raw);
    let linked = match parent {
        Some(p) => made.add_child(p, g),
        None => made,
    };
    match def {
        ValueView::Dict(o) => {
            let with_hosts = match get(o, "hosts"@) {
                Some(v) => ingest_hosts(linked, g, v),
                None => linked,
            };
            let with_vars = match get(o, "vars"@) {
                Some(ValueView::Dict(v)) => ingest_vars(with_hosts, g, v, v.len()),
                _ => with_hosts,
            };
            let at = pos(o, "children"@);
            if 0 <= at < o.len() {
                match o[at].1 {
                    ValueView::Dict(c) => ingest_child_map(with_vars, g, c, c.len()),
                    ValueView::List(a) => ingest_child_list(with_vars, g, a, a.len()),
                    _ => with_vars,
                }
            } else {
                with_vars
            }
        },
        _ => linked,
    }
}

/// The inventory with the first `n` definitions of a map of children in it.
pub open spec fn ingest_child_map(i: InvView, g: Name, c: VarsView, n: nat) -> InvView
    decreases c, n,
{
    if n == 0 || n > c.len() {
        i
    } else {
        let e = c[n - 1];
        ingest_group(ingest_child_map(i, g, c, (n - 1) as nat), e.0, e.1, Some(g))
    }
}

/// The inventory with the first `n` groups of a document in it.
pub open spec fn ingest_groups(i: InvView, o: VarsView, n: nat) -> InvView
    decreases n,
{
    if n == 0 || n > o.len() {
        i
    } else {
        ingest_group(ingest_groups(i, o, (n - 1) as nat), o[n - 1].0, o[n - 1].1, None)
    }
}

/// What a structured document makes of an inventory, and the error where it is no mapping.
pub open spec fn ingest_document(i: InvView, v: ValueView, path: Seq<char>) -> (
    InvView,
    Option<ErrorView>,
) {
    match v {
        ValueView::Dict(o) => (ingest_groups(i, o, o.len()), None),
        _ => (
            i,
            Some(
                ErrorView::Parse {
                    path,
                    msg: "inventory file must be a mapping of group names to group definitions"@,
                },
            ),
        ),
    }
}

/// Adds a host to a group, with its variables.
fn add_host(inv: &mut InventoryData, group: &str, host: &str, vars: Option<&VarMap>)
    requires
        old(inv)@.wf(),
        old(inv)@.groups.dom().contains(group@),
    ensures
        final(inv)@ == ingest_host(
            old(inv)@,
            group@,
            host@,
            match vars {
                Some(v) => Some(v@),
                None => None,
            },
        ),
        final(inv)@.wf(),
        final(inv)@.groups.dom() == old(inv)@.groups.dom(),
{
    let ghost i0 = inv@;
    inv.add_host(host);
    let ghost a = inv@;
    inv.add_host_to_group(host, group);
    let ghost b = inv@;
    assert(b.groups.dom() =~= i0.groups.dom());
    match vars {
        Some(v) => {
            let h = inv.host_mut(host);
            combine(&mut h.vars, v);
            proof {
                lemma_host_data_wf(b, host@, inv@.hosts[host@]);
            }
        },
        None => {},
    }
}

/// The map that a value is.
fn map_of(v: &Value) -> (r: Option<&VarMap>)
    ensures
        (match r {
            Some(m) => Some(m@),
            None => None,
        }) == as_map(v@),
{
    match v {
        Value::Dict(o) => Some(o),
        _ => None,
    }
}

/// Adds the hosts of a group.
fn parse_hosts(inv: &mut InventoryData, group: &str, hosts: &Value)
    requires
        old(inv)@.wf(),
        old(inv)@.groups.dom().contains(group@),
    ensures
        final(inv)@ == ingest_hosts(old(inv)@, group@, hosts@),
        final(inv)@.wf(),
        final(inv)@.groups.dom() == old(inv)@.groups.dom(),
{
    let ghost i0 = inv@;
    match hosts {
        Value::Dict(o) => {
            let mut i: usize = 0;
            while i < o.len()
                invariant
                    i <= o@.len(),
                    inv@.wf(),
                    inv@.groups.dom() == i0.groups.dom(),
                    i0.groups.dom().contains(group@),
                    inv@ == ingest_host_map(i0, group@, o@, i as nat),
                decreases o@.len() - i,
            {
                add_host(inv, group, o.name_at(i).as_str(), map_of(o.value_at(i)));
                i += 1;
            }
        },
        Value::List(a) => {
            let ghost items = values(a@);
            proof {
                lemma_list_view(*a);
            }
            let mut i: usize = 0;
            while i < a.len()
                invariant
                    i <= a@.len(),
                    items == values(a@),
                    inv@.wf(),
                    inv@.groups.dom() == i0.groups.dom(),
                    i0.groups.dom().contains(group@),
                    inv@ == ingest_host_list(i0, group@, items, i as nat),
                decreases a.len() - i,
            {
                assert(items[i as int] == a@[i as int]@);
                match &a[i] {
                    Value::Text(h) => {
                        add_host(inv, group, h.as_str(), None);
                    },
                    _ => {},
                }
                i += 1;
            }
        },
        _ => {},
    }
}

/// Sets the variables of a group.
pub fn merge_group_vars(inv: &mut InventoryData, group: &str, vars: &VarMap)
    requires
        old(inv)@.wf(),
        old(inv)@.groups.dom().contains(group@),
    ensures
        final(inv)@ == ingest_vars(old(inv)@, group@, vars@, vars@.len()),
        final(inv)@.wf(),
        final(inv)@.groups.dom() == old(inv)@.groups.dom(),
{
    let ghost i0 = inv@;
    let mut i: usize = 0;
    while i < vars.len()
        invariant
            i <= vars@.len(),
            inv@.wf(),
            inv@.groups.dom() == i0.groups.dom(),
            i0.groups.dom().contains(group@),
            inv@ == ingest_vars(i0, group@, vars@, i as nat),
        decreases vars@.len() - i,
    {
        let ghost here = inv@;
        inv.set_group_var(group, vars.name_at(i).as_str(), vars.value_at(i).clone());
        assert(inv@.groups.dom() =~= here.groups.dom());
        i += 1;
    }
}

/// Links the groups of a list of names under a group.
pub fn link_names(inv: &mut InventoryData, group: &str, a: &Vec<Value>)
    requires
        old(inv)@.wf(),
        old(inv)@.groups.dom().contains(group@),
    ensures
        final(inv)@ == ingest_child_list(old(inv)@, group@, values(a@), a@.len()),
        final(inv)@.wf(),
        old(inv)@.groups.dom().subset_of(final(inv)@.groups.dom()),
{
    let ghost i0 = inv@;
    let ghost items = values(a@);
    let mut i: usize = 0;
    while i < a.len()
        invariant
            i <= a@.len(),
            items == values(a@),
            inv@.wf(),
            i0.groups.dom().subset_of(inv@.groups.dom()),
            i0.groups.dom().contains(group@),
            inv@ == ingest_child_list(i0, group@, items, i as nat),
        decreases a.len() - i,
    {
        assert(items[i as int] == a@[i as int]@);
        match &a[i] {
            Value::Text(c) => {
                let safe = inv.add_group(c.as_str());
                let ghost here = inv@;
                proof {
                    lemma_add_child_wf(here, group@, safe@);
                }
                inv.add_child(group, safe.as_str());
            },
            _ => {},
        }
        i += 1;
    }
}

/// Reads a group's definition.
fn parse_group(inv: &mut InventoryData, raw_name: &str, def: &Value, parent: Option<&str>)
    requires
        old(inv)@.wf(),
        parent matches Some(p) ==> old(inv)@.groups.dom().contains(p@),
    ensures
        final(inv)@ == ingest_group(old(inv)@, raw_name@, def@, opt_str(parent)),
        final(inv)@.wf(),
        old(inv)@.groups.dom().subset_of(final(inv)@.groups.dom()),
    decreases def, 1nat,
{
    let ghost i0 = inv@;
    let name = inv.add_group(raw_name);
    match parent {
        Some(p) => {
            proof {
                lemma_add_child_wf(inv@, p@, name@);
            }
            inv.add_child(p, name.as_str());
        },
        None => {},
    }
    let o = match def {
        Value::Dict(o) => o,
        _ => {
            return;
        },
    };
    match o.get("hosts") {
        Some(hosts) => parse_hosts(inv, name.as_str(), hosts),
        None => {},
    }
    match o.get("vars") {
        Some(Value::Dict(vars)) => merge_group_vars(inv, name.as_str(), vars),
        _ => {},
    }
    proof {
        lemma_pos(o@, "children"@);
    }
    match o.get("children") {
        Some(Value::Dict(children)) => {
            parse_children(inv, name.as_str(), children);
        },
        Some(Value::List(a)) => {
            proof {
                lemma_list_view(*a);
            }
            link_names(inv, name.as_str(), a);
        },
        _ => {},
    }
}

/// Reads the definitions of children.
fn parse_children(inv: &mut InventoryData, group: &str, children: &VarMap)
    requires
        old(inv)@.wf(),
        old(inv)@.groups.dom().contains(group@),
    ensures
        final(inv)@ == ingest_child_map(old(inv)@, group@, children@, children@.len()),
        final(inv)@.wf(),
        old(inv)@.groups.dom().subset_of(final(inv)@.groups.dom()),
    decreases children, 0nat,
{
    let ghost i0 = inv@;
    let mut i: usize = 0;
    while i < children.len()
        invariant
            i <= children@.len(),
            inv@.wf(),
            i0.groups.dom().subset_of(inv@.groups.dom()),
            i0.groups.dom().contains(group@),
            inv@ == ingest_child_map(i0, group@, children@, i as nat),
        decreases children@.len() - i,
    {
        parse_group(inv, children.name_at(i).as_str(), children.value_at(i), Some(group));
        i += 1;
    }
}

/// Reads a structured document into an inventory. `path` is what errors call it.
pub fn parse_structured_value(inv: &mut InventoryData, value: &Value, path: &str) -> (r: Result<
    (),
    Error,
>)
    requires
        old(inv)@.wf(),
    ensures
        final(inv)@.wf(),
        (final(inv)@, match r {
            Ok(_) => None,
            Err(e) => Some(e@),
        }) == ingest_document(old(inv)@, value@, path@),
{
    let top = match value {
        Value::Dict(o) => o,
        _ => {
            return Err(
                Error::Parse {
                    path: path.to_owned(),
                    msg:
                        "inventory file must be a mapping of group names to group definitions".to_owned(),
                },
            );
        },
    };
    let ghost i0 = inv@;
    let mut i: usize = 0;
    while i < top.len()
        invariant
            i <= top@.len(),
            inv@.wf(),
            inv@ == ingest_groups(i0, top@, i as nat),
        decreases top@.len() - i,
    {
        parse_group(inv, top.name_at(i).as_str(), top.value_at(i), None);
        i += 1;
    }
    Ok(())
}

/// What a structured source makes of an inventory, and the stop: the configuration of a
/// constructed inventory is run where that kind is switched on; everything else is a
/// document.
pub open spec fn ingest_source(
    i: InvView,
    v: ValueView,
    auto: bool,
    fl: Floats,
    path: Seq<char>,
) -> (InvView, Option<Halt>) {
    if auto && names_plugin(v) {
        let (j, stop) = constructed(i, v, fl, path);
        match stop {
            Some(Halt::NeedFloat(_)) => (i, stop),
            Some(Halt::Overflow) => (i, stop),
            _ => (j, stop),
        }
    } else {
        let (j, e) = ingest_document(i, v, path);
        (j, match e {
            Some(e) => Some(Halt::Error(e)),
            None => None,
        })
    }
}

/// Reads a structured source into an inventory.
pub fn parse_structured_source(
    inv: &mut InventoryData,
    value: &Value,
    path: &str,
    enabled: EnabledKinds,
    fl: &FloatTable,
) -> (r: Result<(), ApplyStop>)
    requires
        old(inv)@.wf(),
    ensures
        final(inv)@.wf(),
        (final(inv)@, match r {
            Ok(_) => None,
            Err(s) => Some(s@),
        }) == ingest_source(old(inv)@, value@, enabled.auto, fl@, path@),
{
    if enabled.auto && is_constructed(value) {
        return apply(inv, value, fl, path);
    }
    match parse_structured_value(inv, value, path) {
        Ok(_) => Ok(()),
        Err(e) => Err(ApplyStop::Error(e)),
    }
}

/// What a text that was taken for a document is.
pub open spec fn document(doc: Result<ValueView, Seq<char>>, path: Seq<char>) -> Result<
    ValueView,
    ErrorView,
> {
    match doc {
        Ok(v) => Ok(v),
        Err(m) => Err(ErrorView::Parse { path, msg: m }),
    }
}

/// The document that a file holds, given what its text was read as.
pub fn document_result(doc: Result<Value, String>, path: &str) -> (r: Result<Value, Error>)
    ensures
        outcome(r, |v: Value| v@) == document(reading(doc), path@),
{
    match doc {
        Ok(v) => Ok(v),
        Err(m) => Err(Error::Parse { path: path.to_owned(), msg: m }),
    }
}

/// Reads the document of a YAML or JSON file, given its text.
pub fn read_document(text: &str, path: &str) -> (r: Result<Value, Error>)
    ensures
        outcome(r, |v: Value| v@) == document(yaml_document(text@), path@),
{
    document_result(read_yaml(text), path)
}

/// What a file of a structured source does to an inventory, given its document.
pub open spec fn ingest_structured(
    i: InvView,
    doc: Result<ValueView, Seq<char>>,
    auto: bool,
    fl: Floats,
    path: Seq<char>,
) -> (InvView, Option<Halt>) {
    match document(doc, path) {
        Ok(v) => ingest_source(i, v, auto, fl, path),
        Err(e) => (i, Some(Halt::Error(e))),
    }
}

/// Reads a YAML or JSON file, given its text, into an inventory.
pub fn parse_structured_file(
    inv: &mut InventoryData,
    text: &str,
    path: &str,
    enabled: EnabledKinds,
    fl: &FloatTable,
) -> (r: Result<(), ApplyStop>)
    requires
        old(inv)@.wf(),
    ensures
        final(inv)@.wf(),
        (final(inv)@, match r {
            Ok(_) => None,
            Err(s) => Some(s@),
        }) == ingest_structured(old(inv)@, yaml_document(text@), enabled.auto, fl@, path@),
{
    match read_document(text, path) {
        Ok(v) => parse_structured_source(inv, &v, path, enabled, fl),
        Err(e) => Err(ApplyStop::Error(e)),
    }
}

/// What a TOML file does to an inventory, given its document.
pub open spec fn ingest_toml(
    i: InvView,
    doc: Result<ValueView, Seq<char>>,
    path: Seq<char>,
) -> (InvView, Option<ErrorView>) {
    match document(doc, path) {
        Ok(v) => ingest_document(i, v, path),
        Err(e) => (i, Some(e)),
    }
}

/// Reads a TOML file, given its text, into an inventory.
pub fn parse_toml_file(inv: &mut InventoryData, text: &str, path: &str) -> (r: Result<(), Error>)
    requires
        old(inv)@.wf(),
    ensures
        final(inv)@.wf(),
        (final(inv)@, match r {
            Ok(_) => None,
            Err(e) => Some(e@),
        }) == ingest_toml(old(inv)@, toml_document(text@), path@),
{
    match document_result(read_toml(text), path) {
        Ok(v) => parse_structured_value(inv, &v, path),
        Err(e) => Err(e),
    }
}

/// The error of a directory that is, through links, inside of itself.
pub fn cycle_error(path: &str) -> (r: Error)
    ensures
        r@ == (ErrorView::Parse {
            path: path@,
            msg: "directory inventory contains a symlink cycle"@,
        }),
{
    Error::Parse {
        path: path.to_owned(),
        msg: "directory inventory contains a symlink cycle".to_owned(),
    }
}

/// The inventory once all sources are read: loose groups tied to `all`, loose hosts in
/// `ungrouped`.
pub open spec fn reconciled(i: InvView) -> InvView {
    i.adopt(i.orphan_groups()).reconcile_ungrouped()
}

/// Ties loose groups to `all` and puts loose hosts into `ungrouped`.
pub fn reconcile(inv: &mut InventoryData)
    requires
        old(inv)@.wf(),
    ensures
        final(inv)@ == reconciled(old(inv)@),
        final(inv)@.wf(),
{
    inv.reconcile_all_children();
    inv.reconcile_ungrouped();
}

// ---------------------------------------------------------------------------------------
// Laws
// ---------------------------------------------------------------------------------------

/// What is left of names in order is in order.
proof fn lemma_filter_sorted(s: Seq<Name>, pred: spec_fn(Name) -> bool)
    requires
        sorted_by(s, |a: Name, b: Name| text_le(a, b)),
    ensures
        sorted_by(s.filter(pred), |a: Name, b: Name| text_le(a, b)),
    decreases s.len(),
{
    let leq = |a: Name, b: Name| text_le(a, b);
    reveal(Seq::filter);
    if s.len() > 0 {
        let u = s.drop_last();
        assert(sorted_by(u, leq)) by {
            assert forall|a: int, b: int| 0 <= a < b < u.len() implies #[trigger] leq(
                u[a],
                u[b],
            ) by {
                assert(leq(s[a], s[b]));
            }
        }
        lemma_filter_sorted(u, pred);
        let f = u.filter(pred);
        let g = s.filter(pred);
        lemma_filter_names(u, pred);
        assert forall|a: int, b: int| 0 <= a < b < g.len() implies #[trigger] leq(g[a], g[b]) by {
            if b < f.len() {
                assert(leq(f[a], f[b]));
            } else {
                assert(f.contains(f[a]));
                assert(u.contains(f[a]));
                let k = choose|k: int| 0 <= k < u.len() && u[k] == f[a];
                assert(leq(s[k], s[s.len() - 1]));
            }
        }
    }
}

/// The sources of a directory are its entries that are not ignored, in the order of their
/// code points.
pub proof fn law_directory_sources(ns: Seq<Name>)
    ensures
        sorted_by(sources_of(ns), |a: Name, b: Name| text_le(a, b)),
        forall|n: Name| #[trigger]
            sources_of(ns).contains(n) <==> ns.contains(n) && !ignored_entry(n),
{
    let pred = |n: Name| !ignored_entry(n);
    lemma_in_order(ns);
    lemma_filter_sorted(in_order(ns), pred);
    lemma_filter_names(in_order(ns), pred);
}

/// In which order a directory gives its entries does not matter.
pub proof fn law_directory_order_is_free(ns: Seq<Name>, ms: Seq<Name>)
    requires
        ns.to_multiset() == ms.to_multiset(),
    ensures
        sources_of(ns) == sources_of(ms),
{
    let leq = |a: Name, b: Name| text_le(a, b);
    lemma_name_order();
    ns.lemma_sort_by_ensures(leq);
    ms.lemma_sort_by_ensures(leq);
    lemma_sorted_unique(in_order(ns), in_order(ms), leq);
}

} // verus!
