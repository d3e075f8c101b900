//! What a command line asks for.

use vstd::prelude::*;
use crate::assoc::Name;
use crate::documents::{json_pretty, toml_text, writing, yaml_text};
use crate::enabled::{lists_name, EnabledKinds};
use crate::error::{outcome, Error, ErrorView};
use crate::model::{InvView, InventoryData};
use crate::nameset::NameSet;
use crate::output::{build_host, build_list, build_toml, build_yaml, list_tree, nested_tree, scope, shown_vars, table_tree, GroupPruning};
use crate::parse::opt_str;
use crate::pattern::{select_hosts, selected, trimmed};
use crate::serialize::{sorted_value, stripped, to_json, to_toml, to_yaml, toml_output, yaml_output};
use crate::text::{ascii_lower_of, ascii_lower_text, copy_list, debug_str, debug_text, join3, lemma_names_push, names, same, split, split_text, trim, trim_text};
use crate::value::{Value, ValueView};

verus! {

/// A command line.
#[derive(Debug)]
pub struct Args {
    /// Show all hosts.
    pub list: bool,
    /// Show the variables of one host.
    pub host: Option<String>,
    /// The inventory sources.
    pub inventory: Vec<String>,
    /// The hosts to show.
    pub limit: Option<String>,
    /// Write YAML.
    pub yaml: bool,
    /// Write TOML.
    pub toml: bool,
    /// Show variables where they were set.
    pub export: bool,
    /// Keep groups that have nothing to show in their parents' lists.
    pub strict_compatibility: bool,
}

/// What an environment variable holds.
#[derive(Debug)]
pub enum Setting {
    /// It is not set.
    Unset,
    /// Its text.
    Text(String),
    /// It is no text.
    NotText,
}

/// How the output is written.
#[derive(Debug, Clone, Copy, PartialEq, Eq, Structural)]
pub enum Format {
    Json,
    Yaml,
    Toml,
}

/// What is to be loaded and how it is pruned.
#[derive(Debug)]
pub struct Plan {
    pub sources: Vec<String>,
    pub pruning: GroupPruning,
    pub enabled: EnabledKinds,
}

/// The sources a command line names, or else those an environment variable lists; an error
/// where there are none.
pub open spec fn sources_for(given: Seq<Name>, setting: Option<Seq<char>>) -> Result<
    Seq<Name>,
    Seq<char>,
> {
    let listed = match setting {
        Some(s) => trimmed(split(s, ',')),
        None => Seq::empty(),
    };
    if given.len() > 0 {
        Ok(given)
    } else if listed.len() > 0 {
        Ok(listed)
    } else {
        Err("no inventory source given (use -i/--inventory or set ANSIBLE_INVENTORY)"@)
    }
}

/// What a list of names gave.
pub open spec fn list_result(r: Result<Vec<String>, String>) -> Result<Seq<Name>, Seq<char>> {
    match r {
        Ok(v) => Ok(names(v@)),
        Err(e) => Err(e@),
    }
}

/// Finds the sources: `setting` is what `ANSIBLE_INVENTORY` holds.
pub fn resolve_sources(args: &Args, setting: Option<&str>) -> (r: Result<Vec<String>, String>)
    ensures
        list_result(r) == sources_for(names(args.inventory@), opt_str(setting)),
{
    if args.inventory.len() > 0 {
        return Ok(copy_list(&args.inventory));
    }
    let mut out: Vec<String> = Vec::new();
    assert(names(out@) =~= Seq::empty());
    match setting {
        Some(s) => {
            let pieces = split_text(s, ',');
            let ghost ps = names(pieces@);
            let mut i: usize = 0;
            while i < pieces.len()
                invariant
                    i <= pieces.len(),
                    ps == names(pieces@),
                    names(out@) == trimmed(ps.take(i as int)),
                decreases pieces.len() - i,
            {
                proof {
                    assert(ps[i as int] == pieces@[i as int]@);
                    assert(ps.take(i + 1).drop_last() =~= ps.take(i as int));
                    assert(ps.take(i + 1).last() == ps[i as int]);
                }
                let t = trim_text(pieces[i].as_str());
                if !t.as_str().is_empty() {
                    proof {
                        lemma_names_push(out@, t);
                    }
                    out.push(t);
                }
                i += 1;
            }
            assert(ps.take(i as int) =~= ps);
        },
        None => {},
    }
    if out.len() > 0 {
        Ok(out)
    } else {
        Err(
            "no inventory source given (use -i/--inventory or set ANSIBLE_INVENTORY)".to_owned(),
        )
    }
}

/// What `FLEETS_STRICT_COMPATIBILITY` says: true and 1 switch the mode on, false, 0 and
/// nothing do not, and anything else is an error.
pub open spec fn strict_setting(s: Setting) -> Result<bool, Seq<char>> {
    match s {
        Setting::Unset => Ok(false),
        Setting::NotText => Err("FLEETS_STRICT_COMPATIBILITY must be valid UTF-8"@),
        Setting::Text(v) => {
            let t = ascii_lower_text(trim(v@));
            if t == "true"@ || t == "1"@ {
                Ok(true)
            } else if t == "false"@ || t == "0"@ {
                Ok(false)
            } else {
                Err(
                    "invalid FLEETS_STRICT_COMPATIBILITY value "@ + debug_text(v@)
                        + " (expected true, false, 1, or 0)"@,
                )
            }
        },
    }
}

/// The mode is on: by the command line or by the environment.
pub open spec fn strict_for(flag: bool, s: Setting) -> Result<bool, Seq<char>> {
    match strict_setting(s) {
        Ok(b) => Ok(flag || b),
        Err(e) => Err(e),
    }
}

/// Whether strict compatibility is asked for.
pub fn strict_compatibility(args: &Args, setting: &Setting) -> (r: Result<bool, String>)
    ensures
        (match r {
            Ok(b) => Ok(b),
            Err(e) => Err(e@),
        }) == strict_for(args.strict_compatibility, *setting),
{
    let from_env = match setting {
        Setting::Unset => false,
        Setting::NotText => {
            return Err("FLEETS_STRICT_COMPATIBILITY must be valid UTF-8".to_owned());
        },
        Setting::Text(v) => {
            let trimmed_text = trim_text(v.as_str());
            let low = ascii_lower_of(trimmed_text.as_str());
            let t = low.as_str();
            if same(t, "true") || same(t, "1") {
                true
            } else if same(t, "false") || same(t, "0") {
                false
            } else {
                let shown = debug_str(v.as_str());
                return Err(
                    join3(
                        "invalid FLEETS_STRICT_COMPATIBILITY value ",
                        shown.as_str(),
                        " (expected true, false, 1, or 0)",
                    ),
                );
            }
        },
    };
    Ok(args.strict_compatibility || from_env)
}

/// What is wrong with a command line, sources aside.
pub open spec fn arguments_fault(args: Args, strict: Setting) -> Option<Seq<char>> {
    if args.list && args.host is Some {
        Some("--list and --host are mutually exclusive"@)
    } else if !args.list && args.host is None {
        Some("one of --list or --host is required"@)
    } else if args.yaml && args.toml {
        Some("--yaml and --toml are mutually exclusive"@)
    } else if args.list {
        match strict_for(args.strict_compatibility, strict) {
            Ok(_) => None,
            Err(e) => Some(e),
        }
    } else {
        None
    }
}

/// The pruning a command line asks for: strict compatibility counts for lists alone.
pub open spec fn pruning_for(args: Args, strict: Setting) -> GroupPruning {
    if args.list && strict_for(args.strict_compatibility, strict) == Ok::<bool, Seq<char>>(true) {
        GroupPruning::AnsibleCompatible
    } else {
        GroupPruning::GraphAware
    }
}

/// Works out what is to be done: the sources first, then whether the rest fits together.
pub fn plan(args: &Args, inventory: Option<&str>, enabled: Option<&str>, strict: &Setting) -> (r:
    Result<Plan, String>)
    ensures
        ({
            let sources = sources_for(names(args.inventory@), opt_str(inventory));
            let fault = arguments_fault(*args, *strict);
            match r {
                Ok(p) => {
                    &&& sources == Ok::<Seq<Name>, Seq<char>>(names(p.sources@))
                    &&& fault is None
                    &&& p.pruning == pruning_for(*args, *strict)
                    &&& p.enabled.yaml == (enabled matches Some(s) ==> lists_name(s@, "yaml"@))
                    &&& p.enabled.ini == (enabled matches Some(s) ==> lists_name(s@, "ini"@))
                    &&& p.enabled.toml == (enabled matches Some(s) ==> lists_name(s@, "toml"@))
                    &&& p.enabled.script == (enabled matches Some(s) ==> lists_name(s@, "script"@))
                    &&& p.enabled.auto == (enabled matches Some(s) ==> lists_name(s@, "auto"@))
                },
                Err(e) => match sources {
                    Err(m) => e@ == m,
                    Ok(_) => fault == Some(e@),
                },
            }
        }),
{
    let sources = match resolve_sources(args, inventory) {
        Ok(s) => s,
        Err(e) => {
            return Err(e);
        },
    };
    if args.list && args.host.is_some() {
        return Err("--list and --host are mutually exclusive".to_owned());
    }
    if !args.list && args.host.is_none() {
        return Err("one of --list or --host is required".to_owned());
    }
    if args.yaml && args.toml {
        return Err("--yaml and --toml are mutually exclusive".to_owned());
    }
    let pruning = if args.list {
        match strict_compatibility(args, strict) {
            Ok(b) => if b {
                GroupPruning::AnsibleCompatible
            } else {
                GroupPruning::GraphAware
            },
            Err(e) => {
                return Err(e);
            },
        }
    } else {
        GroupPruning::GraphAware
    };
    Ok(Plan { sources, pruning, enabled: EnabledKinds::from_env(enabled) })
}

/// How the output is written.
pub open spec fn format_for(args: Args) -> Format {
    if args.yaml {
        Format::Yaml
    } else if args.toml {
        Format::Toml
    } else {
        Format::Json
    }
}

/// How a command line wants the output written.
pub fn format(args: &Args) -> (r: Format)
    ensures
        r == format_for(*args),
{
    if args.yaml {
        Format::Yaml
    } else if args.toml {
        Format::Toml
    } else {
        Format::Json
    }
}

/// The hosts a command line shows.
pub open spec fn available_hosts(args: Args, i: InvView) -> Set<Name> {
    match args.limit {
        Some(l) => selected(i, l@).to_set(),
        None => i.host_order.to_set(),
    }
}

/// What a command line shows of an inventory: the variables of one host, where it exists,
/// or the tree of the format.
pub open spec fn shown(args: Args, pruning: GroupPruning, i: InvView) -> Result<
    ValueView,
    Seq<char>,
> {
    match args.host {
        Some(h) => if i.hosts.dom().contains(h@) {
            Ok(ValueView::Dict(shown_vars(i, h@, args.export)))
        } else {
            Err("host '"@ + h@ + "' not found in inventory"@)
        },
        None => {
            let c = scope(i, available_hosts(args, i), args.export, pruning);
            Ok(
                ValueView::Dict(
                    match format_for(args) {
                        Format::Yaml => nested_tree(i, c),
                        Format::Toml => table_tree(i, c),
                        Format::Json => list_tree(i, c),
                    },
                ),
            )
        },
    }
}

/// Builds what a command line shows of a loaded inventory.
pub fn tree(args: &Args, pruning: GroupPruning, inv: &InventoryData) -> (r: Result<Value, String>)
    requires
        inv@.wf(),
    ensures
        (match r {
            Ok(v) => Ok(v@),
            Err(e) => Err(e@),
        }) == shown(*args, pruning, inv@),
{
    match &args.host {
        Some(host) => {
            return match build_host(inv, host.as_str(), args.export) {
                Some(v) => Ok(v),
                None => Err(join3("host '", host.as_str(), "' not found in inventory")),
            };
        },
        None => {},
    }
    let available = match &args.limit {
        Some(limit) => select_hosts(inv, limit.as_str()),
        None => {
            let all = inv.host_names();
            NameSet::of(&all)
        },
    };
    Ok(
        match format(args) {
            Format::Yaml => build_yaml(inv, &available, args.export, pruning),
            Format::Toml => build_toml(inv, &available, args.export, pruning),
            Format::Json => build_list(inv, &available, args.export, pruning),
        },
    )
}

/// The text of a value, in the format that a command line wants.
pub open spec fn rendered(args: Args, v: ValueView) -> Result<Seq<char>, ErrorView> {
    match format_for(args) {
        Format::Yaml => yaml_output(yaml_text(sorted_value(v))),
        Format::Toml => toml_output(toml_text(stripped(v))),
        Format::Json => Ok(json_pretty(sorted_value(v), "    "@)),
    }
}

/// Writes a value in the format that a command line wants.
pub fn render(value: &Value, args: &Args) -> (r: Result<String, Error>)
    ensures
        outcome(r, |t: String| t@) == rendered(*args, value@),
{
    match format(args) {
        Format::Yaml => to_yaml(value),
        Format::Toml => to_toml(value),
        Format::Json => Ok(to_json(value)),
    }
}

/// The output of a command line over an inventory, or what went wrong, in words.
pub open spec fn printed(args: Args, pruning: GroupPruning, i: InvView) -> Result<
    Seq<char>,
    Seq<char>,
> {
    match shown(args, pruning, i) {
        Ok(v) => match rendered(args, v) {
            Ok(t) => Ok(t),
            Err(e) => Err(e.message()),
        },
        Err(e) => Err(e),
    }
}

/// Writes what a command line shows of a loaded inventory.
pub fn run(args: &Args, pruning: GroupPruning, inv: &InventoryData) -> (r: Result<String, String>)
    requires
        inv@.wf(),
    ensures
        writing(r) == printed(*args, pruning, inv@),
{
    match tree(args, pruning, inv) {
        Ok(v) => match render(&v, args) {
            Ok(t) => Ok(t),
            Err(e) => Err(e.message()),
        },
        Err(e) => Err(e),
    }
}

// ---------------------------------------------------------------------------------------
// Laws
// ---------------------------------------------------------------------------------------

/// Sources that are given win over the environment; without either there are none.
pub proof fn law_given_sources_win(given: Seq<Name>, setting: Option<Seq<char>>)
    ensures
        given.len() > 0 ==> sources_for(given, setting) == Ok::<Seq<Name>, Seq<char>>(given),
        given.len() == 0 && setting is None ==> sources_for(given, setting) is Err,
{
}

/// The flag and the environment can each turn strict compatibility on, and neither can turn
/// off what the other turned on.
pub proof fn law_strict_by_either(flag: bool, s: Setting)
    requires
        strict_setting(s) is Ok,
    ensures
        strict_for(flag, s) == Ok::<bool, Seq<char>>(
            flag || strict_setting(s) == Ok::<bool, Seq<char>>(true),
        ),
{
}

/// The hosts that a command line shows: those its limit selects, and all where it has none.
pub proof fn law_hosts_shown(args: Args, i: InvView, h: Name)
    requires
        i.wf(),
    ensures
        args.limit matches Some(l) ==> (available_hosts(args, i).contains(h) <==> selected(
            i,
            l@,
        ).contains(h)),
        args.limit is None ==> (available_hosts(args, i).contains(h) <==> i.hosts.dom().contains(
            h,
        )),
{
}

/// What is printed of one host: its variables as JSON, with sorted keys and four spaces to a
/// level, as YAML with sorted keys, or as TOML without nulls; or that there is no such host.
pub proof fn law_printed_host(args: Args, pruning: GroupPruning, i: InvView, h: Name)
    requires
        args.host matches Some(n) && n@ == h,
        !(args.yaml && args.toml),
    ensures
        ({
            let v = ValueView::Dict(shown_vars(i, h, args.export));
            let r = printed(args, pruning, i);
            if !i.hosts.dom().contains(h) {
                r == Err::<Seq<char>, Seq<char>>("host '"@ + h + "' not found in inventory"@)
            } else if args.yaml {
                match yaml_text(sorted_value(v)) {
                    Ok(t) => r == Ok::<Seq<char>, Seq<char>>(t),
                    Err(_) => r is Err,
                }
            } else if args.toml {
                match toml_text(stripped(v)) {
                    Ok(Ok(t)) => r == Ok::<Seq<char>, Seq<char>>(t),
                    _ => r is Err,
                }
            } else {
                r == Ok::<Seq<char>, Seq<char>>(json_pretty(sorted_value(v), "    "@))
            }
        }),
{
}

/// What is printed of all hosts: the flat list as JSON, the nested tree as YAML, the table
/// as TOML, of the hosts that are shown and of the groups that the pruning leaves.
pub proof fn law_printed_list(args: Args, pruning: GroupPruning, i: InvView)
    requires
        args.host is None,
        !(args.yaml && args.toml),
    ensures
        ({
            let c = scope(i, available_hosts(args, i), args.export, pruning);
            let r = printed(args, pruning, i);
            if args.yaml {
                match yaml_text(sorted_value(ValueView::Dict(nested_tree(i, c)))) {
                    Ok(t) => r == Ok::<Seq<char>, Seq<char>>(t),
                    Err(_) => r is Err,
                }
            } else if args.toml {
                match toml_text(stripped(ValueView::Dict(table_tree(i, c)))) {
                    Ok(Ok(t)) => r == Ok::<Seq<char>, Seq<char>>(t),
                    _ => r is Err,
                }
            } else {
                r == Ok::<Seq<char>, Seq<char>>(
                    json_pretty(sorted_value(ValueView::Dict(list_tree(i, c))), "    "@),
                )
            }
        }),
{
}

} // verus!
