//! Inventories that scripts print: groups of hosts, variables and children, and the hosts'
//! variables under `_meta.hostvars` or by one more call for each host.

use vstd::prelude::*;
use crate::assoc::{get, holds, lemma_pos_unique, Name};
use crate::documents::{json_document, read_json, reading};
use crate::error::{outcome, Error, ErrorView};
use crate::model::{with_name, InvView, InventoryData};
use crate::parse::{ingest_child_list, ingest_vars, link_names, merge_group_vars, opt_str};
use crate::sanitize::safe_name;
use crate::text::{chars_of, debug_str, debug_text, lemma_names_push, list_has, names, same, split, split_text};
use crate::value::{lemma_list_view, values, Value, ValueView, VarMap, VarsView};

verus! {

// ---------------------------------------------------------------------------------------
// Running scripts
// ---------------------------------------------------------------------------------------

/// Whether a file can be run: it is a regular file with an executable bit in its mode.
pub fn is_executable(is_file: bool, mode: u32) -> (r: bool)
    ensures
        r == (is_file && mode & 0o111 != 0),
{
    is_file && mode & 0o111 != 0
}

/// A part of a path that counts: not empty, and no `.` but at the start.
pub open spec fn counts(pieces: Seq<Seq<char>>, k: int) -> bool {
    pieces[k].len() > 0 && (k == 0 || pieces[k] != "."@)
}

/// How many of the first `n` parts of a path count.
pub open spec fn part_count(pieces: Seq<Seq<char>>, n: nat) -> nat
    decreases n,
{
    if n == 0 || n > pieces.len() {
        0
    } else {
        part_count(pieces, (n - 1) as nat) + (if counts(pieces, n - 1) {
            1nat
        } else {
            0nat
        })
    }
}

/// A path that is a single name, which a search for programs would not take for a path.
pub open spec fn is_single_name(path: Seq<char>) -> bool {
    &&& !(path.len() > 0 && path[0] == '/')
    &&& part_count(split(path, '/'), split(path, '/').len()) == 1
}

/// Whether a path has to be written as relative to the current directory to be run.
pub fn needs_dot(path: &str) -> (r: bool)
    ensures
        r == is_single_name(path@),
{
    let cs = chars_of(path);
    let pieces = split_text(path, '/');
    let ghost ps = names(pieces@);
    let mut n: u64 = 0;
    let mut many = false;
    let mut i: usize = 0;
    while i < pieces.len()
        invariant
            i <= pieces.len(),
            ps == names(pieces@),
            n <= 1,
            !many ==> part_count(ps, i as nat) == n,
            many ==> part_count(ps, i as nat) >= 2,
        decreases pieces.len() - i,
    {
        assert(ps[i as int] == pieces@[i as int]@);
        let p = pieces[i].as_str();
        if !p.is_empty() && (i == 0 || !same(p, ".")) {
            if n == 0 {
                n = 1;
            } else {
                many = true;
            }
        }
        i += 1;
    }
    !(cs.len() > 0 && cs[0] == '/') && !many && n == 1
}

/// The arguments of a script as messages show them.
pub open spec fn shown_args(args: Seq<Name>, n: nat) -> Seq<char>
    decreases n,
{
    if n == 0 || n > args.len() {
        Seq::empty()
    } else if n == 1 {
        debug_text(args[0])
    } else {
        shown_args(args, (n - 1) as nat) + ", "@ + debug_text(args[n - 1])
    }
}

/// The arguments of a script as messages show them.
fn show_args(args: &Vec<String>) -> (r: String)
    ensures
        r@ == "["@ + shown_args(names(args@), args@.len()) + "]"@,
{
    let ghost ns = names(args@);
    let mut out = "[".to_owned();
    let mut i: usize = 0;
    assert(out@ =~= "["@ + shown_args(ns, 0));
    while i < args.len()
        invariant
            i <= args.len(),
            ns == names(args@),
            out@ =~= "["@ + shown_args(ns, i as nat),
        decreases args.len() - i,
    {
        assert(ns[i as int] == args@[i as int]@);
        if i > 0 {
            out.append(", ");
        }
        let d = debug_str(args[i].as_str());
        out.append(d.as_str());
        i += 1;
    }
    out.append("]");
    out
}

/// The error of a script that failed with a status.
pub open spec fn exit_fault(path: Seq<char>, args: Seq<Name>, status: Seq<char>) -> ErrorView {
    ErrorView::Parse {
        path,
        msg: "inventory script "@ + ("["@ + shown_args(args, args.len()) + "]"@)
            + " exited with "@ + status,
    }
}

/// The error of a script that printed no JSON.
pub open spec fn json_fault(path: Seq<char>, args: Seq<Name>, why: Seq<char>) -> ErrorView {
    ErrorView::Parse {
        path,
        msg: "invalid JSON from script "@ + ("["@ + shown_args(args, args.len()) + "]"@) + ": "@
            + why,
    }
}

/// The error of a script that failed with a status.
pub fn exit_error(path: &str, args: &Vec<String>, status: &str) -> (r: Error)
    ensures
        r@ == exit_fault(path@, names(args@), status@),
{
    let shown = show_args(args);
    let mut msg = "inventory script ".to_owned();
    msg.append(shown.as_str());
    msg.append(" exited with ");
    msg.append(status);
    Error::Parse { path: path.to_owned(), msg }
}

/// The error of a script that printed no JSON.
pub fn json_error(path: &str, args: &Vec<String>, why: &str) -> (r: Error)
    ensures
        r@ == json_fault(path@, names(args@), why@),
{
    let shown = show_args(args);
    let mut msg = "invalid JSON from script ".to_owned();
    msg.append(shown.as_str());
    msg.append(": ");
    msg.append(why);
    Error::Parse { path: path.to_owned(), msg }
}

/// What a script's run comes to: the document it printed, unless it failed or printed
/// none.
pub open spec fn run_result(
    path: Seq<char>,
    args: Seq<Name>,
    status: Option<Seq<char>>,
    printed: Result<ValueView, Seq<char>>,
) -> Result<ValueView, ErrorView> {
    match status {
        Some(s) => Err(exit_fault(path, args, s)),
        None => match printed {
            Ok(v) => Ok(v),
            Err(m) => Err(json_fault(path, args, m)),
        },
    }
}

/// What a script printed, given how it ended (a status where it failed) and what its output
/// was read as.
pub fn script_result(
    path: &str,
    args: &Vec<String>,
    status: Option<&str>,
    printed: Result<Value, String>,
) -> (r: Result<Value, Error>)
    ensures
        outcome(r, |v: Value| v@) == run_result(
            path@,
            names(args@),
            opt_str(status),
            reading(printed),
        ),
{
    match status {
        Some(s) => Err(exit_error(path, args, s)),
        None => match printed {
            Ok(v) => Ok(v),
            Err(m) => Err(json_error(path, args, m.as_str())),
        },
    }
}

/// What a script printed, given how it ended (a status where it failed) and its output.
pub fn script_output(
    path: &str,
    args: &Vec<String>,
    status: Option<&str>,
    stdout: &Vec<u8>,
) -> (r: Result<Value, Error>)
    ensures
        outcome(r, |v: Value| v@) == run_result(
            path@,
            names(args@),
            opt_str(status),
            json_document(stdout@),
        ),
{
    match status {
        Some(s) => Err(exit_error(path, args, s)),
        None => script_result(path, args, None, read_json(stdout)),
    }
}

// ---------------------------------------------------------------------------------------
// What scripts print
// ---------------------------------------------------------------------------------------

/// A group's data in full: a map with none of the known keys is a host of the group's name
/// with those variables, and what is no map is a list of hosts.
pub open spec fn normalized(group: Name, data: ValueView) -> VarsView {
    match data {
        ValueView::Dict(o) => if holds(o, "hosts"@) || holds(o, "vars"@) || holds(o, "children"@) {
            o
        } else {
            seq![
                ("hosts"@, ValueView::List(seq![ValueView::Text(group)])),
                ("vars"@, ValueView::Dict(o)),
            ]
        },
        other => seq![("hosts"@, other)],
    }
}

/// The inventory with the first `n` hosts of a list in a group, and the hosts seen so far;
/// what is no text is passed over.
pub open spec fn list_hosts(i: InvView, seen: Seq<Name>, g: Name, a: Seq<ValueView>, n: nat) -> (
    InvView,
    Seq<Name>,
)
    decreases n,
{
    if n == 0 || n > a.len() {
        (i, seen)
    } else {
        let (j, s) = list_hosts(i, seen, g, a, (n - 1) as nat);
        match a[n - 1] {
            ValueView::Text(h) => (j.add_host(h).add_host_to_group(h, g), with_name(s, h)),
            _ => (j, s),
        }
    }
}

/// The inventory with a group's data in it, and the hosts seen so far.
pub open spec fn list_group(i: InvView, seen: Seq<Name>, group: Name, data: ValueView) -> (
    InvView,
    Seq<Name>,
) {
    let g = safe_name(group);
    let o = normalized(group, data);
    let (a, s) = match get(o, "hosts"@) {
        Some(ValueView::List(l)) => list_hosts(i.add_group(group), seen, g, l, l.len()),
        _ => (i.add_group(group), seen),
    };
    let b = match get(o, "vars"@) {
        Some(ValueView::Dict(v)) => ingest_vars(a, g, v, v.len()),
        _ => a,
    };
    let c = match get(o, "children"@) {
        Some(ValueView::List(l)) => ingest_child_list(b, g, l, l.len()),
        _ => b,
    };
    (c, s)
}

/// The inventory with the first `n` groups in it, `_meta` aside, and the hosts seen, in
/// order.
pub open spec fn list_groups(i: InvView, o: VarsView, n: nat) -> (InvView, Seq<Name>)
    decreases n,
{
    if n == 0 || n > o.len() {
        (i, Seq::empty())
    } else {
        let (j, s) = list_groups(i, o, (n - 1) as nat);
        if o[n - 1].0 == "_meta"@ {
            (j, s)
        } else {
            list_group(j, s, o[n - 1].0, o[n - 1].1)
        }
    }
}

/// The hosts' variables that come with the groups, where they do.
pub open spec fn meta_of(o: VarsView) -> Option<VarsView> {
    match get(o, "_meta"@) {
        Some(ValueView::Dict(m)) => match get(m, "hostvars"@) {
            Some(ValueView::Dict(h)) => Some(h),
            _ => None,
        },
        _ => None,
    }
}

/// The inventory with the first `n` variables of a host set.
pub open spec fn host_vars_set(i: InvView, h: Name, vars: VarsView, n: nat) -> InvView
    decreases n,
{
    if n == 0 || n > vars.len() {
        i
    } else {
        host_vars_set(i, h, vars, (n - 1) as nat).set_host_var(h, vars[n - 1].0, vars[n - 1].1)
    }
}

/// The inventory with what was printed for a host: the variables of a map, else none.
pub open spec fn host_printed(i: InvView, h: Name, v: Option<ValueView>) -> InvView {
    match v {
        Some(ValueView::Dict(o)) => host_vars_set(i, h, o, o.len()),
        _ => i,
    }
}

/// The inventory with the variables of the first `n` hosts out of a map of them.
pub open spec fn meta_set(i: InvView, hs: Seq<Name>, meta: VarsView, n: nat) -> InvView
    decreases n,
{
    if n == 0 || n > hs.len() {
        i
    } else {
        host_printed(meta_set(i, hs, meta, (n - 1) as nat), hs[n - 1], get(meta, hs[n - 1]))
    }
}

/// What a script's list makes of an inventory, and the hosts whose variables are still to
/// be asked for; or the error where it is no object.
pub open spec fn ingest_list(i: InvView, v: ValueView, path: Seq<char>) -> (
    InvView,
    Result<Seq<Name>, ErrorView>,
) {
    match v {
        ValueView::Dict(o) => {
            let (j, hs) = list_groups(i, o, o.len());
            match meta_of(o) {
                Some(m) => (meta_set(j, hs, m, hs.len()), Ok(Seq::empty())),
                None => (j, Ok(hs)),
            }
        },
        _ => (
            i,
            Err(
                ErrorView::Parse {
                    path,
                    msg: "inventory script --list output must be a JSON object"@,
                },
            ),
        ),
    }
}

/// A list of one name.
fn one_text(s: &str) -> (r: Value)
    ensures
        r@ == ValueView::List(seq![ValueView::Text(s@)]),
{
    let mut v: Vec<Value> = Vec::new();
    v.push(Value::Text(s.to_owned()));
    proof {
        lemma_list_view(v);
        assert(values(v@) =~= seq![ValueView::Text(s@)]);
    }
    Value::List(v)
}

/// A group's data in full.
fn normalize(group: &str, data: &Value) -> (r: VarMap)
    ensures
        r@ == normalized(group@, data@),
{
    let mut m = VarMap::new();
    match data {
        Value::Dict(o) => {
            if o.contains_key("hosts") || o.contains_key("vars") || o.contains_key("children") {
                return o.clone();
            }
            m.insert("hosts".to_owned(), one_text(group));
            let ghost a = m@;
            m.insert("vars".to_owned(), Value::Dict(o.clone()));
            proof {
                reveal_strlit("hosts");
                reveal_strlit("vars");
                assert("hosts"@.len() == 5 && "vars"@.len() == 4);
                assert(a =~= seq![("hosts"@, ValueView::List(seq![ValueView::Text(group@)]))]);
                lemma_pos_unique(a, "vars"@, 1);
                assert(m@ =~= normalized(group@, data@));
            }
        },
        other => {
            m.insert("hosts".to_owned(), other.clone());
            assert(m@ =~= seq![("hosts"@, other@)]);
        },
    }
    m
}

/// Puts the hosts of a list into a group.
fn add_listed(inv: &mut InventoryData, hosts: &mut Vec<String>, group: &str, a: &Vec<Value>)
    requires
        old(inv)@.wf(),
        old(inv)@.groups.dom().contains(group@),
        forall|k: int| 0 <= k < old(hosts)@.len() ==> old(inv)@.hosts.dom().contains(
            (#[trigger] names(old(hosts)@)[k]),
        ),
    ensures
        (final(inv)@, names(final(hosts)@)) == list_hosts(
            old(inv)@,
            names(old(hosts)@),
            group@,
            values(a@),
            a@.len(),
        ),
        final(inv)@.wf(),
        final(inv)@.groups.dom() == old(inv)@.groups.dom(),
        forall|k: int| 0 <= k < final(hosts)@.len() ==> final(inv)@.hosts.dom().contains(
            (#[trigger] names(final(hosts)@)[k]),
        ),
{
    let ghost (i0, h0) = (inv@, names(hosts@));
    let ghost items = values(a@);
    let mut i: usize = 0;
    while i < a.len()
        invariant
            i <= a.len(),
            items == values(a@),
            inv@.wf(),
            inv@.groups.dom() == i0.groups.dom(),
            i0.groups.dom().contains(group@),
            (inv@, names(hosts@)) == list_hosts(i0, h0, group@, items, i as nat),
            forall|k: int| 0 <= k < hosts@.len() ==> inv@.hosts.dom().contains(
                (#[trigger] names(hosts@)[k]),
            ),
        decreases a.len() - i,
    {
        assert(items[i as int] == a@[i as int]@);
        match &a[i] {
            Value::Text(h) => {
                let ghost before = inv@;
                let ghost old_hosts = names(hosts@);
                inv.add_host(h.as_str());
                let ghost here = inv@;
                inv.add_host_to_group(h.as_str(), group);
                assert(inv@.groups.dom() =~= before.groups.dom());
                assert(inv@.hosts.dom() =~= here.hosts.dom());
                if !list_has(hosts, h.as_str()) {
                    proof {
                        lemma_names_push(hosts@, *h);
                    }
                    hosts.push(h.clone());
                }
                assert forall|k: int| 0 <= k < hosts@.len() implies inv@.hosts.dom().contains(
                    (#[trigger] names(hosts@)[k]),
                ) by {
                    if k < old_hosts.len() {
                        assert(names(hosts@)[k] == old_hosts[k]);
                        assert(before.hosts.dom().contains(old_hosts[k]));
                    }
                }
            },
            _ => {},
        }
        i += 1;
    }
}

/// Reads a group's data.
fn parse_group(inv: &mut InventoryData, group: &str, data: &Value, hosts: &mut Vec<String>)
    requires
        old(inv)@.wf(),
        forall|k: int| 0 <= k < old(hosts)@.len() ==> old(inv)@.hosts.dom().contains(
            (#[trigger] names(old(hosts)@)[k]),
        ),
    ensures
        (final(inv)@, names(final(hosts)@)) == list_group(
            old(inv)@,
            names(old(hosts)@),
            group@,
            data@,
        ),
        final(inv)@.wf(),
        forall|k: int| 0 <= k < final(hosts)@.len() ==> final(inv)@.hosts.dom().contains(
            (#[trigger] names(final(hosts)@)[k]),
        ),
{
    let safe = inv.add_group(group);
    let o = normalize(group, data);
    match o.get("hosts") {
        Some(Value::List(a)) => {
            proof {
                lemma_list_view(*a);
            }
            add_listed(inv, hosts, safe.as_str(), a);
        },
        _ => {},
    }
    let ghost with_hosts = inv@;
    match o.get("vars") {
        Some(Value::Dict(v)) => {
            merge_group_vars(inv, safe.as_str(), v);
            proof {
                lemma_vars_keep_hosts(with_hosts, safe@, v@, v@.len());
            }
        },
        _ => {},
    }
    let ghost with_vars = inv@;
    match o.get("children") {
        Some(Value::List(a)) => {
            proof {
                lemma_list_view(*a);
            }
            link_names(inv, safe.as_str(), a);
            proof {
                lemma_children_keep_hosts(with_vars, safe@, values(a@), a@.len());
            }
        },
        _ => {},
    }
}

/// Setting group variables changes no host.
proof fn lemma_vars_keep_hosts(i: InvView, g: Name, o: VarsView, n: nat)
    ensures
        ingest_vars(i, g, o, n).hosts == i.hosts,
    decreases n,
{
    if n > 0 && n <= o.len() {
        lemma_vars_keep_hosts(i, g, o, (n - 1) as nat);
    }
}

/// Linking groups changes no host.
proof fn lemma_children_keep_hosts(i: InvView, g: Name, a: Seq<ValueView>, n: nat)
    ensures
        ingest_child_list(i, g, a, n).hosts == i.hosts,
    decreases n,
{
    if n > 0 && n <= a.len() {
        lemma_children_keep_hosts(i, g, a, (n - 1) as nat);
    }
}

/// Sets the variables of a host.
fn set_vars(inv: &mut InventoryData, host: &str, vars: &VarMap)
    requires
        old(inv)@.wf(),
        old(inv)@.hosts.dom().contains(host@),
    ensures
        final(inv)@ == host_vars_set(old(inv)@, host@, vars@, vars@.len()),
        final(inv)@.wf(),
        final(inv)@.hosts.dom() == old(inv)@.hosts.dom(),
{
    let ghost i0 = inv@;
    let mut i: usize = 0;
    while i < vars.len()
        invariant
            i <= vars@.len(),
            inv@.wf(),
            inv@.hosts.dom() == i0.hosts.dom(),
            i0.hosts.dom().contains(host@),
            inv@ == host_vars_set(i0, host@, vars@, i as nat),
        decreases vars@.len() - i,
    {
        let ghost here = inv@;
        inv.set_host_var(host, vars.name_at(i).as_str(), vars.value_at(i).clone());
        assert(inv@.hosts.dom() =~= here.hosts.dom());
        i += 1;
    }
}

/// Takes what a script printed for one host.
pub fn apply_host_output(inv: &mut InventoryData, host: &str, output: &Value)
    requires
        old(inv)@.wf(),
        old(inv)@.hosts.dom().contains(host@),
    ensures
        final(inv)@ == host_printed(old(inv)@, host@, Some(output@)),
        final(inv)@.wf(),
        final(inv)@.hosts.dom() == old(inv)@.hosts.dom(),
{
    match output {
        Value::Dict(o) => set_vars(inv, host, o),
        _ => {},
    }
}

/// The hosts' variables that come with the groups.
fn find_meta(o: &VarMap) -> (r: Option<&VarMap>)
    ensures
        (match r {
            Some(m) => Some(m@),
            None => None,
        }) == meta_of(o@),
{
    match o.get("_meta") {
        Some(Value::Dict(m)) => match m.get("hostvars") {
            Some(Value::Dict(h)) => Some(h),
            _ => None,
        },
        _ => None,
    }
}

/// Reads a script's list into an inventory. Returns the hosts whose variables the script is
/// still to be asked for, each with `--host`: none where they came with the list.
pub fn parse_list(inv: &mut InventoryData, path: &str, list: &Value) -> (r: Result<
    Vec<String>,
    Error,
>)
    requires
        old(inv)@.wf(),
    ensures
        final(inv)@.wf(),
        (final(inv)@, match r {
            Ok(v) => Ok(names(v@)),
            Err(e) => Err(e@),
        }) == ingest_list(old(inv)@, list@, path@),
        r matches Ok(v) ==> forall|k: int|
            0 <= k < v@.len() ==> final(inv)@.hosts.dom().contains(#[trigger] names(v@)[k]),
{
    let top = match list {
        Value::Dict(o) => o,
        _ => {
            return Err(
                Error::Parse {
                    path: path.to_owned(),
                    msg: "inventory script --list output must be a JSON object".to_owned(),
                },
            );
        },
    };
    let ghost i0 = inv@;
    let mut hosts: Vec<String> = Vec::new();
    let mut i: usize = 0;
    assert(names(hosts@) =~= Seq::empty());
    while i < top.len()
        invariant
            i <= top@.len(),
            inv@.wf(),
            (inv@, names(hosts@)) == list_groups(i0, top@, i as nat),
            forall|k: int| 0 <= k < hosts@.len() ==> inv@.hosts.dom().contains(
                (#[trigger] names(hosts@)[k]),
            ),
        decreases top@.len() - i,
    {
        let name = top.name_at(i);
        if !same(name.as_str(), "_meta") {
            parse_group(inv, name.as_str(), top.value_at(i), &mut hosts);
        }
        i += 1;
    }
    let meta = match find_meta(top) {
        Some(m) => m,
        None => {
            return Ok(hosts);
        },
    };
    let ghost listed = inv@;
    let ghost hs = names(hosts@);
    let mut j: usize = 0;
    while j < hosts.len()
        invariant
            j <= hosts.len(),
            hs == names(hosts@),
            inv@.wf(),
            inv@.hosts.dom() == listed.hosts.dom(),
            forall|k: int| 0 <= k < hosts@.len() ==> listed.hosts.dom().contains(
                (#[trigger] hs[k]),
            ),
            inv@ == meta_set(listed, hs, meta@, j as nat),
        decreases hosts.len() - j,
    {
        assert(hs[j as int] == hosts@[j as int]@);
        match meta.get(hosts[j].as_str()) {
            Some(v) => apply_host_output(inv, hosts[j].as_str(), v),
            None => {},
        }
        j += 1;
    }
    let none: Vec<String> = Vec::new();
    assert(names(none@) =~= Seq::empty());
    Ok(none)
}

// ---------------------------------------------------------------------------------------
// Laws
// ---------------------------------------------------------------------------------------

/// Where a script's list brings `_meta.hostvars` along, no host is asked for; where it does
/// not, every host of the list is.
pub proof fn law_meta_answers_for_hosts(i: InvView, o: VarsView, path: Seq<char>)
    ensures
        meta_of(o) is Some ==> ingest_list(i, ValueView::Dict(o), path).1 == Ok::<
            Seq<Name>,
            ErrorView,
        >(Seq::empty()),
        meta_of(o) is None ==> ingest_list(i, ValueView::Dict(o), path) == (
            list_groups(i, o, o.len()).0,
            Ok::<Seq<Name>, ErrorView>(list_groups(i, o, o.len()).1),
        ),
{
}

} // verus!
