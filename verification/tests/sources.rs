//! Sources and command lines.

use fleets::cli::{plan, resolve_sources, run, strict_compatibility, tree, Args, Format, Setting};
use fleets::enabled::EnabledKinds;
use fleets::constructed::ApplyStop;
use fleets::error::Error;
use fleets::expr::number::FloatTable;
use fleets::ini::{parse_ini_str, parse_section, shlex_split};
use fleets::model::{InventoryData, UNGROUPED};
use fleets::output::GroupPruning;
use fleets::parse::{cycle_error, directory_sources, document_result, has_inventory_ext, is_ignored_dir_entry, parse_structured_file, parse_structured_source, parse_structured_value, parse_toml_file, reconcile, source_action, SourceAction, SourceKind};
use fleets::script::{apply_host_output, exit_error, is_executable, json_error, needs_dot, parse_list, script_output, script_result};
use fleets::telemetry::{config_base, traces_endpoint, ConfigBase, TracingConfig};
use fleets::value::{Number, Value, VarMap};
use fleets::vars::resolve_host_vars;
use fleets::vars_files::{base_dir, choose_vars, is_blank, is_safe_entity_name, load_vars_file, vars_candidates, vars_entry_action, vars_result, BaseDir, Entry, EntryAction, VarsChoice, VAR_EXTS};

fn js(text: &str) -> serde_json::Value {
    serde_json::from_str(text).unwrap()
}

fn to_js(v: &Value) -> serde_json::Value {
    js(&v.to_json_text())
}

fn from_js(v: &serde_json::Value) -> Value {
    match v {
        serde_json::Value::Null => Value::Null,
        serde_json::Value::Bool(b) => Value::Bool(*b),
        serde_json::Value::Number(n) => Value::Number(match (n.as_u64(), n.as_i64()) {
            (Some(u), _) => Number::PosInt(u),
            (None, Some(i)) => Number::NegInt(i),
            _ => Number::Float(n.to_string()),
        }),
        serde_json::Value::String(s) => Value::Text(s.clone()),
        serde_json::Value::Array(a) => Value::List(a.iter().map(from_js).collect()),
        serde_json::Value::Object(o) => {
            let mut m = VarMap::new();
            for (k, v) in o {
                m.insert(k.clone(), from_js(v));
            }
            Value::Dict(m)
        }
    }
}

fn doc(text: &str) -> Value {
    from_js(&js(text))
}

fn structured(text: &str) -> InventoryData {
    let mut inv = InventoryData::new();
    parse_structured_value(&mut inv, &doc(text), "test").unwrap();
    reconcile(&mut inv);
    inv
}

fn ini(text: &str) -> InventoryData {
    let mut inv = InventoryData::new();
    parse_ini_str(&mut inv, text, "hosts.ini").unwrap();
    reconcile(&mut inv);
    inv
}

fn vars_of(inv: &InventoryData, host: &str) -> serde_json::Value {
    to_js(&Value::Dict(resolve_host_vars(inv, host)))
}

fn list_args() -> Args {
    Args {
        list: true,
        host: None,
        inventory: vec![],
        limit: None,
        yaml: false,
        toml: false,
        export: false,
        strict_compatibility: false,
    }
}

fn names(list: &[&str]) -> Vec<String> {
    list.iter().map(|s| s.to_string()).collect()
}

fn text(s: &str) -> Setting {
    Setting::Text(s.to_string())
}

// --- INI ---------------------------------------------------------------------------------

#[test]
fn shlex_basic() {
    assert_eq!(shlex_split("beta:2345 user=admin # c"), ["beta:2345", "user=admin"]);
    assert_eq!(shlex_split("h var=\"some value\""), ["h", "var=some value"]);
}

#[test]
fn section_parsing() {
    assert_eq!(parse_section("[web]"), Some(("web".into(), None)));
    assert_eq!(
        parse_section("[web:children]"),
        Some(("web".into(), Some("children".into())))
    );
    assert_eq!(
        parse_section("[web:vars] # x"),
        Some(("web".into(), Some("vars".into())))
    );
    assert_eq!(parse_section("not a section"), None);
}

#[test]
fn words_at_the_edges() {
    assert_eq!(shlex_split(""), Vec::<String>::new());
    assert_eq!(shlex_split("a#b # c"), ["a#b"]);
    assert_eq!(shlex_split("a 'b c' d"), ["a", "b c", "d"]);
    assert_eq!(shlex_split("'' x"), ["", "x"]);
    assert_eq!(shlex_split("a\\ b"), ["a b"]);
    assert_eq!(shlex_split("\"a\\\"b\""), ["a\"b"]);
    assert_eq!(shlex_split("'open x"), ["open x"]);
    assert_eq!(shlex_split("\"open\\"), ["open"]);
    assert_eq!(shlex_split("x\\"), ["x"]);
    assert_eq!(shlex_split("a'b'\"c\"d"), ["abcd"]);
}

#[test]
fn plain_words_split_back() {
    let words = ["a", "b=c", "x#y", "é"];
    assert_eq!(shlex_split(&words.join(" ")), words);
    assert_eq!(shlex_split(&format!("{} # any 'thing", words.join(" "))), words);
    for t in ["", "a b", "# no comment", "\"\\"] {
        assert_eq!(shlex_split(&format!("'{t}'")), [t]);
    }
}

#[test]
fn sections_at_the_edges() {
    assert_eq!(parse_section("[]"), None);
    assert_eq!(parse_section("[a b]"), None);
    assert_eq!(parse_section("[a:]"), None);
    assert_eq!(parse_section("[:vars]"), None);
    assert_eq!(parse_section("[a:b-c]"), None);
    assert_eq!(parse_section("[a] x"), None);
    assert_eq!(parse_section("[a"), None);
    assert_eq!(parse_section("[a:b_é1]"), Some(("a".into(), Some("b_é1".into()))));
}

#[test]
fn a_whole_ini_file() {
    let inv = ini(
        "; comment\n\nlone ansible_user=me\n\
         [web-servers]\nweb[01:02]:2222 x=1 y='two words' z=[1,2]\n\
         [dc:children]\nweb-servers # the web\nlater\n\
         [dc:vars]\nregion = 'east'\nansible_group_priority=3\nflag=True\nzip=007\n\
         [later]\nl1\r\n[later:hosts]\nl2\n",
    );
    assert_eq!(inv.group_names(), ["all", "ungrouped", "web_servers", "dc", "later"]);
    assert_eq!(inv.group(UNGROUPED).unwrap().hosts, ["lone"]);
    assert_eq!(inv.group("web_servers").unwrap().hosts, ["web01", "web02"]);
    assert_eq!(inv.group("dc").unwrap().children, ["web_servers", "later"]);
    assert_eq!(inv.group("later").unwrap().parents, ["dc"]);
    assert_eq!(inv.group("later").unwrap().hosts, ["l1", "l2"]);
    assert_eq!(inv.group("dc").unwrap().priority, 3);
    assert_eq!(
        vars_of(&inv, "web02"),
        js(r#"{"region": "east", "flag": true, "zip": "007", "ansible_port": 2222, "x": 1, "y": "two words", "z": [1, 2]}"#)
    );
    assert_eq!(vars_of(&inv, "lone"), js(r#"{"ansible_user": "me"}"#));
}

#[test]
fn pending_children_are_settled_when_they_are_declared() {
    let inv = ini("[a:children]\nb\n[c:children]\na\nb\n[b]\nh\n");
    assert_eq!(inv.group("a").unwrap().children, ["b"]);
    assert_eq!(inv.group("b").unwrap().parents, ["a", "c"]);
    assert_eq!(inv.group("c").unwrap().children, ["a", "b"]);
    let inv = ini("[a:children]\nnever\n");
    assert!(inv.group("never").is_none());
    let inv = ini("[g:vars]\nx=1\n[g]\nh\n");
    assert_eq!(vars_of(&inv, "h"), js(r#"{"x": 1}"#));
}

#[test]
fn an_ini_file_starts_ungrouped() {
    let shown = |inv: &InventoryData| {
        let p = plan(&list_args(), Some("x"), None, &text("1")).unwrap();
        to_js(&tree(&list_args(), p.pruning, inv).unwrap())
    };
    let a = ini("a x=1\n\n# c\nb\n");
    let b = ini("[ungrouped]\na x=1\nb\n");
    assert_eq!(shown(&a), shown(&b));
}

fn ini_message(text: &str) -> String {
    let mut inv = InventoryData::new();
    match parse_ini_str(&mut inv, text, "hosts.ini") {
        Err(Error::Parse { path, msg }) => {
            assert_eq!(path, "hosts.ini");
            msg
        }
        other => panic!("{other:?}"),
    }
}

#[test]
fn ini_files_that_are_wrong() {
    assert_eq!(ini_message("[g:nope]\n"), "Section [g:nope] has unknown type");
    assert_eq!(ini_message("[a b]\n"), "Invalid section entry: '[a b]'");
    assert_eq!(
        ini_message("h stray\n"),
        "Expected key=value host variable assignment, got: stray"
    );
    assert_eq!(ini_message("[g:vars]\nnovalue\n"), "Expected key=value, got: novalue");
    assert_eq!(
        ini_message("h[1:2:0]\n"),
        "parsing <host range>: host range step cannot be zero"
    );
    assert!(ini("h[1:5:-1]\n").host_names().is_empty());
}

// --- structured documents ----------------------------------------------------------------

#[test]
fn structured_documents() {
    let inv = structured(
        r#"{
        "all": {"children": {"web-tier": {"hosts": {"h1": {"a": 1}, "h2": "none"}}, "x": null}},
        "flat": {"hosts": ["h3", 4], "vars": {"v": 1}, "children": ["web-tier", "new", 5]},
        "odd": 7
    }"#,
    );
    assert_eq!(inv.group_names(), ["all", "ungrouped", "web_tier", "x", "flat", "new", "odd"]);
    assert_eq!(inv.group("web_tier").unwrap().parents, ["all", "flat"]);
    assert_eq!(inv.group("flat").unwrap().children, ["web_tier", "new"]);
    assert_eq!(inv.group("flat").unwrap().parents, ["all"]);
    assert_eq!(inv.group("new").unwrap().parents, ["flat"]);
    assert_eq!(inv.host_names(), ["h1", "h2", "h3"]);
    assert_eq!(vars_of(&inv, "h1"), js(r#"{"v": 1, "a": 1}"#));
    let mut inv = InventoryData::new();
    assert!(matches!(
        parse_structured_value(&mut inv, &doc("[]"), "p"),
        Err(Error::Parse { path, msg }) if path == "p"
            && msg == "inventory file must be a mapping of group names to group definitions"
    ));
}

#[test]
fn source_kinds() {
    let on = EnabledKinds::default();
    let off = EnabledKinds::parse("");
    let read = |ext: Option<&str>, exec: bool, e: EnabledKinds| source_action(false, exec, ext, e);
    assert!(matches!(source_action(true, false, Some("ini"), on), SourceAction::Directory));
    for ext in [Some("yaml"), Some("YML"), Some("json"), None, Some("")] {
        assert!(matches!(read(ext, false, on), SourceAction::Read(SourceKind::Yaml)));
        assert!(matches!(read(ext, false, off), SourceAction::Skip(SourceKind::Yaml)));
    }
    assert!(matches!(read(Some("toml"), true, on), SourceAction::Read(SourceKind::Toml)));
    assert!(matches!(read(Some("INI"), false, on), SourceAction::Read(SourceKind::Ini)));
    assert!(matches!(read(Some("sh"), true, on), SourceAction::Read(SourceKind::Script)));
    assert!(matches!(read(None, true, off), SourceAction::Skip(SourceKind::Script)));
    assert!(matches!(read(Some("CfG"), false, on), SourceAction::Unsupported(e) if e == "cfg"));
    assert!(has_inventory_ext(Some("Json")) && !has_inventory_ext(Some("sh")) && !has_inventory_ext(None));
}

#[test]
fn entries_of_directories() {
    for ignored in [
        ".hidden", "x~", "host_vars", "group_vars", "vars_plugins", "a.pyc", "a.pyo", "a.swp", "a.bak",
        "a.rpm", "a.md", "a.txt", "a.rst", "a.orig", "a.ini", "a.cfg", "a.retry",
    ] {
        assert!(is_ignored_dir_entry(ignored), "{ignored}");
    }
    for kept in ["a.yml", "hosts", "a.INI", "ini", "~constructed.yml"] {
        assert!(!is_ignored_dir_entry(kept), "{kept}");
    }
    assert_eq!(
        directory_sources(&names(&["~constructed.yml", "z.yml", "a.ini", "B.yml", "a.yml", ".x"])),
        ["B.yml", "a.yml", "z.yml", "~constructed.yml"]
    );
    assert_eq!(
        directory_sources(&names(&["a.yml", "B.yml", ".x", "a.ini", "z.yml", "~constructed.yml"])),
        ["B.yml", "a.yml", "z.yml", "~constructed.yml"]
    );
}

fn yaml(text: &str) -> InventoryData {
    let mut inv = InventoryData::new();
    let on = EnabledKinds::default();
    parse_structured_file(&mut inv, text, "a.yml", on, &FloatTable::new()).unwrap();
    reconcile(&mut inv);
    inv
}

#[test]
fn files_of_yaml() {
    let inv = yaml(
        "all:\n  vars:\n    port: 22\n    ratio: 1.5\n  children:\n    web:\n      hosts:\n        w1:\n          on: yes\n          tags: [a, b]\n        w2:\n",
    );
    assert_eq!(inv.group("web").unwrap().hosts, ["w1", "w2"]);
    assert_eq!(vars_of(&inv, "w2"), js(r#"{"port": 22, "ratio": 1.5}"#));
    assert_eq!(vars_of(&inv, "w1")["tags"], js(r#"["a", "b"]"#));
    let inv = yaml(r#"{"web": {"hosts": {"w1": {"big": 9223372036854775807, "low": -5}}}}"#);
    assert_eq!(vars_of(&inv, "w1"), js(r#"{"big": 9223372036854775807, "low": -5}"#));
    let mut inv = InventoryData::new();
    let on = EnabledKinds::default();
    let r = parse_structured_file(&mut inv, "a: [1\n", "bad.yml", on, &FloatTable::new());
    let why = noyalib::from_str::<serde_json::Value>("a: [1\n").unwrap_err().to_string();
    assert!(matches!(r, Err(ApplyStop::Error(Error::Parse { path, msg })) if path == "bad.yml" && msg == why));
    assert_eq!(inv.group_names(), ["all", "ungrouped"]);
}

#[test]
fn files_of_toml() {
    let mut inv = InventoryData::new();
    let text = "[web]\nchildren = [\"edge\"]\n[web.hosts.w1]\nport = 22\n[web.vars]\nx = 0.5\n[edge.hosts.e1]\n";
    parse_toml_file(&mut inv, text, "a.toml").unwrap();
    reconcile(&mut inv);
    assert_eq!(inv.group("web").unwrap().children, ["edge"]);
    assert_eq!(inv.group("edge").unwrap().parents, ["web"]);
    assert_eq!(vars_of(&inv, "w1"), js(r#"{"x": 0.5, "port": 22}"#));
    let r = parse_toml_file(&mut inv, "x = ", "bad.toml");
    let why = toml::from_str::<serde_json::Value>("x = ").unwrap_err().to_string();
    assert!(matches!(r, Err(Error::Parse { path, msg }) if path == "bad.toml" && msg == why));
}

#[test]
fn files_of_variables() {
    let load = |text: &str| load_vars_file(text, "v.yml").map(|o| o.map(|m| Value::Dict(m).to_json_text()));
    assert_eq!(load("a: 1\nb: {c: null}\n").unwrap().unwrap(), r#"{"a":1,"b":{"c":null}}"#);
    assert!(load(" \n").unwrap().is_none());
    assert!(load("# nothing\n").unwrap().is_none());
    assert!(load("- 1\n").unwrap().is_none());
    assert!(matches!(load("a: [1\n"), Err(Error::Parse { path, .. }) if path == "v.yml"));
}

// --- scripts -----------------------------------------------------------------------------

#[test]
fn lists_of_scripts() {
    let mut inv = InventoryData::new();
    let list = doc(
        r#"{
        "_meta": {"hostvars": {"h1": {"x": 1}, "h2": 5}},
        "web-app": {"hosts": ["h1", "h2", 3], "vars": {"v": 2}, "children": ["sub", 9]},
        "bare": ["h1", "h3"],
        "solo": {"k": "v"},
        "number": 4
    }"#,
    );
    assert_eq!(parse_list(&mut inv, "s", &list).unwrap(), Vec::<String>::new());
    assert_eq!(inv.group_names(), ["all", "ungrouped", "web_app", "sub", "bare", "solo", "number"]);
    assert_eq!(inv.host_names(), ["h1", "h2", "h3", "solo"]);
    assert_eq!(inv.group("web_app").unwrap().children, ["sub"]);
    assert_eq!(vars_of(&inv, "h1"), js(r#"{"v": 2, "x": 1}"#));
    assert_eq!(vars_of(&inv, "h2"), js(r#"{"v": 2}"#));
    assert_eq!(vars_of(&inv, "solo"), js(r#"{"k": "v"}"#));
}

#[test]
fn hosts_are_asked_for_without_meta() {
    let mut inv = InventoryData::new();
    let list = doc(r#"{"g": {"hosts": ["a", "b", "a"]}, "_meta": {}}"#);
    assert_eq!(parse_list(&mut inv, "s", &list).unwrap(), ["a", "b"]);
    apply_host_output(&mut inv, "a", &doc(r#"{"x": 1}"#));
    apply_host_output(&mut inv, "b", &doc("[]"));
    assert_eq!(vars_of(&inv, "a"), js(r#"{"x": 1}"#));
    assert_eq!(vars_of(&inv, "b"), js("{}"));
    assert!(matches!(
        parse_list(&mut inv, "s", &doc("[]")),
        Err(Error::Parse { msg, .. }) if msg == "inventory script --list output must be a JSON object"
    ));
}

#[test]
fn running_scripts() {
    assert!(is_executable(true, 0o755) && is_executable(true, 0o001));
    assert!(!is_executable(true, 0o644) && !is_executable(false, 0o755));
    for path in ["x", "x/", "x/.", ".", "..", "./x", "a/b", "/x", "", "x//", "./", "a/.."] {
        let p = std::path::Path::new(path);
        assert_eq!(needs_dot(path), p.is_relative() && p.components().count() == 1, "{path}");
    }
    let args = names(&["--host", "a b"]);
    assert_eq!(
        exit_error("s", &args, "exit status: 1").message(),
        "parsing s: inventory script [\"--host\", \"a b\"] exited with exit status: 1"
    );
    assert_eq!(
        json_error("s", &names(&["--list"]), "EOF").message(),
        "parsing s: invalid JSON from script [\"--list\"]: EOF"
    );
}

#[test]
fn what_a_document_was_read_as() {
    let bad = || Err::<Value, String>("why".to_string());
    assert_eq!(document_result(bad(), "p").unwrap_err().message(), "parsing p: why");
    assert_eq!(to_js(&document_result(Ok(doc("[1]")), "p").unwrap()), js("[1]"));
    assert_eq!(vars_result(bad(), "p").unwrap_err().message(), "parsing p: why");
    assert!(vars_result(Ok(doc("[1]")), "p").unwrap().is_none());
    assert_eq!(vars_result(Ok(doc(r#"{"a": 1}"#)), "p").unwrap().unwrap().len(), 1);
    let args = names(&["--list"]);
    assert_eq!(
        script_result("s", &args, None, bad()).unwrap_err().message(),
        "parsing s: invalid JSON from script [\"--list\"]: why"
    );
    assert_eq!(
        script_result("s", &args, Some("signal: 9"), Ok(Value::Null)).unwrap_err().message(),
        "parsing s: inventory script [\"--list\"] exited with signal: 9"
    );
    assert_eq!(to_js(&script_result("s", &args, None, Ok(doc("{}"))).unwrap()), js("{}"));
}

#[test]
fn what_scripts_print() {
    let args = names(&["--list"]);
    let out = |status: Option<&str>, text: &str| script_output("s", &args, status, &text.as_bytes().to_vec());
    assert_eq!(to_js(&out(None, r#" {"g": ["h"]} "#).unwrap()), js(r#"{"g": ["h"]}"#));
    assert_eq!(
        out(Some("exit status: 3"), "{}").unwrap_err().message(),
        "parsing s: inventory script [\"--list\"] exited with exit status: 3"
    );
    let why = serde_json::from_str::<serde_json::Value>("{\"a\"").unwrap_err();
    assert_eq!(
        out(None, "{\"a\"").unwrap_err().message(),
        format!("parsing s: invalid JSON from script [\"--list\"]: {why}")
    );
}

// --- files of variables ------------------------------------------------------------------

#[test]
fn names_that_can_be_looked_up() {
    for name in ["web", "../secrets", "..", ".", "", "a/b", "a/", "a/.", "/etc", "./a", "a//", "...", "a/..", ".x"] {
        let mut c = std::path::Path::new(name).components();
        let expected = matches!(c.next(), Some(std::path::Component::Normal(_))) && c.next().is_none();
        assert_eq!(is_safe_entity_name(name), expected, "{name}");
    }
}

#[test]
fn names_cannot_lead_out_of_a_directory_of_variables() {
    assert_eq!(vars_candidates("web"), ["web", "web.yml", "web.yaml", "web.json"]);
    assert_eq!(vars_candidates("a/."), ["a/.", "a/..yml", "a/..yaml", "a/..json"]);
    for name in ["../secrets", "..", ".", "", "/etc/passwd", "a/../..", "a/b"] {
        assert!(vars_candidates(name).is_empty(), "{name}");
    }
}

#[test]
fn choosing_files_of_variables() {
    let (dir, file, none) = (Entry::Directory, Entry::File, Entry::Missing);
    assert_eq!(VAR_EXTS, ["", ".yml", ".yaml", ".json"]);
    assert_eq!(choose_vars(&vec![dir, file, file, file]), VarsChoice::Directory);
    assert_eq!(choose_vars(&vec![file, file, none, none]), VarsChoice::File(0));
    assert_eq!(choose_vars(&vec![none, none, file, file]), VarsChoice::File(2));
    assert_eq!(choose_vars(&vec![none, dir, file, none]), VarsChoice::Nothing);
    assert_eq!(choose_vars(&vec![none; 4]), VarsChoice::Nothing);
    assert_eq!(vars_entry_action(".h", None, false), EntryAction::Skip);
    assert_eq!(vars_entry_action("b~", None, true), EntryAction::Skip);
    assert_eq!(vars_entry_action("d", None, true), EntryAction::Descend);
    assert_eq!(vars_entry_action("d.d", Some("d"), true), EntryAction::Skip);
    assert_eq!(vars_entry_action("f", None, false), EntryAction::Take);
    assert_eq!(vars_entry_action("f.yaml", Some("yaml"), false), EntryAction::Take);
    assert_eq!(vars_entry_action("f.YML", Some("YML"), false), EntryAction::Skip);
    assert_eq!(base_dir(true, false), BaseDir::Itself);
    assert_eq!(base_dir(false, true), BaseDir::Parent);
    assert_eq!(base_dir(false, false), BaseDir::Current);
    assert_eq!(
        cycle_error("d").message(),
        "parsing d: directory inventory contains a symlink cycle"
    );
    assert!(is_blank(" \n\t\u{3000}") && !is_blank(" # x"));
}

// --- command lines -----------------------------------------------------------------------

const EDGES: &str = r#"{"all": {"children": {
    "emptygroup": null,
    "haschild": {"children": {"leaf": null}},
    "populated": {"hosts": {"p1": {}}}
}}}"#;

fn shown(args: &Args, strict: &Setting, inv: &InventoryData) -> serde_json::Value {
    let p = plan(args, Some("edgecases.yml"), None, strict).unwrap();
    to_js(&tree(args, p.pruning, inv).unwrap())
}

fn all_children(inv: &serde_json::Value) -> Vec<&str> {
    inv.get("all")
        .and_then(|all| all.get("children"))
        .and_then(serde_json::Value::as_array)
        .map(|children| children.iter().filter_map(serde_json::Value::as_str).collect())
        .unwrap_or_default()
}

#[test]
fn ansible_inventory_env_supplies_default_source() {
    let p = plan(&list_args(), Some("basic.yml"), None, &Setting::Unset).unwrap();
    assert_eq!(p.sources, ["basic.yml"]);
}

#[test]
fn ansible_inventory_env_is_comma_split() {
    let p = plan(&list_args(), Some("basic.yml,ranges.ini"), None, &Setting::Unset).unwrap();
    assert_eq!(p.sources, ["basic.yml", "ranges.ini"]);
    assert_eq!(resolve_sources(&list_args(), Some(" a , ,b,")).unwrap(), ["a", "b"]);
}

#[test]
fn explicit_inventory_overrides_env() {
    let mut args = list_args();
    args.inventory = names(&["basic.yml"]);
    let p = plan(&args, Some("/no/such/path/nope.yml"), None, &Setting::Unset).unwrap();
    assert_eq!(p.sources, ["basic.yml"]);
}

#[test]
fn no_source_and_no_env_errors_helpfully() {
    let e = plan(&list_args(), None, None, &Setting::Unset).unwrap_err();
    assert!(e.contains("ANSIBLE_INVENTORY"), "error should mention the env fallback, got: {e}");
    assert!(plan(&list_args(), Some(" , "), None, &Setting::Unset).is_err());
}

#[test]
fn script_kind_runs_when_enabled() {
    let p = plan(&list_args(), Some("dynamic.sh"), Some("script,auto,yaml,ini,toml"), &Setting::Unset).unwrap();
    assert!(matches!(
        source_action(false, true, Some("sh"), p.enabled),
        SourceAction::Read(SourceKind::Script)
    ));
}

#[test]
fn script_kind_skipped_when_disabled() {
    let p = plan(&list_args(), Some("dynamic.sh"), Some("yaml,ini,toml,auto"), &Setting::Unset).unwrap();
    assert!(matches!(
        source_action(false, true, Some("sh"), p.enabled),
        SourceAction::Skip(SourceKind::Script)
    ));
}

const HOSTS: &str = r#"{"mon": {"hosts": {"mon1": {"prometheus": true}}}}"#;
const CONSTRUCTED: &str = r#"{"plugin": "constructed", "groups": {"prometheus": "prometheus is defined"}}"#;

fn with_constructed(enabled: &str) -> InventoryData {
    let mut inv = InventoryData::new();
    let kinds = EnabledKinds::parse(enabled);
    let table = FloatTable::new();
    parse_structured_source(&mut inv, &doc(HOSTS), "a.yml", kinds, &table).unwrap();
    parse_structured_source(&mut inv, &doc(CONSTRUCTED), "b.yml", kinds, &table).unwrap();
    inv
}

#[test]
fn auto_kind_runs_constructed_when_enabled() {
    let inv = with_constructed("auto,yaml,ini,toml,script");
    assert!(inv.group("prometheus").unwrap().hosts.contains(&"mon1".to_string()));
}

#[test]
fn auto_kind_disabled_skips_constructed() {
    let inv = with_constructed("yaml,ini,toml,script");
    assert!(inv.group("prometheus").is_none());
    assert!(inv.group("plugin").is_some());
}

#[test]
fn graph_aware_pruning_is_the_default() {
    let inv = structured(EDGES);
    let out = shown(&list_args(), &Setting::Unset, &inv);
    assert_eq!(all_children(&out), vec!["populated"]);
}

#[test]
fn strict_compatibility_flag_restores_shallow_pruning() {
    let inv = structured(EDGES);
    let mut args = list_args();
    args.strict_compatibility = true;
    let out = shown(&args, &Setting::Unset, &inv);
    assert_eq!(all_children(&out), vec!["ungrouped", "emptygroup", "haschild", "populated"]);
}

#[test]
fn strict_compatibility_env_accepts_standard_booleans() {
    let inv = structured(EDGES);
    for value in ["true", "TRUE", "1"] {
        let out = shown(&list_args(), &text(value), &inv);
        assert!(all_children(&out).contains(&"emptygroup"), "value={value}");
    }
    for value in ["false", "FALSE", "0"] {
        let out = shown(&list_args(), &text(value), &inv);
        assert!(!all_children(&out).contains(&"emptygroup"), "value={value}");
    }
}

#[test]
fn strict_flag_overrides_false_environment_value() {
    let inv = structured(EDGES);
    let mut args = list_args();
    args.strict_compatibility = true;
    let out = shown(&args, &text("false"), &inv);
    assert!(all_children(&out).contains(&"emptygroup"));
}

#[test]
fn invalid_strict_compatibility_env_is_an_error() {
    let e = plan(&list_args(), Some("edgecases.yml"), None, &text("sometimes")).unwrap_err();
    assert!(e.contains("expected true, false, 1, or 0"));
    assert_eq!(
        e,
        "invalid FLEETS_STRICT_COMPATIBILITY value \"sometimes\" (expected true, false, 1, or 0)"
    );
    let e = strict_compatibility(&list_args(), &Setting::NotText).unwrap_err();
    assert_eq!(e, "FLEETS_STRICT_COMPATIBILITY must be valid UTF-8");
}

#[test]
fn command_lines_that_do_not_fit_together() {
    let why = |args: &Args| plan(args, Some("x"), None, &Setting::Unset).unwrap_err();
    let mut args = list_args();
    args.host = Some("h".into());
    assert_eq!(why(&args), "--list and --host are mutually exclusive");
    args.list = false;
    args.host = None;
    assert_eq!(why(&args), "one of --list or --host is required");
    let mut args = list_args();
    args.yaml = true;
    args.toml = true;
    assert_eq!(why(&args), "--yaml and --toml are mutually exclusive");
    args.list = false;
    args.toml = false;
    args.host = Some("h".into());
    assert!(plan(&args, Some("x"), None, &text("sometimes")).is_ok());
}

#[test]
fn running_a_command_line() {
    let inv = structured(EDGES);
    let mut args = list_args();
    assert_eq!(fleets::cli::format(&args), Format::Json);
    args.limit = Some("nobody".into());
    assert_eq!(
        to_js(&tree(&args, GroupPruning::GraphAware, &inv).unwrap()),
        js(r#"{"_meta": {"hostvars": {}}}"#)
    );
    args.limit = None;
    args.yaml = true;
    assert_eq!(fleets::cli::format(&args), Format::Yaml);
    assert_eq!(
        to_js(&tree(&args, GroupPruning::GraphAware, &inv).unwrap()),
        js(r#"{"all": {"children": {"populated": {"hosts": {"p1": {}}}}}}"#)
    );
    args.yaml = false;
    args.toml = true;
    assert_eq!(fleets::cli::format(&args), Format::Toml);
    assert_eq!(
        to_js(&tree(&args, GroupPruning::GraphAware, &inv).unwrap()),
        js(r#"{"populated": {"hosts": {"p1": {}}}}"#)
    );
    args.list = false;
    args.host = Some("p1".into());
    assert_eq!(to_js(&tree(&args, GroupPruning::GraphAware, &inv).unwrap()), js("{}"));
    args.host = Some("p2".into());
    assert_eq!(
        run(&args, GroupPruning::GraphAware, &inv).unwrap_err(),
        "host 'p2' not found in inventory"
    );
    args.host = Some("p1".into());
    assert_eq!(run(&args, GroupPruning::GraphAware, &inv).unwrap(), "");
    args.toml = false;
    assert_eq!(run(&args, GroupPruning::GraphAware, &inv).unwrap(), "{}");
}

// --- tracing -----------------------------------------------------------------------------

#[test]
fn addresses_for_traces() {
    assert_eq!(traces_endpoint("http://localhost:4318"), "http://localhost:4318/v1/traces");
    assert_eq!(traces_endpoint("http://c//"), "http://c/v1/traces");
    assert_eq!(traces_endpoint("http://c/v1/traces/"), "http://c/v1/traces");
    let once = traces_endpoint("http://x/");
    assert_eq!(traces_endpoint(&once), once);
    let d = TracingConfig::default();
    assert!(!d.enabled);
    assert_eq!((d.endpoint.as_str(), d.service_name.as_str()), ("http://localhost:4318", "fleets"));
    assert_eq!(config_base(true, true), ConfigBase::Xdg);
    assert_eq!(config_base(false, true), ConfigBase::Home);
    assert_eq!(config_base(false, false), ConfigBase::Nowhere);
}
