//! Inventories: the model, variables, trees, limits, and constructed groups.

use fleets::cli::{run, Args};
use fleets::constructed::{apply, bare_names, group_name, is_constructed, ApplyStop, Config};
use fleets::enabled::EnabledKinds;
use fleets::error::Error;
use fleets::expr::eval_condition;
use fleets::expr::number::FloatTable;
use fleets::model::{InventoryData, ALL, UNGROUPED};
use fleets::nameset::NameSet;
use fleets::output::{build_host, build_list, build_toml, build_yaml, GroupPruning};
use fleets::parse::{parse_structured_file, parse_structured_value, reconcile};
use fleets::sanitize::to_safe_group_name;
use fleets::script::parse_list;
use fleets::pattern::{glob_to_regex, match_hits, narrow, select_hosts, split_host_pattern};
use fleets::value::{int_value, Number, Value, VarMap};
use fleets::vars::{combine, remove_internal, resolve_host_inline_vars, resolve_host_vars, INTERNAL_STATIC_VARS};
use fleets::vars_files::{add_group_file_vars, add_host_file_vars, collect_entity_vars, vars_result};

fn js(text: &str) -> serde_json::Value {
    serde_json::from_str(text).unwrap()
}

fn to_js(v: &Value) -> serde_json::Value {
    js(&v.to_json_text())
}

fn from_js(v: &serde_json::Value) -> Value {
    match v {
        serde_json::Value::Null => Value::Null,
        serde_json::Value::Bool(b) => Value::Bool(*b),
        serde_json::Value::Number(n) => Value::Number(match (n.as_u64(), n.as_i64()) {
            (Some(u), _) => Number::PosInt(u),
            (None, Some(i)) => Number::NegInt(i),
            _ => Number::Float(n.to_string()),
        }),
        serde_json::Value::String(s) => Value::Text(s.clone()),
        serde_json::Value::Array(a) => Value::List(a.iter().map(from_js).collect()),
        serde_json::Value::Object(_) => Value::Dict(map(&v.to_string())),
    }
}

fn map(text: &str) -> VarMap {
    let mut m = VarMap::new();
    for (k, v) in js(text).as_object().unwrap() {
        m.insert(k.clone(), from_js(v));
    }
    m
}

fn doc(text: &str) -> Value {
    from_js(&js(text))
}

fn inventory(text: &str) -> InventoryData {
    let mut inv = InventoryData::new();
    parse_structured_value(&mut inv, &doc(text), "test").unwrap();
    reconcile(&mut inv);
    inv
}

fn set(names: &[&str]) -> NameSet {
    let mut s = NameSet::new();
    for n in names {
        s.insert(n.to_string());
    }
    s
}

fn test_inventory() -> InventoryData {
    let mut inv = InventoryData::new();
    for group in [
        "empty_leaf",
        "empty_branch",
        "populated",
        "other_parent",
        "vars_only",
        "cycle_a",
        "cycle_b",
    ] {
        inv.add_group(group);
    }
    inv.add_child(ALL, "empty_leaf");
    inv.add_child(ALL, "empty_branch");
    inv.add_child("empty_branch", "empty_leaf");
    inv.add_child(ALL, "populated");
    inv.add_child(ALL, "other_parent");
    inv.add_child("other_parent", "populated");
    inv.add_child(ALL, "vars_only");
    inv.add_child(ALL, "cycle_a");
    inv.add_child("cycle_a", "cycle_b");
    inv.add_child("cycle_b", "cycle_a");

    inv.add_host("kept");
    inv.add_host_to_group("kept", "populated");
    inv.add_host("cycle_host");
    inv.add_host_to_group("cycle_host", "cycle_b");
    inv.set_group_var("vars_only", "purpose", Value::Text("export".into()));
    inv
}

// --- trees -------------------------------------------------------------------------------

#[test]
fn graph_pruning_keeps_populated_groups_and_all_ancestors() {
    let inv = test_inventory();
    let selected = set(&["kept"]);
    let out = to_js(&build_list(&inv, &selected, false, GroupPruning::GraphAware));

    assert_eq!(out[ALL]["children"], js(r#"["populated", "other_parent"]"#));
    assert_eq!(out["populated"]["hosts"], js(r#"["kept"]"#));
    assert_eq!(out["other_parent"]["children"], js(r#"["populated"]"#));
    for absent in ["empty_leaf", "empty_branch", "vars_only", "cycle_a", "cycle_b"] {
        assert!(out.get(absent).is_none(), "{absent} should be pruned");
    }
}

#[test]
fn graph_pruning_removes_every_group_for_an_empty_selection() {
    let inv = test_inventory();
    let selected = set(&[]);
    let out = to_js(&build_list(&inv, &selected, false, GroupPruning::GraphAware));

    assert_eq!(out, js(r#"{"_meta": {"hostvars": {}}}"#));
}

#[test]
fn export_retains_vars_only_groups_and_their_ancestors() {
    let inv = test_inventory();
    let selected = set(&[]);
    let out = to_js(&build_list(&inv, &selected, true, GroupPruning::GraphAware));

    assert_eq!(out[ALL]["children"], js(r#"["vars_only"]"#));
    assert_eq!(out["vars_only"]["vars"], js(r#"{"purpose": "export"}"#));
}

#[test]
fn strict_json_preserves_dangling_references_and_empty_cycles() {
    let inv = test_inventory();
    let selected = set(&["kept"]);
    let out = to_js(&build_list(&inv, &selected, false, GroupPruning::AnsibleCompatible));

    assert!(out[ALL]["children"]
        .as_array()
        .unwrap()
        .contains(&serde_json::Value::String("empty_leaf".into())));
    assert!(out.get("empty_leaf").is_none());
    assert!(out.get("cycle_a").is_some());
    assert!(out.get("cycle_b").is_some());
}

#[test]
fn yaml_and_toml_use_the_same_retained_group_set() {
    let inv = test_inventory();
    let selected = set(&["kept"]);
    let yaml = to_js(&build_yaml(&inv, &selected, false, GroupPruning::GraphAware));
    let toml = to_js(&build_toml(&inv, &selected, false, GroupPruning::GraphAware));

    let yaml_children = yaml[ALL]["children"].as_object().unwrap();
    assert_eq!(
        yaml_children.keys().map(String::as_str).collect::<Vec<_>>(),
        vec!["populated", "other_parent"]
    );
    assert!(toml.get("populated").is_some());
    assert!(toml.get("other_parent").is_some());
    for absent in ["empty_leaf", "empty_branch", "vars_only", "cycle_a", "cycle_b"] {
        assert!(yaml_children.get(absent).is_none());
        assert!(toml.get(absent).is_none());
    }
}

#[test]
fn populated_cycles_are_retained_without_recursive_traversal() {
    let inv = test_inventory();
    let selected = set(&["cycle_host"]);
    let json = to_js(&build_list(&inv, &selected, false, GroupPruning::GraphAware));
    let yaml = to_js(&build_yaml(&inv, &selected, false, GroupPruning::GraphAware));
    let toml = to_js(&build_toml(&inv, &selected, false, GroupPruning::GraphAware));

    assert_eq!(json[ALL]["children"], js(r#"["cycle_a"]"#));
    assert_eq!(json["cycle_a"]["children"], js(r#"["cycle_b"]"#));
    assert_eq!(json["cycle_b"]["children"], js(r#"["cycle_a"]"#));
    assert!(yaml[ALL]["children"]["cycle_a"].is_object());
    assert_eq!(toml["cycle_a"]["children"], js(r#"["cycle_b"]"#));
    assert_eq!(toml["cycle_b"]["children"], js(r#"["cycle_a"]"#));
}

const FLEET: &str = r#"{
    "all": {"vars": {"a": "all", "b": "all", "c": "all", "d": "all"}},
    "web": {
        "hosts": {"web1": {"d": "host", "e": null}, "web2": null},
        "vars": {"b": "web", "c": "web", "ansible_group_priority": 5},
        "children": {"edge": {"hosts": ["web2", "edge1", 7]}}
    },
    "db": {"hosts": {"db1": {}, "web1": {"f": 1}}, "vars": {"c": "db"}},
    "alone": null
}"#;

#[test]
fn the_three_trees_of_a_fleet() {
    let inv = inventory(FLEET);
    let all = set(&["web1", "web2", "edge1", "db1"]);
    let list = to_js(&build_list(&inv, &all, false, GroupPruning::GraphAware));
    assert_eq!(list["all"], js(r#"{"children": ["web", "db"]}"#));
    assert_eq!(list["web"], js(r#"{"hosts": ["web1", "web2"], "children": ["edge"]}"#));
    assert_eq!(list["edge"], js(r#"{"hosts": ["web2", "edge1"]}"#));
    assert_eq!(list["db"], js(r#"{"hosts": ["db1", "web1"]}"#));
    assert_eq!(
        list["_meta"]["hostvars"]["web1"],
        js(r#"{"a": "all", "b": "web", "c": "web", "d": "host", "e": null, "f": 1}"#)
    );

    let yaml = to_js(&build_yaml(&inv, &all, true, GroupPruning::AnsibleCompatible));
    assert_eq!(
        yaml,
        js(r#"{"all": {
            "children": {
                "web": {
                    "children": {"edge": {"hosts": {"web2": {}, "edge1": {}}}},
                    "hosts": {"web1": {"d": "host", "e": null, "f": 1}, "web2": {}},
                    "vars": {"b": "web", "c": "web", "ansible_group_priority": 5}
                },
                "db": {"hosts": {"db1": {}, "web1": {}}, "vars": {"c": "db"}}
            },
            "vars": {"a": "all", "b": "all", "c": "all", "d": "all"}
        }}"#)
    );

    let toml = to_js(&build_toml(&inv, &all, true, GroupPruning::AnsibleCompatible));
    assert_eq!(toml["all"], js(r#"{"vars": {"a": "all", "b": "all", "c": "all", "d": "all"}}"#));
    assert_eq!(toml["web"]["children"], js(r#"["edge"]"#));
    assert_eq!(toml["db"]["hosts"], js(r#"{"db1": {}, "web1": {}}"#));
    assert!(toml.get("alone").is_none());
    assert!(toml.get("ungrouped").is_none());
}

#[test]
fn one_host_and_an_unknown_one() {
    let inv = inventory(FLEET);
    assert_eq!(to_js(&build_host(&inv, "db1", true).unwrap()), js("{}"));
    assert_eq!(
        to_js(&build_host(&inv, "db1", false).unwrap()),
        js(r#"{"a": "all", "b": "all", "c": "db", "d": "all"}"#)
    );
    assert!(build_host(&inv, "nobody", false).is_none());
}

#[test]
fn listed_children_have_entries() {
    for text in [FLEET, r#"{"a": {"children": {"b": {"children": {"c": {"hosts": {"h": {}}}}}, "x": {}}}}"#] {
        let inv = inventory(text);
        let names = inv.host_names();
        let out = to_js(&build_list(&inv, &NameSet::of(&names), false, GroupPruning::GraphAware));
        for (group, entry) in out.as_object().unwrap() {
            if group == "_meta" {
                continue;
            }
            if let Some(children) = entry.get("children") {
                for c in children.as_array().unwrap() {
                    assert!(out.get(c.as_str().unwrap()).is_some(), "{c}");
                }
            }
        }
    }
}

// --- the model ---------------------------------------------------------------------------

#[test]
fn a_new_inventory_has_the_special_groups() {
    let inv = InventoryData::new();
    assert_eq!(inv.group_names(), [ALL, UNGROUPED]);
    assert_eq!(inv.group(ALL).unwrap().children, [UNGROUPED]);
    assert_eq!(inv.group(UNGROUPED).unwrap().parents, [ALL]);
    assert_eq!(inv.group(ALL).unwrap().depth, 0);
    assert_eq!(inv.group(UNGROUPED).unwrap().depth, 1);
    assert!(inv.host_names().is_empty());
}

#[test]
fn depths_follow_links() {
    let mut inv = InventoryData::new();
    for g in ["a", "b", "c"] {
        inv.add_group(g);
    }
    inv.add_child("b", "c");
    inv.add_child("a", "b");
    inv.add_child(ALL, "a");
    let depth = |inv: &InventoryData, g: &str| inv.group(g).unwrap().depth;
    assert_eq!((depth(&inv, "a"), depth(&inv, "b"), depth(&inv, "c")), (1, 2, 3));
    inv.add_child("c", "a");
    assert!(depth(&inv, "a") >= 4);
    inv.add_child("a", "a");
    assert!(!inv.group("a").unwrap().children.contains(&"a".to_string()));
}

#[test]
fn reconciling_ties_loose_ends_once() {
    let mut inv = test_inventory();
    inv.add_group("loose");
    inv.add_host("stray");
    inv.reconcile_all_children();
    inv.reconcile_ungrouped();
    assert_eq!(inv.group("loose").unwrap().parents, [ALL]);
    assert_eq!(inv.group("populated").unwrap().parents, [ALL, "other_parent"]);
    assert_eq!(inv.group(UNGROUPED).unwrap().hosts, ["stray"]);
    inv.reconcile_all_children();
    inv.reconcile_ungrouped();
    assert_eq!(inv.group(ALL).unwrap().children.iter().filter(|c| *c == "loose").count(), 1);
    assert_eq!(inv.group(UNGROUPED).unwrap().hosts, ["stray"]);
}

#[test]
fn groups_and_hosts_through_links() {
    let inv = inventory(FLEET);
    assert_eq!(inv.group_all_hosts("web"), ["web1", "web2", "edge1"]);
    assert_eq!(inv.host_groups("edge1"), ["all", "edge", "web"]);
    assert_eq!(inv.host_groups("nobody"), ["all"]);
    assert!(inv.group_all_hosts("nothing").is_empty());
}

#[test]
fn priority_is_kept_aside() {
    let mut inv = inventory(FLEET);
    let stored = |inv: &InventoryData| inv.group("web").unwrap().vars.contains_key("ansible_group_priority");
    assert_eq!(inv.group("web").unwrap().priority, 5);
    assert!(!stored(&inv));
    for (value, priority) in [("\"10\"", 10), ("\" -3 \"", -3), ("7", 7), ("\"high\"", 7), ("[1]", 7)] {
        inv.set_group_var("web", "ansible_group_priority", doc(value));
        assert_eq!(inv.group("web").unwrap().priority, priority, "{value}");
        assert!(!stored(&inv));
    }
}

#[test]
fn new_depths_reach_every_descendant() {
    let mut inv = InventoryData::new();
    for g in ["p", "c", "e", "d", "f"] {
        inv.add_group(g);
    }
    for (parent, child) in [("c", "e"), ("c", "d"), ("e", "d"), ("d", "f"), (ALL, "p"), ("p", "c")] {
        inv.add_child(parent, child);
    }
    let depths: Vec<u32> = ["p", "c", "e", "d", "f"].iter().map(|g| inv.group(g).unwrap().depth).collect();
    assert_eq!(depths, [1, 2, 3, 4, 5]);
    for g in inv.group_names() {
        for parent in &inv.group(&g).unwrap().parents {
            assert!(inv.group(&g).unwrap().depth > inv.group(parent).unwrap().depth);
        }
    }
    inv.add_child("p", "c");
    assert_eq!(inv.group("f").unwrap().depth, 5);
    assert_eq!(inv.group("p").unwrap().children, ["c"]);
}

#[test]
fn on_a_cycle_each_group_pushes_once() {
    let mut inv = InventoryData::new();
    for g in ["b", "c"] {
        inv.add_group(g);
    }
    inv.add_child("b", "c");
    inv.add_child("c", "b");
    let depth = |inv: &InventoryData, g: &str| inv.group(g).unwrap().depth;
    assert_eq!((depth(&inv, "b"), depth(&inv, "c")), (4, 3));
    let mut inv = InventoryData::new();
    for g in ["a", "b", "c", "d"] {
        inv.add_group(g);
    }
    for (parent, child) in [("a", "b"), ("b", "c"), ("c", "a"), ("c", "d")] {
        inv.add_child(parent, child);
    }
    assert_eq!(["a", "b", "c", "d"].map(|g| depth(&inv, g)), [6, 4, 5, 6]);
}

#[test]
fn group_names_are_safe_whatever_they_come_from() {
    let mut inv = inventory(r#"{"web-1": {"hosts": ["h"], "children": {"2nd.tier": {}}}}"#);
    parse_list(&mut inv, "script", &doc(r#"{"a b": {"children": ["c/d"]}}"#)).unwrap();
    for g in ["web_1", "_nd_tier", "a_b", "c_d"] {
        assert!(inv.group(g).is_some(), "{g}");
    }
    for g in inv.group_names() {
        assert_eq!(to_safe_group_name(&g), g);
    }
}

#[test]
fn a_group_of_two_parents_keeps_its_entry_in_the_table() {
    let mut inv = InventoryData::new();
    for g in ["a", "b", "g"] {
        inv.add_group(g);
    }
    for (parent, child) in [(ALL, "a"), (ALL, "b"), ("a", "g"), ("b", "g")] {
        inv.add_child(parent, child);
    }
    inv.add_host("h");
    inv.add_host_to_group("h", "g");
    inv.set_host_var("h", "x", int_value(1));
    for pruning in [GroupPruning::GraphAware, GroupPruning::AnsibleCompatible] {
        assert_eq!(
            to_js(&build_toml(&inv, &set(&["h"]), false, pruning)),
            js(r#"{"g": {"hosts": {"h": {"x": 1}}}, "a": {"children": ["g"]}, "b": {"children": ["g"]}}"#)
        );
    }
}

#[test]
fn an_exported_table_reads_back() {
    let inv = inventory(
        r#"{
        "all": {"vars": {"a": [1], "ansible_group_priority": 3}},
        "web": {"hosts": {"w1": {"d": 1}, "w2": null}, "vars": {"b": "web", "ansible_group_priority": 5},
                "children": {"edge": {"hosts": ["w2", "e1"]}}},
        "db": {"hosts": {"db1": {"q": [1]}, "w1": {}}, "vars": {"c": "db"}, "children": {"edge": {}}}
    }"#,
    );
    let all = NameSet::of(&inv.host_names());
    let table = build_toml(&inv, &all, true, GroupPruning::GraphAware);
    let mut back = InventoryData::new();
    parse_structured_value(&mut back, &table, "export").unwrap();
    reconcile(&mut back);
    for g in ["web", "edge", "db"] {
        let (x, y) = (inv.group(g).unwrap(), back.group(g).unwrap());
        assert_eq!((&x.hosts, &x.children, x.priority), (&y.hosts, &y.children, y.priority));
        assert!(Value::Dict(x.vars.clone()).same_as(&Value::Dict(y.vars.clone())));
    }
    let (x, y) = (inv.group(ALL).unwrap(), back.group(ALL).unwrap());
    assert_eq!((x.priority, y.priority), (3, 3));
    assert_eq!(to_js(&Value::Dict(y.vars.clone())), js(r#"{"a": [1]}"#));
    for h in inv.host_names() {
        assert_eq!(
            to_js(&Value::Dict(resolve_host_vars(&inv, &h))),
            to_js(&Value::Dict(resolve_host_vars(&back, &h)))
        );
    }
}

#[test]
fn loose_groups_are_tied_in_order() {
    let mut inv = InventoryData::new();
    for g in ["c", "a", "b"] {
        inv.add_group(g);
    }
    inv.add_child("c", "b");
    inv.reconcile_all_children();
    assert_eq!(inv.group(ALL).unwrap().children, [UNGROUPED, "c", "a"]);
}

#[test]
fn a_copy_is_the_same_inventory() {
    let inv = test_inventory();
    let twin = inv.copy();
    let all = NameSet::of(&inv.host_names());
    assert_eq!(inv.group_names(), twin.group_names());
    assert_eq!(
        build_list(&inv, &all, true, GroupPruning::AnsibleCompatible).to_json_text(),
        build_list(&twin, &all, true, GroupPruning::AnsibleCompatible).to_json_text()
    );
}

// --- variables ---------------------------------------------------------------------------

#[test]
fn precedence_from_all_to_host_files() {
    let mut inv = inventory(
        r#"{
        "all": {"vars": {"x1": "all", "x2": "all", "x3": "all", "x4": "all", "x5": "all", "x6": "all"}},
        "g": {"hosts": {"h": {"x5": "host", "x6": "host"}}, "vars": {"x3": "group", "x4": "group", "x5": "group"}}
    }"#,
    );
    add_group_file_vars(&mut inv, ALL, &map(r#"{"x2": "allfile", "x3": "allfile"}"#));
    add_group_file_vars(&mut inv, "g", &map(r#"{"x4": "groupfile", "x5": "groupfile"}"#));
    add_host_file_vars(&mut inv, "h", &map(r#"{"x6": "hostfile"}"#));
    assert_eq!(
        to_js(&Value::Dict(resolve_host_vars(&inv, "h"))),
        js(r#"{"x1": "all", "x2": "allfile", "x3": "group", "x4": "groupfile", "x5": "host", "x6": "hostfile"}"#)
    );
    assert_eq!(
        to_js(&Value::Dict(resolve_host_inline_vars(&inv, "h"))),
        js(r#"{"x1": "all", "x2": "all", "x3": "group", "x4": "group", "x5": "host", "x6": "host"}"#)
    );
}

#[test]
fn groups_are_layered_by_depth_priority_and_name() {
    let inv = inventory(
        r#"{
        "zz": {"hosts": ["h"], "vars": {"v": "zz"}},
        "aa": {"hosts": ["h"], "vars": {"v": "aa"}}
    }"#,
    );
    assert_eq!(to_js(resolve_host_vars(&inv, "h").get("v").unwrap()), js(r#""zz""#));
    let inv = inventory(
        r#"{
        "zz": {"hosts": ["h"], "vars": {"v": "zz"}},
        "aa": {"hosts": ["h"], "vars": {"v": "aa", "ansible_group_priority": 2}}
    }"#,
    );
    assert_eq!(to_js(resolve_host_vars(&inv, "h").get("v").unwrap()), js(r#""aa""#));
    let inv = inventory(
        r#"{
        "zz": {"vars": {"v": "zz", "ansible_group_priority": 9}, "children": {"aa": {"hosts": ["h"], "vars": {"v": "aa"}}}}
    }"#,
    );
    assert_eq!(to_js(resolve_host_vars(&inv, "h").get("v").unwrap()), js(r#""aa""#));
}

#[test]
fn combining_replaces_whole_values() {
    let mut dst = map(r#"{"a": {"x": 1, "y": 2}, "b": 1}"#);
    combine(&mut dst, &map(r#"{"a": {"z": 3}, "c": 2}"#));
    assert_eq!(Value::Dict(dst).to_json_text(), r#"{"a":{"z":3},"b":1,"c":2}"#);
}

#[test]
fn internal_names_are_removed() {
    let mut vars = map(r#"{"keep": 1}"#);
    for name in INTERNAL_STATIC_VARS {
        vars.insert(name.to_string(), Value::Null);
    }
    vars.insert("also".into(), int_value(2));
    remove_internal(&mut vars);
    assert_eq!(vars.len(), 2);
    assert!(vars.contains_key("keep") && vars.contains_key("also"));
}

#[test]
fn documents_of_files_are_merged_in_order() {
    let files = vec![
        vars_result(Ok(doc(r#"{"a": 1, "b": 1}"#)), "v.yml").unwrap(),
        vars_result(Ok(Value::Null), "v.yml").unwrap(),
        None,
        vars_result(Ok(doc("[1]")), "v.yml").unwrap(),
        vars_result(Ok(doc(r#"{"b": 2}"#)), "v.yml").unwrap(),
    ];
    assert_eq!(Value::Dict(collect_entity_vars(&files)).to_json_text(), r#"{"a":1,"b":2}"#);
}

#[test]
fn an_export_reads_back_as_the_same_inventory() {
    let inv = inventory(
        r#"{
        "all": {"vars": {"a": 1, "ansible_group_priority": 4}},
        "web": {
            "hosts": {"web1": {"d": "x", "e": null}, "web2": null},
            "vars": {"b": [1, {"k": 2.5}], "ansible_group_priority": 5},
            "children": {"edge": {"hosts": {"edge1": {"n": -3}}}}
        },
        "db": {"hosts": {"db1": {}, "web1": null}, "vars": {"c": "db"}}
    }"#,
    );
    let all = NameSet::of(&inv.host_names());
    let tree = build_yaml(&inv, &all, true, GroupPruning::GraphAware);
    let mut back = InventoryData::new();
    parse_structured_value(&mut back, &tree, "export").unwrap();
    assert_eq!(back.group(ALL).unwrap().priority, 4);
    assert_eq!(to_js(&Value::Dict(back.group(ALL).unwrap().vars.clone())), js(r#"{"a": 1}"#));
    assert_eq!(back.group(ALL).unwrap().children, [UNGROUPED, "web", "db"]);
    reconcile(&mut back);
    for pruning in [GroupPruning::GraphAware, GroupPruning::AnsibleCompatible] {
        for export in [true, false] {
            assert_eq!(
                to_js(&build_list(&inv, &all, export, pruning)),
                to_js(&build_list(&back, &all, export, pruning))
            );
        }
    }
}

#[test]
fn a_written_export_reads_back_too() {
    let inv = inventory(FLEET);
    let args = Args {
        list: true,
        host: None,
        inventory: vec![],
        limit: None,
        yaml: true,
        toml: false,
        export: true,
        strict_compatibility: false,
    };
    let text = run(&args, GroupPruning::GraphAware, &inv).unwrap();
    let mut back = InventoryData::new();
    let kinds = EnabledKinds::default();
    parse_structured_file(&mut back, &text, "export.yml", kinds, &no_floats()).unwrap();
    reconcile(&mut back);
    let all = NameSet::of(&inv.host_names());
    let hostvars = |i: &InventoryData| to_js(&build_list(i, &all, false, GroupPruning::GraphAware))["_meta"].clone();
    assert_eq!(hostvars(&inv), hostvars(&back));
    for g in ["web", "edge", "db"] {
        assert_eq!(back.group(g).unwrap().priority, inv.group(g).unwrap().priority);
        assert_eq!(back.group_all_hosts(g).len(), inv.group_all_hosts(g).len());
    }
}

#[test]
fn a_list_reads_back_as_the_output_of_a_script() {
    let inv = inventory(FLEET);
    let all = NameSet::of(&inv.host_names());
    let list = build_list(&inv, &all, true, GroupPruning::GraphAware);
    let mut back = InventoryData::new();
    assert!(parse_list(&mut back, "script", &list).unwrap().is_empty());
    for g in ["web", "edge", "db"] {
        assert_eq!(back.group(g).unwrap().hosts, inv.group(g).unwrap().hosts);
        assert_eq!(back.group(g).unwrap().children, inv.group(g).unwrap().children);
        assert!(Value::Dict(back.group(g).unwrap().vars.clone())
            .same_as(&Value::Dict(inv.group(g).unwrap().vars.clone())));
        assert_eq!(back.group(g).unwrap().priority, inv.group(g).unwrap().priority);
    }
    for h in inv.host_names() {
        assert!(Value::Dict(back.host(&h).unwrap().vars.clone())
            .same_as(&Value::Dict(inv.host(&h).unwrap().vars.clone())));
    }
    reconcile(&mut back);
    assert_eq!(
        to_js(&build_list(&back, &all, true, GroupPruning::GraphAware)),
        to_js(&list)
    );
}

#[test]
fn reading_more_takes_nothing_away() {
    let mut inv = inventory(FLEET);
    let (hosts, groups) = (inv.host_names(), inv.group_names());
    let web = inv.group("web").unwrap().hosts.clone();
    parse_structured_value(
        &mut inv,
        &doc(r#"{"web": {"hosts": {"web9": {}, "web1": {"d": "again"}}, "children": {"fresh": null}}}"#),
        "more",
    )
    .unwrap();
    assert_eq!(inv.host_names()[..hosts.len()], hosts[..]);
    assert_eq!(inv.group_names()[..groups.len()], groups[..]);
    assert_eq!(inv.group("web").unwrap().hosts[..web.len()], web[..]);
    assert_eq!(inv.group("web").unwrap().hosts.last().unwrap(), "web9");
    assert_eq!(to_js(inv.host("web1").unwrap().vars.get("d").unwrap()), js(r#""again""#));
    assert!(inv.host("web1").unwrap().vars.contains_key("f"));
}

// --- limits ------------------------------------------------------------------------------

#[test]
fn splits_colon_and_comma() {
    assert_eq!(split_host_pattern("a:b:c"), ["a", "b", "c"]);
    assert_eq!(split_host_pattern("a, b ,c"), ["a", "b", "c"]);
    assert_eq!(
        split_host_pattern("web*:&staged:!excluded"),
        ["web*", "&staged", "!excluded"]
    );
    assert_eq!(split_host_pattern("web[01:03]"), ["web[01:03]"]);
}

#[test]
fn glob_translation() {
    assert_eq!(glob_to_regex("web*"), "(?s)^web.*$");
    assert_eq!(glob_to_regex("h?"), "(?s)^h.$");
    assert_eq!(glob_to_regex("h[!0]"), "(?s)^h[^0]$");
}

#[test]
fn globs_at_the_edges() {
    assert_eq!(glob_to_regex("a.b"), r"(?s)^a\.b$");
    assert_eq!(glob_to_regex("a[b"), r"(?s)^a\[b$");
    assert_eq!(glob_to_regex("[]x]"), "(?s)^[]x]$");
    assert_eq!(glob_to_regex("[!]x]"), "(?s)^[^]x]$");
    assert_eq!(glob_to_regex(""), "(?s)^$");
    assert_eq!(glob_to_regex("[a-c]"), "(?s)^[a-c]$");
    assert_eq!(glob_to_regex("[^a]"), r"(?s)^[\^a]$");
    assert_eq!(glob_to_regex("[^]a]"), r"(?s)^[\^]a\]$");
    assert_eq!(glob_to_regex(r"[a\[&&~~-]"), r"(?s)^[a\\\[\&\&\~\~\-]$");
    for (glob, yes, no) in [("[^a]", "^a", "b"), ("[!a-c]", "d-", "abc"), ("[+--]", "+,-", "./"), ("[a&&b]", "ab&", "c")] {
        let re = regex::Regex::new(&glob_to_regex(glob)).unwrap();
        assert!(yes.chars().all(|c| re.is_match(&c.to_string())), "{glob}");
        assert!(no.chars().all(|c| !re.is_match(&c.to_string())), "{glob}");
    }
    let meta = r"\.+*?()|[]{}^$#&-~";
    for c in meta.chars().chain("aZ09_ é/".chars()) {
        if c == '*' || c == '?' || c == '[' {
            continue;
        }
        assert_eq!(
            glob_to_regex(&c.to_string()),
            format!("(?s)^{}$", regex::escape(&c.to_string()))
        );
    }
}

#[test]
fn every_pattern_is_its_own_only_pattern() {
    for limit in ["a: b :c[1:3]:", "web[1:2]x:~[a:b]", " x ", "::", "a]:b[:c"] {
        for p in split_host_pattern(limit) {
            assert!(!p.is_empty() && p.trim() == p);
            assert_eq!(split_host_pattern(&p), [p.as_str()]);
        }
    }
    assert_eq!(split_host_pattern("a:b,c[1,2]"), ["a:b", "c[1", "2]"]);
    assert_eq!(split_host_pattern("a::b: :c"), ["a", "b", "c"]);
}

#[test]
fn the_written_order_of_patterns_does_not_matter() {
    let inv = inventory(FLEET);
    let picked = chosen(&inv, "web,&db,!db1");
    assert_eq!(picked, ["web1"]);
    assert_eq!(chosen(&inv, "!db1,&db,web"), picked);
    assert_eq!(chosen(&inv, "edge1,db"), chosen(&inv, "db,edge1"));
}

fn chosen(inv: &InventoryData, limit: &str) -> Vec<String> {
    let s = select_hosts(inv, limit);
    inv.host_names().into_iter().filter(|h| s.contains(h)).collect()
}

#[test]
fn limits_select_intersect_and_exclude() {
    let inv = inventory(FLEET);
    assert_eq!(chosen(&inv, "all"), ["web1", "web2", "edge1", "db1"]);
    assert_eq!(chosen(&inv, "web"), ["web1", "web2", "edge1"]);
    assert_eq!(chosen(&inv, "web1"), ["web1"]);
    assert_eq!(chosen(&inv, "web*"), ["web1", "web2", "edge1"]);
    assert_eq!(chosen(&inv, "db1,web2"), ["web2", "db1"]);
    assert_eq!(chosen(&inv, "web:&db"), ["web1"]);
    assert_eq!(chosen(&inv, "!web"), ["db1"]);
    assert_eq!(chosen(&inv, "!web1:web"), ["web2", "edge1"]);
    assert_eq!(chosen(&inv, "~^(db|edge)[0-9]$"), ["edge1", "db1"]);
    assert_eq!(chosen(&inv, "~("), Vec::<String>::new());
    assert_eq!(chosen(&inv, "nothing"), Vec::<String>::new());
    assert_eq!(chosen(&inv, "&db"), ["web1", "db1"]);
    assert_eq!(chosen(&inv, "h[!0]"), Vec::<String>::new());
}

#[test]
fn the_order_of_patterns_does_not_matter() {
    let inv = inventory(FLEET);
    for (a, b) in [("web:!edge:&db", "&db:!edge:web"), ("!db1:all", "all:!db1")] {
        assert_eq!(chosen(&inv, a), chosen(&inv, b));
    }
}

#[test]
fn matches_by_what_was_hit() {
    let inv = inventory(FLEET);
    assert_eq!(inv.group_names(), ["all", "ungrouped", "web", "edge", "db", "alone"]);
    let groups = vec![false, false, false, true, false, false];
    let hosts = vec![true, false, false, false];
    assert_eq!(match_hits(&inv, "edge", &groups, &hosts), ["web2", "edge1"]);
    assert_eq!(match_hits(&inv, "e*", &groups, &hosts), ["web2", "edge1", "web1"]);
    let none = vec![false; 6];
    assert_eq!(match_hits(&inv, "web1", &none, &hosts), ["web1"]);
}

#[test]
fn narrowing_a_selection() {
    let v = |names: &[&str]| names.iter().map(|s| s.to_string()).collect::<Vec<String>>();
    assert_eq!(narrow(v(&["a", "b"]), "!x", false, &v(&["b"])), ["a"]);
    assert_eq!(narrow(v(&["a", "b"]), "&x", false, &v(&["b", "c"])), ["b"]);
    assert_eq!(narrow(v(&["a", "b"]), "x", false, &v(&["b", "c"])), ["a", "b", "c"]);
    assert_eq!(narrow(v(&["a"]), "z", true, &v(&[])), ["a", "z"]);
    assert_eq!(narrow(v(&["z"]), "z", true, &v(&["q"])), ["z"]);
}

// --- constructed inventories -------------------------------------------------------------

fn no_floats() -> FloatTable {
    FloatTable::new()
}

#[test]
fn non_string_group_and_compose_values_are_coerced() {
    let value = doc(
        r#"{
        "plugin": "constructed",
        "groups": { "dpu": true, "off": false, "n": 1 },
        "compose": { "flag": true }
    }"#,
    );
    let cfg = Config::from_value(&value).expect("non-string scalars accepted");
    assert_eq!(cfg.groups.get("dpu").map(String::as_str), Some("True"));
    assert_eq!(cfg.groups.get("off").map(String::as_str), Some("False"));
    assert_eq!(cfg.groups.get("n").map(String::as_str), Some("1"));
    assert_eq!(cfg.compose.get("flag").map(String::as_str), Some("True"));
    let vars = VarMap::new();
    assert!(eval_condition(cfg.groups.get("dpu").unwrap(), &vars, &no_floats()).unwrap());
    assert!(!eval_condition(cfg.groups.get("off").unwrap(), &vars, &no_floats()).unwrap());
}

#[test]
fn container_group_value_is_rejected() {
    let value = doc(r#"{ "plugin": "constructed", "groups": { "bad": [1, 2] } }"#);
    assert!(Config::from_value(&value).is_err());
}

#[test]
fn configurations_that_are_wrong() {
    let wrong = |text: &str| Config::from_value(&doc(text)).unwrap_err();
    assert_eq!(
        wrong(r#"{"groups": {"bad": [1, 2]}}"#),
        "expected a string expression, found [1,2]"
    );
    assert_eq!(wrong(r#"{"strict": "yes"}"#), "invalid type: string \"yes\", expected a boolean");
    assert_eq!(wrong(r#"{"compose": 3}"#), "invalid type: integer `3`, expected a map");
    assert_eq!(wrong(r#"{"keyed_groups": {}}"#), "invalid type: map, expected a sequence");
    assert_eq!(wrong(r#"{"keyed_groups": [{"prefix": "p"}]}"#), "missing field `key`");
    assert_eq!(
        wrong(r#"{"keyed_groups": [{"key": null}]}"#),
        "invalid type: null, expected a string"
    );
    assert_eq!(
        wrong(r#"{"keyed_groups": [[]]}"#),
        "invalid length 0, expected struct KeyedGroup with 5 elements"
    );
    assert_eq!(
        wrong(r#"{"keyed_groups": [["k","p","s",null,null,1]]}"#),
        "invalid length 6, expected fewer elements in array"
    );
    assert_eq!(wrong("true"), "invalid type: boolean `true`, expected struct Config");
}

#[test]
fn configurations_and_their_defaults() {
    let c = Config::from_value(&doc(r#"{"keyed_groups": [{"key": "k", "extra": 1}, ["a", "b"]]}"#)).unwrap();
    assert!(!c.strict && c.leading_separator && c.trailing_separator);
    assert_eq!(c.keyed_groups[0].separator, "_");
    assert_eq!(c.keyed_groups[0].prefix, "");
    assert!(c.keyed_groups[0].default_value.is_none());
    assert_eq!((c.keyed_groups[1].key.as_str(), c.keyed_groups[1].prefix.as_str()), ("a", "b"));
    let c = Config::from_value(&doc(r#"[{"x": "1"}, [], {}, true]"#)).unwrap();
    assert!(c.strict);
    assert_eq!(c.compose.get("x").map(String::as_str), Some("1"));
    assert!(is_constructed(&doc(r#"{"plugin": "ansible.builtin.constructed"}"#)));
    assert!(!is_constructed(&doc(r#"{"plugin": "other"}"#)));
    assert!(!is_constructed(&doc("[]")));
}

const SITE: &str = r#"{"site": {"hosts": {
    "mon1": {"prometheus": true, "zone": "east-1a", "tags": ["x", 2, true]},
    "mon2": {"region": "west-2", "empty": ""}
}}}"#;

#[test]
fn construction_composes_then_groups() {
    let mut inv = inventory(SITE);
    let cfg = doc(
        r#"{
        "plugin": "constructed",
        "compose": {"region": "region | default(zone[:-1])", "zone": "zone | default(region + 'a')", "n": "1 + 1"},
        "groups": {"has-prom": "prometheus is defined", "never": "nope"},
        "keyed_groups": [
            {"key": "region", "prefix": "r", "parent_group": "regions"},
            {"key": "tags"},
            {"key": "empty", "prefix": "e", "default_value": "none"},
            {"key": "empty", "prefix": "f"},
            {"key": "undefined_key"}
        ]
    }"#,
    );
    apply(&mut inv, &cfg, &no_floats(), "c.yml").unwrap();
    let vars = |h: &str| to_js(&Value::Dict(resolve_host_inline_vars(&inv, h)));
    assert_eq!(vars("mon1")["region"], js(r#""east-1""#));
    assert_eq!(vars("mon2")["zone"], js(r#""west-2a""#));
    assert_eq!(vars("mon1")["n"], js(r#""2""#));
    assert_eq!(inv.group("has_prom").unwrap().hosts, ["mon1"]);
    assert!(inv.group("never").is_none());
    assert_eq!(inv.group("r_east_1").unwrap().hosts, ["mon1"]);
    assert_eq!(inv.group("regions").unwrap().children, ["r_east_1", "r_west_2"]);
    for g in ["_x", "_2", "_True"] {
        assert_eq!(inv.group(g).unwrap().hosts, ["mon1"], "{g}");
    }
    assert_eq!(inv.group("e_none").unwrap().hosts, ["mon2"]);
    assert_eq!(inv.group("f_").unwrap().hosts, ["mon2"]);
}

#[test]
fn construction_adds_no_host_and_needs_some() {
    let cfg = doc(r#"{"compose": {"x": "1"}, "groups": {"g": "true"}, "keyed_groups": [{"key": "'k'"}]}"#);
    let mut inv = inventory(SITE);
    apply(&mut inv, &cfg, &no_floats(), "c.yml").unwrap();
    assert_eq!(inv.host_names(), ["mon1", "mon2"]);
    assert_eq!(inv.group("g").unwrap().hosts, ["mon1", "mon2"]);
    assert!(inv.group("site").unwrap().vars.is_empty());
    let bad = doc(r#"{"compose": {"x": "1", "y": {"z": 1}}}"#);
    assert!(apply(&mut inv, &bad, &no_floats(), "c.yml").is_err());
    assert_eq!(inv.group_names(), ["all", "ungrouped", "site", "g", "_k"]);
    let mut empty = InventoryData::new();
    apply(&mut empty, &cfg, &no_floats(), "c.yml").unwrap();
    assert_eq!(empty.group_names(), ["all", "ungrouped"]);
}

#[test]
fn construction_does_not_see_files() {
    let mut inv = inventory(r#"{"g": {"hosts": {"h": {}}}}"#);
    add_host_file_vars(&mut inv, "h", &map(r#"{"role": "db"}"#));
    add_group_file_vars(&mut inv, "g", &map(r#"{"role": "db"}"#));
    let cfg = doc(r#"{"keyed_groups": [{"key": "role"}], "groups": {"seen": "role is defined"}}"#);
    apply(&mut inv, &cfg, &no_floats(), "c.yml").unwrap();
    assert_eq!(inv.group_names(), ["all", "ungrouped", "g"]);
}

#[test]
fn compositions_do_not_see_each_other() {
    let mut inv = inventory(r#"{"g": {"hosts": {"h": {"a": "1"}}}}"#);
    let cfg = doc(r#"{"compose": {"a": "a ~ 'x'", "b": "a ~ 'y'"}}"#);
    apply(&mut inv, &cfg, &no_floats(), "c.yml").unwrap();
    let vars = to_js(&Value::Dict(resolve_host_inline_vars(&inv, "h")));
    assert_eq!(vars, js(r#"{"a": "1x", "b": "1y"}"#));
}

#[test]
fn constructions_that_fail() {
    let fails = |cfg: &str| {
        let mut inv = inventory(SITE);
        match apply(&mut inv, &doc(cfg), &no_floats(), "c.yml") {
            Err(ApplyStop::Error(Error::Parse { path, msg })) => {
                assert_eq!(path, "c.yml");
                msg
            }
            other => panic!("{other:?}"),
        }
    };
    assert_eq!(
        fails(r#"{"strict": 1}"#),
        "invalid constructed config: invalid type: integer `1`, expected a boolean"
    );
    assert_eq!(
        fails(r#"{"compose": {"x": "y | nofilter"}}"#),
        "constructed compose[x]: \"y | nofilter\": unsupported filter `nofilter`"
    );
    assert_eq!(
        fails(r#"{"compose": {"x": "nope"}, "strict": true}"#),
        "constructed compose[x]: \"nope\": result is undefined"
    );
    assert_eq!(fails(r#"{"groups": {"g": "("}}"#), "constructed groups[g]: \"(\": unexpected token None");
    assert_eq!(
        fails(r#"{"keyed_groups": [{"key": ")"}]}"#),
        "constructed keyed_groups: \")\": unexpected token Some(RParen)"
    );
    let mut inv = inventory(r#"{"g": {"hosts": {"h": {"d": {"k": 1}, "l": [[1]]}}}}"#);
    let r = apply(&mut inv, &doc(r#"{"keyed_groups": [{"key": "d"}]}"#), &no_floats(), "c.yml");
    assert!(matches!(r, Err(ApplyStop::Error(Error::Parse { msg, .. }))
        if msg == "constructed keyed_groups key \"d\": dict-valued keys are not supported"));
    let r = apply(&mut inv, &doc(r#"{"keyed_groups": [{"key": "l"}]}"#), &no_floats(), "c.yml");
    assert!(matches!(r, Err(ApplyStop::Error(Error::Parse { msg, .. }))
        if msg == "constructed keyed_groups key \"l\": list elements must be scalars"));
}

#[test]
fn a_question_about_floats_leaves_the_inventory_alone() {
    let mut inv = inventory(SITE);
    let cfg = doc(r#"{"compose": {"zone": "'changed'"}, "groups": {"g": "1 / 2 > 0"}}"#);
    assert!(matches!(apply(&mut inv, &cfg, &no_floats(), "c.yml"), Err(ApplyStop::NeedFloat(_))));
    assert_eq!(
        to_js(resolve_host_inline_vars(&inv, "mon1").get("zone").unwrap()),
        js(r#""east-1a""#)
    );
    assert!(inv.group("g").is_none());
    let cfg = doc(r#"{"groups": {"g": "2 ** 64 > 0"}}"#);
    assert!(matches!(apply(&mut inv, &cfg, &no_floats(), "c.yml"), Err(ApplyStop::Overflow)));
}

#[test]
fn names_of_keyed_groups() {
    assert_eq!(group_name("p", "_", "x-y", true), "p_x_y");
    assert_eq!(group_name("", "_", "x", true), "_x");
    assert_eq!(group_name("", "_", "x", false), "x");
    assert_eq!(group_name("p", "", "1", false), "p1");
    let rule = &Config::from_value(&doc(r#"{"keyed_groups": [{"key": "k"}]}"#)).unwrap().keyed_groups[0];
    assert_eq!(bare_names(&Value::Text("a".into()), rule, true).unwrap(), ["a"]);
    assert_eq!(bare_names(&doc("[1, true]"), rule, true).unwrap(), ["1", "True"]);
    assert_eq!(bare_names(&Value::Null, rule, true).unwrap(), [""]);
    assert!(bare_names(&Value::Null, rule, false).unwrap().is_empty());
    assert_eq!(bare_names(&doc("1.5"), rule, false).unwrap(), ["1.5"]);
}
