//! Names, enabled kinds, host ranges, literals, and values.

use fleets::enabled::EnabledKinds;
use fleets::error::Error;
use fleets::hostrange::{expand_hostname_range, expand_hostpattern, split_port};
use fleets::literal_eval::{literal_eval, number_value};
use fleets::sanitize::to_safe_group_name;
use fleets::serialize::{sort_keys, sort_names, strip_nulls, to_json, to_toml, to_yaml, toml_result, yaml_result};
use fleets::text::{alphabetic, alphanumeric, byte_len, chars_of, debug_of_char, debug_str, parse_i64, space};
use fleets::value::{int_value, Number, Value, VarMap};

fn js(text: &str) -> serde_json::Value {
    serde_json::from_str(text).unwrap()
}

fn to_js(v: &Value) -> serde_json::Value {
    js(&v.to_json_text())
}

fn from_js(v: &serde_json::Value) -> Value {
    match v {
        serde_json::Value::Null => Value::Null,
        serde_json::Value::Bool(b) => Value::Bool(*b),
        serde_json::Value::Number(n) => Value::Number(match (n.as_u64(), n.as_i64()) {
            (Some(u), _) => Number::PosInt(u),
            (None, Some(i)) => Number::NegInt(i),
            _ => Number::Float(n.to_string()),
        }),
        serde_json::Value::String(s) => Value::Text(s.clone()),
        serde_json::Value::Array(a) => Value::List(a.iter().map(from_js).collect()),
        serde_json::Value::Object(o) => {
            let mut m = VarMap::new();
            for (k, v) in o {
                m.insert(k.clone(), from_js(v));
            }
            Value::Dict(m)
        }
    }
}

fn le(s: &str) -> Option<serde_json::Value> {
    literal_eval(s).map(|v| to_js(&v))
}

// --- enabled kinds -----------------------------------------------------------------------

#[test]
fn default_enables_every_supported_kind() {
    let k = EnabledKinds::default();
    assert!(k.yaml && k.ini && k.toml && k.script && k.auto);
}

#[test]
fn parse_enables_only_listed_kinds() {
    let k = EnabledKinds::parse("yaml,ini");
    assert!(k.yaml && k.ini);
    assert!(!k.toml && !k.script && !k.auto);
}

#[test]
fn parse_is_order_and_whitespace_insensitive() {
    let k = EnabledKinds::parse("  auto , script ");
    assert!(k.auto && k.script);
    assert!(!k.yaml && !k.ini && !k.toml);
}

#[test]
fn parse_ignores_unknown_and_unsupported_plugins() {
    let k = EnabledKinds::parse("host_list,script,auto,yaml,ini,toml,nmap,advanced_host_list");
    assert!(k.yaml && k.ini && k.toml && k.script && k.auto);
}

#[test]
fn parse_empty_disables_everything() {
    let k = EnabledKinds::parse("");
    assert!(!k.yaml && !k.ini && !k.toml && !k.script && !k.auto);
}

#[test]
fn an_unset_list_enables_everything() {
    let k = EnabledKinds::from_env(None);
    assert!(k.yaml && k.ini && k.toml && k.script && k.auto);
    let k = EnabledKinds::from_env(Some("toml"));
    assert!(!k.yaml && !k.ini && k.toml && !k.script && !k.auto);
}

#[test]
fn the_order_of_a_list_does_not_matter() {
    let a = EnabledKinds::parse("yaml,toml,auto");
    let b = EnabledKinds::parse("auto,toml,yaml,toml");
    assert_eq!((a.yaml, a.ini, a.toml, a.script, a.auto), (b.yaml, b.ini, b.toml, b.script, b.auto));
}

// --- host ranges -------------------------------------------------------------------------

#[test]
fn numeric_zero_padded() {
    let (h, _) = expand_hostpattern("web[01:03].x").unwrap();
    assert_eq!(h, ["web01.x", "web02.x", "web03.x"]);
}

#[test]
fn step_and_unpadded() {
    assert_eq!(expand_hostname_range("n[1:5:2]").unwrap(), ["n1", "n3", "n5"]);
}

#[test]
fn alpha_range() {
    assert_eq!(expand_hostname_range("h[a:c]").unwrap(), ["ha", "hb", "hc"]);
}

#[test]
fn port_split() {
    assert_eq!(split_port("web01:2222"), ("web01".into(), Some(2222)));
    assert_eq!(split_port("web[01:03].x"), ("web[01:03].x".into(), None));
    assert_eq!(split_port("web[01:03]:22"), ("web[01:03]".into(), Some(22)));
}

#[test]
fn a_port_splits_off_again() {
    for port in [0u32, 7, 22, 65536, u32::MAX] {
        for host in ["h", "a.b-c", "web[1:3]", ""] {
            assert_eq!(split_port(&format!("{host}:{port}")), (host.to_string(), Some(port)));
        }
    }
}

#[test]
fn ports_that_are_none() {
    assert_eq!(split_port("h:99999999999"), ("h:99999999999".into(), None));
    assert_eq!(split_port("h:4294967295"), ("h".into(), Some(4294967295)));
    assert_eq!(split_port("h:22x"), ("h:22x".into(), None));
    assert_eq!(split_port("h:"), ("h:".into(), None));
    assert_eq!(split_port("fe80::1"), ("fe80:".into(), Some(1)));
    assert_eq!(split_port("[a:1"), ("[a:1".into(), None));
}

#[test]
fn ranges_of_all_kinds() {
    assert_eq!(
        expand_hostname_range("r[1:2]-[a:b]").unwrap(),
        ["r1-a", "r1-b", "r2-a", "r2-b"]
    );
    assert_eq!(expand_hostname_range("n[:2]").unwrap(), ["n0", "n1", "n2"]);
    assert_eq!(expand_hostname_range("n[3:1]").unwrap(), Vec::<String>::new());
    assert_eq!(expand_hostname_range("n[9:11]").unwrap(), ["n9", "n10", "n11"]);
    assert_eq!(expand_hostname_range("n[08:10]").unwrap(), ["n08", "n09", "n10"]);
    assert_eq!(expand_hostname_range("n[a:e:2]").unwrap(), ["na", "nc", "ne"]);
    assert_eq!(expand_hostname_range("n[y:B]").unwrap(), ["ny", "nz", "nA", "nB"]);
    assert_eq!(expand_hostname_range("n[a:c:-1]").unwrap(), Vec::<String>::new());
    assert_eq!(expand_hostname_range("n[-1:1]").unwrap(), ["n-1", "n0", "n1"]);
    assert_eq!(expand_hostname_range("a|1:2|b").unwrap(), ["a1b", "a2b"]);
}

fn range_message(line: &str) -> String {
    match expand_hostname_range(line) {
        Err(Error::Parse { path, msg }) => {
            assert_eq!(path, "<host range>");
            msg
        }
        other => panic!("{other:?}"),
    }
}

#[test]
fn ranges_that_are_wrong() {
    assert_eq!(range_message("n[1:2"), "host range is malformed");
    assert_eq!(range_message("n[1]"), "host range must be begin:end or begin:end:step");
    assert_eq!(range_message("n[1:2:3:4]"), "host range must be begin:end or begin:end:step");
    assert_eq!(range_message("n[1:]"), "host range must specify end value");
    assert_eq!(range_message("n[1:2:x]"), "invalid step in host range");
    assert_eq!(range_message("n[1:2:0]"), "host range step cannot be zero");
    assert_eq!(
        range_message("n[01:100]"),
        "host range must specify equal-length begin and end formats"
    );
    assert_eq!(range_message("n[c:a]"), "host range must have begin <= end");
    assert_eq!(range_message("n[x1:5]"), "invalid begin in host range");
    assert_eq!(range_message("n[1:x5]"), "invalid end in host range");

    assert!(expand_hostname_range("n[1:5:-1]").unwrap().is_empty());
    assert_eq!(
        expand_hostname_range("n[9223372036854775806:9223372036854775807]").unwrap(),
        ["n9223372036854775806", "n9223372036854775807"]
    );
}

#[test]
fn no_bracket_is_left_in_an_expanded_name() {
    for line in ["r[1:3][a:b].x", "[1:2]", "a[0:1]b[01:02]c[x:z]"] {
        for host in expand_hostname_range(line).unwrap() {
            assert!(!host.contains('['), "{host}");
        }
    }
}

// --- names -------------------------------------------------------------------------------

#[test]
fn replaces_dashes_and_dots() {
    assert_eq!(to_safe_group_name("web-servers"), "web_servers");
    assert_eq!(to_safe_group_name("web.east"), "web_east");
}

#[test]
fn replaces_leading_digit_only() {
    assert_eq!(to_safe_group_name("1web"), "_web");
    assert_eq!(to_safe_group_name("web1"), "web1");
    assert_eq!(to_safe_group_name("w1b"), "w1b");
}

#[test]
fn keeps_clean_names() {
    assert_eq!(to_safe_group_name("all"), "all");
    assert_eq!(to_safe_group_name("web_servers_2"), "web_servers_2");
}

#[test]
fn empty_passthrough() {
    assert_eq!(to_safe_group_name(""), "");
}

#[test]
fn sanitizing_twice_is_sanitizing_once() {
    for raw in ["9-é b", "", "__x", "1", "a.b.c"] {
        let once = to_safe_group_name(raw);
        assert_eq!(to_safe_group_name(&once), once);
        assert_eq!(once.chars().count(), raw.chars().count());
    }
}

// --- literals ----------------------------------------------------------------------------

#[test]
fn scalars() {
    assert_eq!(le("1"), Some(js("1")));
    assert_eq!(le("1.0"), Some(js("1.0")));
    assert_eq!(le("True"), Some(js("true")));
    assert_eq!(le("False"), Some(js("false")));
    assert_eq!(le("None"), Some(js("null")));
    assert_eq!(le("-5"), Some(js("-5")));
}

#[test]
fn strings_and_fallbacks() {
    assert_eq!(le("'hello'"), Some(js(r#""hello""#)));
    assert_eq!(le("\"hi\""), Some(js(r#""hi""#)));
    assert_eq!(le("foo"), None);
    assert_eq!(le("01"), None);
    assert_eq!(le("8.8.8.8"), None);
}

#[test]
fn collections() {
    assert_eq!(le("[1, 2, 3]"), Some(js("[1, 2, 3]")));
    assert_eq!(le("(1, 'a')"), Some(js(r#"[1, "a"]"#)));
    assert_eq!(le("{'a': 1, 'b': [2, 3]}"), Some(js(r#"{"a": 1, "b": [2, 3]}"#)));
    assert_eq!(le("[]"), Some(js("[]")));
}

#[test]
fn literals_at_the_edges() {
    assert_eq!(le(" [ 1 , ] "), Some(js("[1]")));
    assert_eq!(le("{1: 'x', True: 2, 'k': None,}"), Some(js(r#"{"1": "x", "True": 2, "k": null}"#)));
    assert_eq!(le("{None: 1, False: 2, 1.50: 3}"), Some(js(r#"{"None": 1, "False": 2, "1.5": 3}"#)));
    assert_eq!(le("{}"), Some(js("{}")));
    assert_eq!(le(r"'a\n\t\r\\\'\q'"), Some(serde_json::Value::String("a\n\t\r\\'q".into())));
    assert_eq!(le("'open"), None);
    assert_eq!(le("[1 2]"), None);
    assert_eq!(le("{1 2}"), None);
    assert_eq!(le("1 2"), None);
    assert_eq!(le(""), None);
    assert_eq!(le("9223372036854775807"), Some(js("9223372036854775807")));
    assert_eq!(le("9223372036854775808"), None);
    assert_eq!(le("+5"), Some(js("5")));
    assert_eq!(le("-0"), Some(js("0")));
    assert_eq!(le("1e3"), Some(js("1000.0")));
    assert_eq!(le("1e999"), None);
    assert_eq!(le("."), None);
}

#[test]
fn a_number_by_what_it_reads_as() {
    let float = |t: &str| Some(Some(t.to_string()));
    assert_eq!(number_value("1.50", float("1.5")).map(|v| to_js(&v)), Some(js("1.5")));
    assert!(number_value("1.50", None).is_none());
    assert!(number_value("1.50", Some(None)).is_none());
    assert_eq!(number_value("7", float("7.0")).map(|v| to_js(&v)), Some(js("7")));
    assert!(number_value("x", float("1.0")).is_none());
}

#[test]
fn integers_read_back_what_they_write() {
    for n in [0i64, 1, -1, 42, i64::MAX, i64::MIN, 1_000_000] {
        assert_eq!(parse_i64(&n.to_string()), Some(n));
        assert_eq!(le(&n.to_string()), Some(js(&n.to_string())));
    }
    assert_eq!(parse_i64("9223372036854775808"), None);
    assert_eq!(parse_i64("-9223372036854775809"), None);
    assert_eq!(parse_i64("+3"), Some(3));
    assert_eq!(parse_i64("-"), None);
    assert_eq!(parse_i64(""), None);
    assert_eq!(parse_i64("1_0"), None);
}

#[test]
fn quoted_texts_read_back() {
    for t in ["", "a b", "1", "it's", "[x]", "é"] {
        assert_eq!(le(&format!("\"{t}\"")), Some(serde_json::Value::String(t.into())));
    }
    for zeros in ["00", "007", "01"] {
        assert_eq!(le(zeros), None);
    }
}

// --- text --------------------------------------------------------------------------------

#[test]
fn character_classes_are_those_of_the_standard_library() {
    for n in 0..=0x10ffffu32 {
        if let Some(c) = char::from_u32(n) {
            assert_eq!(space(c), c.is_whitespace(), "{n:x}");
            assert_eq!(alphabetic(c), c.is_alphabetic(), "{n:x}");
            assert_eq!(alphanumeric(c), c.is_alphanumeric(), "{n:x}");
        }
    }
}

#[test]
fn quoting_is_that_of_the_standard_library() {
    for n in (0..0x250u32).chain(0x2020..0x2040) {
        if let Some(c) = char::from_u32(n) {
            let s = format!("a{c}b");
            assert_eq!(debug_str(&s), format!("{s:?}"));
            assert_eq!(debug_of_char(c), format!("{c:?}"));
            assert_eq!(byte_len(&chars_of(&s)), s.len() as u128);
        }
    }
}

#[test]
fn names_sort_by_code_point() {
    let v: Vec<String> = ["~constructed.yml", "zeta.yml", "Alpha.yml", "alpha.yml", "é.yml", "10", "9"]
        .iter()
        .map(|s| s.to_string())
        .collect();
    let mut expected = v.clone();
    expected.sort();
    assert_eq!(sort_names(&v), expected);
    assert_eq!(expected[5], "~constructed.yml");
}

// --- values ------------------------------------------------------------------------------

#[test]
fn maps_keep_their_order() {
    let mut m = VarMap::new();
    for k in ["a", "b", "c", "d"] {
        m.insert(k.into(), Value::Text(k.into()));
    }
    m.insert("b".into(), int_value(2));
    assert_eq!(Value::Dict(m.clone()).to_json_text(), r#"{"a":"a","b":2,"c":"c","d":"d"}"#);
    m.remove("a");
    assert_eq!(Value::Dict(m.clone()).to_json_text(), r#"{"d":"d","b":2,"c":"c"}"#);
    m.remove("zzz");
    assert_eq!(m.len(), 3);
    let mut reference: serde_json::Map<String, serde_json::Value> =
        js(r#"{"a":"a","b":2,"c":"c","d":"d"}"#).as_object().unwrap().clone();
    reference.remove("a");
    assert_eq!(
        serde_json::Value::Object(reference).to_string(),
        Value::Dict(m).to_json_text()
    );
}

#[test]
fn equality_of_values() {
    let eq = |a: &str, b: &str| from_js(&js(a)).same_as(&from_js(&js(b)));
    for (a, b) in [
        ("1", "1"),
        ("1", "1.0"),
        ("0.0", "-0.0"),
        ("[1, 2]", "[2, 1]"),
        (r#"{"a": 1, "b": 2}"#, r#"{"b": 2, "a": 1}"#),
        (r#"{"a": 1}"#, r#"{"a": 2}"#),
        (r#"{"a": 1}"#, r#"{"b": 1}"#),
        ("null", "false"),
        (r#""a""#, r#""a""#),
    ] {
        assert_eq!(eq(a, b), js(a) == js(b), "{a} {b}");
    }
}

const DOCUMENT: &str = r#"{
    "b": [1, -2, 1.5, 1e300, null, true, "q\"\\\u0001\n\t\u0008\u000c\r/é"],
    "a": {"z": {}, "y": [], "x": null, "n": {"k": null, "j": [null, 1]}},
    "A": 18446744073709551615
}"#;

#[test]
fn compact_json_is_that_of_serde_json() {
    let v = js(DOCUMENT);
    assert_eq!(from_js(&v).to_json_text(), v.to_string());
}

#[test]
fn printed_json_is_that_of_serde_json() {
    let v = js(DOCUMENT);
    let sorted = js(r#"{
        "A": 18446744073709551615,
        "a": {"n": {"j": [null, 1], "k": null}, "x": null, "y": [], "z": {}},
        "b": [1, -2, 1.5, 1e300, null, true, "q\"\\\u0001\n\t\u0008\u000c\r/é"]
    }"#);
    let mut buf = Vec::new();
    let formatter = serde_json::ser::PrettyFormatter::with_indent(b"    ");
    let mut ser = serde_json::Serializer::with_formatter(&mut buf, formatter);
    serde::Serialize::serialize(&sorted, &mut ser).unwrap();
    assert_eq!(to_json(&from_js(&v)), String::from_utf8(buf).unwrap());
}

#[test]
fn yaml_is_that_of_noyalib() {
    let v = from_js(&js(r#"{"b": [1, "yes", null], "a": {"z": 1.5, "y": {}}}"#));
    let sorted = js(r#"{"a": {"y": {}, "z": 1.5}, "b": [1, "yes", null]}"#);
    assert_eq!(to_yaml(&v).unwrap(), noyalib::to_string(&sorted).unwrap());
    let mut deep = Value::Null;
    for _ in 0..400 {
        deep = Value::List(vec![deep]);
    }
    let e = to_yaml(&deep).unwrap_err().message();
    assert!(e.starts_with("parsing <output>: cannot represent inventory as YAML: "), "{e}");
}

#[test]
fn toml_is_that_of_toml() {
    let v = from_js(&js(r#"{"b": {"d": [1, null], "c": null}, "a": "x"}"#));
    let bare: toml::Value = toml::Value::try_from(js(r#"{"b": {"d": [1]}, "a": "x"}"#)).unwrap();
    assert_eq!(to_toml(&v).unwrap(), toml::to_string_pretty(&bare).unwrap());
    assert_eq!(to_toml(&v).unwrap(), "a = \"x\"\n\n[b]\nd = [1]\n");
    let e = to_toml(&from_js(&js("18446744073709551615"))).unwrap_err().message();
    assert!(e.starts_with("parsing <output>: cannot "), "{e}");
    let e = to_toml(&Value::Null).unwrap_err().message();
    assert!(e.starts_with("parsing <output>: cannot represent inventory as TOML: "), "{e}");
}

#[test]
fn outputs_that_could_not_be_written() {
    assert_eq!(yaml_result(Ok("t".into())).unwrap(), "t");
    assert_eq!(
        yaml_result(Err("deep".into())).unwrap_err().message(),
        "parsing <output>: cannot represent inventory as YAML: deep"
    );
    assert_eq!(toml_result(Ok(Ok("t".into()))).unwrap(), "t");
    assert_eq!(
        toml_result(Ok(Err("why".into()))).unwrap_err().message(),
        "parsing <output>: cannot serialize TOML: why"
    );
    assert_eq!(
        toml_result(Err("null".into())).unwrap_err().message(),
        "parsing <output>: cannot represent inventory as TOML: null"
    );
}

#[test]
fn keys_are_sorted_at_every_depth() {
    let v = from_js(&js(r#"{"b": [{"d": 1, "c": 2}], "a": 0}"#));
    assert_eq!(sort_keys(&v).to_json_text(), r#"{"a":0,"b":[{"c":2,"d":1}]}"#);
    assert_eq!(sort_keys(&sort_keys(&v)).to_json_text(), sort_keys(&v).to_json_text());
}

#[test]
fn nulls_are_stripped_at_every_depth() {
    let v = from_js(&js(DOCUMENT));
    let s = strip_nulls(&v);
    assert!(!s.to_json_text().contains("null"));
    assert_eq!(strip_nulls(&s).to_json_text(), s.to_json_text());
    assert_eq!(strip_nulls(&Value::Null).to_json_text(), "null");
    let kept = from_js(&js(r#"{"a": [null, 1, {"b": null}]}"#));
    assert_eq!(strip_nulls(&kept).to_json_text(), r#"{"a":[1,{}]}"#);
}

#[test]
fn errors_in_words() {
    let e = Error::Io { path: "p".into(), msg: "gone".into() };
    assert_eq!(e.message(), "reading p: gone");
    let e = Error::Parse { path: "p".into(), msg: "bad".into() };
    assert_eq!(e.message(), "parsing p: bad");
    let e = Error::UnsupportedSource { path: "p".into(), ext: "x\"y".into() };
    assert_eq!(e.message(), "unsupported inventory source p (extension \"x\\\"y\")");
    assert_eq!(Error::NotFound("nothing".into()).message(), "nothing");
}
