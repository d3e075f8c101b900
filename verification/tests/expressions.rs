//! Expressions: the language, its failures, and its numbers.

use fleets::expr::ast::Ast;
use fleets::expr::eval::apply_filter;
use fleets::expr::number::{EvalError, FloatAnswer, FloatOp, FloatQuery, FloatTable};
use fleets::expr::ops::truthy;
use fleets::expr::{coerce_computed, eval_compose, eval_condition, eval_key, is_bare_var, EvalStop};
use fleets::value::{int_value, Number, Value, VarMap};

fn js(text: &str) -> serde_json::Value {
    serde_json::from_str(text).unwrap()
}

fn to_js(v: &Value) -> serde_json::Value {
    js(&v.to_json_text())
}

fn from_js(v: &serde_json::Value) -> Value {
    match v {
        serde_json::Value::Null => Value::Null,
        serde_json::Value::Bool(b) => Value::Bool(*b),
        serde_json::Value::Number(n) => Value::Number(match (n.as_u64(), n.as_i64()) {
            (Some(u), _) => Number::PosInt(u),
            (None, Some(i)) => Number::NegInt(i),
            _ => Number::Float(n.to_string()),
        }),
        serde_json::Value::String(s) => Value::Text(s.clone()),
        serde_json::Value::Array(a) => Value::List(a.iter().map(from_js).collect()),
        serde_json::Value::Object(o) => Value::Dict(map_of(o)),
    }
}

fn map_of(o: &serde_json::Map<String, serde_json::Value>) -> VarMap {
    let mut m = VarMap::new();
    for (k, v) in o {
        m.insert(k.clone(), from_js(v));
    }
    m
}

fn finite(f: f64) -> FloatAnswer {
    match serde_json::Number::from_f64(f) {
        Some(n) => FloatAnswer::Finite(n.to_string()),
        None => FloatAnswer::NonFinite,
    }
}

/// Quotient and remainder of a floor division, as Python has them.
fn floor_parts(a: f64, b: f64) -> (f64, f64) {
    let rest = a % b;
    if rest == 0.0 {
        (((a - rest) / b).round(), 0f64.copysign(b))
    } else if (rest < 0.0) == (b < 0.0) {
        (((a - rest) / b).round(), rest)
    } else {
        (((a - rest) / b).round() - 1.0, rest + b)
    }
}

fn answer(q: &FloatQuery) -> FloatAnswer {
    let a: f64 = q.left.parse().unwrap();
    let b: f64 = q.right.parse().unwrap();
    match q.op {
        FloatOp::Add => finite(a + b),
        FloatOp::Sub => finite(a - b),
        FloatOp::Mul => finite(a * b),
        FloatOp::Div => finite(a / b),
        FloatOp::FloorDiv => finite(floor_parts(a, b).0),
        FloatOp::Mod => finite(floor_parts(a, b).1),
        FloatOp::Pow => finite(a.powf(b)),
        FloatOp::Order => {
            if a < b {
                FloatAnswer::Less
            } else if a == b {
                FloatAnswer::Equal
            } else {
                FloatAnswer::Greater
            }
        }
    }
}

/// Runs an evaluation, answering its questions about floats.
fn answered<T>(run: impl Fn(&FloatTable) -> Result<T, EvalStop>) -> Result<T, String> {
    let mut table = FloatTable::new();
    loop {
        match run(&table) {
            Ok(v) => return Ok(v),
            Err(EvalStop::NeedFloat(q)) => {
                let a = answer(&q);
                table.learn(q, a);
            }
            Err(EvalStop::Error(e)) => return Err(e.0),
            Err(EvalStop::Overflow) => panic!("integer overflow"),
        }
    }
}

fn vars() -> VarMap {
    let v = js(r#"{
        "lockdown": "Restricted",
        "region": "us-east-01",
        "zone": "us-east-01a",
        "tier": "gold",
        "count": 3,
        "enabled": true,
        "facts": {"os": "linux"},
        "roles": ["db", "cache"]
    }"#);
    map_of(v.as_object().unwrap())
}

fn try_key(s: &str) -> Result<Option<serde_json::Value>, String> {
    answered(|t| eval_key(s, &vars(), t)).map(|o| o.map(|v| to_js(&v)))
}

fn key(s: &str) -> Option<serde_json::Value> {
    try_key(s).unwrap()
}

fn cond(s: &str) -> bool {
    answered(|t| eval_condition(s, &vars(), t)).unwrap()
}

fn try_comp(s: &str, v: &VarMap, strict: bool) -> Result<Option<serde_json::Value>, String> {
    answered(|t| eval_compose(s, v, strict, t)).map(|o| o.map(|v| to_js(&v)))
}

fn comp(s: &str) -> Option<serde_json::Value> {
    try_comp(s, &vars(), false).unwrap()
}

#[test]
fn bare_var_and_filters() {
    assert_eq!(key("lockdown"), Some(js(r#""Restricted""#)));
    assert_eq!(key("lockdown | lower"), Some(js(r#""restricted""#)));
    assert_eq!(key("region | upper"), Some(js(r#""US-EAST-01""#)));
    assert_eq!(key("count | string"), Some(js(r#""3""#)));
}

#[test]
fn dotted_path() {
    assert_eq!(key("facts.os"), Some(js(r#""linux""#)));
    assert_eq!(key("facts.missing"), None);
}

#[test]
fn undefined_key_is_none() {
    assert_eq!(key("nope"), None);
    assert_eq!(key("nope | lower"), None);
    assert_eq!(key("nope | default('fallback')"), Some(js(r#""fallback""#)));
}

#[test]
fn conditions() {
    assert!(cond("lockdown is defined"));
    assert!(!cond("nope is defined"));
    assert!(cond("nope is not defined"));
    assert!(cond("nope is undefined"));
    assert!(cond("tier == 'gold'"));
    assert!(!cond("tier == 'silver'"));
    assert!(cond("tier != 'silver'"));
    assert!(cond("count > 1"));
    assert!(!cond("count > 5"));
    assert!(cond("'db' in roles"));
    assert!(cond("'x' not in roles"));
    assert!(cond("enabled and tier is defined"));
    assert!(cond("nope is defined or count == 3"));
    assert!(cond("not (nope is defined)"));
    assert!(cond("lockdown != 'disabled'"));
}

#[test]
fn undefined_in_condition_is_false_not_error() {
    assert!(!cond("nope"));
    assert!(!cond("nope and enabled"));
}

#[test]
fn arithmetic_and_concat() {
    assert_eq!(key("count + 1"), Some(js("4")));
    assert_eq!(key("count - 5"), Some(js("-2")));
    assert_eq!(key("count * 2"), Some(js("6")));
    assert_eq!(key("count / 2"), Some(js("1.5")));
    assert_eq!(key("count // 2"), Some(js("1")));
    assert_eq!(key("count % 2"), Some(js("1")));
    assert_eq!(key("count ** 2"), Some(js("9")));
    assert_eq!(key("-count"), Some(js("-3")));
    assert_eq!(key("region + 'a'"), Some(js(r#""us-east-01a""#)));
    assert_eq!(key("'r' ~ count"), Some(js(r#""r3""#)));
    assert_eq!(key("'A' + tier | upper"), Some(js(r#""AGOLD""#)));
}

#[test]
fn slicing_and_indexing() {
    assert_eq!(key("zone[:-1]"), Some(js(r#""us-east-01""#)));
    assert_eq!(key("zone[0]"), Some(js(r#""u""#)));
    assert_eq!(key("zone[-1]"), Some(js(r#""a""#)));
    assert_eq!(key("zone[0:2]"), Some(js(r#""us""#)));
    assert_eq!(key("roles[1]"), Some(js(r#""cache""#)));
    assert_eq!(key("roles[::-1]"), Some(js(r#"["cache", "db"]"#)));
    assert_eq!(key("roles[9]"), None);
}

#[test]
fn broadened_filters() {
    assert_eq!(key("zone | replace('-', '_')"), Some(js(r#""us_east_01a""#)));
    assert_eq!(key("zone | regex_replace('[0-9]+', 'N')"), Some(js(r#""us-east-Na""#)));
    assert_eq!(key("'  hi  ' | trim"), Some(js(r#""hi""#)));
    assert_eq!(key("tier | capitalize"), Some(js(r#""Gold""#)));
    assert_eq!(key("roles | length"), Some(js("2")));
    assert_eq!(key("roles | first"), Some(js(r#""db""#)));
    assert_eq!(key("roles | last"), Some(js(r#""cache""#)));
    assert_eq!(key("roles | join('-')"), Some(js(r#""db-cache""#)));
    assert_eq!(key("count | float"), Some(js("3.0")));
    assert_eq!(key("-count | abs"), Some(js("-3")));
    assert_eq!(key("(0 - count) | abs"), Some(js("3")));
}

#[test]
fn conditional_expression() {
    assert_eq!(key("'a' if (count == 3) else 'b'"), Some(js(r#""a""#)));
    assert_eq!(key("'a' if (count == 5) else 'b'"), Some(js(r#""b""#)));
    assert_eq!(key("'a' if count == 3 else 'b'"), Some(js(r#""a""#)));
    assert_eq!(key("'on' if enabled else 'off'"), Some(js(r#""on""#)));
    assert_eq!(key("'a' if nope else 'b'"), Some(js(r#""b""#)));
    assert_eq!(key("'a' if count == 3 else nope"), Some(js(r#""a""#)));
    assert_eq!(key("nope if count == 5 else 'b'"), Some(js(r#""b""#)));
    assert_eq!(key("'a' if count == 5"), None);
    assert_eq!(key("'a' if count == 3"), Some(js(r#""a""#)));
    assert_eq!(
        key("'high' if count > 5 else 'mid' if count > 1 else 'low'"),
        Some(js(r#""mid""#))
    );
    assert_eq!(key("('a' if enabled else 'b') | upper"), Some(js(r#""A""#)));
    assert_eq!(key("nope | default('y' if enabled else 'n')"), Some(js(r#""y""#)));
    assert!(try_key("'a' if").is_err());
    assert!(try_key("'a' if count == 3 else").is_err());
}

#[test]
fn ternary_filter() {
    assert_eq!(key("enabled | ternary('on', 'off')"), Some(js(r#""on""#)));
    assert_eq!(key("(count > 5) | ternary('big', 'small')"), Some(js(r#""small""#)));
    assert_eq!(key("tier | ternary('set', 'unset')"), Some(js(r#""set""#)));
    assert_eq!(key("nope | ternary('yes', 'no')"), Some(js(r#""no""#)));
    assert_eq!(key("enabled | ternary('yes', nope)"), Some(js(r#""yes""#)));
    assert_eq!(
        key("missing | default(none) | ternary('t', 'f', 'n')"),
        Some(js(r#""n""#))
    );
    assert_eq!(key("missing | default(none) | ternary('t', 'f')"), Some(js(r#""f""#)));
    assert_eq!(
        key("(count > 5) | ternary('high', (count > 1) | ternary('mid', 'low'))"),
        Some(js(r#""mid""#))
    );
    assert!(try_key("enabled | ternary('only')").is_err());
    assert!(try_key("enabled | ternary('a', 'b', 'c', 'd')").is_err());
}

#[test]
fn compose_coercion() {
    assert_eq!(comp("count"), Some(js("3")));
    assert_eq!(comp("count + 1"), Some(js(r#""4""#)));
    assert_eq!(comp("(count)"), Some(js(r#""3""#)));
    assert_eq!(comp("roles | length"), Some(js(r#""2""#)));
    assert_eq!(comp("count > 1"), Some(js("true")));
    assert_eq!(comp("roles[::-1]"), Some(js(r#"["cache", "db"]"#)));
    assert_eq!(comp("nothing | default(none)"), Some(js(r#""""#)));
}

#[test]
fn compose_default_chains() {
    let mut v = vars();
    v.remove("region");
    assert_eq!(
        try_comp("region | default(zone[:-1])", &v, false).unwrap(),
        Some(js(r#""us-east-01""#))
    );
    let mut v = vars();
    v.remove("zone");
    assert_eq!(
        try_comp("zone | default(region + 'a')", &v, false).unwrap(),
        Some(js(r#""us-east-01a""#))
    );
}

#[test]
fn compose_strict_skip_vs_error() {
    let mut v = vars();
    v.remove("region");
    v.remove("zone");
    assert_eq!(try_comp("region | default(zone[:-1])", &v, false).unwrap(), None);
    assert_eq!(try_comp("region + count", &vars(), false).unwrap(), None);
    assert!(try_comp("region + count", &vars(), true).is_err());
}

#[test]
fn unsupported_expressions_error_loudly() {
    assert!(try_comp("name | madeupfilter", &vars(), false).is_err());
    assert!(try_key("tier is match('go.*')").is_err());
    assert!(try_key("lockdown +").is_err());
}

#[test]
fn a_default_stands_in_for_what_is_undefined_alone() {
    let (vars, fl) = (VarMap::new(), FloatTable::new());
    let text = |s: &str| Value::Text(s.to_string());
    let args = vec![Ast::Lit(text("d"))];
    for name in ["default", "d"] {
        let given = |v| apply_filter(v, name, &args, &vars, &fl);
        assert!(given(Ok(text("x"))).unwrap().same_as(&text("x")));
        assert!(given(Ok(Value::Null)).unwrap().same_as(&Value::Null));
        assert!(given(Err(EvalError::Undefined)).unwrap().same_as(&text("d")));
        assert!(matches!(given(Err(EvalError::Runtime("r".to_string()))), Err(EvalError::Runtime(m)) if m == "r"));
        assert!(matches!(given(Err(EvalError::Unsupported("u".to_string()))), Err(EvalError::Unsupported(m)) if m == "u"));
        let none = apply_filter(Err(EvalError::Undefined), name, &vec![], &vars, &fl);
        assert!(none.unwrap().same_as(&text("")));
    }
}

#[test]
fn errors_name_the_expression() {
    assert_eq!(
        try_key("name | madeupfilter").unwrap_err(),
        "\"name | madeupfilter\": unsupported filter `madeupfilter`"
    );
    assert_eq!(
        try_key("lockdown +").unwrap_err(),
        "\"lockdown +\": unexpected token None"
    );
    assert_eq!(
        try_key("tier is match").unwrap_err(),
        "\"tier is match\": only `is [not] defined` / `is undefined` tests are supported"
    );
    assert_eq!(
        try_key("count count 'a' 2 1.50").unwrap_err(),
        "\"count count 'a' 2 1.50\": trailing tokens after expression: \
         [Ident(\"count\"), Str(\"a\"), Int(2), Float(1.5)]"
    );
    assert_eq!(try_key("a ; b").unwrap_err(), "\"a ; b\": unexpected character ';'");
    assert_eq!(
        try_key("'a' if count == 3 else").unwrap_err(),
        "\"'a' if count == 3 else\": unexpected token None"
    );
    assert_eq!(try_key("'open").unwrap_err(), format!("{:?}: unterminated string literal", "'open"));
    assert_eq!(try_key("1.2.3").unwrap_err(), "\"1.2.3\": bad float literal \"1.2.3\"");
    assert_eq!(
        try_key("99999999999999999999").unwrap_err(),
        "\"99999999999999999999\": bad int literal \"99999999999999999999\""
    );
    assert_eq!(try_key("a | )").unwrap_err(), "\"a | )\": expected filter name after `|`");
    assert_eq!(try_key("a | d(1").unwrap_err(), "\"a | d(1\": expected `)` after filter args");
    assert_eq!(try_key("a.1").unwrap_err(), "\"a.1\": expected identifier after `.`");
    assert_eq!(try_key("roles[1").unwrap_err(), "\"roles[1\": expected `]`");
    assert_eq!(try_key("(1").unwrap_err(), "\"(1\": expected `)`");
    assert_eq!(try_key(")").unwrap_err(), "\")\": unexpected token Some(RParen)");
    assert_eq!(
        try_key("1 | ternary(2)").unwrap_err(),
        "\"1 | ternary(2)\": filter `ternary` takes 2 or 3 arguments (true, false[, none])"
    );
    assert_eq!(try_key("é \u{7f}").unwrap_err(), format!("{:?}: unexpected character {:?}", "é \u{7f}", '\u{7f}'));
}

#[test]
fn strict_errors_say_what_failed() {
    let v = vars();
    assert_eq!(try_comp("nope", &v, true).unwrap_err(), "\"nope\": result is undefined");
    assert_eq!(
        try_comp("region - 1", &v, true).unwrap_err(),
        "\"region - 1\": unsupported operands for arithmetic: string and number"
    );
    assert_eq!(try_comp("1 / 0", &v, true).unwrap_err(), "\"1 / 0\": division by zero");
    assert_eq!(try_comp("1 % 0", &v, true).unwrap_err(), "\"1 % 0\": modulo by zero");
    assert_eq!(
        try_comp("roles[::0]", &v, true).unwrap_err(),
        "\"roles[::0]\": slice step cannot be zero"
    );
    assert_eq!(
        try_comp("roles | lower", &v, true).unwrap_err(),
        "\"roles | lower\": string operation applied to a list/dict"
    );
    assert_eq!(
        try_comp("tier | replace", &v, true).unwrap_err(),
        "\"tier | replace\": filter `replace` is missing a required argument"
    );
    assert_eq!(try_comp("-tier", &v, true).unwrap_err(), "\"-tier\": cannot negate string");
    assert_eq!(try_comp("count | length", &v, true).unwrap_err(), "\"count | length\": object has no length");
    assert_eq!(try_comp("count | first", &v, true).unwrap_err(), "\"count | first\": first of non-sequence");
    assert_eq!(try_comp("count | last", &v, true).unwrap_err(), "\"count | last\": last of non-sequence");
    assert_eq!(try_comp("count | join", &v, true).unwrap_err(), "\"count | join\": join of non-list");
    assert_eq!(try_comp("tier | abs", &v, true).unwrap_err(), "\"tier | abs\": abs of non-number");
    assert_eq!(
        try_comp("'inf' | float", &v, true).unwrap_err(),
        format!("{:?}: non-finite numeric result", "'inf' | float")
    );
    let bad = try_comp("tier | regex_replace('(', 'x')", &v, true).unwrap_err();
    let why = regex::Regex::new("(").unwrap_err();
    assert_eq!(
        bad,
        format!("{:?}: invalid regex {:?}: {why}", "tier | regex_replace('(', 'x')", "(")
    );
    let both = try_comp("roles | regex_replace('(', 'x')", &v, true).unwrap_err();
    assert!(both.contains("invalid regex"));
    let value_only = try_comp("roles | regex_replace('a', 'x')", &v, true).unwrap_err();
    assert!(value_only.contains("string operation applied to a list/dict"));
}

#[test]
fn truth_of_values() {
    assert!(!truthy(&Value::Null));
    assert!(!truthy(&Value::Bool(false)));
    assert!(!truthy(&int_value(0)));
    assert!(truthy(&int_value(-1)));
    assert!(!truthy(&Value::Number(Number::Float("0.0".into()))));
    assert!(!truthy(&Value::Number(Number::Float("-0.0".into()))));
    assert!(truthy(&Value::Number(Number::Float("0.5".into()))));
    assert!(!truthy(&Value::Text(String::new())));
    assert!(truthy(&Value::Text("x".into())));
    assert!(!truthy(&Value::List(vec![])));
    assert!(!truthy(&Value::Dict(VarMap::new())));
}

#[test]
fn bare_variables_are_told_by_their_text() {
    assert!(is_bare_var("count"));
    assert!(is_bare_var("  _x1 "));
    assert!(!is_bare_var("(count)"));
    assert!(!is_bare_var("a.b"));
    assert!(!is_bare_var("1a"));
    assert!(!is_bare_var(""));
    for word in ["true", "True", "false", "False", "none", "None", "null", "and", "or", "not"] {
        assert!(!is_bare_var(word), "{word}");
    }
    assert!(is_bare_var("if"));
}

#[test]
fn computed_numbers_become_text() {
    assert_eq!(to_js(&coerce_computed(int_value(-7))), js(r#""-7""#));
    assert_eq!(to_js(&coerce_computed(Value::Number(Number::Float("1.5".into())))), js(r#""1.5""#));
    assert_eq!(to_js(&coerce_computed(Value::Null)), js(r#""""#));
    assert_eq!(to_js(&coerce_computed(Value::Bool(true))), js("true"));
}

#[test]
fn floats_are_asked_for_and_answered() {
    let table = FloatTable::new();
    match eval_key("count / 2", &vars(), &table) {
        Err(EvalStop::NeedFloat(q)) => {
            assert_eq!(q.op, FloatOp::Div);
            assert_eq!(q.left, "3.0");
            assert_eq!(q.right, "2.0");
        }
        other => panic!("{other:?}"),
    }
    assert_eq!(key("1.5 + 1"), Some(js("2.5")));
    assert_eq!(key("1.5 - 1"), Some(js("0.5")));
    assert_eq!(key("1.5 * 2"), Some(js("3.0")));
    assert_eq!(key("7.5 // 2"), Some(js("3.0")));
    assert_eq!(key("-7.5 % 2"), Some(js("0.5")));
    assert_eq!(key("2 ** -1"), Some(js("0.5")));
    assert_eq!(key("2.0 ** 3"), Some(js("8.0")));
    assert_eq!(key("-1.5"), Some(js("-1.5")));
    assert_eq!(key("-1.5 | abs"), Some(js("-1.5")));
    assert_eq!(key("(0 - 1.5) | abs"), Some(js("1.5")));
    assert!(cond("1.5 > 1"));
    assert!(cond("1.5 <= 1.5"));
    assert!(!cond("1 >= 1.5"));
    assert!(!cond("1 == 1.0"));
    assert_eq!(key("1.0 / 0"), None);
    assert!(try_key("1e400").is_err());
    assert_eq!(key("'2.50' | float"), Some(js("2.5")));
    assert_eq!(key("'x' | float"), Some(js("0.0")));
    assert_eq!(key("true | float"), Some(js("1.0")));
    assert_eq!(key("(10.0 ** 308) * 10.0"), None);
}

#[test]
fn integers_are_exact_and_ordered_as_floats() {
    assert_eq!(key("9007199254740993 + 1"), Some(js("9007199254740994")));
    assert_eq!(key("9223372036854775807 - 1"), Some(js("9223372036854775806")));
    assert!(!cond("9007199254740993 > 9007199254740992"));
    assert!(cond("9007199254740993 >= 9007199254740992"));
    assert!(cond("9007199254740994 > 9007199254740992"));
    assert!(cond("9007199254740993 != 9007199254740992"));
    for n in [0i64, 1, -1, 9007199254740991, -9007199254740993, 1 << 60, (1 << 60) + 65, i64::MAX] {
        assert_eq!(key(&format!("({n}) + 0")), Some(js(&format!("{n}"))), "{n}");
    }
}

#[test]
fn floor_division_and_remainder_are_those_of_python() {
    for (a, b, q, r) in [
        (7i64, 2i64, 3i64, 1i64),
        (-7, 2, -4, 1),
        (7, -2, -4, -1),
        (-7, -2, 3, -1),
        (6, -3, -2, 0),
        (-6, 3, -2, 0),
        (0, -5, 0, 0),
        (1, -9223372036854775807, -1, -9223372036854775806),
    ] {
        assert_eq!(key(&format!("({a}) // ({b})")), Some(js(&format!("{q}"))), "{a} // {b}");
        assert_eq!(key(&format!("({a}) % ({b})")), Some(js(&format!("{r}"))), "{a} % {b}");
    }
    assert_eq!(key("7.0 // -2"), Some(js("-4.0")));
    assert_eq!(key("7.0 % -2"), Some(js("-1.0")));
    assert_eq!(key("(0 - 7.5) // 2"), Some(js("-4.0")));
    assert_eq!(key("(10.0 ** 20) % 3"), Some(js("1.0")));
    assert_eq!(key("(0 - 9223372036854775807 - 1) % (0 - 1)"), Some(js("0")));
}

#[test]
fn arithmetic_that_leaves_64_bits_stops() {
    let table = FloatTable::new();
    for src in [
        "9223372036854775807 + 9223372036854775807",
        "9223372036854775807 * 2",
        "2 ** 63",
        "2 ** 99999999999",
        "(0 - 9223372036854775807 - 1) // (0 - 1)",
    ] {
        assert!(matches!(eval_key(src, &vars(), &table), Err(EvalStop::Overflow)), "{src}");
    }
    assert_eq!(key("2 ** 62"), Some(js("4611686018427387904")));
    assert_eq!(key("(0 - 2) ** 63"), Some(js("-9223372036854775808")));
    assert_eq!(key("1 ** 99999999999"), Some(js("1")));
    assert_eq!(key("(0 - 1) ** 4294967296"), Some(js("1")));
    assert_eq!(key("(0 - 1) ** 3"), Some(js("-1")));
    assert_eq!(key("0 ** 0"), Some(js("1")));
}

#[test]
fn repetition_and_joining() {
    assert_eq!(key("'ab' * 3"), Some(js(r#""ababab""#)));
    assert_eq!(key("2 * 'ab'"), Some(js(r#""abab""#)));
    assert_eq!(key("'ab' * -1"), Some(js(r#""""#)));
    assert_eq!(key("roles * 2"), Some(js(r#"["db", "cache", "db", "cache"]"#)));
    assert_eq!(key("roles + roles"), Some(js(r#"["db", "cache", "db", "cache"]"#)));
    assert_eq!(key("roles + tier"), None);
    assert_eq!(key("none ~ true ~ 1.5"), Some(js(r#""NoneTrue1.5""#)));
}

#[test]
fn slices_select_as_in_python() {
    assert_eq!(key("'abcdef'[1:5:2]"), Some(js(r#""bd""#)));
    assert_eq!(key("'abcdef'[-3:]"), Some(js(r#""def""#)));
    assert_eq!(key("'abcdef'[10:]"), Some(js(r#""""#)));
    assert_eq!(key("'abcdef'[:-100]"), Some(js(r#""""#)));
    assert_eq!(key("'abcdef'[4:1:-1]"), Some(js(r#""edc""#)));
    assert_eq!(key("'abcdef'[::-2]"), Some(js(r#""fdb""#)));
    assert_eq!(key("'abcdef'[none:2]"), Some(js(r#""ab""#)));
    assert_eq!(key("'abcdef'['a':2]"), None);
    assert_eq!(key("count[1:]"), None);
    assert_eq!(key("'äöü'[1]"), Some(js(r#""ö""#)));
    assert_eq!(key("facts['os']"), Some(js(r#""linux""#)));
    assert_eq!(key("facts[0]"), None);
    assert_eq!(key("roles['x']"), None);
}

#[test]
fn more_filters() {
    assert_eq!(key("'aXbX' | replace('X', '--')"), Some(js(r#""a--b--""#)));
    assert_eq!(key("'ab' | replace('', '-')"), Some(js(r#""-a-b-""#)));
    assert_eq!(key("'xxaxx' | trim('x')"), Some(js(r#""a""#)));
    assert_eq!(key("'ÄRGER' | lower"), Some(js(r#""ärger""#)));
    assert_eq!(key("'straße' | upper"), Some(js(r#""STRASSE""#)));
    assert_eq!(key("'ärger ÜBER' | capitalize"), Some(js(r#""Ärger über""#)));
    assert_eq!(key("'' | capitalize"), Some(js(r#""""#)));
    assert_eq!(key("' 42 ' | int"), Some(js("42")));
    assert_eq!(key("'x' | int"), Some(js("0")));
    assert_eq!(key("true | int"), Some(js("1")));
    assert_eq!(key("1.9 | int"), Some(js("0")));
    for yes in ["'true'", "'Yes'", "'ON'", "'1'", "'t'", "'y'", "1", "true"] {
        assert_eq!(key(&format!("{yes} | bool")), Some(js("true")), "{yes}");
    }
    for no in ["'no'", "''", "0", "none", "roles"] {
        assert_eq!(key(&format!("{no} | bool")), Some(js("false")), "{no}");
    }
    assert_eq!(key("'äöü' | length"), Some(js("3")));
    assert_eq!(key("facts | count"), Some(js("1")));
    assert_eq!(key("'' | first"), None);
    assert_eq!(key("'xyz' | last"), Some(js(r#""z""#)));
    assert_eq!(key("roles | join"), Some(js(r#""dbcache""#)));
    assert_eq!(key("'' | default('x', true)"), Some(js(r#""x""#)));
    assert_eq!(key("'' | d('x')"), Some(js(r#""""#)));
    assert_eq!(key("nope | d"), Some(js(r#""""#)));
}

#[test]
fn backreferences_are_translated() {
    assert_eq!(
        key(r"'web01' | regex_replace('([a-z]+)([0-9]+)', '\2-\1')"),
        Some(js(r#""01-web""#))
    );
    assert_eq!(
        key(r"'web01' | regex_replace('(?P<n>[a-z]+)', '<\g<n>>')"),
        Some(js(r#""<web>01""#))
    );
    assert_eq!(key("'a' | regex_replace('a', '$1')"), Some(js(r#""$1""#)));
    assert_eq!(key(r"'a' | regex_replace('a', '\\n')"), Some(js(r#""\\n""#)));
}

#[test]
fn comparison_orders_numbers_and_texts_alone() {
    assert!(cond("'a' < 'b'"));
    assert!(cond("'Z' < 'a'"));
    assert!(cond("'a' <= 'a'"));
    assert!(cond("'ab' > 'a'"));
    assert!(!cond("'a' < 1"));
    assert!(!cond("'a' >= 1"));
    assert!(!cond("roles < roles"));
    assert!(cond("roles == roles"));
    assert!(cond("'os' in facts"));
    assert!(cond("'gol' in tier"));
    assert!(!cond("3 in tier"));
    assert!(cond("not nope"));
    assert!(cond("(nope + 1) is undefined"));
    assert!(cond("(tier + 1) is defined"));
}

#[test]
fn whole_slices_and_backwards() {
    assert_eq!(key("roles[:]"), Some(js(r#"["db", "cache"]"#)));
    assert_eq!(key("roles[::-1]"), Some(js(r#"["cache", "db"]"#)));
    assert_eq!(key("tier[::-1]"), Some(js(r#""dlog""#)));
    assert_eq!(key("roles[1::9223372036854775807]"), Some(js(r#"["cache"]"#)));
    assert_eq!(key("roles[:0:-9223372036854775807]"), Some(js(r#"["cache"]"#)));
}

#[test]
fn an_answer_to_another_question_changes_nothing() {
    let mut table = FloatTable::new();
    let q = FloatQuery { op: FloatOp::Mul, left: "9.5".into(), right: "2.0".into() };
    table.learn(q, FloatAnswer::Finite("19.0".into()));
    let plain = eval_key("count + 1", &vars(), &table).unwrap().unwrap();
    assert_eq!(to_js(&plain), js("4"));
    match eval_key("1.5 + 1", &vars(), &table) {
        Err(EvalStop::NeedFloat(q)) => assert_eq!((q.left.as_str(), q.right.as_str()), ("1.5", "1.0")),
        other => panic!("{other:?}"),
    }
}
