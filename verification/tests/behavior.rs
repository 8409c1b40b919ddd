//! Behavioral tests driving the public library API.

use configdiff::dotenv::parse_dotenv;
use configdiff::format::format_for;
use configdiff::ini_doc::parse_ini;
use configdiff::render;
use configdiff::value::object_value;
use configdiff::{ArrayStrategy, ChangeKind, Diff, DiffOptions, Error, Float, Format, Value, ValueMap, diff};
use serde::de::{Deserialize, Deserializer, MapAccess, SeqAccess, Visitor};

/// A document read through serde into the library's value model, keeping
/// object keys in document order.
struct Doc(Value);

struct DocVisitor;

impl<'de> Visitor<'de> for DocVisitor {
    type Value = Value;

    fn expecting(&self, f: &mut std::fmt::Formatter<'_>) -> std::fmt::Result {
        f.write_str("any valid configuration value")
    }

    fn visit_bool<E>(self, v: bool) -> Result<Value, E> {
        Ok(Value::Bool(v))
    }

    fn visit_i64<E>(self, v: i64) -> Result<Value, E> {
        Ok(Value::Integer(v))
    }

    fn visit_u64<E>(self, v: u64) -> Result<Value, E> {
        Ok(i64::try_from(v).map_or_else(|_| float(v as f64), Value::Integer))
    }

    fn visit_f64<E>(self, v: f64) -> Result<Value, E> {
        Ok(float(v))
    }

    fn visit_str<E>(self, v: &str) -> Result<Value, E> {
        Ok(Value::String(v.to_owned()))
    }

    fn visit_string<E>(self, v: String) -> Result<Value, E> {
        Ok(Value::String(v))
    }

    fn visit_none<E>(self) -> Result<Value, E> {
        Ok(Value::Null)
    }

    fn visit_unit<E>(self) -> Result<Value, E> {
        Ok(Value::Null)
    }

    fn visit_some<D: Deserializer<'de>>(self, d: D) -> Result<Value, D::Error> {
        Doc::deserialize(d).map(|doc| doc.0)
    }

    fn visit_seq<A: SeqAccess<'de>>(self, mut seq: A) -> Result<Value, A::Error> {
        let mut items = Vec::new();
        while let Some(Doc(item)) = seq.next_element::<Doc>()? {
            items.push(item);
        }
        Ok(Value::Array(items))
    }

    fn visit_map<A: MapAccess<'de>>(self, mut map: A) -> Result<Value, A::Error> {
        let mut out = ValueMap::new();
        while let Some((key, Doc(value))) = map.next_entry::<String, Doc>()? {
            out.insert(key, value);
        }
        Ok(object_value(out))
    }
}

impl<'de> Deserialize<'de> for Doc {
    fn deserialize<D: Deserializer<'de>>(d: D) -> Result<Self, D::Error> {
        d.deserialize_any(DocVisitor).map(Doc)
    }
}

fn float(x: f64) -> Value {
    Value::Float(Float::new(x.to_bits(), x.to_string()))
}

fn parse(s: &str, format: Format) -> Result<Value, String> {
    match format {
        Format::Json => serde_json::from_str::<Doc>(s).map(|d| d.0).map_err(|e| e.to_string()),
        Format::Toml => toml::from_str::<Doc>(s).map(|d| d.0).map_err(|e| e.to_string()),
        Format::Yaml => serde_norway::from_str::<Doc>(s).map(|d| d.0).map_err(|e| e.to_string()),
        Format::Ini => parse_ini(s).map_err(|e| format!("{e:?}")),
        Format::Dotenv => parse_dotenv(s).map_err(|e| format!("{e:?}")),
    }
}

fn diff_str(old: &str, new: &str, old_format: Option<Format>, new_format: Option<Format>, opts: &DiffOptions) -> Result<Diff, String> {
    let old_format = format_for(old, old_format).map_err(|e| format!("{e:?}"))?;
    let new_format = format_for(new, new_format).map_err(|e| format!("{e:?}"))?;
    let old = parse(old, old_format)?;
    let new = parse(new, new_format)?;
    Ok(diff(&old, &new, opts))
}

fn json(s: &str) -> Value {
    parse(s, Format::Json).expect("valid json")
}

fn diff_json(old: &str, new: &str) -> Diff {
    diff(&json(old), &json(new), &DiffOptions::default())
}

#[test]
fn identical_documents_have_no_changes() {
    let d = diff_json(r#"{"a":1,"b":[1,2,3]}"#, r#"{"a":1,"b":[1,2,3]}"#);
    assert!(d.is_empty());
    assert_eq!(d.len(), 0);
}

#[test]
fn key_order_is_ignored() {
    let d = diff_json(r#"{"a":1,"b":2}"#, r#"{"b":2,"a":1}"#);
    assert!(d.is_empty());
}

#[test]
fn scalar_value_change_is_detected() {
    let d = diff_json(r#"{"port":8080}"#, r#"{"port":9090}"#);
    assert_eq!(d.len(), 1);
    let c = &d.changes()[0];
    assert_eq!(c.path.to_string(), "port");
    assert!(matches!(c.kind, ChangeKind::Changed { .. }));
}

#[test]
fn added_and_removed_keys() {
    let d = diff_json(r#"{"a":1}"#, r#"{"b":2}"#);
    let s = d.summary();
    assert_eq!(s.added, 1);
    assert_eq!(s.removed, 1);
    assert_eq!(s.changed, 0);
}

#[test]
fn type_change_is_distinct_from_value_change() {
    let d = diff_json(r#"{"port":8080}"#, r#"{"port":"8080"}"#);
    assert_eq!(d.len(), 1);
    assert!(matches!(d.changes()[0].kind, ChangeKind::TypeChanged { .. }));
    assert_eq!(d.summary().type_changed, 1);
}

#[test]
fn integer_vs_float_is_a_type_change_by_default() {
    let d = diff_json(r#"{"x":1}"#, r#"{"x":1.0}"#);
    assert_eq!(d.summary().type_changed, 1);
}

#[test]
fn loose_numbers_treats_int_and_float_as_equal() {
    let opts = DiffOptions::default().numbers_loose(true);
    let d = diff(&json(r#"{"x":1}"#), &json(r#"{"x":1.0}"#), &opts);
    assert!(d.is_empty());
}

#[test]
fn loose_numbers_still_reports_real_value_changes() {
    let opts = DiffOptions::default().numbers_loose(true);
    let d = diff(&json(r#"{"x":1}"#), &json(r#"{"x":2.0}"#), &opts);
    assert_eq!(d.len(), 1);
    assert!(matches!(d.changes()[0].kind, ChangeKind::Changed { .. }));
}

#[test]
fn float_tolerance_absorbs_tiny_differences() {
    let opts = DiffOptions::default().float_tolerance(Some(0.01f64.to_bits()));
    let d = diff(&json(r#"{"x":1.001}"#), &json(r#"{"x":1.002}"#), &opts);
    assert!(d.is_empty());

    let d = diff(&json(r#"{"x":1.0}"#), &json(r#"{"x":1.5}"#), &opts);
    assert_eq!(d.len(), 1);
}

#[test]
fn nested_paths_are_rendered_dotted_and_bracketed() {
    let opts = DiffOptions::default().array_strategy(ArrayStrategy::Positional);
    let d = diff(
        &json(r#"{"server":{"hosts":[{"name":"a"},{"name":"b"}]}}"#),
        &json(r#"{"server":{"hosts":[{"name":"a"},{"name":"c"}]}}"#),
        &opts,
    );
    assert_eq!(d.len(), 1);
    assert_eq!(d.changes()[0].path.to_string(), "server.hosts[1].name");
}

#[test]
fn array_lcs_reports_scalar_edit_as_remove_plus_add() {
    let d = diff_json(r#"{"a":["x","y"]}"#, r#"{"a":["x","z"]}"#);
    let s = d.summary();
    assert_eq!(s.removed, 1);
    assert_eq!(s.added, 1);
    assert_eq!(s.changed, 0);
}

#[test]
fn array_lcs_detects_insertion_without_cascading() {
    let d = diff_json(r#"{"a":[1,2,3]}"#, r#"{"a":[99,1,2,3]}"#);
    assert_eq!(d.len(), 1);
    assert!(matches!(d.changes()[0].kind, ChangeKind::Added { .. }));
}

#[test]
fn array_positional_compares_by_index() {
    let opts = DiffOptions::default().array_strategy(ArrayStrategy::Positional);
    let d = diff(&json(r#"{"a":[1,2,3]}"#), &json(r#"{"a":[99,1,2,3]}"#), &opts);
    assert_eq!(d.summary().changed, 3);
    assert_eq!(d.summary().added, 1);
}

#[test]
fn array_keyed_matches_reordered_objects_by_key() {
    let opts = DiffOptions::default()
        .array_strategy(ArrayStrategy::Keyed)
        .array_keys(vec!["id".to_owned()]);
    let old = json(r#"{"u":[{"id":"a","role":"admin"},{"id":"b","role":"view"}]}"#);
    let new = json(r#"{"u":[{"id":"b","role":"edit"},{"id":"a","role":"admin"}]}"#);
    let d = diff(&old, &new, &opts);
    assert_eq!(d.len(), 1);
    assert_eq!(d.changes()[0].path.to_string(), "u[1].role");
    assert!(matches!(d.changes()[0].kind, ChangeKind::Changed { .. }));
}

#[test]
fn array_keyed_reports_added_and_removed_elements() {
    let opts = DiffOptions::default()
        .array_strategy(ArrayStrategy::Keyed)
        .array_keys(vec!["id".to_owned()]);
    let old = json(r#"{"u":[{"id":"a"},{"id":"b"}]}"#);
    let new = json(r#"{"u":[{"id":"a"},{"id":"c"}]}"#);
    let d = diff(&old, &new, &opts);
    let s = d.summary();
    assert_eq!(s.removed, 1);
    assert_eq!(s.added, 1);
}

#[test]
fn ignore_globs_skip_matching_paths() {
    let opts = DiffOptions::default().ignore(&["**/updated_at", "meta/*"]).unwrap();
    let old = json(r#"{"meta":{"a":1,"b":2},"updated_at":"t1","port":80}"#);
    let new = json(r#"{"meta":{"a":9,"b":9},"updated_at":"t2","port":81}"#);
    let d = diff(&old, &new, &opts);
    assert_eq!(d.len(), 1);
    assert_eq!(d.changes()[0].path.to_string(), "port");
}

#[test]
fn cross_format_equality_toml_yaml_json() {
    let d = diff_str(
        "port = 8080\ntitle = \"svc\"\n",
        "{\"title\":\"svc\",\"port\":8080}",
        Some(Format::Toml),
        Some(Format::Json),
        &DiffOptions::default(),
    )
    .unwrap();
    assert!(d.is_empty(), "same data in TOML and JSON should be equal");
}

#[test]
fn toml_datetime_becomes_a_comparable_string() {
    let d = diff_str(
        "ts = 1979-05-27T07:32:00Z\n",
        "{\"ts\":\"1979-05-27T07:32:00Z\"}",
        Some(Format::Toml),
        Some(Format::Json),
        &DiffOptions::default(),
    )
    .unwrap();
    assert!(d.is_empty(), "toml datetime should equal its RFC 3339 string");
}

#[test]
fn container_to_scalar_is_a_type_change() {
    let d = diff_json(r#"{"a":{"b":1}}"#, r#"{"a":5}"#);
    assert_eq!(d.len(), 1);
    assert!(matches!(d.changes()[0].kind, ChangeKind::TypeChanged { .. }));
}

#[test]
fn pretty_render_plain_is_stable() {
    let old = parse("a = 1\nb = 2\n[s]\nx = \"old\"\n", Format::Toml).unwrap();
    let new = parse("a = 1\nb = 3\nc = 9\n[s]\nx = \"new\"\n", Format::Toml).unwrap();
    let d = diff(&old, &new, &DiffOptions::default());
    let out = render::pretty::render(&d, false);
    let expected = "~ b: 2 -> 3\n~ s.x: \"old\" -> \"new\"\n+ c: 9\n\n3 changes: +1  ~2\n";
    assert_eq!(out, expected);
}

#[test]
fn pretty_render_reports_no_differences() {
    let d = diff_json(r#"{"a":1}"#, r#"{"a":1}"#);
    assert_eq!(render::pretty::render(&d, false), "no differences\n");
}

/// A value as JSON text, the way the command line writes the report.
fn to_json(value: &Value) -> serde_json::Value {
    match value {
        Value::Null => serde_json::Value::Null,
        Value::Bool(b) => serde_json::Value::Bool(*b),
        Value::Integer(i) => serde_json::Value::from(*i),
        Value::Float(f) => serde_json::Number::from_f64(f64::from_bits(f.bits()))
            .map_or(serde_json::Value::Null, serde_json::Value::Number),
        Value::String(s) => serde_json::Value::String(s.clone()),
        Value::Array(a) => serde_json::Value::Array(a.iter().map(to_json).collect()),
        Value::Object(m) => {
            let mut out = serde_json::Map::new();
            for i in 0..m.len() {
                out.insert(m.key_at(i).clone(), to_json(m.value_at(i)));
            }
            serde_json::Value::Object(out)
        }
    }
}

#[test]
fn json_render_shape_is_stable() {
    let d = diff_json(r#"{"port":8080}"#, r#"{"port":9090}"#);
    let out = serde_json::to_string(&to_json(&render::json::report(&d))).unwrap();
    assert_eq!(
        out,
        r#"{"summary":{"added":0,"removed":0,"changed":1,"type_changed":0,"total":1},"changes":[{"path":"port","kind":"changed","old":8080,"new":9090}]}"#
    );
}

#[test]
fn json_report_lists_types_of_a_type_change() {
    let d = diff_json(r#"{"port":8080,"x":null}"#, r#"{"port":"8080"}"#);
    let out = serde_json::to_string(&to_json(&render::json::report(&d))).unwrap();
    assert_eq!(
        out,
        r#"{"summary":{"added":0,"removed":1,"changed":0,"type_changed":1,"total":2},"changes":[{"path":"port","kind":"type_changed","old_type":"integer","new_type":"string","old":8080,"new":"8080"},{"path":"x","kind":"removed","old":null}]}"#
    );
}

#[test]
fn invalid_input_is_a_parse_error() {
    let err = diff_str(
        "this is : not : valid : json",
        "{}",
        Some(Format::Json),
        Some(Format::Json),
        &DiffOptions::default(),
    );
    assert!(err.is_err());
}

#[test]
fn without_expand_an_added_subtree_is_one_change() {
    let d = diff_json("{}", r#"{"server":{"host":"h","port":80}}"#);
    assert_eq!(d.len(), 1);
    assert_eq!(d.changes()[0].path.to_string(), "server");
}

#[test]
fn expand_reports_each_leaf_of_an_added_subtree() {
    let opts = DiffOptions::default().expand(true);
    let d = diff(&json("{}"), &json(r#"{"server":{"host":"h","port":80}}"#), &opts);
    assert_eq!(d.len(), 2);
    let paths: Vec<String> = d.changes().iter().map(|c| c.path.to_string()).collect();
    assert!(paths.contains(&"server.host".to_owned()));
    assert!(paths.contains(&"server.port".to_owned()));
    assert_eq!(d.summary().added, 2);
}

#[test]
fn expand_reports_each_leaf_of_a_removed_subtree() {
    let opts = DiffOptions::default().expand(true);
    let d = diff(&json(r#"{"db":{"name":"prod","port":5432}}"#), &json("{}"), &opts);
    assert_eq!(d.summary().removed, 2);
}

#[test]
fn ini_sections_become_nested_objects() {
    let a = parse("[server]\nhost = localhost\nport = 8080\n", Format::Ini).unwrap();
    let b = parse("[server]\nhost = 0.0.0.0\nport = 8080\n", Format::Ini).unwrap();
    let d = diff(&a, &b, &DiffOptions::default());
    assert_eq!(d.len(), 1);
    assert_eq!(d.changes()[0].path.to_string(), "server.host");
}

#[test]
fn dotenv_ignores_comments_and_quotes() {
    let a = parse("# a comment\nA=1\nexport B=\"two\"\n\nC='three'\n", Format::Dotenv).unwrap();
    let b = parse("A=1\nB=two\nC=three\n", Format::Dotenv).unwrap();
    let d = diff(&a, &b, &DiffOptions::default());
    assert!(d.is_empty(), "got: {:?}", d.changes());
}

#[test]
fn dotenv_values_are_strings() {
    let env = parse("PORT=8080\n", Format::Dotenv).unwrap();
    let json_int = json(r#"{"PORT":8080}"#);
    let d = diff(&env, &json_int, &DiffOptions::default());
    assert_eq!(d.summary().type_changed, 1);
}

fn nested_object(depth: usize) -> Value {
    let mut v = Value::Integer(0);
    for _ in 0..depth {
        let mut m = ValueMap::new();
        m.insert("a".to_owned(), v);
        v = Value::Object(m);
    }
    v
}

#[test]
fn deeply_nested_input_is_bounded_not_overflowing() {
    let deep = nested_object(300);
    let d = diff(&deep, &deep, &DiffOptions::default());
    assert_eq!(d.len(), 1);
    assert!(matches!(d.changes()[0].kind, ChangeKind::Changed { .. }));
}

#[test]
fn yaml_nan_equals_itself() {
    let a = parse("x: .nan\n", Format::Yaml).unwrap();
    let d = diff(&a, &a, &DiffOptions::default());
    assert!(d.is_empty(), "got: {:?}", d.changes());

    let b = parse("x: 1.0\n", Format::Yaml).unwrap();
    let d = diff(&a, &b, &DiffOptions::default());
    assert_eq!(d.len(), 1);
}

#[test]
fn large_arrays_fall_back_from_lcs() {
    let a: Vec<Value> = (0..3000i64).map(Value::Integer).collect();
    let mut b: Vec<Value> = (0..3000i64).map(Value::Integer).collect();
    b[0] = Value::Integer(999_999);
    let d = diff(&Value::Array(a), &Value::Array(b), &DiffOptions::default());
    assert_eq!(d.len(), 1);
    assert!(matches!(d.changes()[0].kind, ChangeKind::Changed { .. }));
}

#[test]
fn unknown_format_is_reported_for_undecidable_content() {
    let r = format_for("port = 1\n", None);
    assert!(matches!(r, Err(Error::UnknownFormat(ref s)) if s == "<input>"));
    assert_eq!(format_for("  {\"a\":1}", None).ok(), Some(Format::Json));
    assert_eq!(format_for("---\na: 1\n", None).ok(), Some(Format::Yaml));
    assert_eq!(format_for("port = 1\n", Some(Format::Toml)).ok(), Some(Format::Toml));
}

#[test]
fn changes_follow_document_order() {
    let old = parse("zeta = 1\nalpha = 2\n[mid]\nk = 1\n", Format::Toml).unwrap();
    let new = parse("zeta = 3\nalpha = 4\n[mid]\nk = 2\n", Format::Toml).unwrap();
    let d = diff(&old, &new, &DiffOptions::default());
    let paths: Vec<String> = d.changes().iter().map(|c| c.path.to_string()).collect();
    assert_eq!(paths, vec!["zeta", "alpha", "mid.k"]);
    let old = json(r#"{"b":1,"a":1}"#);
    let new = json(r#"{"b":2,"a":2}"#);
    let paths: Vec<String> = diff(&old, &new, &DiffOptions::default()).changes().iter().map(|c| c.path.to_string()).collect();
    assert_eq!(paths, vec!["b", "a"]);
}

#[test]
fn json_round_trip() {
    let docs = [
        r#"{"a":1,"b":[true,null,"x",2.5,-7,{"c":[]}],"d":{"e":1e-7,"f":123456789.125}}"#,
        r#"[1,2,{"k":"v"},[],{}]"#,
        r#""plain""#,
        r#"{"big":18446744073709551615,"neg":-9223372036854775808}"#,
    ];
    for text in docs {
        let v = json(text);
        let again = serde_json::to_string(&to_json(&v)).unwrap();
        let reparsed = json(&again);
        let d = diff(&v, &reparsed, &DiffOptions::default());
        assert!(d.is_empty(), "round-trip changed value: {:?}", d.changes());
    }
}

#[test]
fn array_strategies_never_panic() {
    let a = json(r#"{"u":[{"id":1,"name":"a"},{"name":"b"},3,[1,2],{"id":1}],"v":[1,2,3]}"#);
    let b = json(r#"{"u":[{"id":1,"name":"c"},{"id":2},[2,1],"x"],"v":[3,2,1,0]}"#);
    for strategy in [ArrayStrategy::Auto, ArrayStrategy::Lcs, ArrayStrategy::Positional, ArrayStrategy::Keyed] {
        let opts = DiffOptions::default().array_strategy(strategy).array_keys(vec!["id".to_owned(), "name".to_owned()]);
        let d = diff(&a, &b, &opts);
        assert!(!d.is_empty());
        let s = d.summary();
        assert_eq!(s.added + s.removed + s.changed + s.type_changed, d.len());
    }
}
