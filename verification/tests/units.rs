//! Tests of the library's building blocks, each against an exact expected
//! value.

use configdiff::cli::{ColorWhen, FailKind, exit_status, label, resolve_format, run_strategy, should_fail, use_color};
use configdiff::dotenv::parse_dotenv;
use configdiff::ini_doc::parse_ini;
use configdiff::numeric::{compare_numbers, int_to_float, within};
use configdiff::path::is_simple_key;
use configdiff::render::pretty::render;
use configdiff::{ArrayStrategy, ChangeKind, DiffOptions, Error, Float, Format, Path, Segment, Value, ValueMap, diff};

fn float(x: f64) -> Value {
    Value::Float(Float::new(x.to_bits(), x.to_string()))
}

fn object(entries: Vec<(&str, Value)>) -> Value {
    let mut m = ValueMap::new();
    for (k, v) in entries {
        m.insert(k.to_owned(), v);
    }
    Value::Object(m)
}

/// A small deterministic pseudo-random sequence.
struct Lcg(u64);

impl Lcg {
    fn next(&mut self) -> u64 {
        self.0 = self.0.wrapping_mul(6364136223846793005).wrapping_add(1442695040888963407);
        self.0 ^ (self.0 >> 29)
    }
}

#[test]
fn integers_convert_to_the_nearest_float() {
    let mut samples: Vec<i64> = vec![
        0,
        1,
        -1,
        2,
        3,
        i64::MAX,
        i64::MIN,
        i64::MIN + 1,
        (1 << 53) + 1,
        (1 << 53) + 3,
        -((1 << 53) + 1),
        (1 << 54) + 2,
        (1 << 54) + 6,
        (1 << 62) + 1,
        123_456_789_012_345_678,
    ];
    let mut rng = Lcg(7);
    for _ in 0..2000 {
        let bits = rng.next();
        let shift = rng.next() % 64;
        samples.push((bits >> shift) as i64);
    }
    for i in samples {
        assert_eq!(int_to_float(i), (i as f64).to_bits(), "{i}");
    }
}

#[test]
fn tolerance_matches_float_arithmetic() {
    let values: Vec<f64> = vec![
        0.0,
        -0.0,
        1.0,
        -1.0,
        0.1,
        0.2,
        0.30000000000000004,
        1.0000000000000002,
        5e-324,
        -5e-324,
        f64::MIN_POSITIVE,
        1e300,
        -1e300,
        f64::MAX,
        18014398509481984.0,
        18014398509481982.0,
        f64::INFINITY,
        f64::NEG_INFINITY,
        f64::NAN,
    ];
    for &x in &values {
        for &y in &values {
            for &t in &values {
                let expected = (x - y).abs() <= t;
                assert_eq!(within(x.to_bits(), y.to_bits(), t.to_bits()), expected, "{x} {y} {t}");
            }
        }
    }
}

#[test]
fn tolerance_matches_float_arithmetic_on_random_bits() {
    let mut rng = Lcg(42);
    for _ in 0..3000 {
        let x = f64::from_bits(rng.next());
        let y = if rng.next() % 2 == 0 { f64::from_bits(rng.next()) } else { x * 1.5 };
        let t = if rng.next() % 2 == 0 { (x - y).abs() } else { f64::from_bits(rng.next() >> 1) };
        let expected = (x - y).abs() <= t;
        assert_eq!(within(x.to_bits(), y.to_bits(), t.to_bits()), expected, "{x} {y} {t}");
    }
}

#[test]
fn rounding_ties_go_to_the_even_neighbour() {
    // 2^54 - 1 lies halfway between 2^54 - 2 (odd significand) and 2^54
    // (even significand), so the difference rounds up to 2^54.
    let x = 18014398509481984.0f64;
    let y = 1.0f64;
    assert!(!within(x.to_bits(), y.to_bits(), 18014398509481982.0f64.to_bits()));
    assert!(within(x.to_bits(), y.to_bits(), 18014398509481984.0f64.to_bits()));
}

#[test]
fn number_comparison_with_and_without_tolerance() {
    let nan = f64::NAN.to_bits();
    assert!(compare_numbers(nan, nan, None));
    assert!(!compare_numbers(nan, 1.0f64.to_bits(), None));
    assert!(compare_numbers(0.0f64.to_bits(), (-0.0f64).to_bits(), None));
    assert!(!compare_numbers(1.0f64.to_bits(), 1.5f64.to_bits(), Some(0.1f64.to_bits())));
    assert!(compare_numbers(1.0f64.to_bits(), 1.05f64.to_bits(), Some(0.1f64.to_bits())));
    // With a tolerance the test is `(x - y).abs() <= tol`, which identical
    // NaNs or infinities fail.
    assert!(!compare_numbers(nan, nan, Some(0.1f64.to_bits())));
    let inf = f64::INFINITY.to_bits();
    assert!(!compare_numbers(inf, inf, Some(0.1f64.to_bits())));
    assert!(!compare_numbers(1.0f64.to_bits(), 1.0f64.to_bits(), Some((-0.1f64).to_bits())));
}

#[test]
fn loose_integers_compare_through_their_float_value() {
    let opts = DiffOptions::default().numbers_loose(true);
    let a = object(vec![("n", Value::Integer((1 << 53) + 1))]);
    let b = object(vec![("n", float(9007199254740992.0))]);
    assert!(diff(&a, &b, &opts).is_empty());
    assert_eq!(diff(&a, &b, &DiffOptions::default()).summary().type_changed, 1);
}

#[test]
fn colored_output_wraps_each_part_in_its_codes() {
    let d = diff(&object(vec![("port", Value::Integer(1))]), &object(vec![("port", Value::Integer(2))]), &DiffOptions::default());
    let expected = "\u{1b}[33m~ \u{1b}[0m\u{1b}[1mport\u{1b}[0m: 1 \u{1b}[2m->\u{1b}[0m 2\n\n1 change: \u{1b}[33m~1\u{1b}[0m\n";
    assert_eq!(render(&d, true), expected);
    let empty = diff(&Value::Null, &Value::Null, &DiffOptions::default());
    assert_eq!(render(&empty, true), "\u{1b}[2mno differences\u{1b}[0m\n");
}

#[test]
fn type_changes_and_removals_render_with_their_types() {
    let old = object(vec![("port", Value::Integer(8080)), ("gone", Value::Array(vec![Value::Null, Value::Null]))]);
    let new = object(vec![("port", Value::String("8080".to_owned())), ("new", object(vec![("a", Value::Null)]))]);
    let d = diff(&old, &new, &DiffOptions::default());
    let out = render(&d, false);
    assert_eq!(
        out,
        "! port: integer 8080 -> string \"8080\"\n- gone: [2 items]\n+ new: {1 keys}\n\n3 changes: +1  -1  !1\n"
    );
    let root = diff(&Value::Bool(true), &float(1.5), &DiffOptions::default());
    assert_eq!(render(&root, false), "! (root): boolean true -> float 1.5\n\n1 change: !1\n");
}

#[test]
fn values_display_compactly() {
    assert_eq!(Value::String("a\"b\n".to_owned()).to_string(), "\"a\\\"b\\n\"");
    assert_eq!(Value::Integer(-42).to_string(), "-42");
    assert_eq!(Value::Null.to_string(), "null");
    assert_eq!(Value::Bool(false).to_string(), "false");
    assert_eq!(float(0.5).to_string(), "0.5");
    assert_eq!(Value::Array(vec![]).to_string(), "[0 items]");
    assert_eq!(Value::String("x".to_owned()).type_label(), "string");
    assert!(Value::Integer(1).is_scalar());
    assert!(!Value::Array(vec![]).is_scalar());
    assert!(Value::Array(vec![]).as_array().is_some());
    assert!(Value::Null.as_object().is_none());
}

#[test]
fn paths_display_and_match() {
    let root = Path::root();
    assert!(root.is_root());
    assert_eq!(root.to_string(), "(root)");
    assert_eq!(root.match_string(), "");
    let p = root.child_key("server".to_owned()).child_index(2).child_key("host name".to_owned());
    assert!(!p.is_root());
    assert_eq!(p.to_string(), "server[2][\"host name\"]");
    assert_eq!(p.match_string(), "server/2/host name");
    assert_eq!(p.segments().len(), 3);
    assert!(matches!(&p.segments()[1], Segment::Index(2)));
    assert!(matches!(&p.segments()[0], Segment::Key(k) if k == "server"));
    let q = Path::root().child_index(0).child_key("a-b_c".to_owned());
    assert_eq!(q.to_string(), "[0].a-b_c");
    assert!(is_simple_key("a-b_c9"));
    assert!(!is_simple_key(""));
    assert!(!is_simple_key("a.b"));
}

#[test]
fn formats_are_recognized_by_name_path_and_content() {
    assert_eq!(Format::from_extension("YML"), Some(Format::Yaml));
    assert_eq!(Format::from_extension("env"), Some(Format::Dotenv));
    assert_eq!(Format::from_extension("xml"), None);
    assert_eq!(Format::from_path("dir/config.Toml"), Some(Format::Toml));
    assert_eq!(Format::from_path(".env"), Some(Format::Dotenv));
    assert_eq!(Format::from_path("conf/.env"), Some(Format::Dotenv));
    assert_eq!(Format::from_path("a.b/Makefile"), None);
    assert_eq!(Format::from_path("settings.ini"), Some(Format::Ini));
    assert_eq!(Format::from_path("conf.json/"), Some(Format::Json));
    assert_eq!(Format::from_path("conf.json/."), Some(Format::Json));
    assert_eq!(Format::from_path("dir/./conf.yml//"), Some(Format::Yaml));
    assert_eq!(Format::from_path("conf.json/.."), None);
    assert_eq!(Format::from_path("."), None);
    assert_eq!(Format::from_path("/"), None);
    assert_eq!(Format::from_path(""), None);
    assert_eq!(Format::guess_from_content("\n\t[1]"), Some(Format::Json));
    assert_eq!(Format::guess_from_content("---\nx: 1"), Some(Format::Yaml));
    assert_eq!(Format::guess_from_content("- a"), None);
    assert_eq!(Format::guess_from_content("   "), None);
    assert_eq!(Format::Dotenv.name(), "dotenv");
    assert!(matches!("xml".parse::<Format>(), Err(Error::UnknownFormat(ref s)) if s == "xml"));
}

#[test]
fn each_error_comes_from_its_input() {
    assert!(matches!(DiffOptions::default().ignore(&["a[b"]), Err(Error::Glob(_))));
    assert!(DiffOptions::default().ignore(&["a/*", "**/b"]).is_ok());
    assert!(matches!(parse_dotenv("A=1\nnot a pair\n"), Err(Error::Dotenv { line: 2 })));
    assert!(matches!(parse_ini("[unterminated\nk = v\n"), Err(Error::Ini(_))));
}

#[test]
fn a_star_stays_within_one_segment() {
    let opts = DiffOptions::default().ignore(&["*/x"]).unwrap();
    assert!(opts.is_ignored("top/x"));
    assert!(!opts.is_ignored("meta/a/x"));
    let any_depth = DiffOptions::default().ignore(&["**/x"]).unwrap();
    assert!(any_depth.is_ignored("meta/a/x"));
    assert!(any_depth.is_ignored("x"));
    let old = object(vec![("meta", object(vec![("a", object(vec![("x", Value::Integer(1))]))])), ("top", object(vec![("x", Value::Integer(1))]))]);
    let new = object(vec![("meta", object(vec![("a", object(vec![("x", Value::Integer(2))]))])), ("top", object(vec![("x", Value::Integer(2))]))]);
    let d = diff(&old, &new, &opts);
    assert_eq!(d.len(), 1);
    assert_eq!(d.changes()[0].path.to_string(), "meta.a.x");
}

#[test]
fn ignore_patterns_match_the_slash_joined_path() {
    let opts = DiffOptions::default().ignore(&["server/hosts/*/name"]).unwrap();
    let old = object(vec![("server", object(vec![("hosts", Value::Array(vec![object(vec![("name", Value::Integer(1)), ("ip", Value::Integer(1))])]))]))]);
    let new = object(vec![("server", object(vec![("hosts", Value::Array(vec![object(vec![("name", Value::Integer(2)), ("ip", Value::Integer(2))])]))]))]);
    let d = diff(&old, &new, &opts.array_strategy(ArrayStrategy::Positional));
    assert_eq!(d.len(), 1);
    assert_eq!(d.changes()[0].path.to_string(), "server.hosts[0].ip");
}

#[test]
fn auto_strategy_matches_by_an_inferred_key() {
    let old = object(vec![("u", Value::Array(vec![
        object(vec![("name", Value::String("a".to_owned())), ("v", Value::Integer(1))]),
        object(vec![("name", Value::String("b".to_owned())), ("v", Value::Integer(2))]),
    ]))]);
    let new = object(vec![("u", Value::Array(vec![
        object(vec![("name", Value::String("b".to_owned())), ("v", Value::Integer(3))]),
        object(vec![("name", Value::String("a".to_owned())), ("v", Value::Integer(1))]),
    ]))]);
    let d = diff(&old, &new, &DiffOptions::default());
    assert_eq!(d.len(), 1);
    assert_eq!(d.changes()[0].path.to_string(), "u[1].v");
    let lcs = diff(&old, &new, &DiffOptions::default().array_strategy(ArrayStrategy::Lcs));
    assert_eq!(lcs.len(), 2);
}

#[test]
fn key_matching_with_no_keys_falls_back_to_lcs() {
    let opts = DiffOptions::default().array_strategy(ArrayStrategy::Keyed);
    let d = diff(&Value::Array(vec![Value::Integer(1)]), &Value::Array(vec![Value::Integer(1), Value::Integer(2)]), &opts);
    assert_eq!(d.len(), 1);
    assert!(matches!(d.changes()[0].kind, ChangeKind::Added { .. }));
    assert_eq!(d.changes()[0].path.to_string(), "[1]");
}

#[test]
fn gates_decide_whether_a_run_fails() {
    let same = diff(&Value::Integer(1), &Value::Integer(1), &DiffOptions::default());
    let changed = diff(&Value::Integer(1), &Value::Integer(2), &DiffOptions::default());
    assert!(!should_fail(&same, &[]));
    assert!(should_fail(&changed, &[]));
    assert!(!should_fail(&changed, &[FailKind::Added, FailKind::TypeChanged]));
    assert!(should_fail(&changed, &[FailKind::Removed, FailKind::Changed]));
    assert!(FailKind::Changed.matches(&changed.changes()[0].kind));
    assert!(!FailKind::Added.matches(&changed.changes()[0].kind));
}

#[test]
fn command_line_decisions() {
    assert_eq!(resolve_format(None, "-"), None);
    assert_eq!(resolve_format(None, "a/b.toml"), Some(Format::Toml));
    assert_eq!(resolve_format(Some(Format::Json), "a/b.toml"), Some(Format::Json));
    assert_eq!(label("-"), "<stdin>");
    assert_eq!(label("x.json"), "x.json");
    assert_eq!(run_strategy(ArrayStrategy::Lcs, true), ArrayStrategy::Keyed);
    assert_eq!(run_strategy(ArrayStrategy::Lcs, false), ArrayStrategy::Lcs);
    assert_eq!(run_strategy(ArrayStrategy::Positional, true), ArrayStrategy::Positional);
    assert!(use_color(ColorWhen::Auto, false, true));
    assert!(!use_color(ColorWhen::Auto, true, true));
    assert!(!use_color(ColorWhen::Auto, false, false));
    assert!(use_color(ColorWhen::Always, true, false));
    assert!(!use_color(ColorWhen::Never, false, true));
    assert_eq!(exit_status(true, false), 1);
    assert_eq!(exit_status(true, true), 0);
    assert_eq!(exit_status(false, false), 0);
}

#[test]
fn dotenv_lines_are_read_as_documented() {
    let v = parse_dotenv("# c\n  export KEY = \"a b\"  \nEMPTY=\nQ='x'\n\n").unwrap();
    let Value::Object(m) = &v else { panic!("not an object") };
    assert_eq!(m.get("KEY"), Some(&Value::String("a b".to_owned())));
    assert_eq!(m.get("EMPTY"), Some(&Value::String(String::new())));
    assert_eq!(m.get("Q"), Some(&Value::String("x".to_owned())));
    assert_eq!(m.len(), 3);
}
