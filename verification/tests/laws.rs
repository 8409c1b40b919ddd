//! The library's laws, checked on concrete documents.

use configdiff::format::format_for;
use configdiff::{ArrayStrategy, ChangeKind, DiffOptions, Float, Format, Value, ValueMap, diff};

fn float(x: f64) -> Value {
    Value::Float(Float::new(x.to_bits(), x.to_string()))
}

fn object(entries: Vec<(&str, Value)>) -> Value {
    let mut m = ValueMap::new();
    for (k, v) in entries {
        m.insert(k.to_owned(), v);
    }
    Value::Object(m)
}

fn s(text: &str) -> Value {
    Value::String(text.to_owned())
}

/// A document with every kind of value, arrays of keyed objects, nesting and
/// a NaN.
fn sample() -> Value {
    with_nan(sample_finite())
}

/// The same data as `sample_finite`, with the keys of every object in another
/// order, and a NaN.
fn sample_reordered() -> Value {
    with_nan(sample_finite_reordered())
}

fn with_nan(v: Value) -> Value {
    match v {
        Value::Object(mut m) => {
            m.insert("nan".to_owned(), float(f64::NAN));
            Value::Object(m)
        }
        other => other,
    }
}

/// `sample` without its NaN: every number is finite.
fn sample_finite() -> Value {
    object(vec![
        ("name", s("svc")),
        ("port", Value::Integer(8080)),
        ("ratio", float(0.25)),
        ("debug", Value::Bool(false)),
        ("none", Value::Null),
        (
            "users",
            Value::Array(vec![
                object(vec![("id", s("a")), ("role", s("admin"))]),
                object(vec![("id", s("b")), ("role", s("view"))]),
                object(vec![("id", s("a")), ("role", s("dup"))]),
            ]),
        ),
        ("tags", Value::Array(vec![s("x"), s("y"), Value::Integer(3), Value::Array(vec![])])),
        ("nested", object(vec![("deeper", object(vec![("k", Value::Integer(-1))]))])),
    ])
}

/// The same data as `sample_finite`, with the keys of every object in
/// another order.
fn sample_finite_reordered() -> Value {
    object(vec![
        ("nested", object(vec![("deeper", object(vec![("k", Value::Integer(-1))]))])),
        (
            "tags",
            Value::Array(vec![s("x"), s("y"), Value::Integer(3), Value::Array(vec![])]),
        ),
        (
            "users",
            Value::Array(vec![
                object(vec![("role", s("admin")), ("id", s("a"))]),
                object(vec![("role", s("view")), ("id", s("b"))]),
                object(vec![("role", s("dup")), ("id", s("a"))]),
            ]),
        ),
        ("none", Value::Null),
        ("debug", Value::Bool(false)),
        ("ratio", float(0.25)),
        ("port", Value::Integer(8080)),
        ("name", s("svc")),
    ])
}

fn all_options() -> Vec<DiffOptions> {
    let mut out = Vec::new();
    for strategy in [ArrayStrategy::Auto, ArrayStrategy::Lcs, ArrayStrategy::Positional] {
        for expand in [false, true] {
            for loose in [false, true] {
                out.push(
                    DiffOptions::default()
                        .array_strategy(strategy)
                        .expand(expand)
                        .numbers_loose(loose)
                        .float_tolerance(if loose { Some(0.001f64.to_bits()) } else { None }),
                );
            }
        }
    }
    out.push(DiffOptions::default().array_strategy(ArrayStrategy::Keyed).array_keys(vec!["id".to_owned()]));
    out
}

#[test]
fn a_document_never_differs_from_itself() {
    for opts in all_options() {
        if opts.array_strategy == ArrayStrategy::Keyed {
            // Key matching pairs elements only when every element has a key.
            let keyed = object(vec![(
                "users",
                Value::Array(vec![object(vec![("id", s("a"))]), object(vec![("id", s("a")), ("x", Value::Null)])]),
            )]);
            assert!(diff(&keyed, &keyed, &opts).is_empty());
        } else if opts.float_tolerance.is_some() {
            // Under a tolerance, `(x - x).abs() <= tol` holds only for finite
            // numbers.
            let v = sample_finite();
            assert!(diff(&v, &v, &opts).is_empty());
        } else {
            let v = sample();
            assert!(diff(&v, &v, &opts).is_empty());
        }
    }
}

#[test]
fn reordered_keys_are_invisible() {
    for opts in all_options() {
        if opts.array_strategy == ArrayStrategy::Keyed {
            continue;
        }
        let d = if opts.float_tolerance.is_some() {
            diff(&sample_finite(), &sample_finite_reordered(), &opts)
        } else {
            diff(&sample(), &sample_reordered(), &opts)
        };
        assert!(d.is_empty(), "{:?}", d.changes());
    }
}

#[test]
fn key_matching_without_keys_is_not_reflexive() {
    // An element without a key cannot be matched, even with itself.
    let v = Value::Array(vec![Value::Integer(1), Value::Integer(2)]);
    let opts = DiffOptions::default().array_strategy(ArrayStrategy::Keyed).array_keys(vec!["id".to_owned()]);
    assert_eq!(diff(&v, &v, &opts).len(), 4);
}

#[test]
fn equality_is_symmetric() {
    let docs = vec![
        sample(),
        sample_reordered(),
        object(vec![("a", Value::Integer(1))]),
        object(vec![("a", float(1.0))]),
        object(vec![("a", Value::Integer(1)), ("b", Value::Null)]),
        Value::Array(vec![Value::Integer(1), Value::Integer(2)]),
        Value::Array(vec![Value::Integer(2), Value::Integer(1)]),
        Value::Array(vec![object(vec![("x", Value::Integer(1)), ("y", Value::Integer(2))])]),
        Value::Array(vec![object(vec![("y", Value::Integer(2)), ("x", Value::Integer(1))])]),
    ];
    for strategy in [ArrayStrategy::Lcs, ArrayStrategy::Positional, ArrayStrategy::Auto] {
        for loose in [false, true] {
            let opts = DiffOptions::default().array_strategy(strategy).numbers_loose(loose);
            for a in &docs {
                for b in &docs {
                    assert_eq!(diff(a, b, &opts).is_empty(), diff(b, a, &opts).is_empty());
                }
            }
        }
    }
}

#[test]
fn summary_counts_add_up_to_the_number_of_changes() {
    let old = object(vec![("a", Value::Integer(1)), ("b", s("x")), ("c", Value::Bool(true))]);
    let new = object(vec![("a", Value::Integer(2)), ("b", Value::Integer(3)), ("d", Value::Null)]);
    let d = diff(&old, &new, &DiffOptions::default());
    let s = d.summary();
    assert_eq!(s.added + s.removed + s.changed + s.type_changed, d.len());
    assert_eq!((s.added, s.removed, s.changed, s.type_changed), (1, 1, 1, 1));
}

#[test]
fn a_read_after_a_write_gives_back_what_was_written() {
    let mut m = ValueMap::new();
    assert_eq!(m.insert("a".to_owned(), Value::Integer(1)), None);
    assert_eq!(m.insert("b".to_owned(), Value::Integer(2)), None);
    assert_eq!(m.insert("a".to_owned(), Value::Integer(3)), Some(Value::Integer(1)));
    assert_eq!(m.get("a"), Some(&Value::Integer(3)));
    assert_eq!(m.get("b"), Some(&Value::Integer(2)));
    assert_eq!(m.get("c"), None);
    assert_eq!(m.len(), 2);
    assert_eq!(m.key_at(0), "a");
    assert_eq!(m.index_of("b"), Some(1));
    assert!(m.contains_key("b"));
}

#[test]
fn a_format_name_reads_back_as_the_format() {
    for f in [Format::Json, Format::Toml, Format::Yaml, Format::Ini, Format::Dotenv] {
        assert_eq!(Format::from_extension(f.name()), Some(f));
        assert_eq!(f.name().parse::<Format>().ok(), Some(f));
        assert_eq!(format_for("", Some(f)).ok(), Some(f));
    }
}

#[test]
fn parsed_dotenv_and_ini_documents_hold_strings() {
    let env = configdiff::dotenv::parse_dotenv("A=1\nB=two\nA=3\n").unwrap();
    let Value::Object(m) = &env else { panic!("not an object") };
    assert_eq!(m.len(), 2);
    assert_eq!(m.get("A"), Some(&Value::String("3".to_owned())));
    for i in 0..m.len() {
        assert!(matches!(m.value_at(i), Value::String(_)));
    }
    let ini = configdiff::ini_doc::parse_ini("top = 1\n[s]\nk = v\n").unwrap();
    let Value::Object(m) = &ini else { panic!("not an object") };
    assert_eq!(m.get("top"), Some(&Value::String("1".to_owned())));
    let Some(Value::Object(sec)) = m.get("s") else { panic!("no section") };
    assert_eq!(sec.get("k"), Some(&Value::String("v".to_owned())));
}

#[test]
fn inserting_or_removing_one_element_does_not_cascade() {
    let base: Vec<Value> = vec![Value::Integer(1), s("a"), Value::Integer(1), object(vec![("k", Value::Null)]), float(2.5)];
    let opts = DiffOptions::default().array_strategy(ArrayStrategy::Lcs);
    for k in 0..=base.len() {
        for e in [Value::Integer(1), Value::Integer(7), s("a"), object(vec![("k", Value::Null)])] {
            let mut longer: Vec<Value> = base.iter().cloned().collect();
            longer.insert(k, e.clone());
            let shorter = Value::Array(base.iter().cloned().collect());
            let longer = Value::Array(longer);
            let added = diff(&shorter, &longer, &opts);
            assert_eq!(added.len(), 1);
            assert!(matches!(added.changes()[0].kind, configdiff::ChangeKind::Added { .. }));
            let removed = diff(&longer, &shorter, &opts);
            assert_eq!(removed.len(), 1);
            assert!(matches!(removed.changes()[0].kind, configdiff::ChangeKind::Removed { .. }));
        }
    }
}

#[test]
fn ignored_paths_are_not_reported() {
    let opts = DiffOptions::default().ignore(&["**/secret", "list/1"]).unwrap().array_strategy(ArrayStrategy::Positional);
    let old = object(vec![
        ("secret", s("a")),
        ("inner", object(vec![("secret", s("b")), ("open", s("c"))])),
        ("list", Value::Array(vec![Value::Integer(1), Value::Integer(2), Value::Integer(3)])),
    ]);
    let new = object(vec![
        ("secret", s("x")),
        ("inner", object(vec![("secret", s("y")), ("open", s("z"))])),
        ("list", Value::Array(vec![Value::Integer(1), Value::Integer(9), Value::Integer(8)])),
    ]);
    let d = diff(&old, &new, &opts);
    let paths: Vec<String> = d.changes().iter().map(|c| c.path.match_string()).collect();
    assert_eq!(paths, vec!["inner/open".to_owned(), "list/2".to_owned()]);
}

#[test]
fn with_an_ignore_pattern_equality_can_depend_on_order() {
    // Key matching diffs a matched pair under the old element's index, so an
    // ignore pattern on an index can hide a change in one direction only.
    let opts = DiffOptions::default()
        .array_strategy(ArrayStrategy::Keyed)
        .array_keys(vec!["id".to_owned()])
        .ignore(&["u/0/role"])
        .unwrap();
    let a = object(vec![("u", Value::Array(vec![
        object(vec![("id", Value::Integer(1)), ("role", s("x"))]),
        object(vec![("id", Value::Integer(2))]),
    ]))]);
    let b = object(vec![("u", Value::Array(vec![
        object(vec![("id", Value::Integer(2))]),
        object(vec![("id", Value::Integer(1)), ("role", s("y"))]),
    ]))]);
    assert!(diff(&a, &b, &opts).is_empty());
    assert_eq!(diff(&b, &a, &opts).len(), 1);
}

#[test]
fn loose_numbers_and_tolerance_absorb_equal_values() {
    let loose = DiffOptions::default().numbers_loose(true);
    for i in [0i64, 1, -3, 1 << 53, (1 << 53) + 1, i64::MAX, i64::MIN] {
        assert!(diff(&Value::Integer(i), &float(i as f64), &loose).is_empty());
    }
    let tol = DiffOptions::default().float_tolerance(Some(0.5f64.to_bits()));
    assert!(diff(&float(1.0), &float(1.5), &tol).is_empty());
    assert_eq!(diff(&float(1.0), &float(1.5000001), &tol).len(), 1);
}

fn ints(xs: &[i64]) -> Value {
    Value::Array(xs.iter().map(|x| Value::Integer(*x)).collect())
}

fn summary_of(d: &configdiff::Diff) -> Vec<(String, &'static str)> {
    d.changes()
        .iter()
        .map(|c| {
            let kind = match c.kind {
                ChangeKind::Added { .. } => "added",
                ChangeKind::Removed { .. } => "removed",
                ChangeKind::Changed { .. } => "changed",
                ChangeKind::TypeChanged { .. } => "type_changed",
            };
            (c.path.to_string(), kind)
        })
        .collect()
}

#[test]
fn silent_exactly_on_equal_data_without_keys() {
    let lcs = DiffOptions::default().array_strategy(ArrayStrategy::Lcs);
    let a = object(vec![("x", ints(&[1, 2])), ("y", s("k"))]);
    let b = object(vec![("y", s("k")), ("x", ints(&[1, 2]))]);
    assert!(diff(&a, &b, &lcs).is_empty());
    let swapped = object(vec![("x", ints(&[2, 1])), ("y", s("k"))]);
    assert_eq!(diff(&a, &swapped, &lcs).len(), 2);
    let fewer = object(vec![("x", ints(&[1, 2]))]);
    assert_eq!(diff(&a, &fewer, &lcs).len(), 1);
}

#[test]
fn lcs_reports_the_lengths_less_twice_the_common_subsequence() {
    let lcs = DiffOptions::default().array_strategy(ArrayStrategy::Lcs);
    // A longest common subsequence of these is [2, 4]: 4 + 3 - 2 * 2 changes.
    let d = diff(&ints(&[1, 2, 3, 4]), &ints(&[2, 4, 5]), &lcs);
    assert_eq!(
        summary_of(&d),
        vec![("[0]".to_owned(), "removed"), ("[2]".to_owned(), "removed"), ("[2]".to_owned(), "added")]
    );
}

#[test]
fn nothing_is_reported_under_an_ignored_path() {
    let opts = DiffOptions::default().ignore(&["meta"]).unwrap();
    let a = object(vec![("meta", object(vec![("x", Value::Integer(1)), ("y", ints(&[1]))])), ("z", Value::Integer(1))]);
    let b = object(vec![("meta", object(vec![("x", Value::Integer(2)), ("y", ints(&[]))])), ("z", Value::Integer(2))]);
    assert_eq!(summary_of(&diff(&a, &b, &opts)), vec![("z".to_owned(), "changed")]);
}

#[test]
fn objects_report_old_keys_then_new_keys() {
    let a = object(vec![("a", Value::Integer(1)), ("c", Value::Integer(3))]);
    let b = object(vec![("b", Value::Integer(2)), ("c", Value::Integer(4))]);
    assert_eq!(
        summary_of(&diff(&a, &b, &DiffOptions::default())),
        vec![("a".to_owned(), "removed"), ("c".to_owned(), "changed"), ("b".to_owned(), "added")]
    );
}

#[test]
fn auto_without_an_identity_key_is_lcs() {
    let a = Value::Array(vec![object(vec![("v", Value::Integer(1))]), object(vec![("v", Value::Integer(2))])]);
    let b = Value::Array(vec![object(vec![("v", Value::Integer(2))]), object(vec![("v", Value::Integer(3))])]);
    let auto = diff(&a, &b, &DiffOptions::default());
    let lcs = diff(&a, &b, &DiffOptions::default().array_strategy(ArrayStrategy::Lcs));
    let keyed_without_keys = diff(&a, &b, &DiffOptions::default().array_strategy(ArrayStrategy::Keyed));
    assert_eq!(summary_of(&auto), summary_of(&lcs));
    assert_eq!(summary_of(&keyed_without_keys), summary_of(&lcs));
    assert_eq!(summary_of(&lcs), vec![("[0]".to_owned(), "removed"), ("[1]".to_owned(), "added")]);
}

#[test]
fn key_matching_takes_the_first_unpaired_element() {
    let opts = DiffOptions::default().array_strategy(ArrayStrategy::Keyed).array_keys(vec!["id".to_owned()]);
    let a = Value::Array(vec![object(vec![("id", Value::Integer(1)), ("v", Value::Integer(1))])]);
    let b = Value::Array(vec![
        object(vec![("id", Value::Integer(1)), ("v", Value::Integer(2))]),
        object(vec![("id", Value::Integer(1)), ("v", Value::Integer(1))]),
    ]);
    assert_eq!(
        summary_of(&diff(&a, &b, &opts)),
        vec![("[0].v".to_owned(), "changed"), ("[1]".to_owned(), "added")]
    );
}

#[test]
fn expansion_reports_each_child_in_order() {
    let opts = DiffOptions::default().expand(true);
    let a = object(vec![]);
    let b = object(vec![("x", object(vec![("y", Value::Integer(1)), ("z", ints(&[])), ("w", ints(&[7]))]))]);
    assert_eq!(
        summary_of(&diff(&a, &b, &opts)),
        vec![("x.y".to_owned(), "added"), ("x.z".to_owned(), "added"), ("x.w[0]".to_owned(), "added")]
    );
    assert_eq!(summary_of(&diff(&a, &b, &DiffOptions::default())), vec![("x".to_owned(), "added")]);
}

#[test]
fn under_a_tolerance_only_finite_numbers_equal_themselves() {
    let tol = DiffOptions::default().float_tolerance(Some(0.001f64.to_bits()));
    for x in [f64::NAN, f64::INFINITY, f64::NEG_INFINITY] {
        let v = object(vec![("x", float(x))]);
        assert!(diff(&v, &v, &DiffOptions::default()).is_empty());
        assert_eq!(summary_of(&diff(&v, &v, &tol)), vec![("x".to_owned(), "changed")]);
    }
    let negative = DiffOptions::default().float_tolerance(Some((-1.0f64).to_bits()));
    assert_eq!(diff(&Value::Integer(3), &Value::Integer(3), &negative).len(), 1);
    let negative_zero = DiffOptions::default().float_tolerance(Some((-0.0f64).to_bits()));
    assert!(diff(&Value::Integer(3), &Value::Integer(3), &negative_zero).is_empty());
    assert!(diff(&float(2.5), &float(2.5), &tol).is_empty());
}

#[test]
fn a_nan_identity_key_pairs_with_nothing() {
    let opts = DiffOptions::default().array_strategy(ArrayStrategy::Keyed).array_keys(vec!["id".to_owned()]);
    let v = Value::Array(vec![object(vec![("id", float(f64::NAN)), ("v", Value::Integer(1))])]);
    assert_eq!(summary_of(&diff(&v, &v, &opts)), vec![("[0]".to_owned(), "removed"), ("[0]".to_owned(), "added")]);
    let zeros_a = Value::Array(vec![object(vec![("id", float(0.0)), ("v", Value::Integer(1))])]);
    let zeros_b = Value::Array(vec![object(vec![("id", float(-0.0)), ("v", Value::Integer(2))])]);
    assert_eq!(summary_of(&diff(&zeros_a, &zeros_b, &opts)), vec![("[0].v".to_owned(), "changed")]);
}
