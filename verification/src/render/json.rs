//! The document of the machine-readable report of a diff, as a value whose
//! objects keep their keys in the order written here:
//!
//! ```json
//! {
//!   "summary": { "added": 1, "removed": 0, "changed": 1, "type_changed": 0, "total": 2 },
//!   "changes": [
//!     { "path": "server.port", "kind": "changed", "old": 8080, "new": 9090 },
//!     { "path": "server.tls", "kind": "added", "new": { "enabled": true } }
//!   ]
//! }
//! ```

use vstd::prelude::*;
use crate::diff::{Change, ChangeKind, Diff, Summary, changes_model, count_kind, law_summary_counts_every_change};
use crate::diff_spec::KindModel;
use crate::path::{SegmentModel, spec_path_display};
use crate::value::{Value, ValueMap, ValueModel, entries_model, keys_unique, spec_type_name, values_model};

verus! {

broadcast use crate::value::lemma_value_model;

/// A string value.
pub open spec fn text(s: Seq<char>) -> ValueModel {
    ValueModel::String(s)
}

/// The summary object: the count of each kind of change and their total.
pub open spec fn summary_value(a: nat, r: nat, c: nat, t: nat) -> ValueModel {
    ValueModel::Object(
        seq![
            ("added"@, ValueModel::Integer(a as i64)),
            ("removed"@, ValueModel::Integer(r as i64)),
            ("changed"@, ValueModel::Integer(c as i64)),
            ("type_changed"@, ValueModel::Integer(t as i64)),
            ("total"@, ValueModel::Integer((a + r + c + t) as i64)),
        ],
    )
}

/// The object reporting one change: its displayed path, its kind, and the
/// values (with their types for a type change).
pub open spec fn change_value(c: (Seq<SegmentModel>, KindModel)) -> ValueModel {
    let path = seq![("path"@, text(spec_path_display(c.0)))];
    ValueModel::Object(
        path + match c.1 {
            KindModel::Added(v) => seq![("kind"@, text("added"@)), ("new"@, v)],
            KindModel::Removed(v) => seq![("kind"@, text("removed"@)), ("old"@, v)],
            KindModel::Changed(o, n) => seq![("kind"@, text("changed"@)), ("old"@, o), ("new"@, n)],
            KindModel::TypeChanged(o, n) => seq![
                ("kind"@, text("type_changed"@)),
                ("old_type"@, text(spec_type_name(o))),
                ("new_type"@, text(spec_type_name(n))),
                ("old"@, o),
                ("new"@, n),
            ],
        },
    )
}

/// The report of a diff: the summary, then the changes in report order.
pub open spec fn report_value(d: Seq<(Seq<SegmentModel>, KindModel)>) -> ValueModel {
    ValueModel::Object(
        seq![
            (
                "summary"@,
                summary_value(
                    count_kind(d, 0, d.len()),
                    count_kind(d, 1, d.len()),
                    count_kind(d, 2, d.len()),
                    count_kind(d, 3, d.len()),
                ),
            ),
            ("changes"@, ValueModel::Array(Seq::new(d.len(), |i: int| change_value(d[i])))),
        ],
    )
}

/// The summary object's keys are distinct.
proof fn lemma_summary_keys(a: nat, r: nat, c: nat, t: nat)
    ensures
        keys_unique(summary_value(a, r, c, t)->Object_0),
{
    reveal_strlit("added");
    reveal_strlit("removed");
    reveal_strlit("changed");
    reveal_strlit("type_changed");
    reveal_strlit("total");
    assert("added"@[0] != "total"@[0]);
    assert("removed"@[0] != "changed"@[0]);
    let e = summary_value(a, r, c, t)->Object_0;
    assert forall|i: int, j: int| 0 <= i < e.len() && 0 <= j < e.len() && i != j
        implies (#[trigger] e[i]).0 != (#[trigger] e[j]).0 by {
        assert(e[i].0.len() != e[j].0.len() || e[i].0[0] != e[j].0[0]);
    }
}

/// A change object's keys are distinct.
proof fn lemma_change_keys(c: (Seq<SegmentModel>, KindModel))
    ensures
        keys_unique(change_value(c)->Object_0),
{
    reveal_strlit("path");
    reveal_strlit("kind");
    reveal_strlit("old");
    reveal_strlit("new");
    reveal_strlit("old_type");
    reveal_strlit("new_type");
    assert("path"@[0] != "kind"@[0]);
    assert("old"@[0] != "new"@[0]);
    assert("old_type"@[0] != "new_type"@[0]);
    let e = change_value(c)->Object_0;
    assert forall|i: int, j: int| 0 <= i < e.len() && 0 <= j < e.len() && i != j
        implies (#[trigger] e[i]).0 != (#[trigger] e[j]).0 by {
        assert(e[i].0.len() != e[j].0.len() || e[i].0[0] != e[j].0[0]);
    }
}

/// The report object's keys are distinct.
proof fn lemma_report_keys(d: Seq<(Seq<SegmentModel>, KindModel)>)
    ensures
        keys_unique(report_value(d)->Object_0),
{
    reveal_strlit("summary");
    reveal_strlit("changes");
    assert("summary"@[0] != "changes"@[0]);
}

/// An entry of an object.
fn entry(key: &str, v: Value) -> (e: (String, Value))
    ensures
        e.0@ == key@,
        e.1@ == v@,
{
    (key.to_owned(), v)
}

/// A string value.
fn text_value(s: &str) -> (v: Value)
    ensures
        v@ == text(s@),
{
    Value::String(s.to_owned())
}

/// The summary object.
fn summary_object(s: &Summary) -> (v: Value)
    requires
        s.added + s.removed + s.changed + s.type_changed <= usize::MAX,
    ensures
        v@ == summary_value(s.added as nat, s.removed as nat, s.changed as nat, s.type_changed as nat),
{
    let total = s.added + s.removed + s.changed + s.type_changed;
    let entries = vec![
        entry("added", Value::Integer(s.added as i64)),
        entry("removed", Value::Integer(s.removed as i64)),
        entry("changed", Value::Integer(s.changed as i64)),
        entry("type_changed", Value::Integer(s.type_changed as i64)),
        entry("total", Value::Integer(total as i64)),
    ];
    assert(entries_model(entries@) =~= summary_value(s.added as nat, s.removed as nat, s.changed as nat, s.type_changed as nat)->Object_0);
    proof {
        lemma_summary_keys(s.added as nat, s.removed as nat, s.changed as nat, s.type_changed as nat);
    }
    let m = ValueMap::from_entries(entries);
    Value::Object(m)
}

/// The object reporting one change.
fn change_object(c: &Change) -> (v: Value)
    ensures
        v@ == change_value(c@),
{
    let path = entry("path", text_value(c.path.to_string().as_str()));
    let entries = match &c.kind {
        ChangeKind::Added { new } => vec![path, entry("kind", text_value("added")), entry("new", new.clone())],
        ChangeKind::Removed { old } => vec![path, entry("kind", text_value("removed")), entry("old", old.clone())],
        ChangeKind::Changed { old, new } => vec![
            path,
            entry("kind", text_value("changed")),
            entry("old", old.clone()),
            entry("new", new.clone()),
        ],
        ChangeKind::TypeChanged { old, new } => vec![
            path,
            entry("kind", text_value("type_changed")),
            entry("old_type", text_value(old.type_label())),
            entry("new_type", text_value(new.type_label())),
            entry("old", old.clone()),
            entry("new", new.clone()),
        ],
    };
    assert(entries_model(entries@) =~= change_value(c@)->Object_0);
    proof {
        lemma_change_keys(c@);
    }
    let m = ValueMap::from_entries(entries);
    Value::Object(m)
}

/// The document of the JSON report of a diff (see `report_value`).
pub fn report(diff: &Diff) -> (v: Value)
    ensures
        v@ == report_value(diff@),
{
    let s = diff.summary();
    proof {
        law_summary_counts_every_change(diff@, diff@.len());
    }
    let changes = diff.changes();
    let mut items: Vec<Value> = Vec::new();
    let mut i: usize = 0;
    while i < changes.len()
        invariant
            changes_model(changes@) == diff@,
            i <= changes@.len(),
            values_model(items@) == Seq::new(i as nat, |k: int| change_value(diff@[k])),
        decreases changes.len() - i,
    {
        let item = change_object(&changes[i]);
        assert(diff@[i as int] == changes@[i as int]@);
        let ghost before = items@;
        items.push(item);
        assert(values_model(items@) =~= values_model(before).push(item@));
        i = i + 1;
        assert(values_model(items@) =~= Seq::new(i as nat, |k: int| change_value(diff@[k])));
    }
    let entries = vec![entry("summary", summary_object(&s)), entry("changes", Value::Array(items))];
    assert(entries_model(entries@) =~= report_value(diff@)->Object_0);
    proof {
        lemma_report_keys(diff@);
    }
    let m = ValueMap::from_entries(entries);
    Value::Object(m)
}

} // verus!
