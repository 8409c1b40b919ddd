//! What ignore patterns keep out of a diff: a diff taken at some path
//! reports changes only below that path, and never at a path that an ignore
//! pattern matches, nor under one.

use vstd::prelude::*;
use crate::diff_spec::{
    KindModel, MAX_DEPTH, auto_key, diff_arrays_spec, diff_values_spec, emit_elements, emit_entries, emit_spec,
    ignored, keyed_added, keyed_pass, keyed_spec, keyed_table, lcs_or_positional, lcs_walk, min_len, object_added,
    object_pairs, positional_pairs, positional_spec,
};
use crate::options::{ArrayStrategy, OptionsModel};
use crate::path::SegmentModel;
use crate::value::{ValueModel, find_key};

verus! {

/// Whether `q` lies at or below `path`, with none of the paths from just
/// below `path` down to `q` itself matched by an ignore pattern.
pub open spec fn reported_below(q: Seq<SegmentModel>, path: Seq<SegmentModel>, o: OptionsModel) -> bool {
    &&& path.len() <= q.len()
    &&& q.subrange(0, path.len() as int) == path
    &&& forall|n: int| path.len() < n <= q.len() ==> !ignored(o, #[trigger] q.subrange(0, n))
}

/// Whether every change of a list is reported below `path` (see
/// `reported_below`).
pub open spec fn unignored(s: Seq<(Seq<SegmentModel>, KindModel)>, path: Seq<SegmentModel>, o: OptionsModel) -> bool {
    forall|i: int| 0 <= i < s.len() ==> #[trigger] reported_below(s[i].0, path, o)
}

proof fn lemma_concat(
    s1: Seq<(Seq<SegmentModel>, KindModel)>,
    s2: Seq<(Seq<SegmentModel>, KindModel)>,
    path: Seq<SegmentModel>,
    o: OptionsModel,
)
    requires
        unignored(s1, path, o),
        unignored(s2, path, o),
    ensures
        unignored(s1 + s2, path, o),
{
    assert forall|i: int| 0 <= i < (s1 + s2).len() implies #[trigger] reported_below((s1 + s2)[i].0, path, o) by {
        if i >= s1.len() {
            assert((s1 + s2)[i] == s2[i - s1.len()]);
            assert(reported_below(s2[i - s1.len()].0, path, o));
        } else {
            assert(reported_below(s1[i].0, path, o));
        }
    }
}

/// Changes reported below a child of `path`, where that child is not
/// ignored (or nothing is reported), are reported below `path`.
proof fn lemma_lift(s: Seq<(Seq<SegmentModel>, KindModel)>, path: Seq<SegmentModel>, seg: SegmentModel, o: OptionsModel)
    requires
        unignored(s, path.push(seg), o),
        s.len() > 0 ==> !ignored(o, path.push(seg)),
    ensures
        unignored(s, path, o),
{
    let child = path.push(seg);
    assert forall|i: int| 0 <= i < s.len() implies #[trigger] reported_below(s[i].0, path, o) by {
        let q = s[i].0;
        assert(reported_below(q, child, o));
        assert(q.subrange(0, child.len() as int) == child);
        assert(q.subrange(0, path.len() as int) =~= path) by {
            assert forall|t: int| 0 <= t < path.len() implies q[t] == path[t] by {
                assert(q.subrange(0, child.len() as int)[t] == child[t]);
            }
        }
        assert forall|n: int| path.len() < n <= q.len() implies !ignored(o, #[trigger] q.subrange(0, n)) by {
            if n == child.len() {
                assert(q.subrange(0, n) == child);
            }
        }
    }
}

/// The change for the value at `path` itself is reported below `path`.
proof fn lemma_at(s: Seq<(Seq<SegmentModel>, KindModel)>, path: Seq<SegmentModel>, o: OptionsModel)
    requires
        forall|i: int| 0 <= i < s.len() ==> #[trigger] s[i].0 == path,
    ensures
        unignored(s, path, o),
{
    assert forall|i: int| 0 <= i < s.len() implies #[trigger] reported_below(s[i].0, path, o) by {
        assert(s[i].0.subrange(0, path.len() as int) =~= path);
    }
}

proof fn lemma_emit(v: ValueModel, path: Seq<SegmentModel>, o: OptionsModel, added: bool)
    ensures
        unignored(emit_spec(v, path, o, added), path, o),
    decreases v, 0nat,
{
    if ignored(o, path) {
    } else if o.expand && path.len() < MAX_DEPTH && v is Object && v->Object_0.len() > 0 {
        lemma_entries(v->Object_0, path, o, added, v->Object_0.len());
    } else if o.expand && path.len() < MAX_DEPTH && v is Array && v->Array_0.len() > 0 {
        lemma_elements(v->Array_0, path, o, added, 0, v->Array_0.len());
    } else {
        lemma_at(emit_spec(v, path, o, added), path, o);
    }
}

/// The removal or addition of a value under a child of `path` is reported
/// below `path`.
proof fn lemma_emit_child(v: ValueModel, path: Seq<SegmentModel>, seg: SegmentModel, o: OptionsModel, added: bool)
    ensures
        unignored(emit_spec(v, path.push(seg), o, added), path, o),
    decreases v, 1nat,
{
    lemma_emit(v, path.push(seg), o, added);
    lemma_lift(emit_spec(v, path.push(seg), o, added), path, seg, o);
}

/// The diff of two values under a child of `path` is reported below `path`.
proof fn lemma_diff_child(old: ValueModel, new: ValueModel, path: Seq<SegmentModel>, seg: SegmentModel, o: OptionsModel)
    ensures
        unignored(diff_values_spec(old, new, path.push(seg), o), path, o),
    decreases old, 1nat,
{
    lemma_diff(old, new, path.push(seg), o);
    lemma_lift(diff_values_spec(old, new, path.push(seg), o), path, seg, o);
}

proof fn lemma_entries(m: Seq<(Seq<char>, ValueModel)>, path: Seq<SegmentModel>, o: OptionsModel, added: bool, k: nat)
    ensures
        unignored(emit_entries(m, path, o, added, k), path, o),
    decreases m, k,
{
    if k > 0 && k <= m.len() {
        lemma_entries(m, path, o, added, (k - 1) as nat);
        lemma_emit_child(m[k - 1].1, path, SegmentModel::Key(m[k - 1].0), o, added);
        lemma_concat(
            emit_entries(m, path, o, added, (k - 1) as nat),
            emit_spec(m[k - 1].1, path.push(SegmentModel::Key(m[k - 1].0)), o, added),
            path,
            o,
        );
    }
}

proof fn lemma_elements(s: Seq<ValueModel>, path: Seq<SegmentModel>, o: OptionsModel, added: bool, lo: nat, k: nat)
    ensures
        unignored(emit_elements(s, path, o, added, lo, k), path, o),
    decreases s, k,
{
    if k > lo && k <= s.len() {
        lemma_elements(s, path, o, added, lo, (k - 1) as nat);
        lemma_emit_child(s[k - 1], path, SegmentModel::Index((k - 1) as usize), o, added);
        lemma_concat(
            emit_elements(s, path, o, added, lo, (k - 1) as nat),
            emit_spec(s[k - 1], path.push(SegmentModel::Index((k - 1) as usize)), o, added),
            path,
            o,
        );
    }
}

proof fn lemma_added(a: Seq<(Seq<char>, ValueModel)>, b: Seq<(Seq<char>, ValueModel)>, path: Seq<SegmentModel>, o: OptionsModel, k: nat)
    ensures
        unignored(object_added(a, b, path, o, k), path, o),
    decreases k,
{
    if k > 0 && k <= b.len() {
        lemma_added(a, b, path, o, (k - 1) as nat);
        lemma_emit_child(b[k - 1].1, path, SegmentModel::Key(b[k - 1].0), o, true);
        let tail = if find_key(a, b[k - 1].0) is None {
            emit_spec(b[k - 1].1, path.push(SegmentModel::Key(b[k - 1].0)), o, true)
        } else {
            Seq::empty()
        };
        lemma_concat(object_added(a, b, path, o, (k - 1) as nat), tail, path, o);
    }
}

proof fn lemma_walk(a: Seq<ValueModel>, b: Seq<ValueModel>, i: nat, j: nat, path: Seq<SegmentModel>, o: OptionsModel)
    ensures
        unignored(lcs_walk(a, b, i, j, path, o), path, o),
    decreases a.len() + b.len() - i - j,
{
    if i <= a.len() && j <= b.len() {
        let ra = emit_spec(a[i as int], path.push(SegmentModel::Index(i as usize)), o, false);
        let rb = emit_spec(b[j as int], path.push(SegmentModel::Index(j as usize)), o, true);
        if i < a.len() && j < b.len() {
            lemma_walk(a, b, i + 1, j + 1, path, o);
            lemma_walk(a, b, i + 1, j, path, o);
            lemma_walk(a, b, i, j + 1, path, o);
            lemma_emit_child(a[i as int], path, SegmentModel::Index(i as usize), o, false);
            lemma_emit_child(b[j as int], path, SegmentModel::Index(j as usize), o, true);
            lemma_concat(ra, lcs_walk(a, b, i + 1, j, path, o), path, o);
            lemma_concat(rb, lcs_walk(a, b, i, j + 1, path, o), path, o);
        } else if i < a.len() {
            lemma_walk(a, b, i + 1, j, path, o);
            lemma_emit_child(a[i as int], path, SegmentModel::Index(i as usize), o, false);
            lemma_concat(ra, lcs_walk(a, b, i + 1, j, path, o), path, o);
        } else if j < b.len() {
            lemma_walk(a, b, i, j + 1, path, o);
            lemma_emit_child(b[j as int], path, SegmentModel::Index(j as usize), o, true);
            lemma_concat(rb, lcs_walk(a, b, i, j + 1, path, o), path, o);
        }
    }
}

proof fn lemma_keyed_added(b: Seq<ValueModel>, table: Seq<(ValueModel, nat)>, used: Seq<bool>, path: Seq<SegmentModel>, o: OptionsModel, k: nat)
    ensures
        unignored(keyed_added(b, table, used, path, o, k), path, o),
    decreases k,
{
    if k > 0 && k <= b.len() {
        lemma_keyed_added(b, table, used, path, o, (k - 1) as nat);
        lemma_emit_child(b[k - 1], path, SegmentModel::Index((k - 1) as usize), o, true);
        let tail = if crate::diff_spec::consumed(table, used, (k - 1) as nat) {
            Seq::empty()
        } else {
            emit_spec(b[k - 1], path.push(SegmentModel::Index((k - 1) as usize)), o, true)
        };
        lemma_concat(keyed_added(b, table, used, path, o, (k - 1) as nat), tail, path, o);
    }
}

proof fn lemma_diff(old: ValueModel, new: ValueModel, path: Seq<SegmentModel>, o: OptionsModel)
    ensures
        unignored(diff_values_spec(old, new, path, o), path, o),
    decreases old, 0nat,
{
    if path.len() > 0 && ignored(o, path) {
    } else {
        match (old, new) {
            (ValueModel::Object(a), ValueModel::Object(b)) => {
                if path.len() < MAX_DEPTH {
                    lemma_pairs(a, b, path, o, a.len());
                    lemma_added(a, b, path, o, b.len());
                    lemma_concat(object_pairs(a, b, path, o, a.len()), object_added(a, b, path, o, b.len()), path, o);
                } else {
                    lemma_at(diff_values_spec(old, new, path, o), path, o);
                }
            },
            (ValueModel::Array(a), ValueModel::Array(b)) => {
                if path.len() < MAX_DEPTH {
                    lemma_arrays(a, b, path, o);
                } else {
                    lemma_at(diff_values_spec(old, new, path, o), path, o);
                }
            },
            _ => {
                lemma_at(diff_values_spec(old, new, path, o), path, o);
            },
        }
    }
}

proof fn lemma_pairs(a: Seq<(Seq<char>, ValueModel)>, b: Seq<(Seq<char>, ValueModel)>, path: Seq<SegmentModel>, o: OptionsModel, k: nat)
    ensures
        unignored(object_pairs(a, b, path, o, k), path, o),
    decreases a, k,
{
    if k > 0 && k <= a.len() {
        lemma_pairs(a, b, path, o, (k - 1) as nat);
        let seg = SegmentModel::Key(a[k - 1].0);
        let child = path.push(seg);
        let tail = match find_key(b, a[k - 1].0) {
            Some(j) => diff_values_spec(a[k - 1].1, b[j].1, child, o),
            None => emit_spec(a[k - 1].1, child, o, false),
        };
        match find_key(b, a[k - 1].0) {
            Some(j) => lemma_diff_child(a[k - 1].1, b[j].1, path, seg, o),
            None => lemma_emit_child(a[k - 1].1, path, seg, o, false),
        }
        lemma_concat(object_pairs(a, b, path, o, (k - 1) as nat), tail, path, o);
    }
}

proof fn lemma_arrays(a: Seq<ValueModel>, b: Seq<ValueModel>, path: Seq<SegmentModel>, o: OptionsModel)
    ensures
        unignored(diff_arrays_spec(a, b, path, o), path, o),
    decreases a, a.len() + 3,
{
    match o.array_strategy {
        ArrayStrategy::Positional => lemma_positional(a, b, path, o),
        ArrayStrategy::Lcs => lemma_lcs_or_positional(a, b, path, o),
        ArrayStrategy::Keyed => if o.array_keys.len() == 0 {
            lemma_lcs_or_positional(a, b, path, o);
        } else {
            lemma_keyed(a, b, o.array_keys, path, o);
        },
        ArrayStrategy::Auto => match auto_key(a, b) {
            Some(k) => lemma_keyed(a, b, seq![k], path, o),
            None => lemma_lcs_or_positional(a, b, path, o),
        },
    }
}

proof fn lemma_lcs_or_positional(a: Seq<ValueModel>, b: Seq<ValueModel>, path: Seq<SegmentModel>, o: OptionsModel)
    ensures
        unignored(lcs_or_positional(a, b, path, o), path, o),
    decreases a, a.len() + 2,
{
    lemma_positional(a, b, path, o);
    lemma_walk(a, b, 0, 0, path, o);
}

proof fn lemma_positional(a: Seq<ValueModel>, b: Seq<ValueModel>, path: Seq<SegmentModel>, o: OptionsModel)
    ensures
        unignored(positional_spec(a, b, path, o), path, o),
    decreases a, a.len() + 1,
{
    let common = min_len(a.len(), b.len());
    lemma_positional_pairs(a, b, path, o, common);
    lemma_elements(a, path, o, false, common, a.len());
    lemma_elements(b, path, o, true, common, b.len());
    lemma_concat(positional_pairs(a, b, path, o, common), emit_elements(a, path, o, false, common, a.len()), path, o);
    lemma_concat(
        positional_pairs(a, b, path, o, common) + emit_elements(a, path, o, false, common, a.len()),
        emit_elements(b, path, o, true, common, b.len()),
        path,
        o,
    );
}

proof fn lemma_positional_pairs(a: Seq<ValueModel>, b: Seq<ValueModel>, path: Seq<SegmentModel>, o: OptionsModel, k: nat)
    ensures
        unignored(positional_pairs(a, b, path, o, k), path, o),
    decreases a, k,
{
    if k > 0 && k <= a.len() && k <= b.len() {
        lemma_positional_pairs(a, b, path, o, (k - 1) as nat);
        let seg = SegmentModel::Index((k - 1) as usize);
        lemma_diff_child(a[k - 1], b[k - 1], path, seg, o);
        lemma_concat(positional_pairs(a, b, path, o, (k - 1) as nat), diff_values_spec(a[k - 1], b[k - 1], path.push(seg), o), path, o);
    }
}

proof fn lemma_keyed(a: Seq<ValueModel>, b: Seq<ValueModel>, keys: Seq<Seq<char>>, path: Seq<SegmentModel>, o: OptionsModel)
    ensures
        unignored(keyed_spec(a, b, keys, path, o), path, o),
    decreases a, a.len() + 1,
{
    let table = keyed_table(b, keys, b.len());
    lemma_keyed_pass(a, b, keys, table, path, o, a.len());
    let (out, used) = keyed_pass(a, b, keys, table, path, o, a.len());
    lemma_keyed_added(b, table, used, path, o, b.len());
    lemma_concat(out, keyed_added(b, table, used, path, o, b.len()), path, o);
}

proof fn lemma_keyed_pass(
    a: Seq<ValueModel>,
    b: Seq<ValueModel>,
    keys: Seq<Seq<char>>,
    table: Seq<(ValueModel, nat)>,
    path: Seq<SegmentModel>,
    o: OptionsModel,
    k: nat,
)
    ensures
        unignored(keyed_pass(a, b, keys, table, path, o, k).0, path, o),
    decreases a, k,
{
    if k > 0 && k <= a.len() {
        lemma_keyed_pass(a, b, keys, table, path, o, (k - 1) as nat);
        let (out, used) = keyed_pass(a, b, keys, table, path, o, (k - 1) as nat);
        let seg = SegmentModel::Index((k - 1) as usize);
        let child = path.push(seg);
        lemma_emit_child(a[k - 1], path, seg, o, false);
        lemma_concat(out, emit_spec(a[k - 1], child, o, false), path, o);
        match crate::diff_spec::key_of(a[k - 1], keys) {
            Some(ak) => match crate::diff_spec::first_unused(table, used, ak, 0) {
                Some(t) => {
                    lemma_diff_child(a[k - 1], b[table[t as int].1 as int], path, seg, o);
                    lemma_concat(out, diff_values_spec(a[k - 1], b[table[t as int].1 as int], child, o), path, o);
                },
                None => {},
            },
            None => {},
        }
    }
}

/// A diff taken at any `path` reports only changes below `path`: each
/// change's path begins with `path`, and no path from `path` itself (when
/// it is not the root) down to the change is matched by an ignore pattern.
/// So a diff taken at a non-root path that a pattern matches reports
/// nothing.
pub proof fn law_ignore_covers_subtrees(old: ValueModel, new: ValueModel, path: Seq<SegmentModel>, o: OptionsModel)
    ensures
        path.len() > 0 && ignored(o, path) ==> diff_values_spec(old, new, path, o).len() == 0,
        forall|i: int| 0 <= i < diff_values_spec(old, new, path, o).len() ==> {
            let q = (#[trigger] diff_values_spec(old, new, path, o)[i]).0;
            &&& path.len() <= q.len()
            &&& q.subrange(0, path.len() as int) == path
            &&& forall|n: int|
                (if path.len() > 0 { path.len() as int } else { 1int }) <= n <= q.len()
                    ==> !ignored(o, #[trigger] q.subrange(0, n))
        },
{
    let d = diff_values_spec(old, new, path, o);
    lemma_diff(old, new, path, o);
    assert forall|i: int| 0 <= i < d.len() implies {
        let q = (#[trigger] d[i]).0;
        &&& path.len() <= q.len()
        &&& q.subrange(0, path.len() as int) == path
        &&& forall|n: int|
            (if path.len() > 0 { path.len() as int } else { 1int }) <= n <= q.len()
                ==> !ignored(o, #[trigger] q.subrange(0, n))
    } by {
        let q = d[i].0;
        assert(reported_below(q, path, o));
        assert forall|n: int|
            (if path.len() > 0 { path.len() as int } else { 1int }) <= n <= q.len()
                implies !ignored(o, #[trigger] q.subrange(0, n)) by {
            if n == path.len() {
                assert(q.subrange(0, n) == path);
            }
        }
    }
}

/// Ignored paths are not reported: no change of a diff sits at a non-root
/// path that an ignore pattern matches (in its `/`-joined form).
pub proof fn law_ignored_paths_are_not_reported(old: ValueModel, new: ValueModel, o: OptionsModel)
    ensures
        forall|i: int|
            0 <= i < diff_values_spec(old, new, Seq::empty(), o).len()
                && (#[trigger] diff_values_spec(old, new, Seq::empty(), o)[i]).0.len() > 0
                ==> !ignored(o, diff_values_spec(old, new, Seq::empty(), o)[i].0),
{
    let d = diff_values_spec(old, new, Seq::empty(), o);
    law_ignore_covers_subtrees(old, new, Seq::empty(), o);
    assert forall|i: int| 0 <= i < d.len() && (#[trigger] d[i]).0.len() > 0 implies !ignored(o, d[i].0) by {
        let q = d[i].0;
        assert(q.subrange(0, q.len() as int) =~= q);
    }
}

} // verus!
