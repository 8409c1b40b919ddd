//! Where the values a diff reports come from: every old value it names is
//! the old document's value at the change's path, and (when arrays are
//! compared without identity keys) every new value it names is the new
//! document's value there. So a removal always carries an old value and an
//! addition a new one.

use vstd::prelude::*;
use crate::diff_spec::{
    KindModel, MAX_DEPTH, diff_arrays_spec, diff_values_spec, emit_elements, emit_entries, emit_spec, ignored,
    keyed_added, keyed_pass, keyed_spec, keyed_table, lcs_or_positional, lcs_walk, min_len, object_added, object_pairs,
    positional_pairs, positional_spec,
};
use crate::laws::unkeyed;
use crate::options::{ArrayStrategy, OptionsModel};
use crate::path::SegmentModel;
use crate::value::{ValueModel, find_key, lemma_find_key_unique, well_formed};

verus! {

/// Whether every array in a tree can be indexed by a `usize` (as every
/// array held in memory can).
pub open spec fn fits(v: ValueModel) -> bool
    decreases v,
{
    match v {
        ValueModel::Object(m) => forall|i: int| 0 <= i < m.len() ==> fits(#[trigger] m[i].1),
        ValueModel::Array(s) => s.len() <= usize::MAX && forall|i: int| 0 <= i < s.len() ==> fits(#[trigger] s[i]),
        _ => true,
    }
}

/// The child of a value under one path segment: an object's value under a
/// key, an array's element at an index.
pub open spec fn step(v: ValueModel, seg: SegmentModel) -> Option<ValueModel> {
    match (v, seg) {
        (ValueModel::Object(m), SegmentModel::Key(k)) => match find_key(m, k) {
            Some(j) => Some(m[j].1),
            None => None,
        },
        (ValueModel::Array(s), SegmentModel::Index(i)) => if i < s.len() {
            Some(s[i as int])
        } else {
            None
        },
        _ => None,
    }
}

/// The value found in `v` by following the segments of `rel`, if any.
pub open spec fn value_at(v: ValueModel, rel: Seq<SegmentModel>) -> Option<ValueModel>
    decreases rel.len(),
{
    if rel.len() == 0 {
        Some(v)
    } else {
        match step(v, rel[0]) {
            Some(c) => value_at(c, rel.drop_first()),
            None => None,
        }
    }
}

/// The old value a change names: what was removed, or what changed.
pub open spec fn old_value(k: KindModel) -> Option<ValueModel> {
    match k {
        KindModel::Added(_) => None,
        KindModel::Removed(v) => Some(v),
        KindModel::Changed(v, _) => Some(v),
        KindModel::TypeChanged(v, _) => Some(v),
    }
}

/// The new value a change names: what was added, or what it changed to.
pub open spec fn new_value(k: KindModel) -> Option<ValueModel> {
    match k {
        KindModel::Added(v) => Some(v),
        KindModel::Removed(_) => None,
        KindModel::Changed(_, v) => Some(v),
        KindModel::TypeChanged(_, v) => Some(v),
    }
}

/// The value a change names on one side: new (`side`) or old.
pub open spec fn carried(k: KindModel, side: bool) -> Option<ValueModel> {
    if side { new_value(k) } else { old_value(k) }
}

pub open spec fn prefixed(q: Seq<SegmentModel>, path: Seq<SegmentModel>) -> bool {
    path.len() <= q.len() && q.subrange(0, path.len() as int) == path
}

/// Whether a change lies below `path` and the value it names on `side` is
/// `root`'s value at the rest of its path.
pub open spec fn sided_change(c: (Seq<SegmentModel>, KindModel), root: ValueModel, path: Seq<SegmentModel>, side: bool) -> bool {
    &&& prefixed(c.0, path)
    &&& carried(c.1, side) matches Some(v) ==> value_at(root, c.0.subrange(path.len() as int, c.0.len() as int)) == Some(v)
}

pub open spec fn sided(s: Seq<(Seq<SegmentModel>, KindModel)>, root: ValueModel, path: Seq<SegmentModel>, side: bool) -> bool {
    forall|i: int| 0 <= i < s.len() ==> #[trigger] sided_change(s[i], root, path, side)
}

/// Whether a change lies below `path` and is an addition (`added`) or a
/// removal.
pub open spec fn one_way_change(c: (Seq<SegmentModel>, KindModel), path: Seq<SegmentModel>, added: bool) -> bool {
    &&& prefixed(c.0, path)
    &&& if added { c.1 is Added } else { c.1 is Removed }
}

pub open spec fn one_way(s: Seq<(Seq<SegmentModel>, KindModel)>, path: Seq<SegmentModel>, added: bool) -> bool {
    forall|i: int| 0 <= i < s.len() ==> #[trigger] one_way_change(s[i], path, added)
}

proof fn lemma_concat(s1: Seq<(Seq<SegmentModel>, KindModel)>, s2: Seq<(Seq<SegmentModel>, KindModel)>, root: ValueModel, path: Seq<SegmentModel>, side: bool)
    requires
        sided(s1, root, path, side),
        sided(s2, root, path, side),
    ensures
        sided(s1 + s2, root, path, side),
{
    assert forall|i: int| 0 <= i < (s1 + s2).len() implies #[trigger] sided_change((s1 + s2)[i], root, path, side) by {
        if i < s1.len() {
            assert((s1 + s2)[i] == s1[i]);
            assert(sided_change(s1[i], root, path, side));
        } else {
            assert((s1 + s2)[i] == s2[i - s1.len()]);
            assert(sided_change(s2[i - s1.len()], root, path, side));
        }
    }
}

proof fn lemma_concat_one_way(s1: Seq<(Seq<SegmentModel>, KindModel)>, s2: Seq<(Seq<SegmentModel>, KindModel)>, path: Seq<SegmentModel>, added: bool)
    requires
        one_way(s1, path, added),
        one_way(s2, path, added),
    ensures
        one_way(s1 + s2, path, added),
{
    assert forall|i: int| 0 <= i < (s1 + s2).len() implies #[trigger] one_way_change((s1 + s2)[i], path, added) by {
        if i < s1.len() {
            assert((s1 + s2)[i] == s1[i]);
            assert(one_way_change(s1[i], path, added));
        } else {
            assert((s1 + s2)[i] == s2[i - s1.len()]);
            assert(one_way_change(s2[i - s1.len()], path, added));
        }
    }
}

/// The prefix of a path below `path.push(seg)` up to `path` is `path`, and
/// what follows starts with `seg`.
proof fn lemma_split(q: Seq<SegmentModel>, path: Seq<SegmentModel>, seg: SegmentModel)
    requires
        prefixed(q, path.push(seg)),
    ensures
        prefixed(q, path),
        q.subrange(path.len() as int, q.len() as int).len() > 0,
        q.subrange(path.len() as int, q.len() as int)[0] == seg,
        q.subrange(path.len() as int, q.len() as int).drop_first() == q.subrange(path.len() as int + 1, q.len() as int),
{
    let child = path.push(seg);
    assert(q.subrange(0, child.len() as int) == child);
    assert(q.subrange(0, path.len() as int) =~= path) by {
        assert forall|t: int| 0 <= t < path.len() implies q[t] == path[t] by {
            assert(q.subrange(0, child.len() as int)[t] == child[t]);
        }
    }
    assert(q[path.len() as int] == seg) by {
        assert(q.subrange(0, child.len() as int)[path.len() as int] == child[path.len() as int]);
    }
    assert(q.subrange(path.len() as int, q.len() as int).drop_first() =~= q.subrange(path.len() as int + 1, q.len() as int));
}

proof fn lemma_lift(s: Seq<(Seq<SegmentModel>, KindModel)>, root: ValueModel, c: ValueModel, path: Seq<SegmentModel>, seg: SegmentModel, side: bool)
    requires
        sided(s, c, path.push(seg), side),
        step(root, seg) == Some(c),
    ensures
        sided(s, root, path, side),
{
    assert forall|i: int| 0 <= i < s.len() implies #[trigger] sided_change(s[i], root, path, side) by {
        let q = s[i].0;
        assert(sided_change(s[i], c, path.push(seg), side));
        lemma_split(q, path, seg);
        assert(path.push(seg).len() == path.len() + 1);
    }
}

proof fn lemma_lift_one_way(s: Seq<(Seq<SegmentModel>, KindModel)>, path: Seq<SegmentModel>, seg: SegmentModel, added: bool)
    requires
        one_way(s, path.push(seg), added),
    ensures
        one_way(s, path, added),
{
    assert forall|i: int| 0 <= i < s.len() implies #[trigger] one_way_change(s[i], path, added) by {
        assert(one_way_change(s[i], path.push(seg), added));
        lemma_split(s[i].0, path, seg);
    }
}

/// Changes that all add (or all remove) name no value on the other side.
proof fn lemma_one_way_sided(s: Seq<(Seq<SegmentModel>, KindModel)>, root: ValueModel, path: Seq<SegmentModel>, added: bool, side: bool)
    requires
        one_way(s, path, added),
        added != side,
    ensures
        sided(s, root, path, side),
{
    assert forall|i: int| 0 <= i < s.len() implies #[trigger] sided_change(s[i], root, path, side) by {
        assert(one_way_change(s[i], path, added));
    }
}

/// The changes at `path` itself that name `root` on `side`.
proof fn lemma_at(s: Seq<(Seq<SegmentModel>, KindModel)>, root: ValueModel, path: Seq<SegmentModel>, side: bool)
    requires
        forall|i: int| 0 <= i < s.len() ==> (#[trigger] s[i]).0 == path && (carried(s[i].1, side) matches Some(v) ==> v == root),
    ensures
        sided(s, root, path, side),
{
    assert forall|i: int| 0 <= i < s.len() implies #[trigger] sided_change(s[i], root, path, side) by {
        assert(s[i].0.subrange(0, path.len() as int) =~= path);
        assert(s[i].0.subrange(path.len() as int, s[i].0.len() as int) =~= Seq::<SegmentModel>::empty());
    }
}

/// A child's step from a well-formed object by its own key.
proof fn lemma_step_entry(m: Seq<(Seq<char>, ValueModel)>, k: int)
    requires
        well_formed(ValueModel::Object(m)),
        fits(ValueModel::Object(m)),
        0 <= k < m.len(),
    ensures
        step(ValueModel::Object(m), SegmentModel::Key(m[k].0)) == Some(m[k].1),
        well_formed(m[k].1),
        fits(m[k].1),
{
    lemma_find_key_unique(m, k);
}

proof fn lemma_emit_one_way(v: ValueModel, path: Seq<SegmentModel>, o: OptionsModel, added: bool)
    ensures
        one_way(emit_spec(v, path, o, added), path, added),
    decreases v, 0nat,
{
    if ignored(o, path) {
    } else if o.expand && path.len() < MAX_DEPTH && v is Object && v->Object_0.len() > 0 {
        lemma_entries_one_way(v->Object_0, path, o, added, v->Object_0.len());
    } else if o.expand && path.len() < MAX_DEPTH && v is Array && v->Array_0.len() > 0 {
        lemma_elements_one_way(v->Array_0, path, o, added, 0, v->Array_0.len());
    } else {
        let s = emit_spec(v, path, o, added);
        assert forall|i: int| 0 <= i < s.len() implies #[trigger] one_way_change(s[i], path, added) by {
            assert(s[i].0.subrange(0, path.len() as int) =~= path);
        }
    }
}

proof fn lemma_entries_one_way(m: Seq<(Seq<char>, ValueModel)>, path: Seq<SegmentModel>, o: OptionsModel, added: bool, k: nat)
    ensures
        one_way(emit_entries(m, path, o, added, k), path, added),
    decreases m, k,
{
    if k > 0 && k <= m.len() {
        lemma_entries_one_way(m, path, o, added, (k - 1) as nat);
        let seg = SegmentModel::Key(m[k - 1].0);
        lemma_emit_one_way(m[k - 1].1, path.push(seg), o, added);
        lemma_lift_one_way(emit_spec(m[k - 1].1, path.push(seg), o, added), path, seg, added);
        lemma_concat_one_way(emit_entries(m, path, o, added, (k - 1) as nat), emit_spec(m[k - 1].1, path.push(seg), o, added), path, added);
    }
}

proof fn lemma_elements_one_way(s: Seq<ValueModel>, path: Seq<SegmentModel>, o: OptionsModel, added: bool, lo: nat, k: nat)
    ensures
        one_way(emit_elements(s, path, o, added, lo, k), path, added),
    decreases s, k,
{
    if k > lo && k <= s.len() {
        lemma_elements_one_way(s, path, o, added, lo, (k - 1) as nat);
        let seg = SegmentModel::Index((k - 1) as usize);
        lemma_emit_one_way(s[k - 1], path.push(seg), o, added);
        lemma_lift_one_way(emit_spec(s[k - 1], path.push(seg), o, added), path, seg, added);
        lemma_concat_one_way(emit_elements(s, path, o, added, lo, (k - 1) as nat), emit_spec(s[k - 1], path.push(seg), o, added), path, added);
    }
}

/// A value reported added (on the new side) or removed (on the old side)
/// is reported with the values it holds.
proof fn lemma_emit_same(v: ValueModel, path: Seq<SegmentModel>, o: OptionsModel, side: bool)
    requires
        well_formed(v),
        fits(v),
    ensures
        sided(emit_spec(v, path, o, side), v, path, side),
    decreases v, 0nat,
{
    if ignored(o, path) {
    } else if o.expand && path.len() < MAX_DEPTH && v is Object && v->Object_0.len() > 0 {
        lemma_entries_same(v->Object_0, path, o, side, v->Object_0.len());
    } else if o.expand && path.len() < MAX_DEPTH && v is Array && v->Array_0.len() > 0 {
        lemma_elements_same(v->Array_0, path, o, side, 0, v->Array_0.len());
    } else {
        lemma_at(emit_spec(v, path, o, side), v, path, side);
    }
}

proof fn lemma_entries_same(m: Seq<(Seq<char>, ValueModel)>, path: Seq<SegmentModel>, o: OptionsModel, side: bool, k: nat)
    requires
        well_formed(ValueModel::Object(m)),
        fits(ValueModel::Object(m)),
    ensures
        sided(emit_entries(m, path, o, side, k), ValueModel::Object(m), path, side),
    decreases m, k,
{
    if k > 0 && k <= m.len() {
        lemma_entries_same(m, path, o, side, (k - 1) as nat);
        let seg = SegmentModel::Key(m[k - 1].0);
        lemma_step_entry(m, k - 1);
        lemma_emit_same(m[k - 1].1, path.push(seg), o, side);
        lemma_lift(emit_spec(m[k - 1].1, path.push(seg), o, side), ValueModel::Object(m), m[k - 1].1, path, seg, side);
        lemma_concat(emit_entries(m, path, o, side, (k - 1) as nat), emit_spec(m[k - 1].1, path.push(seg), o, side), ValueModel::Object(m), path, side);
    }
}

proof fn lemma_elements_same(s: Seq<ValueModel>, path: Seq<SegmentModel>, o: OptionsModel, side: bool, lo: nat, k: nat)
    requires
        well_formed(ValueModel::Array(s)),
        fits(ValueModel::Array(s)),
    ensures
        sided(emit_elements(s, path, o, side, lo, k), ValueModel::Array(s), path, side),
    decreases s, k,
{
    if k > lo && k <= s.len() {
        lemma_elements_same(s, path, o, side, lo, (k - 1) as nat);
        let seg = SegmentModel::Index((k - 1) as usize);
        lemma_emit_same(s[k - 1], path.push(seg), o, side);
        lemma_lift(emit_spec(s[k - 1], path.push(seg), o, side), ValueModel::Array(s), s[k - 1], path, seg, side);
        lemma_concat(emit_elements(s, path, o, side, lo, (k - 1) as nat), emit_spec(s[k - 1], path.push(seg), o, side), ValueModel::Array(s), path, side);
    }
}

/// The elements at positions `lo .. k` of the array on the reported side
/// (`added == side`) or of the other.
proof fn lemma_elements(s: Seq<ValueModel>, root: ValueModel, path: Seq<SegmentModel>, o: OptionsModel, added: bool, side: bool, lo: nat, k: nat)
    requires
        added == side ==> root == ValueModel::Array(s) && well_formed(root) && fits(root),
    ensures
        sided(emit_elements(s, path, o, added, lo, k), root, path, side),
{
    if added == side {
        lemma_elements_same(s, path, o, side, lo, k);
    } else {
        lemma_elements_one_way(s, path, o, added, lo, k);
        lemma_one_way_sided(emit_elements(s, path, o, added, lo, k), root, path, added, side);
    }
}

/// A child's value reported added or removed, under a child of `path` whose
/// value on the reported side is the child.
proof fn lemma_emit_child(v: ValueModel, root: ValueModel, path: Seq<SegmentModel>, seg: SegmentModel, o: OptionsModel, added: bool, side: bool)
    requires
        added == side ==> step(root, seg) == Some(v) && well_formed(v) && fits(v),
    ensures
        sided(emit_spec(v, path.push(seg), o, added), root, path, side),
{
    let e = emit_spec(v, path.push(seg), o, added);
    if added == side {
        lemma_emit_same(v, path.push(seg), o, side);
        lemma_lift(e, root, v, path, seg, side);
    } else {
        lemma_emit_one_way(v, path.push(seg), o, added);
        lemma_lift_one_way(e, path, seg, added);
        lemma_one_way_sided(e, root, path, added, side);
    }
}

/// The side's document at a pair of values: the old one, or the new one.
pub open spec fn pick(old: ValueModel, new: ValueModel, side: bool) -> ValueModel {
    if side { new } else { old }
}

proof fn lemma_diff(old: ValueModel, new: ValueModel, path: Seq<SegmentModel>, o: OptionsModel, side: bool)
    requires
        well_formed(old),
        fits(old),
        well_formed(new),
        fits(new),
        side ==> unkeyed(o),
    ensures
        sided(diff_values_spec(old, new, path, o), pick(old, new, side), path, side),
    decreases old, 0nat,
{
    let d = diff_values_spec(old, new, path, o);
    let root = pick(old, new, side);
    if path.len() > 0 && ignored(o, path) {
    } else {
        match (old, new) {
            (ValueModel::Object(a), ValueModel::Object(b)) => {
                if path.len() < MAX_DEPTH {
                    lemma_pairs(a, b, path, o, side, a.len());
                    lemma_added(a, b, path, o, side, b.len());
                    lemma_concat(object_pairs(a, b, path, o, a.len()), object_added(a, b, path, o, b.len()), root, path, side);
                } else {
                    lemma_at(d, root, path, side);
                }
            },
            (ValueModel::Array(a), ValueModel::Array(b)) => {
                if path.len() < MAX_DEPTH {
                    lemma_arrays(a, b, path, o, side);
                } else {
                    lemma_at(d, root, path, side);
                }
            },
            _ => {
                lemma_at(d, root, path, side);
            },
        }
    }
}

proof fn lemma_pairs(a: Seq<(Seq<char>, ValueModel)>, b: Seq<(Seq<char>, ValueModel)>, path: Seq<SegmentModel>, o: OptionsModel, side: bool, k: nat)
    requires
        well_formed(ValueModel::Object(a)),
        fits(ValueModel::Object(a)),
        well_formed(ValueModel::Object(b)),
        fits(ValueModel::Object(b)),
        side ==> unkeyed(o),
        k <= a.len(),
    ensures
        sided(object_pairs(a, b, path, o, k), pick(ValueModel::Object(a), ValueModel::Object(b), side), path, side),
    decreases a, k,
{
    let root = pick(ValueModel::Object(a), ValueModel::Object(b), side);
    if k > 0 {
        lemma_pairs(a, b, path, o, side, (k - 1) as nat);
        let key = a[k - 1].0;
        let seg = SegmentModel::Key(key);
        lemma_step_entry(a, k - 1);
        let tail = match find_key(b, key) {
            Some(j) => diff_values_spec(a[k - 1].1, b[j].1, path.push(seg), o),
            None => emit_spec(a[k - 1].1, path.push(seg), o, false),
        };
        match find_key(b, key) {
            Some(j) => {
                crate::value::lemma_find_key(b, key);
                lemma_step_entry(b, j);
                assert(b[j].0 == key);
                lemma_diff(a[k - 1].1, b[j].1, path.push(seg), o, side);
                lemma_lift(tail, root, pick(a[k - 1].1, b[j].1, side), path, seg, side);
            },
            None => {
                lemma_emit_child(a[k - 1].1, root, path, seg, o, false, side);
            },
        }
        lemma_concat(object_pairs(a, b, path, o, (k - 1) as nat), tail, root, path, side);
    }
}

proof fn lemma_added(a: Seq<(Seq<char>, ValueModel)>, b: Seq<(Seq<char>, ValueModel)>, path: Seq<SegmentModel>, o: OptionsModel, side: bool, k: nat)
    requires
        well_formed(ValueModel::Object(b)),
        fits(ValueModel::Object(b)),
        k <= b.len(),
    ensures
        sided(object_added(a, b, path, o, k), pick(ValueModel::Object(a), ValueModel::Object(b), side), path, side),
    decreases k,
{
    let root = pick(ValueModel::Object(a), ValueModel::Object(b), side);
    if k > 0 {
        lemma_added(a, b, path, o, side, (k - 1) as nat);
        let seg = SegmentModel::Key(b[k - 1].0);
        lemma_step_entry(b, k - 1);
        lemma_emit_child(b[k - 1].1, root, path, seg, o, true, side);
        let tail = if find_key(a, b[k - 1].0) is None {
            emit_spec(b[k - 1].1, path.push(seg), o, true)
        } else {
            Seq::empty()
        };
        lemma_concat(object_added(a, b, path, o, (k - 1) as nat), tail, root, path, side);
    }
}

proof fn lemma_arrays(a: Seq<ValueModel>, b: Seq<ValueModel>, path: Seq<SegmentModel>, o: OptionsModel, side: bool)
    requires
        well_formed(ValueModel::Array(a)),
        fits(ValueModel::Array(a)),
        well_formed(ValueModel::Array(b)),
        fits(ValueModel::Array(b)),
        side ==> unkeyed(o),
    ensures
        sided(diff_arrays_spec(a, b, path, o), pick(ValueModel::Array(a), ValueModel::Array(b), side), path, side),
    decreases a, a.len() + 3,
{
    match o.array_strategy {
        ArrayStrategy::Positional => lemma_positional(a, b, path, o, side),
        ArrayStrategy::Lcs => lemma_lcs_or_positional(a, b, path, o, side),
        ArrayStrategy::Keyed => if o.array_keys.len() == 0 {
            lemma_lcs_or_positional(a, b, path, o, side);
        } else {
            lemma_keyed(a, b, o.array_keys, path, o);
        },
        ArrayStrategy::Auto => match crate::diff_spec::auto_key(a, b) {
            Some(k) => lemma_keyed(a, b, seq![k], path, o),
            None => lemma_lcs_or_positional(a, b, path, o, side),
        },
    }
}

proof fn lemma_lcs_or_positional(a: Seq<ValueModel>, b: Seq<ValueModel>, path: Seq<SegmentModel>, o: OptionsModel, side: bool)
    requires
        well_formed(ValueModel::Array(a)),
        fits(ValueModel::Array(a)),
        well_formed(ValueModel::Array(b)),
        fits(ValueModel::Array(b)),
        side ==> unkeyed(o),
    ensures
        sided(lcs_or_positional(a, b, path, o), pick(ValueModel::Array(a), ValueModel::Array(b), side), path, side),
    decreases a, a.len() + 2,
{
    lemma_positional(a, b, path, o, side);
    lemma_walk(a, b, 0, 0, path, o, side);
}

proof fn lemma_positional(a: Seq<ValueModel>, b: Seq<ValueModel>, path: Seq<SegmentModel>, o: OptionsModel, side: bool)
    requires
        well_formed(ValueModel::Array(a)),
        fits(ValueModel::Array(a)),
        well_formed(ValueModel::Array(b)),
        fits(ValueModel::Array(b)),
        side ==> unkeyed(o),
    ensures
        sided(positional_spec(a, b, path, o), pick(ValueModel::Array(a), ValueModel::Array(b), side), path, side),
    decreases a, a.len() + 1,
{
    let root = pick(ValueModel::Array(a), ValueModel::Array(b), side);
    let common = min_len(a.len(), b.len());
    lemma_positional_pairs(a, b, path, o, side, common);
    lemma_elements(a, root, path, o, false, side, common, a.len());
    lemma_elements(b, root, path, o, true, side, common, b.len());
    lemma_concat(positional_pairs(a, b, path, o, common), emit_elements(a, path, o, false, common, a.len()), root, path, side);
    lemma_concat(
        positional_pairs(a, b, path, o, common) + emit_elements(a, path, o, false, common, a.len()),
        emit_elements(b, path, o, true, common, b.len()),
        root,
        path,
        side,
    );
}

proof fn lemma_positional_pairs(a: Seq<ValueModel>, b: Seq<ValueModel>, path: Seq<SegmentModel>, o: OptionsModel, side: bool, k: nat)
    requires
        well_formed(ValueModel::Array(a)),
        fits(ValueModel::Array(a)),
        well_formed(ValueModel::Array(b)),
        fits(ValueModel::Array(b)),
        side ==> unkeyed(o),
    ensures
        sided(positional_pairs(a, b, path, o, k), pick(ValueModel::Array(a), ValueModel::Array(b), side), path, side),
    decreases a, k,
{
    let root = pick(ValueModel::Array(a), ValueModel::Array(b), side);
    if k > 0 && k <= a.len() && k <= b.len() {
        lemma_positional_pairs(a, b, path, o, side, (k - 1) as nat);
        let seg = SegmentModel::Index((k - 1) as usize);
        let t = diff_values_spec(a[k - 1], b[k - 1], path.push(seg), o);
        lemma_diff(a[k - 1], b[k - 1], path.push(seg), o, side);
        lemma_lift(t, root, pick(a[k - 1], b[k - 1], side), path, seg, side);
        lemma_concat(positional_pairs(a, b, path, o, (k - 1) as nat), t, root, path, side);
    }
}

proof fn lemma_walk(a: Seq<ValueModel>, b: Seq<ValueModel>, i: nat, j: nat, path: Seq<SegmentModel>, o: OptionsModel, side: bool)
    requires
        well_formed(ValueModel::Array(a)),
        fits(ValueModel::Array(a)),
        well_formed(ValueModel::Array(b)),
        fits(ValueModel::Array(b)),
    ensures
        sided(lcs_walk(a, b, i, j, path, o), pick(ValueModel::Array(a), ValueModel::Array(b), side), path, side),
    decreases a.len() + b.len() - i - j,
{
    let root = pick(ValueModel::Array(a), ValueModel::Array(b), side);
    if i <= a.len() && j <= b.len() {
        let sa = SegmentModel::Index(i as usize);
        let sb = SegmentModel::Index(j as usize);
        let ra = emit_spec(a[i as int], path.push(sa), o, false);
        let rb = emit_spec(b[j as int], path.push(sb), o, true);
        if i < a.len() {
            lemma_emit_child(a[i as int], root, path, sa, o, false, side);
            lemma_walk(a, b, i + 1, j, path, o, side);
            lemma_concat(ra, lcs_walk(a, b, i + 1, j, path, o), root, path, side);
        }
        if j < b.len() {
            lemma_emit_child(b[j as int], root, path, sb, o, true, side);
            lemma_walk(a, b, i, j + 1, path, o, side);
            lemma_concat(rb, lcs_walk(a, b, i, j + 1, path, o), root, path, side);
        }
        if i < a.len() && j < b.len() {
            lemma_walk(a, b, i + 1, j + 1, path, o, side);
        }
    }
}

proof fn lemma_keyed(a: Seq<ValueModel>, b: Seq<ValueModel>, keys: Seq<Seq<char>>, path: Seq<SegmentModel>, o: OptionsModel)
    requires
        well_formed(ValueModel::Array(a)),
        fits(ValueModel::Array(a)),
        well_formed(ValueModel::Array(b)),
        fits(ValueModel::Array(b)),
    ensures
        sided(keyed_spec(a, b, keys, path, o), ValueModel::Array(a), path, false),
    decreases a, a.len() + 1,
{
    let table = keyed_table(b, keys, b.len());
    lemma_table_positions(b, keys, b.len());
    lemma_keyed_pass(a, b, keys, table, path, o, a.len());
    let (out, used) = keyed_pass(a, b, keys, table, path, o, a.len());
    lemma_keyed_added(b, table, used, path, o, b.len());
    lemma_one_way_sided(keyed_added(b, table, used, path, o, b.len()), ValueModel::Array(a), path, true, false);
    lemma_concat(out, keyed_added(b, table, used, path, o, b.len()), ValueModel::Array(a), path, false);
}

proof fn lemma_table_positions(b: Seq<ValueModel>, keys: Seq<Seq<char>>, k: nat)
    ensures
        forall|t: int| 0 <= t < keyed_table(b, keys, k).len() ==> (#[trigger] keyed_table(b, keys, k)[t]).1 < k,
    decreases k,
{
    if k > 0 && k <= b.len() {
        lemma_table_positions(b, keys, (k - 1) as nat);
        let prev = keyed_table(b, keys, (k - 1) as nat);
        let tab = keyed_table(b, keys, k);
        assert forall|t: int| 0 <= t < tab.len() implies (#[trigger] tab[t]).1 < k by {
            if t < prev.len() {
                assert(tab[t] == prev[t]);
            }
        }
    }
}

proof fn lemma_keyed_added(b: Seq<ValueModel>, table: Seq<(ValueModel, nat)>, used: Seq<bool>, path: Seq<SegmentModel>, o: OptionsModel, k: nat)
    ensures
        one_way(keyed_added(b, table, used, path, o, k), path, true),
    decreases k,
{
    if k > 0 && k <= b.len() {
        lemma_keyed_added(b, table, used, path, o, (k - 1) as nat);
        let seg = SegmentModel::Index((k - 1) as usize);
        lemma_emit_one_way(b[k - 1], path.push(seg), o, true);
        lemma_lift_one_way(emit_spec(b[k - 1], path.push(seg), o, true), path, seg, true);
        let tail = if crate::diff_spec::consumed(table, used, (k - 1) as nat) {
            Seq::empty()
        } else {
            emit_spec(b[k - 1], path.push(seg), o, true)
        };
        lemma_concat_one_way(keyed_added(b, table, used, path, o, (k - 1) as nat), tail, path, true);
    }
}

proof fn lemma_keyed_pass(
    a: Seq<ValueModel>,
    b: Seq<ValueModel>,
    keys: Seq<Seq<char>>,
    table: Seq<(ValueModel, nat)>,
    path: Seq<SegmentModel>,
    o: OptionsModel,
    k: nat,
)
    requires
        well_formed(ValueModel::Array(a)),
        fits(ValueModel::Array(a)),
        well_formed(ValueModel::Array(b)),
        fits(ValueModel::Array(b)),
        forall|t: int| 0 <= t < table.len() ==> (#[trigger] table[t]).1 < b.len(),
    ensures
        sided(keyed_pass(a, b, keys, table, path, o, k).0, ValueModel::Array(a), path, false),
    decreases a, k,
{
    let root = ValueModel::Array(a);
    if k > 0 && k <= a.len() {
        lemma_keyed_pass(a, b, keys, table, path, o, (k - 1) as nat);
        let (out, used) = keyed_pass(a, b, keys, table, path, o, (k - 1) as nat);
        let seg = SegmentModel::Index((k - 1) as usize);
        let child = path.push(seg);
        lemma_emit_child(a[k - 1], root, path, seg, o, false, false);
        lemma_concat(out, emit_spec(a[k - 1], child, o, false), root, path, false);
        match crate::diff_spec::key_of(a[k - 1], keys) {
            Some(ak) => match crate::diff_spec::first_unused(table, used, ak, 0) {
                Some(t) => {
                    lemma_first_unused_in(table, used, ak, 0);
                    let bj = b[table[t as int].1 as int];
                    let d = diff_values_spec(a[k - 1], bj, child, o);
                    lemma_diff(a[k - 1], bj, child, o, false);
                    lemma_lift(d, root, a[k - 1], path, seg, false);
                    lemma_concat(out, d, root, path, false);
                },
                None => {},
            },
            None => {},
        }
    }
}

proof fn lemma_first_unused_in(table: Seq<(ValueModel, nat)>, used: Seq<bool>, key: ValueModel, s: nat)
    ensures
        crate::diff_spec::first_unused(table, used, key, s) matches Some(t) ==> t < table.len(),
    decreases table.len() - s,
{
    if s < table.len() {
        lemma_first_unused_in(table, used, key, s + 1);
    }
}

/// Changes name values from the documents they compare: for well-formed
/// documents whose arrays a `usize` can index (every document in memory),
/// every old value a change names (what was removed, or what
/// changed) is the old document's value at the change's path; and when
/// arrays are compared without identity keys, every new value a change names
/// (what was added, or what it changed to) is the new document's value at
/// that path. So a removal never reports an element of the new document, nor
/// an addition one of the old.
pub proof fn law_changes_name_document_values(old: ValueModel, new: ValueModel, o: OptionsModel)
    requires
        well_formed(old),
        fits(old),
        well_formed(new),
        fits(new),
    ensures
        forall|i: int| 0 <= i < diff_values_spec(old, new, Seq::empty(), o).len()
            ==> (old_value((#[trigger] diff_values_spec(old, new, Seq::empty(), o)[i]).1) matches Some(v)
                ==> value_at(old, diff_values_spec(old, new, Seq::empty(), o)[i].0) == Some(v)),
        unkeyed(o) ==> forall|i: int| 0 <= i < diff_values_spec(old, new, Seq::empty(), o).len()
            ==> (new_value((#[trigger] diff_values_spec(old, new, Seq::empty(), o)[i]).1) matches Some(v)
                ==> value_at(new, diff_values_spec(old, new, Seq::empty(), o)[i].0) == Some(v)),
{
    let d = diff_values_spec(old, new, Seq::empty(), o);
    lemma_diff(old, new, Seq::empty(), o, false);
    assert forall|i: int| 0 <= i < d.len() implies (old_value((#[trigger] d[i]).1) matches Some(v) ==> value_at(old, d[i].0) == Some(v)) by {
        assert(sided_change(d[i], old, Seq::empty(), false));
        assert(d[i].0.subrange(0, d[i].0.len() as int) =~= d[i].0);
    }
    if unkeyed(o) {
        lemma_diff(old, new, Seq::empty(), o, true);
        assert forall|i: int| 0 <= i < d.len() implies (new_value((#[trigger] d[i]).1) matches Some(v) ==> value_at(new, d[i].0) == Some(v)) by {
            assert(sided_change(d[i], new, Seq::empty(), true));
            assert(d[i].0.subrange(0, d[i].0.len() as int) =~= d[i].0);
        }
    }
}

} // verus!
