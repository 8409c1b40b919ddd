//! What a diff is: the list of changes between two value trees, defined over
//! the models of values, paths and options.

use vstd::prelude::*;
use crate::glob::glob_matches;
use crate::numeric::{float_eq_ieee, int_float_bits, numbers_equal};
use crate::options::{ArrayStrategy, OptionsModel};
use crate::path::{SegmentModel, spec_match_string};
use crate::value::{ValueModel, find_key, spec_is_scalar, spec_type_name};

verus! {

/// Nodes deeper than this many path segments are not compared: a pair of
/// containers found there is reported as one `Changed` marker, and added or
/// removed subtrees there are not expanded.
pub const MAX_DEPTH: usize = 128;

/// Arrays whose LCS table would need more cells than this are compared
/// positionally instead.
pub const LCS_CELL_LIMIT: usize = 1_000_000;

/// The kind of a change, over value models.
pub ghost enum KindModel {
    Added(ValueModel),
    Removed(ValueModel),
    Changed(ValueModel, ValueModel),
    TypeChanged(ValueModel, ValueModel),
}

/// How two scalars relate.
#[derive(Debug, Clone, Copy, PartialEq, Eq, Structural)]
pub enum ScalarRel {
    Equal,
    Changed,
    TypeChanged,
}

/// Whether a path is excluded by one of the ignore patterns.
pub open spec fn ignored(o: OptionsModel, path: Seq<SegmentModel>) -> bool {
    exists|i: int| 0 <= i < o.ignore.len() && glob_matches(#[trigger] o.ignore[i], spec_match_string(path))
}

pub open spec fn is_numeric(v: ValueModel) -> bool {
    v is Integer || v is Float
}

/// The `f64` a number stands for, as a bit pattern (integers are converted
/// as `i as f64` does).
pub open spec fn numeric_bits(v: ValueModel) -> u64 {
    match v {
        ValueModel::Integer(i) => int_float_bits(i),
        ValueModel::Float(b, _) => b,
        _ => 0,
    }
}

/// Whether two scalars are equal under the options: nulls, booleans and
/// strings by value; numbers by their `f64` value (with the tolerance, if
/// any), and an integer never equals a float unless `numbers_loose` is set.
pub open spec fn scalar_equal(a: ValueModel, b: ValueModel, o: OptionsModel) -> bool {
    match (a, b) {
        (ValueModel::Null, ValueModel::Null) => true,
        (ValueModel::Bool(x), ValueModel::Bool(y)) => x == y,
        (ValueModel::String(x), ValueModel::String(y)) => x == y,
        _ => {
            &&& is_numeric(a)
            &&& is_numeric(b)
            &&& (o.numbers_loose || spec_type_name(a) == spec_type_name(b))
            &&& numbers_equal(numeric_bits(a), numeric_bits(b), o.float_tolerance)
        },
    }
}

/// How two scalars relate: equal; a change of value (same type, or two
/// numbers under `numbers_loose`); or a change of type.
pub open spec fn scalar_relation(a: ValueModel, b: ValueModel, o: OptionsModel) -> ScalarRel {
    if scalar_equal(a, b, o) {
        ScalarRel::Equal
    } else if spec_type_name(a) == spec_type_name(b) {
        ScalarRel::Changed
    } else if is_numeric(a) && is_numeric(b) && o.numbers_loose {
        ScalarRel::Changed
    } else {
        ScalarRel::TypeChanged
    }
}

/// Whether two trees are equal, position by position in arrays and key by
/// key in objects, with scalars compared by `scalar_equal`. Containers at
/// `MAX_DEPTH` or deeper are never equal.
pub open spec fn deep_equal(a: ValueModel, b: ValueModel, depth: nat, o: OptionsModel) -> bool
    decreases a,
{
    match (a, b) {
        (ValueModel::Object(x), ValueModel::Object(y)) => {
            &&& depth < MAX_DEPTH
            &&& x.len() == y.len()
            &&& forall|i: int|
                0 <= i < x.len() ==> match find_key(y, #[trigger] x[i].0) {
                    Some(j) => deep_equal(x[i].1, y[j].1, depth + 1, o),
                    None => false,
                }
        },
        (ValueModel::Array(x), ValueModel::Array(y)) => {
            &&& depth < MAX_DEPTH
            &&& x.len() == y.len()
            &&& forall|i: int| 0 <= i < x.len() ==> deep_equal(#[trigger] x[i], y[i], depth + 1, o)
        },
        _ => spec_is_scalar(a) && spec_is_scalar(b) && scalar_equal(a, b, o),
    }
}

/// The change reporting a value added (`added`) or removed at `path`.
pub open spec fn whole_change(v: ValueModel, path: Seq<SegmentModel>, added: bool) -> (Seq<SegmentModel>, KindModel) {
    (path, if added { KindModel::Added(v) } else { KindModel::Removed(v) })
}

/// The changes reporting `v` added (`added`) or removed at `path`: nothing
/// when the path is ignored; with `expand`, one change per leaf of a
/// non-empty container (above `MAX_DEPTH`); otherwise one change for the
/// whole value.
pub open spec fn emit_spec(v: ValueModel, path: Seq<SegmentModel>, o: OptionsModel, added: bool) -> Seq<(Seq<SegmentModel>, KindModel)>
    decreases v, 0nat,
{
    if ignored(o, path) {
        Seq::empty()
    } else if o.expand && path.len() < MAX_DEPTH && v is Object && v->Object_0.len() > 0 {
        emit_entries(v->Object_0, path, o, added, v->Object_0.len())
    } else if o.expand && path.len() < MAX_DEPTH && v is Array && v->Array_0.len() > 0 {
        emit_elements(v->Array_0, path, o, added, 0, v->Array_0.len())
    } else {
        seq![whole_change(v, path, added)]
    }
}

/// `emit_spec` for the first `k` entries of an object, each under its key.
pub open spec fn emit_entries(m: Seq<(Seq<char>, ValueModel)>, path: Seq<SegmentModel>, o: OptionsModel, added: bool, k: nat) -> Seq<(Seq<SegmentModel>, KindModel)>
    decreases m, k,
{
    if k == 0 || k > m.len() {
        Seq::empty()
    } else {
        emit_entries(m, path, o, added, (k - 1) as nat)
            + emit_spec(m[k - 1].1, path.push(SegmentModel::Key(m[k - 1].0)), o, added)
    }
}

/// `emit_spec` for the elements at positions `lo .. k` of an array, each
/// under its index.
pub open spec fn emit_elements(s: Seq<ValueModel>, path: Seq<SegmentModel>, o: OptionsModel, added: bool, lo: nat, k: nat) -> Seq<(Seq<SegmentModel>, KindModel)>
    decreases s, k,
{
    if k <= lo || k > s.len() {
        Seq::empty()
    } else {
        emit_elements(s, path, o, added, lo, (k - 1) as nat)
            + emit_spec(s[k - 1], path.push(SegmentModel::Index((k - 1) as usize)), o, added)
    }
}

/// The changes between two values at `path`.
pub open spec fn diff_values_spec(old: ValueModel, new: ValueModel, path: Seq<SegmentModel>, o: OptionsModel) -> Seq<(Seq<SegmentModel>, KindModel)>
    decreases old, 0nat,
{
    if path.len() > 0 && ignored(o, path) {
        Seq::empty()
    } else {
        match (old, new) {
            (ValueModel::Object(a), ValueModel::Object(b)) => if path.len() >= MAX_DEPTH {
                seq![(path, KindModel::Changed(old, new))]
            } else {
                object_pairs(a, b, path, o, a.len()) + object_added(a, b, path, o, b.len())
            },
            (ValueModel::Array(a), ValueModel::Array(b)) => if path.len() >= MAX_DEPTH {
                seq![(path, KindModel::Changed(old, new))]
            } else {
                diff_arrays_spec(a, b, path, o)
            },
            _ => if spec_is_scalar(old) && spec_is_scalar(new) {
                match scalar_relation(old, new, o) {
                    ScalarRel::Equal => Seq::empty(),
                    ScalarRel::Changed => seq![(path, KindModel::Changed(old, new))],
                    ScalarRel::TypeChanged => seq![(path, KindModel::TypeChanged(old, new))],
                }
            } else {
                seq![(path, KindModel::TypeChanged(old, new))]
            },
        }
    }
}

/// The changes for the first `k` entries of the old object: a key also in
/// the new object is diffed against it, a key missing there is removed.
pub open spec fn object_pairs(a: Seq<(Seq<char>, ValueModel)>, b: Seq<(Seq<char>, ValueModel)>, path: Seq<SegmentModel>, o: OptionsModel, k: nat) -> Seq<(Seq<SegmentModel>, KindModel)>
    decreases a, k,
{
    if k == 0 || k > a.len() {
        Seq::empty()
    } else {
        object_pairs(a, b, path, o, (k - 1) as nat) + match find_key(b, a[k - 1].0) {
            Some(j) => diff_values_spec(a[k - 1].1, b[j].1, path.push(SegmentModel::Key(a[k - 1].0)), o),
            None => emit_spec(a[k - 1].1, path.push(SegmentModel::Key(a[k - 1].0)), o, false),
        }
    }
}

/// The additions for the first `k` entries of the new object whose keys the
/// old object lacks.
pub open spec fn object_added(a: Seq<(Seq<char>, ValueModel)>, b: Seq<(Seq<char>, ValueModel)>, path: Seq<SegmentModel>, o: OptionsModel, k: nat) -> Seq<(Seq<SegmentModel>, KindModel)>
    decreases k,
{
    if k == 0 || k > b.len() {
        Seq::empty()
    } else {
        object_added(a, b, path, o, (k - 1) as nat) + if find_key(a, b[k - 1].0) is None {
            emit_spec(b[k - 1].1, path.push(SegmentModel::Key(b[k - 1].0)), o, true)
        } else {
            Seq::empty()
        }
    }
}

/// The changes between two arrays, by the configured strategy.
pub open spec fn diff_arrays_spec(a: Seq<ValueModel>, b: Seq<ValueModel>, path: Seq<SegmentModel>, o: OptionsModel) -> Seq<(Seq<SegmentModel>, KindModel)>
    decreases a, a.len() + 3,
{
    match o.array_strategy {
        ArrayStrategy::Positional => positional_spec(a, b, path, o),
        ArrayStrategy::Lcs => lcs_or_positional(a, b, path, o),
        ArrayStrategy::Keyed => if o.array_keys.len() == 0 {
            lcs_or_positional(a, b, path, o)
        } else {
            keyed_spec(a, b, o.array_keys, path, o)
        },
        ArrayStrategy::Auto => match auto_key(a, b) {
            Some(k) => keyed_spec(a, b, seq![k], path, o),
            None => lcs_or_positional(a, b, path, o),
        },
    }
}

/// LCS matching, or positional comparison when the LCS table would exceed
/// `LCS_CELL_LIMIT` cells.
pub open spec fn lcs_or_positional(a: Seq<ValueModel>, b: Seq<ValueModel>, path: Seq<SegmentModel>, o: OptionsModel) -> Seq<(Seq<SegmentModel>, KindModel)>
    decreases a, a.len() + 2,
{
    if (a.len() + 1) * (b.len() + 1) > LCS_CELL_LIMIT {
        positional_spec(a, b, path, o)
    } else {
        lcs_walk(a, b, 0, 0, path, o)
    }
}

pub open spec fn min_len(a: nat, b: nat) -> nat {
    if a < b { a } else { b }
}

/// Positional comparison: common positions are diffed, the old array's
/// extra elements removed, the new array's extra elements added.
pub open spec fn positional_spec(a: Seq<ValueModel>, b: Seq<ValueModel>, path: Seq<SegmentModel>, o: OptionsModel) -> Seq<(Seq<SegmentModel>, KindModel)>
    decreases a, a.len() + 1,
{
    let common = min_len(a.len(), b.len());
    positional_pairs(a, b, path, o, common)
        + emit_elements(a, path, o, false, common, a.len())
        + emit_elements(b, path, o, true, common, b.len())
}

/// The diffs of the first `k` positions.
pub open spec fn positional_pairs(a: Seq<ValueModel>, b: Seq<ValueModel>, path: Seq<SegmentModel>, o: OptionsModel, k: nat) -> Seq<(Seq<SegmentModel>, KindModel)>
    decreases a, k,
{
    if k == 0 || k > a.len() || k > b.len() {
        Seq::empty()
    } else {
        positional_pairs(a, b, path, o, (k - 1) as nat)
            + diff_values_spec(a[k - 1], b[k - 1], path.push(SegmentModel::Index((k - 1) as usize)), o)
    }
}

/// The length of a longest common subsequence of `a[i..]` and `b[j..]`, with
/// elements matched by `deep_equal` at depth `d`.
pub open spec fn lcs_len(a: Seq<ValueModel>, b: Seq<ValueModel>, i: nat, j: nat, d: nat, o: OptionsModel) -> nat
    decreases a.len() + b.len() - i - j,
{
    if i >= a.len() || j >= b.len() {
        0
    } else if deep_equal(a[i as int], b[j as int], d, o) {
        lcs_len(a, b, i + 1, j + 1, d, o) + 1
    } else {
        let x = lcs_len(a, b, i + 1, j, d, o);
        let y = lcs_len(a, b, i, j + 1, d, o);
        if x >= y { x } else { y }
    }
}

/// The changes of the LCS walk from positions `i` and `j`: equal elements
/// are skipped together; otherwise the old element is removed when skipping
/// it keeps an LCS at least as long, else the new element is added.
pub open spec fn lcs_walk(a: Seq<ValueModel>, b: Seq<ValueModel>, i: nat, j: nat, path: Seq<SegmentModel>, o: OptionsModel) -> Seq<(Seq<SegmentModel>, KindModel)>
    decreases a.len() + b.len() - i - j,
{
    let d = path.len() + 1;
    if i > a.len() || j > b.len() {
        Seq::empty()
    } else if i < a.len() && j < b.len() {
        if deep_equal(a[i as int], b[j as int], d, o) {
            lcs_walk(a, b, i + 1, j + 1, path, o)
        } else if lcs_len(a, b, i + 1, j, d, o) >= lcs_len(a, b, i, j + 1, d, o) {
            emit_spec(a[i as int], path.push(SegmentModel::Index(i as usize)), o, false)
                + lcs_walk(a, b, i + 1, j, path, o)
        } else {
            emit_spec(b[j as int], path.push(SegmentModel::Index(j as usize)), o, true)
                + lcs_walk(a, b, i, j + 1, path, o)
        }
    } else if i < a.len() {
        emit_spec(a[i as int], path.push(SegmentModel::Index(i as usize)), o, false)
            + lcs_walk(a, b, i + 1, j, path, o)
    } else if j < b.len() {
        emit_spec(b[j as int], path.push(SegmentModel::Index(j as usize)), o, true)
            + lcs_walk(a, b, i, j + 1, path, o)
    } else {
        Seq::empty()
    }
}

/// The identity key of an element: for an object, the value of the first of
/// `keys` (from `idx` on) that it holds as a scalar.
pub open spec fn key_of_from(v: ValueModel, keys: Seq<Seq<char>>, idx: nat) -> Option<ValueModel>
    decreases keys.len() - idx,
{
    if idx >= keys.len() || !(v is Object) {
        None
    } else {
        match find_key(v->Object_0, keys[idx as int]) {
            Some(j) => if spec_is_scalar(v->Object_0[j].1) {
                Some(v->Object_0[j].1)
            } else {
                key_of_from(v, keys, idx + 1)
            },
            None => key_of_from(v, keys, idx + 1),
        }
    }
}

pub open spec fn key_of(v: ValueModel, keys: Seq<Seq<char>>) -> Option<ValueModel> {
    key_of_from(v, keys, 0)
}

/// Whether two identity keys are equal, as `==` on values decides it: floats
/// by `f64` equality (a NaN key equals no key, not even itself), anything
/// else by kind and contents.
pub open spec fn key_equal(x: ValueModel, y: ValueModel) -> bool {
    match (x, y) {
        (ValueModel::Float(p, _), ValueModel::Float(q, _)) => float_eq_ieee(p, q),
        _ => x == y,
    }
}

/// The keyed elements of the first `k` elements of the new array: each
/// identity key with the element's position.
pub open spec fn keyed_table(b: Seq<ValueModel>, keys: Seq<Seq<char>>, k: nat) -> Seq<(ValueModel, nat)>
    decreases k,
{
    if k == 0 || k > b.len() {
        Seq::empty()
    } else {
        match key_of(b[k - 1], keys) {
            Some(key) => keyed_table(b, keys, (k - 1) as nat).push((key, (k - 1) as nat)),
            None => keyed_table(b, keys, (k - 1) as nat),
        }
    }
}

/// The first table entry from `t` on that is unused and has key `key`.
pub open spec fn first_unused(table: Seq<(ValueModel, nat)>, used: Seq<bool>, key: ValueModel, t: nat) -> Option<nat>
    decreases table.len() - t,
{
    if t >= table.len() {
        None
    } else if !used[t as int] && key_equal(table[t as int].0, key) {
        Some(t)
    } else {
        first_unused(table, used, key, t + 1)
    }
}

/// The keyed pass over the first `k` old elements: each keyed element is
/// diffed against the first unused new element with an equal key (which
/// becomes used); any other old element is removed. Returns the changes and
/// which table entries are used.
pub open spec fn keyed_pass(a: Seq<ValueModel>, b: Seq<ValueModel>, keys: Seq<Seq<char>>, table: Seq<(ValueModel, nat)>, path: Seq<SegmentModel>, o: OptionsModel, k: nat) -> (Seq<(Seq<SegmentModel>, KindModel)>, Seq<bool>)
    decreases a, k,
{
    if k == 0 || k > a.len() {
        (Seq::empty(), Seq::new(table.len(), |t: int| false))
    } else {
        let (out, used) = keyed_pass(a, b, keys, table, path, o, (k - 1) as nat);
        let child = path.push(SegmentModel::Index((k - 1) as usize));
        match key_of(a[k - 1], keys) {
            Some(ak) => match first_unused(table, used, ak, 0) {
                Some(t) => (
                    out + diff_values_spec(a[k - 1], b[table[t as int].1 as int], child, o),
                    used.update(t as int, true),
                ),
                None => (out + emit_spec(a[k - 1], child, o, false), used),
            },
            None => (out + emit_spec(a[k - 1], child, o, false), used),
        }
    }
}

/// Whether the new element at position `j` was matched by the keyed pass.
pub open spec fn consumed(table: Seq<(ValueModel, nat)>, used: Seq<bool>, j: nat) -> bool {
    exists|t: int| 0 <= t < table.len() && used[t] && #[trigger] table[t].1 == j
}

/// The additions of the first `k` new elements that the keyed pass did not
/// match.
pub open spec fn keyed_added(b: Seq<ValueModel>, table: Seq<(ValueModel, nat)>, used: Seq<bool>, path: Seq<SegmentModel>, o: OptionsModel, k: nat) -> Seq<(Seq<SegmentModel>, KindModel)>
    decreases k,
{
    if k == 0 || k > b.len() {
        Seq::empty()
    } else {
        keyed_added(b, table, used, path, o, (k - 1) as nat) + if consumed(table, used, (k - 1) as nat) {
            Seq::empty()
        } else {
            emit_spec(b[k - 1], path.push(SegmentModel::Index((k - 1) as usize)), o, true)
        }
    }
}

/// Key-based comparison of two arrays by `keys`.
pub open spec fn keyed_spec(a: Seq<ValueModel>, b: Seq<ValueModel>, keys: Seq<Seq<char>>, path: Seq<SegmentModel>, o: OptionsModel) -> Seq<(Seq<SegmentModel>, KindModel)>
    decreases a, a.len() + 1,
{
    let table = keyed_table(b, keys, b.len());
    let (out, used) = keyed_pass(a, b, keys, table, path, o, a.len());
    out + keyed_added(b, table, used, path, o, b.len())
}

/// The identity keys tried by the `Auto` strategy, in order.
pub open spec fn candidate_keys() -> Seq<Seq<char>> {
    seq![seq!['i', 'd'], seq!['n', 'a', 'm', 'e'], seq!['k', 'e', 'y']]
}

/// Whether every element is an object holding `key` as a scalar.
pub open spec fn key_fits(s: Seq<ValueModel>, key: Seq<char>) -> bool {
    forall|i: int| 0 <= i < s.len() ==> key_of(#[trigger] s[i], seq![key]) is Some
}

/// The first candidate key (from position `c` on) that fits both arrays.
pub open spec fn auto_key_from(a: Seq<ValueModel>, b: Seq<ValueModel>, c: nat) -> Option<Seq<char>>
    decreases candidate_keys().len() - c,
{
    if c >= candidate_keys().len() {
        None
    } else if key_fits(a, candidate_keys()[c as int]) && key_fits(b, candidate_keys()[c as int]) {
        Some(candidate_keys()[c as int])
    } else {
        auto_key_from(a, b, c + 1)
    }
}

/// The identity key the `Auto` strategy matches two arrays by, if any fits.
pub open spec fn auto_key(a: Seq<ValueModel>, b: Seq<ValueModel>) -> Option<Seq<char>> {
    auto_key_from(a, b, 0)
}

} // verus!
