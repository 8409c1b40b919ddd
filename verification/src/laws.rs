//! Properties of the diff as a whole: what it reports for documents that
//! hold the same data.

use vstd::prelude::*;
use crate::diff_spec::{
    KindModel, MAX_DEPTH, auto_key_from, deep_equal, diff_arrays_spec, diff_values_spec, emit_elements,
    first_unused, ignored, key_equal, key_fits, key_of, key_of_from, keyed_added, keyed_pass, keyed_spec,
    keyed_table, lcs_or_positional, lcs_walk, object_added, object_pairs, positional_pairs, positional_spec,
    candidate_keys, consumed, min_len, scalar_equal,
};
use crate::numeric::{difference_magnitude, within_tolerance};
use vstd::set_lib::{lemma_int_range, lemma_len_subset, lemma_map_size, lemma_subset_equality, set_int_range};
use crate::options::{ArrayStrategy, OptionsModel};
use crate::path::SegmentModel;
use crate::dotenv::{LineModel, dotenv_entries, line_end, line_model};
use crate::pairing::{
    count_eq, has_partner, key_seq, lemma_count_congruent, lemma_key_equal_symmetric, lemma_keyed_quiet,
    lemma_keyed_silent, lemma_rank_below_total, lemma_rank_distinct, lemma_rank_exists, partner, rank,
};
use crate::ini_doc::{ini_entries, insert_properties};
use crate::value::{
    ValueModel, find_key, keys_unique, law_insert_then_find, lemma_find_key, lemma_find_key_unique, map_insert,
    spec_is_scalar, well_formed,
};

verus! {


/// Whether two trees hold the same data: equal scalars, arrays equal element
/// by element, and objects with the same keys (each once) bound to the same
/// data, in whatever order.
pub open spec fn same_up_to_order(a: ValueModel, b: ValueModel) -> bool
    decreases a,
{
    match (a, b) {
        (ValueModel::Object(x), ValueModel::Object(y)) => {
            &&& keys_unique(x)
            &&& keys_unique(y)
            &&& x.len() == y.len()
            &&& forall|i: int|
                0 <= i < x.len() ==> match find_key(y, #[trigger] x[i].0) {
                    Some(j) => same_up_to_order(x[i].1, y[j].1),
                    None => false,
                }
            &&& forall|j: int| 0 <= j < y.len() ==> find_key(x, #[trigger] y[j].0) is Some
        },
        (ValueModel::Array(x), ValueModel::Array(y)) => {
            &&& x.len() == y.len()
            &&& forall|i: int| 0 <= i < x.len() ==> same_up_to_order(#[trigger] x[i], y[i])
        },
        _ => a == b && spec_is_scalar(a),
    }
}

/// Whether every container of a tree found at `depth` lies above the depth
/// limit of the diff.
pub open spec fn nesting_below(v: ValueModel, depth: nat) -> bool
    decreases v,
{
    match v {
        ValueModel::Object(m) => depth < MAX_DEPTH && forall|i: int|
            0 <= i < m.len() ==> nesting_below(#[trigger] m[i].1, depth + 1),
        ValueModel::Array(s) => depth < MAX_DEPTH && forall|i: int|
            0 <= i < s.len() ==> nesting_below(#[trigger] s[i], depth + 1),
        _ => true,
    }
}

/// Whether an identity key equals itself (it is not a NaN).
pub open spec fn self_equal_key(k: Option<ValueModel>) -> bool {
    k matches Some(x) && key_equal(x, x)
}

/// Whether every element of every array in a tree has an identity key under
/// `keys` that equals itself.
pub open spec fn arrays_keyed(v: ValueModel, keys: Seq<Seq<char>>) -> bool
    decreases v,
{
    match v {
        ValueModel::Object(m) => forall|i: int| 0 <= i < m.len() ==> arrays_keyed(#[trigger] m[i].1, keys),
        ValueModel::Array(s) => forall|i: int|
            0 <= i < s.len() ==> self_equal_key(key_of(#[trigger] s[i], keys)) && arrays_keyed(s[i], keys),
        _ => true,
    }
}

/// Whether, in every array of a tree that the `Auto` strategy matches by a
/// key (compared with itself), each element's key under it equals itself.
pub open spec fn auto_keys_self_equal(v: ValueModel) -> bool
    decreases v,
{
    match v {
        ValueModel::Object(m) => forall|i: int| 0 <= i < m.len() ==> auto_keys_self_equal(#[trigger] m[i].1),
        ValueModel::Array(s) => {
            &&& (auto_key_from(s, s, 0) matches Some(c) ==> forall|i: int|
                0 <= i < s.len() ==> self_equal_key(key_of(#[trigger] s[i], seq![c])))
            &&& forall|i: int| 0 <= i < s.len() ==> auto_keys_self_equal(#[trigger] s[i])
        },
        _ => true,
    }
}

/// Whether key-based array matching finds, for every element of the tree, a
/// key that equals itself: with the configured keys under `Keyed`, with the
/// chosen candidate key under `Auto`. (A NaN key is paired with nothing.)
pub open spec fn keys_cover(v: ValueModel, o: OptionsModel) -> bool {
    &&& o.array_strategy == ArrayStrategy::Keyed && o.array_keys.len() > 0 ==> arrays_keyed(v, o.array_keys)
    &&& o.array_strategy == ArrayStrategy::Auto ==> auto_keys_self_equal(v)
}

/// Whether every scalar of a tree equals itself under the options. Without
/// a tolerance every scalar does; with one, `(x - x).abs() <= tol` fails for
/// a NaN or an infinity, and for a NaN or negative (non-zero) tolerance.
pub open spec fn scalars_self_equal(v: ValueModel, o: OptionsModel) -> bool
    decreases v,
{
    match v {
        ValueModel::Object(m) => forall|i: int| 0 <= i < m.len() ==> scalars_self_equal(#[trigger] m[i].1, o),
        ValueModel::Array(s) => forall|i: int| 0 <= i < s.len() ==> scalars_self_equal(#[trigger] s[i], o),
        _ => scalar_equal(v, v, o),
    }
}

/// Without a tolerance, every scalar equals itself.
pub proof fn lemma_scalars_self_equal_without_tolerance(v: ValueModel, o: OptionsModel)
    requires
        o.float_tolerance is None,
    ensures
        scalars_self_equal(v, o),
    decreases v,
{
    match v {
        ValueModel::Object(m) => {
            assert forall|i: int| 0 <= i < m.len() implies scalars_self_equal(#[trigger] m[i].1, o) by {
                lemma_scalars_self_equal_without_tolerance(m[i].1, o);
            }
        },
        ValueModel::Array(s) => {
            assert forall|i: int| 0 <= i < s.len() implies scalars_self_equal(#[trigger] s[i], o) by {
                lemma_scalars_self_equal_without_tolerance(s[i], o);
            }
        },
        _ => {},
    }
}

/// Every well-formed tree holds the same data as itself.
pub proof fn lemma_same_reflexive(v: ValueModel)
    requires
        well_formed(v),
    ensures
        same_up_to_order(v, v),
    decreases v,
{
    match v {
        ValueModel::Object(m) => {
            assert forall|i: int| 0 <= i < m.len() implies match find_key(m, #[trigger] m[i].0) {
                Some(j) => same_up_to_order(m[i].1, m[j].1),
                None => false,
            } by {
                lemma_find_key_unique(m, i);
                lemma_same_reflexive(m[i].1);
            }
            assert forall|j: int| 0 <= j < m.len() implies find_key(m, #[trigger] m[j].0) is Some by {
                lemma_find_key_unique(m, j);
            }
        },
        ValueModel::Array(s) => {
            assert forall|i: int| 0 <= i < s.len() implies same_up_to_order(#[trigger] s[i], s[i]) by {
                lemma_same_reflexive(s[i]);
            }
        },
        _ => {},
    }
}

/// Trees that hold the same data are deeply equal, below the depth limit.
proof fn lemma_same_deep_equal(a: ValueModel, b: ValueModel, d: nat, o: OptionsModel)
    requires
        same_up_to_order(a, b),
        nesting_below(a, d),
        scalars_self_equal(a, o),
    ensures
        deep_equal(a, b, d, o),
    decreases a,
{
    match (a, b) {
        (ValueModel::Object(x), ValueModel::Object(y)) => {
            assert forall|i: int| 0 <= i < x.len() implies match find_key(y, #[trigger] x[i].0) {
                Some(j) => deep_equal(x[i].1, y[j].1, d + 1, o),
                None => false,
            } by {
                if let Some(j) = find_key(y, x[i].0) {
                    lemma_same_deep_equal(x[i].1, y[j].1, d + 1, o);
                }
            }
        },
        (ValueModel::Array(x), ValueModel::Array(y)) => {
            assert forall|i: int| 0 <= i < x.len() implies deep_equal(#[trigger] x[i], y[i], d + 1, o) by {
                lemma_same_deep_equal(x[i], y[i], d + 1, o);
            }
        },
        _ => {
            assert(scalar_equal(a, b, o));
        },
    }
}

/// Trees that hold the same data have the same identity key.
proof fn lemma_key_of_same(v: ValueModel, w: ValueModel, keys: Seq<Seq<char>>, idx: nat)
    requires
        same_up_to_order(v, w),
    ensures
        key_of_from(v, keys, idx) == key_of_from(w, keys, idx),
    decreases keys.len() - idx,
{
    if idx < keys.len() && v is Object {
        let x = v->Object_0;
        let y = w->Object_0;
        let k = keys[idx as int];
        lemma_find_key(x, k);
        lemma_find_key(y, k);
        match find_key(x, k) {
            Some(j) => {
                assert(x[j].0 == k);
                let j2 = find_key(y, x[j].0)->0;
                assert(same_up_to_order(x[j].1, y[j2].1));
            },
            None => {
                if let Some(j2) = find_key(y, k) {
                    assert(find_key(x, y[j2].0) is Some);
                    assert(false);
                }
            },
        }
        lemma_key_of_same(v, w, keys, idx + 1);
    }
}

/// A key that equals some key equals itself.
pub proof fn lemma_key_equal_self(k: ValueModel, j: ValueModel)
    requires
        key_equal(k, j) || key_equal(j, k),
    ensures
        key_equal(k, k),
        key_equal(j, j),
{
}

/// With every element keyed, the table lists each element's key at its own
/// position.
pub proof fn lemma_keyed_table_full(y: Seq<ValueModel>, keys: Seq<Seq<char>>, k: nat)
    requires
        k <= y.len(),
        forall|t: int| 0 <= t < y.len() ==> key_of(#[trigger] y[t], keys) is Some,
    ensures
        keyed_table(y, keys, k).len() == k,
        forall|t: int| 0 <= t < k ==> #[trigger] keyed_table(y, keys, k)[t] == (key_of(y[t], keys)->0, t as nat),
    decreases k,
{
    if k > 0 {
        lemma_keyed_table_full(y, keys, (k - 1) as nat);
        assert(key_of(y[k - 1], keys) is Some);
    }
}

/// The search for an unused entry skips used ones and stops at the first
/// unused entry whose key matches.
proof fn lemma_first_unused_at(table: Seq<(ValueModel, nat)>, used: Seq<bool>, key: ValueModel, s: nat, m: nat)
    requires
        s <= m < table.len(),
        used.len() == table.len(),
        forall|t: int| s <= t < m ==> used[t],
        !used[m as int],
        key_equal(table[m as int].0, key),
    ensures
        first_unused(table, used, key, s) == Some(m),
    decreases m - s,
{
    if s < m {
        lemma_first_unused_at(table, used, key, s + 1, m);
    }
}

/// The keyed pass over arrays whose elements pair up position by position,
/// with equal keys and no changes: each element is matched with its
/// counterpart, nothing is reported, and the first `k` entries are used.
proof fn lemma_keyed_pass_diagonal(
    x: Seq<ValueModel>,
    y: Seq<ValueModel>,
    keys: Seq<Seq<char>>,
    path: Seq<SegmentModel>,
    o: OptionsModel,
    k: nat,
)
    requires
        x.len() == y.len(),
        k <= x.len(),
        forall|t: int| 0 <= t < y.len() ==> key_of(#[trigger] y[t], keys) is Some,
        forall|t: int| 0 <= t < x.len() ==> key_of(#[trigger] x[t], keys) == key_of(y[t], keys),
        forall|t: int| 0 <= t < x.len() ==> self_equal_key(key_of(#[trigger] x[t], keys)),
        forall|t: int|
            0 <= t < x.len() ==> diff_values_spec(#[trigger] x[t], y[t], path.push(SegmentModel::Index(t as usize)), o)
                == Seq::<(Seq<SegmentModel>, KindModel)>::empty(),
    ensures
        keyed_pass(x, y, keys, keyed_table(y, keys, y.len()), path, o, k) == (
            Seq::<(Seq<SegmentModel>, KindModel)>::empty(),
            Seq::new(y.len(), |t: int| t < k),
        ),
    decreases k,
{
    let table = keyed_table(y, keys, y.len());
    lemma_keyed_table_full(y, keys, y.len());
    if k == 0 {
        assert(Seq::new(table.len(), |t: int| false) =~= Seq::new(y.len(), |t: int| t < 0));
    } else {
        lemma_keyed_pass_diagonal(x, y, keys, path, o, (k - 1) as nat);
        let used = Seq::new(y.len(), |t: int| t < k - 1);
        let key = key_of(x[k - 1], keys)->0;
        assert(table[k - 1] == (key_of(y[k - 1], keys)->0, (k - 1) as nat));
        assert(self_equal_key(key_of(x[k - 1], keys)));
        lemma_first_unused_at(table, used, key, 0, (k - 1) as nat);
        assert(diff_values_spec(x[k - 1], y[k - 1], path.push(SegmentModel::Index((k - 1) as usize)), o)
            == Seq::<(Seq<SegmentModel>, KindModel)>::empty());
        assert(used.update(k - 1, true) =~= Seq::new(y.len(), |t: int| t < k));
        assert(Seq::<(Seq<SegmentModel>, KindModel)>::empty() + Seq::<(Seq<SegmentModel>, KindModel)>::empty()
            =~= Seq::<(Seq<SegmentModel>, KindModel)>::empty());
    }
}

/// No element is added back when the keyed pass used every entry.
proof fn lemma_keyed_added_none(y: Seq<ValueModel>, keys: Seq<Seq<char>>, path: Seq<SegmentModel>, o: OptionsModel, k: nat)
    requires
        k <= y.len(),
        forall|t: int| 0 <= t < y.len() ==> key_of(#[trigger] y[t], keys) is Some,
    ensures
        keyed_added(y, keyed_table(y, keys, y.len()), Seq::new(y.len(), |t: int| t < y.len()), path, o, k)
            == Seq::<(Seq<SegmentModel>, KindModel)>::empty(),
    decreases k,
{
    let table = keyed_table(y, keys, y.len());
    let used = Seq::new(y.len(), |t: int| t < y.len());
    lemma_keyed_table_full(y, keys, y.len());
    if k > 0 {
        lemma_keyed_added_none(y, keys, path, o, (k - 1) as nat);
        assert(table[k - 1].1 == (k - 1) as nat);
        assert(consumed(table, used, (k - 1) as nat));
        assert(Seq::<(Seq<SegmentModel>, KindModel)>::empty() + Seq::<(Seq<SegmentModel>, KindModel)>::empty()
            =~= Seq::<(Seq<SegmentModel>, KindModel)>::empty());
    }
}

/// Key-based matching of arrays whose elements pair up position by position
/// reports nothing.
proof fn lemma_keyed_diagonal(x: Seq<ValueModel>, y: Seq<ValueModel>, keys: Seq<Seq<char>>, path: Seq<SegmentModel>, o: OptionsModel)
    requires
        x.len() == y.len(),
        forall|t: int| 0 <= t < y.len() ==> key_of(#[trigger] y[t], keys) is Some,
        forall|t: int| 0 <= t < x.len() ==> key_of(#[trigger] x[t], keys) == key_of(y[t], keys),
        forall|t: int| 0 <= t < x.len() ==> self_equal_key(key_of(#[trigger] x[t], keys)),
        forall|t: int|
            0 <= t < x.len() ==> diff_values_spec(#[trigger] x[t], y[t], path.push(SegmentModel::Index(t as usize)), o)
                == Seq::<(Seq<SegmentModel>, KindModel)>::empty(),
    ensures
        keyed_spec(x, y, keys, path, o) == Seq::<(Seq<SegmentModel>, KindModel)>::empty(),
{
    lemma_keyed_pass_diagonal(x, y, keys, path, o, x.len());
    lemma_keyed_added_none(y, keys, path, o, y.len());
    assert(Seq::<(Seq<SegmentModel>, KindModel)>::empty() + Seq::<(Seq<SegmentModel>, KindModel)>::empty()
        =~= Seq::<(Seq<SegmentModel>, KindModel)>::empty());
}

/// The LCS walk along a diagonal of deeply equal elements reports nothing.
proof fn lemma_lcs_walk_diagonal(x: Seq<ValueModel>, y: Seq<ValueModel>, i: nat, path: Seq<SegmentModel>, o: OptionsModel)
    requires
        x.len() == y.len(),
        i <= x.len(),
        forall|t: int| 0 <= t < x.len() ==> deep_equal(#[trigger] x[t], y[t], path.len() + 1, o),
    ensures
        lcs_walk(x, y, i, i, path, o) == Seq::<(Seq<SegmentModel>, KindModel)>::empty(),
    decreases x.len() - i,
{
    if i < x.len() {
        assert(deep_equal(x[i as int], y[i as int], path.len() + 1, o));
        lemma_lcs_walk_diagonal(x, y, i + 1, path, o);
    }
}

/// Position-by-position comparison of elements without changes reports
/// nothing.
proof fn lemma_positional_pairs_none(x: Seq<ValueModel>, y: Seq<ValueModel>, path: Seq<SegmentModel>, o: OptionsModel, k: nat)
    requires
        x.len() == y.len(),
        k <= x.len(),
        forall|t: int|
            0 <= t < x.len() ==> diff_values_spec(#[trigger] x[t], y[t], path.push(SegmentModel::Index(t as usize)), o)
                == Seq::<(Seq<SegmentModel>, KindModel)>::empty(),
    ensures
        positional_pairs(x, y, path, o, k) == Seq::<(Seq<SegmentModel>, KindModel)>::empty(),
    decreases k,
{
    if k > 0 {
        lemma_positional_pairs_none(x, y, path, o, (k - 1) as nat);
        assert(diff_values_spec(x[k - 1], y[k - 1], path.push(SegmentModel::Index((k - 1) as usize)), o)
            == Seq::<(Seq<SegmentModel>, KindModel)>::empty());
        assert(Seq::<(Seq<SegmentModel>, KindModel)>::empty() + Seq::<(Seq<SegmentModel>, KindModel)>::empty()
            =~= Seq::<(Seq<SegmentModel>, KindModel)>::empty());
    }
}

/// Positional comparison of arrays without changes reports nothing.
proof fn lemma_positional_none(x: Seq<ValueModel>, y: Seq<ValueModel>, path: Seq<SegmentModel>, o: OptionsModel)
    requires
        x.len() == y.len(),
        forall|t: int|
            0 <= t < x.len() ==> diff_values_spec(#[trigger] x[t], y[t], path.push(SegmentModel::Index(t as usize)), o)
                == Seq::<(Seq<SegmentModel>, KindModel)>::empty(),
    ensures
        positional_spec(x, y, path, o) == Seq::<(Seq<SegmentModel>, KindModel)>::empty(),
{
    lemma_positional_pairs_none(x, y, path, o, x.len());
    assert(min_len(x.len(), y.len()) == x.len());
    assert(emit_elements(x, path, o, false, x.len(), x.len()) == Seq::<(Seq<SegmentModel>, KindModel)>::empty());
    assert(emit_elements(y, path, o, true, y.len(), y.len()) == Seq::<(Seq<SegmentModel>, KindModel)>::empty());
    assert(Seq::<(Seq<SegmentModel>, KindModel)>::empty() + Seq::<(Seq<SegmentModel>, KindModel)>::empty()
        + Seq::<(Seq<SegmentModel>, KindModel)>::empty() =~= Seq::<(Seq<SegmentModel>, KindModel)>::empty());
}

/// The `Auto` strategy picks the same key whichever array comes first.
proof fn lemma_auto_key_symmetric(a: Seq<ValueModel>, b: Seq<ValueModel>, c: nat)
    ensures
        auto_key_from(a, b, c) == auto_key_from(b, a, c),
    decreases candidate_keys().len() - c,
{
    if c < candidate_keys().len() {
        lemma_auto_key_symmetric(a, b, c + 1);
    }
}

/// A key chosen by the `Auto` strategy fits both arrays.
proof fn lemma_auto_key_fits(a: Seq<ValueModel>, b: Seq<ValueModel>, c: nat)
    ensures
        auto_key_from(a, b, c) matches Some(k) ==> key_fits(a, k) && key_fits(b, k),
    decreases candidate_keys().len() - c,
{
    if c < candidate_keys().len() {
        lemma_auto_key_fits(a, b, c + 1);
    }
}

/// The pairs of the old object's entries report nothing when each entry
/// has a counterpart without changes.
proof fn lemma_object_pairs_none(
    x: Seq<(Seq<char>, ValueModel)>,
    y: Seq<(Seq<char>, ValueModel)>,
    path: Seq<SegmentModel>,
    o: OptionsModel,
    k: nat,
)
    requires
        k <= x.len(),
        forall|i: int|
            0 <= i < x.len() ==> match find_key(y, #[trigger] x[i].0) {
                Some(j) => diff_values_spec(x[i].1, y[j].1, path.push(SegmentModel::Key(x[i].0)), o)
                    == Seq::<(Seq<SegmentModel>, KindModel)>::empty(),
                None => false,
            },
    ensures
        object_pairs(x, y, path, o, k) == Seq::<(Seq<SegmentModel>, KindModel)>::empty(),
    decreases k,
{
    if k > 0 {
        lemma_object_pairs_none(x, y, path, o, (k - 1) as nat);
        assert(find_key(y, x[k - 1].0) is Some);
        assert(Seq::<(Seq<SegmentModel>, KindModel)>::empty() + Seq::<(Seq<SegmentModel>, KindModel)>::empty()
            =~= Seq::<(Seq<SegmentModel>, KindModel)>::empty());
    }
}

/// No key of the new object is added when the old object has them all.
proof fn lemma_object_added_none(
    x: Seq<(Seq<char>, ValueModel)>,
    y: Seq<(Seq<char>, ValueModel)>,
    path: Seq<SegmentModel>,
    o: OptionsModel,
    k: nat,
)
    requires
        k <= y.len(),
        forall|j: int| 0 <= j < y.len() ==> find_key(x, #[trigger] y[j].0) is Some,
    ensures
        object_added(x, y, path, o, k) == Seq::<(Seq<SegmentModel>, KindModel)>::empty(),
    decreases k,
{
    if k > 0 {
        lemma_object_added_none(x, y, path, o, (k - 1) as nat);
        assert(find_key(x, y[k - 1].0) is Some);
        assert(Seq::<(Seq<SegmentModel>, KindModel)>::empty() + Seq::<(Seq<SegmentModel>, KindModel)>::empty()
            =~= Seq::<(Seq<SegmentModel>, KindModel)>::empty());
    }
}

/// Arrays that hold the same data element by element get the same `Auto`
/// key as the first array compared with itself.
proof fn lemma_auto_key_same(x: Seq<ValueModel>, y: Seq<ValueModel>, c: nat)
    requires
        x.len() == y.len(),
        forall|t: int| 0 <= t < x.len() ==> same_up_to_order(#[trigger] x[t], y[t]),
    ensures
        auto_key_from(x, y, c) == auto_key_from(x, x, c),
    decreases candidate_keys().len() - c,
{
    if c < candidate_keys().len() {
        let k = candidate_keys()[c as int];
        assert forall|t: int| 0 <= t < x.len() implies #[trigger] key_of(x[t], seq![k]) == key_of(y[t], seq![k]) by {
            lemma_key_of_same(x[t], y[t], seq![k], 0);
        }
        if key_fits(x, k) {
            assert forall|t: int| 0 <= t < y.len() implies key_of(#[trigger] y[t], seq![k]) is Some by {
                assert(key_of(x[t], seq![k]) == key_of(y[t], seq![k]));
            }
        }
        if key_fits(y, k) {
            assert forall|t: int| 0 <= t < x.len() implies key_of(#[trigger] x[t], seq![k]) is Some by {
                assert(key_of(x[t], seq![k]) == key_of(y[t], seq![k]));
            }
        }
        lemma_auto_key_same(x, y, c + 1);
    }
}

/// The diff of two trees that hold the same data, compared at `path`, is
/// empty.
#[verifier::spinoff_prover]
proof fn lemma_same_no_changes(a: ValueModel, b: ValueModel, path: Seq<SegmentModel>, o: OptionsModel)
    requires
        same_up_to_order(a, b),
        nesting_below(a, path.len()),
        keys_cover(a, o),
        scalars_self_equal(a, o),
    ensures
        diff_values_spec(a, b, path, o) == Seq::<(Seq<SegmentModel>, KindModel)>::empty(),
    decreases a,
{
    if path.len() > 0 && ignored(o, path) {
        return;
    }
    match (a, b) {
        (ValueModel::Object(x), ValueModel::Object(y)) => {
            assert forall|i: int| 0 <= i < x.len() implies match find_key(y, #[trigger] x[i].0) {
                Some(j) => diff_values_spec(x[i].1, y[j].1, path.push(SegmentModel::Key(x[i].0)), o)
                    == Seq::<(Seq<SegmentModel>, KindModel)>::empty(),
                None => false,
            } by {
                if let Some(j) = find_key(y, x[i].0) {
                    assert(nesting_below(x[i].1, path.len() + 1));
                    lemma_same_no_changes(x[i].1, y[j].1, path.push(SegmentModel::Key(x[i].0)), o);
                }
            }
            lemma_object_pairs_none(x, y, path, o, x.len());
            lemma_object_added_none(x, y, path, o, y.len());
            assert(Seq::<(Seq<SegmentModel>, KindModel)>::empty() + Seq::<(Seq<SegmentModel>, KindModel)>::empty()
                =~= Seq::<(Seq<SegmentModel>, KindModel)>::empty());
        },
        (ValueModel::Array(x), ValueModel::Array(y)) => {
            assert forall|t: int| 0 <= t < x.len() implies diff_values_spec(
                #[trigger] x[t],
                y[t],
                path.push(SegmentModel::Index(t as usize)),
                o,
            ) == Seq::<(Seq<SegmentModel>, KindModel)>::empty() by {
                assert(nesting_below(x[t], path.len() + 1));
                lemma_same_no_changes(x[t], y[t], path.push(SegmentModel::Index(t as usize)), o);
            }
            assert forall|t: int| 0 <= t < x.len() implies deep_equal(#[trigger] x[t], y[t], path.len() + 1, o) by {
                lemma_same_deep_equal(x[t], y[t], path.len() + 1, o);
            }
            assert forall|t: int| 0 <= t < x.len() implies #[trigger] key_of(x[t], o.array_keys) == key_of(y[t], o.array_keys) by {
                lemma_key_of_same(x[t], y[t], o.array_keys, 0);
            }
            lemma_positional_none(x, y, path, o);
            lemma_lcs_walk_diagonal(x, y, 0, path, o);
            match o.array_strategy {
                ArrayStrategy::Keyed => {
                    if o.array_keys.len() > 0 {
                        assert forall|t: int| 0 <= t < y.len() implies key_of(#[trigger] y[t], o.array_keys) is Some by {
                            assert(key_of(x[t], o.array_keys) is Some);
                            assert(key_of(x[t], o.array_keys) == key_of(y[t], o.array_keys));
                        }
                        lemma_keyed_diagonal(x, y, o.array_keys, path, o);
                    }
                },
                ArrayStrategy::Auto => {
                    lemma_auto_key_fits(x, y, 0);
                    lemma_auto_key_same(x, y, 0);
                    if let Some(k) = auto_key_from(x, y, 0) {
                        assert(auto_key_from(x, x, 0) == Some(k));
                        assert forall|t: int| 0 <= t < x.len() implies #[trigger] key_of(x[t], seq![k]) == key_of(y[t], seq![k]) by {
                            lemma_key_of_same(x[t], y[t], seq![k], 0);
                        }
                        lemma_keyed_diagonal(x, y, seq![k], path, o);
                    }
                },
                _ => {},
            }
            assert(diff_arrays_spec(x, y, path, o) == Seq::<(Seq<SegmentModel>, KindModel)>::empty());
        },
        _ => {
            assert(scalar_equal(a, b, o));
        },
    }
}

/// Reordered object keys are invisible: two documents that hold the same
/// data, with the entries of any object in any order, have no differences.
/// This holds whatever the options, for documents whose nesting stays above
/// the depth limit, whose scalars equal themselves under the options (always
/// so without a tolerance) and, under key-based array matching, whose array
/// elements all have a key that equals itself.
pub proof fn law_reordered_keys_are_invisible(a: ValueModel, b: ValueModel, o: OptionsModel)
    requires
        same_up_to_order(a, b),
        nesting_below(a, 0),
        keys_cover(a, o),
        scalars_self_equal(a, o),
    ensures
        diff_values_spec(a, b, Seq::empty(), o) == Seq::<(Seq<SegmentModel>, KindModel)>::empty(),
{
    lemma_same_no_changes(a, b, Seq::empty(), o);
}

/// A document never differs from itself, whatever the options, when its
/// nesting stays above the depth limit, its scalars equal themselves under
/// the options (always so without a tolerance; with one, its numbers must be
/// finite and the tolerance neither NaN nor negative) and, under key-based
/// array matching, its array elements all have a key that equals itself.
pub proof fn law_no_self_difference(v: ValueModel, o: OptionsModel)
    requires
        well_formed(v),
        nesting_below(v, 0),
        keys_cover(v, o),
        scalars_self_equal(v, o),
    ensures
        diff_values_spec(v, v, Seq::empty(), o) == Seq::<(Seq<SegmentModel>, KindModel)>::empty(),
{
    lemma_same_reflexive(v);
    lemma_same_no_changes(v, v, Seq::empty(), o);
}

/// Whether a list of entries has unique keys and only string values.
pub open spec fn string_entries(m: Seq<(Seq<char>, ValueModel)>) -> bool {
    &&& keys_unique(m)
    &&& forall|i: int| 0 <= i < m.len() ==> (#[trigger] m[i]).1 is String
}

/// Whether a list of entries has unique keys and only string values or
/// objects of string values.
pub open spec fn section_entries(m: Seq<(Seq<char>, ValueModel)>) -> bool {
    &&& keys_unique(m)
    &&& forall|i: int|
        0 <= i < m.len() ==> (#[trigger] m[i]).1 is String || (m[i].1 is Object && string_entries(m[i].1->Object_0))
}

/// Inserting a string keeps entries unique and of string values.
proof fn lemma_insert_string(m: Seq<(Seq<char>, ValueModel)>, k: Seq<char>, v: Seq<char>)
    requires
        string_entries(m),
    ensures
        string_entries(map_insert(m, k, ValueModel::String(v))),
{
    law_insert_then_find(m, k, ValueModel::String(v), k);
    lemma_find_key(m, k);
}

/// Inserting a section's properties keeps entries unique and of string
/// values.
proof fn lemma_insert_properties_strings(acc: Seq<(Seq<char>, ValueModel)>, props: Seq<(Seq<char>, Seq<char>)>, k: nat)
    requires
        string_entries(acc),
    ensures
        string_entries(insert_properties(acc, props, k)),
    decreases k,
{
    if k > 0 && k <= props.len() {
        lemma_insert_properties_strings(acc, props, (k - 1) as nat);
        lemma_insert_string(insert_properties(acc, props, (k - 1) as nat), props[k - 1].0, props[k - 1].1);
    }
}

/// Inserting properties at the top level keeps the shape of a document of
/// sections.
proof fn lemma_insert_properties_sections(acc: Seq<(Seq<char>, ValueModel)>, props: Seq<(Seq<char>, Seq<char>)>, k: nat)
    requires
        section_entries(acc),
    ensures
        section_entries(insert_properties(acc, props, k)),
    decreases k,
{
    if k > 0 && k <= props.len() {
        lemma_insert_properties_sections(acc, props, (k - 1) as nat);
        let before = insert_properties(acc, props, (k - 1) as nat);
        law_insert_then_find(before, props[k - 1].0, ValueModel::String(props[k - 1].1), props[k - 1].0);
        lemma_find_key(before, props[k - 1].0);
    }
}

/// A dotenv document parses into a flat object of strings with unique keys:
/// `.env` files have no types and no nesting.
pub proof fn law_dotenv_values_are_strings(s: Seq<char>, line_no: nat, acc: Seq<(Seq<char>, ValueModel)>)
    requires
        string_entries(acc),
    ensures
        dotenv_entries(s, line_no, acc) matches Ok(e) ==> string_entries(e) && well_formed(ValueModel::Object(e)),
    decreases s.len(),
{
    let end = line_end(s);
    let line = s.subrange(0, end as int);
    let next = match line_model(line) {
        LineModel::Assign(k, v) => {
            lemma_insert_string(acc, k, v);
            map_insert(acc, k, ValueModel::String(v))
        },
        _ => acc,
    };
    if line_model(line) !is Invalid && end < s.len() {
        law_dotenv_values_are_strings(s.subrange(end + 1 as int, s.len() as int), line_no + 1, next);
    }
    if let Ok(e) = dotenv_entries(s, line_no, acc) {
        assert(forall|i: int| 0 <= i < e.len() ==> well_formed(#[trigger] e[i].1));
    }
}

/// An INI document parses into an object whose values are strings (the
/// properties outside any section) and objects of strings (the sections),
/// with unique keys at both levels.
pub proof fn law_ini_sections_become_objects(
    sections: Seq<(Option<Seq<char>>, Seq<(Seq<char>, Seq<char>)>)>,
    k: nat,
)
    ensures
        section_entries(ini_entries(sections, k)),
        well_formed(ValueModel::Object(ini_entries(sections, k))),
    decreases k,
{
    if k > 0 && k <= sections.len() {
        law_ini_sections_become_objects(sections, (k - 1) as nat);
        let acc = ini_entries(sections, (k - 1) as nat);
        let props = sections[k - 1].1;
        match sections[k - 1].0 {
            None => {
                lemma_insert_properties_sections(acc, props, props.len());
            },
            Some(name) => {
                lemma_insert_properties_strings(Seq::empty(), props, props.len());
                let inner = ValueModel::Object(insert_properties(Seq::empty(), props, props.len()));
                law_insert_then_find(acc, name, inner, name);
                lemma_find_key(acc, name);
            },
        }
    }
    let e = ini_entries(sections, k);
    assert forall|i: int| 0 <= i < e.len() implies well_formed(#[trigger] e[i].1) by {
        if e[i].1 is Object {
            let m = e[i].1->Object_0;
            assert(forall|j: int| 0 <= j < m.len() ==> well_formed(#[trigger] m[j].1));
        }
    }
}

/// Whether no ignore pattern is set.
pub open spec fn no_ignores(o: OptionsModel) -> bool {
    o.ignore.len() == 0
}

/// The tolerance test does not depend on the order of the two numbers.
pub proof fn lemma_within_tolerance_symmetric(x: u64, y: u64, t: u64)
    ensures
        within_tolerance(x, y, t) == within_tolerance(y, x, t),
{
    assert(difference_magnitude(x, y) == difference_magnitude(y, x));
}

/// Scalar equality does not depend on the order of the two scalars.
proof fn lemma_scalar_equal_symmetric(a: ValueModel, b: ValueModel, o: OptionsModel)
    ensures
        scalar_equal(a, b, o) == scalar_equal(b, a, o),
{
    if let Some(t) = o.float_tolerance {
        lemma_within_tolerance_symmetric(
            crate::diff_spec::numeric_bits(a),
            crate::diff_spec::numeric_bits(b),
            t,
        );
    }
}

/// Whether `f` maps some position of `0..n` to `j`.
pub open spec fn reaches(f: spec_fn(int) -> int, n: nat, j: int) -> bool {
    exists|i: int| 0 <= i < n && #[trigger] f(i) == j
}

/// An injection of `0..n` into itself reaches every position.
pub proof fn lemma_injection_onto(n: nat, f: spec_fn(int) -> int)
    requires
        forall|i: int| 0 <= i < n ==> 0 <= #[trigger] f(i) < n,
        forall|i: int, j: int| 0 <= i < n && 0 <= j < n && i != j ==> #[trigger] f(i) != #[trigger] f(j),
    ensures
        forall|j: int| 0 <= j < n ==> #[trigger] reaches(f, n, j),
{
    let whole = set_int_range(0, n as int);
    lemma_int_range(0, n as int);
    let image = whole.map(f);
    assert(vstd::relations::injective_on(f, whole));
    lemma_map_size(whole, image, f);
    assert(image.subset_of(whole));
    lemma_subset_equality(image, whole);
    assert forall|j: int| 0 <= j < n implies #[trigger] reaches(f, n, j) by {
        assert(whole.contains(j));
        assert(image.contains(j));
    }
}

/// Deep equality of well-formed trees does not depend on their order.
proof fn lemma_deep_equal_symmetric(a: ValueModel, b: ValueModel, d: nat, o: OptionsModel)
    requires
        well_formed(a),
        well_formed(b),
        deep_equal(a, b, d, o),
    ensures
        deep_equal(b, a, d, o),
    decreases a,
{
    match (a, b) {
        (ValueModel::Object(x), ValueModel::Object(y)) => {
            let f = |i: int| find_key(y, x[i].0)->0;
            assert forall|i: int| 0 <= i < x.len() implies 0 <= #[trigger] f(i) < x.len() && y[f(i)].0 == x[i].0 by {
                assert(find_key(y, x[i].0) is Some);
                lemma_find_key(y, x[i].0);
            }
            assert forall|i: int, j: int| 0 <= i < x.len() && 0 <= j < x.len() && i != j implies #[trigger] f(i) != #[trigger] f(j) by {
                assert(y[f(i)].0 == x[i].0);
                assert(y[f(j)].0 == x[j].0);
            }
            lemma_injection_onto(x.len(), f);
            assert forall|j: int| 0 <= j < y.len() implies match find_key(x, #[trigger] y[j].0) {
                Some(i) => deep_equal(y[j].1, x[i].1, d + 1, o),
                None => false,
            } by {
                assert(reaches(f, x.len(), j));
                let i = choose|i: int| 0 <= i < x.len() && #[trigger] f(i) == j;
                assert(y[f(i)].0 == x[i].0);
                lemma_find_key_unique(x, i);
                assert(find_key(y, x[i].0) is Some);
                assert(deep_equal(x[i].1, y[j].1, d + 1, o));
                lemma_deep_equal_symmetric(x[i].1, y[j].1, d + 1, o);
            }
        },
        (ValueModel::Array(x), ValueModel::Array(y)) => {
            assert forall|i: int| 0 <= i < y.len() implies deep_equal(#[trigger] y[i], x[i], d + 1, o) by {
                assert(deep_equal(x[i], y[i], d + 1, o));
                lemma_deep_equal_symmetric(x[i], y[i], d + 1, o);
            }
        },
        _ => {
            lemma_scalar_equal_symmetric(a, b, o);
        },
    }
}

/// Without ignore patterns every addition or removal is reported.
pub proof fn lemma_emit_reported(v: ValueModel, path: Seq<SegmentModel>, o: OptionsModel, added: bool)
    requires
        no_ignores(o),
    ensures
        crate::diff_spec::emit_spec(v, path, o, added).len() > 0,
    decreases v,
{
    if o.expand && path.len() < MAX_DEPTH && v is Object && v->Object_0.len() > 0 {
        let m = v->Object_0;
        let k = m.len();
        assert(decreases_to!(v => m[k - 1].1));
        lemma_emit_reported(m[k - 1].1, path.push(SegmentModel::Key(m[k - 1].0)), o, added);
    } else if o.expand && path.len() < MAX_DEPTH && v is Array && v->Array_0.len() > 0 {
        let s = v->Array_0;
        let k = s.len();
        lemma_emit_reported(s[k - 1], path.push(SegmentModel::Index((k - 1) as usize)), o, added);
    }
}

/// An LCS walk that reports nothing went along a diagonal of deeply equal
/// elements.
proof fn lemma_lcs_walk_silent(x: Seq<ValueModel>, y: Seq<ValueModel>, i: nat, j: nat, path: Seq<SegmentModel>, o: OptionsModel)
    requires
        no_ignores(o),
        i <= x.len(),
        j <= y.len(),
        lcs_walk(x, y, i, j, path, o).len() == 0,
    ensures
        x.len() - i == y.len() - j,
        forall|t: int| 0 <= t < x.len() - i ==> deep_equal(#[trigger] x[i + t], y[j + t], path.len() + 1, o),
    decreases x.len() + y.len() - i - j,
{
    if i < x.len() && j < y.len() {
        if deep_equal(x[i as int], y[j as int], path.len() + 1, o) {
            lemma_lcs_walk_silent(x, y, i + 1, j + 1, path, o);
            assert forall|t: int| 0 <= t < x.len() - i implies deep_equal(#[trigger] x[i + t], y[j + t], path.len() + 1, o) by {
                if t > 0 {
                    assert(x[(i + 1) + (t - 1)] == x[i + t]);
                }
            }
        } else {
            lemma_emit_reported(x[i as int], path.push(SegmentModel::Index(i as usize)), o, false);
            lemma_emit_reported(y[j as int], path.push(SegmentModel::Index(j as usize)), o, true);
        }
    } else if i < x.len() {
        lemma_emit_reported(x[i as int], path.push(SegmentModel::Index(i as usize)), o, false);
    } else if j < y.len() {
        lemma_emit_reported(y[j as int], path.push(SegmentModel::Index(j as usize)), o, true);
    }
}

/// Positional pairs that report nothing pair elements without changes.
proof fn lemma_positional_pairs_silent(x: Seq<ValueModel>, y: Seq<ValueModel>, path: Seq<SegmentModel>, o: OptionsModel, k: nat)
    requires
        k <= x.len(),
        k <= y.len(),
        positional_pairs(x, y, path, o, k).len() == 0,
    ensures
        forall|t: int| 0 <= t < k ==> diff_values_spec(#[trigger] x[t], y[t], path.push(SegmentModel::Index(t as usize)), o).len() == 0,
    decreases k,
{
    if k > 0 {
        lemma_positional_pairs_silent(x, y, path, o, (k - 1) as nat);
    }
}

/// Without ignore patterns, a positional comparison that reports nothing
/// compared arrays of one length, element by element without changes.
proof fn lemma_positional_silent(x: Seq<ValueModel>, y: Seq<ValueModel>, path: Seq<SegmentModel>, o: OptionsModel)
    requires
        no_ignores(o),
        positional_spec(x, y, path, o).len() == 0,
    ensures
        x.len() == y.len(),
        forall|t: int| 0 <= t < x.len() ==> diff_values_spec(#[trigger] x[t], y[t], path.push(SegmentModel::Index(t as usize)), o).len() == 0,
{
    let common = min_len(x.len(), y.len());
    if x.len() > common {
        let k = x.len();
        assert(emit_elements(x, path, o, false, common, k) == emit_elements(x, path, o, false, common, (k - 1) as nat)
            + crate::diff_spec::emit_spec(x[k - 1], path.push(SegmentModel::Index((k - 1) as usize)), o, false));
        lemma_emit_reported(x[k - 1], path.push(SegmentModel::Index((k - 1) as usize)), o, false);
    }
    if y.len() > common {
        let k = y.len();
        assert(emit_elements(y, path, o, true, common, k) == emit_elements(y, path, o, true, common, (k - 1) as nat)
            + crate::diff_spec::emit_spec(y[k - 1], path.push(SegmentModel::Index((k - 1) as usize)), o, true));
        lemma_emit_reported(y[k - 1], path.push(SegmentModel::Index((k - 1) as usize)), o, true);
    }
    lemma_positional_pairs_silent(x, y, path, o, common);
}

/// Object pairs that report nothing found every old key in the new object,
/// bound to data without changes.
proof fn lemma_object_pairs_silent(
    x: Seq<(Seq<char>, ValueModel)>,
    y: Seq<(Seq<char>, ValueModel)>,
    path: Seq<SegmentModel>,
    o: OptionsModel,
    k: nat,
)
    requires
        no_ignores(o),
        k <= x.len(),
        object_pairs(x, y, path, o, k).len() == 0,
    ensures
        forall|i: int|
            0 <= i < k ==> match find_key(y, #[trigger] x[i].0) {
                Some(j) => diff_values_spec(x[i].1, y[j].1, path.push(SegmentModel::Key(x[i].0)), o).len() == 0,
                None => false,
            },
    decreases k,
{
    if k > 0 {
        lemma_object_pairs_silent(x, y, path, o, (k - 1) as nat);
        if find_key(y, x[k - 1].0) is None {
            lemma_emit_reported(x[k - 1].1, path.push(SegmentModel::Key(x[k - 1].0)), o, false);
        }
    }
}

/// Object additions that report nothing found every new key in the old
/// object.
proof fn lemma_object_added_silent(
    x: Seq<(Seq<char>, ValueModel)>,
    y: Seq<(Seq<char>, ValueModel)>,
    path: Seq<SegmentModel>,
    o: OptionsModel,
    k: nat,
)
    requires
        no_ignores(o),
        k <= y.len(),
        object_added(x, y, path, o, k).len() == 0,
    ensures
        forall|j: int| 0 <= j < k ==> find_key(x, #[trigger] y[j].0) is Some,
    decreases k,
{
    if k > 0 {
        lemma_object_added_silent(x, y, path, o, (k - 1) as nat);
        if find_key(x, y[k - 1].0) is None {
            lemma_emit_reported(y[k - 1].1, path.push(SegmentModel::Key(y[k - 1].0)), o, true);
        }
    }
}

/// Whether each pair of elements without changes one way round (at the old
/// element's index under `p`) has none the other way round (at the new
/// element's index under `q`).
pub open spec fn pairs_symmetric(x: Seq<ValueModel>, y: Seq<ValueModel>, p: Seq<SegmentModel>, q: Seq<SegmentModel>, o: OptionsModel) -> bool {
    forall|t: int, j: int|
        0 <= t < x.len() && 0 <= j < y.len()
            && #[trigger] diff_values_spec(x[t], y[j], p.push(SegmentModel::Index(t as usize)), o).len() == 0
            ==> #[trigger] diff_values_spec(y[j], x[t], q.push(SegmentModel::Index(j as usize)), o).len() == 0
}

/// Key matching of arrays that reports nothing one way round reports
/// nothing the other way round, given that pairs of elements do.
proof fn lemma_keyed_symmetric(
    x: Seq<ValueModel>,
    y: Seq<ValueModel>,
    keys: Seq<Seq<char>>,
    p: Seq<SegmentModel>,
    q: Seq<SegmentModel>,
    o: OptionsModel,
)
    requires
        no_ignores(o),
        keyed_spec(x, y, keys, p, o).len() == 0,
        pairs_symmetric(x, y, p, q, o),
    ensures
        keyed_spec(y, x, keys, q, o) == Seq::<(Seq<SegmentModel>, KindModel)>::empty(),
{
    lemma_keyed_silent(x, y, keys, p, o);
    let kx = key_seq(x, keys);
    let ky = key_seq(y, keys);
    assert forall|j: int| 0 <= j < y.len() implies #[trigger] has_partner(y, x, keys, q, o, j) by {
        assert(rank(ky, j) < count_eq(kx, x.len(), ky[j]));
        lemma_rank_exists(kx, x.len(), ky[j], rank(ky, j));
        let t = choose|t: int| 0 <= t < x.len() && key_equal(#[trigger] kx[t], ky[j]) && count_eq(kx, t as nat, ky[j]) == rank(ky, j);
        lemma_count_congruent(kx, t as nat, kx[t], ky[j]);
        assert(has_partner(x, y, keys, p, o, t));
        let p2 = choose|p2: int| 0 <= p2 < y.len() && #[trigger] partner(x, y, keys, p, o, t, p2);
        let class = kx[t];
        lemma_key_equal_symmetric(class, ky[j]);
        lemma_key_equal_symmetric(class, ky[p2]);
        lemma_count_congruent(ky, j as nat, ky[j], class);
        lemma_count_congruent(ky, p2 as nat, ky[p2], class);
        if p2 < j {
            lemma_rank_distinct(ky, p2, j, class);
        } else if j < p2 {
            lemma_rank_distinct(ky, j, p2, class);
        }
        assert(p2 == j);
        assert(diff_values_spec(x[t], y[j], p.push(SegmentModel::Index(t as usize)), o).len() == 0);
        assert(partner(y, x, keys, q, o, j, t));
    }
    assert forall|t: int| 0 <= t < x.len() implies #[trigger] rank(kx, t) < count_eq(ky, y.len(), kx[t]) by {
        assert(has_partner(x, y, keys, p, o, t));
        let p2 = choose|p2: int| 0 <= p2 < y.len() && #[trigger] partner(x, y, keys, p, o, t, p2);
        lemma_key_equal_self(kx[t], ky[p2]);
        lemma_rank_below_total(ky, p2);
        lemma_key_equal_symmetric(kx[t], ky[p2]);
        lemma_count_congruent(ky, y.len(), ky[p2], kx[t]);
    }
    lemma_keyed_quiet(y, x, keys, q, o);
}

/// LCS or positional comparison of arrays that reports nothing one way
/// round reports nothing the other way round, given that pairs of elements
/// do.
proof fn lemma_unkeyed_symmetric(x: Seq<ValueModel>, y: Seq<ValueModel>, p: Seq<SegmentModel>, q: Seq<SegmentModel>, o: OptionsModel)
    requires
        no_ignores(o),
        p.len() == q.len(),
        forall|t: int| 0 <= t < x.len() ==> well_formed(#[trigger] x[t]),
        forall|t: int| 0 <= t < y.len() ==> well_formed(#[trigger] y[t]),
        pairs_symmetric(x, y, p, q, o),
        o.array_strategy == ArrayStrategy::Positional ==> positional_spec(x, y, p, o).len() == 0,
        o.array_strategy != ArrayStrategy::Positional ==> lcs_or_positional(x, y, p, o).len() == 0,
    ensures
        o.array_strategy == ArrayStrategy::Positional ==> positional_spec(y, x, q, o).len() == 0,
        o.array_strategy != ArrayStrategy::Positional ==> lcs_or_positional(y, x, q, o).len() == 0,
{
    let positional = o.array_strategy == ArrayStrategy::Positional
        || (x.len() + 1) * (y.len() + 1) > crate::diff_spec::LCS_CELL_LIMIT;
    assert((x.len() + 1) * (y.len() + 1) == (y.len() + 1) * (x.len() + 1)) by (nonlinear_arith);
    if positional {
        lemma_positional_silent(x, y, p, o);
        assert forall|t: int| 0 <= t < y.len() implies diff_values_spec(#[trigger] y[t], x[t], q.push(SegmentModel::Index(t as usize)), o)
            == Seq::<(Seq<SegmentModel>, KindModel)>::empty() by {
            assert(diff_values_spec(x[t], y[t], p.push(SegmentModel::Index(t as usize)), o).len() == 0);
        }
        lemma_positional_none(y, x, q, o);
    } else {
        lemma_lcs_walk_silent(x, y, 0, 0, p, o);
        assert forall|t: int| 0 <= t < y.len() implies deep_equal(#[trigger] y[t], x[t], q.len() + 1, o) by {
            assert(x[0 + t] == x[t]);
            assert(deep_equal(x[t], y[t], p.len() + 1, o));
            lemma_deep_equal_symmetric(x[t], y[t], p.len() + 1, o);
        }
        lemma_lcs_walk_diagonal(y, x, 0, q, o);
    }
}

/// Objects that report nothing one way round report nothing the other way
/// round, given that the values under each shared key do.
proof fn lemma_objects_symmetric(
    x: Seq<(Seq<char>, ValueModel)>,
    y: Seq<(Seq<char>, ValueModel)>,
    p: Seq<SegmentModel>,
    q: Seq<SegmentModel>,
    o: OptionsModel,
)
    requires
        no_ignores(o),
        keys_unique(x),
        keys_unique(y),
        object_pairs(x, y, p, o, x.len()).len() == 0,
        object_added(x, y, p, o, y.len()).len() == 0,
        forall|i: int, j: int|
            0 <= i < x.len() && 0 <= j < y.len()
                && #[trigger] diff_values_spec(x[i].1, y[j].1, p.push(SegmentModel::Key(x[i].0)), o).len() == 0
                ==> #[trigger] diff_values_spec(y[j].1, x[i].1, q.push(SegmentModel::Key(y[j].0)), o).len() == 0,
    ensures
        object_pairs(y, x, q, o, y.len()) + object_added(y, x, q, o, x.len())
            == Seq::<(Seq<SegmentModel>, KindModel)>::empty(),
{
    lemma_object_pairs_silent(x, y, p, o, x.len());
    lemma_object_added_silent(x, y, p, o, y.len());
    assert forall|j: int| 0 <= j < y.len() implies match find_key(x, #[trigger] y[j].0) {
        Some(i) => diff_values_spec(y[j].1, x[i].1, q.push(SegmentModel::Key(y[j].0)), o)
            == Seq::<(Seq<SegmentModel>, KindModel)>::empty(),
        None => false,
    } by {
        let i = find_key(x, y[j].0)->0;
        lemma_find_key(x, y[j].0);
        lemma_find_key_unique(y, j);
        assert(x[i].0 == y[j].0);
        assert(find_key(y, x[i].0) == Some(j));
        assert(diff_values_spec(x[i].1, y[j].1, p.push(SegmentModel::Key(x[i].0)), o).len() == 0);
    }
    assert forall|i: int| 0 <= i < x.len() implies find_key(y, #[trigger] x[i].0) is Some by {
    }
    lemma_object_pairs_none(y, x, q, o, y.len());
    lemma_object_added_none(y, x, q, o, x.len());
    assert(Seq::<(Seq<SegmentModel>, KindModel)>::empty() + Seq::<(Seq<SegmentModel>, KindModel)>::empty()
        =~= Seq::<(Seq<SegmentModel>, KindModel)>::empty());
}

/// Without ignore patterns, if `a` has no differences from `b` at one path,
/// then `b` has none from `a` at any path of the same length.
#[verifier::spinoff_prover]
proof fn lemma_silent_symmetric(a: ValueModel, b: ValueModel, p: Seq<SegmentModel>, q: Seq<SegmentModel>, o: OptionsModel)
    requires
        no_ignores(o),
        well_formed(a),
        well_formed(b),
        p.len() == q.len(),
        diff_values_spec(a, b, p, o).len() == 0,
    ensures
        diff_values_spec(b, a, q, o).len() == 0,
    decreases a,
{
    match (a, b) {
        (ValueModel::Object(x), ValueModel::Object(y)) => {
            assert(p.len() < MAX_DEPTH);
            assert forall|i: int, j: int|
                0 <= i < x.len() && 0 <= j < y.len()
                    && #[trigger] diff_values_spec(x[i].1, y[j].1, p.push(SegmentModel::Key(x[i].0)), o).len() == 0
                    implies #[trigger] diff_values_spec(y[j].1, x[i].1, q.push(SegmentModel::Key(y[j].0)), o).len() == 0 by {
                lemma_silent_symmetric(x[i].1, y[j].1, p.push(SegmentModel::Key(x[i].0)), q.push(SegmentModel::Key(y[j].0)), o);
            }
            lemma_objects_symmetric(x, y, p, q, o);
        },
        (ValueModel::Array(x), ValueModel::Array(y)) => {
            assert(p.len() < MAX_DEPTH);
            assert(!ignored(o, p));
            assert(diff_arrays_spec(x, y, p, o).len() == 0);
            assert forall|t: int, j: int|
                0 <= t < x.len() && 0 <= j < y.len()
                    && #[trigger] diff_values_spec(x[t], y[j], p.push(SegmentModel::Index(t as usize)), o).len() == 0
                    implies #[trigger] diff_values_spec(y[j], x[t], q.push(SegmentModel::Index(j as usize)), o).len() == 0 by {
                lemma_silent_symmetric(x[t], y[j], p.push(SegmentModel::Index(t as usize)), q.push(SegmentModel::Index(j as usize)), o);
            }
            lemma_auto_key_symmetric(x, y, 0);
            let keyed: Option<Seq<Seq<char>>> = match o.array_strategy {
                ArrayStrategy::Keyed => if o.array_keys.len() > 0 {
                    Some(o.array_keys)
                } else {
                    None
                },
                ArrayStrategy::Auto => match auto_key_from(x, y, 0) {
                    Some(k) => Some(seq![k]),
                    None => None,
                },
                _ => None,
            };
            if let Some(keys) = keyed {
                assert(diff_arrays_spec(x, y, p, o) == keyed_spec(x, y, keys, p, o));
                assert(diff_arrays_spec(y, x, q, o) == keyed_spec(y, x, keys, q, o));
                lemma_keyed_symmetric(x, y, keys, p, q, o);
            } else {
                if o.array_strategy != ArrayStrategy::Positional {
                    assert(diff_arrays_spec(x, y, p, o) == lcs_or_positional(x, y, p, o));
                    assert(diff_arrays_spec(y, x, q, o) == lcs_or_positional(y, x, q, o));
                } else {
                    assert(diff_arrays_spec(x, y, p, o) == positional_spec(x, y, p, o));
                    assert(diff_arrays_spec(y, x, q, o) == positional_spec(y, x, q, o));
                }
                lemma_unkeyed_symmetric(x, y, p, q, o);
            }
        },
        _ => {
            lemma_scalar_equal_symmetric(a, b, o);
        },
    }
}

/// Whether two documents are equal does not depend on the order in which
/// they are compared, for well-formed documents and options without ignore
/// patterns (any array strategy, number handling and expansion).
pub proof fn law_equality_is_symmetric(a: ValueModel, b: ValueModel, o: OptionsModel)
    requires
        no_ignores(o),
        well_formed(a),
        well_formed(b),
    ensures
        (diff_values_spec(a, b, Seq::empty(), o).len() == 0) == (diff_values_spec(b, a, Seq::empty(), o).len() == 0),
{
    if diff_values_spec(a, b, Seq::empty(), o).len() == 0 {
        lemma_silent_symmetric(a, b, Seq::empty(), Seq::empty(), o);
    }
    if diff_values_spec(b, a, Seq::empty(), o).len() == 0 {
        lemma_silent_symmetric(b, a, Seq::empty(), Seq::empty(), o);
    }
}

/// An injection of `0..n` into `0..m` needs `n <= m`.
proof fn lemma_injection_bounded(n: nat, m: nat, f: spec_fn(int) -> int)
    requires
        forall|i: int| 0 <= i < n ==> 0 <= #[trigger] f(i) < m,
        forall|i: int, j: int| 0 <= i < n && 0 <= j < n && i != j ==> #[trigger] f(i) != #[trigger] f(j),
    ensures
        n <= m,
{
    let whole = set_int_range(0, n as int);
    let target = set_int_range(0, m as int);
    lemma_int_range(0, n as int);
    lemma_int_range(0, m as int);
    let image = whole.map(f);
    assert(vstd::relations::injective_on(f, whole));
    lemma_map_size(whole, image, f);
    assert(image.subset_of(target));
    lemma_len_subset(image, target);
}

/// Objects with unique keys, each key of either found in the other, have
/// the same number of entries.
proof fn lemma_same_keys_same_len(x: Seq<(Seq<char>, ValueModel)>, y: Seq<(Seq<char>, ValueModel)>)
    requires
        keys_unique(x),
        keys_unique(y),
        forall|i: int| 0 <= i < x.len() ==> find_key(y, #[trigger] x[i].0) is Some,
        forall|j: int| 0 <= j < y.len() ==> find_key(x, #[trigger] y[j].0) is Some,
    ensures
        x.len() == y.len(),
{
    let f = |i: int| find_key(y, x[i].0)->0;
    assert forall|i: int| 0 <= i < x.len() implies 0 <= #[trigger] f(i) < y.len() && y[f(i)].0 == x[i].0 by {
        lemma_find_key(y, x[i].0);
    }
    assert forall|i: int, j: int| 0 <= i < x.len() && 0 <= j < x.len() && i != j implies #[trigger] f(i) != #[trigger] f(j) by {
        assert(y[f(i)].0 == x[i].0);
        assert(y[f(j)].0 == x[j].0);
    }
    lemma_injection_bounded(x.len(), y.len(), f);
    let g = |j: int| find_key(x, y[j].0)->0;
    assert forall|j: int| 0 <= j < y.len() implies 0 <= #[trigger] g(j) < x.len() && x[g(j)].0 == y[j].0 by {
        lemma_find_key(x, y[j].0);
    }
    assert forall|i: int, j: int| 0 <= i < y.len() && 0 <= j < y.len() && i != j implies #[trigger] g(i) != #[trigger] g(j) by {
        assert(x[g(i)].0 == y[i].0);
        assert(x[g(j)].0 == y[j].0);
    }
    lemma_injection_bounded(y.len(), x.len(), g);
}

/// Whether arrays are compared without identity keys: longest common
/// subsequence, position by position, or `Keyed` with no key configured.
pub open spec fn unkeyed(o: OptionsModel) -> bool {
    ||| o.array_strategy == ArrayStrategy::Lcs
    ||| o.array_strategy == ArrayStrategy::Positional
    ||| (o.array_strategy == ArrayStrategy::Keyed && o.array_keys.len() == 0)
}

/// Two documents compared at `path` have no differences exactly when they
/// are deeply equal at that depth: with no ignore patterns and arrays
/// compared without identity keys, the diff is silent precisely on equal
/// data, whatever the order of object keys. (Under key matching a reordered
/// array can be silent without being equal element by element; an ignore
/// pattern can silence any difference.)
#[verifier::spinoff_prover]
pub proof fn law_equal_exactly_when_silent(a: ValueModel, b: ValueModel, path: Seq<SegmentModel>, o: OptionsModel)
    requires
        no_ignores(o),
        unkeyed(o),
        well_formed(a),
        well_formed(b),
    ensures
        deep_equal(a, b, path.len(), o) == (diff_values_spec(a, b, path, o).len() == 0),
    decreases a,
{
    assert(!ignored(o, path));
    match (a, b) {
        (ValueModel::Object(x), ValueModel::Object(y)) => {
            if path.len() < MAX_DEPTH {
                assert forall|i: int, j: int| 0 <= i < x.len() && 0 <= j < y.len() implies
                    #[trigger] deep_equal(x[i].1, y[j].1, path.len() + 1, o)
                        == (#[trigger] diff_values_spec(x[i].1, y[j].1, path.push(SegmentModel::Key(x[i].0)), o).len() == 0) by {
                    law_equal_exactly_when_silent(x[i].1, y[j].1, path.push(SegmentModel::Key(x[i].0)), o);
                }
                let d = object_pairs(x, y, path, o, x.len()) + object_added(x, y, path, o, y.len());
                assert(diff_values_spec(a, b, path, o) == d);
                if deep_equal(a, b, path.len(), o) {
                    assert forall|i: int| 0 <= i < x.len() implies match find_key(y, #[trigger] x[i].0) {
                        Some(j) => diff_values_spec(x[i].1, y[j].1, path.push(SegmentModel::Key(x[i].0)), o)
                            == Seq::<(Seq<SegmentModel>, KindModel)>::empty(),
                        None => false,
                    } by {
                        lemma_find_key(y, x[i].0);
                        let j = find_key(y, x[i].0)->0;
                        assert(deep_equal(x[i].1, y[j].1, path.len() + 1, o));
                        assert(diff_values_spec(x[i].1, y[j].1, path.push(SegmentModel::Key(x[i].0)), o).len() == 0);
                        assert(diff_values_spec(x[i].1, y[j].1, path.push(SegmentModel::Key(x[i].0)), o)
                            =~= Seq::<(Seq<SegmentModel>, KindModel)>::empty());
                    }
                    lemma_deep_equal_symmetric(a, b, path.len(), o);
                    assert forall|j: int| 0 <= j < y.len() implies find_key(x, #[trigger] y[j].0) is Some by {
                    }
                    lemma_object_pairs_none(x, y, path, o, x.len());
                    lemma_object_added_none(x, y, path, o, y.len());
                    assert(d.len() == 0);
                }
                if d.len() == 0 {
                    assert(object_pairs(x, y, path, o, x.len()).len() == 0);
                    assert(object_added(x, y, path, o, y.len()).len() == 0);
                    lemma_object_pairs_silent(x, y, path, o, x.len());
                    lemma_object_added_silent(x, y, path, o, y.len());
                    assert forall|i: int| 0 <= i < x.len() implies find_key(y, #[trigger] x[i].0) is Some by {
                    }
                    lemma_same_keys_same_len(x, y);
                    assert forall|i: int| 0 <= i < x.len() implies match find_key(y, #[trigger] x[i].0) {
                        Some(j) => deep_equal(x[i].1, y[j].1, path.len() + 1, o),
                        None => false,
                    } by {
                        lemma_find_key(y, x[i].0);
                    }
                }
            }
        },
        (ValueModel::Array(x), ValueModel::Array(y)) => {
            if path.len() < MAX_DEPTH {
                assert forall|t: int| 0 <= t < x.len() && t < y.len() implies
                    #[trigger] deep_equal(x[t], y[t], path.len() + 1, o)
                        == (diff_values_spec(x[t], y[t], path.push(SegmentModel::Index(t as usize)), o).len() == 0) by {
                    law_equal_exactly_when_silent(x[t], y[t], path.push(SegmentModel::Index(t as usize)), o);
                }
                let positional = o.array_strategy == ArrayStrategy::Positional
                    || (x.len() + 1) * (y.len() + 1) > crate::diff_spec::LCS_CELL_LIMIT;
                if o.array_strategy == ArrayStrategy::Positional {
                    assert(diff_values_spec(a, b, path, o) == positional_spec(x, y, path, o));
                } else {
                    assert(diff_values_spec(a, b, path, o) == lcs_or_positional(x, y, path, o));
                }
                if positional {
                    assert(diff_values_spec(a, b, path, o) == positional_spec(x, y, path, o));
                    if deep_equal(a, b, path.len(), o) {
                        assert forall|t: int| 0 <= t < x.len() implies diff_values_spec(#[trigger] x[t], y[t], path.push(SegmentModel::Index(t as usize)), o)
                            == Seq::<(Seq<SegmentModel>, KindModel)>::empty() by {
                            assert(deep_equal(x[t], y[t], path.len() + 1, o));
                            assert(diff_values_spec(x[t], y[t], path.push(SegmentModel::Index(t as usize)), o)
                                =~= Seq::<(Seq<SegmentModel>, KindModel)>::empty());
                        }
                        lemma_positional_none(x, y, path, o);
                    }
                    if positional_spec(x, y, path, o).len() == 0 {
                        lemma_positional_silent(x, y, path, o);
                        assert forall|t: int| 0 <= t < x.len() implies deep_equal(#[trigger] x[t], y[t], path.len() + 1, o) by {
                            assert(diff_values_spec(x[t], y[t], path.push(SegmentModel::Index(t as usize)), o).len() == 0);
                        }
                    }
                } else {
                    assert(diff_values_spec(a, b, path, o) == lcs_walk(x, y, 0, 0, path, o));
                    if deep_equal(a, b, path.len(), o) {
                        lemma_lcs_walk_diagonal(x, y, 0, path, o);
                    }
                    if lcs_walk(x, y, 0, 0, path, o).len() == 0 {
                        lemma_lcs_walk_silent(x, y, 0, 0, path, o);
                        assert forall|t: int| 0 <= t < x.len() implies deep_equal(#[trigger] x[t], y[t], path.len() + 1, o) by {
                            assert(x[0 + t] == x[t]);
                            assert(y[0 + t] == y[t]);
                        }
                    }
                }
            }
        },
        _ => {},
    }
}

/// The LCS of the rests of two arrays is no longer than either rest.
proof fn lemma_lcs_bounded(a: Seq<ValueModel>, b: Seq<ValueModel>, i: nat, j: nat, d: nat, o: OptionsModel)
    ensures
        i <= a.len() ==> crate::diff_spec::lcs_len(a, b, i, j, d, o) <= a.len() - i,
        j <= b.len() ==> crate::diff_spec::lcs_len(a, b, i, j, d, o) <= b.len() - j,
    decreases a.len() + b.len() - i - j,
{
    if i < a.len() && j < b.len() {
        lemma_lcs_bounded(a, b, i + 1, j + 1, d, o);
        lemma_lcs_bounded(a, b, i + 1, j, d, o);
        lemma_lcs_bounded(a, b, i, j + 1, d, o);
    }
}

/// Arrays that agree, element for element and deeply, from `i` and `j` on
/// have an LCS covering all of the first one's rest.
proof fn lemma_lcs_shifted_copy(a: Seq<ValueModel>, b: Seq<ValueModel>, i: nat, j: nat, d: nat, o: OptionsModel)
    requires
        i <= a.len(),
        j <= b.len(),
        a.len() - i == b.len() - j,
        forall|t: int| 0 <= t < a.len() - i ==> deep_equal(#[trigger] a[i + t], b[j + t], d, o),
    ensures
        crate::diff_spec::lcs_len(a, b, i, j, d, o) == a.len() - i,
    decreases a.len() - i,
{
    if i < a.len() {
        assert(deep_equal(a[i + 0int], b[j + 0int], d, o));
        assert forall|t: int| 0 <= t < a.len() - (i + 1) implies deep_equal(#[trigger] a[(i + 1) + t], b[(j + 1) + t], d, o) by {
            assert(deep_equal(a[i + (t + 1)], b[j + (t + 1)], d, o));
        }
        lemma_lcs_shifted_copy(a, b, i + 1, j + 1, d, o);
    }
}

/// Past the inserted element, the new array repeats the old one shifted by
/// one, so the LCS still covers all of the old array's rest.
proof fn lemma_lcs_after_insert(a: Seq<ValueModel>, b: Seq<ValueModel>, i: nat, d: nat, o: OptionsModel)
    requires
        b.len() == a.len() + 1,
        1 <= i <= a.len(),
        forall|t: int| i <= t <= a.len() ==> #[trigger] b[t] == a[t - 1],
        forall|t: int| 0 <= t < a.len() ==> deep_equal(#[trigger] a[t], a[t], d, o),
    ensures
        crate::diff_spec::lcs_len(a, b, i, i, d, o) == a.len() - i,
    decreases a.len() - i,
{
    lemma_lcs_bounded(a, b, i, i, d, o);
    if i < a.len() {
        assert forall|t: int| 0 <= t < a.len() - i implies deep_equal(#[trigger] a[i + t], b[(i + 1) + t], d, o) by {
            assert(b[(i + 1) + t] == a[i + t]);
        }
        lemma_lcs_shifted_copy(a, b, i, i + 1, d, o);
        if deep_equal(a[i as int], b[i as int], d, o) {
            lemma_lcs_after_insert(a, b, i + 1, d, o);
        }
    }
}

/// Up to the inserted element the arrays agree, so the LCS covers all of the
/// old array's rest.
proof fn lemma_lcs_before_insert(a: Seq<ValueModel>, b: Seq<ValueModel>, k: nat, i: nat, d: nat, o: OptionsModel)
    requires
        b.len() == a.len() + 1,
        k <= a.len(),
        i <= k,
        forall|t: int| 0 <= t < k ==> #[trigger] b[t] == a[t],
        forall|t: int| k < t <= a.len() ==> #[trigger] b[t] == a[t - 1],
        forall|t: int| 0 <= t < a.len() ==> deep_equal(#[trigger] a[t], a[t], d, o),
    ensures
        crate::diff_spec::lcs_len(a, b, i, i, d, o) == a.len() - i,
    decreases k - i,
{
    lemma_lcs_bounded(a, b, i, i, d, o);
    if i < k {
        assert(deep_equal(a[i as int], b[i as int], d, o));
        lemma_lcs_before_insert(a, b, k, i + 1, d, o);
    } else if k < a.len() {
        assert forall|t: int| 0 <= t < a.len() - k implies deep_equal(#[trigger] a[k + t], b[(k + 1) + t], d, o) by {
            assert(b[(k + 1) + t] == a[k + t]);
        }
        lemma_lcs_shifted_copy(a, b, k, k + 1, d, o);
        if deep_equal(a[k as int], b[k as int], d, o) {
            lemma_lcs_after_insert(a, b, k + 1, d, o);
        }
    }
}

/// Whether every change of a list is an addition of a whole value.
pub open spec fn all_whole_additions(s: Seq<(Seq<SegmentModel>, KindModel)>) -> bool {
    forall|i: int| 0 <= i < s.len() ==> (#[trigger] s[i]).1 is Added
}

/// An LCS walk along which the old array's rest is entirely matched reports
/// only additions, one for each unmatched element of the new array.
proof fn lemma_walk_only_additions(a: Seq<ValueModel>, b: Seq<ValueModel>, i: nat, j: nat, path: Seq<SegmentModel>, o: OptionsModel)
    requires
        no_ignores(o),
        !o.expand,
        i <= a.len(),
        j <= b.len(),
        crate::diff_spec::lcs_len(a, b, i, j, path.len() + 1, o) == a.len() - i,
    ensures
        lcs_walk(a, b, i, j, path, o).len() == (b.len() - j) - (a.len() - i),
        all_whole_additions(lcs_walk(a, b, i, j, path, o)),
    decreases a.len() + b.len() - i - j,
{
    let d = path.len() + 1;
    lemma_lcs_bounded(a, b, i, j, d, o);
    if i < a.len() && j < b.len() {
        if deep_equal(a[i as int], b[j as int], d, o) {
            lemma_walk_only_additions(a, b, i + 1, j + 1, path, o);
        } else {
            lemma_lcs_bounded(a, b, i + 1, j, d, o);
            lemma_walk_only_additions(a, b, i, j + 1, path, o);
            let rest = lcs_walk(a, b, i, j + 1, path, o);
            let head = crate::diff_spec::emit_spec(b[j as int], path.push(SegmentModel::Index(j as usize)), o, true);
            assert(head.len() == 1 && head[0].1 is Added);
            assert forall|t: int| 0 <= t < (head + rest).len() implies (#[trigger] (head + rest)[t]).1 is Added by {
                if t > 0 {
                    assert((head + rest)[t] == rest[t - 1]);
                }
            }
        }
    } else if j < b.len() {
        lemma_walk_only_additions(a, b, i, j + 1, path, o);
        let rest = lcs_walk(a, b, i, j + 1, path, o);
        let head = crate::diff_spec::emit_spec(b[j as int], path.push(SegmentModel::Index(j as usize)), o, true);
        assert(head.len() == 1 && head[0].1 is Added);
        assert forall|t: int| 0 <= t < (head + rest).len() implies (#[trigger] (head + rest)[t]).1 is Added by {
            if t > 0 {
                assert((head + rest)[t] == rest[t - 1]);
            }
        }
    }
}

/// Inserting one element into an array does not cascade: compared by LCS,
/// an array and the same array with one element inserted anywhere differ by
/// exactly one change, an addition. This holds without ignore patterns or
/// subtree expansion, for arrays of well-formed elements whose nesting stays
/// above the depth limit, and below the LCS cell limit (larger arrays are
/// compared positionally).
pub proof fn law_insertion_does_not_cascade(a: Seq<ValueModel>, k: nat, e: ValueModel, o: OptionsModel)
    requires
        no_ignores(o),
        !o.expand,
        o.array_strategy == ArrayStrategy::Lcs,
        k <= a.len(),
        (a.len() + 1) * (a.len() + 2) <= crate::diff_spec::LCS_CELL_LIMIT,
        forall|t: int| 0 <= t < a.len() ==> well_formed(#[trigger] a[t]) && nesting_below(a[t], 1) && scalars_self_equal(a[t], o),
    ensures
        diff_values_spec(ValueModel::Array(a), ValueModel::Array(a.insert(k as int, e)), Seq::empty(), o).len() == 1,
        diff_values_spec(ValueModel::Array(a), ValueModel::Array(a.insert(k as int, e)), Seq::empty(), o)[0].1 is Added,
{
    let b = a.insert(k as int, e);
    let path = Seq::<SegmentModel>::empty();
    assert forall|t: int| 0 <= t < a.len() implies deep_equal(#[trigger] a[t], a[t], 1, o) by {
        lemma_same_reflexive(a[t]);
        lemma_same_deep_equal(a[t], a[t], 1, o);
    }
    assert forall|t: int| 0 <= t < k implies #[trigger] b[t] == a[t] by {}
    assert forall|t: int| k < t <= a.len() implies #[trigger] b[t] == a[t - 1] by {}
    lemma_lcs_before_insert(a, b, k, 0, 1, o);
    lemma_walk_only_additions(a, b, 0, 0, path, o);
    assert(b.len() == a.len() + 1);
    assert(!((a.len() + 1) * (b.len() + 1) > crate::diff_spec::LCS_CELL_LIMIT));
    assert(lcs_or_positional(a, b, path, o) == lcs_walk(a, b, 0, 0, path, o));
    assert(diff_arrays_spec(a, b, path, o) == lcs_or_positional(a, b, path, o));
    assert(diff_values_spec(ValueModel::Array(a), ValueModel::Array(b), path, o) == diff_arrays_spec(a, b, path, o));
}

/// Arrays that agree, element for element and deeply, from `i` and `j` on
/// have an LCS covering all of the second one's rest.
proof fn lemma_lcs_shifted_copy_rev(a: Seq<ValueModel>, b: Seq<ValueModel>, i: nat, j: nat, d: nat, o: OptionsModel)
    requires
        i <= a.len(),
        j <= b.len(),
        a.len() - i == b.len() - j,
        forall|t: int| 0 <= t < b.len() - j ==> deep_equal(a[i + t], #[trigger] b[j + t], d, o),
    ensures
        crate::diff_spec::lcs_len(a, b, i, j, d, o) == b.len() - j,
    decreases b.len() - j,
{
    if j < b.len() {
        assert(deep_equal(a[i + 0int], b[j + 0int], d, o));
        assert forall|t: int| 0 <= t < b.len() - (j + 1) implies deep_equal(a[(i + 1) + t], #[trigger] b[(j + 1) + t], d, o) by {
            assert(deep_equal(a[i + (t + 1)], b[j + (t + 1)], d, o));
        }
        lemma_lcs_shifted_copy_rev(a, b, i + 1, j + 1, d, o);
    }
}

/// Past the removed element, the old array repeats the new one shifted by
/// one, so the LCS still covers all of the new array's rest.
proof fn lemma_lcs_after_removal(a: Seq<ValueModel>, b: Seq<ValueModel>, i: nat, d: nat, o: OptionsModel)
    requires
        a.len() == b.len() + 1,
        1 <= i <= b.len(),
        forall|t: int| i <= t <= b.len() ==> #[trigger] a[t] == b[t - 1],
        forall|t: int| 0 <= t < b.len() ==> deep_equal(#[trigger] b[t], b[t], d, o),
    ensures
        crate::diff_spec::lcs_len(a, b, i, i, d, o) == b.len() - i,
    decreases b.len() - i,
{
    lemma_lcs_bounded(a, b, i, i, d, o);
    if i < b.len() {
        assert forall|t: int| 0 <= t < b.len() - i implies deep_equal(a[(i + 1) + t], #[trigger] b[i + t], d, o) by {
            assert(a[(i + 1) + t] == b[i + t]);
        }
        lemma_lcs_shifted_copy_rev(a, b, i + 1, i, d, o);
        if deep_equal(a[i as int], b[i as int], d, o) {
            lemma_lcs_after_removal(a, b, i + 1, d, o);
        }
    }
}

/// Up to the removed element the arrays agree, so the LCS covers all of the
/// new array's rest.
proof fn lemma_lcs_before_removal(a: Seq<ValueModel>, b: Seq<ValueModel>, k: nat, i: nat, d: nat, o: OptionsModel)
    requires
        a.len() == b.len() + 1,
        k <= b.len(),
        i <= k,
        forall|t: int| 0 <= t < k ==> #[trigger] a[t] == b[t],
        forall|t: int| k < t <= b.len() ==> #[trigger] a[t] == b[t - 1],
        forall|t: int| 0 <= t < b.len() ==> deep_equal(#[trigger] b[t], b[t], d, o),
    ensures
        crate::diff_spec::lcs_len(a, b, i, i, d, o) == b.len() - i,
    decreases k - i,
{
    lemma_lcs_bounded(a, b, i, i, d, o);
    if i < k {
        assert(deep_equal(a[i as int], b[i as int], d, o));
        lemma_lcs_before_removal(a, b, k, i + 1, d, o);
    } else if k < b.len() {
        assert forall|t: int| 0 <= t < b.len() - k implies deep_equal(a[(k + 1) + t], #[trigger] b[k + t], d, o) by {
            assert(a[(k + 1) + t] == b[k + t]);
        }
        lemma_lcs_shifted_copy_rev(a, b, k + 1, k, d, o);
        if deep_equal(a[k as int], b[k as int], d, o) {
            lemma_lcs_after_removal(a, b, k + 1, d, o);
        }
    }
}

/// Whether every change of a list is a removal of a whole value.
pub open spec fn all_whole_removals(s: Seq<(Seq<SegmentModel>, KindModel)>) -> bool {
    forall|i: int| 0 <= i < s.len() ==> (#[trigger] s[i]).1 is Removed
}

/// An LCS walk along which the new array's rest is entirely matched reports
/// only removals, one for each unmatched element of the old array.
proof fn lemma_walk_only_removals(a: Seq<ValueModel>, b: Seq<ValueModel>, i: nat, j: nat, path: Seq<SegmentModel>, o: OptionsModel)
    requires
        no_ignores(o),
        !o.expand,
        i <= a.len(),
        j <= b.len(),
        crate::diff_spec::lcs_len(a, b, i, j, path.len() + 1, o) == b.len() - j,
    ensures
        lcs_walk(a, b, i, j, path, o).len() == (a.len() - i) - (b.len() - j),
        all_whole_removals(lcs_walk(a, b, i, j, path, o)),
    decreases a.len() + b.len() - i - j,
{
    let d = path.len() + 1;
    lemma_lcs_bounded(a, b, i, j, d, o);
    if i < a.len() && j < b.len() {
        if deep_equal(a[i as int], b[j as int], d, o) {
            lemma_walk_only_removals(a, b, i + 1, j + 1, path, o);
        } else {
            lemma_lcs_bounded(a, b, i, j + 1, d, o);
            lemma_walk_only_removals(a, b, i + 1, j, path, o);
            let rest = lcs_walk(a, b, i + 1, j, path, o);
            let head = crate::diff_spec::emit_spec(a[i as int], path.push(SegmentModel::Index(i as usize)), o, false);
            assert(head.len() == 1 && head[0].1 is Removed);
            assert forall|t: int| 0 <= t < (head + rest).len() implies (#[trigger] (head + rest)[t]).1 is Removed by {
                if t > 0 {
                    assert((head + rest)[t] == rest[t - 1]);
                }
            }
        }
    } else if i < a.len() {
        lemma_walk_only_removals(a, b, i + 1, j, path, o);
        let rest = lcs_walk(a, b, i + 1, j, path, o);
        let head = crate::diff_spec::emit_spec(a[i as int], path.push(SegmentModel::Index(i as usize)), o, false);
        assert(head.len() == 1 && head[0].1 is Removed);
        assert forall|t: int| 0 <= t < (head + rest).len() implies (#[trigger] (head + rest)[t]).1 is Removed by {
            if t > 0 {
                assert((head + rest)[t] == rest[t - 1]);
            }
        }
    }
}

/// Removing one element from an array does not cascade: compared by LCS, an
/// array and the same array with one element removed anywhere differ by
/// exactly one change, a removal; under the same conditions as insertion.
pub proof fn law_removal_does_not_cascade(b: Seq<ValueModel>, k: nat, e: ValueModel, o: OptionsModel)
    requires
        no_ignores(o),
        !o.expand,
        o.array_strategy == ArrayStrategy::Lcs,
        k <= b.len(),
        (b.len() + 2) * (b.len() + 1) <= crate::diff_spec::LCS_CELL_LIMIT,
        forall|t: int| 0 <= t < b.len() ==> well_formed(#[trigger] b[t]) && nesting_below(b[t], 1) && scalars_self_equal(b[t], o),
    ensures
        diff_values_spec(ValueModel::Array(b.insert(k as int, e)), ValueModel::Array(b), Seq::empty(), o).len() == 1,
        diff_values_spec(ValueModel::Array(b.insert(k as int, e)), ValueModel::Array(b), Seq::empty(), o)[0].1 is Removed,
{
    let a = b.insert(k as int, e);
    let path = Seq::<SegmentModel>::empty();
    assert forall|t: int| 0 <= t < b.len() implies deep_equal(#[trigger] b[t], b[t], 1, o) by {
        lemma_same_reflexive(b[t]);
        lemma_same_deep_equal(b[t], b[t], 1, o);
    }
    assert forall|t: int| 0 <= t < k implies #[trigger] a[t] == b[t] by {}
    assert forall|t: int| k < t <= b.len() implies #[trigger] a[t] == b[t - 1] by {}
    lemma_lcs_before_removal(a, b, k, 0, 1, o);
    lemma_walk_only_removals(a, b, 0, 0, path, o);
    assert(a.len() == b.len() + 1);
    assert(!((a.len() + 1) * (b.len() + 1) > crate::diff_spec::LCS_CELL_LIMIT));
    assert(lcs_or_positional(a, b, path, o) == lcs_walk(a, b, 0, 0, path, o));
    assert(diff_arrays_spec(a, b, path, o) == lcs_or_positional(a, b, path, o));
    assert(diff_values_spec(ValueModel::Array(a), ValueModel::Array(b), path, o) == diff_arrays_spec(a, b, path, o));
}

/// With loose numbers, an integer and the float of equal value (the float
/// `i as f64` gives) are not a change, unless a tolerance that the number's
/// zero difference does not meet (a NaN or negative one) is set.
pub proof fn law_loose_numbers_equal(i: i64, text: Seq<char>, path: Seq<SegmentModel>, o: OptionsModel)
    requires
        o.numbers_loose,
        crate::numeric::numbers_equal(crate::numeric::int_float_bits(i), crate::numeric::int_float_bits(i), o.float_tolerance),
    ensures
        diff_values_spec(ValueModel::Integer(i), ValueModel::Float(crate::numeric::int_float_bits(i), text), path, o).len() == 0,
{
}

/// With a tolerance, two floats whose difference is within it (as `f64`
/// arithmetic computes `(x - y).abs() <= tol`) are not a change.
pub proof fn law_tolerance_absorbs(x: u64, xt: Seq<char>, y: u64, yt: Seq<char>, t: u64, path: Seq<SegmentModel>, o: OptionsModel)
    requires
        o.float_tolerance == Some(t),
        within_tolerance(x, y, t),
    ensures
        diff_values_spec(ValueModel::Float(x, xt), ValueModel::Float(y, yt), path, o).len() == 0,
{
}

/// A change of type is reported as one type change, not a value change:
/// two scalars of different types (other than two numbers under loose
/// number comparison), or a container against a scalar or a container of
/// the other kind, at a path that is not ignored.
pub proof fn law_type_changes_are_distinct(a: ValueModel, b: ValueModel, path: Seq<SegmentModel>, o: OptionsModel)
    requires
        !(a is Object && b is Object),
        !(a is Array && b is Array),
        spec_is_scalar(a) && spec_is_scalar(b) ==> crate::value::spec_type_name(a) != crate::value::spec_type_name(b),
        !(o.numbers_loose && crate::diff_spec::is_numeric(a) && crate::diff_spec::is_numeric(b)),
        path.len() > 0 ==> !ignored(o, path),
    ensures
        diff_values_spec(a, b, path, o) == seq![(path, KindModel::TypeChanged(a, b))],
{
}

/// Nodes at the depth limit are not compared: two objects, or two arrays,
/// found there are reported as one `Changed` marker (unless the path is
/// ignored).
pub proof fn law_depth_limit_marker(a: ValueModel, b: ValueModel, path: Seq<SegmentModel>, o: OptionsModel)
    requires
        (a is Object && b is Object) || (a is Array && b is Array),
        path.len() >= MAX_DEPTH,
        !ignored(o, path),
    ensures
        diff_values_spec(a, b, path, o) == seq![(path, KindModel::Changed(a, b))],
{
}

/// The number of leaves that expanding a subtree at `depth` reports: one for
/// a scalar, an empty container or a container at the depth limit, and the
/// leaves of its children for any other container.
pub open spec fn leaf_count(v: ValueModel, depth: nat) -> nat
    decreases v, 0nat,
{
    match v {
        ValueModel::Object(m) => if depth < MAX_DEPTH && m.len() > 0 {
            entries_leaf_count(m, depth, m.len())
        } else {
            1
        },
        ValueModel::Array(s) => if depth < MAX_DEPTH && s.len() > 0 {
            elements_leaf_count(s, depth, s.len())
        } else {
            1
        },
        _ => 1,
    }
}

/// The leaves under the first `k` entries of an object at `depth`.
pub open spec fn entries_leaf_count(m: Seq<(Seq<char>, ValueModel)>, depth: nat, k: nat) -> nat
    decreases m, k,
{
    if k == 0 || k > m.len() {
        0
    } else {
        entries_leaf_count(m, depth, (k - 1) as nat) + leaf_count(m[k - 1].1, depth + 1)
    }
}

/// The leaves under the first `k` elements of an array at `depth`.
pub open spec fn elements_leaf_count(s: Seq<ValueModel>, depth: nat, k: nat) -> nat
    decreases s, k,
{
    if k == 0 || k > s.len() {
        0
    } else {
        elements_leaf_count(s, depth, (k - 1) as nat) + leaf_count(s[k - 1], depth + 1)
    }
}

/// Whether every change of a list reports a whole value added (`added`) or
/// removed, and that value is a leaf: a scalar, an empty container, or a
/// container at the depth limit.
pub open spec fn whole_leaves(s: Seq<(Seq<SegmentModel>, KindModel)>, added: bool) -> bool {
    forall|i: int| 0 <= i < s.len() ==> {
        let c = #[trigger] s[i];
        let v = match c.1 {
            KindModel::Added(v) => v,
            KindModel::Removed(v) => v,
            _ => ValueModel::Null,
        };
        &&& (if added { c.1 is Added } else { c.1 is Removed })
        &&& (spec_is_scalar(v) || c.0.len() >= MAX_DEPTH
            || (v is Object && v->Object_0.len() == 0) || (v is Array && v->Array_0.len() == 0))
    }
}

proof fn lemma_leaves_concat(s1: Seq<(Seq<SegmentModel>, KindModel)>, s2: Seq<(Seq<SegmentModel>, KindModel)>, added: bool)
    requires
        whole_leaves(s1, added),
        whole_leaves(s2, added),
    ensures
        whole_leaves(s1 + s2, added),
{
    assert forall|i: int| 0 <= i < (s1 + s2).len() implies {
        let c = #[trigger] (s1 + s2)[i];
        let v = match c.1 {
            KindModel::Added(v) => v,
            KindModel::Removed(v) => v,
            _ => ValueModel::Null,
        };
        &&& (if added { c.1 is Added } else { c.1 is Removed })
        &&& (spec_is_scalar(v) || c.0.len() >= MAX_DEPTH
            || (v is Object && v->Object_0.len() == 0) || (v is Array && v->Array_0.len() == 0))
    } by {
        if i >= s1.len() {
            assert((s1 + s2)[i] == s2[i - s1.len()]);
        } else {
            assert((s1 + s2)[i] == s1[i]);
        }
    }
}

proof fn lemma_expand_leaves(v: ValueModel, path: Seq<SegmentModel>, o: OptionsModel, added: bool)
    requires
        no_ignores(o),
        o.expand,
    ensures
        crate::diff_spec::emit_spec(v, path, o, added).len() == leaf_count(v, path.len()),
        whole_leaves(crate::diff_spec::emit_spec(v, path, o, added), added),
    decreases v, 0nat,
{
    assert(!ignored(o, path));
    if path.len() < MAX_DEPTH && v is Object && v->Object_0.len() > 0 {
        lemma_expand_entries(v->Object_0, path, o, added, v->Object_0.len());
    } else if path.len() < MAX_DEPTH && v is Array && v->Array_0.len() > 0 {
        lemma_expand_elements(v->Array_0, path, o, added, v->Array_0.len());
    }
}

proof fn lemma_expand_entries(m: Seq<(Seq<char>, ValueModel)>, path: Seq<SegmentModel>, o: OptionsModel, added: bool, k: nat)
    requires
        no_ignores(o),
        o.expand,
    ensures
        crate::diff_spec::emit_entries(m, path, o, added, k).len() == entries_leaf_count(m, path.len(), k),
        whole_leaves(crate::diff_spec::emit_entries(m, path, o, added, k), added),
    decreases m, k,
{
    if k > 0 && k <= m.len() {
        lemma_expand_entries(m, path, o, added, (k - 1) as nat);
        let child = path.push(SegmentModel::Key(m[k - 1].0));
        lemma_expand_leaves(m[k - 1].1, child, o, added);
        lemma_leaves_concat(
            crate::diff_spec::emit_entries(m, path, o, added, (k - 1) as nat),
            crate::diff_spec::emit_spec(m[k - 1].1, child, o, added),
            added,
        );
    }
}

proof fn lemma_expand_elements(s: Seq<ValueModel>, path: Seq<SegmentModel>, o: OptionsModel, added: bool, k: nat)
    requires
        no_ignores(o),
        o.expand,
    ensures
        crate::diff_spec::emit_elements(s, path, o, added, 0, k).len() == elements_leaf_count(s, path.len(), k),
        whole_leaves(crate::diff_spec::emit_elements(s, path, o, added, 0, k), added),
    decreases s, k,
{
    if k > 0 && k <= s.len() {
        lemma_expand_elements(s, path, o, added, (k - 1) as nat);
        let child = path.push(SegmentModel::Index((k - 1) as usize));
        lemma_expand_leaves(s[k - 1], child, o, added);
        lemma_leaves_concat(
            crate::diff_spec::emit_elements(s, path, o, added, 0, (k - 1) as nat),
            crate::diff_spec::emit_spec(s[k - 1], child, o, added),
            added,
        );
    }
}

/// With `expand`, an added (or removed) subtree is reported leaf by leaf:
/// one addition (removal) for each leaf, each of a scalar, an empty
/// container, or a container at the depth limit.
pub proof fn law_expand_reports_each_leaf(v: ValueModel, path: Seq<SegmentModel>, o: OptionsModel, added: bool)
    requires
        no_ignores(o),
        o.expand,
    ensures
        crate::diff_spec::emit_spec(v, path, o, added).len() == leaf_count(v, path.len()),
        whole_leaves(crate::diff_spec::emit_spec(v, path, o, added), added),
{
    lemma_expand_leaves(v, path, o, added);
}

} // verus!
