//! The diff's parts in plain form: what objects, arrays and added or removed
//! subtrees contribute, stated as lists of per-entry results in document
//! order.

use vstd::prelude::*;
use crate::diff_spec::{
    KindModel, MAX_DEPTH, auto_key, candidate_keys, diff_arrays_spec, diff_values_spec, emit_elements, emit_entries,
    emit_spec, first_unused, ignored, key_equal, key_fits, key_of, keyed_spec, keyed_table, lcs_or_positional,
    object_added, object_pairs, whole_change,
};
use crate::options::{ArrayStrategy, OptionsModel};
use crate::path::SegmentModel;
use crate::value::{ValueModel, find_key};

verus! {

/// For each entry of the old object, in its order: the diff against the
/// new object's entry under the same key, or the entry's removal.
pub open spec fn entry_changes(
    a: Seq<(Seq<char>, ValueModel)>,
    b: Seq<(Seq<char>, ValueModel)>,
    path: Seq<SegmentModel>,
    o: OptionsModel,
) -> Seq<Seq<(Seq<SegmentModel>, KindModel)>> {
    Seq::new(a.len(), |i: int| match find_key(b, a[i].0) {
        Some(j) => diff_values_spec(a[i].1, b[j].1, path.push(SegmentModel::Key(a[i].0)), o),
        None => emit_spec(a[i].1, path.push(SegmentModel::Key(a[i].0)), o, false),
    })
}

/// For each entry of the new object, in its order: its addition when the
/// old object lacks its key, else nothing.
pub open spec fn entry_additions(
    a: Seq<(Seq<char>, ValueModel)>,
    b: Seq<(Seq<char>, ValueModel)>,
    path: Seq<SegmentModel>,
    o: OptionsModel,
) -> Seq<Seq<(Seq<SegmentModel>, KindModel)>> {
    Seq::new(b.len(), |j: int| if find_key(a, b[j].0) is None {
        emit_spec(b[j].1, path.push(SegmentModel::Key(b[j].0)), o, true)
    } else {
        Seq::empty()
    })
}

proof fn lemma_pairs_flat(
    a: Seq<(Seq<char>, ValueModel)>,
    b: Seq<(Seq<char>, ValueModel)>,
    path: Seq<SegmentModel>,
    o: OptionsModel,
    k: nat,
)
    requires
        k <= a.len(),
    ensures
        object_pairs(a, b, path, o, k) == entry_changes(a, b, path, o).take(k as int).flatten(),
    decreases k,
{
    let e = entry_changes(a, b, path, o);
    if k == 0 {
        assert(e.take(0) =~= Seq::<Seq<(Seq<SegmentModel>, KindModel)>>::empty());
    } else {
        lemma_pairs_flat(a, b, path, o, (k - 1) as nat);
        assert(e.take(k as int) =~= e.take(k - 1).push(e[k - 1]));
        e.take(k - 1).lemma_flatten_push(e[k - 1]);
    }
}

proof fn lemma_added_flat(
    a: Seq<(Seq<char>, ValueModel)>,
    b: Seq<(Seq<char>, ValueModel)>,
    path: Seq<SegmentModel>,
    o: OptionsModel,
    k: nat,
)
    requires
        k <= b.len(),
    ensures
        object_added(a, b, path, o, k) == entry_additions(a, b, path, o).take(k as int).flatten(),
    decreases k,
{
    let e = entry_additions(a, b, path, o);
    if k == 0 {
        assert(e.take(0) =~= Seq::<Seq<(Seq<SegmentModel>, KindModel)>>::empty());
    } else {
        lemma_added_flat(a, b, path, o, (k - 1) as nat);
        assert(e.take(k as int) =~= e.take(k - 1).push(e[k - 1]));
        e.take(k - 1).lemma_flatten_push(e[k - 1]);
    }
}

/// Two objects compared at a path that is neither ignored (unless it is the
/// root) nor at the depth limit give, in order: for each key of the old
/// object in its order, the diff of the two values under that key when the
/// new object has it, else the old value's removal; then, for each key of
/// the new object in its order that the old object lacks, its addition.
pub proof fn law_objects_in_document_order(
    a: Seq<(Seq<char>, ValueModel)>,
    b: Seq<(Seq<char>, ValueModel)>,
    path: Seq<SegmentModel>,
    o: OptionsModel,
)
    requires
        path.len() < MAX_DEPTH,
        path.len() == 0 || !ignored(o, path),
    ensures
        diff_values_spec(ValueModel::Object(a), ValueModel::Object(b), path, o)
            == entry_changes(a, b, path, o).flatten() + entry_additions(a, b, path, o).flatten(),
{
    lemma_pairs_flat(a, b, path, o, a.len());
    lemma_added_flat(a, b, path, o, b.len());
    assert(entry_changes(a, b, path, o).take(a.len() as int) =~= entry_changes(a, b, path, o));
    assert(entry_additions(a, b, path, o).take(b.len() as int) =~= entry_additions(a, b, path, o));
}

/// Arrays are compared without identity keys, by `lcs_or_positional`, under
/// `Keyed` with no key configured, and under `Auto` when no candidate key
/// (`id`, `name`, `key`) is held as a scalar by every element of both
/// arrays; under `Auto` with such a key, they are matched by the first one.
pub proof fn law_arrays_fall_back_without_a_key(a: Seq<ValueModel>, b: Seq<ValueModel>, path: Seq<SegmentModel>, o: OptionsModel)
    ensures
        o.array_strategy == ArrayStrategy::Keyed && o.array_keys.len() == 0
            ==> diff_arrays_spec(a, b, path, o) == lcs_or_positional(a, b, path, o),
        o.array_strategy == ArrayStrategy::Auto
            && (forall|c: int| 0 <= c < candidate_keys().len()
                ==> !key_fits(a, #[trigger] candidate_keys()[c]) || !key_fits(b, candidate_keys()[c]))
            ==> diff_arrays_spec(a, b, path, o) == lcs_or_positional(a, b, path, o),
        o.array_strategy == ArrayStrategy::Auto ==> (auto_key(a, b) matches Some(k)
            ==> diff_arrays_spec(a, b, path, o) == keyed_spec(a, b, seq![k], path, o)),
{
    let ks = candidate_keys();
    if o.array_strategy == ArrayStrategy::Auto
        && (forall|c: int| 0 <= c < ks.len() ==> !key_fits(a, #[trigger] ks[c]) || !key_fits(b, ks[c])) {
        assert(!key_fits(a, ks[0]) || !key_fits(b, ks[0]));
        assert(!key_fits(a, ks[1]) || !key_fits(b, ks[1]));
        assert(!key_fits(a, ks[2]) || !key_fits(b, ks[2]));
        reveal_with_fuel(crate::diff_spec::auto_key_from, 4);
        assert(auto_key(a, b) is None);
    }
}

/// Whether the table lists, in ascending position, exactly the keyed
/// elements of `b`, each with its identity key.
pub open spec fn lists_keyed_elements(table: Seq<(ValueModel, nat)>, b: Seq<ValueModel>, keys: Seq<Seq<char>>) -> bool {
    &&& forall|t: int| 0 <= t < table.len()
        ==> #[trigger] table[t].1 < b.len() && key_of(b[table[t].1 as int], keys) == Some(table[t].0)
    &&& forall|t: int, u: int| 0 <= t < u < table.len() ==> #[trigger] table[t].1 < #[trigger] table[u].1
    &&& forall|j: int| 0 <= j < b.len() && (#[trigger] key_of(b[j], keys)) is Some
        ==> exists|t: int| 0 <= t < table.len() && #[trigger] table[t].1 == j
}

proof fn lemma_table(b: Seq<ValueModel>, keys: Seq<Seq<char>>, k: nat)
    requires
        k <= b.len(),
    ensures
        lists_keyed_elements(keyed_table(b, keys, k), b.take(k as int), keys),
        forall|t: int| 0 <= t < keyed_table(b, keys, k).len() ==> #[trigger] keyed_table(b, keys, k)[t].1 < k,
    decreases k,
{
    let bk = b.take(k as int);
    let tab = keyed_table(b, keys, k);
    if k > 0 {
        lemma_table(b, keys, (k - 1) as nat);
        let prev = keyed_table(b, keys, (k - 1) as nat);
        let bp = b.take(k - 1);
        assert forall|t: int| 0 <= t < tab.len() implies #[trigger] tab[t].1 < bk.len()
            && key_of(bk[tab[t].1 as int], keys) == Some(tab[t].0) && tab[t].1 < k by {
            if t < prev.len() {
                assert(tab[t] == prev[t]);
                assert(prev[t].1 < bp.len() && key_of(bp[prev[t].1 as int], keys) == Some(prev[t].0));
                assert(bk[prev[t].1 as int] == bp[prev[t].1 as int]);
            }
        }
        assert forall|t: int, u: int| 0 <= t < u < tab.len() implies #[trigger] tab[t].1 < #[trigger] tab[u].1 by {
            if u < prev.len() {
                assert(tab[t] == prev[t] && tab[u] == prev[u]);
            } else {
                assert(tab[t] == prev[t]);
                assert(prev[t].1 < k - 1);
            }
        }
        assert forall|j: int| 0 <= j < bk.len() && (#[trigger] key_of(bk[j], keys)) is Some
            implies exists|t: int| 0 <= t < tab.len() && #[trigger] tab[t].1 == j by {
            if j < k - 1 {
                assert(bk[j] == bp[j]);
                assert(key_of(bp[j], keys) is Some);
                let t = choose|t: int| 0 <= t < prev.len() && #[trigger] prev[t].1 == j;
                assert(tab[t] == prev[t]);
            } else {
                assert(tab[tab.len() - 1].1 == j);
            }
        }
    } else {
        assert forall|j: int| 0 <= j < bk.len() && (#[trigger] key_of(bk[j], keys)) is Some
            implies exists|t: int| 0 <= t < tab.len() && #[trigger] tab[t].1 == j by {
        }
    }
}

proof fn lemma_first_unused(table: Seq<(ValueModel, nat)>, used: Seq<bool>, key: ValueModel, s: nat)
    requires
        used.len() == table.len(),
    ensures
        first_unused(table, used, key, s) matches Some(t) ==> {
            &&& s <= t < table.len()
            &&& !used[t as int]
            &&& key_equal(table[t as int].0, key)
            &&& forall|u: int| s <= u < t ==> used[u] || !key_equal(#[trigger] table[u].0, key)
        },
        first_unused(table, used, key, s) is None
            ==> forall|u: int| s <= u < table.len() ==> used[u] || !key_equal(#[trigger] table[u].0, key),
    decreases table.len() - s,
{
    if s < table.len() {
        lemma_first_unused(table, used, key, s + 1);
    }
}

/// Key matching pairs each old element with the nearest unpaired new one:
/// the table it searches lists the new array's keyed elements in ascending
/// position with their keys, and the search returns the first entry that
/// is not yet used and whose key equals the old element's (or none when no
/// such entry is left). The old elements are taken in ascending order
/// (`keyed_pass`), and new elements left unpaired are added in ascending
/// order (`keyed_added`).
pub proof fn law_key_matching_takes_the_first_unpaired(b: Seq<ValueModel>, keys: Seq<Seq<char>>, used: Seq<bool>, key: ValueModel)
    requires
        used.len() == keyed_table(b, keys, b.len()).len(),
    ensures
        lists_keyed_elements(keyed_table(b, keys, b.len()), b, keys),
        first_unused(keyed_table(b, keys, b.len()), used, key, 0) matches Some(t) ==> {
            &&& t < keyed_table(b, keys, b.len()).len()
            &&& !used[t as int]
            &&& key_equal(keyed_table(b, keys, b.len())[t as int].0, key)
            &&& forall|u: int| 0 <= u < t ==> used[u] || !key_equal(#[trigger] keyed_table(b, keys, b.len())[u].0, key)
        },
        first_unused(keyed_table(b, keys, b.len()), used, key, 0) is None
            ==> forall|u: int| 0 <= u < keyed_table(b, keys, b.len()).len()
                ==> used[u] || !key_equal(#[trigger] keyed_table(b, keys, b.len())[u].0, key),
{
    lemma_table(b, keys, b.len());
    assert(b.take(b.len() as int) =~= b);
    lemma_first_unused(keyed_table(b, keys, b.len()), used, key, 0);
}

/// The changes for each child of a container, in order, reported as added
/// (`added`) or removed.
pub open spec fn child_emits(v: ValueModel, path: Seq<SegmentModel>, o: OptionsModel, added: bool) -> Seq<Seq<(Seq<SegmentModel>, KindModel)>> {
    match v {
        ValueModel::Object(m) => Seq::new(m.len(), |k: int| emit_spec(m[k].1, path.push(SegmentModel::Key(m[k].0)), o, added)),
        ValueModel::Array(s) => Seq::new(s.len(), |i: int| emit_spec(s[i], path.push(SegmentModel::Index(i as usize)), o, added)),
        _ => Seq::empty(),
    }
}

proof fn lemma_entries_flat(m: Seq<(Seq<char>, ValueModel)>, path: Seq<SegmentModel>, o: OptionsModel, added: bool, k: nat)
    requires
        k <= m.len(),
    ensures
        emit_entries(m, path, o, added, k) == child_emits(ValueModel::Object(m), path, o, added).take(k as int).flatten(),
    decreases k,
{
    let e = child_emits(ValueModel::Object(m), path, o, added);
    if k == 0 {
        assert(e.take(0) =~= Seq::<Seq<(Seq<SegmentModel>, KindModel)>>::empty());
    } else {
        lemma_entries_flat(m, path, o, added, (k - 1) as nat);
        assert(e.take(k as int) =~= e.take(k - 1).push(e[k - 1]));
        e.take(k - 1).lemma_flatten_push(e[k - 1]);
    }
}

proof fn lemma_elements_flat(s: Seq<ValueModel>, path: Seq<SegmentModel>, o: OptionsModel, added: bool, k: nat)
    requires
        k <= s.len(),
    ensures
        emit_elements(s, path, o, added, 0, k) == child_emits(ValueModel::Array(s), path, o, added).take(k as int).flatten(),
    decreases k,
{
    let e = child_emits(ValueModel::Array(s), path, o, added);
    if k == 0 {
        assert(e.take(0) =~= Seq::<Seq<(Seq<SegmentModel>, KindModel)>>::empty());
    } else {
        lemma_elements_flat(s, path, o, added, (k - 1) as nat);
        assert(e.take(k as int) =~= e.take(k - 1).push(e[k - 1]));
        e.take(k - 1).lemma_flatten_push(e[k - 1]);
    }
}

/// A value added (`added`) or removed at `path` is reported as nothing when
/// the path is ignored; as one change for the whole value when expansion is
/// off, the value is a scalar or an empty container, or the path is at the
/// depth limit; and otherwise as what each child, in order (an object's
/// entries under their keys, an array's elements under their indices),
/// reports in turn.
pub proof fn law_added_and_removed_values(v: ValueModel, path: Seq<SegmentModel>, o: OptionsModel, added: bool)
    ensures
        emit_spec(v, path, o, added) == if ignored(o, path) {
            Seq::<(Seq<SegmentModel>, KindModel)>::empty()
        } else if !o.expand || path.len() >= MAX_DEPTH || child_emits(v, path, o, added).len() == 0 {
            seq![whole_change(v, path, added)]
        } else {
            child_emits(v, path, o, added).flatten()
        },
{
    match v {
        ValueModel::Object(m) => {
            lemma_entries_flat(m, path, o, added, m.len());
            assert(child_emits(v, path, o, added).take(m.len() as int) =~= child_emits(v, path, o, added));
        },
        ValueModel::Array(s) => {
            lemma_elements_flat(s, path, o, added, s.len());
            assert(child_emits(v, path, o, added).take(s.len() as int) =~= child_emits(v, path, o, added));
        },
        _ => {},
    }
}

} // verus!
