//! How key-based matching pairs up the elements of two arrays: the `r`-th
//! element of the old array with a given key is paired with the `r`-th
//! element of the new array with an equal key.

use vstd::prelude::*;
use crate::diff_spec::{
    KindModel, consumed, diff_values_spec, first_unused, key_equal, key_of, keyed_added, keyed_pass,
    keyed_spec, keyed_table,
};
use crate::laws::{lemma_emit_reported, lemma_injection_onto, lemma_keyed_table_full, no_ignores, reaches};
use crate::options::OptionsModel;
use crate::numeric::float_eq_ieee;
use crate::path::SegmentModel;
use crate::value::ValueModel;

verus! {

/// The identity keys of a run of elements (meaningful where an element has
/// one).
pub open spec fn key_seq(s: Seq<ValueModel>, keys: Seq<Seq<char>>) -> Seq<ValueModel> {
    Seq::new(s.len(), |i: int| key_of(s[i], keys)->0)
}

/// Whether every element of a run has an identity key.
pub open spec fn fully_keyed(s: Seq<ValueModel>, keys: Seq<Seq<char>>) -> bool {
    forall|i: int| 0 <= i < s.len() ==> key_of(#[trigger] s[i], keys) is Some
}

/// How many of the first `k` keys equal `key`.
pub open spec fn count_eq(ks: Seq<ValueModel>, k: nat, key: ValueModel) -> nat
    decreases k,
{
    if k == 0 || k > ks.len() {
        0
    } else {
        count_eq(ks, (k - 1) as nat, key) + if key_equal(ks[k - 1], key) { 1nat } else { 0nat }
    }
}

/// The rank of position `p` among the positions with an equal key: how many
/// come before it.
pub open spec fn rank(ks: Seq<ValueModel>, p: int) -> nat {
    count_eq(ks, p as nat, ks[p])
}

pub proof fn lemma_key_equal_symmetric(a: ValueModel, b: ValueModel)
    ensures
        key_equal(a, b) == key_equal(b, a),
{
}

pub proof fn lemma_key_equal_transitive(a: ValueModel, b: ValueModel, c: ValueModel)
    requires
        key_equal(a, b),
        key_equal(b, c),
    ensures
        key_equal(a, c),
{
    if a is Float && b is Float && c is Float {
        assert(float_eq_ieee(a->Float_0, b->Float_0));
        assert(float_eq_ieee(b->Float_0, c->Float_0));
    }
}

/// Counting equal keys depends only on the key's class.
pub proof fn lemma_count_congruent(ks: Seq<ValueModel>, k: nat, a: ValueModel, b: ValueModel)
    requires
        key_equal(a, b),
    ensures
        count_eq(ks, k, a) == count_eq(ks, k, b),
    decreases k,
{
    if k > 0 && k <= ks.len() {
        lemma_count_congruent(ks, (k - 1) as nat, a, b);
        lemma_key_equal_symmetric(a, b);
        if key_equal(ks[k - 1], a) {
            lemma_key_equal_transitive(ks[k - 1], a, b);
        }
        if key_equal(ks[k - 1], b) {
            lemma_key_equal_transitive(ks[k - 1], b, a);
        }
    }
}

/// Counting is monotone in the prefix length.
pub proof fn lemma_count_monotone(ks: Seq<ValueModel>, j: nat, k: nat, key: ValueModel)
    requires
        j <= k <= ks.len(),
    ensures
        count_eq(ks, j, key) <= count_eq(ks, k, key),
    decreases k,
{
    if j < k {
        lemma_count_monotone(ks, j, (k - 1) as nat, key);
    }
}

/// Two positions with equal keys have different ranks, the earlier one the
/// smaller.
pub proof fn lemma_rank_distinct(ks: Seq<ValueModel>, p: int, q: int, key: ValueModel)
    requires
        0 <= p < q < ks.len(),
        key_equal(ks[p], key),
    ensures
        count_eq(ks, p as nat, key) < count_eq(ks, q as nat, key),
{
    lemma_count_monotone(ks, (p + 1) as nat, q as nat, key);
}

/// A position's rank is below the number of keys equal to its own.
pub proof fn lemma_rank_below_total(ks: Seq<ValueModel>, p: int)
    requires
        0 <= p < ks.len(),
        key_equal(ks[p], ks[p]),
    ensures
        rank(ks, p) < count_eq(ks, ks.len(), ks[p]),
{
    lemma_count_monotone(ks, (p + 1) as nat, ks.len(), ks[p]);
}

/// Every rank below the count of a key is taken by some position with that
/// key.
pub proof fn lemma_rank_exists(ks: Seq<ValueModel>, n: nat, key: ValueModel, r: nat)
    requires
        n <= ks.len(),
        r < count_eq(ks, n, key),
    ensures
        exists|t: int| 0 <= t < n && key_equal(#[trigger] ks[t], key) && count_eq(ks, t as nat, key) == r,
    decreases n,
{
    if r < count_eq(ks, (n - 1) as nat, key) {
        lemma_rank_exists(ks, (n - 1) as nat, key, r);
        let t = choose|t: int| 0 <= t < n - 1 && key_equal(#[trigger] ks[t], key) && count_eq(ks, t as nat, key) == r;
        assert(0 <= t < n && key_equal(ks[t], key) && count_eq(ks, t as nat, key) == r);
    } else {
        assert(key_equal(ks[n - 1], key));
    }
}

/// The table of a fully keyed array lists each key at its own position.
pub open spec fn diagonal(table: Seq<(ValueModel, nat)>, ky: Seq<ValueModel>) -> bool {
    &&& table.len() == ky.len()
    &&& forall|t: int| 0 <= t < table.len() ==> #[trigger] table[t] == (ky[t], t as nat)
}

/// Which entries of the new array are used once the first `m` old keys were
/// matched: those ranked below the number of equal keys among them.
pub open spec fn used_after(kx: Seq<ValueModel>, m: nat, ky: Seq<ValueModel>) -> Seq<bool> {
    Seq::new(ky.len(), |p: int| rank(ky, p) < count_eq(kx, m, ky[p]))
}

/// The search for an unused entry with key `key` finds the entry ranked
/// `count_eq(kx, m, key)` among those with that key, if there is one.
pub proof fn lemma_scan(table: Seq<(ValueModel, nat)>, kx: Seq<ValueModel>, m: nat, ky: Seq<ValueModel>, key: ValueModel, s: nat)
    requires
        diagonal(table, ky),
        s <= ky.len(),
        count_eq(ky, s, key) <= count_eq(kx, m, key),
    ensures
        first_unused(table, used_after(kx, m, ky), key, s) matches Some(p) ==> {
            &&& s <= p < ky.len()
            &&& key_equal(ky[p as int], key)
            &&& count_eq(ky, p, key) == count_eq(kx, m, key)
        },
        first_unused(table, used_after(kx, m, ky), key, s) is None ==> count_eq(ky, ky.len(), key) <= count_eq(kx, m, key),
    decreases ky.len() - s,
{
    let used = used_after(kx, m, ky);
    if s < ky.len() {
        assert(table[s as int] == (ky[s as int], s));
        if key_equal(ky[s as int], key) {
            lemma_count_congruent(ky, s, ky[s as int], key);
            lemma_count_congruent(kx, m, ky[s as int], key);
            if count_eq(ky, s, key) < count_eq(kx, m, key) {
                lemma_scan(table, kx, m, ky, key, s + 1);
            }
        } else {
            lemma_scan(table, kx, m, ky, key, s + 1);
        }
    }
}

/// Using the entry ranked `count_eq(kx, m, key)` among those with key `key`,
/// after matching the first `m` old keys, gives the entries used after `m + 1`.
pub proof fn lemma_used_step(kx: Seq<ValueModel>, m: nat, ky: Seq<ValueModel>, p: int)
    requires
        m < kx.len(),
        0 <= p < ky.len(),
        key_equal(ky[p], kx[m as int]),
        count_eq(ky, p as nat, kx[m as int]) == count_eq(kx, m, kx[m as int]),
    ensures
        used_after(kx, m, ky).update(p, true) == used_after(kx, m + 1, ky),
{
    let key = kx[m as int];
    let c = count_eq(kx, m, key);
    assert forall|q: int| 0 <= q < ky.len() implies #[trigger] used_after(kx, m, ky).update(p, true)[q] == used_after(kx, m + 1, ky)[q] by {
        lemma_key_equal_symmetric(ky[q], key);
        if key_equal(ky[q], key) {
            lemma_count_congruent(kx, m, ky[q], key);
            lemma_count_congruent(ky, q as nat, ky[q], key);
            if q < p {
                lemma_rank_distinct(ky, q, p, key);
            } else if p < q {
                lemma_rank_distinct(ky, p, q, key);
            }
        }
    }
    assert(used_after(kx, m, ky).update(p, true) =~= used_after(kx, m + 1, ky));
}

/// The positions in a keyed table are positions of keyed elements, each with
/// the key the table lists.
pub proof fn lemma_table_positions(y: Seq<ValueModel>, keys: Seq<Seq<char>>, k: nat)
    ensures
        forall|t: int| 0 <= t < keyed_table(y, keys, k).len() ==> {
            &&& (#[trigger] keyed_table(y, keys, k)[t]).1 < y.len()
            &&& key_of(y[keyed_table(y, keys, k)[t].1 as int], keys) == Some(keyed_table(y, keys, k)[t].0)
        },
    decreases k,
{
    if k > 0 && k <= y.len() {
        lemma_table_positions(y, keys, (k - 1) as nat);
    }
}

/// Whether the old element at `t` and the new element at `p` have equal keys
/// of equal rank, and no changes between them.
pub open spec fn partner(
    x: Seq<ValueModel>,
    y: Seq<ValueModel>,
    keys: Seq<Seq<char>>,
    path: Seq<SegmentModel>,
    o: OptionsModel,
    t: int,
    p: int,
) -> bool {
    &&& key_equal(key_seq(x, keys)[t], key_seq(y, keys)[p])
    &&& rank(key_seq(y, keys), p) == rank(key_seq(x, keys), t)
    &&& diff_values_spec(x[t], y[p], path.push(SegmentModel::Index(t as usize)), o).len() == 0
}

/// Whether the old element at `t` has a partner in the new array.
pub open spec fn has_partner(
    x: Seq<ValueModel>,
    y: Seq<ValueModel>,
    keys: Seq<Seq<char>>,
    path: Seq<SegmentModel>,
    o: OptionsModel,
    t: int,
) -> bool {
    exists|p: int| 0 <= p < y.len() && #[trigger] partner(x, y, keys, path, o, t, p)
}

/// A keyed pass that reports nothing, against a fully keyed new array,
/// found a key for each old element and paired it with a partner, and used
/// the entries `used_after` names.
#[verifier::spinoff_prover]
pub proof fn lemma_pass_silent(
    x: Seq<ValueModel>,
    y: Seq<ValueModel>,
    keys: Seq<Seq<char>>,
    path: Seq<SegmentModel>,
    o: OptionsModel,
    k: nat,
)
    requires
        no_ignores(o),
        fully_keyed(y, keys),
        k <= x.len(),
        keyed_pass(x, y, keys, keyed_table(y, keys, y.len()), path, o, k).0.len() == 0,
    ensures
        forall|t: int| 0 <= t < k ==> key_of(#[trigger] x[t], keys) is Some,
        keyed_pass(x, y, keys, keyed_table(y, keys, y.len()), path, o, k).1 == used_after(key_seq(x, keys), k, key_seq(y, keys)),
        forall|t: int| 0 <= t < k ==> #[trigger] has_partner(x, y, keys, path, o, t),
    decreases k,
{
    let table = keyed_table(y, keys, y.len());
    let kx = key_seq(x, keys);
    let ky = key_seq(y, keys);
    lemma_keyed_table_full(y, keys, y.len());
    assert(diagonal(table, ky));
    if k == 0 {
        assert(Seq::new(table.len(), |t: int| false) =~= used_after(kx, 0, ky));
    } else {
        let (out, used) = keyed_pass(x, y, keys, table, path, o, (k - 1) as nat);
        let child = path.push(SegmentModel::Index((k - 1) as usize));
        match key_of(x[k - 1], keys) {
            Some(ak) => {
                lemma_scan(table, kx, (k - 1) as nat, ky, ak, 0);
                match first_unused(table, used_after(kx, (k - 1) as nat, ky), ak, 0) {
                    Some(p) => {
                        lemma_pass_silent(x, y, keys, path, o, (k - 1) as nat);
                        assert(kx[k - 1] == ak);
                        lemma_used_step(kx, (k - 1) as nat, ky, p as int);
                        lemma_key_equal_symmetric(ky[p as int], ak);
                        lemma_count_congruent(ky, p, ky[p as int], ak);
                        assert(partner(x, y, keys, path, o, k - 1, p as int));
                        assert(has_partner(x, y, keys, path, o, k - 1));
                    },
                    None => {
                        lemma_pass_silent(x, y, keys, path, o, (k - 1) as nat);
                        lemma_emit_reported(x[k - 1], child, o, false);
                    },
                }
            },
            None => {
                lemma_emit_reported(x[k - 1], child, o, false);
            },
        }
    }
}

/// A keyed pass in which every old element has a key and a partner reports
/// nothing and uses the entries `used_after` names.
#[verifier::spinoff_prover]
pub proof fn lemma_pass_quiet(
    x: Seq<ValueModel>,
    y: Seq<ValueModel>,
    keys: Seq<Seq<char>>,
    path: Seq<SegmentModel>,
    o: OptionsModel,
    k: nat,
)
    requires
        fully_keyed(x, keys),
        fully_keyed(y, keys),
        k <= x.len(),
        forall|t: int| 0 <= t < x.len() ==> #[trigger] has_partner(x, y, keys, path, o, t),
    ensures
        keyed_pass(x, y, keys, keyed_table(y, keys, y.len()), path, o, k) == (
            Seq::<(Seq<SegmentModel>, KindModel)>::empty(),
            used_after(key_seq(x, keys), k, key_seq(y, keys)),
        ),
    decreases k,
{
    let table = keyed_table(y, keys, y.len());
    let kx = key_seq(x, keys);
    let ky = key_seq(y, keys);
    lemma_keyed_table_full(y, keys, y.len());
    assert(diagonal(table, ky));
    if k == 0 {
        assert(Seq::new(table.len(), |t: int| false) =~= used_after(kx, 0, ky));
    } else {
        lemma_pass_quiet(x, y, keys, path, o, (k - 1) as nat);
        assert(key_of(x[k - 1], keys) is Some);
        let ak = kx[k - 1];
        let c = count_eq(kx, (k - 1) as nat, ak);
        assert(has_partner(x, y, keys, path, o, k - 1));
        let p0 = choose|p: int| 0 <= p < y.len() && #[trigger] partner(x, y, keys, path, o, k - 1, p);
        lemma_key_equal_symmetric(kx[k - 1], ky[p0]);
        lemma_count_congruent(ky, p0 as nat, ky[p0], ak);
        assert(count_eq(ky, p0 as nat, ak) == c);
        lemma_scan(table, kx, (k - 1) as nat, ky, ak, 0);
        match first_unused(table, used_after(kx, (k - 1) as nat, ky), ak, 0) {
            Some(p) => {
                if (p as int) < p0 {
                    lemma_rank_distinct(ky, p as int, p0, ak);
                } else if p0 < (p as int) {
                    lemma_rank_distinct(ky, p0, p as int, ak);
                }
                assert(p as int == p0);
                lemma_used_step(kx, (k - 1) as nat, ky, p0);
                assert(Seq::<(Seq<SegmentModel>, KindModel)>::empty() + Seq::<(Seq<SegmentModel>, KindModel)>::empty()
                    =~= Seq::<(Seq<SegmentModel>, KindModel)>::empty());
            },
            None => {
                lemma_count_monotone(ky, (p0 + 1) as nat, ky.len(), ak);
                assert(false);
            },
        }
    }
}

/// Additions that report nothing, without ignore patterns, mean every new
/// element was matched.
pub proof fn lemma_added_silent(
    y: Seq<ValueModel>,
    table: Seq<(ValueModel, nat)>,
    used: Seq<bool>,
    path: Seq<SegmentModel>,
    o: OptionsModel,
    k: nat,
)
    requires
        no_ignores(o),
        k <= y.len(),
        keyed_added(y, table, used, path, o, k).len() == 0,
    ensures
        forall|j: int| 0 <= j < k ==> #[trigger] consumed(table, used, j as nat),
    decreases k,
{
    if k > 0 {
        lemma_added_silent(y, table, used, path, o, (k - 1) as nat);
        if !consumed(table, used, (k - 1) as nat) {
            lemma_emit_reported(y[k - 1], path.push(SegmentModel::Index((k - 1) as usize)), o, true);
        }
    }
}

/// No addition is reported when every new element was matched.
pub proof fn lemma_added_quiet(
    y: Seq<ValueModel>,
    table: Seq<(ValueModel, nat)>,
    used: Seq<bool>,
    path: Seq<SegmentModel>,
    o: OptionsModel,
    k: nat,
)
    requires
        k <= y.len(),
        forall|j: int| 0 <= j < k ==> #[trigger] consumed(table, used, j as nat),
    ensures
        keyed_added(y, table, used, path, o, k) == Seq::<(Seq<SegmentModel>, KindModel)>::empty(),
    decreases k,
{
    if k > 0 {
        lemma_added_quiet(y, table, used, path, o, (k - 1) as nat);
        assert(consumed(table, used, (k - 1) as nat));
        assert(Seq::<(Seq<SegmentModel>, KindModel)>::empty() + Seq::<(Seq<SegmentModel>, KindModel)>::empty()
            =~= Seq::<(Seq<SegmentModel>, KindModel)>::empty());
    }
}

/// Key matching that reports nothing, without ignore patterns, found a key
/// for every element on both sides, a partner for every old element, and
/// for every new element an old key of its class at its rank.
pub proof fn lemma_keyed_silent(x: Seq<ValueModel>, y: Seq<ValueModel>, keys: Seq<Seq<char>>, path: Seq<SegmentModel>, o: OptionsModel)
    requires
        no_ignores(o),
        keyed_spec(x, y, keys, path, o).len() == 0,
    ensures
        fully_keyed(x, keys),
        fully_keyed(y, keys),
        forall|t: int| 0 <= t < x.len() ==> #[trigger] has_partner(x, y, keys, path, o, t),
        forall|j: int| 0 <= j < y.len() ==> #[trigger] rank(key_seq(y, keys), j) < count_eq(key_seq(x, keys), x.len(), key_seq(y, keys)[j]),
{
    let table = keyed_table(y, keys, y.len());
    let (out, used) = keyed_pass(x, y, keys, table, path, o, x.len());
    assert(out.len() == 0);
    lemma_added_silent(y, table, used, path, o, y.len());
    lemma_table_positions(y, keys, y.len());
    assert forall|j: int| 0 <= j < y.len() implies key_of(#[trigger] y[j], keys) is Some by {
        assert(consumed(table, used, j as nat));
        let t = choose|t: int| 0 <= t < table.len() && used[t] && #[trigger] table[t].1 == j as nat;
        assert(table[t].1 == j);
    }
    lemma_pass_silent(x, y, keys, path, o, x.len());
    lemma_keyed_table_full(y, keys, y.len());
    let kx = key_seq(x, keys);
    let ky = key_seq(y, keys);
    assert forall|j: int| 0 <= j < y.len() implies #[trigger] rank(ky, j) < count_eq(kx, x.len(), ky[j]) by {
        assert(consumed(table, used, j as nat));
        let t = choose|t: int| 0 <= t < table.len() && used[t] && #[trigger] table[t].1 == j as nat;
        assert(table[t] == (ky[t], t as nat));
        assert(used == used_after(kx, x.len(), ky));
    }
}

/// Key matching reports nothing when both sides are fully keyed, every old
/// element has a partner, and every new element's rank is below the count of
/// its class among the old keys.
pub proof fn lemma_keyed_quiet(x: Seq<ValueModel>, y: Seq<ValueModel>, keys: Seq<Seq<char>>, path: Seq<SegmentModel>, o: OptionsModel)
    requires
        fully_keyed(x, keys),
        fully_keyed(y, keys),
        forall|t: int| 0 <= t < x.len() ==> #[trigger] has_partner(x, y, keys, path, o, t),
        forall|j: int| 0 <= j < y.len() ==> #[trigger] rank(key_seq(y, keys), j) < count_eq(key_seq(x, keys), x.len(), key_seq(y, keys)[j]),
    ensures
        keyed_spec(x, y, keys, path, o) == Seq::<(Seq<SegmentModel>, KindModel)>::empty(),
{
    let table = keyed_table(y, keys, y.len());
    let kx = key_seq(x, keys);
    let ky = key_seq(y, keys);
    lemma_pass_quiet(x, y, keys, path, o, x.len());
    let used = used_after(kx, x.len(), ky);
    lemma_keyed_table_full(y, keys, y.len());
    assert forall|j: int| 0 <= j < y.len() implies #[trigger] consumed(table, used, j as nat) by {
        assert(table[j] == (ky[j], j as nat));
        assert(table[j].1 == j as nat);
        assert(rank(ky, j) < count_eq(kx, x.len(), ky[j]));
        assert(used[j]);
    }
    lemma_added_quiet(y, table, used, path, o, y.len());
    assert(Seq::<(Seq<SegmentModel>, KindModel)>::empty() + Seq::<(Seq<SegmentModel>, KindModel)>::empty()
        =~= Seq::<(Seq<SegmentModel>, KindModel)>::empty());
}

/// The diffs of the first `k` old elements, each against its counterpart
/// `m(t)` in the new array, under the old element's index.
pub open spec fn matched_diffs(
    x: Seq<ValueModel>,
    y: Seq<ValueModel>,
    m: spec_fn(int) -> int,
    path: Seq<SegmentModel>,
    o: OptionsModel,
    k: nat,
) -> Seq<(Seq<SegmentModel>, KindModel)>
    decreases k,
{
    if k == 0 {
        Seq::empty()
    } else {
        matched_diffs(x, y, m, path, o, (k - 1) as nat)
            + diff_values_spec(x[k - 1], y[m(k - 1)], path.push(SegmentModel::Index((k - 1) as usize)), o)
    }
}

/// Whether the new array holds the old array's elements' keys, each once,
/// at the positions `m` gives: `m` is one-to-one onto the new positions, the
/// element at `m(t)` has the key of old element `t`, no two old keys are
/// equal, and each equals itself (none is a NaN).
pub open spec fn reordered_by_key(x: Seq<ValueModel>, y: Seq<ValueModel>, keys: Seq<Seq<char>>, m: spec_fn(int) -> int) -> bool {
    &&& x.len() == y.len()
    &&& fully_keyed(x, keys)
    &&& fully_keyed(y, keys)
    &&& forall|t: int| 0 <= t < x.len() ==> 0 <= #[trigger] m(t) < y.len() && key_seq(y, keys)[m(t)] == key_seq(x, keys)[t]
    &&& forall|t: int, u: int| 0 <= t < x.len() && 0 <= u < x.len() && t != u ==> #[trigger] m(t) != #[trigger] m(u)
    &&& forall|t: int, u: int|
        0 <= t < x.len() && 0 <= u < x.len() && t != u ==> !key_equal(#[trigger] key_seq(x, keys)[t], #[trigger] key_seq(x, keys)[u])
    &&& forall|t: int| 0 <= t < x.len() ==> key_equal(#[trigger] key_seq(x, keys)[t], key_seq(x, keys)[t])
}

/// Under a reordering by key, the only new position whose key equals old
/// key `t`'s is `m(t)`, and no earlier old key equals it.
proof fn lemma_reordered_unique(x: Seq<ValueModel>, y: Seq<ValueModel>, keys: Seq<Seq<char>>, m: spec_fn(int) -> int, t: int)
    requires
        reordered_by_key(x, y, keys, m),
        0 <= t < x.len(),
    ensures
        forall|j: int| 0 <= j < y.len() && key_equal(#[trigger] key_seq(y, keys)[j], key_seq(x, keys)[t]) ==> j == m(t),
        forall|k: nat| k <= t ==> count_eq(key_seq(x, keys), k, key_seq(x, keys)[t]) == 0,
        count_eq(key_seq(y, keys), m(t) as nat, key_seq(x, keys)[t]) == 0,
        count_eq(key_seq(y, keys), y.len(), key_seq(x, keys)[t]) >= 1,
{
    let kx = key_seq(x, keys);
    let ky = key_seq(y, keys);
    let key = kx[t];
    lemma_injection_onto(x.len(), m);
    assert forall|j: int| 0 <= j < y.len() && key_equal(#[trigger] ky[j], key) implies j == m(t) by {
        assert(reaches(m, x.len(), j));
        let u = choose|u: int| 0 <= u < x.len() && #[trigger] m(u) == j;
        if u != t {
            assert(ky[m(u)] == kx[u]);
            assert(!key_equal(kx[u], kx[t]));
        }
    }
    assert forall|k: nat| k <= t implies count_eq(kx, k, key) == 0 by {
        lemma_count_zero(kx, k, key, t);
    }
    assert forall|k: nat| k <= m(t) implies count_eq(ky, k, key) == 0 by {
        lemma_count_zero_y(ky, k, key, m(t));
    }
    assert(key_equal(ky[m(t)], key));
    lemma_count_monotone(ky, (m(t) + 1) as nat, y.len(), key);
}

/// No key before position `k` equals `key` when none before `limit` does
/// except at positions that differ from every earlier one (the old keys are
/// pairwise distinct and `key` is the key at `limit`).
proof fn lemma_count_zero(kx: Seq<ValueModel>, k: nat, key: ValueModel, limit: int)
    requires
        k <= limit < kx.len(),
        key == kx[limit],
        forall|t: int, u: int| 0 <= t < kx.len() && 0 <= u < kx.len() && t != u ==> !key_equal(#[trigger] kx[t], #[trigger] kx[u]),
    ensures
        count_eq(kx, k, key) == 0,
    decreases k,
{
    if k > 0 {
        lemma_count_zero(kx, (k - 1) as nat, key, limit);
        assert(!key_equal(kx[k - 1], kx[limit]));
    }
}

/// No key before position `k` equals `key` when the only position holding
/// an equal key is `at`, at or after `k`.
proof fn lemma_count_zero_y(ky: Seq<ValueModel>, k: nat, key: ValueModel, at: int)
    requires
        k <= at < ky.len(),
        forall|j: int| 0 <= j < ky.len() && key_equal(#[trigger] ky[j], key) ==> j == at,
    ensures
        count_eq(ky, k, key) == 0,
    decreases k,
{
    if k > 0 {
        lemma_count_zero_y(ky, (k - 1) as nat, key, at);
    }
}

/// The keyed pass over arrays reordered by key matches each old element with
/// its counterpart and reports their diffs, in old order.
pub proof fn lemma_pass_reordered(
    x: Seq<ValueModel>,
    y: Seq<ValueModel>,
    keys: Seq<Seq<char>>,
    m: spec_fn(int) -> int,
    path: Seq<SegmentModel>,
    o: OptionsModel,
    k: nat,
)
    requires
        reordered_by_key(x, y, keys, m),
        k <= x.len(),
    ensures
        keyed_pass(x, y, keys, keyed_table(y, keys, y.len()), path, o, k) == (
            matched_diffs(x, y, m, path, o, k),
            used_after(key_seq(x, keys), k, key_seq(y, keys)),
        ),
    decreases k,
{
    let table = keyed_table(y, keys, y.len());
    let kx = key_seq(x, keys);
    let ky = key_seq(y, keys);
    lemma_keyed_table_full(y, keys, y.len());
    assert(diagonal(table, ky));
    if k == 0 {
        assert(Seq::new(table.len(), |t: int| false) =~= used_after(kx, 0, ky));
    } else {
        lemma_pass_reordered(x, y, keys, m, path, o, (k - 1) as nat);
        assert(key_of(x[k - 1], keys) is Some);
        let ak = kx[k - 1];
        lemma_reordered_unique(x, y, keys, m, k - 1);
        lemma_scan(table, kx, (k - 1) as nat, ky, ak, 0);
        match first_unused(table, used_after(kx, (k - 1) as nat, ky), ak, 0) {
            Some(p) => {
                assert(p as int == m(k - 1));
                assert(table[p as int].1 == p);
                lemma_used_step(kx, (k - 1) as nat, ky, p as int);
            },
            None => {
                assert(false);
            },
        }
    }
}

/// Key matching of arrays reordered by key reports exactly the diffs of the
/// matched pairs: each old element against the new element with its key,
/// in old order, with no additions or removals.
pub proof fn law_key_matching_follows_keys(
    x: Seq<ValueModel>,
    y: Seq<ValueModel>,
    keys: Seq<Seq<char>>,
    m: spec_fn(int) -> int,
    path: Seq<SegmentModel>,
    o: OptionsModel,
)
    requires
        reordered_by_key(x, y, keys, m),
    ensures
        keyed_spec(x, y, keys, path, o) == matched_diffs(x, y, m, path, o, x.len()),
{
    let table = keyed_table(y, keys, y.len());
    let kx = key_seq(x, keys);
    let ky = key_seq(y, keys);
    lemma_pass_reordered(x, y, keys, m, path, o, x.len());
    lemma_keyed_table_full(y, keys, y.len());
    let used = used_after(kx, x.len(), ky);
    lemma_injection_onto(x.len(), m);
    assert forall|j: int| 0 <= j < y.len() implies #[trigger] consumed(table, used, j as nat) by {
        assert(reaches(m, x.len(), j));
        let t = choose|t: int| 0 <= t < x.len() && #[trigger] m(t) == j;
        lemma_reordered_unique(x, y, keys, m, t);
        assert(ky[j] == kx[t]);
        assert(rank(ky, j) == 0);
        lemma_count_monotone(kx, (t + 1) as nat, x.len(), kx[t]);
        assert(table[j] == (ky[j], j as nat));
        assert(table[j].1 == j as nat);
        assert(used[j]);
    }
    lemma_added_quiet(y, table, used, path, o, y.len());
    assert(matched_diffs(x, y, m, path, o, x.len()) + Seq::<(Seq<SegmentModel>, KindModel)>::empty()
        =~= matched_diffs(x, y, m, path, o, x.len()));
}

/// With key matching configured, a reordered (and possibly edited) array of
/// keyed elements is diffed element by element against the element with the
/// same key: the diff of the arrays is exactly the diffs of the matched
/// pairs, in old order.
pub proof fn law_reordered_elements_diff_by_key(
    x: Seq<ValueModel>,
    y: Seq<ValueModel>,
    m: spec_fn(int) -> int,
    path: Seq<SegmentModel>,
    o: OptionsModel,
)
    requires
        o.array_strategy == crate::options::ArrayStrategy::Keyed,
        o.array_keys.len() > 0,
        reordered_by_key(x, y, o.array_keys, m),
        path.len() < crate::diff_spec::MAX_DEPTH,
        path.len() > 0 ==> !crate::diff_spec::ignored(o, path),
    ensures
        diff_values_spec(ValueModel::Array(x), ValueModel::Array(y), path, o) == matched_diffs(x, y, m, path, o, x.len()),
{
    law_key_matching_follows_keys(x, y, o.array_keys, m, path, o);
    assert(crate::diff_spec::diff_arrays_spec(x, y, path, o) == keyed_spec(x, y, o.array_keys, path, o));
}

} // verus!
