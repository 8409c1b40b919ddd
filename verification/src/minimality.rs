//! The LCS strategy reports as few changes as any matching of the two
//! arrays allows: its walk keeps a longest common subsequence and reports
//! every other element once.

use vstd::prelude::*;
use crate::diff_spec::{KindModel, LCS_CELL_LIMIT, deep_equal, emit_spec, ignored, lcs_len, lcs_or_positional, lcs_walk, whole_change};
use crate::laws::no_ignores;
use crate::options::OptionsModel;
use crate::path::SegmentModel;
use crate::value::ValueModel;

verus! {

/// Whether the index lists `is` and `js` pick a common subsequence of `a`
/// and `b`: both strictly increasing, of one length, with each picked pair
/// of elements deeply equal at depth `d`.
pub open spec fn common_subsequence(
    a: Seq<ValueModel>,
    b: Seq<ValueModel>,
    is: Seq<int>,
    js: Seq<int>,
    d: nat,
    o: OptionsModel,
) -> bool {
    &&& is.len() == js.len()
    &&& forall|t: int|
        0 <= t < is.len() ==> {
            &&& 0 <= #[trigger] is[t] < a.len()
            &&& 0 <= js[t] < b.len()
            &&& deep_equal(a[is[t]], b[js[t]], d, o)
        }
    &&& forall|t: int, u: int| 0 <= t < u < is.len() ==> #[trigger] is[t] < #[trigger] is[u] && js[t] < js[u]
}

/// The first pick of a common subsequence comes before every other pick.
proof fn lemma_first_pick_least(a: Seq<ValueModel>, b: Seq<ValueModel>, is: Seq<int>, js: Seq<int>, d: nat, o: OptionsModel, t: int)
    requires
        common_subsequence(a, b, is, js, d, o),
        0 < t < is.len(),
    ensures
        is[0] < is[t],
        js[0] < js[t],
{
    assert(is[0] < is[t] && js[0] < js[t]);
}

/// Whether every pick lies at or after `i` in the first array and `j` in
/// the second.
pub open spec fn picks_from(is: Seq<int>, js: Seq<int>, i: nat, j: nat) -> bool {
    forall|t: int| 0 <= t < is.len() ==> i <= #[trigger] is[t] && j <= js[t]
}

/// A common subsequence whose picks all lie at or after `i` in `a` and `j`
/// in `b` is no longer than `lcs_len` from there.
#[verifier::spinoff_prover]
proof fn lemma_lcs_len_bounds(
    a: Seq<ValueModel>,
    b: Seq<ValueModel>,
    is: Seq<int>,
    js: Seq<int>,
    i: nat,
    j: nat,
    d: nat,
    o: OptionsModel,
)
    requires
        i <= a.len(),
        j <= b.len(),
        common_subsequence(a, b, is, js, d, o),
        picks_from(is, js, i, j),
    ensures
        is.len() <= lcs_len(a, b, i, j, d, o),
    decreases a.len() + b.len() - i - j,
{
    if is.len() > 0 {
        let i0 = is[0];
        let j0 = js[0];
        assert(i <= i0 && j <= j0);
        assert(0 <= i0 < a.len());
        assert(0 <= j0 < b.len());
        assert(picks_from(is, js, i0 as nat, j0 as nat)) by {
            assert forall|t: int| 0 <= t < is.len() implies i0 <= #[trigger] is[t] && j0 <= js[t] by {
                if t > 0 {
                    lemma_first_pick_least(a, b, is, js, d, o, t);
                }
            }
        }
        let is1 = is.drop_first();
        let js1 = js.drop_first();
        assert(common_subsequence(a, b, is1, js1, d, o)) by {
            assert forall|t: int, u: int| 0 <= t < u < is1.len() implies #[trigger] is1[t] < #[trigger] is1[u] && js1[t] < js1[u] by {
                assert(is[t + 1] < is[u + 1] && js[t + 1] < js[u + 1]);
            }
            assert forall|t: int| 0 <= t < is1.len() implies {
                &&& 0 <= #[trigger] is1[t] < a.len()
                &&& 0 <= js1[t] < b.len()
                &&& deep_equal(a[is1[t]], b[js1[t]], d, o)
            } by {
                assert(is1[t] == is[t + 1]);
            }
        }
        if deep_equal(a[i as int], b[j as int], d, o) {
            assert(picks_from(is1, js1, i + 1, j + 1)) by {
                assert forall|t: int| 0 <= t < is1.len() implies i + 1 <= #[trigger] is1[t] && j + 1 <= js1[t] by {
                    assert(is1[t] == is[t + 1] && js1[t] == js[t + 1]);
                    lemma_first_pick_least(a, b, is, js, d, o, t + 1);
                }
            }
            lemma_lcs_len_bounds(a, b, is1, js1, i + 1, j + 1, d, o);
        } else if i < i0 {
            assert(picks_from(is, js, i + 1, j)) by {
                assert forall|t: int| 0 <= t < is.len() implies i + 1 <= #[trigger] is[t] && j <= js[t] by {
                    assert(i0 <= is[t] && j0 <= js[t]);
                }
            }
            lemma_lcs_len_bounds(a, b, is, js, i + 1, j, d, o);
        } else {
            assert(j < j0);
            assert(picks_from(is, js, i, j + 1)) by {
                assert forall|t: int| 0 <= t < is.len() implies i <= #[trigger] is[t] && j + 1 <= js[t] by {
                    assert(i0 <= is[t] && j0 <= js[t]);
                }
            }
            lemma_lcs_len_bounds(a, b, is, js, i, j + 1, d, o);
        }
    }
}

/// The common subsequence that `lcs_len` measures, from `i` and `j` on:
/// equal elements are taken together; otherwise the side `lcs_len` prefers
/// is skipped.
pub open spec fn lcs_picks(a: Seq<ValueModel>, b: Seq<ValueModel>, i: nat, j: nat, d: nat, o: OptionsModel) -> (Seq<int>, Seq<int>)
    decreases a.len() + b.len() - i - j,
{
    if i >= a.len() || j >= b.len() {
        (Seq::empty(), Seq::empty())
    } else if deep_equal(a[i as int], b[j as int], d, o) {
        let (is, js) = lcs_picks(a, b, i + 1, j + 1, d, o);
        (seq![i as int] + is, seq![j as int] + js)
    } else if lcs_len(a, b, i + 1, j, d, o) >= lcs_len(a, b, i, j + 1, d, o) {
        lcs_picks(a, b, i + 1, j, d, o)
    } else {
        lcs_picks(a, b, i, j + 1, d, o)
    }
}

/// `lcs_picks` is a common subsequence of length `lcs_len`, picking only at
/// or after `i` and `j`.
proof fn lemma_lcs_picks(a: Seq<ValueModel>, b: Seq<ValueModel>, i: nat, j: nat, d: nat, o: OptionsModel)
    ensures
        common_subsequence(a, b, lcs_picks(a, b, i, j, d, o).0, lcs_picks(a, b, i, j, d, o).1, d, o),
        lcs_picks(a, b, i, j, d, o).0.len() == lcs_len(a, b, i, j, d, o),
        forall|t: int| 0 <= t < lcs_picks(a, b, i, j, d, o).0.len()
            ==> i <= #[trigger] lcs_picks(a, b, i, j, d, o).0[t] && j <= lcs_picks(a, b, i, j, d, o).1[t],
    decreases a.len() + b.len() - i - j,
{
    if i >= a.len() || j >= b.len() {
    } else if deep_equal(a[i as int], b[j as int], d, o) {
        lemma_lcs_picks(a, b, i + 1, j + 1, d, o);
        let (is, js) = lcs_picks(a, b, i + 1, j + 1, d, o);
        let is2 = seq![i as int] + is;
        let js2 = seq![j as int] + js;
        assert forall|t: int| 0 <= t < is2.len() implies {
            &&& 0 <= #[trigger] is2[t] < a.len()
            &&& 0 <= js2[t] < b.len()
            &&& deep_equal(a[is2[t]], b[js2[t]], d, o)
        } by {
            if t > 0 {
                assert(is2[t] == is[t - 1] && js2[t] == js[t - 1]);
            }
        }
        assert forall|t: int, u: int| 0 <= t < u < is2.len() implies #[trigger] is2[t] < #[trigger] is2[u] && js2[t] < js2[u] by {
            assert(is2[u] == is[u - 1] && js2[u] == js[u - 1]);
            if t > 0 {
                assert(is2[t] == is[t - 1] && js2[t] == js[t - 1]);
            }
        }
        assert forall|t: int| 0 <= t < is2.len() implies i <= #[trigger] is2[t] && j <= js2[t] by {
            if t > 0 {
                assert(is2[t] == is[t - 1] && js2[t] == js[t - 1]);
            }
        }
    } else if lcs_len(a, b, i + 1, j, d, o) >= lcs_len(a, b, i, j + 1, d, o) {
        lemma_lcs_picks(a, b, i + 1, j, d, o);
    } else {
        lemma_lcs_picks(a, b, i, j + 1, d, o);
    }
}

/// Whether a change removes a whole element of `a` or adds a whole element
/// of `b`, at that element's index below `path`.
pub open spec fn element_change(
    c: (Seq<SegmentModel>, KindModel),
    a: Seq<ValueModel>,
    b: Seq<ValueModel>,
    path: Seq<SegmentModel>,
) -> bool {
    ||| exists|i: int| 0 <= i < a.len() && c == whole_change(#[trigger] a[i], path.push(SegmentModel::Index(i as usize)), false)
    ||| exists|j: int| 0 <= j < b.len() && c == whole_change(#[trigger] b[j], path.push(SegmentModel::Index(j as usize)), true)
}

/// Without expansion or ignore patterns, the walk from `i` and `j` reports
/// each element it does not keep once: the rests' lengths less twice their
/// LCS.
proof fn lemma_walk_count(a: Seq<ValueModel>, b: Seq<ValueModel>, i: nat, j: nat, path: Seq<SegmentModel>, o: OptionsModel)
    requires
        no_ignores(o),
        !o.expand,
        i <= a.len(),
        j <= b.len(),
    ensures
        lcs_walk(a, b, i, j, path, o).len() + 2 * lcs_len(a, b, i, j, path.len() + 1, o) == (a.len() - i) + (b.len() - j),
        forall|k: int| 0 <= k < lcs_walk(a, b, i, j, path, o).len()
            ==> element_change(#[trigger] lcs_walk(a, b, i, j, path, o)[k], a, b, path),
    decreases a.len() + b.len() - i - j,
{
    let w = lcs_walk(a, b, i, j, path, o);
    let d = path.len() + 1;
    if i < a.len() {
        let q = path.push(SegmentModel::Index(i as usize));
        assert(!ignored(o, q));
        assert(emit_spec(a[i as int], q, o, false).len() == 1);
    }
    if j < b.len() {
        let q = path.push(SegmentModel::Index(j as usize));
        assert(!ignored(o, q));
        assert(emit_spec(b[j as int], q, o, true).len() == 1);
    }
    let removes = i < a.len() && (j >= b.len() || (!deep_equal(a[i as int], b[j as int], d, o)
        && lcs_len(a, b, i + 1, j, d, o) >= lcs_len(a, b, i, j + 1, d, o)));
    if i < a.len() && j < b.len() && deep_equal(a[i as int], b[j as int], d, o) {
        lemma_walk_count(a, b, i + 1, j + 1, path, o);
    } else if removes {
        lemma_walk_count(a, b, i + 1, j, path, o);
        let c = whole_change(a[i as int], path.push(SegmentModel::Index(i as usize)), false);
        assert(w == seq![c] + lcs_walk(a, b, i + 1, j, path, o));
        assert forall|k: int| 0 <= k < w.len() implies element_change(#[trigger] w[k], a, b, path) by {
            if k == 0 {
                assert(w[k] == whole_change(a[i as int], path.push(SegmentModel::Index(i as usize)), false));
            } else {
                assert(w[k] == lcs_walk(a, b, i + 1, j, path, o)[k - 1]);
            }
        }
    } else if j < b.len() {
        lemma_walk_count(a, b, i, j + 1, path, o);
        let c = whole_change(b[j as int], path.push(SegmentModel::Index(j as usize)), true);
        assert(w == seq![c] + lcs_walk(a, b, i, j + 1, path, o));
        assert forall|k: int| 0 <= k < w.len() implies element_change(#[trigger] w[k], a, b, path) by {
            if k == 0 {
                assert(w[k] == whole_change(b[j as int], path.push(SegmentModel::Index(j as usize)), true));
            } else {
                assert(w[k] == lcs_walk(a, b, i, j + 1, path, o)[k - 1]);
            }
        }
    }
}

/// The LCS strategy is minimal: comparing arrays small enough for the LCS
/// table, without expansion or ignore patterns, it reports
/// `a.len() + b.len() - 2 * L` changes, where `L` is the length of a longest
/// common subsequence of the two arrays under deep equality: some common
/// subsequence has length `L`, and none is longer. Each change removes a
/// whole element of the old array or adds one of the new, at its index.
pub proof fn law_lcs_is_minimal(a: Seq<ValueModel>, b: Seq<ValueModel>, path: Seq<SegmentModel>, o: OptionsModel)
    requires
        no_ignores(o),
        !o.expand,
        (a.len() + 1) * (b.len() + 1) <= LCS_CELL_LIMIT,
    ensures
        lcs_or_positional(a, b, path, o).len() + 2 * lcs_len(a, b, 0, 0, path.len() + 1, o) == a.len() + b.len(),
        exists|is: Seq<int>, js: Seq<int>|
            #[trigger] common_subsequence(a, b, is, js, path.len() + 1, o) && is.len() == lcs_len(a, b, 0, 0, path.len() + 1, o),
        forall|is: Seq<int>, js: Seq<int>|
            #[trigger] common_subsequence(a, b, is, js, path.len() + 1, o) ==> is.len() <= lcs_len(a, b, 0, 0, path.len() + 1, o),
        forall|k: int| 0 <= k < lcs_or_positional(a, b, path, o).len()
            ==> element_change(#[trigger] lcs_or_positional(a, b, path, o)[k], a, b, path),
{
    let d = path.len() + 1;
    lemma_walk_count(a, b, 0, 0, path, o);
    lemma_lcs_picks(a, b, 0, 0, d, o);
    let (is, js) = lcs_picks(a, b, 0, 0, d, o);
    assert(common_subsequence(a, b, is, js, d, o));
    assert forall|is: Seq<int>, js: Seq<int>|
        #[trigger] common_subsequence(a, b, is, js, d, o) implies is.len() <= lcs_len(a, b, 0, 0, d, o) by {
        assert(picks_from(is, js, 0, 0));
        lemma_lcs_len_bounds(a, b, is, js, 0, 0, d, o);
    }
}

} // verus!
