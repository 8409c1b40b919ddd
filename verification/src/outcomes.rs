//! What the main operations give, stated over their inputs: scalar changes,
//! the report's totals, the exit-status gates, the extension rule, and what
//! positional comparison reports for elements past the common length.

use vstd::prelude::*;
use crate::cli::{FailKind, spec_should_fail};
use crate::diff::count_kind;
use crate::diff_spec::{KindModel, MAX_DEPTH, diff_values_spec, emit_elements, ignored, min_len, positional_pairs, positional_spec};
use crate::format::{after_last, spec_from_extension, spec_from_path};
use crate::laws::no_ignores;
use crate::options::{ArrayStrategy, OptionsModel};
use crate::path::SegmentModel;
use crate::render::json::report_value;
use crate::value::ValueModel;

verus! {

/// Whether a value is a null, a boolean or a string.
pub open spec fn plain_scalar(v: ValueModel) -> bool {
    v is Null || v is Bool || v is String
}

/// Whether two values are of the same kind.
pub open spec fn same_kind(a: ValueModel, b: ValueModel) -> bool {
    ||| (a is Null && b is Null)
    ||| (a is Bool && b is Bool)
    ||| (a is String && b is String)
}

/// Nulls, booleans and strings compare by value: at a path that is not
/// ignored, two of them give nothing when they are equal, one value change
/// (old to new) when they differ but are of one kind, and one type change
/// otherwise. So a flipped boolean or an edited string is always reported.
pub proof fn law_plain_scalars_compare_by_value(a: ValueModel, b: ValueModel, path: Seq<SegmentModel>, o: OptionsModel)
    requires
        plain_scalar(a),
        plain_scalar(b),
        path.len() == 0 || !ignored(o, path),
    ensures
        diff_values_spec(a, b, path, o) == if a == b {
            Seq::<(Seq<SegmentModel>, KindModel)>::empty()
        } else if same_kind(a, b) {
            seq![(path, KindModel::Changed(a, b))]
        } else {
            seq![(path, KindModel::TypeChanged(a, b))]
        },
{
}

/// How many changes of a list satisfy `pred`.
pub open spec fn how_many(d: Seq<(Seq<SegmentModel>, KindModel)>, pred: spec_fn((Seq<SegmentModel>, KindModel)) -> bool) -> nat {
    d.filter(pred).len()
}

proof fn lemma_count_filter(
    d: Seq<(Seq<SegmentModel>, KindModel)>,
    kind: nat,
    pred: spec_fn((Seq<SegmentModel>, KindModel)) -> bool,
    k: nat,
)
    requires
        k <= d.len(),
        forall|c: (Seq<SegmentModel>, KindModel)| #[trigger] pred(c) == (crate::diff::kind_index(c.1) == kind),
    ensures
        count_kind(d, kind, k) == d.take(k as int).filter(pred).len(),
    decreases k,
{
    reveal(Seq::filter);
    if k > 0 {
        lemma_count_filter(d, kind, pred, (k - 1) as nat);
        assert(d.take(k as int).drop_last() =~= d.take(k - 1));
        assert(d.take(k as int).last() == d[k - 1]);
    } else {
        assert(d.take(0) =~= Seq::<(Seq<SegmentModel>, KindModel)>::empty());
    }
}

/// The report's summary counts the changes of each kind: `added` the
/// additions, `removed` the removals, `changed` the value changes and
/// `type_changed` the type changes.
pub proof fn law_report_counts_each_kind(d: Seq<(Seq<SegmentModel>, KindModel)>)
    requires
        d.len() <= i64::MAX,
    ensures
        ({
            let s = report_value(d)->Object_0[0].1->Object_0;
            &&& s[0] == ("added"@, ValueModel::Integer(how_many(d, |c: (Seq<SegmentModel>, KindModel)| c.1 is Added) as i64))
            &&& s[1] == ("removed"@, ValueModel::Integer(how_many(d, |c: (Seq<SegmentModel>, KindModel)| c.1 is Removed) as i64))
            &&& s[2] == ("changed"@, ValueModel::Integer(how_many(d, |c: (Seq<SegmentModel>, KindModel)| c.1 is Changed) as i64))
            &&& s[3] == ("type_changed"@, ValueModel::Integer(how_many(d, |c: (Seq<SegmentModel>, KindModel)| c.1 is TypeChanged) as i64))
        }),
{
    let n = d.len();
    assert(d.take(n as int) =~= d);
    lemma_count_filter(d, 0, |c: (Seq<SegmentModel>, KindModel)| c.1 is Added, n);
    lemma_count_filter(d, 1, |c: (Seq<SegmentModel>, KindModel)| c.1 is Removed, n);
    lemma_count_filter(d, 2, |c: (Seq<SegmentModel>, KindModel)| c.1 is Changed, n);
    lemma_count_filter(d, 3, |c: (Seq<SegmentModel>, KindModel)| c.1 is TypeChanged, n);
}

/// The report's summary counts every change once: its `total` is the number
/// of changes (the length of its `changes` list), and the four counts by
/// kind add up to it.
pub proof fn law_report_total_is_the_number_of_changes(d: Seq<(Seq<SegmentModel>, KindModel)>)
    requires
        d.len() <= i64::MAX,
    ensures
        report_value(d) is Object,
        report_value(d)->Object_0.len() == 2,
        report_value(d)->Object_0[1].0 == "changes"@,
        report_value(d)->Object_0[1].1 is Array,
        report_value(d)->Object_0[1].1->Array_0.len() == d.len(),
        report_value(d)->Object_0[0].0 == "summary"@,
        report_value(d)->Object_0[0].1 is Object,
        ({
            let s = report_value(d)->Object_0[0].1->Object_0;
            &&& s.len() == 5
            &&& s[4] == ("total"@, ValueModel::Integer(d.len() as i64))
            &&& s[0].1 is Integer && s[1].1 is Integer && s[2].1 is Integer && s[3].1 is Integer
            &&& s[0].1->Integer_0 + s[1].1->Integer_0 + s[2].1->Integer_0 + s[3].1->Integer_0 == d.len()
            &&& 0 <= s[0].1->Integer_0 && 0 <= s[1].1->Integer_0 && 0 <= s[2].1->Integer_0 && 0 <= s[3].1->Integer_0
        }),
{
    let n = d.len();
    crate::diff::law_summary_counts_every_change(d, n);
    let a = count_kind(d, 0, n);
    let r = count_kind(d, 1, n);
    let c = count_kind(d, 2, n);
    let t = count_kind(d, 3, n);
    assert(a + r + c + t == n);
    assert((a as i64) as int == a);
    assert((r as i64) as int == r);
    assert((c as i64) as int == c);
    assert((t as i64) as int == t);
}

/// Whether a change is of the kind a gate names.
pub open spec fn gate_catches(g: FailKind, k: KindModel) -> bool {
    match (g, k) {
        (FailKind::Added, KindModel::Added(_)) => true,
        (FailKind::Removed, KindModel::Removed(_)) => true,
        (FailKind::Changed, KindModel::Changed(..)) => true,
        (FailKind::TypeChanged, KindModel::TypeChanged(..)) => true,
        _ => false,
    }
}

/// The exit-status gates: with none, a run fails exactly when the documents
/// differ; with gates, exactly when some change, at any position, is of a
/// gated kind. So adding a change of a gated kind to any diff makes the run
/// fail, and a run that fails still fails with more changes.
pub proof fn law_gates_look_at_every_change(
    d: Seq<(Seq<SegmentModel>, KindModel)>,
    gates: Seq<FailKind>,
    c: (Seq<SegmentModel>, KindModel),
)
    ensures
        gates.len() == 0 ==> (spec_should_fail(d, gates) <==> d.len() > 0),
        gates.len() > 0 ==> (spec_should_fail(d, gates) <==> exists|i: int, j: int|
            0 <= i < d.len() && 0 <= j < gates.len() && #[trigger] gate_catches(gates[j], d[i].1)),
        (exists|j: int| 0 <= j < gates.len() && #[trigger] gate_catches(gates[j], c.1)) ==> spec_should_fail(d.push(c), gates),
        spec_should_fail(d, gates) ==> spec_should_fail(d.push(c), gates),
{
    if gates.len() > 0 {
        if spec_should_fail(d, gates) {
            let (i, j) = choose|i: int, j: int| 0 <= i < d.len() && 0 <= j < gates.len()
                && #[trigger] crate::cli::fail_index(gates[j]) == #[trigger] crate::diff::kind_index(d[i].1);
            assert(gate_catches(gates[j], d[i].1));
        }
        if exists|i: int, j: int| 0 <= i < d.len() && 0 <= j < gates.len() && #[trigger] gate_catches(gates[j], d[i].1) {
            let (i, j) = choose|i: int, j: int| 0 <= i < d.len() && 0 <= j < gates.len() && #[trigger] gate_catches(gates[j], d[i].1);
            assert(crate::cli::fail_index(gates[j]) == crate::diff::kind_index(d[i].1));
        }
        if exists|j: int| 0 <= j < gates.len() && #[trigger] gate_catches(gates[j], c.1) {
            let j = choose|j: int| 0 <= j < gates.len() && #[trigger] gate_catches(gates[j], c.1);
            let e = d.push(c);
            assert(e[d.len() as int] == c);
            assert(crate::cli::fail_index(gates[j]) == crate::diff::kind_index(e[d.len() as int].1));
        }
        if spec_should_fail(d, gates) {
            let (i, j) = choose|i: int, j: int| 0 <= i < d.len() && 0 <= j < gates.len()
                && #[trigger] crate::cli::fail_index(gates[j]) == #[trigger] crate::diff::kind_index(d[i].1);
            let e = d.push(c);
            assert(e[i] == d[i]);
            assert(crate::cli::fail_index(gates[j]) == crate::diff::kind_index(e[i].1));
        }
    }
}

/// Appending text without `c` does not move the position after the last `c`.
proof fn lemma_after_last_append(s: Seq<char>, t: Seq<char>, c: char)
    requires
        forall|i: int| 0 <= i < t.len() ==> t[i] != c,
    ensures
        after_last(s + t, c) == after_last(s, c),
    decreases t.len(),
{
    if t.len() > 0 {
        let t1 = t.drop_last();
        assert((s + t).drop_last() =~= s + t1);
        assert((s + t).last() == t.last());
        lemma_after_last_append(s, t1, c);
    } else {
        assert(s + t =~= s);
    }
}

/// The extension of a file name is the text after its last dot: a path
/// whose last component is `stem.ext`, with a non-empty stem (which may hold
/// dots of its own) and an extension without a dot or a `/`, names the format
/// that `ext` names, whatever directory it lies in.
pub proof fn law_extension_follows_the_last_dot(dir: Seq<char>, stem: Seq<char>, ext: Seq<char>)
    requires
        dir.len() == 0 || dir.last() == '/',
        stem.len() > 0,
        forall|i: int| 0 <= i < stem.len() ==> stem[i] != '/',
        forall|i: int| 0 <= i < ext.len() ==> ext[i] != '.' && ext[i] != '/',
    ensures
        spec_from_path(dir + stem + seq!['.'] + ext) == spec_from_extension(ext),
{
    let name = stem + seq!['.'] + ext;
    let path = dir + name;
    assert(dir + stem + seq!['.'] + ext =~= path);
    assert forall|i: int| 0 <= i < name.len() implies name[i] != '/' by {
        if i < stem.len() {
            assert(name[i] == stem[i]);
        } else if i > stem.len() {
            assert(name[i] == ext[i - stem.len() - 1]);
        }
    }
    lemma_after_last_append(dir, name, '/');
    assert(after_last(dir, '/') == dir.len()) by {
        if dir.len() > 0 {
            assert(dir.last() == '/');
        }
    }
    assert(path.subrange(dir.len() as int, path.len() as int) =~= name);
    let sd = stem + seq!['.'];
    assert(name =~= sd + ext);
    lemma_after_last_append(sd, ext, '.');
    assert(sd.last() == '.');
    assert(after_last(sd, '.') == sd.len());
    assert(name.subrange(sd.len() as int, name.len() as int) =~= ext);
    assert(name.len() >= 2);
    assert(name != seq!['.']);
    assert(name[stem.len() as int] == '.');
    if name == seq!['.', '.'] {
        assert(ext.len() == 0);
        lemma_empty_extension(ext);
    } else {
        assert(name != seq!['.', 'e', 'n', 'v']) by {
            if name == seq!['.', 'e', 'n', 'v'] {
                assert(1 <= stem.len() <= 3);
                assert(seq!['.', 'e', 'n', 'v'][stem.len() as int] != '.');
            }
        }
    }
}

/// The empty text names no format.
proof fn lemma_empty_extension(ext: Seq<char>)
    requires
        ext.len() == 0,
    ensures
        spec_from_extension(ext) is None,
{
    assert(crate::format::lowercase(ext) =~= Seq::<char>::empty());
}

/// A file name that starts with its only dot (a hidden file such as
/// `.json`) has no extension: it names no format, except `.env`, which is
/// dotenv.
pub proof fn law_hidden_file_has_no_extension(dir: Seq<char>, rest: Seq<char>)
    requires
        dir.len() == 0 || dir.last() == '/',
        rest.len() > 0,
        forall|i: int| 0 <= i < rest.len() ==> rest[i] != '.' && rest[i] != '/',
    ensures
        spec_from_path(dir + seq!['.'] + rest) == if rest == seq!['e', 'n', 'v'] {
            Some(crate::format::Format::Dotenv)
        } else {
            None::<crate::format::Format>
        },
{
    let name = seq!['.'] + rest;
    let path = dir + name;
    assert(dir + seq!['.'] + rest =~= path);
    assert forall|i: int| 0 <= i < name.len() implies name[i] != '/' by {
        if i > 0 {
            assert(name[i] == rest[i - 1]);
        }
    }
    lemma_after_last_append(dir, name, '/');
    assert(after_last(dir, '/') == dir.len()) by {
        if dir.len() > 0 {
            assert(dir.last() == '/');
        }
    }
    assert(path.subrange(dir.len() as int, path.len() as int) =~= name);
    lemma_after_last_append(seq!['.'], rest, '.');
    assert(after_last(seq!['.'], '.') == 1);
    assert(name != seq!['.']);
    if name == seq!['.', '.'] {
        assert(name[1] == rest[0]);
    }
    if rest == seq!['e', 'n', 'v'] {
        assert(name =~= seq!['.', 'e', 'n', 'v']);
    } else {
        assert(name != seq!['.', 'e', 'n', 'v']) by {
            if name == seq!['.', 'e', 'n', 'v'] {
                assert(rest =~= name.drop_first());
                assert(name.drop_first() =~= seq!['e', 'n', 'v']);
            }
        }
    }
}

/// The removals or additions of the elements at positions `lo .. hi`, each
/// under its index, as whole values.
pub open spec fn whole_elements(s: Seq<ValueModel>, path: Seq<SegmentModel>, lo: nat, hi: nat, added: bool) -> Seq<(Seq<SegmentModel>, KindModel)> {
    Seq::new(
        (hi - lo) as nat,
        |i: int| (
            path.push(SegmentModel::Index((lo + i) as usize)),
            if added { KindModel::Added(s[lo + i]) } else { KindModel::Removed(s[lo + i]) },
        ),
    )
}

proof fn lemma_elements_whole(s: Seq<ValueModel>, path: Seq<SegmentModel>, o: OptionsModel, added: bool, lo: nat, k: nat)
    requires
        no_ignores(o),
        !o.expand,
        lo <= k <= s.len(),
    ensures
        emit_elements(s, path, o, added, lo, k) == whole_elements(s, path, lo, k, added),
    decreases k,
{
    if k > lo {
        lemma_elements_whole(s, path, o, added, lo, (k - 1) as nat);
        assert(!ignored(o, path.push(SegmentModel::Index((k - 1) as usize))));
        assert(whole_elements(s, path, lo, k, added) =~= whole_elements(s, path, lo, (k - 1) as nat, added)
            + crate::diff_spec::emit_spec(s[k - 1], path.push(SegmentModel::Index((k - 1) as usize)), o, added));
    } else {
        assert(whole_elements(s, path, lo, k, added) =~= Seq::<(Seq<SegmentModel>, KindModel)>::empty());
    }
}

/// Positional comparison, without ignore patterns or expansion: after the
/// diffs of the common positions, each old element past the new array's end
/// is reported removed (with its old value, at its index), then each new
/// element past the old array's end is reported added (with its new value,
/// at its index).
pub proof fn law_positional_extras(a: Seq<ValueModel>, b: Seq<ValueModel>, path: Seq<SegmentModel>, o: OptionsModel)
    requires
        no_ignores(o),
        !o.expand,
    ensures
        positional_spec(a, b, path, o) == positional_pairs(a, b, path, o, min_len(a.len(), b.len()))
            + whole_elements(a, path, min_len(a.len(), b.len()), a.len(), false)
            + whole_elements(b, path, min_len(a.len(), b.len()), b.len(), true),
{
    let m = min_len(a.len(), b.len());
    lemma_elements_whole(a, path, o, false, m, a.len());
    lemma_elements_whole(b, path, o, true, m, b.len());
}

/// Under positional comparison, dropping the last element of an array whose
/// elements each compare equal to themselves is reported as exactly one
/// removal of that element, at its index.
pub proof fn law_positional_drop_last(b: Seq<ValueModel>, e: ValueModel, path: Seq<SegmentModel>, o: OptionsModel)
    requires
        no_ignores(o),
        !o.expand,
        o.array_strategy == ArrayStrategy::Positional,
        path.len() < MAX_DEPTH,
        forall|t: int| 0 <= t < b.len()
            ==> diff_values_spec(#[trigger] b[t], b[t], path.push(SegmentModel::Index(t as usize)), o).len() == 0,
    ensures
        diff_values_spec(ValueModel::Array(b.push(e)), ValueModel::Array(b), path, o)
            == seq![(path.push(SegmentModel::Index(b.len() as usize)), KindModel::Removed(e))],
{
    let a = b.push(e);
    law_positional_extras(a, b, path, o);
    assert(min_len(a.len(), b.len()) == b.len());
    lemma_pairs_silent(a, b, path, o, b.len());
    assert(!ignored(o, path));
    assert(whole_elements(a, path, b.len(), a.len(), false) =~= seq![(path.push(SegmentModel::Index(b.len() as usize)), KindModel::Removed(e))]);
    assert(whole_elements(b, path, b.len(), b.len(), true) =~= Seq::<(Seq<SegmentModel>, KindModel)>::empty());
    assert(Seq::<(Seq<SegmentModel>, KindModel)>::empty() + seq![(path.push(SegmentModel::Index(b.len() as usize)), KindModel::Removed(e))]
        + Seq::<(Seq<SegmentModel>, KindModel)>::empty() =~= seq![(path.push(SegmentModel::Index(b.len() as usize)), KindModel::Removed(e))]);
}

proof fn lemma_pairs_silent(a: Seq<ValueModel>, b: Seq<ValueModel>, path: Seq<SegmentModel>, o: OptionsModel, k: nat)
    requires
        k <= b.len(),
        b.len() <= a.len(),
        forall|t: int| 0 <= t < b.len() ==> a[t] == b[t],
        forall|t: int| 0 <= t < b.len()
            ==> diff_values_spec(#[trigger] b[t], b[t], path.push(SegmentModel::Index(t as usize)), o).len() == 0,
    ensures
        positional_pairs(a, b, path, o, k) == Seq::<(Seq<SegmentModel>, KindModel)>::empty(),
    decreases k,
{
    if k > 0 {
        lemma_pairs_silent(a, b, path, o, (k - 1) as nat);
        assert(a[k - 1] == b[k - 1]);
        assert(diff_values_spec(b[k - 1], b[k - 1], path.push(SegmentModel::Index((k - 1) as usize)), o)
            =~= Seq::<(Seq<SegmentModel>, KindModel)>::empty());
        assert(Seq::<(Seq<SegmentModel>, KindModel)>::empty() + Seq::<(Seq<SegmentModel>, KindModel)>::empty()
            =~= Seq::<(Seq<SegmentModel>, KindModel)>::empty());
    }
}

} // verus!
