//! Diff engine: compares two value trees into a list of changes.

use vstd::prelude::*;
use crate::diff_spec::{KindModel, MAX_DEPTH, LCS_CELL_LIMIT, ScalarRel, auto_key, candidate_keys, consumed, deep_equal, diff_arrays_spec, diff_values_spec, emit_elements, emit_entries, emit_spec, first_unused, ignored, is_numeric, key_equal, key_of, key_of_from, keyed_added, keyed_pass, keyed_spec, keyed_table, lcs_len, lcs_or_positional, lcs_walk, min_len, numeric_bits, object_added, object_pairs, positional_pairs, positional_spec, scalar_equal, scalar_relation, key_fits, auto_key_from};
use crate::numeric::{compare_numbers, exact_eq, int_to_float, is_nan};
use crate::options::{ArrayStrategy, DiffOptions, OptionsModel};
use crate::path::{Path, SegmentModel};
use crate::value::{Value, ValueMap, ValueModel, find_key, lemma_find_key, lemma_value_model, spec_is_scalar, values_model};
use crate::text::str_equal;

verus! {

broadcast use lemma_value_model;

/// What changed at a path.
#[derive(Debug, PartialEq)]
pub enum ChangeKind {
    Added { new: Value },
    Removed { old: Value },
    Changed { old: Value, new: Value },
    TypeChanged { old: Value, new: Value },
}

impl View for ChangeKind {
    type V = KindModel;

    open spec fn view(&self) -> KindModel {
        match self {
            ChangeKind::Added { new } => KindModel::Added(new@),
            ChangeKind::Removed { old } => KindModel::Removed(old@),
            ChangeKind::Changed { old, new } => KindModel::Changed(old@, new@),
            ChangeKind::TypeChanged { old, new } => KindModel::TypeChanged(old@, new@),
        }
    }
}

/// One difference: where, and what.
#[derive(Debug, PartialEq)]
pub struct Change {
    pub path: Path,
    pub kind: ChangeKind,
}

impl View for Change {
    type V = (Seq<SegmentModel>, KindModel);

    open spec fn view(&self) -> (Seq<SegmentModel>, KindModel) {
        (self.path@, self.kind@)
    }
}

impl Clone for ChangeKind {
    fn clone(&self) -> (r: Self)
        ensures
            r@ == self@,
    {
        match self {
            ChangeKind::Added { new } => ChangeKind::Added { new: new.clone() },
            ChangeKind::Removed { old } => ChangeKind::Removed { old: old.clone() },
            ChangeKind::Changed { old, new } => ChangeKind::Changed { old: old.clone(), new: new.clone() },
            ChangeKind::TypeChanged { old, new } => ChangeKind::TypeChanged { old: old.clone(), new: new.clone() },
        }
    }
}

impl Clone for Change {
    fn clone(&self) -> (r: Self)
        ensures
            r@ == self@,
    {
        Change { path: self.path.clone(), kind: self.kind.clone() }
    }
}

/// The models of a list of changes.
pub open spec fn changes_model(s: Seq<Change>) -> Seq<(Seq<SegmentModel>, KindModel)> {
    Seq::new(s.len(), |i: int| s[i]@)
}

proof fn lemma_changes_push(s: Seq<Change>, c: Change)
    ensures
        changes_model(s.push(c)) == changes_model(s).push(c@),
{
    assert(changes_model(s.push(c)) =~= changes_model(s).push(c@));
}

/// All the differences between two documents, in report order.
#[derive(Debug, PartialEq)]
pub struct Diff {
    changes: Vec<Change>,
}

impl View for Diff {
    type V = Seq<(Seq<SegmentModel>, KindModel)>;

    closed spec fn view(&self) -> Seq<(Seq<SegmentModel>, KindModel)> {
        changes_model(self.changes@)
    }
}

/// How many changes of each kind a diff holds.
#[derive(Debug, Clone, Copy, PartialEq, Eq, Default, Structural)]
pub struct Summary {
    pub added: usize,
    pub removed: usize,
    pub changed: usize,
    pub type_changed: usize,
}

/// The number of changes of the first `k` that satisfy `is_kind`.
pub open spec fn count_kind(s: Seq<(Seq<SegmentModel>, KindModel)>, kind: nat, k: nat) -> nat
    decreases k,
{
    if k == 0 || k > s.len() {
        0
    } else {
        count_kind(s, kind, (k - 1) as nat) + if kind_index(s[k - 1].1) == kind { 1nat } else { 0nat }
    }
}

/// 0 for additions, 1 for removals, 2 for value changes, 3 for type changes.
pub open spec fn kind_index(k: KindModel) -> nat {
    match k {
        KindModel::Added(_) => 0,
        KindModel::Removed(_) => 1,
        KindModel::Changed(..) => 2,
        KindModel::TypeChanged(..) => 3,
    }
}

proof fn lemma_count_bound(s: Seq<(Seq<SegmentModel>, KindModel)>, kind: nat, k: nat)
    requires
        k <= s.len(),
    ensures
        count_kind(s, kind, k) <= k,
    decreases k,
{
    if k > 0 {
        lemma_count_bound(s, kind, (k - 1) as nat);
    }
}

/// The four counts of a summary add up to the number of changes: every
/// change is of exactly one kind.
pub proof fn law_summary_counts_every_change(s: Seq<(Seq<SegmentModel>, KindModel)>, k: nat)
    requires
        k <= s.len(),
    ensures
        count_kind(s, 0, k) + count_kind(s, 1, k) + count_kind(s, 2, k) + count_kind(s, 3, k) == k,
    decreases k,
{
    if k > 0 {
        law_summary_counts_every_change(s, (k - 1) as nat);
    }
}

impl Clone for Diff {
    fn clone(&self) -> (r: Self)
        ensures
            r@ == self@,
    {
        let mut changes: Vec<Change> = Vec::new();
        let mut i: usize = 0;
        while i < self.changes.len()
            invariant
                i <= self.changes@.len(),
                changes_model(changes@) == changes_model(self.changes@).subrange(0, i as int),
            decreases self.changes.len() - i,
        {
            let c = self.changes[i].clone();
            proof {
                lemma_changes_push(changes@, c);
            }
            changes.push(c);
            i = i + 1;
            assert(changes_model(changes@) =~= changes_model(self.changes@).subrange(0, i as int));
        }
        assert(changes_model(self.changes@).subrange(0, i as int) =~= changes_model(self.changes@));
        Diff { changes }
    }
}

impl Default for Diff {
    /// The diff of equal documents: no changes.
    fn default() -> (d: Self)
        ensures
            d@ == Seq::<(Seq<SegmentModel>, KindModel)>::empty(),
    {
        let d = Diff { changes: Vec::new() };
        assert(d@ =~= Seq::<(Seq<SegmentModel>, KindModel)>::empty());
        d
    }
}

impl Diff {
    /// Whether the documents are equal.
    pub fn is_empty(&self) -> (r: bool)
        ensures
            r == (self@.len() == 0),
    {
        self.changes.len() == 0
    }

    /// The number of changes.
    pub fn len(&self) -> (r: usize)
        ensures
            r == self@.len(),
    {
        self.changes.len()
    }

    /// The changes, in report order.
    pub fn changes(&self) -> (r: &[Change])
        ensures
            changes_model(r@) == self@,
    {
        self.changes.as_slice()
    }

    /// The changes, in report order, taken out of the diff.
    pub fn into_changes(self) -> (r: Vec<Change>)
        ensures
            changes_model(r@) == self@,
    {
        self.changes
    }

    /// The number of changes of each kind.
    pub fn summary(&self) -> (s: Summary)
        ensures
            s.added == count_kind(self@, 0, self@.len()),
            s.removed == count_kind(self@, 1, self@.len()),
            s.changed == count_kind(self@, 2, self@.len()),
            s.type_changed == count_kind(self@, 3, self@.len()),
    {
        let ghost m = self@;
        let mut s = Summary { added: 0, removed: 0, changed: 0, type_changed: 0 };
        let mut i: usize = 0;
        while i < self.changes.len()
            invariant
                m == changes_model(self.changes@),
                i <= m.len(),
                s.added == count_kind(m, 0, i as nat),
                s.removed == count_kind(m, 1, i as nat),
                s.changed == count_kind(m, 2, i as nat),
                s.type_changed == count_kind(m, 3, i as nat),
            decreases self.changes.len() - i,
        {
            proof {
                lemma_count_bound(m, 0, i as nat);
                lemma_count_bound(m, 1, i as nat);
                lemma_count_bound(m, 2, i as nat);
                lemma_count_bound(m, 3, i as nat);
            }
            assert(m[i as int].1 == self.changes@[i as int].kind@);
            match &self.changes[i].kind {
                ChangeKind::Added { .. } => s.added = s.added + 1,
                ChangeKind::Removed { .. } => s.removed = s.removed + 1,
                ChangeKind::Changed { .. } => s.changed = s.changed + 1,
                ChangeKind::TypeChanged { .. } => s.type_changed = s.type_changed + 1,
            }
            i = i + 1;
        }
        s
    }
}

/// Compares two documents: the changes that turn `old` into `new`, in report
/// order.
pub fn diff(old: &Value, new: &Value, opts: &DiffOptions) -> (d: Diff)
    ensures
        d@ == diff_values_spec(old@, new@, Seq::empty(), opts@),
{
    let mut changes: Vec<Change> = Vec::new();
    let root = Path::root();
    assert(changes_model(changes@) =~= Seq::<(Seq<SegmentModel>, KindModel)>::empty());
    diff_values(old, new, &root, opts, &mut changes);
    assert(changes_model(changes@) =~= diff_values_spec(old@, new@, Seq::empty(), opts@));
    Diff { changes }
}

/// Whether a non-root path is excluded by an ignore pattern.
fn path_ignored(path: &Path, opts: &DiffOptions) -> (r: bool)
    ensures
        r == ignored(opts@, path@),
{
    let s = path.match_string();
    opts.is_ignored(s.as_str())
}

fn push_change(out: &mut Vec<Change>, c: Change)
    ensures
        changes_model(final(out)@) == changes_model(old(out)@).push(c@),
{
    proof {
        lemma_changes_push(out@, c);
    }
    out.push(c);
}

/// Reports `value` added (`added`) or removed at `path`.
#[verifier::spinoff_prover]
fn emit(value: &Value, path: &Path, opts: &DiffOptions, added: bool, out: &mut Vec<Change>)
    ensures
        changes_model(final(out)@) == changes_model(old(out)@) + emit_spec(value@, path@, opts@, added),
    decreases value@, 0nat,
{
    let ghost start = changes_model(out@);
    if path_ignored(path, opts) {
        assert(changes_model(out@) =~= start + emit_spec(value@, path@, opts@, added));
        return;
    }
    if opts.expands() && path.depth() < MAX_DEPTH {
        match value {
            Value::Object(m) => {
                if m.len() > 0 {
                    let mut i: usize = 0;
                    while i < m.len()
                        invariant
                            i <= m@.len(),
                            value@ == ValueModel::Object(m@),
                            changes_model(out@) == start + emit_entries(m@, path@, opts@, added, i as nat),
                        decreases m@.len() - i,
                    {
                        let child = path.child_key(m.key_at(i).clone());
                        proof {
                            assert(decreases_to!(value@ => value@->Object_0));
                            assert(decreases_to!(value@->Object_0 => value@->Object_0[i as int]));
                            assert(decreases_to!(value@->Object_0[i as int] => value@->Object_0[i as int].1));
                        }
                        emit(m.value_at(i), &child, opts, added, out);
                        i = i + 1;
                        assert(changes_model(out@) =~= start + emit_entries(m@, path@, opts@, added, i as nat));
                    }
                    return;
                }
            },
            Value::Array(a) => {
                if a.len() > 0 {
                    let mut i: usize = 0;
                    while i < a.len()
                        invariant
                            i <= a@.len(),
                            value@ == ValueModel::Array(values_model(a@)),
                            changes_model(out@) == start + emit_elements(values_model(a@), path@, opts@, added, 0, i as nat),
                        decreases a@.len() - i,
                    {
                        let child = path.child_index(i);
                        proof {
                            assert(decreases_to!(value@ => value@->Array_0));
                            assert(decreases_to!(value@->Array_0 => value@->Array_0[i as int]));
                        }
                        emit(&a[i], &child, opts, added, out);
                        i = i + 1;
                        assert(changes_model(out@) =~= start + emit_elements(values_model(a@), path@, opts@, added, 0, i as nat));
                    }
                    return;
                }
            },
            _ => {},
        }
    }
    let kind = if added {
        ChangeKind::Added { new: value.clone() }
    } else {
        ChangeKind::Removed { old: value.clone() }
    };
    push_change(out, Change { path: path.clone(), kind });
}


/// The `f64` a number stands for, as a bit pattern.
fn numeric_bits_of(v: &Value) -> (r: u64)
    requires
        is_numeric(v@),
    ensures
        r == numeric_bits(v@),
{
    match v {
        Value::Integer(i) => int_to_float(*i),
        Value::Float(f) => f.bits(),
        _ => 0,
    }
}

/// Whether a value is a number.
fn value_is_numeric(v: &Value) -> (r: bool)
    ensures
        r == is_numeric(v@),
{
    match v {
        Value::Integer(_) | Value::Float(_) => true,
        _ => false,
    }
}

/// Whether two scalars are equal under the options.
fn scalar_eq(a: &Value, b: &Value, opts: &DiffOptions) -> (r: bool)
    ensures
        r == scalar_equal(a@, b@, opts@),
{
    match (a, b) {
        (Value::Null, Value::Null) => true,
        (Value::Bool(x), Value::Bool(y)) => *x == *y,
        (Value::String(x), Value::String(y)) => str_equal(x.as_str(), y.as_str()),
        _ => {
            if !value_is_numeric(a) || !value_is_numeric(b) {
                return false;
            }
            let same_type = str_equal(a.type_label(), b.type_label());
            if !opts.loose() && !same_type {
                return false;
            }
            let x = numeric_bits_of(a);
            let y = numeric_bits_of(b);
            compare_numbers(x, y, opts.tolerance())
        },
    }
}

/// How two scalars relate under the options.
fn scalar_relation_of(a: &Value, b: &Value, opts: &DiffOptions) -> (r: ScalarRel)
    ensures
        r == scalar_relation(a@, b@, opts@),
{
    if scalar_eq(a, b, opts) {
        return ScalarRel::Equal;
    }
    if str_equal(a.type_label(), b.type_label()) {
        return ScalarRel::Changed;
    }
    if value_is_numeric(a) && value_is_numeric(b) && opts.loose() {
        return ScalarRel::Changed;
    }
    ScalarRel::TypeChanged
}

/// Whether two trees are equal element by element (see `deep_equal`).
fn deep_eq(a: &Value, b: &Value, depth: usize, opts: &DiffOptions) -> (r: bool)
    requires
        depth <= MAX_DEPTH,
    ensures
        r == deep_equal(a@, b@, depth as nat, opts@),
    decreases a@,
{
    match (a, b) {
        (Value::Object(x), Value::Object(y)) => {
            if depth >= MAX_DEPTH || x.len() != y.len() {
                return false;
            }
            let mut i: usize = 0;
            while i < x.len()
                invariant
                    i <= x@.len(),
                    depth < MAX_DEPTH,
                    x@.len() == y@.len(),
                    a@ == ValueModel::Object(x@),
                    b@ == ValueModel::Object(y@),
                    forall|k: int| 0 <= k < i ==> match find_key(y@, #[trigger] x@[k].0) {
                        Some(j) => deep_equal(x@[k].1, y@[j].1, depth as nat + 1, opts@),
                        None => false,
                    },
                decreases x@.len() - i,
            {
                let key = x.key_at(i);
                match y.get(key.as_str()) {
                    Some(yv) => {
                        proof {
                            assert(decreases_to!(a@ => a@->Object_0));
                            assert(decreases_to!(a@->Object_0 => a@->Object_0[i as int]));
                            assert(decreases_to!(a@->Object_0[i as int] => a@->Object_0[i as int].1));
                        }
                        if !deep_eq(x.value_at(i), yv, depth + 1, opts) {
                            return false;
                        }
                    },
                    None => {
                        return false;
                    },
                }
                i = i + 1;
            }
            true
        },
        (Value::Array(x), Value::Array(y)) => {
            if depth >= MAX_DEPTH || x.len() != y.len() {
                return false;
            }
            let mut i: usize = 0;
            while i < x.len()
                invariant
                    i <= x@.len(),
                    depth < MAX_DEPTH,
                    x@.len() == y@.len(),
                    a@ == ValueModel::Array(values_model(x@)),
                    b@ == ValueModel::Array(values_model(y@)),
                    forall|k: int| 0 <= k < i ==> deep_equal(#[trigger] values_model(x@)[k], values_model(y@)[k], depth as nat + 1, opts@),
                decreases x@.len() - i,
            {
                proof {
                    assert(decreases_to!(a@ => a@->Array_0));
                    assert(decreases_to!(a@->Array_0 => a@->Array_0[i as int]));
                }
                if !deep_eq(&x[i], &y[i], depth + 1, opts) {
                    return false;
                }
                i = i + 1;
            }
            true
        },
        _ => a.is_scalar() && b.is_scalar() && scalar_eq(a, b, opts),
    }
}

/// Records the changes between `lhs` and `rhs` at `path`.
#[verifier::spinoff_prover]
fn diff_values(lhs: &Value, rhs: &Value, path: &Path, opts: &DiffOptions, out: &mut Vec<Change>)
    ensures
        changes_model(final(out)@) == changes_model(old(out)@) + diff_values_spec(lhs@, rhs@, path@, opts@),
    decreases lhs@, 2nat,
{
    let ghost start = changes_model(out@);
    if !path.is_root() && path_ignored(path, opts) {
        assert(changes_model(out@) =~= start + diff_values_spec(lhs@, rhs@, path@, opts@));
        return;
    }
    match (lhs, rhs) {
        (Value::Object(a), Value::Object(b)) => {
            if path.depth() >= MAX_DEPTH {
                push_change(out, Change { path: path.clone(), kind: ChangeKind::Changed { old: lhs.clone(), new: rhs.clone() } });
                assert(changes_model(out@) =~= start + diff_values_spec(lhs@, rhs@, path@, opts@));
                return;
            }
            diff_objects(lhs, a, b, path, opts, out);
            assert(changes_model(out@) =~= start + diff_values_spec(lhs@, rhs@, path@, opts@));
        },
        (Value::Array(a), Value::Array(b)) => {
            if path.depth() >= MAX_DEPTH {
                push_change(out, Change { path: path.clone(), kind: ChangeKind::Changed { old: lhs.clone(), new: rhs.clone() } });
                assert(changes_model(out@) =~= start + diff_values_spec(lhs@, rhs@, path@, opts@));
                return;
            }
            proof {
                assert(decreases_to!(lhs@ => lhs@->Array_0));
            }
            diff_arrays(a, b, path, opts, out);
            assert(changes_model(out@) =~= start + diff_values_spec(lhs@, rhs@, path@, opts@));
        },
        _ => {
            if lhs.is_scalar() && rhs.is_scalar() {
                match scalar_relation_of(lhs, rhs, opts) {
                    ScalarRel::Equal => {
                        assert(changes_model(out@) =~= start + diff_values_spec(lhs@, rhs@, path@, opts@));
                    },
                    ScalarRel::Changed => {
                        push_change(out, Change { path: path.clone(), kind: ChangeKind::Changed { old: lhs.clone(), new: rhs.clone() } });
                        assert(changes_model(out@) =~= start + diff_values_spec(lhs@, rhs@, path@, opts@));
                    },
                    ScalarRel::TypeChanged => {
                        push_change(out, Change { path: path.clone(), kind: ChangeKind::TypeChanged { old: lhs.clone(), new: rhs.clone() } });
                        assert(changes_model(out@) =~= start + diff_values_spec(lhs@, rhs@, path@, opts@));
                    },
                }
            } else {
                push_change(out, Change { path: path.clone(), kind: ChangeKind::TypeChanged { old: lhs.clone(), new: rhs.clone() } });
                assert(changes_model(out@) =~= start + diff_values_spec(lhs@, rhs@, path@, opts@));
            }
        },
    }
}

/// Records the changes between two objects at `path`: first, in the lhs
/// object's order, each key's diff or removal; then, in the rhs object's
/// order, the keys it adds.
#[verifier::spinoff_prover]
fn diff_objects(lhs: &Value, a: &ValueMap, b: &ValueMap, path: &Path, opts: &DiffOptions, out: &mut Vec<Change>)
    requires
        lhs@ == ValueModel::Object(a@),
    ensures
        changes_model(final(out)@) == changes_model(old(out)@)
            + object_pairs(a@, b@, path@, opts@, a@.len()) + object_added(a@, b@, path@, opts@, b@.len()),
    decreases lhs@, 1nat,
{
    let ghost start = changes_model(out@);
    let mut i: usize = 0;
    while i < a.len()
        invariant
            i <= a@.len(),
            lhs@ == ValueModel::Object(a@),
            changes_model(out@) == start + object_pairs(a@, b@, path@, opts@, i as nat),
        decreases a@.len() - i,
    {
        let key = a.key_at(i);
        let child = path.child_key(key.clone());
        proof {
            assert(decreases_to!(lhs@ => lhs@->Object_0));
            assert(decreases_to!(lhs@->Object_0 => lhs@->Object_0[i as int]));
            assert(decreases_to!(lhs@->Object_0[i as int] => lhs@->Object_0[i as int].1));
            lemma_find_key(b@, key@);
        }
        match b.get(key.as_str()) {
            Some(bv) => diff_values(a.value_at(i), bv, &child, opts, out),
            None => emit(a.value_at(i), &child, opts, false, out),
        }
        i = i + 1;
        assert(changes_model(out@) =~= start + object_pairs(a@, b@, path@, opts@, i as nat));
    }
    let ghost mid = changes_model(out@);
    let mut j: usize = 0;
    while j < b.len()
        invariant
            j <= b@.len(),
            changes_model(out@) == mid + object_added(a@, b@, path@, opts@, j as nat),
        decreases b@.len() - j,
    {
        let key = b.key_at(j);
        if !a.contains_key(key.as_str()) {
            let child = path.child_key(key.clone());
            emit(b.value_at(j), &child, opts, true, out);
        }
        j = j + 1;
        assert(changes_model(out@) =~= mid + object_added(a@, b@, path@, opts@, j as nat));
    }
    assert(changes_model(out@) =~= start + object_pairs(a@, b@, path@, opts@, a@.len()) + object_added(a@, b@, path@, opts@, b@.len()));
}


/// Reports the elements at positions `lo .. hi` added (`added`) or removed,
/// each under its index.
fn emit_run(s: &Vec<Value>, lo: usize, hi: usize, path: &Path, opts: &DiffOptions, added: bool, out: &mut Vec<Change>)
    requires
        lo <= hi <= s@.len(),
    ensures
        changes_model(final(out)@) == changes_model(old(out)@)
            + emit_elements(values_model(s@), path@, opts@, added, lo as nat, hi as nat),
{
    let ghost start = changes_model(out@);
    let mut i: usize = lo;
    assert(changes_model(out@) =~= start + emit_elements(values_model(s@), path@, opts@, added, lo as nat, lo as nat));
    while i < hi
        invariant
            lo <= i <= hi <= s@.len(),
            changes_model(out@) == start + emit_elements(values_model(s@), path@, opts@, added, lo as nat, i as nat),
        decreases hi - i,
    {
        let child = path.child_index(i);
        emit(&s[i], &child, opts, added, out);
        i = i + 1;
        assert(changes_model(out@) =~= start + emit_elements(values_model(s@), path@, opts@, added, lo as nat, i as nat));
    }
}

/// Records the changes between two arrays at `path` by the configured
/// strategy.
fn diff_arrays(a: &Vec<Value>, b: &Vec<Value>, path: &Path, opts: &DiffOptions, out: &mut Vec<Change>)
    requires
        path@.len() < MAX_DEPTH,
    ensures
        changes_model(final(out)@) == changes_model(old(out)@)
            + diff_arrays_spec(values_model(a@), values_model(b@), path@, opts@),
    decreases values_model(a@), a@.len() + 3,
{
    match opts.strategy() {
        ArrayStrategy::Positional => diff_positional(a, b, path, opts, out),
        ArrayStrategy::Lcs => diff_lcs_or_positional(a, b, path, opts, out),
        ArrayStrategy::Keyed => {
            let keys = opts.keys();
            if keys.len() == 0 {
                diff_lcs_or_positional(a, b, path, opts, out);
            } else {
                diff_keyed(a, b, keys, path, opts, out);
            }
        },
        ArrayStrategy::Auto => {
            match infer_key(a, b) {
                Some(k) => {
                    let keys = vec![k];
                    proof {
                        assert(strings_model_of(keys@) =~= seq![auto_key(values_model(a@), values_model(b@))->Some_0]);
                    }
                    diff_keyed(a, b, &keys, path, opts, out);
                },
                None => diff_lcs_or_positional(a, b, path, opts, out),
            }
        },
    }
}

/// The texts of a list of strings.
pub open spec fn strings_model_of(v: Seq<String>) -> Seq<Seq<char>> {
    v.map_values(|s: String| s@)
}

/// Positional comparison.
fn diff_positional(a: &Vec<Value>, b: &Vec<Value>, path: &Path, opts: &DiffOptions, out: &mut Vec<Change>)
    requires
        path@.len() < MAX_DEPTH,
    ensures
        changes_model(final(out)@) == changes_model(old(out)@)
            + positional_spec(values_model(a@), values_model(b@), path@, opts@),
    decreases values_model(a@), a@.len() + 1,
{
    let ghost am = values_model(a@);
    let ghost bm = values_model(b@);
    let ghost start = changes_model(out@);
    let common = if a.len() < b.len() { a.len() } else { b.len() };
    let mut i: usize = 0;
    while i < common
        invariant
            i <= common,
            common == min_len(a@.len(), b@.len()),
            am == values_model(a@),
            bm == values_model(b@),
            changes_model(out@) == start + positional_pairs(am, bm, path@, opts@, i as nat),
        decreases common - i,
    {
        let child = path.child_index(i);
        proof {
            assert(decreases_to!(am => am[i as int]));
        }
        diff_values(&a[i], &b[i], &child, opts, out);
        i = i + 1;
        assert(changes_model(out@) =~= start + positional_pairs(am, bm, path@, opts@, i as nat));
    }
    emit_run(a, common, a.len(), path, opts, false, out);
    emit_run(b, common, b.len(), path, opts, true, out);
    assert(changes_model(out@) =~= start + positional_spec(am, bm, path@, opts@));
}

/// LCS matching, or positional comparison for arrays too large for the
/// LCS table.
#[verifier::spinoff_prover]
fn diff_lcs_or_positional(a: &Vec<Value>, b: &Vec<Value>, path: &Path, opts: &DiffOptions, out: &mut Vec<Change>)
    requires
        path@.len() < MAX_DEPTH,
    ensures
        changes_model(final(out)@) == changes_model(old(out)@)
            + lcs_or_positional(values_model(a@), values_model(b@), path@, opts@),
    decreases values_model(a@), a@.len() + 2,
{
    let too_big = if a.len() >= LCS_CELL_LIMIT || b.len() >= LCS_CELL_LIMIT {
        proof {
            assert((a@.len() + 1) * (b@.len() + 1) > LCS_CELL_LIMIT) by (nonlinear_arith)
                requires a@.len() >= LCS_CELL_LIMIT || b@.len() >= LCS_CELL_LIMIT;
        }
        true
    } else {
        let x: u64 = a.len() as u64 + 1;
        let y: u64 = b.len() as u64 + 1;
        proof {
            assert(x * y <= 0x1_0000_0000_0000) by (nonlinear_arith)
                requires x <= LCS_CELL_LIMIT, y <= LCS_CELL_LIMIT;
        }
        x * y > LCS_CELL_LIMIT as u64
    };
    if too_big {
        diff_positional(a, b, path, opts, out);
    } else {
        diff_lcs(a, b, path, opts, out);
    }
}


proof fn lemma_lcs_bound(a: Seq<ValueModel>, b: Seq<ValueModel>, i: nat, j: nat, d: nat, o: OptionsModel)
    requires
        i <= a.len(),
    ensures
        lcs_len(a, b, i, j, d, o) <= a.len() - i,
    decreases a.len() + b.len() - i - j,
{
    if i >= a.len() || j >= b.len() {
    } else if deep_equal(a[i as int], b[j as int], d, o) {
        lemma_lcs_bound(a, b, i + 1, j + 1, d, o);
    } else {
        lemma_lcs_bound(a, b, i + 1, j, d, o);
        lemma_lcs_bound(a, b, i, j + 1, d, o);
    }
}

/// A row of `len` zeros.
fn zeros(len: usize) -> (r: Vec<usize>)
    ensures
        r@.len() == len,
        forall|j: int| 0 <= j < len ==> r@[j] == 0,
{
    let mut r: Vec<usize> = Vec::new();
    let mut k: usize = 0;
    while k < len
        invariant
            k <= len,
            r@.len() == k,
            forall|j: int| 0 <= j < k ==> r@[j] == 0,
        decreases len - k,
    {
        r.push(0);
        k = k + 1;
    }
    r
}

/// The LCS lengths of all suffix pairs: `rows[k][j]` is the LCS length of
/// `a[n - k ..]` and `b[j ..]`, where `n` is the length of `a`.
#[verifier::spinoff_prover]
fn lcs_table(a: &Vec<Value>, b: &Vec<Value>, d: usize, opts: &DiffOptions) -> (rows: Vec<Vec<usize>>)
    requires
        d <= MAX_DEPTH,
        (a@.len() + 1) * (b@.len() + 1) <= LCS_CELL_LIMIT,
    ensures
        rows@.len() == a@.len() + 1,
        forall|k: int| 0 <= k <= a@.len() ==> (#[trigger] rows@[k])@.len() == b@.len() + 1,
        forall|k: int, j: int| 0 <= k <= a@.len() && 0 <= j <= b@.len() ==>
            #[trigger] rows@[k]@[j] == lcs_len(values_model(a@), values_model(b@), (a@.len() - k) as nat, j as nat, d as nat, opts@),
{
    let ghost am = values_model(a@);
    let ghost bm = values_model(b@);
    let n = a.len();
    let m = b.len();
    proof {
        assert(n <= LCS_CELL_LIMIT && m <= LCS_CELL_LIMIT) by (nonlinear_arith)
            requires (n + 1) * (m + 1) <= LCS_CELL_LIMIT;
    }
    let mut rows: Vec<Vec<usize>> = Vec::new();
    rows.push(zeros(m + 1));
    let mut step: usize = 1;
    while step <= n
        invariant
            1 <= step <= n + 1,
            n == a@.len(),
            m == b@.len(),
            n <= LCS_CELL_LIMIT,
            m <= LCS_CELL_LIMIT,
            d <= MAX_DEPTH,
            am == values_model(a@),
            bm == values_model(b@),
            rows@.len() == step,
            forall|k: int| 0 <= k < step ==> (#[trigger] rows@[k])@.len() == m + 1,
            forall|k: int, j: int| 0 <= k < step && 0 <= j <= m ==>
                #[trigger] rows@[k]@[j] == lcs_len(am, bm, (n - k) as nat, j as nat, d as nat, opts@),
        decreases n + 1 - step,
    {
        let i = n - step;
        let mut r = zeros(m + 1);
        let mut j: usize = m;
        while j > 0
            invariant
                0 <= j <= m,
                i < n,
                i == n - step,
                n == a@.len(),
                m == b@.len(),
                n <= LCS_CELL_LIMIT,
                m <= LCS_CELL_LIMIT,
                d <= MAX_DEPTH,
                am == values_model(a@),
                bm == values_model(b@),
                rows@.len() == step,
                forall|k: int| 0 <= k < step ==> (#[trigger] rows@[k])@.len() == m + 1,
                forall|k: int, jj: int| 0 <= k < step && 0 <= jj <= m ==>
                    #[trigger] rows@[k]@[jj] == lcs_len(am, bm, (n - k) as nat, jj as nat, d as nat, opts@),
                r@.len() == m + 1,
                forall|jj: int| j <= jj <= m ==> #[trigger] r@[jj] == lcs_len(am, bm, i as nat, jj as nat, d as nat, opts@),
            decreases j,
        {
            j = j - 1;
            let prev = &rows[step - 1];
            assert(prev@[j + 1] == lcs_len(am, bm, (i + 1) as nat, (j + 1) as nat, d as nat, opts@));
            assert(prev@[j as int] == lcs_len(am, bm, (i + 1) as nat, j as nat, d as nat, opts@));
            let v = if deep_eq(&a[i], &b[j], d, opts) {
                proof {
                    lemma_lcs_bound(am, bm, (i + 1) as nat, (j + 1) as nat, d as nat, opts@);
                }
                prev[j + 1] + 1
            } else {
                let x = prev[j];
                let y = r[j + 1];
                if x >= y { x } else { y }
            };
            r.set(j, v);
        }
        rows.push(r);
        step = step + 1;
    }
    rows
}

/// LCS matching: equal elements are anchored, the rest reported as removed
/// or added.
#[verifier::spinoff_prover]
fn diff_lcs(a: &Vec<Value>, b: &Vec<Value>, path: &Path, opts: &DiffOptions, out: &mut Vec<Change>)
    requires
        path@.len() < MAX_DEPTH,
        (a@.len() + 1) * (b@.len() + 1) <= LCS_CELL_LIMIT,
    ensures
        changes_model(final(out)@) == changes_model(old(out)@)
            + lcs_walk(values_model(a@), values_model(b@), 0, 0, path@, opts@),
{
    let ghost am = values_model(a@);
    let ghost bm = values_model(b@);
    let ghost start = changes_model(out@);
    let d = path.depth() + 1;
    let rows = lcs_table(a, b, d, opts);
    let n = a.len();
    let m = b.len();
    let mut i: usize = 0;
    let mut j: usize = 0;
    while i < n || j < m
        invariant
            i <= n,
            j <= m,
            n == a@.len(),
            m == b@.len(),
            d == path@.len() + 1,
            d <= MAX_DEPTH,
            am == values_model(a@),
            bm == values_model(b@),
            rows@.len() == n + 1,
            forall|k: int| 0 <= k <= n ==> (#[trigger] rows@[k])@.len() == m + 1,
            forall|k: int, jj: int| 0 <= k <= n && 0 <= jj <= m ==>
                #[trigger] rows@[k]@[jj] == lcs_len(am, bm, (n - k) as nat, jj as nat, d as nat, opts@),
            start + lcs_walk(am, bm, 0, 0, path@, opts@) == changes_model(out@) + lcs_walk(am, bm, i as nat, j as nat, path@, opts@),
        decreases (n - i) + (m - j),
    {
        let ghost before = changes_model(out@);
        let ghost i0 = i as nat;
        let ghost j0 = j as nat;
        if i < n && j < m {
            if deep_eq(&a[i], &b[j], d, opts) {
                i = i + 1;
                j = j + 1;
            } else {
                let x = rows[n - i - 1][j];
                let y = rows[n - i][j + 1];
                if x >= y {
                    let child = path.child_index(i);
                    emit(&a[i], &child, opts, false, out);
                    i = i + 1;
                } else {
                    let child = path.child_index(j);
                    emit(&b[j], &child, opts, true, out);
                    j = j + 1;
                }
            }
        } else if i < n {
            let child = path.child_index(i);
            emit(&a[i], &child, opts, false, out);
            i = i + 1;
        } else {
            let child = path.child_index(j);
            emit(&b[j], &child, opts, true, out);
            j = j + 1;
        }
        assert(changes_model(out@) + lcs_walk(am, bm, i as nat, j as nat, path@, opts@)
            =~= before + lcs_walk(am, bm, i0, j0, path@, opts@));
    }
    assert(changes_model(out@) + lcs_walk(am, bm, i as nat, j as nat, path@, opts@) =~= changes_model(out@));
}


/// The identity key of `v` under `keys`, if it has one.
fn key_of_value(v: &Value, keys: &Vec<String>) -> (r: Option<Value>)
    ensures
        r matches Some(x) ==> key_of(v@, strings_model_of(keys@)) == Some(x@),
        r is None ==> key_of(v@, strings_model_of(keys@)) is None,
{
    let ghost km = strings_model_of(keys@);
    match v.as_object() {
        None => None,
        Some(m) => {
            let mut idx: usize = 0;
            while idx < keys.len()
                invariant
                    idx <= keys@.len(),
                    km == strings_model_of(keys@),
                    v@ == ValueModel::Object(m@),
                    key_of(v@, km) == key_of_from(v@, km, idx as nat),
                decreases keys@.len() - idx,
            {
                assert(km[idx as int] == keys@[idx as int]@);
                match m.get(keys[idx].as_str()) {
                    Some(x) => {
                        if x.is_scalar() {
                            return Some(x.clone());
                        }
                    },
                    None => {},
                }
                idx = idx + 1;
            }
            None
        },
    }
}

/// Whether two identity keys are equal.
fn key_eq(x: &Value, y: &Value) -> (r: bool)
    requires
        spec_is_scalar(x@),
        spec_is_scalar(y@),
    ensures
        r == key_equal(x@, y@),
{
    match (x, y) {
        (Value::Float(p), Value::Float(q)) => !is_nan(p.bits()) && !is_nan(q.bits()) && exact_eq(p.bits(), q.bits()),
        (Value::Null, Value::Null) => true,
        (Value::Bool(p), Value::Bool(q)) => *p == *q,
        (Value::Integer(p), Value::Integer(q)) => *p == *q,
        (Value::String(p), Value::String(q)) => str_equal(p.as_str(), q.as_str()),
        _ => false,
    }
}

/// The models of the keyed table.
pub open spec fn table_model(t: Seq<(Value, usize)>) -> Seq<(ValueModel, nat)> {
    Seq::new(t.len(), |i: int| (t[i].0@, t[i].1 as nat))
}

proof fn lemma_key_of_scalar(v: ValueModel, keys: Seq<Seq<char>>, idx: nat)
    ensures
        key_of_from(v, keys, idx) matches Some(k) ==> spec_is_scalar(k),
    decreases keys.len() - idx,
{
    if idx < keys.len() && v is Object {
        lemma_key_of_scalar(v, keys, idx + 1);
    }
}

proof fn lemma_table_entries(b: Seq<ValueModel>, keys: Seq<Seq<char>>, k: nat)
    ensures
        forall|t: int| 0 <= t < keyed_table(b, keys, k).len() ==> {
            &&& (#[trigger] keyed_table(b, keys, k)[t]).1 < k
            &&& keyed_table(b, keys, k)[t].1 < b.len()
            &&& spec_is_scalar(keyed_table(b, keys, k)[t].0)
        },
    decreases k,
{
    if k > 0 && k <= b.len() {
        lemma_table_entries(b, keys, (k - 1) as nat);
        lemma_key_of_scalar(b[k - 1], keys, 0);
        let prev = keyed_table(b, keys, (k - 1) as nat);
        assert forall|t: int| 0 <= t < keyed_table(b, keys, k).len() implies {
            &&& (#[trigger] keyed_table(b, keys, k)[t]).1 < k
            &&& keyed_table(b, keys, k)[t].1 < b.len()
            &&& spec_is_scalar(keyed_table(b, keys, k)[t].0)
        } by {
            if t < prev.len() {
                assert(keyed_table(b, keys, k)[t] == prev[t]);
            }
        }
    }
}

/// The first unused table entry whose key equals `key`.
fn find_unused(table: &Vec<(Value, usize)>, used: &Vec<bool>, key: &Value) -> (r: Option<usize>)
    requires
        used@.len() == table@.len(),
        spec_is_scalar(key@),
        forall|t: int| 0 <= t < table@.len() ==> spec_is_scalar(#[trigger] table@[t].0@),
    ensures
        r matches Some(t) ==> first_unused(table_model(table@), used@, key@, 0) == Some(t as nat)
            && t < table@.len(),
        r is None ==> first_unused(table_model(table@), used@, key@, 0) is None,
{
    let ghost tm = table_model(table@);
    let mut t: usize = 0;
    while t < table.len()
        invariant
            t <= table@.len(),
            used@.len() == table@.len(),
            tm == table_model(table@),
            spec_is_scalar(key@),
            forall|u: int| 0 <= u < table@.len() ==> spec_is_scalar(#[trigger] table@[u].0@),
            first_unused(tm, used@, key@, 0) == first_unused(tm, used@, key@, t as nat),
        decreases table@.len() - t,
    {
        assert(tm[t as int] == (table@[t as int].0@, table@[t as int].1 as nat));
        if !used[t] && key_eq(&table[t].0, key) {
            return Some(t);
        }
        t = t + 1;
    }
    None
}

/// A row of `len` falses.
fn falses(len: usize) -> (r: Vec<bool>)
    ensures
        r@ == Seq::new(len as nat, |t: int| false),
{
    let mut r: Vec<bool> = Vec::new();
    let mut k: usize = 0;
    while k < len
        invariant
            k <= len,
            r@ == Seq::new(k as nat, |t: int| false),
        decreases len - k,
    {
        r.push(false);
        k = k + 1;
        assert(r@ =~= Seq::new(k as nat, |t: int| false));
    }
    r
}

/// Key-based matching of two arrays by `keys`.
#[verifier::spinoff_prover]
fn diff_keyed(a: &Vec<Value>, b: &Vec<Value>, keys: &Vec<String>, path: &Path, opts: &DiffOptions, out: &mut Vec<Change>)
    requires
        path@.len() < MAX_DEPTH,
    ensures
        changes_model(final(out)@) == changes_model(old(out)@)
            + keyed_spec(values_model(a@), values_model(b@), strings_model_of(keys@), path@, opts@),
    decreases values_model(a@), a@.len() + 1,
{
    let ghost am = values_model(a@);
    let ghost bm = values_model(b@);
    let ghost km = strings_model_of(keys@);
    let ghost start = changes_model(out@);
    let n = a.len();
    let m = b.len();

    let mut table: Vec<(Value, usize)> = Vec::new();
    let mut j: usize = 0;
    assert(table_model(table@) =~= keyed_table(bm, km, 0));
    while j < m
        invariant
            j <= m,
            m == b@.len(),
            bm == values_model(b@),
            km == strings_model_of(keys@),
            table_model(table@) == keyed_table(bm, km, j as nat),
        decreases m - j,
    {
        match key_of_value(&b[j], keys) {
            Some(k) => {
                table.push((k, j));
            },
            None => {},
        }
        j = j + 1;
        assert(table_model(table@) =~= keyed_table(bm, km, j as nat));
    }
    let ghost tm = table_model(table@);
    proof {
        lemma_table_entries(bm, km, m as nat);
        assert forall|t: int| 0 <= t < table@.len() implies spec_is_scalar(#[trigger] table@[t].0@) && table@[t].1 < m by {
            assert(tm[t] == (table@[t].0@, table@[t].1 as nat));
        }
    }

    let mut used = falses(table.len());
    let mut i: usize = 0;
    assert(tm.len() == table@.len());
    assert(changes_model(out@) =~= start + keyed_pass(am, bm, km, tm, path@, opts@, 0).0);
    while i < n
        invariant
            i <= n,
            n == a@.len(),
            m == b@.len(),
            am == values_model(a@),
            bm == values_model(b@),
            km == strings_model_of(keys@),
            tm == table_model(table@),
            forall|t: int| 0 <= t < table@.len() ==> spec_is_scalar(#[trigger] table@[t].0@) && table@[t].1 < m,
            path@.len() < MAX_DEPTH,
            used@ == keyed_pass(am, bm, km, tm, path@, opts@, i as nat).1,
            used@.len() == table@.len(),
            changes_model(out@) == start + keyed_pass(am, bm, km, tm, path@, opts@, i as nat).0,
        decreases n - i,
    {
        let ghost before = changes_model(out@);
        assert(am[i as int] == a@[i as int]@);
        let child = path.child_index(i);
        proof {
            assert(decreases_to!(am => am[i as int]));
        }
        match key_of_value(&a[i], keys) {
            Some(ak) => {
                proof {
                    lemma_key_of_scalar(am[i as int], km, 0);
                }
                match find_unused(&table, &used, &ak) {
                    Some(t) => {
                        used.set(t, true);
                        let bi = table[t].1;
                        assert(spec_is_scalar(table@[t as int].0@) && table@[t as int].1 < m);
                        assert(tm[t as int].1 == bi as nat);
                        assert(bm[bi as int] == b@[bi as int]@);
                        diff_values(&a[i], &b[bi], &child, opts, out);
                    },
                    None => {
                        emit(&a[i], &child, opts, false, out);
                    },
                }
            },
            None => {
                emit(&a[i], &child, opts, false, out);
            },
        }
        i = i + 1;
        assert(changes_model(out@) =~= start + keyed_pass(am, bm, km, tm, path@, opts@, i as nat).0);
        proof {
            lemma_used_len(am, bm, km, tm, path@, opts@, i as nat);
        }
    }
    let ghost used_final = used@;

    let mut consumed_at = falses(m);
    let mut t: usize = 0;
    while t < table.len()
        invariant
            t <= table@.len(),
            m == b@.len(),
            used@ == used_final,
            used@.len() == table@.len(),
            tm == table_model(table@),
            forall|u: int| 0 <= u < table@.len() ==> spec_is_scalar(#[trigger] table@[u].0@) && table@[u].1 < m,
            consumed_at@.len() == m,
            forall|jj: int| 0 <= jj < m ==> (#[trigger] consumed_at@[jj] <==>
                exists|u: int| 0 <= u < t && used@[u] && tm[u].1 == jj),
        decreases table@.len() - t,
    {
        if used[t] {
            let bi = table[t].1;
            assert(spec_is_scalar(table@[t as int].0@) && table@[t as int].1 < m);
            consumed_at.set(bi, true);
        }
        t = t + 1;
        assert forall|jj: int| 0 <= jj < m implies (#[trigger] consumed_at@[jj] <==>
            exists|u: int| 0 <= u < t && used@[u] && tm[u].1 == jj) by {
            if consumed_at@[jj] && !(jj == tm[t - 1].1 && used@[t - 1]) {
                let u = choose|u: int| 0 <= u < t - 1 && used@[u] && tm[u].1 == jj;
                assert(0 <= u < t && used@[u] && tm[u].1 == jj);
            }
            if jj == tm[t - 1].1 && used@[t - 1] {
                assert(0 <= t - 1 < t && used@[t - 1] && tm[t - 1].1 == jj);
            }
        }
    }
    assert(used_final == keyed_pass(am, bm, km, tm, path@, opts@, n as nat).1);
    assert(used_final.len() == tm.len()) by {
        lemma_used_len(am, bm, km, tm, path@, opts@, n as nat);
    }

    let ghost mid = changes_model(out@);
    let mut j2: usize = 0;
    while j2 < m
        invariant
            j2 <= m,
            m == b@.len(),
            bm == values_model(b@),
            used_final.len() == tm.len(),
            consumed_at@.len() == m,
            forall|jj: int| 0 <= jj < m ==> (#[trigger] consumed_at@[jj] <==> consumed(tm, used_final, jj as nat)),
            changes_model(out@) == mid + keyed_added(bm, tm, used_final, path@, opts@, j2 as nat),
        decreases m - j2,
    {
        if !consumed_at[j2] {
            let child = path.child_index(j2);
            emit(&b[j2], &child, opts, true, out);
        }
        j2 = j2 + 1;
        assert(changes_model(out@) =~= mid + keyed_added(bm, tm, used_final, path@, opts@, j2 as nat));
    }
    assert(changes_model(out@) =~= start + keyed_spec(am, bm, km, path@, opts@));
}

proof fn lemma_first_unused(table: Seq<(ValueModel, nat)>, used: Seq<bool>, key: ValueModel, t: nat)
    ensures
        first_unused(table, used, key, t) matches Some(x) ==> t <= x < table.len() && !used[x as int],
    decreases table.len() - t,
{
    if t < table.len() {
        lemma_first_unused(table, used, key, t + 1);
    }
}

proof fn lemma_used_len(a: Seq<ValueModel>, b: Seq<ValueModel>, keys: Seq<Seq<char>>, table: Seq<(ValueModel, nat)>, path: Seq<SegmentModel>, o: OptionsModel, k: nat)
    ensures
        keyed_pass(a, b, keys, table, path, o, k).1.len() == table.len(),
    decreases k,
{
    if k > 0 && k <= a.len() {
        lemma_used_len(a, b, keys, table, path, o, (k - 1) as nat);
        let (out, used) = keyed_pass(a, b, keys, table, path, o, (k - 1) as nat);
        match key_of(a[k - 1], keys) {
            Some(ak) => {
                lemma_first_unused(table, used, ak, 0);
            },
            None => {},
        }
    } else {
        assert(keyed_pass(a, b, keys, table, path, o, k).1 == Seq::new(table.len(), |t: int| false));
    }
}

/// The identity key the `Auto` strategy uses for two arrays, if one fits.
#[verifier::spinoff_prover]
fn infer_key(a: &Vec<Value>, b: &Vec<Value>) -> (r: Option<String>)
    ensures
        r matches Some(k) ==> auto_key(values_model(a@), values_model(b@)) == Some(k@),
        r is None ==> auto_key(values_model(a@), values_model(b@)) is None,
{
    let ghost am = values_model(a@);
    let ghost bm = values_model(b@);
    let cands: Vec<Vec<char>> = vec![vec!['i', 'd'], vec!['n', 'a', 'm', 'e'], vec!['k', 'e', 'y']];
    assert(cands@[0]@ == candidate_keys()[0]);
    assert(cands@[1]@ == candidate_keys()[1]);
    assert(cands@[2]@ == candidate_keys()[2]);
    let mut c: usize = 0;
    while c < cands.len()
        invariant
            c <= 3,
            cands@.len() == 3,
            forall|x: int| 0 <= x < 3 ==> (#[trigger] cands@[x])@ == candidate_keys()[x],
            am == values_model(a@),
            bm == values_model(b@),
            auto_key(am, bm) == auto_key_from(am, bm, c as nat),
        decreases 3 - c,
    {
        let key = crate::text::string_from_chars(&cands[c]);
        let keys = vec![key];
        assert(strings_model_of(keys@) =~= seq![candidate_keys()[c as int]]);
        if all_keyed(a, &keys) && all_keyed(b, &keys) {
            let k = crate::text::string_from_chars(&cands[c]);
            return Some(k);
        }
        c = c + 1;
    }
    None
}

/// Whether every element has an identity key under `keys`.
fn all_keyed(s: &Vec<Value>, keys: &Vec<String>) -> (r: bool)
    requires
        keys@.len() == 1,
    ensures
        r == key_fits(values_model(s@), keys@[0]@),
{
    assert(strings_model_of(keys@) =~= seq![keys@[0]@]);
    let mut i: usize = 0;
    while i < s.len()
        invariant
            i <= s@.len(),
            keys@.len() == 1,
            strings_model_of(keys@) == seq![keys@[0]@],
            forall|x: int| 0 <= x < i ==> key_of(#[trigger] values_model(s@)[x], seq![keys@[0]@]) is Some,
        decreases s@.len() - i,
    {
        assert(values_model(s@)[i as int] == s@[i as int]@);
        if key_of_value(&s[i], keys).is_none() {
            assert(key_of(values_model(s@)[i as int], seq![keys@[0]@]) is None);
            return false;
        }
        i = i + 1;
    }
    assert forall|x: int| 0 <= x < values_model(s@).len() implies key_of(#[trigger] values_model(s@)[x], seq![keys@[0]@]) is Some by {
    }
    true
}

} // verus!
