//! The format-agnostic value model that every input is parsed into.
//!
//! Every supported format becomes one `Value` tree, so the diff engine never has
//! to care which format a document came from. Object key order is kept: a
//! `ValueMap` lists its entries in insertion order, each key at most once.

use vstd::prelude::*;
use crate::text::{debug_quoted, decimal, push_char, push_debug_quoted, push_decimal, push_signed_decimal, push_str, signed_decimal, str_equal};

verus! {

/// A 64-bit floating point number, held as its IEEE 754 bit pattern together
/// with the text it is displayed as (its shortest round-trip decimal form).
#[derive(Debug, PartialEq)]
pub struct Float {
    bits: u64,
    text: String,
}

impl Float {
    /// A float from its bit pattern and its displayed text.
    pub fn new(bits: u64, text: String) -> (f: Float)
        ensures
            f.spec_bits() == bits,
            f.spec_text() == text@,
    {
        Float { bits, text }
    }

    pub closed spec fn spec_bits(&self) -> u64 {
        self.bits
    }

    pub closed spec fn spec_text(&self) -> Seq<char> {
        self.text@
    }

    /// The IEEE 754 bit pattern.
    pub fn bits(&self) -> (r: u64)
        ensures
            r == self.spec_bits(),
    {
        self.bits
    }

    /// The displayed text.
    pub fn text(&self) -> (r: &str)
        ensures
            r@ == self.spec_text(),
    {
        self.text.as_str()
    }
}

impl Clone for Float {
    fn clone(&self) -> (r: Self)
        ensures
            r.spec_bits() == self.spec_bits(),
            r.spec_text() == self.spec_text(),
    {
        Float { bits: self.bits, text: self.text.clone() }
    }
}

/// A single node in a parsed configuration document.
///
/// Numbers are split into `Integer` and `Float` so the diff engine can,
/// optionally, treat `1` and `1.0` as different (a type change) or equal.
#[derive(Debug, PartialEq)]
pub enum Value {
    /// A null / nil value.
    Null,
    /// A boolean.
    Bool(bool),
    /// A signed 64-bit integer.
    Integer(i64),
    /// A 64-bit floating point number.
    Float(Float),
    /// A string. TOML datetimes are represented here in RFC 3339 form.
    String(String),
    /// An ordered sequence of values.
    Array(Vec<Value>),
    /// An ordered map of string keys to values.
    Object(ValueMap),
}

/// An ordered string-keyed map: entries stay in insertion order and each key
/// occurs at most once.
#[derive(Debug, PartialEq)]
pub struct ValueMap {
    entries: Vec<(String, Value)>,
}

/// The mathematical form of a value: what the diff engine's contracts speak
/// of. A float is its bit pattern and its displayed text.
pub ghost enum ValueModel {
    Null,
    Bool(bool),
    Integer(i64),
    Float(u64, Seq<char>),
    String(Seq<char>),
    Array(Seq<ValueModel>),
    Object(Seq<(Seq<char>, ValueModel)>),
}

/// The model of a value.
pub closed spec fn model_of(v: Value) -> ValueModel
    decreases v,
{
    match v {
        Value::Null => ValueModel::Null,
        Value::Bool(b) => ValueModel::Bool(b),
        Value::Integer(i) => ValueModel::Integer(i),
        Value::Float(f) => ValueModel::Float(f.spec_bits(), f.spec_text()),
        Value::String(s) => ValueModel::String(s@),
        Value::Array(a) => ValueModel::Array(
            Seq::new(a@.len(), |i: int| if 0 <= i < a@.len() { model_of(a@[i]) } else { ValueModel::Null }),
        ),
        Value::Object(m) => ValueModel::Object(
            Seq::new(
                m.entries@.len(),
                |i: int|
                    if 0 <= i < m.entries@.len() {
                        (m.entries@[i].0@, model_of(m.entries@[i].1))
                    } else {
                        (Seq::empty(), ValueModel::Null)
                    },
            ),
        ),
    }
}

impl View for Value {
    type V = ValueModel;

    open spec fn view(&self) -> ValueModel {
        model_of(*self)
    }
}

/// The model of a value, one level down: scalars carry their contents,
/// containers the models of their children.
pub broadcast proof fn lemma_value_model(v: Value)
    ensures
        #[trigger] model_of(v) == match v {
            Value::Null => ValueModel::Null,
            Value::Bool(b) => ValueModel::Bool(b),
            Value::Integer(i) => ValueModel::Integer(i),
            Value::Float(f) => ValueModel::Float(f.spec_bits(), f.spec_text()),
            Value::String(s) => ValueModel::String(s@),
            Value::Array(a) => ValueModel::Array(values_model(a@)),
            Value::Object(m) => ValueModel::Object(m@),
        },
{
    match v {
        Value::Array(a) => {
            assert(model_of(v)->Array_0 =~= values_model(a@));
        },
        Value::Object(m) => {
            assert(model_of(v)->Object_0 =~= m@);
        },
        _ => {},
    }
}

/// The models of a run of values.
pub open spec fn values_model(s: Seq<Value>) -> Seq<ValueModel> {
    Seq::new(s.len(), |i: int| s[i]@)
}

/// The models of a run of entries.
pub open spec fn entries_model(s: Seq<(String, Value)>) -> Seq<(Seq<char>, ValueModel)> {
    Seq::new(s.len(), |i: int| (s[i].0@, s[i].1@))
}

impl View for ValueMap {
    type V = Seq<(Seq<char>, ValueModel)>;

    closed spec fn view(&self) -> Seq<(Seq<char>, ValueModel)> {
        entries_model(self.entries@)
    }
}

/// Whether no key occurs twice in a list of entries.
pub open spec fn keys_unique(entries: Seq<(Seq<char>, ValueModel)>) -> bool {
    forall|i: int, j: int|
        0 <= i < entries.len() && 0 <= j < entries.len() && i != j
            ==> (#[trigger] entries[i]).0 != (#[trigger] entries[j]).0
}

/// The index of the entry whose key is `key`, searching from the front.
pub open spec fn find_key(entries: Seq<(Seq<char>, ValueModel)>, key: Seq<char>) -> Option<int>
    decreases entries.len(),
{
    if entries.len() == 0 {
        None
    } else {
        match find_key(entries.drop_last(), key) {
            Some(i) => Some(i),
            None => if entries.last().0 == key {
                Some(entries.len() - 1)
            } else {
                None
            },
        }
    }
}

pub proof fn lemma_find_key(entries: Seq<(Seq<char>, ValueModel)>, key: Seq<char>)
    ensures
        find_key(entries, key) matches Some(i) ==> {
            &&& 0 <= i < entries.len()
            &&& entries[i].0 == key
            &&& forall|j: int| 0 <= j < i ==> (#[trigger] entries[j]).0 != key
        },
        find_key(entries, key) is None ==> forall|j: int|
            0 <= j < entries.len() ==> (#[trigger] entries[j]).0 != key,
    decreases entries.len(),
{
    if entries.len() > 0 {
        lemma_find_key(entries.drop_last(), key);
        assert(forall|j: int| 0 <= j < entries.len() - 1 ==> entries.drop_last()[j] == entries[j]);
    }
}

/// A key that is present is found at its one position.
pub proof fn lemma_find_key_unique(entries: Seq<(Seq<char>, ValueModel)>, i: int)
    requires
        keys_unique(entries),
        0 <= i < entries.len(),
    ensures
        find_key(entries, entries[i].0) == Some(i),
{
    lemma_find_key(entries, entries[i].0);
}

/// The entries after inserting `value` under `key`: an existing key keeps
/// its position and takes the new value; a new key goes at the end.
pub open spec fn map_insert(
    entries: Seq<(Seq<char>, ValueModel)>,
    key: Seq<char>,
    value: ValueModel,
) -> Seq<(Seq<char>, ValueModel)> {
    match find_key(entries, key) {
        Some(i) => entries.update(i, (key, value)),
        None => entries.push((key, value)),
    }
}

/// A read after a write: after inserting `value` under `key`, the key is
/// found bound to `value`; any other key is found where it was, bound to what
/// it was; and no key occurs twice if none did before.
pub proof fn law_insert_then_find(
    entries: Seq<(Seq<char>, ValueModel)>,
    key: Seq<char>,
    value: ValueModel,
    other: Seq<char>,
)
    requires
        keys_unique(entries),
    ensures
        keys_unique(map_insert(entries, key, value)),
        find_key(map_insert(entries, key, value), key) matches Some(i) && map_insert(entries, key, value)[i] == (key, value),
        other != key ==> find_key(map_insert(entries, key, value), other) == find_key(entries, other),
        other != key ==> (find_key(entries, other) matches Some(j) ==> map_insert(entries, key, value)[j] == entries[j]),
{
    let after = map_insert(entries, key, value);
    lemma_find_key(entries, key);
    lemma_find_key(entries, other);
    lemma_find_key(after, key);
    lemma_find_key(after, other);
    match find_key(entries, key) {
        Some(i) => {
            assert(after == entries.update(i, (key, value)));
            lemma_find_key_unique(after, i);
        },
        None => {
            assert(after == entries.push((key, value)));
            lemma_find_key_unique(after, entries.len() as int);
        },
    }
    if other != key {
        match find_key(entries, other) {
            Some(j) => {
                assert(after[j].0 == other);
                lemma_find_key_unique(after, j);
            },
            None => {
                if let Some(m) = find_key(after, other) {
                    assert(after[m].0 == other);
                    assert(m < entries.len() ==> after[m] == entries[m]);
                    assert(false);
                }
            },
        }
    }
}

impl ValueMap {
    /// Every map keeps its keys distinct.
    #[verifier::type_invariant]
    spec fn unique_keys(self) -> bool {
        keys_unique(entries_model(self.entries@))
    }

    /// An empty map.
    pub fn new() -> (m: ValueMap)
        ensures
            m@ == Seq::<(Seq<char>, ValueModel)>::empty(),
    {
        let m = ValueMap { entries: Vec::new() };
        assert(m@ =~= Seq::<(Seq<char>, ValueModel)>::empty());
        m
    }

    /// A map holding the given entries, in order; their keys are distinct.
    pub(crate) fn from_entries(entries: Vec<(String, Value)>) -> (m: ValueMap)
        requires
            keys_unique(entries_model(entries@)),
        ensures
            m@ == entries_model(entries@),
    {
        ValueMap { entries }
    }

    /// The number of entries.
    pub fn len(&self) -> (r: usize)
        ensures
            r == self@.len(),
    {
        self.entries.len()
    }

    /// Whether the map has no entries.
    pub fn is_empty(&self) -> (r: bool)
        ensures
            r == (self@.len() == 0),
    {
        self.entries.len() == 0
    }

    /// The key at position `i`; no other position holds it.
    pub fn key_at(&self, i: usize) -> (r: &String)
        requires
            i < self@.len(),
        ensures
            r@ == self@[i as int].0,
            keys_unique(self@),
    {
        proof {
            use_type_invariant(self);
        }
        &self.entries[i].0
    }

    /// The value at position `i`.
    pub fn value_at(&self, i: usize) -> (r: &Value)
        requires
            i < self@.len(),
        ensures
            r@ == self@[i as int].1,
    {
        &self.entries[i].1
    }

    /// The position of `key`, if present.
    pub fn index_of(&self, key: &str) -> (r: Option<usize>)
        ensures
            r matches Some(i) ==> find_key(self@, key@) == Some(i as int),
            r is None ==> find_key(self@, key@) is None,
    {
        proof {
            lemma_find_key(self@, key@);
        }
        let mut i: usize = 0;
        while i < self.entries.len()
            invariant
                i <= self@.len(),
                self@.len() == self.entries@.len(),
                forall|j: int| 0 <= j < i ==> (#[trigger] self@[j]).0 != key@,
                find_key(self@, key@) matches Some(k) ==> {
                    &&& 0 <= k < self@.len()
                    &&& self@[k].0 == key@
                    &&& forall|j: int| 0 <= j < k ==> (#[trigger] self@[j]).0 != key@
                },
                find_key(self@, key@) is None ==> forall|j: int|
                    0 <= j < self@.len() ==> (#[trigger] self@[j]).0 != key@,
            decreases self.entries.len() - i,
        {
            assert(self@[i as int].0 == self.entries@[i as int].0@);
            if str_equal(self.entries[i].0.as_str(), key) {
                return Some(i);
            }
            i = i + 1;
        }
        None
    }

    /// The value under `key`, if present.
    pub fn get(&self, key: &str) -> (r: Option<&Value>)
        ensures
            r matches Some(v) ==> find_key(self@, key@) matches Some(i) && v@ == self@[i].1,
            r is None ==> find_key(self@, key@) is None,
    {
        match self.index_of(key) {
            Some(i) => {
                proof {
                    lemma_find_key(self@, key@);
                }
                Some(&self.entries[i].1)
            },
            None => None,
        }
    }

    /// Whether `key` is present.
    pub fn contains_key(&self, key: &str) -> (r: bool)
        ensures
            r == find_key(self@, key@) is Some,
    {
        self.index_of(key).is_some()
    }

    /// Inserts `value` under `key`. An existing key keeps its position and
    /// gets the new value, and the old value is returned; a new key is
    /// appended at the end.
    pub fn insert(&mut self, key: String, value: Value) -> (r: Option<Value>)
        ensures
            match find_key(old(self)@, key@) {
                Some(i) => {
                    &&& final(self)@ == old(self)@.update(i, (key@, value@))
                    &&& r matches Some(v) && v@ == old(self)@[i].1
                },
                None => {
                    &&& final(self)@ == old(self)@.push((key@, value@))
                    &&& r is None
                },
            },
            final(self)@ == map_insert(old(self)@, key@, value@),
            keys_unique(final(self)@),
    {
        proof {
            use_type_invariant(&*self);
            lemma_find_key(self@, key@);
        }
        let found = self.index_of(key.as_str());
        let mut entries: Vec<(String, Value)> = Vec::new();
        std::mem::swap(&mut entries, &mut self.entries);
        assert(entries_model(entries@) == old(self)@);
        let r = match found {
            Some(i) => {
                let (k, old_value) = entries.remove(i);
                entries.insert(i, (k, value));
                assert(entries_model(entries@) =~= old(self)@.update(i as int, (key@, value@)));
                Some(old_value)
            },
            None => {
                entries.push((key, value));
                assert(entries_model(entries@) =~= old(self)@.push((key@, value@)));
                None
            },
        };
        proof {
            let e = entries_model(entries@);
            assert forall|p: int, q: int| 0 <= p < e.len() && 0 <= q < e.len() && p != q
                implies (#[trigger] e[p]).0 != (#[trigger] e[q]).0 by {
                if found is None {
                    if p == e.len() - 1 {
                        assert(old(self)@[q].0 != key@);
                    } else if q == e.len() - 1 {
                        assert(old(self)@[p].0 != key@);
                    } else {
                        assert(e[p] == old(self)@[p] && e[q] == old(self)@[q]);
                    }
                } else {
                    assert(e[p].0 == old(self)@[p].0 && e[q].0 == old(self)@[q].0);
                }
            }
        }
        self.entries = entries;
        r
    }
}

/// Every map in the tree, at any depth, has unique keys.
pub open spec fn well_formed(v: ValueModel) -> bool
    decreases v,
{
    match v {
        ValueModel::Array(a) => forall|i: int| 0 <= i < a.len() ==> well_formed(#[trigger] a[i]),
        ValueModel::Object(m) => {
            &&& keys_unique(m)
            &&& forall|i: int| 0 <= i < m.len() ==> well_formed(#[trigger] m[i].1)
        },
        _ => true,
    }
}

/// The short name of a value's type used in diff output.
pub open spec fn spec_type_name(v: ValueModel) -> Seq<char> {
    match v {
        ValueModel::Null => seq!['n', 'u', 'l', 'l'],
        ValueModel::Bool(_) => seq!['b', 'o', 'o', 'l', 'e', 'a', 'n'],
        ValueModel::Integer(_) => seq!['i', 'n', 't', 'e', 'g', 'e', 'r'],
        ValueModel::Float(..) => seq!['f', 'l', 'o', 'a', 't'],
        ValueModel::String(_) => seq!['s', 't', 'r', 'i', 'n', 'g'],
        ValueModel::Array(_) => seq!['a', 'r', 'r', 'a', 'y'],
        ValueModel::Object(_) => seq!['o', 'b', 'j', 'e', 'c', 't'],
    }
}

/// Whether a value is a scalar (not an array or an object).
pub open spec fn spec_is_scalar(v: ValueModel) -> bool {
    !(v is Array || v is Object)
}

/// The compact single-line rendering of a value used in diff output: strings
/// are quoted, containers are summarized by their size.
pub open spec fn spec_value_display(v: ValueModel) -> Seq<char> {
    match v {
        ValueModel::Null => seq!['n', 'u', 'l', 'l'],
        ValueModel::Bool(b) => if b { seq!['t', 'r', 'u', 'e'] } else { seq!['f', 'a', 'l', 's', 'e'] },
        ValueModel::Integer(i) => signed_decimal(i as int),
        ValueModel::Float(_, text) => text,
        ValueModel::String(s) => debug_quoted(s),
        ValueModel::Array(a) => seq!['['] + decimal(a.len()) + seq![' ', 'i', 't', 'e', 'm', 's', ']'],
        ValueModel::Object(m) => seq!['{'] + decimal(m.len()) + seq![' ', 'k', 'e', 'y', 's', '}'],
    }
}

impl Value {
    /// A short human-readable name for this value's type (`"string"`,
    /// `"integer"`, `"array"`, ...).
    pub fn type_label(&self) -> (r: &'static str)
        ensures
            r@ == spec_type_name(self@),
    {
        match self {
            Value::Null => {
                proof { reveal_strlit("null"); }
                "null"
            },
            Value::Bool(_) => {
                proof { reveal_strlit("boolean"); }
                "boolean"
            },
            Value::Integer(_) => {
                proof { reveal_strlit("integer"); }
                "integer"
            },
            Value::Float(_) => {
                proof { reveal_strlit("float"); }
                "float"
            },
            Value::String(_) => {
                proof { reveal_strlit("string"); }
                "string"
            },
            Value::Array(_) => {
                proof { reveal_strlit("array"); }
                "array"
            },
            Value::Object(_) => {
                proof { reveal_strlit("object"); }
                "object"
            },
        }
    }

    /// Whether this is a scalar (non-container) value.
    pub fn is_scalar(&self) -> (r: bool)
        ensures
            r == spec_is_scalar(self@),
    {
        match self {
            Value::Array(_) | Value::Object(_) => false,
            _ => true,
        }
    }

    /// The inner map, if this is an object.
    pub fn as_object(&self) -> (r: Option<&ValueMap>)
        ensures
            r matches Some(m) ==> self@ == ValueModel::Object(m@),
            r is None ==> !(self@ is Object),
    {
        match self {
            Value::Object(m) => {
                assert(m@ =~= self@->Object_0);
                Some(m)
            },
            _ => None,
        }
    }

    /// The inner elements, if this is an array.
    pub fn as_array(&self) -> (r: Option<&[Value]>)
        ensures
            r matches Some(a) ==> self@ == ValueModel::Array(values_model(a@)),
            r is None ==> !(self@ is Array),
    {
        match self {
            Value::Array(a) => {
                assert(values_model(a@) =~= self@->Array_0);
                Some(a.as_slice())
            },
            _ => None,
        }
    }

    /// The compact single-line rendering used in diff output.
    pub fn to_string(&self) -> (r: String)
        ensures
            r@ == spec_value_display(self@),
    {
        let mut out = String::new();
        match self {
            Value::Null => {
                push_str(&mut out, "null");
                proof { reveal_strlit("null"); }
            },
            Value::Bool(b) => {
                if *b {
                    push_str(&mut out, "true");
                    proof { reveal_strlit("true"); }
                } else {
                    push_str(&mut out, "false");
                    proof { reveal_strlit("false"); }
                }
            },
            Value::Integer(i) => push_signed_decimal(&mut out, *i),
            Value::Float(f) => push_str(&mut out, f.text()),
            Value::String(s) => push_debug_quoted(&mut out, s.as_str()),
            Value::Array(a) => {
                push_char(&mut out, '[');
                push_decimal(&mut out, a.len() as u64);
                push_str(&mut out, " items]");
                proof { reveal_strlit(" items]"); }
            },
            Value::Object(m) => {
                push_char(&mut out, '{');
                push_decimal(&mut out, m.len() as u64);
                push_str(&mut out, " keys}");
                proof { reveal_strlit(" keys}"); }
            },
        }
        out
    }
}

/// Whether the entries are the one-entry table under which the toml crate
/// passes a datetime through serde: the key `$__toml_private_datetime`
/// bound to the datetime's RFC 3339 text.
pub open spec fn is_datetime_wrapper(entries: Seq<(Seq<char>, ValueModel)>) -> bool {
    &&& entries.len() == 1
    &&& entries[0].0 == "$__toml_private_datetime"@
    &&& entries[0].1 is String
}

/// The value an object read from a document stands for: a TOML datetime
/// wrapper becomes the plain string it wraps, so that datetimes compare with
/// strings from other formats; any other object stays an object.
pub open spec fn object_or_datetime(entries: Seq<(Seq<char>, ValueModel)>) -> ValueModel {
    if is_datetime_wrapper(entries) {
        entries[0].1
    } else {
        ValueModel::Object(entries)
    }
}

/// The value of an object read from a document (see `object_or_datetime`).
pub fn object_value(m: ValueMap) -> (v: Value)
    ensures
        v@ == object_or_datetime(m@),
{
    proof {
        lemma_value_model(Value::Object(m));
        if m.entries@.len() == 1 {
            lemma_value_model(m.entries@[0].1);
            assert(m@[0].1 == m.entries@[0].1@);
        }
    }
    if m.entries.len() == 1 && str_equal(m.entries[0].0.as_str(), "$__toml_private_datetime")
        && matches!(m.entries[0].1, Value::String(_)) {
        let ghost before = m@;
        let mut entries = m.entries;
        let popped = entries.pop();
        match popped {
            Some((_, inner)) => {
                assert(inner@ == before[0].1);
                return inner;
            },
            None => {
                return Value::Null;
            },
        }
    }
    Value::Object(m)
}

/// A copy of a value.
#[verifier::loop_isolation(false)]
fn clone_value(v: &Value) -> (r: Value)
    ensures
        r@ == v@,
    decreases v,
{
    match v {
        Value::Null => Value::Null,
        Value::Bool(b) => Value::Bool(*b),
        Value::Integer(i) => Value::Integer(*i),
        Value::Float(f) => Value::Float(f.clone()),
        Value::String(s) => Value::String(s.clone()),
        Value::Array(a) => {
            let mut out: Vec<Value> = Vec::new();
            let mut i: usize = 0;
            while i < a.len()
                invariant
                    i <= a@.len(),
                    out@.len() == i,
                    values_model(out@) == values_model(a@).subrange(0, i as int),
                decreases a.len() - i,
            {
                proof {
                    assert(decreases_to!(*v => *a));
                    assert(decreases_to!(*a => a@));
                    assert(decreases_to!(a@ => a@[i as int]));
                }
                let e = clone_value(&a[i]);
                let ghost before = out@;
                out.push(e);
                i = i + 1;
                assert(values_model(out@) =~= values_model(before).push(a@[i - 1]@));
                assert(values_model(a@).subrange(0, i as int) =~= values_model(a@).subrange(0, i - 1).push(a@[i - 1]@));
            }
            assert(values_model(a@).subrange(0, a@.len() as int) =~= values_model(a@));
            let r = Value::Array(out);
            assert(r@->Array_0 =~= values_model(out@));
            assert(v@->Array_0 =~= values_model(a@));
            r
        },
        Value::Object(m) => {
            let mut out: Vec<(String, Value)> = Vec::new();
            let mut i: usize = 0;
            while i < m.entries.len()
                invariant
                    i <= m.entries@.len(),
                    out@.len() == i,
                    entries_model(out@) == entries_model(m.entries@).subrange(0, i as int),
                decreases m.entries.len() - i,
            {
                proof {
                    assert(decreases_to!(*v => *m));
                    assert(decreases_to!(*m => m.entries));
                    assert(decreases_to!(m.entries => m.entries@));
                    assert(decreases_to!(m.entries@ => m.entries@[i as int]));
                    assert(decreases_to!(m.entries@[i as int] => m.entries@[i as int].1));
                }
                let k = m.entries[i].0.clone();
                let e = clone_value(&m.entries[i].1);
                let ghost before = out@;
                out.push((k, e));
                i = i + 1;
                assert(entries_model(out@) =~= entries_model(before).push((m.entries@[i - 1].0@, m.entries@[i - 1].1@)));
                assert(entries_model(m.entries@).subrange(0, i as int) =~= entries_model(m.entries@).subrange(0, i - 1).push((m.entries@[i - 1].0@, m.entries@[i - 1].1@)));
            }
            assert(entries_model(m.entries@).subrange(0, m.entries@.len() as int) =~= entries_model(m.entries@));
            proof {
                use_type_invariant(m);
            }
            let r = Value::Object(ValueMap { entries: out });
            assert(r@->Object_0 =~= entries_model(out@));
            assert(v@->Object_0 =~= entries_model(m.entries@));
            r
        },
    }
}

impl Clone for Value {
    fn clone(&self) -> (r: Self)
        ensures
            r@ == self@,
    {
        clone_value(self)
    }
}

impl Clone for ValueMap {
    fn clone(&self) -> (r: Self)
        ensures
            r@ == self@,
    {
        let mut out: Vec<(String, Value)> = Vec::new();
        let mut i: usize = 0;
        while i < self.entries.len()
            invariant
                i <= self.entries@.len(),
                out@.len() == i,
                entries_model(out@) == entries_model(self.entries@).subrange(0, i as int),
            decreases self.entries.len() - i,
        {
            let k = self.entries[i].0.clone();
            let e = clone_value(&self.entries[i].1);
            let ghost before = out@;
            out.push((k, e));
            i = i + 1;
            assert(entries_model(out@) =~= entries_model(before).push((self.entries@[i - 1].0@, self.entries@[i - 1].1@)));
            assert(entries_model(self.entries@).subrange(0, i as int) =~= entries_model(self.entries@).subrange(0, i - 1).push((self.entries@[i - 1].0@, self.entries@[i - 1].1@)));
        }
        assert(entries_model(self.entries@).subrange(0, self.entries@.len() as int) =~= entries_model(self.entries@));
        proof {
            use_type_invariant(self);
        }
        ValueMap { entries: out }
    }
}

} // verus!
