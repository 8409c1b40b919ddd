//! Options controlling how strictly two documents are compared.

use vstd::prelude::*;
use crate::error::Error;
use crate::glob::{builder_add, builder_build, builder_new, builder_patterns, glob_accepts, glob_new, set_builds, set_is_match, set_patterns, glob_matches};

verus! {

/// How the elements of two arrays are paired up.
#[derive(Debug, Clone, Copy, PartialEq, Eq, Structural)]
pub enum ArrayStrategy {
    /// Match arrays of objects by an inferred identity key (`id`, `name` or
    /// `key`, the first that every element carries as a scalar), falling back
    /// to `Lcs` when none fits. The default.
    Auto,
    /// Longest-common-subsequence matching: equal elements are anchored and
    /// the rest reported as removals and additions.
    Lcs,
    /// Element `i` is compared with element `i`.
    Positional,
    /// Objects are matched by the first of `array_keys` they carry as a
    /// scalar; with no keys configured this is `Lcs`.
    Keyed,
}

impl Default for ArrayStrategy {
    fn default() -> (r: Self)
        ensures
            r == ArrayStrategy::Auto,
    {
        ArrayStrategy::Auto
    }
}

/// The mathematical form of the options: what the diff engine's contracts
/// speak of.
pub ghost struct OptionsModel {
    pub numbers_loose: bool,
    pub float_tolerance: Option<u64>,
    pub ignore: Seq<Seq<char>>,
    pub array_strategy: ArrayStrategy,
    pub array_keys: Seq<Seq<char>>,
    pub expand: bool,
}

/// Options controlling a diff.
#[derive(Debug, Clone)]
pub struct DiffOptions {
    /// Treat an integer and a float of equal value as equal (`1 == 1.0`).
    pub numbers_loose: bool,
    /// Absolute tolerance for comparing numbers, as the bit pattern of an
    /// `f64`.
    pub float_tolerance: Option<u64>,
    /// The compiled ignore patterns; only `ignore` sets them, so every set
    /// held here was built from globs that `glob_new` compiled.
    ignore: Option<globset::GlobSet>,
    /// How array elements are paired.
    pub array_strategy: ArrayStrategy,
    /// Key fields for matching array elements (`Keyed`).
    pub array_keys: Vec<String>,
    /// Report each leaf of an added or removed subtree on its own.
    pub expand: bool,
}

/// The texts of a list of strings.
pub open spec fn strings_model(v: Seq<String>) -> Seq<Seq<char>> {
    v.map_values(|s: String| s@)
}

impl View for DiffOptions {
    type V = OptionsModel;

    closed spec fn view(&self) -> OptionsModel {
        OptionsModel {
            numbers_loose: self.numbers_loose,
            float_tolerance: self.float_tolerance,
            ignore: self.spec_ignore(),
            array_strategy: self.array_strategy,
            array_keys: strings_model(self.array_keys@),
            expand: self.expand,
        }
    }
}

impl Default for DiffOptions {
    fn default() -> (r: Self)
        ensures
            !r@.numbers_loose,
            r@.float_tolerance is None,
            r@.ignore == Seq::<Seq<char>>::empty(),
            r@.array_strategy == ArrayStrategy::Auto,
            r@.array_keys == Seq::<Seq<char>>::empty(),
            !r@.expand,
    {
        let r = DiffOptions {
            numbers_loose: false,
            float_tolerance: None,
            ignore: None,
            array_strategy: ArrayStrategy::Auto,
            array_keys: Vec::new(),
            expand: false,
        };
        assert(strings_model(r.array_keys@) =~= Seq::<Seq<char>>::empty());
        r
    }
}

impl DiffOptions {
    /// The ignore patterns in force.
    spec fn spec_ignore(&self) -> Seq<Seq<char>> {
        match self.ignore {
            Some(s) => set_patterns(s),
            None => Seq::empty(),
        }
    }

    /// Whether integers and floats of equal value compare equal.
    pub(crate) fn loose(&self) -> (r: bool)
        ensures
            r == self@.numbers_loose,
    {
        self.numbers_loose
    }

    /// The absolute tolerance for numbers, if any.
    pub(crate) fn tolerance(&self) -> (r: Option<u64>)
        ensures
            r == self@.float_tolerance,
    {
        self.float_tolerance
    }

    /// The array strategy in force.
    pub(crate) fn strategy(&self) -> (r: ArrayStrategy)
        ensures
            r == self@.array_strategy,
    {
        self.array_strategy
    }

    /// The configured key fields.
    pub(crate) fn keys(&self) -> (r: &Vec<String>)
        ensures
            strings_model(r@) == self@.array_keys,
    {
        &self.array_keys
    }

    /// Whether added and removed subtrees are reported leaf by leaf.
    pub(crate) fn expands(&self) -> (r: bool)
        ensures
            r == self@.expand,
    {
        self.expand
    }

    /// Sets whether integers and floats of equal value compare equal.
    pub fn numbers_loose(self, yes: bool) -> (r: Self)
        ensures
            r@ == (OptionsModel { numbers_loose: yes, ..self@ }),
    {
        let mut s = self;
        s.numbers_loose = yes;
        s
    }

    /// Sets the absolute tolerance for comparing numbers (an `f64` bit
    /// pattern).
    pub fn float_tolerance(self, tol: Option<u64>) -> (r: Self)
        ensures
            r@ == (OptionsModel { float_tolerance: tol, ..self@ }),
    {
        let mut s = self;
        s.float_tolerance = tol;
        s
    }

    /// Sets the array strategy.
    pub fn array_strategy(self, strategy: ArrayStrategy) -> (r: Self)
        ensures
            r@ == (OptionsModel { array_strategy: strategy, ..self@ }),
    {
        let mut s = self;
        s.array_strategy = strategy;
        s
    }

    /// Sets the key fields for matching array elements.
    pub fn array_keys(self, keys: Vec<String>) -> (r: Self)
        ensures
            r@ == (OptionsModel { array_keys: strings_model(keys@), ..self@ }),
    {
        let mut s = self;
        s.array_keys = keys;
        s
    }

    /// Sets whether added and removed subtrees are reported leaf by leaf.
    pub fn expand(self, yes: bool) -> (r: Self)
        ensures
            r@ == (OptionsModel { expand: yes, ..self@ }),
    {
        let mut s = self;
        s.expand = yes;
        s
    }

    /// Compiles ignore globs; patterns match the `/`-joined path form, with
    /// `*` and `?` staying within one segment and `**` spanning segments. The
    /// patterns replace any set before; an empty list ignores nothing.
    ///
    /// Fails with `Error::Glob` when a pattern is not a valid glob, or when
    /// the patterns cannot be combined into one matcher.
    pub fn ignore(self, patterns: &[&str]) -> (r: Result<Self, Error>)
        ensures
            r is Ok <==> (forall|i: int| 0 <= i < patterns@.len() ==> glob_accepts(#[trigger] patterns@[i]@))
                && (patterns@.len() > 0 ==> set_builds(patterns@.map_values(|p: &str| p@))),
            r matches Ok(o) ==> o@ == (OptionsModel { ignore: patterns@.map_values(|p: &str| p@), ..self@ }),
            r matches Err(e) ==> e is Glob,
    {
        let ghost pats = patterns@.map_values(|p: &str| p@);
        let mut builder = builder_new();
        let mut i: usize = 0;
        while i < patterns.len()
            invariant
                i <= patterns@.len(),
                pats == patterns@.map_values(|p: &str| p@),
                builder_patterns(builder) == pats.subrange(0, i as int),
                forall|j: int| 0 <= j < i ==> glob_accepts(#[trigger] patterns@[j]@),
            decreases patterns.len() - i,
        {
            match glob_new(patterns[i]) {
                Ok(g) => builder_add(&mut builder, g),
                Err(e) => return Err(Error::Glob(e)),
            }
            i = i + 1;
            assert(builder_patterns(builder) =~= pats.subrange(0, i as int));
        }
        assert(pats.subrange(0, pats.len() as int) =~= pats);
        let mut s = self;
        if patterns.len() == 0 {
            s.ignore = None;
            assert(s@.ignore =~= pats);
            Ok(s)
        } else {
            match builder_build(&builder) {
                Ok(set) => {
                    s.ignore = Some(set);
                    Ok(s)
                },
                Err(e) => Err(Error::Glob(e)),
            }
        }
    }

    /// Whether a path, in its `/`-joined form, matches an ignore pattern.
    pub fn is_ignored(&self, match_string: &str) -> (r: bool)
        ensures
            r == (exists|i: int|
                0 <= i < self@.ignore.len() && glob_matches(#[trigger] self@.ignore[i], match_string@)),
    {
        match &self.ignore {
            Some(set) => set_is_match(set, match_string),
            None => false,
        }
    }
}

} // verus!
