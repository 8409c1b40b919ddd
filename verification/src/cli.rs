//! The decisions of the command-line front end: which format to read each
//! input as, which array strategy to use, whether to color the output, and
//! how the outcome maps to an exit status.

use vstd::prelude::*;
use crate::diff::{ChangeKind, Diff, changes_model, kind_index};
use crate::diff_spec::KindModel;
use crate::format::{Format, spec_from_path};
use crate::options::ArrayStrategy;
use crate::path::SegmentModel;
use crate::text::{push_str, str_equal};

verus! {

/// A kind of change that can be made to fail a run (`--fail-on`).
#[derive(Debug, Clone, Copy, PartialEq, Eq, Structural)]
pub enum FailKind {
    Added,
    Removed,
    Changed,
    TypeChanged,
}

/// The kind of change a gate stands for, numbered as `kind_index` numbers
/// the kinds of a change.
pub open spec fn fail_index(f: FailKind) -> nat {
    match f {
        FailKind::Added => 0,
        FailKind::Removed => 1,
        FailKind::Changed => 2,
        FailKind::TypeChanged => 3,
    }
}

impl FailKind {
    /// Whether a change is of this kind.
    pub fn matches(self, kind: &ChangeKind) -> (r: bool)
        ensures
            r == (fail_index(self) == kind_index(kind@)),
    {
        match (self, kind) {
            (FailKind::Added, ChangeKind::Added { .. }) => true,
            (FailKind::Removed, ChangeKind::Removed { .. }) => true,
            (FailKind::Changed, ChangeKind::Changed { .. }) => true,
            (FailKind::TypeChanged, ChangeKind::TypeChanged { .. }) => true,
            _ => false,
        }
    }
}

/// Whether some change is of a kind listed among the gates.
pub open spec fn gate_hit(d: Seq<(Seq<SegmentModel>, KindModel)>, gates: Seq<FailKind>) -> bool {
    exists|i: int, j: int| 0 <= i < d.len() && 0 <= j < gates.len() && #[trigger] fail_index(gates[j]) == #[trigger] kind_index(d[i].1)
}

/// Whether a run fails: with no gates, when the documents differ at all;
/// with gates, when some change is of a gated kind.
pub open spec fn spec_should_fail(d: Seq<(Seq<SegmentModel>, KindModel)>, gates: Seq<FailKind>) -> bool {
    if gates.len() == 0 {
        d.len() > 0
    } else {
        gate_hit(d, gates)
    }
}

/// Whether a run fails (see `spec_should_fail`).
pub fn should_fail(d: &Diff, fail_on: &[FailKind]) -> (r: bool)
    ensures
        r == spec_should_fail(d@, fail_on@),
{
    if fail_on.len() == 0 {
        return !d.is_empty();
    }
    let changes = d.changes();
    let mut i: usize = 0;
    while i < changes.len()
        invariant
            changes_model(changes@) == d@,
            i <= changes@.len(),
            forall|a: int, b: int| 0 <= a < i && 0 <= b < fail_on@.len() ==> #[trigger] fail_index(fail_on@[b]) != #[trigger] kind_index(d@[a].1),
        decreases changes.len() - i,
    {
        let mut j: usize = 0;
        while j < fail_on.len()
            invariant
                changes_model(changes@) == d@,
                i < changes@.len(),
                j <= fail_on@.len(),
                forall|b: int| 0 <= b < j ==> #[trigger] fail_index(fail_on@[b]) != kind_index(d@[i as int].1),
            decreases fail_on.len() - j,
        {
            assert(d@[i as int].1 == changes@[i as int].kind@);
            if fail_on[j].matches(&changes[i].kind) {
                assert(fail_index(fail_on@[j as int]) == kind_index(d@[i as int].1));
                return true;
            }
            j = j + 1;
        }
        i = i + 1;
    }
    false
}

/// The format an input is read as: the one forced on the command line, else
/// the one its file name gives; standard input (`-`) has no file name.
pub open spec fn spec_resolve_format(explicit: Option<Format>, source: Seq<char>) -> Option<Format> {
    match explicit {
        Some(f) => Some(f),
        None => if source == seq!['-'] {
            None
        } else {
            spec_from_path(source)
        },
    }
}

/// The format an input is read as (see `spec_resolve_format`).
pub fn resolve_format(explicit: Option<Format>, source: &str) -> (r: Option<Format>)
    ensures
        r == spec_resolve_format(explicit, source@),
{
    match explicit {
        Some(_) => explicit,
        None => {
            proof {
                reveal_strlit("-");
            }
            assert("-"@ =~= seq!['-']);
            if str_equal(source, "-") {
                None
            } else {
                Format::from_path(source)
            }
        },
    }
}

/// How an input is named in messages: `<stdin>` for `-`, else its path.
pub open spec fn spec_label(source: Seq<char>) -> Seq<char> {
    if source == seq!['-'] {
        seq!['<', 's', 't', 'd', 'i', 'n', '>']
    } else {
        source
    }
}

/// How an input is named in messages (see `spec_label`).
pub fn label(source: &str) -> (r: String)
    ensures
        r@ == spec_label(source@),
{
    let mut out = String::new();
    proof {
        reveal_strlit("-");
        reveal_strlit("<stdin>");
    }
    assert("-"@ =~= seq!['-']);
    if str_equal(source, "-") {
        push_str(&mut out, "<stdin>");
        assert(out@ =~= seq!['<', 's', 't', 'd', 'i', 'n', '>']);
    } else {
        push_str(&mut out, source);
        assert(out@ =~= source@);
    }
    out
}

/// The array strategy a run uses: giving key fields while the strategy is
/// left at `Lcs` turns on key matching.
pub open spec fn spec_run_strategy(requested: ArrayStrategy, keys_given: bool) -> ArrayStrategy {
    if keys_given && requested == ArrayStrategy::Lcs {
        ArrayStrategy::Keyed
    } else {
        requested
    }
}

/// The array strategy a run uses (see `spec_run_strategy`).
pub fn run_strategy(requested: ArrayStrategy, keys_given: bool) -> (r: ArrayStrategy)
    ensures
        r == spec_run_strategy(requested, keys_given),
{
    if keys_given && requested == ArrayStrategy::Lcs {
        ArrayStrategy::Keyed
    } else {
        requested
    }
}

/// When to color the pretty output.
#[derive(Debug, Clone, Copy, PartialEq, Eq, Structural)]
pub enum ColorWhen {
    Auto,
    Always,
    Never,
}

/// Whether to color: always, never, or, automatically, when `NO_COLOR` is
/// unset and the output is a terminal.
pub open spec fn spec_use_color(when: ColorWhen, no_color_set: bool, is_terminal: bool) -> bool {
    match when {
        ColorWhen::Always => true,
        ColorWhen::Never => false,
        ColorWhen::Auto => !no_color_set && is_terminal,
    }
}

/// Whether to color (see `spec_use_color`).
pub fn use_color(when: ColorWhen, no_color_set: bool, is_terminal: bool) -> (r: bool)
    ensures
        r == spec_use_color(when, no_color_set, is_terminal),
{
    match when {
        ColorWhen::Always => true,
        ColorWhen::Never => false,
        ColorWhen::Auto => !no_color_set && is_terminal,
    }
}

/// The exit status of a run that completed: 1 when it failed and failures
/// are not waived (`--exit-zero`), else 0. A run that errs exits with 2.
pub fn exit_status(failed: bool, exit_zero: bool) -> (r: u8)
    ensures
        r == (if failed && !exit_zero { 1u8 } else { 0u8 }),
{
    if failed && !exit_zero {
        1
    } else {
        0
    }
}

} // verus!
