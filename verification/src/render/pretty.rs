//! Human-readable, optionally colored rendering of a diff.

use vstd::prelude::*;
use crate::diff::{Change, ChangeKind, Diff, Summary, changes_model, count_kind, law_summary_counts_every_change};
use crate::diff_spec::KindModel;
use crate::path::{Path, SegmentModel, spec_path_display};
use crate::text::{decimal, digit_char, push_char, push_decimal, push_str};
use crate::value::{Value, spec_type_name, spec_value_display};

verus! {

/// The highlight given to a piece of output.
#[derive(Debug, Clone, Copy)]
pub enum Paint {
    Added,
    Removed,
    Changed,
    TypeChanged,
    Dim,
    Bold,
}

/// The basic ANSI palette index of a paint's foreground color, if it has one:
/// green, red, yellow and magenta for the four kinds of change.
pub open spec fn paint_color(p: Paint) -> Option<u8> {
    match p {
        Paint::Added => Some(2u8),
        Paint::Removed => Some(1u8),
        Paint::Changed => Some(3u8),
        Paint::TypeChanged => Some(5u8),
        _ => None,
    }
}

/// A Select Graphic Rendition escape sequence: `ESC [ code m`.
pub open spec fn sgr(code: Seq<char>) -> Seq<char> {
    seq!['\u{1b}', '['] + code + seq!['m']
}

/// The escape sequence that turns a style on: bold, then dimmed, then the
/// foreground color.
pub open spec fn style_start(fg: Option<u8>, bold: bool, dimmed: bool) -> Seq<char> {
    (if bold { sgr(seq!['1']) } else { Seq::empty() }) + (if dimmed { sgr(seq!['2']) } else { Seq::empty() })
        + match fg {
        Some(c) => sgr(seq!['3', digit_char(c as nat)]),
        None => Seq::empty(),
    }
}

/// The escape sequence that turns a style off: the reset code, unless the
/// style sets nothing.
pub open spec fn style_reset(fg: Option<u8>, bold: bool, dimmed: bool) -> Seq<char> {
    if fg is Some || bold || dimmed {
        sgr(seq!['0'])
    } else {
        Seq::empty()
    }
}

/// The codes that anstyle writes for a style with the given foreground color
/// from the basic palette and the bold and dimmed effects: its `Display`
/// (the effects in their declared order, then the color) and its alternate
/// `Display` (the reset code, or nothing for the empty style).
#[verifier::external_body]
fn ansi_style(fg: Option<u8>, bold: bool, dimmed: bool) -> (r: (String, String))
    requires
        fg matches Some(c) ==> c < 8,
    ensures
        r.0@ == style_start(fg, bold, dimmed),
        r.1@ == style_reset(fg, bold, dimmed),
{
    let effects = anstyle::Effects::new().set(anstyle::Effects::BOLD, bold).set(anstyle::Effects::DIMMED, dimmed);
    let color = fg.and_then(|c| anstyle::Ansi256Color(c).into_ansi()).map(anstyle::Color::Ansi);
    let style = anstyle::Style::new().fg_color(color).effects(effects);
    (format!("{style}"), format!("{style:#}"))
}

/// `text` wrapped in the escape codes of a paint when coloring, else as is.
pub open spec fn painted(text: Seq<char>, p: Paint, color: bool) -> Seq<char> {
    if color {
        style_start(paint_color(p), p is Bold, p is Dim) + text + style_reset(paint_color(p), p is Bold, p is Dim)
    } else {
        text
    }
}

/// The line that reports one change (without its line break).
pub open spec fn change_line(c: (Seq<SegmentModel>, KindModel), color: bool) -> Seq<char> {
    let label = painted(spec_path_display(c.0), Paint::Bold, color);
    let arrow = painted(seq!['-', '>'], Paint::Dim, color);
    match c.1 {
        KindModel::Added(v) => painted(seq!['+', ' '], Paint::Added, color) + label + seq![':', ' ']
            + spec_value_display(v),
        KindModel::Removed(v) => painted(seq!['-', ' '], Paint::Removed, color) + label + seq![':', ' ']
            + spec_value_display(v),
        KindModel::Changed(o, n) => painted(seq!['~', ' '], Paint::Changed, color) + label + seq![':', ' ']
            + spec_value_display(o) + seq![' '] + arrow + seq![' '] + spec_value_display(n),
        KindModel::TypeChanged(o, n) => painted(seq!['!', ' '], Paint::TypeChanged, color) + label
            + seq![':', ' '] + painted(spec_type_name(o), Paint::Dim, color) + seq![' '] + spec_value_display(o)
            + seq![' '] + arrow + seq![' '] + painted(spec_type_name(n), Paint::Dim, color) + seq![' ']
            + spec_value_display(n),
    }
}

/// The lines of the first `k` changes, each ended by a line break.
pub open spec fn change_lines(s: Seq<(Seq<SegmentModel>, KindModel)>, color: bool, k: nat) -> Seq<char>
    decreases k,
{
    if k == 0 || k > s.len() {
        Seq::empty()
    } else {
        change_lines(s, color, (k - 1) as nat) + change_line(s[k - 1], color) + seq!['\n']
    }
}

/// One count of the summary line (`+2`), in its kind's color, after two
/// spaces when another count came before it; nothing for a zero count.
pub open spec fn summary_part(count: nat, sign: char, p: Paint, color: bool, after: bool) -> Seq<char> {
    if count == 0 {
        Seq::empty()
    } else {
        (if after { seq![' ', ' '] } else { Seq::empty() }) + painted(seq![sign] + decimal(count), p, color)
    }
}

/// The summary line (`5 changes: +1  ~3  !1`) for the counts of additions,
/// removals, value changes and type changes.
pub open spec fn summary_line(a: nat, r: nat, c: nat, t: nat, color: bool) -> Seq<char> {
    let total = a + r + c + t;
    decimal(total) + seq![' ', 'c', 'h', 'a', 'n', 'g', 'e'] + (if total != 1 { seq!['s'] } else { Seq::empty() })
        + seq![':', ' '] + summary_part(a, '+', Paint::Added, color, false)
        + summary_part(r, '-', Paint::Removed, color, a > 0)
        + summary_part(c, '~', Paint::Changed, color, a > 0 || r > 0)
        + summary_part(t, '!', Paint::TypeChanged, color, a > 0 || r > 0 || c > 0)
}

/// The whole report: `no differences` for an empty diff; otherwise one line
/// per change, a blank line, and the summary line.
pub open spec fn pretty_text(d: Seq<(Seq<SegmentModel>, KindModel)>, color: bool) -> Seq<char> {
    if d.len() == 0 {
        painted("no differences"@, Paint::Dim, color) + seq!['\n']
    } else {
        change_lines(d, color, d.len()) + seq!['\n'] + summary_line(
            count_kind(d, 0, d.len()),
            count_kind(d, 1, d.len()),
            count_kind(d, 2, d.len()),
            count_kind(d, 3, d.len()),
            color,
        ) + seq!['\n']
    }
}

/// Appends `text`, wrapped in the escape codes of `p` when `color` is set.
fn paint(out: &mut String, text: &str, p: Paint, color: bool)
    ensures
        final(out)@ == old(out)@ + painted(text@, p, color),
{
    if color {
        let fg: Option<u8> = match p {
            Paint::Added => Some(2u8),
            Paint::Removed => Some(1u8),
            Paint::Changed => Some(3u8),
            Paint::TypeChanged => Some(5u8),
            _ => None,
        };
        let bold = match p {
            Paint::Bold => true,
            _ => false,
        };
        let dimmed = match p {
            Paint::Dim => true,
            _ => false,
        };
        let (start, reset) = ansi_style(fg, bold, dimmed);
        push_str(out, start.as_str());
        push_str(out, text);
        push_str(out, reset.as_str());
        assert(out@ == old(out)@ + painted(text@, p, color));
    } else {
        push_str(out, text);
    }
}

/// The start of every change line: its marker, and its path in bold.
fn line_head(marker: &str, p: Paint, path: &Path, color: bool) -> (line: String)
    ensures
        line@ == painted(marker@, p, color) + painted(spec_path_display(path@), Paint::Bold, color) + seq![':', ' '],
{
    let label = path.to_string();
    let mut line = String::new();
    paint(&mut line, marker, p, color);
    assert(line@ =~= painted(marker@, p, color));
    paint(&mut line, label.as_str(), Paint::Bold, color);
    push_char(&mut line, ':');
    push_char(&mut line, ' ');
    line
}

/// The line for a value added or removed.
fn single_line(marker: &str, p: Paint, path: &Path, v: &Value, color: bool) -> (line: String)
    ensures
        line@ == painted(marker@, p, color) + painted(spec_path_display(path@), Paint::Bold, color) + seq![':', ' ']
            + spec_value_display(v@),
{
    let mut line = line_head(marker, p, path, color);
    push_str(&mut line, v.to_string().as_str());
    line
}

/// The line for a value changed in place.
fn changed_line(path: &Path, old: &Value, new: &Value, color: bool) -> (line: String)
    ensures
        line@ == painted(seq!['~', ' '], Paint::Changed, color) + painted(spec_path_display(path@), Paint::Bold, color)
            + seq![':', ' '] + spec_value_display(old@) + seq![' '] + painted(seq!['-', '>'], Paint::Dim, color)
            + seq![' '] + spec_value_display(new@),
{
    proof {
        reveal_strlit("~ ");
        reveal_strlit("->");
    }
    let mut line = line_head("~ ", Paint::Changed, path, color);
    push_str(&mut line, old.to_string().as_str());
    push_char(&mut line, ' ');
    paint(&mut line, "->", Paint::Dim, color);
    push_char(&mut line, ' ');
    push_str(&mut line, new.to_string().as_str());
    line
}

/// The line for a value whose type changed.
fn type_changed_line(path: &Path, old: &Value, new: &Value, color: bool) -> (line: String)
    ensures
        line@ == painted(seq!['!', ' '], Paint::TypeChanged, color) + painted(spec_path_display(path@), Paint::Bold, color)
            + seq![':', ' '] + painted(spec_type_name(old@), Paint::Dim, color) + seq![' '] + spec_value_display(old@)
            + seq![' '] + painted(seq!['-', '>'], Paint::Dim, color) + seq![' ']
            + painted(spec_type_name(new@), Paint::Dim, color) + seq![' '] + spec_value_display(new@),
{
    proof {
        reveal_strlit("! ");
        reveal_strlit("->");
    }
    let mut line = line_head("! ", Paint::TypeChanged, path, color);
    paint(&mut line, old.type_label(), Paint::Dim, color);
    push_char(&mut line, ' ');
    push_str(&mut line, old.to_string().as_str());
    push_char(&mut line, ' ');
    paint(&mut line, "->", Paint::Dim, color);
    push_char(&mut line, ' ');
    paint(&mut line, new.type_label(), Paint::Dim, color);
    push_char(&mut line, ' ');
    push_str(&mut line, new.to_string().as_str());
    line
}

/// The line that reports one change.
fn change_text(change: &Change, color: bool) -> (line: String)
    ensures
        line@ == change_line(change@, color),
{
    proof {
        reveal_strlit("+ ");
        reveal_strlit("- ");
    }
    match &change.kind {
        ChangeKind::Added { new } => single_line("+ ", Paint::Added, &change.path, new, color),
        ChangeKind::Removed { old } => single_line("- ", Paint::Removed, &change.path, old, color),
        ChangeKind::Changed { old, new } => changed_line(&change.path, old, new, color),
        ChangeKind::TypeChanged { old, new } => type_changed_line(&change.path, old, new, color),
    }
}

/// One count of the summary line.
fn part_text(count: usize, sign: char, p: Paint, color: bool, after: bool) -> (r: String)
    ensures
        r@ == summary_part(count as nat, sign, p, color, after),
{
    let mut out = String::new();
    if count > 0 {
        if after {
            push_char(&mut out, ' ');
            push_char(&mut out, ' ');
        }
        let mut text = String::new();
        push_char(&mut text, sign);
        push_decimal(&mut text, count as u64);
        assert(text@ =~= seq![sign] + crate::text::decimal(count as nat));
        paint(&mut out, text.as_str(), p, color);
        assert(out@ =~= summary_part(count as nat, sign, p, color, after));
    }
    assert(out@ =~= summary_part(count as nat, sign, p, color, after));
    out
}

/// The summary line.
fn summary_text(s: &Summary, color: bool) -> (r: String)
    requires
        s.added + s.removed + s.changed + s.type_changed <= usize::MAX,
    ensures
        r@ == summary_line(s.added as nat, s.removed as nat, s.changed as nat, s.type_changed as nat, color),
{
    let total = s.added + s.removed + s.changed + s.type_changed;
    let mut out = String::new();
    push_decimal(&mut out, total as u64);
    assert(out@ =~= decimal(total as nat));
    push_str(&mut out, " change");
    if total != 1 {
        push_char(&mut out, 's');
    }
    push_char(&mut out, ':');
    push_char(&mut out, ' ');
    proof {
        reveal_strlit(" change");
    }
    let a = part_text(s.added, '+', Paint::Added, color, false);
    let b = part_text(s.removed, '-', Paint::Removed, color, s.added > 0);
    let c = part_text(s.changed, '~', Paint::Changed, color, s.added > 0 || s.removed > 0);
    let d = part_text(s.type_changed, '!', Paint::TypeChanged, color, s.added > 0 || s.removed > 0 || s.changed > 0);
    push_str(&mut out, a.as_str());
    push_str(&mut out, b.as_str());
    push_str(&mut out, c.as_str());
    push_str(&mut out, d.as_str());
    out
}

/// Renders a diff for people: one line per change and a summary, or
/// `no differences`; wrapped in ANSI color codes when `color` is set.
pub fn render(diff: &Diff, color: bool) -> (r: String)
    ensures
        r@ == pretty_text(diff@, color),
{
    let mut out = String::new();
    if diff.is_empty() {
        paint(&mut out, "no differences", Paint::Dim, color);
        push_char(&mut out, '\n');
        return out;
    }
    let changes = diff.changes();
    let mut i: usize = 0;
    while i < changes.len()
        invariant
            changes_model(changes@) == diff@,
            i <= changes@.len(),
            out@ == change_lines(diff@, color, i as nat),
        decreases changes.len() - i,
    {
        let line = change_text(&changes[i], color);
        push_str(&mut out, line.as_str());
        push_char(&mut out, '\n');
        i = i + 1;
    }
    push_char(&mut out, '\n');
    let s = diff.summary();
    proof {
        law_summary_counts_every_change(diff@, diff@.len());
    }
    let summary = summary_text(&s, color);
    push_str(&mut out, summary.as_str());
    push_char(&mut out, '\n');
    out
}

} // verus!
