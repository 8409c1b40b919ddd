//! The dotenv (`.env`) format: one `KEY=value` assignment per line.
//!
//! Blank lines and lines starting with `#` are skipped; an `export ` prefix
//! is dropped; key and value are trimmed; a value wrapped in matching single
//! or double quotes loses them. Every value is a string; a later assignment
//! to the same key replaces the earlier value in place.

use vstd::prelude::*;
use crate::error::Error;
use crate::text::{char_is_whitespace, chars_of, is_unicode_whitespace, string_from_chars};
use crate::value::{Value, ValueMap, ValueModel, map_insert};

verus! {

broadcast use crate::value::lemma_value_model;

/// The text without leading whitespace.
pub open spec fn trim_start(s: Seq<char>) -> Seq<char>
    decreases s.len(),
{
    if s.len() > 0 && is_unicode_whitespace(s[0]) {
        trim_start(s.drop_first())
    } else {
        s
    }
}

/// The text without trailing whitespace.
pub open spec fn trim_end(s: Seq<char>) -> Seq<char>
    decreases s.len(),
{
    if s.len() > 0 && is_unicode_whitespace(s.last()) {
        trim_end(s.drop_last())
    } else {
        s
    }
}

/// The text without leading or trailing whitespace.
pub open spec fn trim(s: Seq<char>) -> Seq<char> {
    trim_end(trim_start(s))
}

/// What one line of a dotenv document says.
pub ghost enum LineModel {
    /// A blank line or a comment.
    Skip,
    /// An assignment of a value to a key.
    Assign(Seq<char>, Seq<char>),
    /// A line that is neither.
    Invalid,
}

/// The text after an `export` keyword and the whitespace that follows it, if
/// the text starts with one.
pub open spec fn strip_export(t: Seq<char>) -> Seq<char> {
    if t.len() > 6 && t.subrange(0, 6) == seq!['e', 'x', 'p', 'o', 'r', 't'] && is_unicode_whitespace(t[6]) {
        trim_start(t.subrange(6, t.len() as int))
    } else {
        t
    }
}

/// The position of the first `c` in `s`, if any.
pub open spec fn find_char(s: Seq<char>, c: char) -> Option<nat>
    decreases s.len(),
{
    if s.len() == 0 {
        None
    } else {
        match find_char(s.drop_last(), c) {
            Some(i) => Some(i),
            None => if s.last() == c { Some((s.len() - 1) as nat) } else { None },
        }
    }
}

/// A value without the matching quotes around it, if it has them.
pub open spec fn unquote(v: Seq<char>) -> Seq<char> {
    if v.len() >= 2 && (v[0] == '"' || v[0] == '\'') && v.last() == v[0] {
        v.subrange(1, v.len() - 1)
    } else {
        v
    }
}

/// The meaning of one line.
pub open spec fn line_model(line: Seq<char>) -> LineModel {
    let t = trim(line);
    if t.len() == 0 || t[0] == '#' {
        LineModel::Skip
    } else {
        let u = strip_export(t);
        match find_char(u, '=') {
            None => LineModel::Invalid,
            Some(eq) => {
                let key = trim(u.subrange(0, eq as int));
                let value = trim(u.subrange(eq + 1 as int, u.len() as int));
                if key.len() == 0 {
                    LineModel::Invalid
                } else {
                    LineModel::Assign(key, unquote(value))
                }
            },
        }
    }
}

/// The end of the first line of `s`: the position of its first `\n`, or the
/// length when there is none.
pub open spec fn line_end(s: Seq<char>) -> nat {
    match find_char(s, '\n') {
        Some(i) => i,
        None => s.len(),
    }
}

/// The entries a dotenv text yields after `acc`, its first line numbered
/// `line_no`; or the number of the first invalid line.
pub open spec fn dotenv_entries(s: Seq<char>, line_no: nat, acc: Seq<(Seq<char>, ValueModel)>) -> Result<Seq<(Seq<char>, ValueModel)>, nat>
    decreases s.len(),
{
    let end = line_end(s);
    let line = s.subrange(0, end as int);
    let next = match line_model(line) {
        LineModel::Assign(k, v) => Ok(map_insert(acc, k, ValueModel::String(v))),
        LineModel::Skip => Ok(acc),
        LineModel::Invalid => Err(line_no),
    };
    match next {
        Err(n) => Err(n),
        Ok(acc2) => if end < s.len() {
            dotenv_entries(s.subrange(end + 1 as int, s.len() as int), line_no + 1, acc2)
        } else {
            Ok(acc2)
        },
    }
}

proof fn lemma_find_char(s: Seq<char>, c: char)
    ensures
        find_char(s, c) matches Some(i) ==> i < s.len() && s[i as int] == c
            && forall|j: int| 0 <= j < i ==> s[j] != c,
        find_char(s, c) is None ==> forall|j: int| 0 <= j < s.len() ==> s[j] != c,
    decreases s.len(),
{
    if s.len() > 0 {
        lemma_find_char(s.drop_last(), c);
        assert(forall|j: int| 0 <= j < s.len() - 1 ==> s.drop_last()[j] == s[j]);
    }
}

/// The first position at or after `from` in `s` holding `c`, or `hi`.
fn scan_for(s: &Vec<char>, from: usize, hi: usize, c: char) -> (r: usize)
    requires
        from <= hi <= s@.len(),
    ensures
        from <= r <= hi,
        r < hi ==> s@[r as int] == c,
        forall|j: int| from <= j < r ==> s@[j] != c,
{
    let mut i = from;
    while i < hi
        invariant
            from <= i <= hi <= s@.len(),
            forall|j: int| from <= j < i ==> s@[j] != c,
        decreases hi - i,
    {
        if s[i] == c {
            return i;
        }
        i = i + 1;
    }
    hi
}

/// The bounds of `s[lo..hi]` with whitespace trimmed from both ends.
fn trim_bounds(s: &Vec<char>, lo: usize, hi: usize) -> (r: (usize, usize))
    requires
        lo <= hi <= s@.len(),
    ensures
        lo <= r.0 <= r.1 <= hi,
        s@.subrange(r.0 as int, r.1 as int) == trim(s@.subrange(lo as int, hi as int)),
{
    let mut a = lo;
    while a < hi && char_is_whitespace(s[a])
        invariant
            lo <= a <= hi <= s@.len(),
            trim_start(s@.subrange(lo as int, hi as int)) == trim_start(s@.subrange(a as int, hi as int)),
        decreases hi - a,
    {
        assert(s@.subrange(a as int, hi as int).drop_first() =~= s@.subrange(a + 1, hi as int));
        a = a + 1;
    }
    let mut b = hi;
    assert(trim_start(s@.subrange(a as int, hi as int)) == s@.subrange(a as int, hi as int));
    while b > a && char_is_whitespace(s[b - 1])
        invariant
            lo <= a <= b <= hi <= s@.len(),
            trim_start(s@.subrange(a as int, hi as int)) == s@.subrange(a as int, hi as int),
            trim_end(s@.subrange(a as int, hi as int)) == trim_end(s@.subrange(a as int, b as int)),
        decreases b - a,
    {
        assert(s@.subrange(a as int, b as int).drop_last() =~= s@.subrange(a as int, b - 1));
        b = b - 1;
    }
    (a, b)
}

/// The characters at positions `lo .. hi`, as a string.
fn string_of_range(s: &Vec<char>, lo: usize, hi: usize) -> (r: String)
    requires
        lo <= hi <= s@.len(),
    ensures
        r@ == s@.subrange(lo as int, hi as int),
{
    let mut out: Vec<char> = Vec::new();
    let mut i = lo;
    while i < hi
        invariant
            lo <= i <= hi <= s@.len(),
            out@ == s@.subrange(lo as int, i as int),
        decreases hi - i,
    {
        out.push(s[i]);
        i = i + 1;
        assert(out@ =~= s@.subrange(lo as int, i as int));
    }
    string_from_chars(&out)
}

/// The meaning of the line `s[lo..hi]`, with the bounds of its key and value
/// for an assignment.
fn read_line(s: &Vec<char>, lo: usize, hi: usize) -> (r: Option<Option<(String, String)>>)
    requires
        lo <= hi <= s@.len(),
    ensures
        match line_model(s@.subrange(lo as int, hi as int)) {
            LineModel::Skip => r == Some(None::<(String, String)>),
            LineModel::Invalid => r is None,
            LineModel::Assign(k, v) => r matches Some(Some(p)) && p.0@ == k && p.1@ == v,
        },
{
    let ghost line = s@.subrange(lo as int, hi as int);
    let (a, b) = trim_bounds(s, lo, hi);
    let ghost t = trim(line);
    assert(t == s@.subrange(a as int, b as int));
    if a == b || s[a] == '#' {
        return Some(None);
    }
    let mut u = a;
    if b - a > 6 && s[a] == 'e' && s[a + 1] == 'x' && s[a + 2] == 'p' && s[a + 3] == 'o'
        && s[a + 4] == 'r' && s[a + 5] == 't' && char_is_whitespace(s[a + 6]) {
        assert(t.subrange(0, 6) =~= seq!['e', 'x', 'p', 'o', 'r', 't']);
        let mut w = a + 6;
        while w < b && char_is_whitespace(s[w])
            invariant
                a + 6 <= w <= b <= s@.len(),
                trim_start(s@.subrange(a + 6, b as int)) == trim_start(s@.subrange(w as int, b as int)),
            decreases b - w,
        {
            assert(s@.subrange(w as int, b as int).drop_first() =~= s@.subrange(w + 1, b as int));
            w = w + 1;
        }
        assert(t.subrange(6, t.len() as int) =~= s@.subrange(a + 6, b as int));
        u = w;
    } else {
        assert(t.len() > 6 && t.subrange(0, 6) == seq!['e', 'x', 'p', 'o', 'r', 't'] ==> {
            &&& t[0] == 'e' &&& t[1] == 'x' &&& t[2] == 'p' &&& t[3] == 'o' &&& t[4] == 'r' &&& t[5] == 't'
        });
    }
    let ghost uu = strip_export(t);
    assert(uu =~= s@.subrange(u as int, b as int));
    let eq = scan_for(s, u, b, '=');
    proof {
        lemma_find_char(uu, '=');
    }
    if eq == b {
        assert(find_char(uu, '=') is None) by {
            if find_char(uu, '=') is Some {
                let i = find_char(uu, '=')->Some_0;
                assert(s@[u + i] == '=');
            }
        }
        return None;
    }
    assert(find_char(uu, '=') == Some((eq - u) as nat)) by {
        match find_char(uu, '=') {
            Some(i) => {
                if i < eq - u {
                    assert(s@[u + i] == '=');
                }
                if i > eq - u {
                    assert(uu[eq - u] == '=');
                }
            },
            None => {
                assert(uu[eq - u] == '=');
            },
        }
    }
    let (ka, kb) = trim_bounds(s, u, eq);
    assert(uu.subrange(0, eq - u) =~= s@.subrange(u as int, eq as int));
    if ka == kb {
        return None;
    }
    let (va, vb) = trim_bounds(s, eq + 1, b);
    assert(uu.subrange(eq - u + 1, uu.len() as int) =~= s@.subrange(eq + 1, b as int));
    let key = string_of_range(s, ka, kb);
    let ghost v = s@.subrange(va as int, vb as int);
    let value = if vb - va >= 2 && (s[va] == '"' || s[va] == '\'') && s[vb - 1] == s[va] {
        assert(v.last() == s@[vb - 1]);
        assert(v.subrange(1, v.len() - 1) =~= s@.subrange(va + 1, vb - 1));
        string_of_range(s, va + 1, vb - 1)
    } else {
        string_of_range(s, va, vb)
    };
    Some(Some((key, value)))
}

/// Parses a dotenv document into an object of string values, in first
/// assignment order. Fails with `Error::Dotenv` naming the first line that
/// is neither blank, a comment, nor an assignment with a non-empty key.
#[verifier::spinoff_prover]
pub fn parse_dotenv(content: &str) -> (r: Result<Value, Error>)
    ensures
        match dotenv_entries(content@, 1, Seq::empty()) {
            Ok(entries) => r matches Ok(v) && v@ == ValueModel::Object(entries),
            Err(n) => r matches Err(e) && e matches Error::Dotenv { line } && line == n,
        },
{
    let cs = chars_of(content);
    let mut acc = ValueMap::new();
    let mut pos: usize = 0;
    let mut lines_done: usize = 0;
    assert(cs@.subrange(0, cs@.len() as int) =~= cs@);
    assert(acc@ =~= Seq::<(Seq<char>, ValueModel)>::empty());
    loop
        invariant
            pos <= cs@.len(),
            cs@ == content@,
            lines_done <= pos,
            dotenv_entries(content@, 1, Seq::empty())
                == dotenv_entries(cs@.subrange(pos as int, cs@.len() as int), (lines_done + 1) as nat, acc@),
        decreases cs@.len() - pos,
    {
        let ghost rest = cs@.subrange(pos as int, cs@.len() as int);
        let end = scan_for(&cs, pos, cs.len(), '\n');
        proof {
            lemma_find_char(rest, '\n');
            assert(line_end(rest) == end - pos) by {
                match find_char(rest, '\n') {
                    Some(i) => {
                        if i < end - pos {
                            assert(cs@[pos + i] == '\n');
                        }
                        if i > end - pos {
                            assert(rest[end - pos] == '\n');
                        }
                    },
                    None => {
                        if end < cs@.len() {
                            assert(rest[end - pos] == '\n');
                        }
                    },
                }
            }
            assert(rest.subrange(0, end - pos) =~= cs@.subrange(pos as int, end as int));
        }
        let ghost acc0 = acc@;
        match read_line(&cs, pos, end) {
            None => {
                if pos == end {
                    assert(cs@.subrange(pos as int, end as int) =~= Seq::<char>::empty());
                    assert(trim_start(Seq::<char>::empty()) == Seq::<char>::empty());
                    assert(trim_end(Seq::<char>::empty()) == Seq::<char>::empty());
                }
                return Err(Error::Dotenv { line: lines_done + 1 });
            },
            Some(None) => {},
            Some(Some((k, v))) => {
                acc.insert(k, Value::String(v));
            },
        }
        let ghost lm = line_model(rest.subrange(0, end - pos));
        assert(lm is Assign ==> acc@ == map_insert(acc0, lm->Assign_0, ValueModel::String(lm->Assign_1)));
        assert(lm is Skip ==> acc@ == acc0);
        if end == cs.len() {
            assert(dotenv_entries(rest, (lines_done + 1) as nat, acc0) == Ok::<Seq<(Seq<char>, ValueModel)>, nat>(acc@));
            return Ok(Value::Object(acc));
        }
        assert(dotenv_entries(rest, (lines_done + 1) as nat, acc0)
            == dotenv_entries(rest.subrange(end - pos + 1, rest.len() as int), (lines_done + 2) as nat, acc@));
        assert(rest.subrange(end - pos + 1, rest.len() as int) =~= cs@.subrange(end + 1, cs@.len() as int));
        pos = end + 1;
        lines_done = lines_done + 1;
    }
}

} // verus!
