//! Supported formats and how a format is chosen for an input.

use vstd::prelude::*;
use crate::error::Error;
use crate::text::{ascii_lower, chars_of, char_is_whitespace, is_unicode_whitespace, string_from_chars};

verus! {

/// A supported configuration format.
#[derive(Debug, Clone, Copy, PartialEq, Eq, Structural)]
pub enum Format {
    /// JSON.
    Json,
    /// TOML.
    Toml,
    /// YAML.
    Yaml,
    /// INI: sections become nested objects, every value is a string.
    Ini,
    /// dotenv (`.env`): `KEY=value` lines, every value is a string.
    Dotenv,
}

/// The ASCII-lowercase form of a text.
pub open spec fn lowercase(s: Seq<char>) -> Seq<char> {
    s.map_values(|c: char| ascii_lower(c))
}

/// The format an extension (or format name) names, compared
/// case-insensitively: `json`; `toml`; `yaml` or `yml`; `ini`; `env` or
/// `dotenv`.
pub open spec fn spec_from_extension(ext: Seq<char>) -> Option<Format> {
    let l = lowercase(ext);
    if l == seq!['j', 's', 'o', 'n'] {
        Some(Format::Json)
    } else if l == seq!['t', 'o', 'm', 'l'] {
        Some(Format::Toml)
    } else if l == seq!['y', 'a', 'm', 'l'] || l == seq!['y', 'm', 'l'] {
        Some(Format::Yaml)
    } else if l == seq!['i', 'n', 'i'] {
        Some(Format::Ini)
    } else if l == seq!['e', 'n', 'v'] || l == seq!['d', 'o', 't', 'e', 'n', 'v'] {
        Some(Format::Dotenv)
    } else {
        None
    }
}

/// The canonical lowercase name of a format.
pub open spec fn spec_name(f: Format) -> Seq<char> {
    match f {
        Format::Json => seq!['j', 's', 'o', 'n'],
        Format::Toml => seq!['t', 'o', 'm', 'l'],
        Format::Yaml => seq!['y', 'a', 'm', 'l'],
        Format::Ini => seq!['i', 'n', 'i'],
        Format::Dotenv => seq!['d', 'o', 't', 'e', 'n', 'v'],
    }
}

/// A format's name reads back as that format: parsing what `name` gives
/// (as `FromStr` does) returns the same format.
pub proof fn law_name_reads_back(f: Format)
    ensures
        spec_from_extension(spec_name(f)) == Some(f),
{
    let n = spec_name(f);
    assert(lowercase(n) =~= n);
}

/// The position just after the last `c` in `s`, or 0 when there is none.
pub open spec fn after_last(s: Seq<char>, c: char) -> nat
    decreases s.len(),
{
    if s.len() == 0 {
        0
    } else if s.last() == c {
        s.len()
    } else {
        after_last(s.drop_last(), c)
    }
}

/// `after_last` is a position within the text.
pub proof fn lemma_after_last_bound(s: Seq<char>, c: char)
    ensures
        after_last(s, c) <= s.len(),
    decreases s.len(),
{
    if s.len() > 0 && s.last() != c {
        lemma_after_last_bound(s.drop_last(), c);
    }
}

/// The file name of a `/`-separated path, as `std::path::Path::file_name`
/// finds it: trailing separators and `.` components are passed over, and the
/// last component that remains is the name; there is none when that
/// component is `..` or nothing remains.
pub open spec fn file_name(path: Seq<char>) -> Option<Seq<char>>
    decreases path.len(),
{
    let start = after_last(path, '/');
    let last = path.subrange(start as int, path.len() as int);
    if last.len() == 0 || last == seq!['.'] {
        if start == 0 {
            None
        } else {
            proof {
                lemma_after_last_bound(path, '/');
            }
            file_name(path.subrange(0, start - 1))
        }
    } else if last == seq!['.', '.'] {
        None
    } else {
        Some(last)
    }
}

/// The extension of a file name as `std::path::Path::extension` finds it:
/// the text after the last `.`, unless that `.` begins the name.
pub open spec fn extension(name: Seq<char>) -> Option<Seq<char>> {
    let p = after_last(name, '.');
    if p <= 1 {
        None
    } else {
        Some(name.subrange(p as int, name.len() as int))
    }
}

/// The format a path names: a file named `.env` is dotenv; otherwise the
/// extension decides.
pub open spec fn spec_from_path(path: Seq<char>) -> Option<Format> {
    match file_name(path) {
        None => None,
        Some(name) => if name == seq!['.', 'e', 'n', 'v'] {
            Some(Format::Dotenv)
        } else {
            match extension(name) {
                Some(ext) => spec_from_extension(ext),
                None => None,
            }
        },
    }
}

/// The position of the first character that is not whitespace (the length
/// when there is none).
pub open spec fn first_non_ws(s: Seq<char>) -> nat
    decreases s.len(),
{
    if s.len() == 0 {
        0
    } else if !is_unicode_whitespace(s[0]) {
        0
    } else {
        1 + first_non_ws(s.drop_first())
    }
}

/// A conservative guess of a document's format from its text: after leading
/// whitespace, `{` or `[` means JSON and `---` means YAML; anything else is
/// undecided.
pub open spec fn spec_guess(content: Seq<char>) -> Option<Format> {
    let t = content.subrange(first_non_ws(content) as int, content.len() as int);
    if t.len() == 0 {
        None
    } else if t[0] == '{' || t[0] == '[' {
        Some(Format::Json)
    } else if t.len() >= 3 && t[0] == '-' && t[1] == '-' && t[2] == '-' {
        Some(Format::Yaml)
    } else {
        None
    }
}

fn lower_chars(s: &str) -> (r: Vec<char>)
    ensures
        r@ == lowercase(s@),
{
    let cs = chars_of(s);
    let mut out: Vec<char> = Vec::new();
    let mut i: usize = 0;
    while i < cs.len()
        invariant
            i <= cs@.len(),
            cs@ == s@,
            out@ == lowercase(cs@.subrange(0, i as int)),
        decreases cs.len() - i,
    {
        let c = cs[i];
        let l = if 'A' <= c && c <= 'Z' {
            let u = c as u32 + 32;
            proof {
                assert(u == (c as u32) + 32);
            }
            char_from_ascii(u)
        } else {
            c
        };
        out.push(l);
        i = i + 1;
        assert(out@ =~= lowercase(cs@.subrange(0, i as int)));
    }
    assert(cs@.subrange(0, cs@.len() as int) =~= cs@);
    out
}

/// The character of an ASCII lowercase letter's code.
fn char_from_ascii(u: u32) -> (c: char)
    requires
        0x61 <= u <= 0x7a,
    ensures
        c as u32 == u,
{
    let letters: Vec<char> = vec![
        'a', 'b', 'c', 'd', 'e', 'f', 'g', 'h', 'i', 'j', 'k', 'l', 'm',
        'n', 'o', 'p', 'q', 'r', 's', 't', 'u', 'v', 'w', 'x', 'y', 'z',
    ];
    let i = (u - 0x61) as usize;
    letters[i]
}

fn chars_eq_lit(a: &Vec<char>, lit: &Vec<char>) -> (r: bool)
    ensures
        r == (a@ == lit@),
{
    crate::text::chars_equal(a, lit)
}

impl Format {
    /// Infers a format from a file extension (case-insensitive), if
    /// recognized.
    pub fn from_extension(ext: &str) -> (r: Option<Format>)
        ensures
            r == spec_from_extension(ext@),
    {
        let l = lower_chars(ext);
        if chars_eq_lit(&l, &vec!['j', 's', 'o', 'n']) {
            Some(Format::Json)
        } else if chars_eq_lit(&l, &vec!['t', 'o', 'm', 'l']) {
            Some(Format::Toml)
        } else if chars_eq_lit(&l, &vec!['y', 'a', 'm', 'l']) || chars_eq_lit(&l, &vec!['y', 'm', 'l']) {
            Some(Format::Yaml)
        } else if chars_eq_lit(&l, &vec!['i', 'n', 'i']) {
            Some(Format::Ini)
        } else if chars_eq_lit(&l, &vec!['e', 'n', 'v']) || chars_eq_lit(&l, &vec!['d', 'o', 't', 'e', 'n', 'v']) {
            Some(Format::Dotenv)
        } else {
            None
        }
    }

    /// Infers a format from a path's file name: `.env` is dotenv, otherwise
    /// the extension decides.
    pub fn from_path(path: &str) -> (r: Option<Format>)
        ensures
            r == spec_from_path(path@),
    {
        let cs = chars_of(path);
        let name = match file_name_of(&cs) {
            Some(n) => n,
            None => return None,
        };
        if chars_eq_lit(&name, &vec!['.', 'e', 'n', 'v']) {
            return Some(Format::Dotenv);
        }
        let p = after_last_index(&name, '.');
        if p <= 1 {
            return None;
        }
        let ext = slice_chars(&name, p, name.len());
        let ext_s = string_from_chars(&ext);
        Format::from_extension(ext_s.as_str())
    }

    /// A best-effort guess of a format from the document's contents, used
    /// when there is no usable extension: `{` or `[` after leading whitespace
    /// is JSON, a `---` marker is YAML, anything else is undecided.
    pub fn guess_from_content(content: &str) -> (r: Option<Format>)
        ensures
            r == spec_guess(content@),
    {
        let cs = chars_of(content);
        let mut i: usize = 0;
        assert(cs@.subrange(0, cs@.len() as int) =~= cs@);
        while i < cs.len() && char_is_whitespace(cs[i])
            invariant
                i <= cs@.len(),
                cs@ == content@,
                first_non_ws(cs@) == i + first_non_ws(cs@.subrange(i as int, cs@.len() as int)),
            decreases cs.len() - i,
        {
            assert(cs@.subrange(i as int, cs@.len() as int).drop_first() =~= cs@.subrange(i + 1, cs@.len() as int));
            i = i + 1;
        }
        assert(first_non_ws(cs@.subrange(i as int, cs@.len() as int)) == 0);
        let ghost t = cs@.subrange(i as int, cs@.len() as int);
        if i == cs.len() {
            None
        } else if cs[i] == '{' || cs[i] == '[' {
            Some(Format::Json)
        } else if cs.len() - i >= 3 && cs[i] == '-' && cs[i + 1] == '-' && cs[i + 2] == '-' {
            Some(Format::Yaml)
        } else {
            None
        }
    }

    /// The canonical lowercase name of this format.
    pub fn name(self) -> (r: &'static str)
        ensures
            r@ == spec_name(self),
    {
        match self {
            Format::Json => {
                proof { reveal_strlit("json"); }
                "json"
            },
            Format::Toml => {
                proof { reveal_strlit("toml"); }
                "toml"
            },
            Format::Yaml => {
                proof { reveal_strlit("yaml"); }
                "yaml"
            },
            Format::Ini => {
                proof { reveal_strlit("ini"); }
                "ini"
            },
            Format::Dotenv => {
                proof { reveal_strlit("dotenv"); }
                "dotenv"
            },
        }
    }
}

/// The position just after the last `c` in `s`, or 0.
fn after_last_index(s: &Vec<char>, c: char) -> (r: usize)
    ensures
        r == after_last(s@, c),
        r <= s@.len(),
{
    let mut k: usize = s.len();
    assert(s@.subrange(0, k as int) =~= s@);
    while k > 0
        invariant
            k <= s@.len(),
            after_last(s@, c) == after_last(s@.subrange(0, k as int), c),
            forall|j: int| k <= j < s@.len() ==> s@[j] != c,
        decreases k,
    {
        if s[k - 1] == c {
            return k;
        }
        assert(s@.subrange(0, k as int).drop_last() =~= s@.subrange(0, k - 1));
        k = k - 1;
    }
    0
}

/// The file name of a path, as `file_name` describes it.
fn file_name_of(cs: &Vec<char>) -> (r: Option<Vec<char>>)
    ensures
        r matches Some(n) ==> file_name(cs@) == Some(n@),
        r is None <==> file_name(cs@) is None,
{
    let mut cur = slice_chars(cs, 0, cs.len());
    assert(cur@ =~= cs@);
    loop
        invariant
            file_name(cur@) == file_name(cs@),
        decreases cur@.len(),
    {
        let start = after_last_index(&cur, '/');
        let last = slice_chars(&cur, start, cur.len());
        if last.len() == 0 || (last.len() == 1 && last[0] == '.') {
            proof {
                if last.len() == 1 {
                    assert(last@ =~= seq!['.']);
                }
            }
            if start == 0 {
                return None;
            }
            let next = slice_chars(&cur, 0, start - 1);
            cur = next;
        } else if last.len() == 2 && last[0] == '.' && last[1] == '.' {
            assert(last@ =~= seq!['.', '.']);
            return None;
        } else {
            proof {
                if last@ == seq!['.'] || last@ == seq!['.', '.'] {
                    assert(last@.len() == 1 || last@.len() == 2);
                }
            }
            return Some(last);
        }
    }
}

/// The characters at positions `lo .. hi`.
fn slice_chars(s: &Vec<char>, lo: usize, hi: usize) -> (r: Vec<char>)
    requires
        lo <= hi <= s@.len(),
    ensures
        r@ == s@.subrange(lo as int, hi as int),
{
    let mut out: Vec<char> = Vec::new();
    let mut i: usize = lo;
    while i < hi
        invariant
            lo <= i <= hi <= s@.len(),
            out@ == s@.subrange(lo as int, i as int),
        decreases hi - i,
    {
        out.push(s[i]);
        i = i + 1;
        assert(out@ =~= s@.subrange(lo as int, i as int));
    }
    out
}

/// The format to parse a document in: the hint when given, otherwise a guess
/// from the content. Fails with `UnknownFormat("<input>")` when neither
/// decides.
pub fn format_for(content: &str, hint: Option<Format>) -> (r: Result<Format, Error>)
    ensures
        hint matches Some(f) ==> r matches Ok(g) && g == f,
        hint is None ==> match spec_guess(content@) {
            Some(f) => r matches Ok(g) && g == f,
            None => r matches Err(e) && e matches Error::UnknownFormat(s) && s@ == seq!['<', 'i', 'n', 'p', 'u', 't', '>'],
        },
{
    match hint {
        Some(f) => Ok(f),
        None => match Format::guess_from_content(content) {
            Some(f) => Ok(f),
            None => {
                let s = string_from_chars(&vec!['<', 'i', 'n', 'p', 'u', 't', '>']);
                Err(Error::UnknownFormat(s))
            },
        },
    }
}

impl std::str::FromStr for Format {
    type Err = Error;

    /// The format a name or extension names (as `from_extension` reads it),
    /// or `UnknownFormat` holding the text.
    fn from_str(s: &str) -> (r: Result<Self, Self::Err>)
        ensures
            match spec_from_extension(s@) {
                Some(f) => r matches Ok(g) && g == f,
                None => r matches Err(e) && e matches Error::UnknownFormat(t) && t@ == s@,
            },
    {
        match Format::from_extension(s) {
            Some(f) => Ok(f),
            None => Err(Error::UnknownFormat(string_from_chars(&chars_of(s)))),
        }
    }
}

} // verus!
