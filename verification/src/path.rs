//! Paths locating a node inside a config tree (e.g. `server.hosts[2].name`).

use vstd::prelude::*;
use crate::text::{chars_of, debug_quoted, decimal, is_ascii_alnum, push_char, push_debug_quoted, push_decimal, push_str};

verus! {

/// One step of a path: an object key or an array index.
#[derive(Debug, PartialEq, Eq)]
pub enum Segment {
    Key(String),
    Index(usize),
}

/// The mathematical form of a segment.
pub ghost enum SegmentModel {
    Key(Seq<char>),
    Index(usize),
}

impl View for Segment {
    type V = SegmentModel;

    open spec fn view(&self) -> SegmentModel {
        match self {
            Segment::Key(k) => SegmentModel::Key(k@),
            Segment::Index(i) => SegmentModel::Index(*i),
        }
    }
}

impl Clone for Segment {
    fn clone(&self) -> (r: Self)
        ensures
            r@ == self@,
    {
        match self {
            Segment::Key(k) => Segment::Key(k.clone()),
            Segment::Index(i) => Segment::Index(*i),
        }
    }
}

/// The models of a run of segments.
pub open spec fn segments_model(v: Seq<Segment>) -> Seq<SegmentModel> {
    v.map_values(|s: Segment| s@)
}

/// A location in a value tree, as the sequence of steps from the root.
#[derive(Debug, PartialEq, Eq)]
pub struct Path {
    segments: Vec<Segment>,
}

/// A copy of a sequence of segments.
fn clone_segments(v: &Vec<Segment>) -> (r: Vec<Segment>)
    ensures
        segments_model(r@) == segments_model(v@),
{
    let mut out: Vec<Segment> = Vec::new();
    let mut i: usize = 0;
    while i < v.len()
        invariant
            i <= v.len(),
            segments_model(out@) == segments_model(v@).subrange(0, i as int),
        decreases v.len() - i,
    {
        let ghost before = out@;
        out.push(v[i].clone());
        i = i + 1;
        assert(segments_model(out@) =~= segments_model(before).push(v@[i - 1]@));
        assert(segments_model(v@).subrange(0, i as int) =~= segments_model(v@).subrange(0, i - 1).push(v@[i - 1]@));
    }
    assert(segments_model(v@).subrange(0, segments_model(v@).len() as int) =~= segments_model(v@));
    out
}

impl Default for Path {
    /// The root path.
    fn default() -> (p: Self)
        ensures
            p@ == Seq::<SegmentModel>::empty(),
    {
        Path::root()
    }
}

impl Clone for Path {
    fn clone(&self) -> (r: Self)
        ensures
            r@ == self@,
    {
        Path { segments: clone_segments(&self.segments) }
    }
}

impl View for Path {
    type V = Seq<SegmentModel>;

    open spec fn view(&self) -> Seq<SegmentModel> {
        self.spec_segments()
    }
}

/// Whether a key can be written bare in the dotted form of a path: it is
/// non-empty and made only of ASCII letters, digits, `_` and `-`.
pub open spec fn spec_is_simple_key(key: Seq<char>) -> bool {
    key.len() > 0 && forall|i: int| 0 <= i < key.len() ==> is_key_char(#[trigger] key[i])
}

pub open spec fn is_key_char(c: char) -> bool {
    is_ascii_alnum(c) || c == '_' || c == '-'
}

/// The text that one segment contributes to the `/`-joined form of a path.
pub open spec fn segment_plain(seg: SegmentModel) -> Seq<char> {
    match seg {
        SegmentModel::Key(k) => k,
        SegmentModel::Index(i) => decimal(i as nat),
    }
}

/// The `/`-joined form of a path that ignore globs are matched against
/// (`server/hosts/2/name`); the root is the empty string.
pub open spec fn spec_match_string(segs: Seq<SegmentModel>) -> Seq<char>
    decreases segs.len(),
{
    if segs.len() == 0 {
        Seq::empty()
    } else if segs.len() == 1 {
        segment_plain(segs[0])
    } else {
        spec_match_string(segs.drop_last()) + seq!['/'] + segment_plain(segs.last())
    }
}

/// The text that one segment contributes to the displayed form of a path;
/// `first` tells whether it is the first segment.
pub open spec fn segment_display(seg: SegmentModel, first: bool) -> Seq<char> {
    match seg {
        SegmentModel::Key(k) => if spec_is_simple_key(k) {
            if first { k } else { seq!['.'] + k }
        } else {
            seq!['['] + debug_quoted(k) + seq![']']
        },
        SegmentModel::Index(i) => seq!['['] + decimal(i as nat) + seq![']'],
    }
}

/// The displayed form of a non-empty run of segments.
pub open spec fn segments_display(segs: Seq<SegmentModel>) -> Seq<char>
    decreases segs.len(),
{
    if segs.len() == 0 {
        Seq::empty()
    } else {
        segments_display(segs.drop_last()) + segment_display(segs.last(), segs.len() == 1)
    }
}

/// The displayed form of a path: `(root)` for the root, otherwise dotted keys
/// and bracketed indices, with keys that are not simple quoted in brackets
/// (`server.hosts[2].name`, `a["b c"]`).
pub open spec fn spec_path_display(segs: Seq<SegmentModel>) -> Seq<char> {
    if segs.len() == 0 {
        seq!['(', 'r', 'o', 'o', 't', ')']
    } else {
        segments_display(segs)
    }
}

/// Whether `key` can be written bare in the dotted form of a path.
pub fn is_simple_key(key: &str) -> (r: bool)
    ensures
        r == spec_is_simple_key(key@),
{
    let cs = chars_of(key);
    if cs.len() == 0 {
        return false;
    }
    let mut i: usize = 0;
    while i < cs.len()
        invariant
            i <= cs.len(),
            cs@ == key@,
            forall|j: int| 0 <= j < i ==> is_key_char(#[trigger] cs@[j]),
        decreases cs.len() - i,
    {
        let c = cs[i];
        let ok = ('a' <= c && c <= 'z') || ('A' <= c && c <= 'Z') || ('0' <= c && c <= '9')
            || c == '_' || c == '-';
        if !ok {
            assert(!is_key_char(key@[i as int]));
            return false;
        }
        i = i + 1;
    }
    true
}

impl Path {
    pub closed spec fn spec_segments(&self) -> Seq<SegmentModel> {
        segments_model(self.segments@)
    }

    /// The root path, with no segments.
    pub fn root() -> (p: Path)
        ensures
            p@ == Seq::<SegmentModel>::empty(),
    {
        Path { segments: Vec::new() }
    }

    /// The path of the child under `key`.
    pub fn child_key(&self, key: String) -> (p: Path)
        ensures
            p@ == self@.push(SegmentModel::Key(key@)),
    {
        let mut segments = clone_segments(&self.segments);
        segments.push(Segment::Key(key));
        Path { segments }
    }

    /// The path of the element at `index`.
    pub fn child_index(&self, index: usize) -> (p: Path)
        ensures
            p@ == self@.push(SegmentModel::Index(index)),
    {
        let mut segments = clone_segments(&self.segments);
        segments.push(Segment::Index(index));
        Path { segments }
    }

    /// Whether this is the root path.
    pub fn is_root(&self) -> (r: bool)
        ensures
            r == (self@.len() == 0),
    {
        self.segments.len() == 0
    }

    /// The number of segments.
    pub fn depth(&self) -> (r: usize)
        ensures
            r == self@.len(),
    {
        self.segments.len()
    }

    /// The segments from the root down.
    pub fn segments(&self) -> (r: &[Segment])
        ensures
            segments_model(r@) == self@,
    {
        self.segments.as_slice()
    }

    /// The `/`-joined form used for ignore-glob matching
    /// (`server/hosts/2/name`).
    pub fn match_string(&self) -> (r: String)
        ensures
            r@ == spec_match_string(self@),
    {
        let mut out = String::new();
        let mut i: usize = 0;
        while i < self.segments.len()
            invariant
                i <= self.segments@.len(),
                self.segments@.len() == segments_model(self.segments@).len(),
                out@ == spec_match_string(segments_model(self.segments@).subrange(0, i as int)),
            decreases self.segments.len() - i,
        {
            let ghost prefix = segments_model(self.segments@).subrange(0, i as int);
            if i > 0 {
                push_char(&mut out, '/');
            }
            match &self.segments[i] {
                Segment::Key(k) => push_str(&mut out, k.as_str()),
                Segment::Index(idx) => push_decimal(&mut out, *idx as u64),
            }
            i = i + 1;
            assert(segments_model(self.segments@).subrange(0, i as int).drop_last() == prefix);
        }
        assert(segments_model(self.segments@).subrange(0, self.segments@.len() as int) == segments_model(self.segments@));
        out
    }

    /// The displayed form of the path (`server.hosts[2].name`, or `(root)`).
    pub fn to_string(&self) -> (r: String)
        ensures
            r@ == spec_path_display(self@),
    {
        let mut out = String::new();
        if self.segments.len() == 0 {
            push_str(&mut out, "(root)");
            proof {
                reveal_strlit("(root)");
            }
            assert(out@ == spec_path_display(self@));
            return out;
        }
        let mut i: usize = 0;
        while i < self.segments.len()
            invariant
                i <= self.segments@.len(),
                self.segments@.len() == segments_model(self.segments@).len(),
                out@ == segments_display(segments_model(self.segments@).subrange(0, i as int)),
            decreases self.segments.len() - i,
        {
            let ghost prefix = segments_model(self.segments@).subrange(0, i as int);
            match &self.segments[i] {
                Segment::Key(k) => {
                    if is_simple_key(k.as_str()) {
                        if i > 0 {
                            push_char(&mut out, '.');
                        }
                        push_str(&mut out, k.as_str());
                    } else {
                        push_char(&mut out, '[');
                        push_debug_quoted(&mut out, k.as_str());
                        push_char(&mut out, ']');
                    }
                },
                Segment::Index(idx) => {
                    push_char(&mut out, '[');
                    push_decimal(&mut out, *idx as u64);
                    push_char(&mut out, ']');
                },
            }
            i = i + 1;
            assert(segments_model(self.segments@).subrange(0, i as int).drop_last() == prefix);
        }
        assert(segments_model(self.segments@).subrange(0, self.segments@.len() as int) == segments_model(self.segments@));
        out
    }
}

} // verus!
