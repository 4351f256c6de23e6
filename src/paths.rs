use vstd::prelude::*;

use crate::text::{chars_of, push_char};

verus! {

/// One component of a path, as `Path::components` yields it.
pub enum Part {
    /// A drive prefix `C:`, with its letter in upper case.
    Disk(u8),
    Root,
    Cur,
    Parent,
    Name(Seq<char>),
}

/// One component of a path.
pub enum PathPart {
    Disk(u8),
    RootDir,
    CurDir,
    ParentDir,
    Normal(String),
}

impl View for PathPart {
    type V = Part;

    open spec fn view(&self) -> Part {
        match self {
            PathPart::Disk(d) => Part::Disk(*d),
            PathPart::RootDir => Part::Root,
            PathPart::CurDir => Part::Cur,
            PathPart::ParentDir => Part::Parent,
            PathPart::Normal(s) => Part::Name(s@),
        }
    }
}

pub open spec fn parts_view(v: Seq<PathPart>) -> Seq<Part> {
    v.map_values(|p: PathPart| p@)
}

/// What one segment between separators contributes: nothing for an empty segment
/// or `.`, a parent step for `..`, else a name.
pub open spec fn segment_parts(seg: Seq<char>) -> Seq<Part> {
    if seg.len() == 0 || seg == seq!['.'] {
        seq![]
    } else if seg == seq!['.', '.'] {
        seq![Part::Parent]
    } else {
        seq![Part::Name(seg)]
    }
}

/// A separator: `/`, and on Windows `\` too.
pub open spec fn is_sep(windows: bool, c: char) -> bool {
    c == '/' || (windows && c == '\\')
}

pub open spec fn is_drive_letter(c: char) -> bool {
    let u = c as u32;
    (0x41 <= u <= 0x5a) || (0x61 <= u <= 0x7a)
}

/// The upper-case byte of a drive letter.
pub open spec fn drive_byte(c: char) -> u8 {
    let u = c as u32;
    if 0x61 <= u <= 0x7a {
        (u - 32) as u8
    } else {
        u as u8
    }
}

/// The components of `s`, given that `cur` is the part of the current segment
/// already read.
pub open spec fn parts_from(windows: bool, s: Seq<char>, cur: Seq<char>) -> Seq<Part>
    decreases s.len(),
{
    if s.len() == 0 {
        segment_parts(cur)
    } else if is_sep(windows, s[0]) {
        segment_parts(cur) + parts_from(windows, s.drop_first(), seq![])
    } else {
        parts_from(windows, s.drop_first(), cur.push(s[0]))
    }
}

/// The components of a path without prefix: a leading separator is the root, a
/// leading `.` segment is kept as the current directory, other `.` and empty
/// segments are dropped.
pub open spec fn rooted_parts(windows: bool, s: Seq<char>) -> Seq<Part> {
    if s.len() > 0 && is_sep(windows, s[0]) {
        seq![Part::Root] + parts_from(windows, s.drop_first(), seq![])
    } else if s.len() > 0 && s[0] == '.' && (s.len() == 1 || is_sep(windows, s[1])) {
        seq![Part::Cur] + parts_from(windows, s.drop_first(), seq![])
    } else {
        parts_from(windows, s, seq![])
    }
}

/// The components of a path on Unix (`windows` false) or on Windows, where a path
/// may start with a drive prefix `C:`. Of the Windows prefixes only the drive is
/// read: a UNC or verbatim prefix (`\\server\share`, `\\?\`) is taken as
/// separators and names.
pub open spec fn components(windows: bool, s: Seq<char>) -> Seq<Part> {
    if windows && s.len() >= 2 && s[1] == ':' && is_drive_letter(s[0]) {
        seq![Part::Disk(drive_byte(s[0]))] + rooted_parts(windows, s.subrange(2, s.len() as int))
    } else {
        rooted_parts(windows, s)
    }
}

fn sep(windows: bool, c: char) -> (r: bool)
    ensures
        r == is_sep(windows, c),
{
    c == '/' || (windows && c == '\\')
}

fn push_segment(out: &mut Vec<PathPart>, cur: String)
    ensures
        parts_view(final(out)@) == parts_view(old(out)@) + segment_parts(cur@),
{
    if cur.as_str().is_empty() {
        assert(parts_view(out@) == parts_view(out@) + segment_parts(cur@));
        return;
    }
    let cs = chars_of(cur.as_str());
    if cs.len() == 1 && cs[0] == '.' {
        assert(cur@ == seq!['.']);
        assert(parts_view(out@) == parts_view(out@) + segment_parts(cur@));
        return;
    }
    if cs.len() == 2 && cs[0] == '.' && cs[1] == '.' {
        assert(cur@ == seq!['.', '.']);
        out.push(PathPart::ParentDir);
    } else {
        assert(cur@ != seq!['.']);
        assert(cur@ != seq!['.', '.']);
        out.push(PathPart::Normal(cur));
    }
    assert(parts_view(final(out)@) == parts_view(old(out)@) + segment_parts(cur@));
}

/// Splits a path into its components, by the rules of Unix or of Windows.
pub fn path_components(windows: bool, p: &str) -> (r: Vec<PathPart>)
    ensures
        parts_view(r@) == components(windows, p@),
{
    let cs = chars_of(p);
    let n = cs.len();
    let mut out: Vec<PathPart> = Vec::new();
    let mut i: usize = 0;
    if windows && n >= 2 && cs[1] == ':' {
        let u = cs[0] as u32;
        if (0x41 <= u && u <= 0x5a) || (0x61 <= u && u <= 0x7a) {
            let d = if 0x61 <= u { (u - 32) as u8 } else { u as u8 };
            out.push(PathPart::Disk(d));
            i = 2;
        }
    }
    let base = i;
    let ghost rest0 = cs@.subrange(base as int, n as int);
    proof {
        if base == 0 {
            assert(rest0 == cs@);
        }
    }
    assert(components(windows, cs@) == parts_view(out@) + rooted_parts(windows, rest0));
    if i < n && sep(windows, cs[i]) {
        out.push(PathPart::RootDir);
        i += 1;
    } else if i < n && cs[i] == '.' && (i + 1 == n || sep(windows, cs[i + 1])) {
        out.push(PathPart::CurDir);
        i += 1;
    }
    let mut cur = String::new();
    proof {
        if i > base {
            assert(rest0.drop_first() == cs@.subrange(i as int, n as int));
            assert(rest0[0] == cs@[base as int]);
            if rest0.len() > 1 {
                assert(rest0[1] == cs@[base + 1]);
            }
        } else {
            assert(rest0 == cs@.subrange(i as int, n as int));
        }
    }
    assert(parts_view(out@) + parts_from(windows, cs@.subrange(i as int, n as int), cur@) == components(windows, cs@));
    while i < n
        invariant
            n == cs@.len(),
            i <= n,
            parts_view(out@) + parts_from(windows, cs@.subrange(i as int, n as int), cur@) == components(windows, cs@),
        decreases n - i,
    {
        let c = cs[i];
        let ghost rest = cs@.subrange(i as int, n as int);
        assert(rest.drop_first() == cs@.subrange(i + 1, n as int));
        if sep(windows, c) {
            let seg = cur;
            cur = String::new();
            push_segment(&mut out, seg);
        } else {
            push_char(&mut cur, c);
        }
        i += 1;
    }
    push_segment(&mut out, cur);
    out
}

} // verus!
