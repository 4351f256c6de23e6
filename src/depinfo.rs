use vstd::prelude::*;

use crate::text::{chars_of, push_char};

verus! {

/// The characters that `char::is_whitespace` accepts: Unicode `White_Space`.
pub open spec fn is_white_space(c: char) -> bool {
    let u = c as u32;
    ||| 0x09 <= u <= 0x0d
    ||| u == 0x20
    ||| u == 0x85
    ||| u == 0xa0
    ||| u == 0x1680
    ||| 0x2000 <= u <= 0x200a
    ||| u == 0x2028
    ||| u == 0x2029
    ||| u == 0x202f
    ||| u == 0x205f
    ||| u == 0x3000
}

fn white_space(c: char) -> (r: bool)
    ensures
        r == is_white_space(c),
{
    let u = c as u32;
    (0x09 <= u && u <= 0x0d) || u == 0x20 || u == 0x85 || u == 0xa0 || u == 0x1680 || (0x2000 <= u && u
        <= 0x200a) || u == 0x2028 || u == 0x2029 || u == 0x202f || u == 0x205f || u == 0x3000
}

/// Index of the first `c` in `s`, or the length of `s` when there is none.
pub open spec fn index_of(s: Seq<char>, c: char) -> int
    decreases s.len(),
{
    if s.len() == 0 {
        0
    } else if s[0] == c {
        0
    } else {
        1 + index_of(s.drop_first(), c)
    }
}

/// Index of the first `": "` in `s`, or the length of `s` when there is none.
pub open spec fn index_of_sep(s: Seq<char>) -> int
    decreases s.len(),
{
    if s.len() < 2 {
        s.len() as int
    } else if s[0] == ':' && s[1] == ' ' {
        0
    } else {
        1 + index_of_sep(s.drop_first())
    }
}

/// The first line of `s` without its line ending; none for an empty text.
pub open spec fn first_line(s: Seq<char>) -> Option<Seq<char>> {
    if s.len() == 0 {
        None
    } else {
        let k = index_of(s, '\n');
        let line = s.subrange(0, k);
        if k < s.len() && line.len() > 0 && line.last() == '\r' {
            Some(line.drop_last())
        } else {
            Some(line)
        }
    }
}

pub open spec fn trim_start(s: Seq<char>) -> Seq<char>
    decreases s.len(),
{
    if s.len() > 0 && is_white_space(s[0]) {
        trim_start(s.drop_first())
    } else {
        s
    }
}

pub open spec fn trim_end(s: Seq<char>) -> Seq<char>
    decreases s.len(),
{
    if s.len() > 0 && is_white_space(s.last()) {
        trim_end(s.drop_last())
    } else {
        s
    }
}

/// The first path of a space-separated list in which `\ ` stands for a space that
/// belongs to the path (a `\` at the very end too).
pub open spec fn first_path(t: Seq<char>) -> Seq<char>
    decreases t.len(),
{
    if t.len() == 0 {
        seq![]
    } else if t[0] == ' ' {
        seq![]
    } else if t[0] == '\\' && t.len() == 1 {
        seq![' ']
    } else if t[0] == '\\' && t[1] == ' ' {
        seq![' '] + first_path(t.skip(2))
    } else {
        seq![t[0]] + first_path(t.drop_first())
    }
}

/// The first source path of a dependency-info file, whose first line reads
/// `{output}: {sources}`; none when there is no such line.
pub open spec fn first_dep(file: Seq<char>) -> Option<Seq<char>> {
    match first_line(file) {
        None => None,
        Some(line) => {
            let k = index_of_sep(line);
            if k < line.len() {
                Some(first_path(trim_end(trim_start(line.subrange(k + 2, line.len() as int)))))
            } else {
                None
            }
        },
    }
}

proof fn lemma_index_of(s: Seq<char>, c: char, e: int)
    requires
        0 <= e <= s.len(),
        forall|j: int| 0 <= j < e ==> s[j] != c,
        e == s.len() || s[e] == c,
    ensures
        index_of(s, c) == e,
    decreases s.len(),
{
    if s.len() > 0 && s[0] != c {
        assert forall|j: int| 0 <= j < e - 1 implies s.drop_first()[j] != c by {
            assert(s.drop_first()[j] == s[j + 1]);
        }
        lemma_index_of(s.drop_first(), c, e - 1);
    }
}

proof fn lemma_index_of_sep(s: Seq<char>, e: int)
    requires
        0 <= e <= s.len(),
        forall|j: int| 0 <= j < e && j + 1 < s.len() ==> !((#[trigger] s[j]) == ':' && s[j + 1] == ' '),
        e == s.len() || (e + 1 < s.len() && s[e] == ':' && s[e + 1] == ' ') || (e + 1 == s.len()),
    ensures
        index_of_sep(s) == if e + 1 == s.len() { s.len() as int } else { e },
    decreases s.len(),
{
    if s.len() >= 2 && !(s[0] == ':' && s[1] == ' ') {
        let t = s.drop_first();
        assert forall|j: int| 0 <= j < e - 1 && j + 1 < t.len() implies !((#[trigger] t[j]) == ':' && t[j + 1] == ' ') by {
            assert(t[j] == s[j + 1]);
            assert(t[j + 1] == s[j + 2]);
        }
        if e > 0 {
            lemma_index_of_sep(t, e - 1);
        }
    }
}

fn trim_range(cs: &Vec<char>, lo: usize, hi: usize) -> (r: (usize, usize))
    requires
        lo <= hi <= cs@.len(),
    ensures
        r.0 <= r.1 <= cs@.len(),
        cs@.subrange(r.0 as int, r.1 as int) == trim_end(trim_start(cs@.subrange(lo as int, hi as int))),
{
    let mut a = lo;
    while a < hi && white_space(cs[a])
        invariant
            lo <= a <= hi <= cs@.len(),
            trim_start(cs@.subrange(lo as int, hi as int)) == trim_start(cs@.subrange(a as int, hi as int)),
        decreases hi - a,
    {
        assert(cs@.subrange(a as int, hi as int).drop_first() == cs@.subrange(a + 1, hi as int));
        a += 1;
    }
    let mut b = hi;
    assert(trim_start(cs@.subrange(a as int, hi as int)) == cs@.subrange(a as int, hi as int));
    while b > a && white_space(cs[b - 1])
        invariant
            lo <= a <= b <= hi <= cs@.len(),
            trim_end(trim_start(cs@.subrange(lo as int, hi as int))) == trim_end(cs@.subrange(a as int, b as int)),
        decreases b - a,
    {
        assert(cs@.subrange(a as int, b as int).drop_last() == cs@.subrange(a as int, b - 1));
        b -= 1;
    }
    (a, b)
}

/// Reads the first path of `cs[lo..hi]`, taking `\ ` as a space of the path.
fn unescape_first(cs: &Vec<char>, lo: usize, hi: usize) -> (r: String)
    requires
        lo <= hi <= cs@.len(),
    ensures
        r@ == first_path(cs@.subrange(lo as int, hi as int)),
{
    let mut out = String::new();
    let mut i = lo;
    while i < hi
        invariant
            lo <= i <= hi <= cs@.len(),
            first_path(cs@.subrange(lo as int, hi as int)) == out@ + first_path(cs@.subrange(i as int, hi as int)),
        decreases hi - i,
    {
        let ghost t = cs@.subrange(i as int, hi as int);
        let c = cs[i];
        if c == ' ' {
            assert(first_path(t) == Seq::<char>::empty());
            assert(out@ + first_path(t) == out@);
            assert(first_path(cs@.subrange(lo as int, hi as int)) == out@ + first_path(cs@.subrange(hi as int, hi as int)));
            return out;
        } else if c == '\\' && (i + 1 == hi || cs[i + 1] == ' ') {
            push_char(&mut out, ' ');
            if i + 1 == hi {
                assert(first_path(cs@.subrange(hi as int, hi as int)) == Seq::<char>::empty());
                i = hi;
            } else {
                assert(t.skip(2) == cs@.subrange(i + 2, hi as int));
                i += 2;
            }
        } else {
            push_char(&mut out, c);
            assert(t.drop_first() == cs@.subrange(i + 1, hi as int));
            i += 1;
        }
    }
    assert(first_path(cs@.subrange(i as int, hi as int)) == Seq::<char>::empty());
    out
}

/// The first source path that a dependency-info file lists: from the first line of
/// the form `{output}: {sources}`, the first of the space-separated sources, where
/// `\ ` is a space inside a path. `None` when the text is empty or its first line
/// has no `": "`.
pub fn read_first_dep(file: &str) -> (r: Option<String>)
    ensures
        r is None <==> first_dep(file@) is None,
        r matches Some(p) ==> first_dep(file@) == Some(p@),
{
    let cs = chars_of(file);
    let n = cs.len();
    if n == 0 {
        return None;
    }
    let mut e: usize = 0;
    while e < n && cs[e] != '\n'
        invariant
            e <= n == cs@.len(),
            forall|j: int| 0 <= j < e ==> cs@[j] != '\n',
        decreases n - e,
    {
        e += 1;
    }
    proof { lemma_index_of(cs@, '\n', e as int); }
    let mut end = e;
    if e < n && e > 0 && cs[e - 1] == '\r' {
        end = e - 1;
    }
    let ghost line = cs@.subrange(0, end as int);
    assert(first_line(cs@) == Some(line)) by {
        if e < n && e > 0 && cs@[e - 1] == '\r' {
            assert(cs@.subrange(0, e as int).drop_last() == line);
        }
    }
    let mut k: usize = 0;
    while end - k >= 2 && !(cs[k] == ':' && cs[k + 1] == ' ')
        invariant
            k <= end <= n == cs@.len(),
            line == cs@.subrange(0, end as int),
            forall|j: int| 0 <= j < k && j + 1 < end ==> !((#[trigger] line[j]) == ':' && line[j + 1] == ' '),
        decreases end - k,
    {
        k += 1;
    }
    if end - k >= 2 {
        proof { lemma_index_of_sep(line, k as int); }
        let (a, b) = trim_range(&cs, k + 2, end);
        assert(line.subrange(k + 2, line.len() as int) == cs@.subrange(k + 2, end as int));
        Some(unescape_first(&cs, a, b))
    } else {
        proof {
            if end == 0 {
                assert(index_of_sep(line) == 0);
            } else if k + 1 == end {
                lemma_index_of_sep(line, k as int);
            } else {
                lemma_index_of_sep(line, end as int);
            }
        }
        None
    }
}

} // verus!
