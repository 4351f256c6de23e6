use vstd::prelude::*;

use crate::text::{chars_of, string_of_range};

verus! {

/// Index of the last `-` in `s`, if it holds one.
pub open spec fn last_dash(s: Seq<char>) -> Option<int>
    decreases s.len(),
{
    if s.len() == 0 {
        None
    } else if s.last() == '-' {
        Some(s.len() - 1)
    } else {
        last_dash(s.drop_last())
    }
}

/// The metadata hash that a file stem carries: what follows its last `-`, or the
/// whole stem when it has no `-`.
pub open spec fn meta_hash_of(stem: Seq<char>) -> Seq<char> {
    match last_dash(stem) {
        Some(i) => stem.subrange(i + 1, stem.len() as int),
        None => stem,
    }
}

/// A stem `{name}-{hash}` split at its last `-` into the logical name and the hash.
pub open spec fn name_hash_of(stem: Seq<char>) -> Option<(Seq<char>, Seq<char>)> {
    match last_dash(stem) {
        Some(i) => Some((stem.subrange(0, i), stem.subrange(i + 1, stem.len() as int))),
        None => None,
    }
}

proof fn lemma_last_dash_bounds(s: Seq<char>)
    ensures
        last_dash(s) matches Some(i) ==> 0 <= i < s.len() && s[i] == '-',
        last_dash(s) matches Some(i) ==> forall|j: int| i < j < s.len() ==> s[j] != '-',
        last_dash(s) is None ==> forall|j: int| 0 <= j < s.len() ==> s[j] != '-',
    decreases s.len(),
{
    if s.len() > 0 && s.last() != '-' {
        let t = s.drop_last();
        lemma_last_dash_bounds(t);
        assert forall|j: int| 0 <= j < t.len() implies t[j] == s[j] by {}
        assert(s[s.len() - 1] != '-');
    }
}

fn find_last_dash(cs: &Vec<char>) -> (r: Option<usize>)
    ensures
        r matches Some(i) ==> last_dash(cs@) == Some(i as int),
        r is None ==> last_dash(cs@) is None,
{
    let mut i = cs.len();
    assert(cs@.subrange(0, i as int) == cs@);
    while i > 0
        invariant
            i <= cs@.len(),
            last_dash(cs@) == last_dash(cs@.subrange(0, i as int)),
        decreases i,
    {
        assert(cs@.subrange(0, i as int).drop_last() == cs@.subrange(0, i - 1));
        if cs[i - 1] == '-' {
            return Some(i - 1);
        }
        i -= 1;
    }
    None
}

/// The metadata hash embedded in a file stem: the text after its last `-`.
pub fn extract_meta_hash(stem: &str) -> (r: String)
    ensures
        r@ == meta_hash_of(stem@),
{
    let cs = chars_of(stem);
    match find_last_dash(&cs) {
        Some(i) => {
            proof { lemma_last_dash_bounds(cs@); }
            assert(last_dash(cs@) == Some(i as int));
            let n = cs.len();
            string_of_range(&cs, i + 1, n)
        },
        None => string_of_range(&cs, 0, cs.len()),
    }
}

/// Splits a stem `{name}-{hash}` at its last `-`; `None` when it has no `-`.
pub fn split_name_hash(stem: &str) -> (r: Option<(String, String)>)
    ensures
        r is None <==> name_hash_of(stem@) is None,
        r matches Some((n, h)) ==> name_hash_of(stem@) == Some((n@, h@)),
{
    let cs = chars_of(stem);
    match find_last_dash(&cs) {
        Some(i) => {
            proof { lemma_last_dash_bounds(cs@); }
            assert(last_dash(cs@) == Some(i as int));
            let name = string_of_range(&cs, 0, i);
            let n = cs.len();
            let hash = string_of_range(&cs, i + 1, n);
            Some((name, hash))
        },
        None => None,
    }
}

/// Joining a name and a hash that holds no `-` as `{name}-{hash}` and splitting the
/// result again gives back exactly that name and that hash, whatever `-` the name
/// holds; the metadata hash read from the joined stem is the hash.
pub proof fn lemma_name_hash_round_trip(name: Seq<char>, hash: Seq<char>)
    requires
        forall|j: int| 0 <= j < hash.len() ==> hash[j] != '-',
    ensures
        name_hash_of(name + seq!['-'] + hash) == Some((name, hash)),
        meta_hash_of(name + seq!['-'] + hash) == hash,
    decreases hash.len(),
{
    let s = name + seq!['-'] + hash;
    assert(last_dash(s) == Some(name.len() as int)) by {
        lemma_last_dash_joined(name, hash);
    }
    assert(s.subrange(0, name.len() as int) == name);
    assert(s.subrange(name.len() + 1int, s.len() as int) == hash);
}

proof fn lemma_last_dash_joined(name: Seq<char>, hash: Seq<char>)
    requires
        forall|j: int| 0 <= j < hash.len() ==> hash[j] != '-',
    ensures
        last_dash(name + seq!['-'] + hash) == Some(name.len() as int),
    decreases hash.len(),
{
    let s = name + seq!['-'] + hash;
    if hash.len() > 0 {
        assert(s.last() == hash.last());
        assert(s.drop_last() == name + seq!['-'] + hash.drop_last());
        lemma_last_dash_joined(name, hash.drop_last());
    }
}

} // verus!
