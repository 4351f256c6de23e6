use vstd::prelude::*;
use vstd::utf8::encode_utf8;

use std::hash::Hasher;

use crate::paths::{components, parts_view, path_components, Part, PathPart};

verus! {

/// The SipHash-2-4 value, keyed with two zero keys, of a byte string.
pub uninterp spec fn sip_hash_2_4(bytes: Seq<u8>) -> u64;

/// Relies on `core::hash::SipHasher`: SipHash 2-4 with both keys zero (`new`), fed
/// the bytes with one `write`, read with `finish`.
#[allow(deprecated)]
#[verifier::external_body]
fn sip_hash(bytes: &[u8]) -> (r: u64)
    ensures
        r == sip_hash_2_4(bytes@),
{
    let mut h = core::hash::SipHasher::new();
    h.write(bytes);
    h.finish()
}

/// The target whose build tool wrote the records: its hasher is fed integers in
/// the target's byte order, `usize` lengths and enum tags in its pointer width, and
/// its paths split by its rules.
#[derive(Clone, Copy, PartialEq, Eq, Structural)]
pub struct HashTarget {
    pub windows: bool,
    pub pointer_64: bool,
    pub big_endian: bool,
}

/// A `u64` as the eight bytes that `Hasher::write_u64` feeds.
pub open spec fn u64_bytes(t: HashTarget, x: u64) -> Seq<u8> {
    let le = seq![
        x as u8,
        (x >> 8) as u8,
        (x >> 16) as u8,
        (x >> 24) as u8,
        (x >> 32) as u8,
        (x >> 40) as u8,
        (x >> 48) as u8,
        (x >> 56) as u8,
    ];
    if t.big_endian {
        le.reverse()
    } else {
        le
    }
}

/// A `u32` as the four bytes that `Hasher::write_u32` feeds.
pub open spec fn u32_bytes(t: HashTarget, x: u32) -> Seq<u8> {
    let le = seq![x as u8, (x >> 8) as u8, (x >> 16) as u8, (x >> 24) as u8];
    if t.big_endian {
        le.reverse()
    } else {
        le
    }
}

/// A length or an enum tag, written as a `usize` of the target.
pub open spec fn len_bytes(t: HashTarget, n: nat) -> Seq<u8> {
    if t.pointer_64 {
        u64_bytes(t, n as u64)
    } else {
        u32_bytes(t, n as u32)
    }
}

/// A string: its UTF-8 bytes and the terminator `0xff`.
pub open spec fn str_bytes(s: Seq<char>) -> Seq<u8> {
    encode_utf8(s) + seq![0xffu8]
}

/// One path component: the tag of `Component`; for a drive prefix the tag of
/// `Prefix::Disk` and the letter; for a name its bytes with their length in front.
pub open spec fn part_bytes(t: HashTarget, p: Part) -> Seq<u8> {
    match p {
        Part::Disk(d) => len_bytes(t, 0) + len_bytes(t, 5) + seq![d],
        Part::Root => len_bytes(t, 1),
        Part::Cur => len_bytes(t, 2),
        Part::Parent => len_bytes(t, 3),
        Part::Name(n) => len_bytes(t, 4) + len_bytes(t, encode_utf8(n).len()) + encode_utf8(n),
    }
}

pub open spec fn parts_bytes(t: HashTarget, ps: Seq<Part>) -> Seq<u8>
    decreases ps.len(),
{
    if ps.len() == 0 {
        seq![]
    } else {
        parts_bytes(t, ps.drop_last()) + part_bytes(t, ps.last())
    }
}

/// A path: its components in order.
pub open spec fn path_bytes(t: HashTarget, s: Seq<char>) -> Seq<u8> {
    parts_bytes(t, components(t.windows, s))
}

pub open spec fn strs_bytes(v: Seq<String>) -> Seq<u8>
    decreases v.len(),
{
    if v.len() == 0 {
        seq![]
    } else {
        strs_bytes(v.drop_last()) + str_bytes(v.last()@)
    }
}

pub open spec fn paths_bytes(t: HashTarget, v: Seq<String>) -> Seq<u8>
    decreases v.len(),
{
    if v.len() == 0 {
        seq![]
    } else {
        paths_bytes(t, v.drop_last()) + path_bytes(t, v.last()@)
    }
}

/// A dependency of a unit as its fingerprint record lists it.
pub struct DepFingerprint {
    pub pkg_id: u64,
    pub name: String,
    pub public: bool,
    pub fingerprint: u64,
}

/// Something local to a unit whose change calls for a rebuild.
pub enum LocalFingerprint {
    Precalculated(String),
    CheckDepInfo { dep_info: String },
    RerunIfChanged { output: String, paths: Vec<String> },
    RerunIfEnvChanged { var: String, val: Option<String> },
}

/// The fingerprint record of one compilation unit.
pub struct Fingerprint {
    pub rustc: u64,
    pub features: String,
    pub target: u64,
    pub profile: u64,
    pub path: u64,
    pub deps: Vec<DepFingerprint>,
    pub local: Vec<LocalFingerprint>,
    pub rustflags: Vec<String>,
    pub metadata: u64,
    pub config: u64,
}

impl DepFingerprint {
    /// Identity, name, public flag (one byte) and the dependency's stored hash.
    pub open spec fn hash_bytes(&self, t: HashTarget) -> Seq<u8> {
        u64_bytes(t, self.pkg_id) + str_bytes(self.name@) + seq![if self.public { 1u8 } else { 0u8 }]
            + u64_bytes(t, self.fingerprint)
    }
}

pub open spec fn deps_bytes(t: HashTarget, v: Seq<DepFingerprint>) -> Seq<u8>
    decreases v.len(),
{
    if v.len() == 0 {
        seq![]
    } else {
        deps_bytes(t, v.drop_last()) + v.last().hash_bytes(t)
    }
}

impl LocalFingerprint {
    /// The variant's discriminant, then its fields in order.
    pub open spec fn hash_bytes(&self, t: HashTarget) -> Seq<u8> {
        match self {
            LocalFingerprint::Precalculated(s) => len_bytes(t, 0) + str_bytes(s@),
            LocalFingerprint::CheckDepInfo { dep_info } => len_bytes(t, 1) + path_bytes(t, dep_info@),
            LocalFingerprint::RerunIfChanged { output, paths } => len_bytes(t, 2) + path_bytes(t, output@)
                + len_bytes(t, paths@.len()) + paths_bytes(t, paths@),
            LocalFingerprint::RerunIfEnvChanged { var, val } => len_bytes(t, 3) + str_bytes(var@)
                + match val {
                None => len_bytes(t, 0),
                Some(v) => len_bytes(t, 1) + str_bytes(v@),
            },
        }
    }
}

pub open spec fn locals_bytes(t: HashTarget, v: Seq<LocalFingerprint>) -> Seq<u8>
    decreases v.len(),
{
    if v.len() == 0 {
        seq![]
    } else {
        locals_bytes(t, v.drop_last()) + v.last().hash_bytes(t)
    }
}

impl Fingerprint {
    /// The bytes that the build tool's hasher on target `t` is fed for this record:
    /// the fields in this fixed order, then the dependency count and each dependency.
    pub open spec fn hash_input(&self, t: HashTarget) -> Seq<u8> {
        u64_bytes(t, self.rustc) + str_bytes(self.features@) + u64_bytes(t, self.target) + u64_bytes(
            t,
            self.path,
        ) + u64_bytes(t, self.profile) + len_bytes(t, self.local@.len()) + locals_bytes(t, self.local@)
            + u64_bytes(t, self.metadata) + u64_bytes(t, self.config) + len_bytes(t, self.rustflags@.len())
            + strs_bytes(self.rustflags@) + len_bytes(t, self.deps@.len()) + deps_bytes(t, self.deps@)
    }

    /// The canonical hash of the record on target `t`.
    pub open spec fn spec_hash(&self, t: HashTarget) -> u64 {
        sip_hash_2_4(self.hash_input(t))
    }

    /// Computes the canonical hash of the record as the build tool of target `t`
    /// does, the value by which other records name it among their dependencies.
    pub fn get_hash(&self, t: HashTarget) -> (r: u64)
        ensures
            r == self.spec_hash(t),
    {
        let bytes = self.encode(t);
        sip_hash(bytes.as_slice())
    }

    /// The hash input of the record on target `t`.
    pub fn encode(&self, t: HashTarget) -> (r: Vec<u8>)
        ensures
            r@ == self.hash_input(t),
    {
        let mut out: Vec<u8> = Vec::new();
        push_u64(&mut out, t, self.rustc);
        push_str(&mut out, self.features.as_str());
        push_u64(&mut out, t, self.target);
        push_u64(&mut out, t, self.path);
        push_u64(&mut out, t, self.profile);
        push_len(&mut out, t, self.local.len());
        push_locals(&mut out, t, &self.local);
        push_u64(&mut out, t, self.metadata);
        push_u64(&mut out, t, self.config);
        push_len(&mut out, t, self.rustflags.len());
        push_strs(&mut out, &self.rustflags);
        push_len(&mut out, t, self.deps.len());
        push_deps(&mut out, t, &self.deps);
        out
    }
}

fn push_u64(out: &mut Vec<u8>, t: HashTarget, x: u64)
    ensures
        final(out)@ == old(out)@ + u64_bytes(t, x),
{
    if t.big_endian {
        out.push((x >> 56) as u8);
        out.push((x >> 48) as u8);
        out.push((x >> 40) as u8);
        out.push((x >> 32) as u8);
        out.push((x >> 24) as u8);
        out.push((x >> 16) as u8);
        out.push((x >> 8) as u8);
        out.push(x as u8);
    } else {
        out.push(x as u8);
        out.push((x >> 8) as u8);
        out.push((x >> 16) as u8);
        out.push((x >> 24) as u8);
        out.push((x >> 32) as u8);
        out.push((x >> 40) as u8);
        out.push((x >> 48) as u8);
        out.push((x >> 56) as u8);
    }
}

fn push_u32(out: &mut Vec<u8>, t: HashTarget, x: u32)
    ensures
        final(out)@ == old(out)@ + u32_bytes(t, x),
{
    if t.big_endian {
        out.push((x >> 24) as u8);
        out.push((x >> 16) as u8);
        out.push((x >> 8) as u8);
        out.push(x as u8);
    } else {
        out.push(x as u8);
        out.push((x >> 8) as u8);
        out.push((x >> 16) as u8);
        out.push((x >> 24) as u8);
    }
}

fn push_len(out: &mut Vec<u8>, t: HashTarget, n: usize)
    ensures
        final(out)@ == old(out)@ + len_bytes(t, n as nat),
{
    if t.pointer_64 {
        push_u64(out, t, n as u64);
    } else {
        push_u32(out, t, #[verifier::truncate] (n as u32));
    }
}
fn push_bytes(out: &mut Vec<u8>, b: &[u8])
    ensures
        final(out)@ == old(out)@ + b@,
{
    let ghost start = out@;
    let mut i: usize = 0;
    while i < b.len()
        invariant
            i <= b@.len(),
            out@ == start + b@.subrange(0, i as int),
        decreases b@.len() - i,
    {
        out.push(b[i]);
        assert(b@.subrange(0, i + 1) == b@.subrange(0, i as int).push(b@[i as int]));
        i += 1;
    }
    assert(b@.subrange(0, i as int) == b@);
}

fn push_str(out: &mut Vec<u8>, s: &str)
    ensures
        final(out)@ == old(out)@ + str_bytes(s@),
{
    push_bytes(out, s.as_bytes());
    out.push(0xffu8);
}

fn push_part(out: &mut Vec<u8>, t: HashTarget, p: &PathPart)
    ensures
        final(out)@ == old(out)@ + part_bytes(t, p@),
{
    match p {
        PathPart::Disk(d) => {
            push_len(out, t, 0);
            push_len(out, t, 5);
            out.push(*d);
        },
        PathPart::RootDir => push_len(out, t, 1),
        PathPart::CurDir => push_len(out, t, 2),
        PathPart::ParentDir => push_len(out, t, 3),
        PathPart::Normal(n) => {
            let b = n.as_str().as_bytes();
            push_len(out, t, 4);
            push_len(out, t, b.len());
            push_bytes(out, b);
        },
    }
}

fn push_path(out: &mut Vec<u8>, t: HashTarget, s: &str)
    ensures
        final(out)@ == old(out)@ + path_bytes(t, s@),
{
    let parts = path_components(t.windows, s);
    let ghost start = out@;
    let mut i: usize = 0;
    while i < parts.len()
        invariant
            i <= parts@.len(),
            out@ == start + parts_bytes(t, parts_view(parts@).subrange(0, i as int)),
        decreases parts@.len() - i,
    {
        push_part(out, t, &parts[i]);
        assert(parts_view(parts@).subrange(0, i + 1).drop_last() == parts_view(parts@).subrange(0, i as int));
        i += 1;
    }
    assert(parts_view(parts@).subrange(0, i as int) == parts_view(parts@));
}

fn push_strs(out: &mut Vec<u8>, v: &Vec<String>)
    ensures
        final(out)@ == old(out)@ + strs_bytes(v@),
{
    let ghost start = out@;
    let mut i: usize = 0;
    while i < v.len()
        invariant
            i <= v@.len(),
            out@ == start + strs_bytes(v@.subrange(0, i as int)),
        decreases v@.len() - i,
    {
        push_str(out, v[i].as_str());
        assert(v@.subrange(0, i + 1).drop_last() == v@.subrange(0, i as int));
        i += 1;
    }
    assert(v@.subrange(0, i as int) == v@);
}

fn push_paths(out: &mut Vec<u8>, t: HashTarget, v: &Vec<String>)
    ensures
        final(out)@ == old(out)@ + paths_bytes(t, v@),
{
    let ghost start = out@;
    let mut i: usize = 0;
    while i < v.len()
        invariant
            i <= v@.len(),
            out@ == start + paths_bytes(t, v@.subrange(0, i as int)),
        decreases v@.len() - i,
    {
        push_path(out, t, v[i].as_str());
        assert(v@.subrange(0, i + 1).drop_last() == v@.subrange(0, i as int));
        i += 1;
    }
    assert(v@.subrange(0, i as int) == v@);
}

fn push_local(out: &mut Vec<u8>, t: HashTarget, l: &LocalFingerprint)
    ensures
        final(out)@ == old(out)@ + l.hash_bytes(t),
{
    match l {
        LocalFingerprint::Precalculated(s) => {
            push_len(out, t, 0);
            push_str(out, s.as_str());
        },
        LocalFingerprint::CheckDepInfo { dep_info } => {
            push_len(out, t, 1);
            push_path(out, t, dep_info.as_str());
        },
        LocalFingerprint::RerunIfChanged { output, paths } => {
            push_len(out, t, 2);
            push_path(out, t, output.as_str());
            push_len(out, t, paths.len());
            push_paths(out, t, paths);
        },
        LocalFingerprint::RerunIfEnvChanged { var, val } => {
            push_len(out, t, 3);
            push_str(out, var.as_str());
            match val {
                None => push_len(out, t, 0),
                Some(v) => {
                    push_len(out, t, 1);
                    push_str(out, v.as_str());
                },
            }
        },
    }
}

fn push_locals(out: &mut Vec<u8>, t: HashTarget, v: &Vec<LocalFingerprint>)
    ensures
        final(out)@ == old(out)@ + locals_bytes(t, v@),
{
    let ghost start = out@;
    let mut i: usize = 0;
    while i < v.len()
        invariant
            i <= v@.len(),
            out@ == start + locals_bytes(t, v@.subrange(0, i as int)),
        decreases v@.len() - i,
    {
        push_local(out, t, &v[i]);
        assert(v@.subrange(0, i + 1).drop_last() == v@.subrange(0, i as int));
        i += 1;
    }
    assert(v@.subrange(0, i as int) == v@);
}

fn push_deps(out: &mut Vec<u8>, t: HashTarget, v: &Vec<DepFingerprint>)
    ensures
        final(out)@ == old(out)@ + deps_bytes(t, v@),
{
    let ghost start = out@;
    let mut i: usize = 0;
    while i < v.len()
        invariant
            i <= v@.len(),
            out@ == start + deps_bytes(t, v@.subrange(0, i as int)),
        decreases v@.len() - i,
    {
        let d = &v[i];
        push_u64(out, t, d.pkg_id);
        push_str(out, d.name.as_str());
        out.push(if d.public { 1u8 } else { 0u8 });
        push_u64(out, t, d.fingerprint);
        assert(v@.subrange(0, i + 1).drop_last() == v@.subrange(0, i as int));
        i += 1;
    }
    assert(v@.subrange(0, i as int) == v@);
}

} // verus!
