use vstd::prelude::*;

use std::collections::HashMap;

use crate::fingerprint::{DepFingerprint, Fingerprint, HashTarget};
use crate::graph::{is_walk, propagate, reached, well_formed};
use crate::names::{extract_meta_hash, meta_hash_of};

verus! {

broadcast use vstd::std_specs::hash::group_hash_axioms;

/// A unit loaded from the fingerprint directory: the metadata hash that its
/// directory name carries, and its fingerprint record.
pub struct UnitRecord {
    pub meta_hash: String,
    pub fingerprint: Fingerprint,
}

/// The feature string currently resolved for the package behind a metadata hash.
pub struct FeatureRecord {
    pub meta_hash: String,
    pub features: String,
}

/// What the dependency-info files tell: the metadata hashes whose first source no
/// longer belongs to a current package, and for the others the feature string the
/// current resolution gives them (a later record for a hash replaces an earlier one).
pub struct StaleSeeds {
    pub outdated: Vec<String>,
    pub features: Vec<FeatureRecord>,
}

/// The feature string that the last record for `h` gives.
pub open spec fn feature_for(records: Seq<FeatureRecord>, h: Seq<char>) -> Option<Seq<char>>
    decreases records.len(),
{
    if records.len() == 0 {
        None
    } else if records.last().meta_hash@ == h {
        Some(records.last().features@)
    } else {
        feature_for(records.drop_last(), h)
    }
}

impl StaleSeeds {
    pub open spec fn is_outdated(&self, h: Seq<char>) -> bool {
        exists|m: int| 0 <= m < self.outdated@.len() && (#[trigger] self.outdated@[m])@ == h
    }

    pub open spec fn current_features(&self, h: Seq<char>) -> Option<Seq<char>> {
        feature_for(self.features@, h)
    }

    /// A unit is stale by itself when its metadata hash is outdated, or when the
    /// feature string now resolved for it differs from the one it was built with.
    pub open spec fn seeds(&self, u: UnitRecord) -> bool {
        ||| self.is_outdated(u.meta_hash@)
        ||| (self.current_features(u.meta_hash@) matches Some(f) && f != u.fingerprint.features@)
    }

    /// No records yet.
    pub fn new() -> (r: StaleSeeds)
        ensures
            r.outdated@.len() == 0,
            r.features@.len() == 0,
    {
        StaleSeeds { outdated: Vec::new(), features: Vec::new() }
    }

    /// Records what one dependency-info file gave for `meta_hash`: no feature string
    /// when its source is no longer current, else the current feature string.
    pub fn record(&mut self, meta_hash: String, features: Option<String>)
        ensures
            features is None ==> final(self).outdated@ == old(self).outdated@.push(meta_hash)
                && final(self).features@ == old(self).features@,
            features matches Some(f) ==> final(self).outdated@ == old(self).outdated@
                && final(self).features@ == old(self).features@.push(
                FeatureRecord { meta_hash, features: f },
            ),
    {
        match features {
            None => self.outdated.push(meta_hash),
            Some(f) => self.features.push(FeatureRecord { meta_hash, features: f }),
        }
    }

    fn is_outdated_exec(&self, h: &String) -> (r: bool)
        ensures
            r == self.is_outdated(h@),
    {
        let mut m: usize = 0;
        while m < self.outdated.len()
            invariant
                m <= self.outdated@.len(),
                forall|k: int| 0 <= k < m ==> (#[trigger] self.outdated@[k])@ != h@,
            decreases self.outdated@.len() - m,
        {
            if self.outdated[m] == *h {
                return true;
            }
            m += 1;
        }
        false
    }

    fn current_features_exec(&self, h: &String) -> (r: Option<&String>)
        ensures
            r matches Some(f) ==> self.current_features(h@) == Some(f@),
            r is None ==> self.current_features(h@) is None,
    {
        let mut m = self.features.len();
        assert(self.features@.subrange(0, m as int) == self.features@);
        while m > 0
            invariant
                m <= self.features@.len(),
                feature_for(self.features@, h@) == feature_for(self.features@.subrange(0, m as int), h@),
            decreases m,
        {
            assert(self.features@.subrange(0, m as int).drop_last() == self.features@.subrange(0, m - 1));
            if self.features[m - 1].meta_hash == *h {
                return Some(&self.features[m - 1].features);
            }
            m -= 1;
        }
        None
    }

    /// Whether `u` is stale by itself.
    pub fn is_seed(&self, u: &UnitRecord) -> (r: bool)
        ensures
            r == self.seeds(*u),
    {
        if self.is_outdated_exec(&u.meta_hash) {
            return true;
        }
        match self.current_features_exec(&u.meta_hash) {
            Some(f) => *f != u.fingerprint.features,
            None => false,
        }
    }
}

/// The canonical hashes of the units on target `t`, in order.
pub open spec fn unit_hashes(units: Seq<UnitRecord>, t: HashTarget) -> Seq<u64> {
    units.map_values(|u: UnitRecord| u.fingerprint.spec_hash(t))
}

/// The unit that the hash index gives for `h`: the last one with that canonical hash.
pub open spec fn resolve(hashes: Seq<u64>, h: u64) -> Option<int>
    decreases hashes.len(),
{
    if hashes.len() == 0 {
        None
    } else if hashes.last() == h {
        Some(hashes.len() - 1)
    } else {
        resolve(hashes.drop_last(), h)
    }
}

proof fn lemma_resolve_bounds(hashes: Seq<u64>, h: u64)
    ensures
        resolve(hashes, h) matches Some(j) ==> 0 <= j < hashes.len() && hashes[j] == h,
    decreases hashes.len(),
{
    if hashes.len() > 0 && hashes.last() != h {
        lemma_resolve_bounds(hashes.drop_last(), h);
    }
}

/// Unit `i` lists among its dependencies a hash that resolves, among the units'
/// hashes `hashes`, to unit `j`: a reverse-dependency edge from `j` to `i`.
pub open spec fn depends_on(units: Seq<UnitRecord>, hashes: Seq<u64>, i: int, j: int) -> bool {
    exists|d: int|
        0 <= d < units[i].fingerprint.deps@.len() && resolve(
            hashes,
            (#[trigger] units[i].fingerprint.deps@[d]).fingerprint,
        ) == Some(j)
}

/// `p` is a chain of units, each depending on the one before it.
pub open spec fn is_chain(units: Seq<UnitRecord>, hashes: Seq<u64>, p: Seq<usize>) -> bool {
    &&& p.len() > 0
    &&& forall|m: int| 0 <= m < p.len() ==> (#[trigger] p[m]) < units.len()
    &&& forall|m: int| 0 < m < p.len() ==> depends_on(units, hashes, #[trigger] p[m] as int, p[m - 1] as int)
}

/// Unit `k` must be purged: a chain of reverse-dependency edges leads to it from a
/// unit that is stale by itself.
pub open spec fn is_stale(units: Seq<UnitRecord>, hashes: Seq<u64>, seeds: StaleSeeds, k: int) -> bool {
    exists|p: Seq<usize>| #[trigger]
        is_chain(units, hashes, p) && seeds.seeds(units[p[0] as int]) && p.last() == k
}

/// The metadata hashes of the units that must be purged, when `hashes` are the
/// units' canonical hashes.
pub open spec fn stale_set(units: Seq<UnitRecord>, hashes: Seq<u64>, seeds: StaleSeeds) -> Set<Seq<char>> {
    Set::new(
        |h: Seq<char>|
            exists|k: int|
                0 <= k < units.len() && is_stale(units, hashes, seeds, k) && (#[trigger] units[k]).meta_hash@ == h,
    )
}

/// The metadata hashes of the units that must be purged, their records written on
/// target `t`.
pub open spec fn stale_hashes(units: Seq<UnitRecord>, seeds: StaleSeeds, t: HashTarget) -> Set<Seq<char>> {
    stale_set(units, unit_hashes(units, t), seeds)
}

/// The texts of a list of strings, as a set.
pub open spec fn text_set(v: Seq<String>) -> Set<Seq<char>> {
    Set::new(|h: Seq<char>| exists|m: int| 0 <= m < v.len() && (#[trigger] v[m])@ == h)
}

/// The metadata hashes whose entries are to be deleted.
pub struct RemovalSet {
    pub hashes: Vec<String>,
}

impl View for RemovalSet {
    type V = Set<Seq<char>>;

    open spec fn view(&self) -> Set<Seq<char>> {
        text_set(self.hashes@)
    }
}

impl RemovalSet {
    /// Whether the metadata hash `h` is to be removed.
    pub fn contains(&self, h: &String) -> (r: bool)
        ensures
            r == self@.contains(h@),
    {
        let mut m: usize = 0;
        while m < self.hashes.len()
            invariant
                m <= self.hashes@.len(),
                forall|k: int| 0 <= k < m ==> (#[trigger] self.hashes@[k])@ != h@,
            decreases self.hashes@.len() - m,
        {
            if self.hashes[m] == *h {
                assert(self@.contains(h@));
                return true;
            }
            m += 1;
        }
        false
    }

    /// Whether the directory entry with file stem `stem` is to be deleted: the
    /// metadata hash that the stem carries is in the set.
    pub fn removes(&self, stem: &str) -> (r: bool)
        ensures
            r == self@.contains(meta_hash_of(stem@)),
    {
        let h = extract_meta_hash(stem);
        self.contains(&h)
    }
}

fn hash_units(units: &Vec<UnitRecord>, t: HashTarget) -> (r: Vec<u64>)
    ensures
        r@ == unit_hashes(units@, t),
{
    let mut r: Vec<u64> = Vec::new();
    let mut i: usize = 0;
    while i < units.len()
        invariant
            i <= units@.len(),
            r@ == unit_hashes(units@.subrange(0, i as int), t),
        decreases units@.len() - i,
    {
        let h = units[i].fingerprint.get_hash(t);
        r.push(h);
        assert(unit_hashes(units@.subrange(0, i + 1), t) == unit_hashes(units@.subrange(0, i as int), t).push(h));
        i += 1;
    }
    assert(units@.subrange(0, i as int) == units@);
    r
}

/// The hash index: each canonical hash to the last unit that has it.
fn index_hashes(hashes: &Vec<u64>) -> (r: HashMap<u64, usize>)
    ensures
        forall|h: u64| #[trigger] r@.contains_key(h) <==> resolve(hashes@, h) is Some,
        forall|h: u64| r@.contains_key(h) ==> resolve(hashes@, h) == Some(#[trigger] r@[h] as int),
{
    let mut r: HashMap<u64, usize> = HashMap::new();
    let mut i: usize = 0;
    while i < hashes.len()
        invariant
            i <= hashes@.len(),
            forall|h: u64| #[trigger] r@.contains_key(h) <==> resolve(hashes@.subrange(0, i as int), h) is Some,
            forall|h: u64| r@.contains_key(h) ==> resolve(hashes@.subrange(0, i as int), h) == Some(#[trigger] r@[h] as int),
        decreases hashes@.len() - i,
    {
        assert(hashes@.subrange(0, i + 1).drop_last() == hashes@.subrange(0, i as int));
        r.insert(hashes[i], i);
        i += 1;
    }
    assert(hashes@.subrange(0, i as int) == hashes@);
    r
}

/// One of the first `d` dependencies resolves to unit `j`.
spec fn hits(hashes: Seq<u64>, deps: Seq<DepFingerprint>, d: int, j: int) -> bool {
    exists|e: int| 0 <= e < d && resolve(hashes, (#[trigger] deps[e]).fingerprint) == Some(j)
}

/// Adds `i` to the row of every unit that one of `deps` resolves to.
fn add_edges(
    adj: &mut Vec<Vec<usize>>,
    i: usize,
    deps: &Vec<DepFingerprint>,
    index: &HashMap<u64, usize>,
    hashes: &Vec<u64>,
)
    requires
        forall|h: u64| #[trigger] index@.contains_key(h) <==> resolve(hashes@, h) is Some,
        forall|h: u64| index@.contains_key(h) ==> resolve(hashes@, h) == Some(#[trigger] index@[h] as int),
        old(adj)@.len() == hashes@.len(),
    ensures
        final(adj)@.len() == old(adj)@.len(),
        forall|j: int, x: usize|
            0 <= j < old(adj)@.len() ==> (#[trigger] final(adj)@[j]@.contains(x) <==> old(adj)@[j]@.contains(x)
                || x == i && hits(hashes@, deps@, deps@.len() as int, j)),
{
    let ghost start = adj@;
    let n = adj.len();
    let mut d: usize = 0;
    while d < deps.len()
        invariant
            forall|h: u64| #[trigger] index@.contains_key(h) <==> resolve(hashes@, h) is Some,
            forall|h: u64| index@.contains_key(h) ==> resolve(hashes@, h) == Some(#[trigger] index@[h] as int),
            n == hashes@.len(),
            start.len() == n,
            d <= deps@.len(),
            adj@.len() == n,
            forall|j: int, x: usize|
                0 <= j < n ==> (#[trigger] adj@[j]@.contains(x) <==> start[j]@.contains(x) || x == i && hits(
                    hashes@,
                    deps@,
                    d as int,
                    j,
                )),
        decreases deps@.len() - d,
    {
        let h = deps[d].fingerprint;
        let ghost before = adj@;
        assert forall|j: int| #[trigger] hits(hashes@, deps@, d + 1, j) <==> hits(hashes@, deps@, d as int, j)
            || resolve(hashes@, h) == Some(j) by {
            if hits(hashes@, deps@, d + 1, j) && !hits(hashes@, deps@, d as int, j) {
                let e = choose|e: int| 0 <= e < d + 1 && resolve(hashes@, (#[trigger] deps@[e]).fingerprint) == Some(j);
                assert(e == d);
            }
            if resolve(hashes@, h) == Some(j) {
                assert(resolve(hashes@, deps@[d as int].fingerprint) == Some(j));
            }
        }
        match index.get(&h) {
            Some(jr) => {
                let j = *jr;
                proof { lemma_resolve_bounds(hashes@, h); }
                adj[j].push(i);
                assert(adj@[j as int]@ == before[j as int]@.push(i));
                assert(forall|jj: int| 0 <= jj < n && jj != j ==> adj@[jj] == before[jj]);
                assert forall|jj: int, x: usize| 0 <= jj < n implies (#[trigger] adj@[jj]@.contains(x)
                    <==> before[jj]@.contains(x) || x == i && jj == j as int) by {
                    if jj == j as int {
                        let row = adj@[jj]@;
                        let old_row = before[jj]@;
                        assert(row == old_row.push(i));
                        if row.contains(x) && x != i {
                            let m = choose|m: int| 0 <= m < row.len() && row[m] == x;
                            assert(m < old_row.len());
                            assert(old_row[m] == x);
                        }
                        if old_row.contains(x) {
                            let m = choose|m: int| 0 <= m < old_row.len() && old_row[m] == x;
                            assert(row[m] == x);
                        }
                        if x == i {
                            assert(row[old_row.len() as int] == x);
                        }
                    } else {
                        assert(adj@[jj] == before[jj]);
                    }
                }
            },
            None => {},
        }
        d += 1;
    }
}

/// The reverse-dependency edges: row `j` lists the units that depend on unit `j`.
fn reverse_edges(units: &Vec<UnitRecord>, hashes: &Vec<u64>) -> (adj: Vec<Vec<usize>>)
    requires
        hashes@.len() == units@.len(),
    ensures
        adj@.len() == units@.len(),
        well_formed(adj@),
        forall|j: int, x: usize|
            0 <= j < units@.len() ==> (#[trigger] adj@[j]@.contains(x) <==> x < units@.len() && depends_on(units@, hashes@, x as int, j)),
{
    let n = units.len();
    let index = index_hashes(hashes);
    let mut adj: Vec<Vec<usize>> = Vec::new();
    let mut k: usize = 0;
    while k < n
        invariant
            n == units@.len(),
            k <= n,
            adj@.len() == k,
            forall|j: int| 0 <= j < k ==> (#[trigger] adj@[j])@.len() == 0,
        decreases n - k,
    {
        adj.push(Vec::new());
        k += 1;
    }
    let mut i: usize = 0;
    while i < n
        invariant
            n == units@.len(),
            hashes@.len() == n,
            forall|h: u64| #[trigger] index@.contains_key(h) <==> resolve(hashes@, h) is Some,
            forall|h: u64| index@.contains_key(h) ==> resolve(hashes@, h) == Some(#[trigger] index@[h] as int),
            i <= n,
            adj@.len() == n,
            forall|j: int, x: usize|
                0 <= j < n ==> (#[trigger] adj@[j]@.contains(x) <==> x < i && depends_on(units@, hashes@, x as int, j)),
        decreases n - i,
    {
        let deps = &units[i].fingerprint.deps;
        add_edges(&mut adj, i, deps, &index, hashes);
        assert forall|j: int| 0 <= j < n implies #[trigger] hits(hashes@, deps@, deps@.len() as int, j)
            == depends_on(units@, hashes@, i as int, j) by {
            if depends_on(units@, hashes@, i as int, j) {
                let e = choose|e: int|
                    0 <= e < units@[i as int].fingerprint.deps@.len() && resolve(
                        hashes@,
                        (#[trigger] units@[i as int].fingerprint.deps@[e]).fingerprint,
                    ) == Some(j);
                assert(deps@[e] == units@[i as int].fingerprint.deps@[e]);
            }
        }
        i += 1;
    }
    assert forall|j: int, t: int| 0 <= j < adj@.len() && 0 <= t < adj@[j]@.len() implies (#[trigger] adj@[j]@[t])
        < adj@.len() by {
        assert(adj@[j]@.contains(adj@[j]@[t]));
    }
    adj
}

proof fn lemma_walk_is_chain(units: Seq<UnitRecord>, hashes: Seq<u64>, adj: Seq<Vec<usize>>, p: Seq<usize>)
    requires
        adj.len() == units.len(),
        forall|j: int, x: usize|
            0 <= j < units.len() ==> (#[trigger] adj[j]@.contains(x) <==> x < units.len() && depends_on(units, hashes, x as int, j)),
    ensures
        is_walk(adj, p) <==> is_chain(units, hashes, p),
{
    if is_walk(adj, p) {
        assert forall|m: int| 0 < m < p.len() implies depends_on(units, hashes, #[trigger] p[m] as int, p[m - 1] as int) by {
            assert(p[m - 1] < adj.len());
            assert(adj[p[m - 1] as int]@.contains(p[m]));
        }
    }
    if is_chain(units, hashes, p) {
        assert forall|m: int| 0 < m < p.len() implies adj[p[m - 1] as int]@.contains(#[trigger] p[m]) by {
            assert(p[m - 1] < units.len());
            assert(depends_on(units, hashes, p[m] as int, p[m - 1] as int));
        }
    }
}

proof fn lemma_reached_is_stale(units: Seq<UnitRecord>, hashes: Seq<u64>, seeds: StaleSeeds, adj: Seq<Vec<usize>>, seed: Seq<bool>, k: int)
    requires
        adj.len() == units.len(),
        seed.len() == units.len(),
        forall|j: int| 0 <= j < units.len() ==> seed[j] == seeds.seeds(#[trigger] units[j]),
        forall|j: int, x: usize|
            0 <= j < units.len() ==> (#[trigger] adj[j]@.contains(x) <==> x < units.len() && depends_on(units, hashes, x as int, j)),
    ensures
        reached(adj, seed, k) <==> is_stale(units, hashes, seeds, k),
{
    if reached(adj, seed, k) {
        let p = choose|p: Seq<usize>| #[trigger] is_walk(adj, p) && seed[p[0] as int] && p.last() == k;
        lemma_walk_is_chain(units, hashes, adj, p);
        assert(p[0] < units.len());
        assert(is_chain(units, hashes, p) && seeds.seeds(units[p[0] as int]) && p.last() == k);
    }
    if is_stale(units, hashes, seeds, k) {
        let p = choose|p: Seq<usize>| #[trigger] is_chain(units, hashes, p) && seeds.seeds(units[p[0] as int]) && p.last() == k;
        lemma_walk_is_chain(units, hashes, adj, p);
        assert(p[0] < units.len());
        assert(is_walk(adj, p) && seed[p[0] as int] && p.last() == k);
    }
}

/// The metadata hashes of the flagged units among the first `k`.
spec fn flagged_hashes(units: Seq<UnitRecord>, flagged: Seq<bool>, k: int) -> Set<Seq<char>> {
    Set::new(|h: Seq<char>| exists|j: int| 0 <= j < k && flagged[j] && (#[trigger] units[j]).meta_hash@ == h)
}

/// Runs the staleness engine on units whose canonical hashes are `hashes`: links
/// every unit to the units it depends on through the hash index, marks the units
/// that are stale by themselves and everything that depends on them, directly or
/// not, and gives the metadata hashes of all marked units.
pub fn mark_stale_hashed(units: &Vec<UnitRecord>, hashes: &Vec<u64>, seeds: &StaleSeeds) -> (r: RemovalSet)
    requires
        hashes@.len() == units@.len(),
    ensures
        r@ == stale_set(units@, hashes@, *seeds),
{
    let n = units.len();
    let adj = reverse_edges(units, hashes);
    let mut seed: Vec<bool> = Vec::new();
    let mut k: usize = 0;
    while k < n
        invariant
            n == units@.len(),
            k <= n,
            seed@.len() == k,
            forall|j: int| 0 <= j < k ==> seed@[j] == seeds.seeds(#[trigger] units@[j]),
        decreases n - k,
    {
        let b = seeds.is_seed(&units[k]);
        seed.push(b);
        k += 1;
    }
    let flagged = propagate(&adj, &seed);
    let mut out: Vec<String> = Vec::new();
    let mut k: usize = 0;
    while k < n
        invariant
            n == units@.len(),
            flagged@.len() == n,
            k <= n,
            text_set(out@) == flagged_hashes(units@, flagged@, k as int),
        decreases n - k,
    {
        let ghost before = out@;
        if flagged[k] {
            out.push(units[k].meta_hash.clone());
        }
        assert(text_set(out@) =~= flagged_hashes(units@, flagged@, k + 1)) by {
            assert forall|h: Seq<char>| flagged_hashes(units@, flagged@, k + 1).contains(h) implies text_set(out@).contains(h) by {
                let j = choose|j: int| 0 <= j < k + 1 && flagged@[j] && (#[trigger] units@[j]).meta_hash@ == h;
                if j < k {
                    assert(flagged_hashes(units@, flagged@, k as int).contains(h));
                    let m = choose|m: int| 0 <= m < before.len() && (#[trigger] before[m])@ == h;
                    assert(out@[m] == before[m]);
                } else {
                    assert(out@[before.len() as int]@ == h);
                }
            }
            assert forall|h: Seq<char>| text_set(out@).contains(h) implies flagged_hashes(
                units@,
                flagged@,
                k + 1,
            ).contains(h) by {
                let m = choose|m: int| 0 <= m < out@.len() && (#[trigger] out@[m])@ == h;
                if m < before.len() {
                    assert(before[m] == out@[m]);
                    assert(text_set(before).contains(h));
                } else {
                    assert(units@[k as int].meta_hash@ == h);
                }
            }
        }
        k += 1;
    }
    let r = RemovalSet { hashes: out };
    assert(r@ =~= stale_set(units@, hashes@, *seeds)) by {
        assert forall|j: int| 0 <= j < n implies flagged@[j] == is_stale(units@, hashes@, *seeds, j) by {
            lemma_reached_is_stale(units@, hashes@, *seeds, adj@, seed@, j);
        }
    }
    r
}

/// Runs the staleness engine on units loaded from the fingerprint directory, with
/// their canonical hashes as the build tool of target `t` computes them.
pub fn mark_stale(units: &Vec<UnitRecord>, seeds: &StaleSeeds, t: HashTarget) -> (r: RemovalSet)
    ensures
        r@ == stale_hashes(units@, *seeds, t),
{
    let hashes = hash_units(units, t);
    mark_stale_hashed(units, &hashes, seeds)
}

/// Staleness travels along reverse-dependency edges: when unit `x` is stale and a
/// chain of units, each depending on the one before it, leads from `x` to a unit
/// `y`, then `y` is stale too.
pub proof fn lemma_stale_closed(units: Seq<UnitRecord>, hashes: Seq<u64>, seeds: StaleSeeds, q: Seq<usize>)
    requires
        is_chain(units, hashes, q),
        is_stale(units, hashes, seeds, q[0] as int),
    ensures
        is_stale(units, hashes, seeds, q.last() as int),
{
    let p = choose|p: Seq<usize>| #[trigger] is_chain(units, hashes, p) && seeds.seeds(units[p[0] as int]) && p.last() == q[0] as int;
    let w = p + q.drop_first();
    assert forall|m: int| 0 <= m < w.len() implies (#[trigger] w[m]) < units.len() by {
        if m >= p.len() {
            assert(w[m] == q[m - p.len() + 1]);
        }
    }
    assert forall|m: int| 0 < m < w.len() implies depends_on(units, hashes, #[trigger] w[m] as int, w[m - 1] as int) by {
        if m < p.len() {
            assert(w[m] == p[m] && w[m - 1] == p[m - 1]);
        } else if m == p.len() {
            assert(w[m] == q[1]);
            assert(w[m - 1] == p.last());
            assert(depends_on(units, hashes, q[1] as int, q[0] as int));
        } else {
            assert(w[m] == q[m - p.len() + 1]);
            assert(w[m - 1] == q[m - p.len()]);
            assert(depends_on(units, hashes, q[m - p.len() + 1] as int, q[m - p.len()] as int));
        }
    }
    if q.len() == 1 {
        assert(w == p);
    } else {
        assert(w.last() == q.last());
    }
    assert(is_chain(units, hashes, w) && seeds.seeds(units[w[0] as int]) && w.last() == q.last() as int);
}

/// Closure over the records themselves: when unit `p[0]` is stale by itself and
/// each unit `p[m]` lists the canonical hash (on target `t`) of `p[m - 1]` among its
/// dependencies, the metadata hash of the last unit is removed, so long as no two
/// units share a canonical hash.
pub proof fn lemma_listed_chain_stale(units: Seq<UnitRecord>, seeds: StaleSeeds, t: HashTarget, p: Seq<usize>)
    requires
        forall|a: int, b: int|
            0 <= a < units.len() && 0 <= b < units.len() && a != b ==> units[a].fingerprint.spec_hash(t)
                != units[b].fingerprint.spec_hash(t),
        p.len() > 0,
        forall|m: int| 0 <= m < p.len() ==> (#[trigger] p[m]) < units.len(),
        seeds.seeds(units[p[0] as int]),
        forall|m: int|
            0 < m < p.len() ==> exists|d: int|
                0 <= d < units[#[trigger] p[m] as int].fingerprint.deps@.len()
                    && units[p[m] as int].fingerprint.deps@[d].fingerprint == units[p[m - 1] as int].fingerprint.spec_hash(t),
    ensures
        stale_hashes(units, seeds, t).contains(units[p.last() as int].meta_hash@),
{
    let hashes = unit_hashes(units, t);
    assert forall|m: int| 0 < m < p.len() implies depends_on(units, hashes, #[trigger] p[m] as int, p[m - 1] as int) by {
        let j = p[m - 1] as int;
        assert(p[m - 1] < units.len());
        let d = choose|d: int|
            0 <= d < units[p[m] as int].fingerprint.deps@.len()
                && units[p[m] as int].fingerprint.deps@[d].fingerprint == units[j].fingerprint.spec_hash(t);
        lemma_resolve_unique(hashes, j);
        assert(resolve(hashes, units[p[m] as int].fingerprint.deps@[d].fingerprint) == Some(j));
    }
    assert(is_chain(units, hashes, p) && seeds.seeds(units[p[0] as int]) && p.last() == p.last() as int);
    assert(is_stale(units, hashes, seeds, p.last() as int));
    let k = p.last() as int;
    assert(p[p.len() - 1] < units.len());
    assert(0 <= k < units.len() && is_stale(units, hashes, seeds, k) && units[k].meta_hash@ == units[k].meta_hash@);
}

/// A unit that no chain from a unit stale by itself reaches is not stale.
pub proof fn lemma_unreached_not_stale(units: Seq<UnitRecord>, hashes: Seq<u64>, seeds: StaleSeeds, z: int)
    requires
        forall|p: Seq<usize>| #[trigger] is_chain(units, hashes, p) && p.last() == z ==> !seeds.seeds(units[p[0] as int]),
    ensures
        !is_stale(units, hashes, seeds, z),
{
}

proof fn lemma_resolve_unique(hashes: Seq<u64>, j: int)
    requires
        0 <= j < hashes.len(),
        forall|a: int, b: int| 0 <= a < hashes.len() && 0 <= b < hashes.len() && a != b ==> hashes[a] != hashes[b],
    ensures
        resolve(hashes, hashes[j]) == Some(j),
    decreases hashes.len(),
{
    if j < hashes.len() - 1 {
        let t = hashes.drop_last();
        assert(hashes.last() != hashes[j]);
        lemma_resolve_unique(t, j);
    }
}

proof fn lemma_depends_permuted(
    units: Seq<UnitRecord>,
    units2: Seq<UnitRecord>,
    hashes: Seq<u64>,
    hashes2: Seq<u64>,
    perm: Seq<int>,
    inv: Seq<int>,
    i: int,
    j: int,
)
    requires
        units2.len() == units.len(),
        perm.len() == units.len(),
        inv.len() == units.len(),
        forall|a: int| 0 <= a < units.len() ==> 0 <= #[trigger] perm[a] < units.len() && inv[perm[a]] == a,
        forall|a: int| 0 <= a < units.len() ==> 0 <= #[trigger] inv[a] < units.len() && perm[inv[a]] == a,
        hashes.len() == units.len(),
        hashes2.len() == units.len(),
        forall|a: int| 0 <= a < units.len() ==> units2[#[trigger] perm[a]] == units[a] && hashes2[perm[a]] == hashes[a],
        forall|a: int, b: int| 0 <= a < units.len() && 0 <= b < units.len() && a != b ==> hashes[a] != hashes[b],
        0 <= i < units.len(),
        0 <= j < units.len(),
    ensures
        depends_on(units, hashes, i, j) <==> depends_on(units2, hashes2, perm[i], perm[j]),
{
    let h1 = hashes;
    let h2 = hashes2;
    assert forall|a: int, b: int| 0 <= a < h2.len() && 0 <= b < h2.len() && a != b implies h2[a] != h2[b] by {
        assert(h2[a] == h1[inv[a]]);
        assert(h2[b] == h1[inv[b]]);
        assert(inv[a] != inv[b]);
    }
    lemma_resolve_unique(h1, j);
    lemma_resolve_unique(h2, perm[j]);
    assert(units2[perm[i]] == units[i]);
    assert(h2[perm[j]] == h1[j]);
    if depends_on(units, hashes, i, j) {
        let d = choose|d: int|
            0 <= d < units[i].fingerprint.deps@.len() && resolve(h1, (#[trigger] units[i].fingerprint.deps@[d]).fingerprint)
                == Some(j);
        lemma_resolve_bounds(h1, units[i].fingerprint.deps@[d].fingerprint);
        assert(resolve(h2, units2[perm[i]].fingerprint.deps@[d].fingerprint) == Some(perm[j]));
    }
    if depends_on(units2, hashes2, perm[i], perm[j]) {
        let d = choose|d: int|
            0 <= d < units2[perm[i]].fingerprint.deps@.len() && resolve(
                h2,
                (#[trigger] units2[perm[i]].fingerprint.deps@[d]).fingerprint,
            ) == Some(perm[j]);
        lemma_resolve_bounds(h2, units2[perm[i]].fingerprint.deps@[d].fingerprint);
        assert(resolve(h1, units[i].fingerprint.deps@[d].fingerprint) == Some(j));
    }
}

proof fn lemma_stale_permuted(
    units: Seq<UnitRecord>,
    units2: Seq<UnitRecord>,
    hashes: Seq<u64>,
    hashes2: Seq<u64>,
    seeds: StaleSeeds,
    perm: Seq<int>,
    inv: Seq<int>,
    k: int,
)
    requires
        units.len() <= usize::MAX,
        units2.len() == units.len(),
        perm.len() == units.len(),
        inv.len() == units.len(),
        forall|a: int| 0 <= a < units.len() ==> 0 <= #[trigger] perm[a] < units.len() && inv[perm[a]] == a,
        forall|a: int| 0 <= a < units.len() ==> 0 <= #[trigger] inv[a] < units.len() && perm[inv[a]] == a,
        hashes.len() == units.len(),
        hashes2.len() == units.len(),
        forall|a: int| 0 <= a < units.len() ==> units2[#[trigger] perm[a]] == units[a] && hashes2[perm[a]] == hashes[a],
        forall|a: int, b: int| 0 <= a < units.len() && 0 <= b < units.len() && a != b ==> hashes[a] != hashes[b],
        0 <= k < units.len(),
        is_stale(units, hashes, seeds, k),
    ensures
        is_stale(units2, hashes2, seeds, perm[k]),
{
    let p = choose|p: Seq<usize>| #[trigger] is_chain(units, hashes, p) && seeds.seeds(units[p[0] as int]) && p.last() == k;
    let q = p.map_values(|x: usize| perm[x as int] as usize);
    assert forall|m: int| 0 <= m < q.len() implies (#[trigger] q[m]) < units2.len() && q[m] as int == perm[p[m] as int] by {
        assert(p[m] < units.len());
    }
    assert forall|m: int| 0 < m < q.len() implies depends_on(units2, hashes2, #[trigger] q[m] as int, q[m - 1] as int) by {
        assert(p[m] < units.len() && p[m - 1] < units.len());
        assert(depends_on(units, hashes, p[m] as int, p[m - 1] as int));
        lemma_depends_permuted(units, units2, hashes, hashes2, perm, inv, p[m] as int, p[m - 1] as int);
        assert(q[m - 1] as int == perm[p[m - 1] as int]);
    }
    assert(units2[q[0] as int] == units[p[0] as int]);
    assert(is_chain(units2, hashes2, q) && seeds.seeds(units2[q[0] as int]) && q.last() == perm[k]);
}

/// The set of metadata hashes to remove does not depend on the order in which the
/// units were loaded: listing the same units, with their hashes, in any other
/// order, given by the permutation `perm` with inverse `inv`, gives the same set,
/// so long as no two units share a canonical hash.
pub proof fn lemma_stale_order_independent(
    units: Seq<UnitRecord>,
    units2: Seq<UnitRecord>,
    hashes: Seq<u64>,
    hashes2: Seq<u64>,
    seeds: StaleSeeds,
    perm: Seq<int>,
    inv: Seq<int>,
)
    requires
        units.len() <= usize::MAX,
        units2.len() == units.len(),
        perm.len() == units.len(),
        inv.len() == units.len(),
        forall|a: int| 0 <= a < units.len() ==> 0 <= #[trigger] perm[a] < units.len() && inv[perm[a]] == a,
        forall|a: int| 0 <= a < units.len() ==> 0 <= #[trigger] inv[a] < units.len() && perm[inv[a]] == a,
        hashes.len() == units.len(),
        hashes2.len() == units.len(),
        forall|a: int| 0 <= a < units.len() ==> units2[#[trigger] perm[a]] == units[a] && hashes2[perm[a]] == hashes[a],
        forall|a: int, b: int| 0 <= a < units.len() && 0 <= b < units.len() && a != b ==> hashes[a] != hashes[b],
    ensures
        stale_set(units, hashes, seeds) == stale_set(units2, hashes2, seeds),
{
    assert forall|a: int| 0 <= a < units.len() implies units[#[trigger] inv[a]] == units2[a] by {
        assert(units2[perm[inv[a]]] == units[inv[a]]);
    }
    assert forall|a: int| 0 <= a < units.len() implies hashes[#[trigger] inv[a]] == hashes2[a] by {
        assert(hashes2[perm[inv[a]]] == hashes[inv[a]]);
    }
    assert forall|a: int, b: int| 0 <= a < units2.len() && 0 <= b < units2.len() && a != b implies hashes2[a]
        != hashes2[b] by {
        assert(hashes2[a] == hashes[inv[a]]);
        assert(hashes2[b] == hashes[inv[b]]);
    }
    assert forall|h: Seq<char>| stale_set(units, hashes, seeds).contains(h) implies stale_set(units2, hashes2, seeds).contains(h) by {
        let k = choose|k: int| 0 <= k < units.len() && is_stale(units, hashes, seeds, k) && (#[trigger] units[k]).meta_hash@ == h;
        lemma_stale_permuted(units, units2, hashes, hashes2, seeds, perm, inv, k);
        assert(units2[perm[k]] == units[k]);
    }
    assert forall|h: Seq<char>| stale_set(units2, hashes2, seeds).contains(h) implies stale_set(units, hashes, seeds).contains(h) by {
        let k = choose|k: int| 0 <= k < units2.len() && is_stale(units2, hashes2, seeds, k) && (#[trigger] units2[k]).meta_hash@ == h;
        lemma_stale_permuted(units2, units, hashes2, hashes, seeds, inv, perm, k);
        assert(units[inv[k]] == units2[k]);
    }
    assert(stale_set(units, hashes, seeds) =~= stale_set(units2, hashes2, seeds));
}

/// What is left of the seeds once the entries whose metadata hash is in `removed`
/// are deleted: the dependency-info files of those entries are gone.
pub open spec fn seeds_after(seeds: StaleSeeds, removed: Set<Seq<char>>) -> (Seq<String>, Seq<FeatureRecord>) {
    (
        seeds.outdated@.filter(|h: String| !removed.contains(h@)),
        seeds.features@.filter(|f: FeatureRecord| !removed.contains(f.meta_hash@)),
    )
}

proof fn lemma_feature_for_filtered(v: Seq<FeatureRecord>, removed: Set<Seq<char>>, h: Seq<char>)
    requires
        !removed.contains(h),
    ensures
        feature_for(v.filter(|f: FeatureRecord| !removed.contains(f.meta_hash@)), h) == feature_for(v, h),
    decreases v.len(),
{
    reveal(Seq::filter);
    let pred = |f: FeatureRecord| !removed.contains(f.meta_hash@);
    if v.len() > 0 {
        lemma_feature_for_filtered(v.drop_last(), removed, h);
        let sub = v.drop_last().filter(pred);
        if pred(v.last()) {
            assert(v.filter(pred) == sub.push(v.last()));
            assert(sub.push(v.last()).drop_last() == sub);
        } else {
            assert(v.filter(pred) == sub);
        }
    }
}

/// Sweeping twice with no build in between removes nothing the second time: once
/// the units and the dependency-info files whose metadata hash the first sweep
/// removed are gone, no unit left is stale.
pub proof fn lemma_sweep_idempotent(units: Seq<UnitRecord>, seeds: StaleSeeds, seeds2: StaleSeeds, t: HashTarget)
    requires
        units.len() <= usize::MAX,
        seeds2.outdated@ == seeds_after(seeds, stale_hashes(units, seeds, t)).0,
        seeds2.features@ == seeds_after(seeds, stale_hashes(units, seeds, t)).1,
    ensures
        stale_hashes(units.filter(|u: UnitRecord| !stale_hashes(units, seeds, t).contains(u.meta_hash@)), seeds2, t)
            == Set::<Seq<char>>::empty(),
{
    let removed = stale_hashes(units, seeds, t);
    let pred = |u: UnitRecord| !removed.contains(u.meta_hash@);
    let units2 = units.filter(pred);
    let hashes = unit_hashes(units, t);
    let hashes2 = unit_hashes(units2, t);
    broadcast use vstd::seq_lib::group_filter_ensures;

    assert forall|k: int| 0 <= k < units2.len() implies !seeds2.seeds(#[trigger] units2[k]) by {
        let u = units2[k];
        assert(units2.contains(u));
        units.lemma_filter_contains_rev(pred, u);
        let j = choose|j: int| 0 <= j < units.len() && units[j] == u;
        assert(pred(u));
        if seeds2.seeds(u) {
            let h = u.meta_hash@;
            if seeds2.is_outdated(h) {
                let m = choose|m: int| 0 <= m < seeds2.outdated@.len() && (#[trigger] seeds2.outdated@[m])@ == h;
                let opred = |x: String| !removed.contains(x@);
                assert(seeds2.outdated@.contains(seeds2.outdated@[m]));
                seeds.outdated@.lemma_filter_contains_rev(opred, seeds2.outdated@[m]);
                let m0 = choose|m0: int| 0 <= m0 < seeds.outdated@.len() && seeds.outdated@[m0] == seeds2.outdated@[m];
                assert(seeds.is_outdated(h));
            } else {
                lemma_feature_for_filtered(seeds.features@, removed, h);
            }
            assert(seeds.seeds(units[j]));
            let p = seq![j as usize];
            assert(is_chain(units, hashes, p));
            assert(is_stale(units, hashes, seeds, j));
            assert(removed.contains(h));
        }
    }
    assert forall|h: Seq<char>| !stale_hashes(units2, seeds2, t).contains(h) by {
        if stale_hashes(units2, seeds2, t).contains(h) {
            let k = choose|k: int| 0 <= k < units2.len() && is_stale(units2, hashes2, seeds2, k) && (#[trigger] units2[k]).meta_hash@ == h;
            let p = choose|p: Seq<usize>| #[trigger] is_chain(units2, hashes2, p) && seeds2.seeds(units2[p[0] as int]) && p.last() == k;
            assert(p[0] < units2.len());
        }
    }
    assert(stale_hashes(units2, seeds2, t) =~= Set::<Seq<char>>::empty());
}

} // verus!
