use vstd::prelude::*;
use vstd::set_lib::{lemma_int_range, lemma_len_subset, set_int_range};

verus! {

/// Every edge of `adj` leads to a node of the graph.
pub open spec fn well_formed(adj: Seq<Vec<usize>>) -> bool {
    forall|j: int, t: int|
        0 <= j < adj.len() && 0 <= t < adj[j]@.len() ==> (#[trigger] adj[j]@[t]) < adj.len()
}

/// `p` is a walk through the graph: its nodes exist and each is reached from the one
/// before it by an edge.
pub open spec fn is_walk(adj: Seq<Vec<usize>>, p: Seq<usize>) -> bool {
    &&& p.len() > 0
    &&& forall|m: int| 0 <= m < p.len() ==> (#[trigger] p[m]) < adj.len()
    &&& forall|m: int| 0 < m < p.len() ==> adj[p[m - 1] as int]@.contains(#[trigger] p[m])
}

/// Node `k` is reached by a walk that starts at a seeded node.
pub open spec fn reached(adj: Seq<Vec<usize>>, seed: Seq<bool>, k: int) -> bool {
    exists|p: Seq<usize>| #[trigger]
        is_walk(adj, p) && seed[p[0] as int] && p.last() == k
}

proof fn lemma_reached_seed(adj: Seq<Vec<usize>>, seed: Seq<bool>, k: usize)
    requires
        k < adj.len(),
        seed[k as int],
    ensures
        reached(adj, seed, k as int),
{
    let p = seq![k];
    assert(is_walk(adj, p));
}

proof fn lemma_reached_step(adj: Seq<Vec<usize>>, seed: Seq<bool>, i: usize, t: usize)
    requires
        reached(adj, seed, i as int),
        adj[i as int]@.contains(t),
        t < adj.len(),
    ensures
        reached(adj, seed, t as int),
{
    let p = choose|p: Seq<usize>| #[trigger] is_walk(adj, p) && seed[p[0] as int] && p.last() == i;
    let q = p.push(t);
    assert forall|m: int| 0 < m < q.len() implies adj[q[m - 1] as int]@.contains(#[trigger] q[m]) by {
        if m < p.len() {
            assert(q[m] == p[m]);
            assert(q[m - 1] == p[m - 1]);
        }
    }
    assert(is_walk(adj, q));
}

/// Along a walk from a seed, in a graph closed under its edges and holding every
/// seed, every node is flagged.
proof fn lemma_closed_holds_walk(adj: Seq<Vec<usize>>, seed: Seq<bool>, flagged: Seq<bool>, p: Seq<usize>, m: int)
    requires
        is_walk(adj, p),
        seed[p[0] as int],
        0 <= m < p.len(),
        flagged.len() == adj.len(),
        forall|k: int| 0 <= k < adj.len() && seed[k] ==> flagged[k],
        forall|k: int, t: int|
            0 <= k < adj.len() && flagged[k] && 0 <= t < adj[k]@.len() ==> flagged[#[trigger] adj[k]@[t] as int],
    ensures
        flagged[p[m] as int],
    decreases m,
{
    if m > 0 {
        lemma_closed_holds_walk(adj, seed, flagged, p, m - 1);
        let prev = p[m - 1] as int;
        assert(adj[prev]@.contains(p[m]));
        let t = choose|t: int| 0 <= t < adj[prev]@.len() && adj[prev]@[t] == p[m];
        assert(flagged[adj[prev]@[t] as int]);
    } else {
        assert(p[0] < adj.len());
    }
}

/// Every flagged node's edges lead to flagged nodes or to nodes still waiting.
spec fn closed_but_work(adj: Seq<Vec<usize>>, flagged: Seq<bool>, work: Seq<usize>) -> bool {
    forall|k: int, t: int|
        0 <= k < adj.len() && flagged[k] && 0 <= t < adj[k]@.len() ==> flagged[#[trigger] adj[k]@[t] as int]
            || work.contains(adj[k]@[t])
}

/// Every seed is flagged or waiting.
spec fn seeds_covered(seed: Seq<bool>, flagged: Seq<bool>, work: Seq<usize>) -> bool {
    forall|k: int| 0 <= k < seed.len() && #[trigger] seed[k] ==> flagged[k] || work.contains(k as usize)
}

/// Every flagged and every waiting node is reached from a seed.
spec fn sound(adj: Seq<Vec<usize>>, seed: Seq<bool>, flagged: Seq<bool>, work: Seq<usize>) -> bool {
    &&& forall|k: int| 0 <= k < adj.len() && #[trigger] flagged[k] ==> reached(adj, seed, k)
    &&& forall|m: int| 0 <= m < work.len() ==> (#[trigger] work[m]) < adj.len() && reached(adj, seed, work[m] as int)
}

spec fn walk_state(adj: Seq<Vec<usize>>, seed: Seq<bool>, flagged: Seq<bool>, work: Seq<usize>) -> bool {
    &&& flagged.len() == adj.len()
    &&& seed.len() == adj.len()
    &&& adj.len() <= usize::MAX
    &&& closed_but_work(adj, flagged, work)
    &&& seeds_covered(seed, flagged, work)
    &&& sound(adj, seed, flagged, work)
}

proof fn lemma_pop_flagged(adj: Seq<Vec<usize>>, seed: Seq<bool>, flagged: Seq<bool>, work: Seq<usize>, i: usize)
    requires
        walk_state(adj, seed, flagged, work.push(i)),
        flagged[i as int],
    ensures
        walk_state(adj, seed, flagged, work),
{
    let old_work = work.push(i);
    assert forall|x: usize| old_work.contains(x) && x != i implies work.contains(x) by {
        let m = choose|m: int| 0 <= m < old_work.len() && old_work[m] == x;
        assert(m < work.len());
        assert(work[m] == x);
    }
    assert forall|m: int| 0 <= m < work.len() implies (#[trigger] work[m]) < adj.len() && reached(adj, seed, work[m] as int) by {
        assert(old_work[m] == work[m]);
    }
    assert forall|k: int, t: int|
        0 <= k < adj.len() && flagged[k] && 0 <= t < adj[k]@.len() implies flagged[#[trigger] adj[k]@[t] as int]
            || work.contains(adj[k]@[t]) by {
        if !flagged[adj[k]@[t] as int] {
            assert(old_work.contains(adj[k]@[t]));
        }
    }
    assert forall|k: int| 0 <= k < seed.len() && #[trigger] seed[k] implies flagged[k] || work.contains(k as usize) by {
        if !flagged[k] {
            assert(old_work.contains(k as usize));
            assert(k as usize != i);
            assert(work.contains(k as usize));
        }
    }
}

proof fn lemma_pop_visit(
    adj: Seq<Vec<usize>>,
    seed: Seq<bool>,
    flagged: Seq<bool>,
    work: Seq<usize>,
    i: usize,
)
    requires
        well_formed(adj),
        walk_state(adj, seed, flagged, work.push(i)),
        !flagged[i as int],
    ensures
        i < adj.len(),
        walk_state(adj, seed, flagged.update(i as int, true), work + adj[i as int]@),
{
    let old_work = work.push(i);
    let row = adj[i as int]@;
    let new_flagged = flagged.update(i as int, true);
    let new_work = work + row;
    assert(old_work[work.len() as int] == i);
    assert(reached(adj, seed, i as int));
    assert forall|x: usize| old_work.contains(x) && x != i implies new_work.contains(x) by {
        let m = choose|m: int| 0 <= m < old_work.len() && old_work[m] == x;
        assert(m < work.len());
        assert(new_work[m] == x);
    }
    assert forall|s: int| 0 <= s < row.len() implies new_work.contains(#[trigger] row[s]) by {
        assert(new_work[work.len() + s] == row[s]);
    }
    assert forall|m: int| 0 <= m < new_work.len() implies (#[trigger] new_work[m]) < adj.len() && reached(
        adj,
        seed,
        new_work[m] as int,
    ) by {
        if m < work.len() {
            assert(old_work[m] == new_work[m]);
        } else {
            let s = m - work.len();
            assert(new_work[m] == row[s]);
            assert(row.contains(row[s]));
            lemma_reached_step(adj, seed, i, row[s]);
        }
    }
    assert forall|k: int, t: int|
        0 <= k < adj.len() && new_flagged[k] && 0 <= t < adj[k]@.len() implies new_flagged[#[trigger] adj[k]@[t] as int]
            || new_work.contains(adj[k]@[t]) by {
        if k == i as int {
            assert(new_work.contains(row[t]));
        } else if !flagged[adj[k]@[t] as int] {
            assert(old_work.contains(adj[k]@[t]));
        }
    }
    assert forall|k: int| 0 <= k < seed.len() && #[trigger] seed[k] implies new_flagged[k] || new_work.contains(k as usize) by {
        if k != i as int && !flagged[k] {
            assert(old_work.contains(k as usize));
            assert(k as usize != i);
            assert(new_work.contains(k as usize));
        }
    }
}

fn push_all(work: &mut Vec<usize>, row: &Vec<usize>)
    ensures
        final(work)@ == old(work)@ + row@,
{
    let ghost start = work@;
    let mut t: usize = 0;
    while t < row.len()
        invariant
            t <= row@.len(),
            work@ == start + row@.subrange(0, t as int),
        decreases row@.len() - t,
    {
        work.push(row[t]);
        assert(row@.subrange(0, t + 1) == row@.subrange(0, t as int).push(row@[t as int]));
        t += 1;
    }
    assert(row@.subrange(0, t as int) == row@);
}

/// Marks every node that a walk from a seeded node reaches: the seeds and, to a
/// fixed point, every node that an edge leads to from a marked node.
pub fn propagate(adj: &Vec<Vec<usize>>, seed: &Vec<bool>) -> (flagged: Vec<bool>)
    requires
        seed@.len() == adj@.len(),
        well_formed(adj@),
    ensures
        flagged@.len() == adj@.len(),
        forall|k: int| 0 <= k < adj@.len() ==> (flagged@[k] <==> reached(adj@, seed@, k)),
{
    let n = adj.len();
    let mut flagged: Vec<bool> = Vec::new();
    let mut work: Vec<usize> = Vec::new();
    let mut i: usize = 0;
    while i < n
        invariant
            n == adj@.len(),
            seed@.len() == n,
            i <= n,
            flagged@.len() == i,
            forall|k: int| 0 <= k < i ==> !flagged@[k],
            forall|m: int| 0 <= m < work@.len() ==> (#[trigger] work@[m]) < i && seed@[work@[m] as int],
            forall|k: int| 0 <= k < i && seed@[k] ==> work@.contains(k as usize),
        decreases n - i,
    {
        flagged.push(false);
        if seed[i] {
            let ghost before = work@;
            work.push(i);
            assert(work@[before.len() as int] == i);
            assert forall|k: int| 0 <= k < i && seed@[k] implies work@.contains(k as usize) by {
                let m = choose|m: int| 0 <= m < before.len() && before[m] == k as usize;
                assert(work@[m] == k as usize);
            }
        }
        i += 1;
    }
    proof {
        assert forall|m: int| 0 <= m < work@.len() implies (#[trigger] work@[m]) < adj@.len() && reached(adj@, seed@, work@[m] as int) by {
            lemma_reached_seed(adj@, seed@, work@[m]);
        }
        assert(walk_state(adj@, seed@, flagged@, work@));
    }
    let ghost mut marked: Set<int> = Set::empty();
    proof {
        lemma_int_range(0, n as int);
    }
    while work.len() > 0
        invariant
            n == adj@.len(),
            well_formed(adj@),
            walk_state(adj@, seed@, flagged@, work@),
            set_int_range(0, n as int).finite(),
            set_int_range(0, n as int).len() == n,
            marked.finite(),
            marked.subset_of(set_int_range(0, n as int)),
            forall|k: int| 0 <= k < n ==> (flagged@[k] <==> #[trigger] marked.contains(k)),
        decreases n - marked.len(), work@.len(),
    {
        proof { lemma_len_subset(marked, set_int_range(0, n as int)); }
        let ghost old_work = work@;
        if let Some(i) = work.pop() {
            assert(old_work == work@.push(i));
            if flagged[i] {
                proof { lemma_pop_flagged(adj@, seed@, flagged@, work@, i); }
            } else {
                proof {
                    lemma_pop_visit(adj@, seed@, flagged@, work@, i);
                    assert(!marked.contains(i as int));
                    marked = marked.insert(i as int);
                }
                flagged.set(i, true);
                push_all(&mut work, &adj[i]);
                proof { lemma_len_subset(marked, set_int_range(0, n as int)); }
            }
        }
    }
    proof {
        assert forall|k: int, t: int|
            0 <= k < n && flagged@[k] && 0 <= t < adj@[k]@.len() implies flagged@[#[trigger] adj@[k]@[t] as int] by {
            assert(!work@.contains(adj@[k]@[t]));
        }
        assert forall|k: int| 0 <= k < n && seed@[k] implies flagged@[k] by {
            assert(!work@.contains(k as usize));
        }
        assert forall|k: int| 0 <= k < n && reached(adj@, seed@, k) implies flagged@[k] by {
            let p = choose|p: Seq<usize>| #[trigger] is_walk(adj@, p) && seed@[p[0] as int] && p.last() == k;
            lemma_closed_holds_walk(adj@, seed@, flagged@, p, p.len() - 1);
        }
    }
    flagged
}

} // verus!
