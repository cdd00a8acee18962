//! Evaluation of the rule over the whole population, in contiguous batches.
use vstd::prelude::*;
use vstd::arithmetic::div_mod::{lemma_div_is_ordered_by_denominator, lemma_div_non_zero, lemma_small_mod};
use crate::flock::{DELTA_LIMIT, compute_delta, delta_x, delta_y};
use crate::geometry::{Agent, Delta, Params, Vec2};
use crate::integrate::{DeltaEntry, Region, distinct_agents, integrate, integrated};

verus! {

/// The entry of agent `i`: its velocity change, addressed to it.
pub open spec fn entry_of(store: Seq<Agent>, neighbors: Seq<Vec<usize>>, i: int, target: Option<Vec2>, p: Params) -> DeltaEntry {
    DeltaEntry {
        agent: i as usize,
        delta: Delta {
            x: delta_x(store, i, neighbors[i]@, target, p) as i64,
            y: delta_y(store, i, neighbors[i]@, target, p) as i64,
        },
    }
}

/// The entries of agents `start .. end`, in order.
pub open spec fn range_entries(store: Seq<Agent>, neighbors: Seq<Vec<usize>>, start: int, end: int, target: Option<Vec2>, p: Params) -> Seq<DeltaEntry> {
    Seq::new((end - start) as nat, |k: int| entry_of(store, neighbors, start + k, target, p))
}

/// The entries from agent `start` on, as batches of `size` agents give them,
/// batch after batch.
pub open spec fn batched(store: Seq<Agent>, neighbors: Seq<Vec<usize>>, start: int, size: int, target: Option<Vec2>, p: Params) -> Seq<DeltaEntry>
    decreases store.len() - start,
{
    if start < 0 || start >= store.len() || size <= 0 {
        Seq::empty()
    } else {
        let end = if start + size <= store.len() { start + size } else { store.len() as int };
        range_entries(store, neighbors, start, end, target, p) + batched(store, neighbors, end, size, target, p)
    }
}

/// `ceil(n / workers)`.
pub open spec fn batch_len(n: int, workers: int) -> int {
    n / workers + if n % workers == 0 { 0int } else { 1int }
}

/// The size of each batch when `n` agents are shared among `workers`.
pub fn batch_size(n: usize, workers: usize) -> (r: usize)
    requires
        0 < workers,
    ensures
        r == batch_len(n as int, workers as int),
        0 < n ==> 0 < r,
{
    proof {
        if 0 < n {
            if n >= workers {
                lemma_div_non_zero(n as int, workers as int);
            } else {
                lemma_small_mod(n as nat, workers as nat);
            }
        }
        if workers == 1 {
            assert(n % 1 == 0);
        } else {
            lemma_div_is_ordered_by_denominator(n as int, 2, workers as int);
        }
    }
    let r = n / workers + if n % workers == 0 { 0 } else { 1 };
    r
}

/// The entries of agents `start .. end`, one after another.
pub fn compute_range(store: &Vec<Agent>, neighbors: &Vec<Vec<usize>>, start: usize, end: usize, target: Option<Vec2>, p: &Params) -> (r: Vec<DeltaEntry>)
    requires
        p.wf(),
        neighbors.len() == store.len(),
        start <= end <= store.len(),
    ensures
        r@ == range_entries(store@, neighbors@, start as int, end as int, target, *p),
        forall|k: int| 0 <= k < r.len() ==> (#[trigger] r[k]).wf(),
{
    let mut out: Vec<DeltaEntry> = Vec::new();
    let mut i = start;
    while i < end
        invariant
            p.wf(),
            neighbors.len() == store.len(),
            start <= i <= end <= store.len(),
            out@ == range_entries(store@, neighbors@, start as int, i as int, target, *p),
            forall|k: int| 0 <= k < out.len() ==> (#[trigger] out[k]).wf(),
        decreases end - i,
    {
        let d = compute_delta(store, i, &neighbors[i], target, p);
        out.push(DeltaEntry { agent: i, delta: d });
        assert(out@ =~= range_entries(store@, neighbors@, start as int, i + 1, target, *p));
        i = i + 1;
    }
    out
}

/// Batching leaves the entries as they are: from `start` on, the batches of
/// any positive size give the entries of all agents in order.
pub proof fn lemma_batched_is_range(store: Seq<Agent>, neighbors: Seq<Vec<usize>>, start: int, size: int, target: Option<Vec2>, p: Params)
    requires
        0 <= start <= store.len(),
        0 < size,
    ensures
        batched(store, neighbors, start, size, target, p)
            == range_entries(store, neighbors, start, store.len() as int, target, p),
    decreases store.len() - start,
{
    if start < store.len() {
        let end = if start + size <= store.len() { start + size } else { store.len() as int };
        lemma_batched_is_range(store, neighbors, end, size, target, p);
        assert(range_entries(store, neighbors, start, end, target, p)
            + range_entries(store, neighbors, end, store.len() as int, target, p)
            =~= range_entries(store, neighbors, start, store.len() as int, target, p));
    } else {
        assert(range_entries(store, neighbors, start, store.len() as int, target, p) =~= Seq::empty());
    }
}

/// The entries of the whole population, computed batch by batch with the
/// population shared among `workers`.
pub fn compute_all(store: &Vec<Agent>, neighbors: &Vec<Vec<usize>>, target: Option<Vec2>, p: &Params, workers: usize) -> (r: Vec<DeltaEntry>)
    requires
        p.wf(),
        neighbors.len() == store.len(),
        0 < workers,
    ensures
        r@ == batched(store@, neighbors@, 0, batch_len(store.len() as int, workers as int), target, *p),
        r@ == range_entries(store@, neighbors@, 0, store.len() as int, target, *p),
        forall|k: int| 0 <= k < r.len() ==> (#[trigger] r[k]).wf(),
{
    let n = store.len();
    let size = batch_size(n, workers);
    let mut out: Vec<DeltaEntry> = Vec::new();
    if n == 0 {
        assert(out@ =~= range_entries(store@, neighbors@, 0, 0, target, *p));
        return out;
    }
    proof {
        lemma_batched_is_range(store@, neighbors@, 0, size as int, target, *p);
    }
    let mut start: usize = 0;
    while start < n
        invariant
            p.wf(),
            neighbors.len() == store.len(),
            n == store.len(),
            0 < size,
            start <= n,
            out@ == range_entries(store@, neighbors@, 0, start as int, target, *p),
            forall|k: int| 0 <= k < out.len() ==> (#[trigger] out[k]).wf(),
        decreases n - start,
    {
        let end = if size <= n - start { start + size } else { n };
        let mut part = compute_range(store, neighbors, start, end, target, p);
        let ghost prev = out@;
        let ghost added = part@;
        out.append(&mut part);
        assert forall|k: int| 0 <= k < out.len() implies (#[trigger] out[k]).wf() by {
            if k >= prev.len() {
                assert(out[k] == added[k - prev.len()]);
            }
        }
        assert(out@ =~= range_entries(store@, neighbors@, 0, end as int, target, *p));
        start = end;
    }
    out
}

/// The entries do not depend on how many workers share the population.
pub proof fn lemma_workers_agree(store: Seq<Agent>, neighbors: Seq<Vec<usize>>, target: Option<Vec2>, p: Params, w1: int, w2: int)
    requires
        0 < w1,
        0 < w2,
    ensures
        batched(store, neighbors, 0, batch_len(store.len() as int, w1), target, p)
            == batched(store, neighbors, 0, batch_len(store.len() as int, w2), target, p),
{
    let n = store.len() as int;
    if n == 0 {
        assert(batched(store, neighbors, 0, batch_len(n, w1), target, p) =~= Seq::empty());
        assert(batched(store, neighbors, 0, batch_len(n, w2), target, p) =~= Seq::empty());
    } else {
        lemma_batch_len_positive(n, w1);
        lemma_batch_len_positive(n, w2);
        lemma_batched_is_range(store, neighbors, 0, batch_len(n, w1), target, p);
        lemma_batched_is_range(store, neighbors, 0, batch_len(n, w2), target, p);
    }
}

/// A positive population gives batches of positive size.
pub proof fn lemma_batch_len_positive(n: int, workers: int)
    requires
        0 < n,
        0 < workers,
    ensures
        0 < batch_len(n, workers),
{
    if n >= workers {
        lemma_div_non_zero(n, workers);
    } else {
        lemma_small_mod(n as nat, workers as nat);
    }
}

/// One tick: the entries of the whole population are computed from the store
/// as it stands, in batches shared among `workers`, and only then applied.
pub fn tick(store: &mut Vec<Agent>, neighbors: &Vec<Vec<usize>>, target: Option<Vec2>, p: &Params, region: Region, workers: usize)
    requires
        p.wf(),
        neighbors.len() == old(store).len(),
        0 < workers,
    ensures
        integrated(old(store)@, range_entries(old(store)@, neighbors@, 0, old(store).len() as int, target, *p),
            *p, region, final(store)@),
{
    let deltas = compute_all(store, neighbors, target, p, workers);
    assert(distinct_agents(deltas@));
    integrate(store, &deltas, p, region);
}

} // verus!
