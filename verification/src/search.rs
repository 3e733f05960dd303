use vstd::prelude::*;
use crate::error::HnswError;
use crate::key::{NodeKey, RowKey, Probe, NAN_KEY, F64_MAX_KEY, float_lt, float_gt, spec_float_lt, spec_float_gt, holds_key};
use crate::queue::{NodeQueue, queue_items, queue_new, queue_push, queue_pop, queue_peek, queue_len, queue_entries};
use crate::relation::{IndexRelation, RowView, is_neighbour};

verus! {

/// Pushing onto a sequence adds exactly the pushed element to what it contains.
pub proof fn lemma_push_contains(v0: Seq<NodeKey>, v1: Seq<NodeKey>, k: NodeKey)
    requires
        v1 == v0.push(k),
    ensures
        forall|x: NodeKey| #[trigger] v1.contains(x) <==> (v0.contains(x) || x == k),
{
    assert forall|x: NodeKey| #[trigger] v1.contains(x) <==> (v0.contains(x) || x == k) by {
        if v1.contains(x) && x != k {
            let t = choose|t: int| 0 <= t < v1.len() && v1[t] == x;
            assert(v0[t] == x);
        }
        if v0.contains(x) {
            let t = choose|t: int| 0 <= t < v0.len() && v0[t] == x;
            assert(v1[t] == x);
        }
        if x == k {
            assert(v1[v1.len() - 1] == x);
        }
    }
}

/// `d` is a distance that `dist` can report between `p` and the vector of `k`.
pub open spec fn measured<F: Fn(Probe, NodeKey) -> Option<u64>>(
    dist: F,
    p: Probe,
    k: NodeKey,
    d: u64,
) -> bool {
    dist.ensures((p, k), Some(d))
}

/// The filter can accept node `k`.
pub open spec fn accepted<G: Fn(NodeKey) -> Option<bool>>(filter: G, k: NodeKey) -> bool {
    filter.ensures((k,), Some(true))
}

/// Some entry of the map is a NaN distance.
pub open spec fn holds_nan(m: Map<NodeKey, u64>) -> bool {
    exists|k: NodeKey| #[trigger] m.dom().contains(k) && m[k] == NAN_KEY
}

/// Every entry of `small` is also an entry of `big`, with the same value.
pub open spec fn sub_map(small: Map<NodeKey, u64>, big: Map<NodeKey, u64>) -> bool {
    forall|k: NodeKey| #[trigger] small.dom().contains(k) ==> big.dom().contains(k) && big[k] == small[k]
}

/// Some live link at `level` points at `x`.
pub open spec fn linked_into(rows: Map<RowKey, RowView>, level: i64, x: NodeKey) -> bool {
    exists|k: NodeKey, d: u64| #[trigger] is_neighbour(rows, k, level, false, x, d)
}

/// A live link at `level` goes from `a` to `b`.
pub open spec fn live_link(rows: Map<RowKey, RowView>, level: i64, a: NodeKey, b: NodeKey) -> bool {
    exists|d: u64| #[trigger] is_neighbour(rows, a, level, false, b, d)
}

/// `path` is a walk along live links at `level`.
pub open spec fn walk(rows: Map<RowKey, RowView>, level: i64, path: Seq<NodeKey>) -> bool {
    &&& path.len() > 0
    &&& forall|i: int| 0 <= i < path.len() - 1 ==> #[trigger] live_link(rows, level, path[i], path[i + 1])
}

/// `x` is reachable from a node of `start` along live links at `level`.
#[verifier::opaque]
pub open spec fn reachable(rows: Map<RowKey, RowView>, level: i64, start: Set<NodeKey>, x: NodeKey) -> bool {
    exists|path: Seq<NodeKey>| #[trigger] walk(rows, level, path) && start.contains(path[0]) && path.last() == x
}

/// A node of `start` is reachable from `start`.
pub proof fn lemma_reach_start(rows: Map<RowKey, RowView>, level: i64, start: Set<NodeKey>, x: NodeKey)
    requires
        start.contains(x),
    ensures
        reachable(rows, level, start, x),
{
    reveal(reachable);
    let path = seq![x];
    assert(walk(rows, level, path));
}

/// A live link from a reachable node leads to a reachable node.
pub proof fn lemma_reach_step(
    rows: Map<RowKey, RowView>,
    level: i64,
    start: Set<NodeKey>,
    c: NodeKey,
    x: NodeKey,
    d: u64,
)
    requires
        reachable(rows, level, start, c),
        is_neighbour(rows, c, level, false, x, d),
    ensures
        reachable(rows, level, start, x),
{
    reveal(reachable);
    let p = choose|p: Seq<NodeKey>| #[trigger] walk(rows, level, p) && start.contains(p[0]) && p.last() == c;
    let path = p.push(x);
    assert forall|i: int| 0 <= i < path.len() - 1 implies #[trigger] live_link(rows, level, path[i], path[i + 1]) by {
        if i < p.len() - 1 {
            assert(live_link(rows, level, p[i], p[i + 1]));
        } else {
            assert(path[i] == c && path[i + 1] == x);
        }
    }
    assert(walk(rows, level, path));
    assert(path[0] == p[0]);
}

/// What a search at one level guarantees without a filter: `seen` holds the old
/// queue and the distances measured, the queue holds what it keeps of `seen`,
/// every live neighbour of a kept node was seen, a node is dropped only while
/// at least `ef` are kept, and, unless a NaN distance was kept, nothing dropped
/// is nearer than anything kept.
pub open spec fn beam_result<F: Fn(Probe, NodeKey) -> Option<u64>>(
    rel: IndexRelation,
    probe: Probe,
    level: i64,
    ef: usize,
    dist: F,
    o: Map<NodeKey, u64>,
    f: Map<NodeKey, u64>,
    seen: Map<NodeKey, u64>,
) -> bool {
    &&& sub_map(o, seen)
    &&& forall|x: NodeKey| #[trigger] seen.dom().contains(x) && !o.dom().contains(x) ==> measured(
        dist,
        probe,
        x,
        seen[x],
    ) && linked_into(rel.rows_view(), level, x)
    &&& forall|x: NodeKey| #[trigger] seen.dom().contains(x) ==> reachable(rel.rows_view(), level, o.dom(), x)
    &&& sub_map(f, seen)
    &&& forall|k: NodeKey, n: NodeKey, d: u64|
        f.dom().contains(k) && #[trigger] is_neighbour(rel.rows_view(), k, level, false, n, d)
            ==> seen.dom().contains(n)
    &&& (exists|x: NodeKey| #[trigger] seen.dom().contains(x) && !f.dom().contains(x)) ==> f.len() >= ef
    &&& !holds_nan(f) ==> forall|x: NodeKey, k: NodeKey| #[trigger]
        seen.dom().contains(x) && !f.dom().contains(x) && #[trigger] f.dom().contains(k) ==> f[k]
            <= seen[x]
}

/// Every node of a walk that starts among the kept nodes is kept, when every
/// node met is kept and every live neighbour of a kept node was met.
proof fn lemma_walk_kept(
    rows: Map<RowKey, RowView>,
    level: i64,
    path: Seq<NodeKey>,
    f: Map<NodeKey, u64>,
    seen: Map<NodeKey, u64>,
    n: int,
)
    requires
        walk(rows, level, path),
        f.dom().contains(path[0]),
        forall|x: NodeKey| #[trigger] seen.dom().contains(x) ==> f.dom().contains(x),
        forall|k: NodeKey, x: NodeKey, d: u64|
            f.dom().contains(k) && #[trigger] is_neighbour(rows, k, level, false, x, d) ==> seen.dom().contains(x),
        0 <= n < path.len(),
    ensures
        f.dom().contains(path[n]),
    decreases n,
{
    if n > 0 {
        lemma_walk_kept(rows, level, path, f, seen, n - 1);
        let i = n - 1;
        assert(live_link(rows, level, path[i], path[i + 1]));
        assert(path[i + 1] == path[n]);
        let d = choose|d: u64| #[trigger] is_neighbour(rows, path[n - 1], level, false, path[n], d);
    }
}

/// A search without a filter that starts where fewer than `ef` nodes are
/// reachable drops nothing: every node it started with, and every node
/// reachable from them along live links of the level, ends among the kept
/// nodes.
pub proof fn law_search_keeps_all_reachable<F: Fn(Probe, NodeKey) -> Option<u64>>(
    rel: IndexRelation,
    probe: Probe,
    level: i64,
    ef: usize,
    dist: F,
    o: Map<NodeKey, u64>,
    f: Map<NodeKey, u64>,
    seen: Map<NodeKey, u64>,
    reach: Set<NodeKey>,
)
    requires
        beam_result(rel, probe, level, ef, dist, o, f, seen),
        reach.finite(),
        reach.len() < ef,
        forall|x: NodeKey| #[trigger] reachable(rel.rows_view(), level, o.dom(), x) ==> reach.contains(x),
    ensures
        forall|x: NodeKey| #[trigger] o.dom().contains(x) ==> f.dom().contains(x),
        forall|x: NodeKey| #[trigger] reachable(rel.rows_view(), level, o.dom(), x) ==> f.dom().contains(x),
{
    let rows = rel.rows_view();
    assert(f.dom().subset_of(reach)) by {
        assert forall|x: NodeKey| f.dom().contains(x) implies reach.contains(x) by {
            assert(seen.dom().contains(x));
        }
    }
    vstd::set_lib::lemma_len_subset(f.dom(), reach);
    assert forall|x: NodeKey| #[trigger] seen.dom().contains(x) implies f.dom().contains(x) by {
        if !f.dom().contains(x) {
            assert(f.len() >= ef);
        }
    }
    assert forall|x: NodeKey| #[trigger] o.dom().contains(x) implies f.dom().contains(x) by {
        assert(seen.dom().contains(x));
    }
    assert forall|x: NodeKey| #[trigger] reachable(rows, level, o.dom(), x) implies f.dom().contains(x) by {
        reveal(reachable);
        let path = choose|path: Seq<NodeKey>| #[trigger] walk(rows, level, path) && o.dom().contains(path[0]) && path.last() == x;
        assert(f.dom().contains(path[0]));
        lemma_walk_kept(rows, level, path, f, seen, path.len() - 1);
    }
}

/// What a search at one level guarantees under a filter: the traversal
/// frontier `tn` (at most `ef` nodes, unless it started larger) obeys the law
/// of a search without a filter, and each of its nodes either entered the
/// result `f` at its distance or was rejected by the filter.
pub open spec fn filtered_beam_result<F: Fn(Probe, NodeKey) -> Option<u64>, G: Fn(NodeKey) -> Option<bool>>(
    rel: IndexRelation,
    probe: Probe,
    level: i64,
    ef: usize,
    dist: F,
    filter: G,
    o: Map<NodeKey, u64>,
    f: Map<NodeKey, u64>,
    seen: Map<NodeKey, u64>,
    tn: Map<NodeKey, u64>,
) -> bool {
    &&& tn.dom().finite()
    &&& o.len() <= tn.len()
    &&& tn.len() <= o.len() || tn.len() <= ef
    &&& beam_result(rel, probe, level, ef, dist, o, tn, seen)
    &&& forall|x: NodeKey| #[trigger]
        tn.dom().contains(x) ==> (f.dom().contains(x) && f[x] == tn[x]) || filter.ensures(
            (x,),
            Some(false),
        )
}

/// Searches one level of the graph from the nodes already in `found` (a queue
/// whose priorities are distances, greatest first), keeping at most `ef` of the
/// nearest nodes it meets. With a filter, nodes that the filter rejects still
/// guide the search (through a separate frontier of at most `ef` nodes) but do
/// not enter `found`, which then is not capped.
#[verifier::loop_isolation(false)]
#[verifier::spinoff_prover]
#[verifier::rlimit(40)]
pub fn search_level<F, G>(
    rel: &IndexRelation,
    probe: Probe,
    ef: usize,
    level: i64,
    found: &mut NodeQueue,
    use_filter: bool,
    filter: &G,
    dist: &F,
) -> (r: Result<(), HnswError>) where
    F: Fn(Probe, NodeKey) -> Option<u64>,
    G: Fn(NodeKey) -> Option<bool>,

    requires
        rel.wf(),
        queue_items(*old(found)).dom().finite(),
        forall|p: Probe, k: NodeKey| dist.requires((p, k)),
        forall|k: NodeKey| filter.requires((k,)),
    ensures
        queue_items(*final(found)).dom().finite(),
        match r {
            Ok(()) => {
                &&& !use_filter ==> {
                    &&& queue_items(*old(found)).len() <= queue_items(*final(found)).len()
                    &&& queue_items(*final(found)).len() <= queue_items(*old(found)).len()
                        || queue_items(*final(found)).len() <= ef
                    &&& queue_items(*old(found)).len() >= ef ==> forall|k: NodeKey| #[trigger]
                        queue_items(*final(found)).dom().contains(k) ==> exists|j: NodeKey|
                            queue_items(*old(found)).dom().contains(j) && queue_items(*final(found))[k]
                                <= queue_items(*old(found))[j]
                    &&& exists|seen: Map<NodeKey, u64>|
                        beam_result(
                            *rel,
                            probe,
                            level,
                            ef,
                            *dist,
                            queue_items(*old(found)),
                            queue_items(*final(found)),
                            seen,
                        )
                }
                &&& use_filter ==> {
                    &&& sub_map(queue_items(*old(found)), queue_items(*final(found)))
                    &&& forall|k: NodeKey| #[trigger]
                        queue_items(*final(found)).dom().contains(k) && !queue_items(
                            *old(found),
                        ).dom().contains(k) ==> measured(
                            *dist,
                            probe,
                            k,
                            queue_items(*final(found))[k],
                        ) && accepted(*filter, k)
                    &&& exists|seen: Map<NodeKey, u64>, tn: Map<NodeKey, u64>|
                        filtered_beam_result(
                            *rel,
                            probe,
                            level,
                            ef,
                            *dist,
                            *filter,
                            queue_items(*old(found)),
                            queue_items(*final(found)),
                            seen,
                            tn,
                        )
                }
            },
            Err(HnswError::DistanceUnavailable(k)) => dist.ensures((probe, k), None),
            Err(HnswError::FilterFailed(k)) => use_filter && filter.ensures((k,), None),
            Err(_) => false,
        },
{
    let ghost o = queue_items(*found);
    proof {
        rel.lemma_link_targets();
    }
    let ghost targets = rel.link_targets();
    let entries = queue_entries(found);
    let mut visited: Vec<NodeKey> = Vec::new();
    let mut candidates = queue_new();
    let mut frontier = queue_new();
    let n0: usize = entries.len();
    let mut i: usize = 0;
    while i < n0
        invariant
            n0 == entries.len(),
            i <= n0,
            o == queue_items(*found),
            visited.len() == i,
            forall|t: int| 0 <= t < i ==> visited@[t] == #[trigger] entries@[t].0,
            queue_items(candidates).dom().finite(),
            queue_items(frontier).dom().finite(),
            forall|k: NodeKey|
                #[trigger] queue_items(candidates).dom().contains(k) <==> visited@.contains(k),
            forall|k: NodeKey| #[trigger]
                queue_items(candidates).dom().contains(k) ==> o.dom().contains(k) && queue_items(
                    candidates,
                )[k] == NAN_KEY - o[k],
            use_filter ==> forall|k: NodeKey| #[trigger]
                queue_items(frontier).dom().contains(k) <==> visited@.contains(k),
            use_filter ==> forall|k: NodeKey| #[trigger]
                queue_items(frontier).dom().contains(k) ==> o.dom().contains(k) && queue_items(
                    frontier,
                )[k] == o[k],
            !use_filter ==> queue_items(frontier).dom().is_empty(),
        decreases n0 - i,
    {
        let (k, p) = entries[i];
        proof {
            assert(o.dom().contains(entries@[i as int].0));
        }
        let ghost v0 = visited@;
        visited.push(k);
        queue_push(&mut candidates, k, NAN_KEY - p);
        if use_filter {
            queue_push(&mut frontier, k, p);
        }
        proof {
            lemma_push_contains(v0, visited@, k);
        }
        i = i + 1;
    }
    proof {
        assert forall|k: NodeKey| #[trigger] visited@.contains(k) implies o.dom().contains(k) by {
            assert(queue_items(candidates).dom().contains(k));
        }
        assert forall|k: NodeKey| #[trigger] o.dom().contains(k) implies visited@.contains(k) by {
            let a = choose|a: int| 0 <= a < n0 && entries@[a].0 == k;
            assert(visited@[a] == k);
        }
        if use_filter {
            assert(queue_items(frontier) =~= o);
        }
    }
    let ghost mut seen: Map<NodeKey, u64> = o;
    proof {
        assert forall|x: NodeKey| #[trigger] seen.dom().contains(x) implies reachable(rel.rows_view(), level, o.dom(), x) by {
            lemma_reach_start(rel.rows_view(), level, o.dom(), x);
        }
    }
    let ghost mut expanded: Set<NodeKey> = Set::empty();
    loop
        invariant
            queue_items(*found).dom().finite(),
            queue_items(candidates).dom().finite(),
            queue_items(frontier).dom().finite(),
            forall|k: NodeKey| #[trigger] visited@.contains(k) <==> seen.dom().contains(k),
            sub_map(o, seen),
            forall|x: NodeKey| #[trigger] seen.dom().contains(x) && !o.dom().contains(x) ==> measured(
                *dist,
                probe,
                x,
                seen[x],
            ) && linked_into(rel.rows_view(), level, x),
            forall|x: NodeKey| #[trigger] seen.dom().contains(x) ==> reachable(rel.rows_view(), level, o.dom(), x),
            sub_map(queue_items(*found), seen),
            forall|k: NodeKey| #[trigger]
                queue_items(candidates).dom().contains(k) ==> seen.dom().contains(k) && queue_items(
                    candidates,
                )[k] == NAN_KEY - seen[k],
            !use_filter ==> forall|k: NodeKey| #[trigger]
                queue_items(*found).dom().contains(k) ==> queue_items(candidates).dom().contains(k)
                    || expanded.contains(k),
            forall|c: NodeKey, n: NodeKey, d: u64|
                expanded.contains(c) && #[trigger] is_neighbour(rel.rows_view(), c, level, false, n, d)
                    ==> seen.dom().contains(n),
            !use_filter ==> (holds_nan(queue_items(*found)) || forall|x: NodeKey, k: NodeKey| #[trigger]
                seen.dom().contains(x) && !queue_items(*found).dom().contains(x)
                    && #[trigger] queue_items(*found).dom().contains(k) ==> queue_items(*found)[k]
                    <= seen[x]),
            !use_filter ==> ((exists|x: NodeKey| #[trigger]
                seen.dom().contains(x) && !queue_items(*found).dom().contains(x)) ==> queue_items(
                *found,
            ).len() >= ef),
            !use_filter ==> o.len() <= queue_items(*found).len(),
            !use_filter ==> (queue_items(*found).len() <= o.len() || queue_items(*found).len() <= ef),
            !use_filter && o.len() >= ef ==> forall|k: NodeKey| #[trigger]
                queue_items(*found).dom().contains(k) ==> exists|j: NodeKey| o.dom().contains(j)
                    && queue_items(*found)[k] <= o[j],
            use_filter ==> sub_map(o, queue_items(*found)),
            use_filter ==> forall|k: NodeKey| #[trigger]
                queue_items(*found).dom().contains(k) && !o.dom().contains(k) ==> accepted(*filter, k),
            use_filter ==> forall|k: NodeKey| #[trigger]
                queue_items(frontier).dom().contains(k) ==> seen.dom().contains(k) && queue_items(
                    frontier,
                )[k] == seen[k],
            use_filter ==> forall|k: NodeKey| #[trigger]
                queue_items(frontier).dom().contains(k) ==> queue_items(candidates).dom().contains(k)
                    || expanded.contains(k),
            use_filter ==> (holds_nan(queue_items(frontier)) || forall|x: NodeKey, k: NodeKey| #[trigger]
                seen.dom().contains(x) && !queue_items(frontier).dom().contains(x)
                    && #[trigger] queue_items(frontier).dom().contains(k) ==> queue_items(frontier)[k]
                    <= seen[x]),
            use_filter ==> ((exists|x: NodeKey| #[trigger]
                seen.dom().contains(x) && !queue_items(frontier).dom().contains(x)) ==> queue_items(
                frontier,
            ).len() >= ef),
            use_filter ==> o.len() <= queue_items(frontier).len(),
            use_filter ==> (queue_items(frontier).len() <= o.len() || queue_items(frontier).len() <= ef),
            use_filter ==> forall|x: NodeKey| #[trigger]
                queue_items(frontier).dom().contains(x) ==> (queue_items(*found).dom().contains(x)
                    && queue_items(*found)[x] == queue_items(frontier)[x]) || filter.ensures((x,), Some(false)),
            o.len() == 0 ==> queue_items(candidates).dom().is_empty(),
        decreases targets.difference(seen.dom()).len(), queue_items(candidates).len(),
    {
        let ghost diff0 = targets.difference(seen.dom()).len();
        let ghost cand0 = queue_items(candidates).len();
        let ghost cq0 = queue_items(candidates);
        let popped = queue_pop(&mut candidates);
        let (c, rp) = match popped {
            None => {
                break ;
            },
            Some(x) => x,
        };
        let cd: u64 = NAN_KEY - rp;
        proof {
            assert(cq0.dom().contains(c));
            assert(seen.dom().contains(c));
            assert(queue_items(candidates).len() == cand0 - 1);
            if o.len() == 0 {
                assert(false);
            }
        }
        let furthest: u64 = if use_filter {
            match queue_peek(&frontier) {
                Some((_, d)) => d,
                None => F64_MAX_KEY,
            }
        } else {
            match queue_peek(found) {
                Some((_, d)) => d,
                None => {
                    return Err(HnswError::SearchHeapEmpty);
                },
            }
        };
        if float_gt(cd, furthest) {
            proof {
                let f = if use_filter { queue_items(frontier) } else { queue_items(*found) };
                assert forall|k: NodeKey| #[trigger] f.dom().contains(k) implies expanded.contains(k) by {
                    if !expanded.contains(k) {
                        assert(f[k] <= furthest);
                        if k == c {
                            assert(cd == seen[c]);
                        } else {
                            assert(queue_items(candidates).dom().contains(k));
                        }
                    }
                }
            }
            break ;
        }
        let nbs = rel.neighbours(c, level, false);
        let nn: usize = nbs.len();
        let mut j: usize = 0;
        let ghost mut added: nat = 0;
        while j < nn
            invariant
                j <= nn,
                queue_items(*found).dom().finite(),
                queue_items(candidates).dom().finite(),
                queue_items(frontier).dom().finite(),
                forall|k: NodeKey| #[trigger] visited@.contains(k) <==> seen.dom().contains(k),
                sub_map(o, seen),
                forall|x: NodeKey| #[trigger] seen.dom().contains(x) && !o.dom().contains(x) ==> measured(
                    *dist,
                    probe,
                    x,
                    seen[x],
                ) && linked_into(rel.rows_view(), level, x),
                forall|x: NodeKey| #[trigger] seen.dom().contains(x) ==> reachable(rel.rows_view(), level, o.dom(), x),
                seen.dom().contains(c),
                sub_map(queue_items(*found), seen),
                forall|k: NodeKey| #[trigger]
                    queue_items(candidates).dom().contains(k) ==> seen.dom().contains(k)
                        && queue_items(candidates)[k] == NAN_KEY - seen[k],
                !use_filter ==> forall|k: NodeKey| #[trigger]
                    queue_items(*found).dom().contains(k) ==> queue_items(candidates).dom().contains(k)
                        || expanded.contains(k) || k == c,
                forall|c2: NodeKey, n: NodeKey, d: u64|
                    expanded.contains(c2) && #[trigger] is_neighbour(rel.rows_view(), c2, level, false, n, d)
                        ==> seen.dom().contains(n),
                forall|t: int| 0 <= t < j ==> seen.dom().contains(#[trigger] nbs@[t].0),
                !use_filter ==> (holds_nan(queue_items(*found)) || forall|x: NodeKey, k: NodeKey| #[trigger]
                    seen.dom().contains(x) && !queue_items(*found).dom().contains(x)
                        && #[trigger] queue_items(*found).dom().contains(k) ==> queue_items(*found)[k]
                        <= seen[x]),
                !use_filter ==> ((exists|x: NodeKey| #[trigger]
                    seen.dom().contains(x) && !queue_items(*found).dom().contains(x)) ==> queue_items(
                    *found,
                ).len() >= ef),
                !use_filter ==> o.len() <= queue_items(*found).len(),
                !use_filter ==> (queue_items(*found).len() <= o.len() || queue_items(*found).len()
                    <= ef),
                !use_filter && o.len() >= ef ==> forall|k: NodeKey| #[trigger]
                    queue_items(*found).dom().contains(k) ==> exists|j: NodeKey| o.dom().contains(j)
                        && queue_items(*found)[k] <= o[j],
                use_filter ==> sub_map(o, queue_items(*found)),
                use_filter ==> forall|k: NodeKey| #[trigger]
                    queue_items(*found).dom().contains(k) && !o.dom().contains(k) ==> accepted(
                        *filter,
                        k,
                    ),
                use_filter ==> forall|k: NodeKey| #[trigger]
                    queue_items(frontier).dom().contains(k) ==> seen.dom().contains(k)
                        && queue_items(frontier)[k] == seen[k],
                use_filter ==> forall|k: NodeKey| #[trigger]
                    queue_items(frontier).dom().contains(k) ==> queue_items(candidates).dom().contains(k)
                        || expanded.contains(k) || k == c,
                use_filter ==> (holds_nan(queue_items(frontier)) || forall|x: NodeKey, k: NodeKey| #[trigger]
                    seen.dom().contains(x) && !queue_items(frontier).dom().contains(x)
                        && #[trigger] queue_items(frontier).dom().contains(k) ==> queue_items(frontier)[k]
                        <= seen[x]),
                use_filter ==> ((exists|x: NodeKey| #[trigger]
                    seen.dom().contains(x) && !queue_items(frontier).dom().contains(x)) ==> queue_items(
                    frontier,
                ).len() >= ef),
                use_filter ==> o.len() <= queue_items(frontier).len(),
                use_filter ==> (queue_items(frontier).len() <= o.len() || queue_items(frontier).len()
                    <= ef),
                use_filter ==> forall|x: NodeKey| #[trigger]
                    queue_items(frontier).dom().contains(x) ==> (queue_items(*found).dom().contains(x)
                        && queue_items(*found)[x] == queue_items(frontier)[x]) || filter.ensures((x,), Some(false)),
                o.len() > 0,
                targets.difference(seen.dom()).finite(),
                targets.difference(seen.dom()).len() + added == diff0,
                queue_items(candidates).len() + 1 <= cand0 + added,
            decreases nn - j,
        {
            let key = nbs[j].0;
            proof {
                assert(is_neighbour(rel.rows_view(), c, level, false, key, nbs@[j as int].1));
                assert(targets.contains(key));
            }
            if !holds_key(&visited, &key) {
                let d: u64 = match dist(probe, key) {
                    Some(d) => d,
                    None => {
                        return Err(HnswError::DistanceUnavailable(key));
                    },
                };
                let ghost v0 = visited@;
                visited.push(key);
                proof {
                    assert(linked_into(rel.rows_view(), level, key));
                    lemma_reach_step(rel.rows_view(), level, o.dom(), c, key, nbs@[j as int].1);
                    let s0 = seen;
                    seen = seen.insert(key, d);
                    assert(targets.difference(seen.dom()) =~= targets.difference(s0.dom()).remove(key));
                    added = added + 1;
                    lemma_push_contains(v0, visited@, key);
                }
                let flen: usize;
                let ffur: u64;
                if use_filter {
                    flen = queue_len(&frontier);
                    ffur = match queue_peek(&frontier) {
                        Some((_, fd)) => fd,
                        None => F64_MAX_KEY,
                    };
                } else {
                    flen = queue_len(found);
                    ffur = match queue_peek(found) {
                        Some((_, fd)) => fd,
                        None => {
                            return Err(HnswError::SearchHeapEmpty);
                        },
                    };
                }
                if flen < ef || float_lt(d, ffur) {
                    queue_push(&mut candidates, key, NAN_KEY - d);
                    if use_filter {
                        let ghost t0 = queue_items(frontier);
                        queue_push(&mut frontier, key, d);
                        if queue_len(&frontier) > ef {
                            let y = queue_pop(&mut frontier);
                            proof {
                                let (yk, yp) = y.unwrap();
                                let t2 = queue_items(frontier);
                                if !holds_nan(t0) {
                                    assert forall|x: NodeKey, k: NodeKey| #[trigger]
                                        seen.dom().contains(x) && !t2.dom().contains(x)
                                            && #[trigger] t2.dom().contains(k) implies t2[k]
                                        <= seen[x] by {
                                        if x == yk {
                                        } else {
                                            assert(!t0.dom().contains(x));
                                            if k == key {
                                                assert(exists|z: NodeKey| #[trigger]
                                                    seen.dom().contains(z) && !t0.dom().contains(z));
                                            }
                                        }
                                    }
                                } else {
                                    let z = choose|z: NodeKey| #[trigger] t0.dom().contains(z) && t0[z] == NAN_KEY;
                                    assert(t2.dom().contains(z));
                                }
                            }
                        } else {
                            proof {
                                let t2 = queue_items(frontier);
                                if !holds_nan(t0) {
                                    if d == NAN_KEY {
                                        assert(t2.dom().contains(key));
                                    } else {
                                        assert forall|x: NodeKey, k: NodeKey| #[trigger]
                                            seen.dom().contains(x) && !t2.dom().contains(x)
                                                && #[trigger] t2.dom().contains(k) implies t2[k]
                                            <= seen[x] by {
                                            assert(!t0.dom().contains(x));
                                            if k == key {
                                                assert(exists|z: NodeKey| #[trigger]
                                                    seen.dom().contains(z) && !t0.dom().contains(z));
                                            }
                                        }
                                    }
                                } else {
                                    let z = choose|z: NodeKey| #[trigger] t0.dom().contains(z) && t0[z] == NAN_KEY;
                                    assert(t2.dom().contains(z));
                                }
                            }
                        }
                    }
                    let ghost verdict: Option<bool> = None;
                    let passes: bool = if use_filter {
                        match filter(key) {
                            Some(b) => {
                                proof {
                                    verdict = Some(b);
                                }
                                b
                            },
                            None => {
                                return Err(HnswError::FilterFailed(key));
                            },
                        }
                    } else {
                        true
                    };
                    proof {
                        if use_filter {
                            assert(filter.ensures((key,), Some(passes)));
                        }
                    }
                    if passes {
                        let ghost f0 = queue_items(*found);
                        queue_push(found, key, d);
                        let ghost f1 = queue_items(*found);
                        if !use_filter && queue_len(found) > ef {
                            let y = queue_pop(found);
                            proof {
                                let (yk, yp) = y.unwrap();
                                let f2 = queue_items(*found);
                                if !holds_nan(f0) {
                                    assert forall|x: NodeKey, k: NodeKey| #[trigger]
                                        seen.dom().contains(x) && !f2.dom().contains(x)
                                            && #[trigger] f2.dom().contains(k) implies f2[k]
                                        <= seen[x] by {
                                        if x == yk {
                                        } else {
                                            assert(!f0.dom().contains(x));
                                            if k == key {
                                                assert(exists|z: NodeKey| #[trigger]
                                                    seen.dom().contains(z) && !f0.dom().contains(z));
                                            }
                                        }
                                    }
                                } else {
                                    let z = choose|z: NodeKey| #[trigger] f0.dom().contains(z) && f0[z] == NAN_KEY;
                                    assert(f2.dom().contains(z));
                                }
                            }
                        } else {
                            proof {
                                let f2 = queue_items(*found);
                                if !use_filter {
                                    if !holds_nan(f0) {
                                        if d == NAN_KEY {
                                            assert(f2.dom().contains(key));
                                        } else {
                                            assert forall|x: NodeKey, k: NodeKey| #[trigger]
                                                seen.dom().contains(x) && !f2.dom().contains(x)
                                                    && #[trigger] f2.dom().contains(k) implies f2[k]
                                                <= seen[x] by {
                                                assert(!f0.dom().contains(x));
                                                if k == key {
                                                    assert(exists|z: NodeKey| #[trigger]
                                                        seen.dom().contains(z) && !f0.dom().contains(z));
                                                }
                                            }
                                        }
                                    } else {
                                        let z = choose|z: NodeKey| #[trigger] f0.dom().contains(z) && f0[z] == NAN_KEY;
                                        assert(f2.dom().contains(z));
                                    }
                                }
                            }
                        }
                    }
                } else {
                    proof {
                        if use_filter {
                            let f = queue_items(frontier);
                            if !holds_nan(f) {
                                assert forall|x: NodeKey, k: NodeKey| #[trigger]
                                    seen.dom().contains(x) && !f.dom().contains(x)
                                        && #[trigger] f.dom().contains(k) implies f[k] <= seen[x] by {
                                    if x == key {
                                        assert(f[k] <= ffur);
                                    }
                                }
                            }
                        }
                        if !use_filter {
                            let f = queue_items(*found);
                            if !holds_nan(f) {
                                assert forall|x: NodeKey, k: NodeKey| #[trigger]
                                    seen.dom().contains(x) && !f.dom().contains(x)
                                        && #[trigger] f.dom().contains(k) implies f[k] <= seen[x] by {
                                    if x == key {
                                        assert(f[k] <= ffur);
                                    }
                                }
                            }
                        }
                    }
                }
            }
            j = j + 1;
        }
        proof {
            assert forall|c2: NodeKey, n: NodeKey, d: u64|
                expanded.insert(c).contains(c2) && #[trigger] is_neighbour(rel.rows_view(), c2, level, false, n, d)
                    implies seen.dom().contains(n) by {
                if c2 == c {
                    let t = choose|t: int| 0 <= t < nbs.len() && nbs@[t].0 == n;
                }
            }
            expanded = expanded.insert(c);
        }
    }
    proof {
        if !use_filter {
            assert(beam_result(*rel, probe, level, ef, *dist, o, queue_items(*found), seen));
        } else {
            assert(beam_result(*rel, probe, level, ef, *dist, o, queue_items(frontier), seen));
            assert(filtered_beam_result(
                *rel,
                probe,
                level,
                ef,
                *dist,
                *filter,
                o,
                queue_items(*found),
                seen,
                queue_items(frontier),
            ));
        }
    }
    Ok(())
}

/// The candidate pool of a neighbour selection: every node of `found` and,
/// when extending, every live neighbour of one at `level`; each with a distance
/// to the probe that `found` holds or `dist` reported.
pub open spec fn candidate_pool<F: Fn(Probe, NodeKey) -> Option<u64>>(
    rel: IndexRelation,
    probe: Probe,
    found: Map<NodeKey, u64>,
    level: i64,
    extend: bool,
    dist: F,
    pool: Map<NodeKey, u64>,
) -> bool {
    &&& pool.dom().finite()
    &&& forall|k: NodeKey| #[trigger] found.dom().contains(k) ==> pool.dom().contains(k)
    &&& extend ==> forall|item: NodeKey, n: NodeKey, d: u64|
        found.dom().contains(item) && #[trigger] is_neighbour(rel.rows_view(), item, level, false, n, d)
            ==> pool.dom().contains(n)
    &&& forall|k: NodeKey| #[trigger]
        pool.dom().contains(k) ==> (found.dom().contains(k) && pool[k] == found[k]) || (extend
            && measured(dist, probe, k, pool[k]) && exists|item: NodeKey, d: u64|
            found.dom().contains(item) && is_neighbour(rel.rows_view(), item, level, false, k, d))
}

/// No node of `acc` is shadowed by a nearer one: a node of `acc` nearer to the
/// probe is not nearer to a farther node of `acc` than the probe is.
pub open spec fn unshadowed<F: Fn(Probe, NodeKey) -> Option<u64>>(
    pool: Map<NodeKey, u64>,
    acc: Set<NodeKey>,
    dist: F,
) -> bool {
    forall|a: NodeKey, b: NodeKey|
        #[trigger] acc.contains(a) && #[trigger] acc.contains(b) && a != b && pool[a] < pool[b] ==> exists|dd: u64|
            measured(dist, Probe::Node(a), b, dd) && !spec_float_lt(dd, pool[b])
}

/// Node `c` is shadowed by a node of `acc` no farther from the probe than `c`:
/// that node is nearer to `c` than the probe is.
pub open spec fn shadowed<F: Fn(Probe, NodeKey) -> Option<u64>>(
    pool: Map<NodeKey, u64>,
    acc: Set<NodeKey>,
    dist: F,
    c: NodeKey,
) -> bool {
    exists|e: NodeKey, dd: u64|
        acc.contains(e) && pool[e] <= pool[c] && measured(dist, Probe::Node(e), c, dd) && spec_float_lt(dd, pool[c])
}

/// `acc` is what the heuristic takes of the pool, nearest first, and `sel` is
/// `acc` followed, when pruned candidates are kept, by the nearest of those it
/// passed over: `acc` is unshadowed; every other selected node is shadowed by
/// it; a node left out was passed over (shadowed by `acc`, and no nearer than
/// any passed-over node that was kept), or was never reached because `acc`
/// already held `m` nodes, all of them no farther than it.
pub open spec fn heuristic_picks<F: Fn(Probe, NodeKey) -> Option<u64>>(
    pool: Map<NodeKey, u64>,
    m: usize,
    keep_pruned: bool,
    dist: F,
    sel: Map<NodeKey, u64>,
    acc: Set<NodeKey>,
) -> bool {
    &&& forall|x: NodeKey| #[trigger] acc.contains(x) ==> sel.dom().contains(x)
    &&& !keep_pruned ==> acc == sel.dom()
    &&& unshadowed(pool, acc, dist)
    &&& forall|x: NodeKey| #[trigger] sel.dom().contains(x) && !acc.contains(x) ==> shadowed(pool, acc, dist, x)
    &&& forall|c: NodeKey| #[trigger] pool.dom().contains(c) && !sel.dom().contains(c) ==> {
        ||| shadowed(pool, acc, dist, c) && forall|x: NodeKey| #[trigger]
            sel.dom().contains(x) && !acc.contains(x) ==> pool[x] <= pool[c]
        ||| acc.len() >= m && forall|x: NodeKey| #[trigger] sel.dom().contains(x) ==> pool[x] <= pool[c]
    }
}

/// What a neighbour selection returns: at most `m` nodes of the pool, each with
/// the complement of its distance as priority (nearest first), a nearest node
/// of the pool among them; all of the pool up to `m` when pruned candidates are
/// kept; and the picks of the heuristic, as `heuristic_picks` states them.
pub open spec fn selection<F: Fn(Probe, NodeKey) -> Option<u64>>(
    pool: Map<NodeKey, u64>,
    m: usize,
    keep_pruned: bool,
    dist: F,
    sel: Map<NodeKey, u64>,
) -> bool {
    &&& sel.dom().finite()
    &&& sel.len() <= m
    &&& forall|k: NodeKey| #[trigger]
        sel.dom().contains(k) ==> pool.dom().contains(k) && sel[k] == NAN_KEY - pool[k]
    &&& (m > 0 && pool.len() > 0) ==> sel.len() > 0
    &&& (m > 0 && pool.len() > 0) ==> exists|k: NodeKey| #[trigger] sel.dom().contains(k) && forall|x: NodeKey|
        #[trigger] pool.dom().contains(x) ==> pool[k] <= pool[x]
    &&& keep_pruned ==> sel.len() == (if pool.len() < m {
        pool.len()
    } else {
        m as nat
    })
    &&& exists|acc: Set<NodeKey>| heuristic_picks(pool, m, keep_pruned, dist, sel, acc)
}

/// `sel` is a selection of at most `m` neighbours from some candidate pool of
/// `found`.
pub open spec fn selected_from<F: Fn(Probe, NodeKey) -> Option<u64>>(
    rel: IndexRelation,
    probe: Probe,
    found: Map<NodeKey, u64>,
    level: i64,
    extend: bool,
    m: usize,
    keep_pruned: bool,
    dist: F,
    sel: Map<NodeKey, u64>,
) -> bool {
    exists|pool: Map<NodeKey, u64>|
        candidate_pool(rel, probe, found, level, extend, dist, pool) && selection(
            pool,
            m,
            keep_pruned,
            dist,
            sel,
        )
}

/// Chooses at most `m` neighbours for the probe among the nodes of `found`
/// (and, with `extend`, their live neighbours at `level`): nearest first, a
/// candidate is taken unless it is nearer to an already taken node than to the
/// probe; with `keep_pruned`, passed-over candidates fill the remaining places.
/// The result's priorities are the complements of the distances.
#[verifier::loop_isolation(false)]
pub fn select_neighbours_heuristic<F>(
    rel: &IndexRelation,
    probe: Probe,
    found: &NodeQueue,
    m: usize,
    level: i64,
    extend: bool,
    keep_pruned: bool,
    dist: &F,
) -> (r: Result<NodeQueue, HnswError>) where F: Fn(Probe, NodeKey) -> Option<u64>
    requires
        rel.wf(),
        queue_items(*found).dom().finite(),
        forall|p: Probe, k: NodeKey| dist.requires((p, k)),
    ensures
        match r {
            Ok(sel) => selected_from(
                *rel,
                probe,
                queue_items(*found),
                level,
                extend,
                m,
                keep_pruned,
                *dist,
                queue_items(sel),
            ),
            Err(HnswError::DistanceUnavailable(k)) => dist.ensures((probe, k), None) || exists|
                e: NodeKey,
            | dist.ensures((Probe::Node(e), k), None),
            Err(_) => false,
        },
{
    let ghost fo = queue_items(*found);
    let entries = queue_entries(found);
    let n0: usize = entries.len();
    let mut candidates = queue_new();
    let mut i: usize = 0;
    while i < n0
        invariant
            i <= n0,
            queue_items(candidates).dom().finite(),
            forall|k: NodeKey| #[trigger]
                queue_items(candidates).dom().contains(k) ==> fo.dom().contains(k)
                    && queue_items(candidates)[k] == NAN_KEY - fo[k],
            forall|t: int| 0 <= t < i ==> queue_items(candidates).dom().contains(#[trigger] entries@[t].0),
        decreases n0 - i,
    {
        let (k, d) = entries[i];
        proof {
            assert(fo.dom().contains(entries@[i as int].0));
        }
        queue_push(&mut candidates, k, NAN_KEY - d);
        i = i + 1;
    }
    proof {
        assert forall|k: NodeKey| #[trigger] fo.dom().contains(k) implies queue_items(candidates).dom().contains(k) by {
            let t = choose|t: int| 0 <= t < n0 && entries@[t].0 == k;
        }
    }
    if extend {
        let mut i: usize = 0;
        while i < n0
            invariant
                i <= n0,
                queue_items(candidates).dom().finite(),
                forall|k: NodeKey| #[trigger] fo.dom().contains(k) ==> queue_items(candidates).dom().contains(k),
                forall|k: NodeKey| #[trigger]
                    queue_items(candidates).dom().contains(k) ==> (fo.dom().contains(k)
                        && queue_items(candidates)[k] == NAN_KEY - fo[k]) || (measured(
                        *dist,
                        probe,
                        k,
                        (NAN_KEY - queue_items(candidates)[k]) as u64,
                    ) && queue_items(candidates)[k] <= NAN_KEY && exists|item: NodeKey, d: u64|
                        fo.dom().contains(item) && is_neighbour(rel.rows_view(), item, level, false, k, d)),
                forall|t: int, n: NodeKey, d: u64|
                    0 <= t < i && #[trigger] is_neighbour(rel.rows_view(), entries@[t].0, level, false, n, d)
                        ==> queue_items(candidates).dom().contains(n),
            decreases n0 - i,
        {
            let item = entries[i].0;
            let nbs = rel.neighbours(item, level, false);
            let nn: usize = nbs.len();
            let mut j: usize = 0;
            while j < nn
                invariant
                    j <= nn,
                    queue_items(candidates).dom().finite(),
                    forall|k: NodeKey| #[trigger] fo.dom().contains(k) ==> queue_items(candidates).dom().contains(k),
                    forall|k: NodeKey| #[trigger]
                        queue_items(candidates).dom().contains(k) ==> (fo.dom().contains(k)
                            && queue_items(candidates)[k] == NAN_KEY - fo[k]) || (measured(
                            *dist,
                            probe,
                            k,
                            (NAN_KEY - queue_items(candidates)[k]) as u64,
                        ) && queue_items(candidates)[k] <= NAN_KEY && exists|item2: NodeKey, d: u64|
                            fo.dom().contains(item2) && is_neighbour(rel.rows_view(), item2, level, false, k, d)),
                    forall|t: int, n: NodeKey, d: u64|
                        0 <= t < i && #[trigger] is_neighbour(rel.rows_view(), entries@[t].0, level, false, n, d)
                            ==> queue_items(candidates).dom().contains(n),
                    forall|t: int| 0 <= t < j ==> queue_items(candidates).dom().contains(#[trigger] nbs@[t].0),
                decreases nn - j,
            {
                let nk = nbs[j].0;
                proof {
                    assert(is_neighbour(rel.rows_view(), item, level, false, nk, nbs@[j as int].1));
                    assert(fo.dom().contains(item));
                }
                let d: u64 = match dist(probe, nk) {
                    Some(d) => d,
                    None => {
                        return Err(HnswError::DistanceUnavailable(nk));
                    },
                };
                queue_push(&mut candidates, nk, NAN_KEY - d);
                j = j + 1;
            }
            proof {
                assert forall|t: int, n: NodeKey, d: u64|
                    0 <= t < i + 1 && #[trigger] is_neighbour(rel.rows_view(), entries@[t].0, level, false, n, d)
                        implies queue_items(candidates).dom().contains(n) by {
                    if t == i {
                        let u = choose|u: int| 0 <= u < nn && nbs@[u].0 == n;
                    }
                }
            }
            i = i + 1;
        }
        proof {
            assert forall|item: NodeKey, n: NodeKey, d: u64|
                fo.dom().contains(item) && #[trigger] is_neighbour(rel.rows_view(), item, level, false, n, d)
                    implies queue_items(candidates).dom().contains(n) by {
                let t = choose|t: int| 0 <= t < n0 && entries@[t].0 == item;
                assert(is_neighbour(rel.rows_view(), entries@[t].0, level, false, n, d));
            }
        }
    }
    let ghost cq = queue_items(candidates);
    let ghost pool: Map<NodeKey, u64> = Map::new(
        |k: NodeKey| cq.dom().contains(k),
        |k: NodeKey| (NAN_KEY - cq[k]) as u64,
    );
    proof {
        assert(pool.dom() =~= cq.dom());
        assert(candidate_pool(*rel, probe, fo, level, extend, *dist, pool));
    }
    let mut ret = queue_new();
    let mut discarded = queue_new();
    let ghost mut popped: Set<NodeKey> = Set::empty();
    loop
        invariant
            queue_items(candidates).dom().finite(),
            queue_items(ret).dom().finite(),
            queue_items(discarded).dom().finite(),
            forall|k: NodeKey| #[trigger]
                queue_items(candidates).dom().contains(k) ==> pool.dom().contains(k) && !popped.contains(k)
                    && queue_items(candidates)[k] == NAN_KEY - pool[k],
            forall|k: NodeKey| #[trigger]
                pool.dom().contains(k) ==> queue_items(candidates).dom().contains(k) || popped.contains(k),
            forall|k: NodeKey| #[trigger] popped.contains(k) ==> pool.dom().contains(k),
            forall|k: NodeKey| #[trigger]
                queue_items(ret).dom().contains(k) ==> popped.contains(k) && queue_items(ret)[k]
                    == NAN_KEY - pool[k],
            forall|k: NodeKey| #[trigger]
                queue_items(discarded).dom().contains(k) ==> popped.contains(k) && !queue_items(
                    ret,
                ).dom().contains(k) && queue_items(discarded)[k] == NAN_KEY - pool[k],
            queue_items(ret).len() <= m,
            forall|a: NodeKey, k: NodeKey|
                #[trigger] popped.contains(a) && #[trigger] queue_items(candidates).dom().contains(k)
                    ==> pool[a] <= pool[k],
            !popped.is_empty() ==> queue_items(ret).len() > 0,
            keep_pruned ==> forall|k: NodeKey| #[trigger]
                popped.contains(k) ==> queue_items(ret).dom().contains(k) || queue_items(
                    discarded,
                ).dom().contains(k),
            keep_pruned ==> queue_items(ret).len() + queue_items(discarded).len() + queue_items(
                candidates,
            ).len() == pool.len(),
            !keep_pruned ==> queue_items(discarded).dom().is_empty(),
            unshadowed(pool, queue_items(ret).dom(), *dist),
            forall|c: NodeKey| #[trigger]
                popped.contains(c) && !queue_items(ret).dom().contains(c) ==> shadowed(pool, queue_items(ret).dom(), *dist, c),
            !popped.is_empty() ==> exists|k: NodeKey| #[trigger] queue_items(ret).dom().contains(k) && forall|x: NodeKey|
                #[trigger] pool.dom().contains(x) ==> pool[k] <= pool[x],
        decreases queue_items(candidates).len(),
    {
        if queue_len(&candidates) == 0 || queue_len(&ret) >= m {
            break ;
        }
        let ghost cand_h = queue_items(candidates);
        let ghost popped_h = popped;
        let ghost ret_h = queue_items(ret);
        let popped_c = queue_pop(&mut candidates);
        let (c, rp) = match popped_c {
            Some(x) => x,
            None => {
                break ;
            },
        };
        let cd: u64 = NAN_KEY - rp;
        proof {
            assert(cand_h.dom().contains(c));
            assert forall|a: NodeKey| #[trigger] popped_h.contains(a) implies pool[a] <= pool[c] by {
                assert(cand_h.dom().contains(c));
            }
            if popped_h.is_empty() {
                assert forall|x: NodeKey| #[trigger] pool.dom().contains(x) implies pool[c] <= pool[x] by {
                    assert(cand_h.dom().contains(x));
                    assert(cand_h[x] <= cand_h[c]);
                }
                assert(ret_h.dom() =~= Set::<NodeKey>::empty()) by {
                    assert forall|k: NodeKey| !ret_h.dom().contains(k) by {
                        if ret_h.dom().contains(k) {
                            assert(popped_h.contains(k));
                        }
                    }
                }
            }
        }
        let ents = queue_entries(&ret);
        let ne: usize = ents.len();
        let mut should_add: bool = true;
        let mut t: usize = 0;
        let ghost mut witness: NodeKey = c;
        let ghost mut witness_d: u64 = 0;
        while t < ne
            invariant
                t <= ne,
                should_add ==> forall|u: int| 0 <= u < t ==> exists|dd: u64|
                    measured(*dist, Probe::Node(#[trigger] ents@[u].0), c, dd) && !spec_float_lt(dd, cd),
                !should_add ==> queue_items(ret).dom().contains(witness) && measured(
                    *dist,
                    Probe::Node(witness),
                    c,
                    witness_d,
                ) && spec_float_lt(witness_d, cd),
            decreases ne - t,
        {
            let e = ents[t].0;
            let dd: u64 = match dist(Probe::Node(e), c) {
                Some(x) => x,
                None => {
                    assert(exists|e2: NodeKey| dist.ensures((Probe::Node(e2), c), None));
                    return Err(HnswError::DistanceUnavailable(c));
                },
            };
            if float_lt(dd, cd) {
                should_add = false;
                proof {
                    witness = e;
                    witness_d = dd;
                }
                break ;
            }
            t = t + 1;
        }
        let ghost r0 = queue_items(ret);
        proof {
            if !should_add {
                assert(ret_h.dom().contains(witness));
                assert(popped_h.contains(witness));
                assert(pool[witness] <= pool[c]);
            }
            popped = popped.insert(c);
        }
        if should_add {
            queue_push(&mut ret, c, NAN_KEY - cd);
            proof {
                let r1 = queue_items(ret);
                assert forall|a: NodeKey, b: NodeKey|
                    #[trigger] r1.dom().contains(a) && #[trigger] r1.dom().contains(b) && a != b
                        && pool[a] < pool[b] implies exists|dd: u64|
                    measured(*dist, Probe::Node(a), b, dd) && !spec_float_lt(dd, pool[b]) by {
                    if b == c {
                        let u = choose|u: int| 0 <= u < ne && ents@[u].0 == a;
                        assert(exists|dd: u64|
                            measured(*dist, Probe::Node(ents@[u].0), c, dd) && !spec_float_lt(dd, cd));
                    } else if a == c {
                        assert(pool[b] <= pool[c]);
                    } else {
                        assert(r0.dom().contains(a) && r0.dom().contains(b));
                    }
                }
                assert(unshadowed(pool, r1.dom(), *dist));
            }
        } else if keep_pruned {
            queue_push(&mut discarded, c, NAN_KEY - cd);
        }
        proof {
            if popped_h.is_empty() {
                assert(queue_items(ret).dom().contains(c));
            } else {
                let k = choose|k: NodeKey| #[trigger] ret_h.dom().contains(k) && forall|x: NodeKey|
                    #[trigger] pool.dom().contains(x) ==> pool[k] <= pool[x];
                assert(queue_items(ret).dom().contains(k));
            }
            assert forall|x: NodeKey| #[trigger]
                popped.contains(x) && !queue_items(ret).dom().contains(x) implies shadowed(pool, queue_items(ret).dom(), *dist, x) by {
                if x == c {
                    assert(pool[c] == cd);
                    assert(popped_h.contains(witness));
                    assert(queue_items(ret).dom().contains(witness) && pool[witness] <= pool[x] && measured(*dist, Probe::Node(witness), x, witness_d)
                        && spec_float_lt(witness_d, pool[x]));
                } else {
                    assert(!r0.dom().contains(x));
                    let (e, dd) = choose|e: NodeKey, dd: u64|
                        r0.dom().contains(e) && pool[e] <= pool[x] && measured(*dist, Probe::Node(e), x, dd)
                            && spec_float_lt(dd, pool[x]);
                    assert(queue_items(ret).dom().contains(e));
                }
            }
        }
    }
    proof {
        if m > 0 && pool.len() > 0 && popped.is_empty() {
            assert(queue_items(ret).dom() =~= Set::<NodeKey>::empty()) by {
                assert forall|k: NodeKey| !queue_items(ret).dom().contains(k) by {
                    if queue_items(ret).dom().contains(k) {
                        assert(popped.contains(k));
                    }
                }
            }
            assert(pool.dom() =~= Set::<NodeKey>::empty()) by {
                assert forall|k: NodeKey| !pool.dom().contains(k) by {
                    if pool.dom().contains(k) {
                        assert(queue_items(candidates).dom().contains(k));
                    }
                }
            }
        }
    }
    let ghost acc = queue_items(ret).dom();
    let ghost cands_f = queue_items(candidates);
    proof {
        assert forall|a: NodeKey, c: NodeKey| #[trigger] acc.contains(a) && #[trigger] cands_f.dom().contains(c)
            implies pool[a] <= pool[c] by {
            assert(popped.contains(a));
        }
        assert(acc.len() < m ==> cands_f.len() == 0);
    }
    if keep_pruned {
        loop
            invariant
                keep_pruned,
                queue_items(candidates) == cands_f,
                forall|x: NodeKey| #[trigger] acc.contains(x) ==> queue_items(ret).dom().contains(x),
                acc.len() >= m ==> queue_items(ret).dom() == acc,
                forall|x: NodeKey| #[trigger] queue_items(discarded).dom().contains(x) ==> shadowed(pool, acc, *dist, x),
                forall|x: NodeKey| #[trigger] queue_items(ret).dom().contains(x) && !acc.contains(x) ==> shadowed(pool, acc, *dist, x),
                forall|x: NodeKey, y: NodeKey| #[trigger] queue_items(ret).dom().contains(x) && !acc.contains(x)
                    && #[trigger] queue_items(discarded).dom().contains(y) ==> pool[x] <= pool[y],
                forall|c: NodeKey| #[trigger] pool.dom().contains(c) ==> queue_items(ret).dom().contains(c)
                    || queue_items(discarded).dom().contains(c) || cands_f.dom().contains(c),
                queue_items(ret).dom().finite(),
                queue_items(discarded).dom().finite(),
                forall|k: NodeKey| #[trigger]
                    queue_items(ret).dom().contains(k) ==> pool.dom().contains(k) && queue_items(ret)[k]
                        == NAN_KEY - pool[k],
                forall|k: NodeKey| #[trigger]
                    queue_items(discarded).dom().contains(k) ==> pool.dom().contains(k) && !queue_items(
                        ret,
                    ).dom().contains(k) && queue_items(discarded)[k] == NAN_KEY - pool[k],
                queue_items(ret).len() <= m,
                queue_items(ret).len() + queue_items(discarded).len() + queue_items(candidates).len()
                    == pool.len(),
                queue_items(ret).len() < m ==> queue_items(candidates).len() == 0,
                !popped.is_empty() ==> queue_items(ret).len() > 0,
                !popped.is_empty() ==> exists|k: NodeKey| #[trigger] queue_items(ret).dom().contains(k) && forall|x: NodeKey|
                    #[trigger] pool.dom().contains(x) ==> pool[k] <= pool[x],
            decreases queue_items(discarded).len(),
        {
            if queue_len(&discarded) == 0 || queue_len(&ret) >= m {
                break ;
            }
            let ghost disc_b = queue_items(discarded);
            match queue_pop(&mut discarded) {
                Some((k, p)) => {
                    let ghost ret_b = queue_items(ret);
                    queue_push(&mut ret, k, p);
                    proof {
                        assert(disc_b.dom().contains(k));
                        assert(!acc.contains(k));
                        assert forall|x: NodeKey, y: NodeKey| #[trigger] queue_items(ret).dom().contains(x) && !acc.contains(x)
                            && #[trigger] queue_items(discarded).dom().contains(y) implies pool[x] <= pool[y] by {
                            assert(disc_b.dom().contains(y));
                            assert(disc_b[y] <= disc_b[k]);
                        }
                        if !popped.is_empty() {
                            let k0 = choose|k0: NodeKey| #[trigger] ret_b.dom().contains(k0) && forall|x: NodeKey|
                                #[trigger] pool.dom().contains(x) ==> pool[k0] <= pool[x];
                            assert(queue_items(ret).dom().contains(k0));
                        }
                    }
                },
                None => {
                    break ;
                },
            }
        }
    }
    proof {
        let sel = queue_items(ret);
        if m > 0 && pool.len() > 0 && sel.len() == 0 {
            if popped.is_empty() {
                assert(pool.dom() =~= Set::<NodeKey>::empty());
            }
        }
        if !keep_pruned {
            assert(sel.dom() == acc);
        }
        assert forall|c: NodeKey| #[trigger] pool.dom().contains(c) && !sel.dom().contains(c) implies {
            ||| shadowed(pool, acc, *dist, c) && forall|x: NodeKey| #[trigger]
                sel.dom().contains(x) && !acc.contains(x) ==> pool[x] <= pool[c]
            ||| acc.len() >= m && forall|x: NodeKey| #[trigger] sel.dom().contains(x) ==> pool[x] <= pool[c]
        } by {
            if cands_f.dom().contains(c) {
                assert(acc.len() >= m);
                assert(sel.dom() == acc);
                assert forall|x: NodeKey| #[trigger] sel.dom().contains(x) implies pool[x] <= pool[c] by {
                    assert(acc.contains(x));
                }
            } else if keep_pruned {
                assert(queue_items(discarded).dom().contains(c));
            } else {
                assert(popped.contains(c));
            }
        }
        assert(heuristic_picks(pool, m, keep_pruned, *dist, sel, acc));
        assert(selection(pool, m, keep_pruned, *dist, sel));
        assert(candidate_pool(*rel, probe, fo, level, extend, *dist, pool));
        assert(selected_from(
            *rel,
            probe,
            queue_items(*found),
            level,
            extend,
            m,
            keep_pruned,
            *dist,
            queue_items(ret),
        ));
    }
    Ok(ret)
}

/// `fm` is what a search of the bottom level with `ef` places kept, starting
/// from a non-empty queue.
pub open spec fn searched_bottom<F: Fn(Probe, NodeKey) -> Option<u64>>(
    rel: IndexRelation,
    ef: usize,
    dist: F,
    fm: Map<NodeKey, u64>,
) -> bool {
    exists|f0: Map<NodeKey, u64>, seen: Map<NodeKey, u64>|
        f0.len() > 0 && #[trigger] beam_result(rel, Probe::Query(0), 0, ef, dist, f0, fm, seen)
}

/// `fm` is what a filtered search of the bottom level kept with `ef` frontier
/// places, starting from a non-empty queue.
pub open spec fn searched_bottom_filtered<F: Fn(Probe, NodeKey) -> Option<u64>, G: Fn(NodeKey) -> Option<bool>>(
    rel: IndexRelation,
    ef: usize,
    dist: F,
    filter: G,
    fm: Map<NodeKey, u64>,
) -> bool {
    exists|f0: Map<NodeKey, u64>, seen: Map<NodeKey, u64>, tn: Map<NodeKey, u64>|
        f0.len() > 0 && #[trigger] filtered_beam_result(rel, Probe::Query(0), 0, ef, dist, filter, f0, fm, seen, tn)
}

/// What a nearest-neighbour query returns, given the non-empty set `fm` of
/// nodes that its bottom-level search kept and the set `ft` left after cutting
/// `fm` to its `k` nearest (without a filter): at most `k` nodes of `ft`,
/// nearest first, each within the radius and accepted by `post`; every other
/// node of `ft` is outside the radius, rejected by `post`, or no nearer than
/// anything returned when `k` were returned.
pub open spec fn knn_result<F: Fn(Probe, NodeKey) -> Option<u64>, E: Fn(Probe, NodeKey) -> Option<u64>, G: Fn(NodeKey) -> Option<bool>, H: Fn(NodeKey, u64) -> Option<bool>>(
    rel: IndexRelation,
    k: usize,
    ef: usize,
    radius: Option<u64>,
    has_filter: bool,
    filter: G,
    post: H,
    dist: F,
    entry_dist: E,
    fm: Map<NodeKey, u64>,
    ft: Map<NodeKey, u64>,
    res: Seq<(NodeKey, u64)>,
) -> bool {
    &&& fm.dom().finite()
    &&& fm.len() > 0
    &&& forall|x: NodeKey| #[trigger] fm.dom().contains(x) ==> (measured(dist, Probe::Query(0), x, fm[x]) || measured(entry_dist, Probe::Query(0), x, fm[x]))
    &&& !has_filter ==> searched_bottom(rel, ef, dist, fm)
    &&& has_filter ==> searched_bottom_filtered(rel, (2 * ef) as usize, dist, filter, fm)
    &&& sub_map(ft, fm)
    &&& has_filter ==> ft == fm
    &&& !has_filter ==> ft.len() == (if fm.len() < k { fm.len() } else { k as nat })
    &&& forall|x: NodeKey, y: NodeKey| #[trigger] fm.dom().contains(x) && !ft.dom().contains(x) && #[trigger] ft.dom().contains(y)
        ==> ft[y] <= fm[x]
    &&& res.len() <= k
    &&& forall|i: int, j: int| 0 <= i < j < res.len() ==> res[i].1 <= res[j].1
    &&& forall|i: int, j: int| 0 <= i < res.len() && 0 <= j < res.len() && i != j ==> res[i].0 != res[j].0
    &&& forall|i: int| 0 <= i < res.len() ==> {
        &&& ft.dom().contains(#[trigger] res[i].0)
        &&& ft[res[i].0] == res[i].1
        &&& post.ensures((res[i].0, res[i].1), Some(true))
        &&& (radius matches Some(r) ==> !spec_float_gt(res[i].1, r))
    }
    &&& forall|x: NodeKey| #[trigger] ft.dom().contains(x) && (forall|i: int| 0 <= i < res.len() ==> res[i].0 != x) ==> {
        ||| (radius matches Some(r) && spec_float_gt(ft[x], r))
        ||| post.ensures((x, ft[x]), Some(false))
        ||| res.len() == k && forall|i: int| 0 <= i < res.len() ==> res[i].1 <= ft[x]
    }
}

/// The result check can fail on node `x`.
pub open spec fn result_check_failed<H: Fn(NodeKey, u64) -> Option<bool>>(post: H, x: NodeKey) -> bool {
    exists|d: u64| post.ensures((x, d), None)
}

/// `res` answers a nearest-neighbour query.
pub open spec fn knn_answer<F: Fn(Probe, NodeKey) -> Option<u64>, E: Fn(Probe, NodeKey) -> Option<u64>, G: Fn(NodeKey) -> Option<bool>, H: Fn(NodeKey, u64) -> Option<bool>>(
    rel: IndexRelation,
    k: usize,
    ef: usize,
    radius: Option<u64>,
    has_filter: bool,
    filter: G,
    post: H,
    dist: F,
    entry_dist: E,
    res: Seq<(NodeKey, u64)>,
) -> bool {
    exists|fm: Map<NodeKey, u64>, ft: Map<NodeKey, u64>|
        #[trigger] knn_result(rel, k, ef, radius, has_filter, filter, post, dist, entry_dist, fm, ft, res)
}

/// Finds the `k` nearest nodes to query vector 0: a greedy descent from the
/// entry point (whose distance `entry_dist` measures, the others `dist`) with
/// one candidate per level, then a search of the bottom level
/// keeping `ef` candidates (twice as many under a filter, which then decides
/// which nodes enter the result set); without a filter the candidates are cut
/// to `k`. The candidates within the radius that `post` accepts are returned,
/// nearest first, at most `k` of them. An index without rows gives nothing.
#[verifier::loop_isolation(false)]
pub fn knn<F, E, G, H>(
    rel: &IndexRelation,
    k: usize,
    ef: usize,
    radius: Option<u64>,
    has_filter: bool,
    filter: &G,
    post: &H,
    dist: &F,
    entry_dist: &E,
) -> (r: Result<Vec<(NodeKey, u64)>, HnswError>) where
    F: Fn(Probe, NodeKey) -> Option<u64>,
    E: Fn(Probe, NodeKey) -> Option<u64>,
    G: Fn(NodeKey) -> Option<bool>,
    H: Fn(NodeKey, u64) -> Option<bool>,

    requires
        rel.wf(),
        has_filter ==> ef <= usize::MAX / 2,
        forall|p: Probe, x: NodeKey| dist.requires((p, x)),
        forall|p: Probe, x: NodeKey| entry_dist.requires((p, x)),
        forall|x: NodeKey| filter.requires((x,)),
        forall|x: NodeKey, d: u64| post.requires((x, d)),
    ensures
        (forall|j: crate::key::RowKey| #[trigger] rel.rows_view().dom().contains(j) ==> j.0 > 1) ==> (r matches Ok(
            res,
        ) && res.len() == 0),
        match r {
            Ok(res) => {
                &&& (forall|j: crate::key::RowKey| #[trigger] rel.rows_view().dom().contains(j) ==> j.0 > 1) ==> res.len() == 0
                &&& (exists|j: crate::key::RowKey| #[trigger] rel.rows_view().dom().contains(j) && j.0 <= 1)
                    ==> knn_answer(*rel, k, ef, radius, has_filter, *filter, *post, *dist, *entry_dist, res@)
            },
            Err(HnswError::DistanceUnavailable(x)) => dist.ensures((Probe::Query(0), x), None) || entry_dist.ensures(
                (Probe::Query(0), x),
                None,
            ),
            Err(HnswError::FilterFailed(x)) => has_filter && filter.ensures((x,), None),
            Err(HnswError::ResultFailed(x)) => result_check_failed(*post, x),
            Err(_) => false,
        },
{
    let ep = match rel.entry_row(1) {
        Some(ep) => ep,
        None => {
            let res: Vec<(NodeKey, u64)> = Vec::new();
            return Ok(res);
        },
    };
    let bottom: i64 = ep.0;
    let ep_key: NodeKey = ep.1;
    let ep_dist: u64 = match entry_dist(Probe::Query(0), ep_key) {
        Some(d) => d,
        None => {
            return Err(HnswError::DistanceUnavailable(ep_key));
        },
    };
    let mut found = queue_new();
    queue_push(&mut found, ep_key, ep_dist);
    let mut level: i64 = bottom;
    while level < 0
        invariant
            queue_items(found).dom().finite(),
            queue_items(found).len() > 0,
            forall|x: NodeKey| #[trigger] queue_items(found).dom().contains(x) ==> (measured(
                *dist,
                Probe::Query(0),
                x,
                queue_items(found)[x],
            ) || measured(*entry_dist, Probe::Query(0), x, queue_items(found)[x])),
        decreases 0 - level,
    {
        let ghost f0 = queue_items(found);
        match search_level(rel, Probe::Query(0), 1, level, &mut found, false, filter, dist) {
            Ok(()) => {},
            Err(e) => {
                return Err(e);
            },
        }
        proof {
            let seen = choose|seen: Map<NodeKey, u64>|
                beam_result(*rel, Probe::Query(0), level, 1, *dist, f0, queue_items(found), seen);
            assert forall|x: NodeKey| #[trigger] queue_items(found).dom().contains(x) implies (measured(
                *dist,
                Probe::Query(0),
                x,
                queue_items(found)[x],
            ) || measured(*entry_dist, Probe::Query(0), x, queue_items(found)[x])) by {
                if !f0.dom().contains(x) {
                    assert(seen.dom().contains(x));
                }
            }
        }
        level = level + 1;
    }
    let ef_actual: usize = if has_filter { ef * 2 } else { ef };
    let ghost f0 = queue_items(found);
    match search_level(rel, Probe::Query(0), ef_actual, 0, &mut found, has_filter, filter, dist) {
        Ok(()) => {},
        Err(e) => {
            return Err(e);
        },
    }
    proof {
        if has_filter {
            assert forall|x: NodeKey| #[trigger] queue_items(found).dom().contains(x) implies (measured(
                *dist,
                Probe::Query(0),
                x,
                queue_items(found)[x],
            ) || measured(*entry_dist, Probe::Query(0), x, queue_items(found)[x])) by {
                if f0.dom().contains(x) {
                    assert(queue_items(found)[x] == f0[x]);
                }
            }
        } else {
            let seen = choose|seen: Map<NodeKey, u64>|
                beam_result(*rel, Probe::Query(0), 0, ef, *dist, f0, queue_items(found), seen);
            assert forall|x: NodeKey| #[trigger] queue_items(found).dom().contains(x) implies (measured(
                *dist,
                Probe::Query(0),
                x,
                queue_items(found)[x],
            ) || measured(*entry_dist, Probe::Query(0), x, queue_items(found)[x])) by {
                if !f0.dom().contains(x) {
                    assert(seen.dom().contains(x));
                }
            }
        }
    }
    let ghost fm = queue_items(found);
    proof {
        if has_filter {
            if !(exists|z: NodeKey| f0.dom().contains(z)) {
                assert(f0.dom() =~= Set::<NodeKey>::empty());
            }
            let z = choose|z: NodeKey| f0.dom().contains(z);
            assert(fm.dom().contains(z));
            assert(fm.dom().remove(z).len() == fm.dom().len() - 1);
            let (seen, tn) = choose|seen: Map<NodeKey, u64>, tn: Map<NodeKey, u64>|
                filtered_beam_result(*rel, Probe::Query(0), 0, ef_actual, *dist, *filter, f0, fm, seen, tn);
            assert(searched_bottom_filtered(*rel, (2 * ef) as usize, *dist, *filter, fm));
        } else {
            let seen = choose|seen: Map<NodeKey, u64>|
                beam_result(*rel, Probe::Query(0), 0, ef, *dist, f0, fm, seen);
            assert(searched_bottom(*rel, ef, *dist, fm));
        }
    }
    if !has_filter {
        loop
            invariant
                queue_items(found).dom().finite(),
                queue_items(found).len() >= (if fm.len() < k { fm.len() } else { k as nat }),
                fm.len() <= k ==> queue_items(found) == fm,
                forall|x: NodeKey| #[trigger] queue_items(found).dom().contains(x) ==> fm.dom().contains(x)
                    && fm[x] == queue_items(found)[x],
                forall|x: NodeKey, y: NodeKey| #[trigger] fm.dom().contains(x) && !queue_items(found).dom().contains(x)
                    && #[trigger] queue_items(found).dom().contains(y) ==> queue_items(found)[y] <= fm[x],
            decreases queue_items(found).len(),
        {
            if queue_len(&found) <= k {
                break ;
            }
            let ghost q0 = queue_items(found);
            let popped = queue_pop(&mut found);
            proof {
                let (pk, pp) = popped.unwrap();
                assert forall|x: NodeKey, y: NodeKey| #[trigger] fm.dom().contains(x) && !queue_items(found).dom().contains(x)
                    && #[trigger] queue_items(found).dom().contains(y) implies queue_items(found)[y] <= fm[x] by {
                    if x != pk {
                        assert(!q0.dom().contains(x));
                    }
                }
            }
        }
    }
    let ghost ft = queue_items(found);
    proof {
        if has_filter {
            assert(ft =~= fm);
        }
        assert(sub_map(ft, fm));
    }
    let mut ret: Vec<(NodeKey, u64)> = Vec::new();
    let ghost mut dropped: Set<NodeKey> = Set::empty();
    loop
        invariant
            queue_items(found).dom().finite(),
            forall|x: NodeKey| #[trigger] queue_items(found).dom().contains(x) ==> fm.dom().contains(x)
                && fm[x] == queue_items(found)[x],
            forall|x: NodeKey| #[trigger] ft.dom().contains(x) ==> queue_items(found).dom().contains(x)
                || dropped.contains(x) || exists|i: int| 0 <= i < ret.len() && ret@[i].0 == x,
            forall|x: NodeKey| #[trigger] queue_items(found).dom().contains(x) ==> ft.dom().contains(x),
            forall|i: int| 0 <= i < ret.len() ==> #[trigger] ft.dom().contains(ret@[i].0),
            forall|i: int, j: int| 0 <= i < j < ret.len() ==> ret@[j].1 <= ret@[i].1,
            forall|i: int, y: NodeKey| 0 <= i < ret.len() && #[trigger] queue_items(found).dom().contains(y)
                ==> queue_items(found)[y] <= #[trigger] ret@[i].1,
            forall|i: int| 0 <= i < ret.len() ==> !queue_items(found).dom().contains(#[trigger] ret@[i].0),
            forall|i: int, j: int| 0 <= i < ret.len() && 0 <= j < ret.len() && i != j ==> ret@[i].0 != ret@[j].0,
            forall|i: int| 0 <= i < ret.len() ==> {
                &&& fm.dom().contains(#[trigger] ret@[i].0)
                &&& fm[ret@[i].0] == ret@[i].1
                &&& post.ensures((ret@[i].0, ret@[i].1), Some(true))
                &&& (radius matches Some(rr) ==> !spec_float_gt(ret@[i].1, rr))
            },
            forall|x: NodeKey| #[trigger] dropped.contains(x) ==> fm.dom().contains(x) && !queue_items(found).dom().contains(x)
                && ((radius matches Some(rr) && spec_float_gt(fm[x], rr)) || post.ensures((x, fm[x]), Some(false))),
            forall|i: int| 0 <= i < ret.len() ==> !dropped.contains(#[trigger] ret@[i].0),
        decreases queue_items(found).len(),
    {
        let ghost q0 = queue_items(found);
        let popped = queue_pop(&mut found);
        let (c, d) = match popped {
            Some(x) => x,
            None => {
                break ;
            },
        };
        let within: bool = match radius {
            Some(rr) => !float_gt(d, rr),
            None => true,
        };
        if !within {
            proof {
                dropped = dropped.insert(c);
                assert forall|x: NodeKey| #[trigger] ft.dom().contains(x) implies queue_items(found).dom().contains(x)
                    || dropped.contains(x) || exists|i: int| 0 <= i < ret.len() && ret@[i].0 == x by {
                    if x != c {
                        assert(q0.dom().contains(x) || dropped.contains(x) || exists|i: int| 0 <= i < ret.len() && ret@[i].0 == x);
                    }
                }
            }
        } else {
            let accepted_res: bool = match post(c, d) {
                Some(b) => b,
                None => {
                    assert(result_check_failed(*post, c));
                    return Err(HnswError::ResultFailed(c));
                },
            };
            if accepted_res {
                let ghost r0 = ret@;
                ret.push((c, d));
                proof {
                    assert forall|i: int, y: NodeKey| 0 <= i < ret.len() && #[trigger] queue_items(found).dom().contains(y)
                        implies queue_items(found)[y] <= #[trigger] ret@[i].1 by {
                        if i < ret.len() - 1 {
                            assert(q0.dom().contains(y));
                        }
                    }
                    assert forall|i: int, j: int| 0 <= i < ret.len() && 0 <= j < ret.len() && i != j implies ret@[i].0 != ret@[j].0 by {
                        if i == ret.len() - 1 {
                            assert(q0.dom().contains(c));
                        }
                        if j == ret.len() - 1 {
                            assert(q0.dom().contains(c));
                        }
                    }
                }
                proof {
                    assert forall|x: NodeKey| #[trigger] ft.dom().contains(x) implies queue_items(found).dom().contains(x)
                        || dropped.contains(x) || exists|i: int| 0 <= i < ret.len() && ret@[i].0 == x by {
                        if x == c {
                            assert(ret@[ret.len() - 1].0 == c);
                        } else if !q0.dom().contains(x) && !dropped.contains(x) {
                            let i = choose|i: int| 0 <= i < r0.len() && r0[i].0 == x;
                            assert(ret@[i].0 == x);
                        }
                    }
                }
            } else {
                proof {
                    dropped = dropped.insert(c);
                    assert forall|x: NodeKey| #[trigger] ft.dom().contains(x) implies queue_items(found).dom().contains(x)
                        || dropped.contains(x) || exists|i: int| 0 <= i < ret.len() && ret@[i].0 == x by {
                        if x != c {
                            assert(q0.dom().contains(x) || dropped.contains(x) || exists|i: int| 0 <= i < ret.len() && ret@[i].0 == x);
                        }
                    }
                }
            }
        }
    }
    let n: usize = ret.len();
    let mut res: Vec<(NodeKey, u64)> = Vec::new();
    let mut i: usize = n;
    while i > 0 && res.len() < k
        invariant
            i <= n,
            n == ret.len(),
            res.len() == n - i,
            res.len() <= k,
            forall|t: int| 0 <= t < res.len() ==> res@[t] == #[trigger] ret@[n - 1 - t],
        decreases i,
    {
        i = i - 1;
        res.push(ret[i]);
    }
    proof {
        assert forall|a: int, b: int| 0 <= a < b < res.len() implies res@[a].1 <= res@[b].1 by {
            assert(res@[a] == ret@[n - 1 - a]);
            assert(res@[b] == ret@[n - 1 - b]);
        }
        assert forall|a: int, b: int| 0 <= a < res.len() && 0 <= b < res.len() && a != b implies res@[a].0 != res@[b].0 by {
            assert(res@[a] == ret@[n - 1 - a]);
            assert(res@[b] == ret@[n - 1 - b]);
        }
        assert forall|a: int| 0 <= a < res.len() implies {
            &&& ft.dom().contains(#[trigger] res@[a].0)
            &&& ft[res@[a].0] == res@[a].1
            &&& post.ensures((res@[a].0, res@[a].1), Some(true))
            &&& (radius matches Some(rr) ==> !spec_float_gt(res@[a].1, rr))
        } by {
            assert(res@[a] == ret@[n - 1 - a]);
            let kk = ret@[n - 1 - a].0;
            assert(ft.dom().contains(kk));
            assert(fm[kk] == ret@[n - 1 - a].1);
            assert(fm.dom().contains(kk) && fm[kk] == ft[kk]);
        }
        assert forall|x: NodeKey| #[trigger] ft.dom().contains(x) && (forall|t: int| 0 <= t < res.len() ==> res@[t].0 != x)
            implies {
            ||| (radius matches Some(rr) && spec_float_gt(ft[x], rr))
            ||| post.ensures((x, ft[x]), Some(false))
            ||| res.len() == k && forall|t: int| 0 <= t < res.len() ==> res@[t].1 <= ft[x]
        } by {
            if !dropped.contains(x) {
                if exists|u: int| 0 <= u < ret.len() && ret@[u].0 == x {
                    let u = choose|u: int| 0 <= u < ret.len() && ret@[u].0 == x;
                    if u >= n - res.len() {
                        let t2 = n - 1 - u;
                        assert(res@[t2] == ret@[n - 1 - t2]);
                    }
                    assert forall|t: int| 0 <= t < res.len() implies res@[t].1 <= ft[x] by {
                        assert(res@[t] == ret@[n - 1 - t]);
                    }
                } else {
                    assert(queue_items(found).dom().contains(x));
                }
            }
        }
        assert(sub_map(ft, fm));
        assert(fm.len() > 0);
        assert(!has_filter ==> searched_bottom(*rel, ef, *dist, fm));
        assert(sub_map(ft, fm));
        assert(!has_filter ==> ft.len() == (if fm.len() < k { fm.len() } else { k as nat }));
        assert(forall|x: NodeKey, y: NodeKey| #[trigger] fm.dom().contains(x) && !ft.dom().contains(x) && #[trigger] ft.dom().contains(y)
            ==> ft[y] <= fm[x]);
        assert(forall|x: NodeKey| #[trigger] fm.dom().contains(x) ==> (measured(*dist, Probe::Query(0), x, fm[x])
            || measured(*entry_dist, Probe::Query(0), x, fm[x])));
        assert(knn_result(*rel, k, ef, radius, has_filter, *filter, *post, *dist, *entry_dist, fm, ft, res@));
    }
    proof {
        assert(knn_answer(*rel, k, ef, radius, has_filter, *filter, *post, *dist, *entry_dist, res@));
    }
    Ok(res)
}

} // verus!
