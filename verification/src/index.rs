use vstd::prelude::*;
use crate::error::HnswError;
use crate::key::{NodeKey, RowKey, Probe, NAN_KEY, holds_key, row_lt};
use crate::queue::{NodeQueue, queue_items, queue_new, queue_push, queue_entries};
use crate::relation::{IndexRelation, RowVal, RowView, Canary, CanaryTarget, is_neighbour, is_entry_row};
use crate::search::{select_neighbours_heuristic, selected_from, candidate_pool, selection, measured, beam_result};

verus! {

/// The construction parameters of an index.
#[derive(Clone, Copy, Debug)]
pub struct HnswParams {
    /// How many nearest nodes an insertion keeps while searching a level.
    pub ef_construction: usize,
    /// The most links a node keeps at the levels above the bottom one.
    pub m_max: usize,
    /// The most links a node keeps at the bottom level.
    pub m_max0: usize,
    /// Whether neighbour selection also considers the neighbours of the candidates.
    pub extend_candidates: bool,
    /// Whether neighbour selection fills free places with passed-over candidates.
    pub keep_pruned_connections: bool,
}

/// `dist` can fail to measure some distance to the vector of `k`.
pub open spec fn dist_failed<F: Fn(Probe, NodeKey) -> Option<u64>>(dist: F, k: NodeKey) -> bool {
    exists|p: Probe| dist.ensures((p, k), None)
}

/// The live links of `node` at `level` to nodes of other base rows, with their
/// distances.
pub open spec fn live_links(rows: Map<RowKey, RowView>, node: NodeKey, level: i64) -> Map<
    NodeKey,
    u64,
> {
    Map::new(
        |to: NodeKey| exists|d: u64| is_neighbour(rows, node, level, false, to, d),
        |to: NodeKey| rows[(level, node, to)]->dist,
    )
}

/// The rows after the links of `target` at `level` are cut back from `live` to
/// the selection `sel` (whose priorities are complements of distances): new
/// links are written, links left out are marked pruned.
pub open spec fn shrunk_rows(
    rows: Map<RowKey, RowView>,
    target: NodeKey,
    level: i64,
    live: Map<NodeKey, u64>,
    sel: Map<NodeKey, u64>,
) -> Map<RowKey, RowView> {
    Map::new(
        |k: RowKey| rows.dom().contains(k) || (k.0 == level && k.1 == target && sel.dom().contains(k.2)),
        |k: RowKey|
            if k.0 == level && k.1 == target && sel.dom().contains(k.2) && !live.dom().contains(k.2) {
                RowView::Edge { dist: (NAN_KEY - sel[k.2]) as u64, deleted: false }
            } else if k.0 == level && k.1 == target && live.dom().contains(k.2) && !sel.dom().contains(
                k.2,
            ) {
                RowView::Edge { dist: live[k.2], deleted: true }
            } else {
                rows[k]
            },
    )
}

/// The keys of a list of `(node, value)` pairs.
fn keys_of(v: &Vec<(NodeKey, u64)>) -> (r: Vec<NodeKey>)
    ensures
        r.len() == v.len(),
        forall|i: int| 0 <= i < v.len() ==> r@[i] == #[trigger] v@[i].0,
        forall|k: NodeKey| #[trigger] r@.contains(k) <==> exists|i: int| 0 <= i < v.len() && v@[i].0 == k,
{
    let mut r: Vec<NodeKey> = Vec::new();
    let n: usize = v.len();
    let mut i: usize = 0;
    while i < n
        invariant
            n == v.len(),
            i <= n,
            r.len() == i,
            forall|t: int| 0 <= t < i ==> r@[t] == #[trigger] v@[t].0,
        decreases n - i,
    {
        r.push(v[i].0);
        i = i + 1;
    }
    assert forall|k: NodeKey| #[trigger] r@.contains(k) <==> exists|i: int| 0 <= i < v.len() && v@[i].0 == k by {
        if r@.contains(k) {
            let t = choose|t: int| 0 <= t < r.len() && r@[t] == k;
            assert(v@[t].0 == k);
        }
        if exists|i: int| 0 <= i < v.len() && v@[i].0 == k {
            let t = choose|t: int| 0 <= t < v.len() && v@[t].0 == k;
            assert(r@[t] == k);
        }
    }
    r
}

/// Cuts the live links of `target` at `level` back to a selection of at most
/// `m` of them (chosen as for a new node, with the target's vector as probe):
/// links to newly chosen nodes are written, links left out are marked pruned.
/// Returns the number of links kept.
#[verifier::loop_isolation(false)]
pub fn shrink_neighbour<F>(
    rel: &mut IndexRelation,
    target: NodeKey,
    m: usize,
    level: i64,
    params: &HnswParams,
    dist: &F,
) -> (r: Result<usize, HnswError>) where F: Fn(Probe, NodeKey) -> Option<u64>
    requires
        old(rel).wf(),
        forall|p: Probe, k: NodeKey| dist.requires((p, k)),
    ensures
        final(rel).wf(),
        final(rel).canary_view() == old(rel).canary_view(),
        final(rel).codes_view() == old(rel).codes_view(),
        final(rel).codebook_view() == old(rel).codebook_view(),
        match r {
            Ok(n) => exists|sel: Map<NodeKey, u64>|
                {
                    &&& selected_from(
                        *old(rel),
                        Probe::Node(target),
                        live_links(old(rel).rows_view(), target, level),
                        level,
                        params.extend_candidates,
                        m,
                        params.keep_pruned_connections,
                        *dist,
                        sel,
                    )
                    &&& no_new_members(old(rel).rows_view(), final(rel).rows_view())
                    &&& n == sel.len()
                    &&& final(rel).rows_view() == shrunk_rows(
                        old(rel).rows_view(),
                        target,
                        level,
                        live_links(old(rel).rows_view(), target, level),
                        sel,
                    )
                },
            Err(HnswError::DistanceUnavailable(k)) => dist_failed(*dist, k),
            Err(_) => false,
        },
{
    let ghost rows0 = rel.rows_view();
    let ghost live = live_links(rows0, target, level);
    if dist(Probe::Node(target), target).is_none() {
        return Err(HnswError::DistanceUnavailable(target));
    }
    let old_links = rel.neighbours(target, level, false);
    let n0: usize = old_links.len();
    let mut candidates = queue_new();
    let mut i: usize = 0;
    while i < n0
        invariant
            i <= n0,
            queue_items(candidates).dom().finite(),
            forall|k: NodeKey| #[trigger]
                queue_items(candidates).dom().contains(k) <==> exists|t: int| 0 <= t < i && old_links@[t].0 == k,
            forall|k: NodeKey| #[trigger]
                queue_items(candidates).dom().contains(k) ==> live.dom().contains(k) && queue_items(
                    candidates,
                )[k] == live[k],
        decreases n0 - i,
    {
        let (k, d) = old_links[i];
        proof {
            assert(is_neighbour(rows0, target, level, false, k, d));
            assert(live.dom().contains(k));
        }
        queue_push(&mut candidates, k, d);
        i = i + 1;
    }
    proof {
        assert(queue_items(candidates) =~= live) by {
            assert forall|k: NodeKey| #[trigger] live.dom().contains(k) implies queue_items(candidates).dom().contains(k) by {
                let d = choose|d: u64| is_neighbour(rows0, target, level, false, k, d);
                let t = choose|t: int| 0 <= t < n0 && old_links@[t].0 == k;
            }
        }
    }
    let chosen = select_neighbours_heuristic(
        rel,
        Probe::Node(target),
        &candidates,
        m,
        level,
        params.extend_candidates,
        params.keep_pruned_connections,
        dist,
    );
    let chosen = match chosen {
        Ok(q) => q,
        Err(e) => {
            proof {
                if let HnswError::DistanceUnavailable(k) = e {
                    if dist.ensures((Probe::Node(target), k), None) {
                    } else {
                        let e2 = choose|e2: NodeKey| dist.ensures((Probe::Node(e2), k), None);
                        assert(dist.ensures((Probe::Node(e2), k), None));
                    }
                }
            }
            return Err(e);
        },
    };
    let ghost sel = queue_items(chosen);
    let old_keys = keys_of(&old_links);
    let new_entries = queue_entries(&chosen);
    let new_keys = keys_of(&new_entries);
    let new_degree: usize = new_entries.len();
    let ne: usize = new_entries.len();
    let mut j: usize = 0;
    while j < ne
        invariant
            j <= ne,
            rel.wf(),
            rel.canary_view() == old(rel).canary_view(),
            rel.codes_view() == old(rel).codes_view(),
            rel.codebook_view() == old(rel).codebook_view(),
            forall|k: RowKey| #[trigger]
                rel.rows_view().dom().contains(k) <==> rows0.dom().contains(k) || (k.0 == level && k.1
                    == target && exists|t: int|
                    0 <= t < j && new_entries@[t].0 == k.2 && !live.dom().contains(k.2)),
            forall|k: RowKey| #[trigger]
                rel.rows_view().dom().contains(k) ==> rel.rows_view()[k] == (if k.0 == level && k.1
                    == target && sel.dom().contains(k.2) && !live.dom().contains(k.2) && exists|t: int|
                    0 <= t < j && new_entries@[t].0 == k.2 {
                    RowView::Edge { dist: (NAN_KEY - sel[k.2]) as u64, deleted: false }
                } else {
                    rows0[k]
                }),
        decreases ne - j,
    {
        let (nk, rd) = new_entries[j];
        if !holds_key(&old_keys, &nk) {
            proof {
                assert(!live.dom().contains(nk));
                assert(sel.dom().contains(nk));
            }
            rel.put_row((level, target, nk), RowVal::Edge { dist: NAN_KEY - rd, deleted: false });
        } else {
            proof {
                let t = choose|t: int| 0 <= t < n0 && old_links@[t].0 == nk;
                assert(is_neighbour(rows0, target, level, false, nk, old_links@[t].1));
            }
        }
        j = j + 1;
    }
    let old_entries = queue_entries(&candidates);
    let no: usize = old_entries.len();
    let mut t: usize = 0;
    while t < no
        invariant
            t <= no,
            rel.wf(),
            rel.canary_view() == old(rel).canary_view(),
            rel.codes_view() == old(rel).codes_view(),
            rel.codebook_view() == old(rel).codebook_view(),
            forall|k: RowKey| #[trigger]
                rel.rows_view().dom().contains(k) <==> shrunk_rows(rows0, target, level, live, sel).dom().contains(k),
            forall|k: RowKey| #[trigger]
                rel.rows_view().dom().contains(k) ==> rel.rows_view()[k] == (if k.0 == level && k.1
                    == target && live.dom().contains(k.2) && !sel.dom().contains(k.2) && !exists|u: int|
                    t <= u < no && old_entries@[u].0 == k.2 {
                    RowView::Edge { dist: live[k.2], deleted: true }
                } else if k.0 == level && k.1 == target && live.dom().contains(k.2) && !sel.dom().contains(k.2) {
                    rows0[k]
                } else {
                    shrunk_rows(rows0, target, level, live, sel)[k]
                }),
        decreases no - t,
    {
        let (ok, od) = old_entries[t];
        if !holds_key(&new_keys, &ok) {
            let key: RowKey = (level, target, ok);
            let row_deleted: bool = match rel.get_row(&key) {
                None => {
                    proof {
                        assert(live.dom().contains(ok));
                        let d = choose|d: u64| is_neighbour(rows0, target, level, false, ok, d);
                    }
                    return Err(HnswError::IndexedVectorNotFound(ok));
                },
                Some(RowVal::Edge { deleted, .. }) => *deleted,
                Some(RowVal::Node { .. }) => false,
            };
            if row_deleted {
                proof {
                    let d = choose|d: u64| is_neighbour(rows0, target, level, false, ok, d);
                }
                rel.del_row(&key);
            } else {
                rel.put_row(key, RowVal::Edge { dist: od, deleted: true });
            }
        }
        t = t + 1;
    }
    proof {
        assert(rel.rows_view() =~= shrunk_rows(rows0, target, level, live, sel));
        reveal(no_new_members);
        assert forall|x: NodeKey| #[trigger] live.dom().contains(x) implies member(rows0, level, x) by {
            let d = choose|d: u64| is_neighbour(rows0, target, level, false, x, d);
            assert(rows0.dom().contains((level, target, x)));
        }
        lemma_selected_members(
            *old(rel),
            Probe::Node(target),
            live,
            level,
            params.extend_candidates,
            m,
            params.keep_pruned_connections,
            *dist,
            sel,
        );
        assert forall|k: RowKey| #[trigger] rel.rows_view().dom().contains(k) implies member(rows0, k.0, k.1)
            && member(rows0, k.0, k.2) by {
            if !rows0.dom().contains(k) {
                assert(sel.dom().contains(k.2));
                let y = choose|y: NodeKey| live.dom().contains(y);
                let d = choose|d: u64| is_neighbour(rows0, target, level, false, y, d);
                assert(rows0.dom().contains((level, target, y)));
            }
        }
    }
    Ok(new_degree)
}

/// The degree recorded after one more link: a negative record counts as none.
pub fn bumped_degree(degree: i64) -> (r: u64)
    ensures
        r == (if degree < 0 {
            1
        } else {
            degree + 1
        }),
{
    if degree < 0 {
        1
    } else {
        degree as u64 + 1
    }
}

/// A count of links as a recorded degree (saturating at the greatest `i64`).
pub fn degree_record(n: u64) -> (r: i64)
    ensures
        r == (if n <= i64::MAX {
            n as int
        } else {
            i64::MAX as int
        }),
{
    if n <= i64::MAX as u64 {
        n as i64
    } else {
        i64::MAX
    }
}

/// A count of links as a recorded degree (saturating at the greatest `i64`).
pub open spec fn record(n: int) -> i64 {
    if n <= i64::MAX {
        n as i64
    } else {
        i64::MAX
    }
}

/// One link as insertion and repair write it: `a` links to `b` at level `l`
/// at the distance that the selection priority `p` complements, and `b` links
/// back (giving the relation `rel_m`); then, when `b` has its own row there,
/// its degree goes up by one, or, when that would exceed `m`, its links are
/// cut back to a selection of at most `m` (from `rel_m`, with `b`'s vector as
/// probe) and its degree becomes the number kept.
pub open spec fn link_step<F: Fn(Probe, NodeKey) -> Option<u64>>(
    before: Map<RowKey, RowView>,
    after: Map<RowKey, RowView>,
    rel_m: IndexRelation,
    a: NodeKey,
    b: NodeKey,
    l: i64,
    p: u64,
    m: usize,
    params: HnswParams,
    dist: F,
) -> bool {
    let d = (NAN_KEY - p) as u64;
    let mid = before.insert((l, a, b), RowView::Edge { dist: d, deleted: false }).insert(
        (l, b, a),
        RowView::Edge { dist: d, deleted: false },
    );
    let own = (l, b, b);
    let bumped: int = if mid[own]->degree < 0 {
        1
    } else {
        mid[own]->degree + 1
    };
    &&& rel_m.rows_view() == mid
    &&& !(mid.dom().contains(own) && mid[own] is Node) ==> after == mid
    &&& mid.dom().contains(own) && mid[own] is Node && bumped <= m ==> after == mid.insert(
        own,
        RowView::Node { degree: record(bumped), hash: mid[own]->hash },
    )
    &&& mid.dom().contains(own) && mid[own] is Node && bumped > m ==> exists|sel: Map<NodeKey, u64>|
        {
            &&& selected_from(
                rel_m,
                Probe::Node(b),
                live_links(mid, b, l),
                l,
                params.extend_candidates,
                m,
                params.keep_pruned_connections,
                dist,
                sel,
            )
            &&& after == shrunk_rows(mid, b, l, live_links(mid, b, l), sel).insert(
                own,
                RowView::Node { degree: record(sel.len() as int), hash: mid[own]->hash },
            )
        }
}

/// `end` is reached from `start` by linking `a` at level `l` to each node of
/// `links` in turn (at the distance its priority complements), through the
/// rows `states` and the relations `rels`; nodes of `skip` are passed over.
pub open spec fn linked_in_turn<F: Fn(Probe, NodeKey) -> Option<u64>>(
    start: Map<RowKey, RowView>,
    end: Map<RowKey, RowView>,
    a: NodeKey,
    l: i64,
    links: Seq<(NodeKey, u64)>,
    skip: Set<NodeKey>,
    m: usize,
    states: Seq<Map<RowKey, RowView>>,
    rels: Seq<IndexRelation>,
    params: HnswParams,
    dist: F,
) -> bool {
    &&& states.len() == links.len() + 1
    &&& rels.len() == links.len()
    &&& states[0] == start
    &&& states.last() == end
    &&& forall|i: int|
        0 <= i < links.len() && #[trigger] skip.contains(links[i].0) ==> states[i + 1] == states[i]
    &&& forall|i: int|
        0 <= i < links.len() && !skip.contains(links[i].0) ==> #[trigger] link_step(
            states[i],
            states[i + 1],
            rels[i],
            a,
            links[i].0,
            l,
            links[i].1,
            m,
            params,
            dist,
        )
}

/// `links` lists the entries of the selection `sel`, each once.
pub open spec fn lists(links: Seq<(NodeKey, u64)>, sel: Map<NodeKey, u64>) -> bool {
    &&& links.len() == sel.len()
    &&& forall|i: int, j: int| 0 <= i < links.len() && 0 <= j < links.len() && i != j ==> links[i].0 != links[j].0
    &&& forall|i: int| 0 <= i < links.len() ==> #[trigger] sel.dom().contains(links[i].0) && sel[links[i].0] == links[i].1
    &&& forall|n: NodeKey| #[trigger] sel.dom().contains(n) ==> exists|i: int| 0 <= i < links.len() && links[i].0 == n
}

/// The most links a node keeps at `level`.
pub open spec fn max_links(params: HnswParams, level: i64) -> usize {
    if level == 0 {
        params.m_max0
    } else {
        params.m_max
    }
}

/// Every own row that holds a degree holds one no greater than the link limit
/// of its level.
pub open spec fn degrees_within(rows: Map<RowKey, RowView>, params: HnswParams) -> bool {
    forall|k: RowKey| #[trigger] rows.dom().contains(k) && k.1 == k.2 && rows[k] is Node ==> rows[k]->degree
        <= max_links(params, k.0)
}

/// Writing a link, or an own row within its level's limit, keeps every degree
/// within its limit.
proof fn lemma_degrees_insert(rows: Map<RowKey, RowView>, params: HnswParams, k: RowKey, v: RowView)
    requires
        degrees_within(rows, params),
        k.1 == k.2 && v is Node ==> v->degree <= max_links(params, k.0),
    ensures
        degrees_within(rows.insert(k, v), params),
{
}

/// Cutting back the links of a node writes only links, so every degree stays
/// within its limit.
proof fn lemma_degrees_shrunk(
    rows: Map<RowKey, RowView>,
    params: HnswParams,
    target: NodeKey,
    level: i64,
    sel: Map<NodeKey, u64>,
)
    requires
        degrees_within(rows, params),
    ensures
        degrees_within(shrunk_rows(rows, target, level, live_links(rows, target, level), sel), params),
{
    let live = live_links(rows, target, level);
    let new = shrunk_rows(rows, target, level, live, sel);
    assert forall|k: RowKey| #[trigger] new.dom().contains(k) && k.1 == k.2 && new[k] is Node implies new[k]->degree
        <= max_links(params, k.0) by {
        if !rows.dom().contains(k) {
            assert(k.0 == level && k.1 == target && sel.dom().contains(k.2));
            if live.dom().contains(k.2) {
                let d = choose|d: u64| is_neighbour(rows, target, level, false, k.2, d);
            }
        }
    }
}

/// Below this many live links, a node that lost a neighbour gets repaired.
pub open spec fn repair_threshold(params: HnswParams, level: i64) -> nat {
    if max_links(params, level) / 2 >= 1 {
        (max_links(params, level) / 2) as nat
    } else {
        1
    }
}

/// The row is a link that has not been pruned.
pub open spec fn live_edge(rows: Map<RowKey, RowView>, k: RowKey) -> bool {
    &&& rows.dom().contains(k)
    &&& rows[k] matches RowView::Edge { deleted, .. } && !deleted
}

/// No operation gives a node an own row at a level where it had none.
pub open spec fn no_new_own_rows(old_rows: Map<RowKey, RowView>, new_rows: Map<RowKey, RowView>) -> bool {
    forall|k: RowKey| #[trigger] new_rows.dom().contains(k) && k.1 == k.2 ==> old_rows.dom().contains(k)
}

/// Every own row of a node that `skip` does not name is still an own row, with
/// the same hash (its degree may change).
pub open spec fn hashes_kept(
    old_rows: Map<RowKey, RowView>,
    new_rows: Map<RowKey, RowView>,
    skip: spec_fn(NodeKey) -> bool,
) -> bool {
    forall|k: RowKey| #[trigger]
        old_rows.dom().contains(k) && k.1 == k.2 && !skip(k.1) && old_rows[k] is Node ==> {
            &&& new_rows.dom().contains(k)
            &&& new_rows[k] is Node
            &&& new_rows[k]->hash == old_rows[k]->hash
        }
}

/// Some row at level `l` belongs to `x` or points at it.
pub open spec fn member(rows: Map<RowKey, RowView>, l: i64, x: NodeKey) -> bool {
    exists|k: RowKey| #[trigger] rows.dom().contains(k) && k.0 == l && (k.1 == x || k.2 == x)
}

/// Every row of `new` is between nodes that already had rows at its level in
/// `old`: no node enters a level it was not at.
#[verifier::opaque]
pub open spec fn no_new_members(old: Map<RowKey, RowView>, new: Map<RowKey, RowView>) -> bool {
    forall|k: RowKey| #[trigger] new.dom().contains(k) ==> member(old, k.0, k.1) && member(old, k.0, k.2)
}

/// No own key holds a link value that it did not hold before.
pub open spec fn own_edges_kept(old: Map<RowKey, RowView>, new: Map<RowKey, RowView>) -> bool {
    forall|k: RowKey| #[trigger]
        new.dom().contains(k) && k.1 == k.2 && new[k] is Edge ==> old.dom().contains(k) && old[k] is Edge
}

/// Node `b` appears at level `l` (a row belongs to it or points at it) but has
/// no own row holding its degree and hash there: the index is damaged at `b`.
pub open spec fn broken_at(rows: Map<RowKey, RowView>, b: NodeKey, l: i64) -> bool {
    &&& member(rows, l, b)
    &&& !(rows.dom().contains((l, b, b)) && rows[(l, b, b)] is Node)
}

/// Wherever `node` still appears, its own row holds a degree and hash if it
/// held them before.
pub open spec fn own_rows_kept_where_present(
    old: Map<RowKey, RowView>,
    new: Map<RowKey, RowView>,
    node: NodeKey,
) -> bool {
    forall|l: i64| #[trigger]
        member(new, l, node) && old.dom().contains((l, node, node)) && old[(l, node, node)] is Node ==> {
            &&& new.dom().contains((l, node, node))
            &&& new[(l, node, node)] is Node
        }
}

/// `b` appears at some level up to the bottom one with no own row holding its
/// degree there.
pub open spec fn removal_fault(rows: Map<RowKey, RowView>, b: NodeKey) -> bool {
    exists|l: i64| l <= 0 && #[trigger] broken_at(rows, b, l)
}

/// `b`, linked from `node` at some level, has no own row holding its degree
/// there.
pub open spec fn missing_neighbour(rows: Map<RowKey, RowView>, node: NodeKey, b: NodeKey) -> bool {
    exists|l: i64| l <= 0 && #[trigger] linked_from(rows, node, l, b) && broken_at(rows, b, l)
}

/// `k` has an own row holding its degree at every level from `l` down to the
/// bottom one.
pub open spec fn own_rows_from(rows: Map<RowKey, RowView>, k: NodeKey, l: i64) -> bool {
    forall|l2: i64| l <= l2 <= 0 ==> #[trigger] rows.dom().contains((l2, k, k)) && rows[(l2, k, k)] is Node
}

/// `b` appears at level `l` or at a higher one.
pub open spec fn appears_by(rows: Map<RowKey, RowView>, l: i64, b: NodeKey) -> bool {
    exists|l2: i64| l2 <= l && #[trigger] member(rows, l2, b)
}

/// Every node but `node` that appears in `new` at some level appeared in `old`
/// at that level or a higher one.
#[verifier::opaque]
pub open spec fn no_new_appearances(old: Map<RowKey, RowView>, new: Map<RowKey, RowView>, node: NodeKey) -> bool {
    forall|l: i64, b: NodeKey| b != node && #[trigger] member(new, l, b) ==> appears_by(old, l, b)
}

/// Rows below level `bound` are rows of `old`.
#[verifier::opaque]
pub open spec fn same_below(old: Map<RowKey, RowView>, new: Map<RowKey, RowView>, bound: i64) -> bool {
    forall|k: RowKey| #[trigger] new.dom().contains(k) && k.0 < bound ==> old.dom().contains(k)
}

/// Row `(l, b, b)` does not hold a degree and hash.
pub open spec fn no_own_node(rows: Map<RowKey, RowView>, l: i64, b: NodeKey) -> bool {
    !(rows.dom().contains((l, b, b)) && rows[(l, b, b)] is Node)
}

/// `b` appears at some level but has no own row holding its degree there or at
/// a lower level down to the bottom one: the index is damaged at `b`.
pub open spec fn damaged(rows: Map<RowKey, RowView>, b: NodeKey) -> bool {
    exists|l1: i64, l2: i64| #![trigger member(rows, l1, b), no_own_node(rows, l2, b)]
        l1 <= l2 <= 0 && member(rows, l1, b) && no_own_node(rows, l2, b)
}

/// Witnesses for `damaged`.
proof fn lemma_damaged(rows: Map<RowKey, RowView>, b: NodeKey, l1: i64, l2: i64)
    requires
        l1 <= l2 <= 0,
        member(rows, l1, b),
        no_own_node(rows, l2, b),
    ensures
        damaged(rows, b),
{
}

/// Unlinking keeps to the members and adds no link value at an own key.
proof fn lemma_unlinked_keeps(
    rows0: Map<RowKey, RowView>,
    node: NodeKey,
    stop: int,
    lvl: int,
    own_cut: bool,
    done: Set<NodeKey>,
)
    ensures
        no_new_members(rows0, unlinked_rows(rows0, node, stop, lvl, own_cut, done)),
        own_edges_kept(rows0, unlinked_rows(rows0, node, stop, lvl, own_cut, done)),
{
    reveal(no_new_members);
    let u = unlinked_rows(rows0, node, stop, lvl, own_cut, done);
    assert forall|k: RowKey| #[trigger] u.dom().contains(k) implies member(rows0, k.0, k.1) && member(rows0, k.0, k.2) by {
        assert(rows0.dom().contains(k));
    }
}

/// Keeping to the same members composes.
proof fn lemma_no_new_members_trans(a: Map<RowKey, RowView>, b: Map<RowKey, RowView>, c: Map<RowKey, RowView>)
    requires
        no_new_members(a, b),
        no_new_members(b, c),
    ensures
        no_new_members(a, c),
{
    reveal(no_new_members);
    assert forall|k: RowKey| #[trigger] c.dom().contains(k) implies member(a, k.0, k.1) && member(a, k.0, k.2) by {
        let k1 = choose|k1: RowKey| #[trigger] b.dom().contains(k1) && k1.0 == k.0 && (k1.1 == k.1 || k1.2 == k.1);
        assert(member(a, k1.0, k1.1) && member(a, k1.0, k1.2));
        let k2 = choose|k2: RowKey| #[trigger] b.dom().contains(k2) && k2.0 == k.0 && (k2.1 == k.2 || k2.2 == k.2);
        assert(member(a, k2.0, k2.1) && member(a, k2.0, k2.2));
    }
}

/// A relation keeps to its own members.
proof fn lemma_no_new_members_refl(a: Map<RowKey, RowView>)
    ensures
        no_new_members(a, a),
{
    reveal(no_new_members);
    assert forall|k: RowKey| #[trigger] a.dom().contains(k) implies member(a, k.0, k.1) && member(a, k.0, k.2) by {
        assert(a.dom().contains(k) && k.0 == k.0);
    }
}

/// A row of a relation that keeps to the members of `old` is between members.
proof fn lemma_row_members(old: Map<RowKey, RowView>, cur: Map<RowKey, RowView>, k: RowKey)
    requires
        no_new_members(old, cur),
        cur.dom().contains(k),
    ensures
        member(old, k.0, k.1),
        member(old, k.0, k.2),
{
    reveal(no_new_members);
}

/// A node that is a member of a later state was a member before.
proof fn lemma_member_back(old: Map<RowKey, RowView>, cur: Map<RowKey, RowView>, l: i64, b: NodeKey)
    requires
        no_new_members(old, cur),
        member(cur, l, b),
    ensures
        member(old, l, b),
{
    let w = choose|w: RowKey| #[trigger] cur.dom().contains(w) && w.0 == l && (w.1 == b || w.2 == b);
    lemma_row_members(old, cur, w);
}

/// Damage at `b` in a later state was there before, when `b` kept its own rows
/// wherever it still appears.
proof fn lemma_broken_back(old: Map<RowKey, RowView>, cur: Map<RowKey, RowView>, l: i64, b: NodeKey)
    requires
        no_new_members(old, cur),
        own_rows_kept_where_present(old, cur, b),
        broken_at(cur, b, l),
    ensures
        broken_at(old, b, l),
{
    lemma_member_back(old, cur, l, b);
}

/// Writing a row between members keeps to the members.
proof fn lemma_insert_members(old: Map<RowKey, RowView>, cur: Map<RowKey, RowView>, k: RowKey, v: RowView)
    requires
        no_new_members(old, cur),
        member(old, k.0, k.1),
        member(old, k.0, k.2),
    ensures
        no_new_members(old, cur.insert(k, v)),
{
    reveal(no_new_members);
}

/// A neighbour selection picks only nodes at the level when what it starts
/// from is at the level.
proof fn lemma_selected_members<F: Fn(Probe, NodeKey) -> Option<u64>>(
    rel: IndexRelation,
    probe: Probe,
    found: Map<NodeKey, u64>,
    level: i64,
    extend: bool,
    m: usize,
    keep: bool,
    dist: F,
    sel: Map<NodeKey, u64>,
)
    requires
        selected_from(rel, probe, found, level, extend, m, keep, dist, sel),
        forall|x: NodeKey| #[trigger] found.dom().contains(x) ==> member(rel.rows_view(), level, x),
    ensures
        forall|x: NodeKey| #[trigger] sel.dom().contains(x) ==> member(rel.rows_view(), level, x),
        forall|x: NodeKey| #[trigger] sel.dom().contains(x) ==> exists|y: NodeKey| found.dom().contains(y),
        forall|x: NodeKey| #[trigger] sel.dom().contains(x) && !found.dom().contains(x) ==> extend,
{
    let pool = choose|pool: Map<NodeKey, u64>|
        crate::search::candidate_pool(rel, probe, found, level, extend, dist, pool)
            && crate::search::selection(pool, m, keep, dist, sel);
    assert forall|x: NodeKey| #[trigger] sel.dom().contains(x) implies member(rel.rows_view(), level, x) by {
        assert(pool.dom().contains(x));
        if !found.dom().contains(x) {
            let (item, d) = choose|item: NodeKey, d: u64|
                found.dom().contains(item) && is_neighbour(rel.rows_view(), item, level, false, x, d);
            assert(rel.rows_view().dom().contains((level, item, x)));
        }
    }
    assert forall|x: NodeKey| #[trigger] sel.dom().contains(x) && !found.dom().contains(x) implies extend by {
        assert(pool.dom().contains(x));
    }
    assert forall|x: NodeKey| #[trigger] sel.dom().contains(x) implies exists|y: NodeKey| found.dom().contains(y) by {
        assert(pool.dom().contains(x));
        if !found.dom().contains(x) {
            let (item, d) = choose|item: NodeKey, d: u64|
                found.dom().contains(item) && is_neighbour(rel.rows_view(), item, level, false, x, d);
        }
    }
}

/// Keeping hashes composes, as long as the second step skips no more nodes.
proof fn lemma_hashes_kept_trans(
    a: Map<RowKey, RowView>,
    b: Map<RowKey, RowView>,
    c: Map<RowKey, RowView>,
    s: spec_fn(NodeKey) -> bool,
    t: spec_fn(NodeKey) -> bool,
)
    requires
        hashes_kept(a, b, s),
        hashes_kept(b, c, t),
        forall|n: NodeKey| #[trigger] t(n) ==> s(n),
    ensures
        hashes_kept(a, c, s),
{
    assert forall|k: RowKey| #[trigger]
        a.dom().contains(k) && k.1 == k.2 && !s(k.1) && a[k] is Node implies {
            &&& c.dom().contains(k)
            &&& c[k] is Node
            &&& c[k]->hash == a[k]->hash
        } by {
        assert(b.dom().contains(k));
        if t(k.1) {
            assert(s(k.1));
        }
    }
}

/// Cutting back the links of `target` at `level` touches no other row.
proof fn lemma_shrunk_frame(
    rows: Map<RowKey, RowView>,
    target: NodeKey,
    level: i64,
    live: Map<NodeKey, u64>,
    sel: Map<NodeKey, u64>,
)
    ensures
        forall|k: RowKey| #[trigger]
            rows.dom().contains(k) && !(k.0 == level && k.1 == target) ==> shrunk_rows(
                rows,
                target,
                level,
                live,
                sel,
            ).dom().contains(k) && shrunk_rows(rows, target, level, live, sel)[k] == rows[k],
{
}

/// Writing a node's own row at a level back, with the hash it had, after only
/// rows of that node at that level changed, keeps every node's hashes.
proof fn lemma_own_row_restored(
    before: Map<RowKey, RowView>,
    mid: Map<RowKey, RowView>,
    n: NodeKey,
    level: i64,
    degree: i64,
    h: Seq<u8>,
)
    requires
        before.dom().contains((level, n, n)),
        before[(level, n, n)] is Node,
        before[(level, n, n)]->hash == h,
        forall|k: RowKey| #[trigger]
            before.dom().contains(k) && !(k.0 == level && k.1 == n) ==> mid.dom().contains(k)
                && mid[k] == before[k],
    ensures
        hashes_kept(
            before,
            mid.insert((level, n, n), RowView::Node { degree, hash: h }),
            |x: NodeKey| false,
        ),
{
}

/// A neighbour scan's list has as many entries as there are live links.
proof fn lemma_links_len(rows: Map<RowKey, RowView>, node: NodeKey, level: i64, r: Seq<(NodeKey, u64)>, ks: Seq<NodeKey>)
    requires
        forall|i: int, j: int| 0 <= i < r.len() && 0 <= j < r.len() && i != j ==> r[i].0 != r[j].0,
        forall|i: int| 0 <= i < r.len() ==> is_neighbour(rows, node, level, false, #[trigger] r[i].0, r[i].1),
        forall|to: NodeKey, d: u64| #[trigger] is_neighbour(rows, node, level, false, to, d) ==> exists|i: int|
            0 <= i < r.len() && r[i].0 == to,
        ks.len() == r.len(),
        forall|i: int| 0 <= i < r.len() ==> ks[i] == #[trigger] r[i].0,
    ensures
        live_links(rows, node, level).dom().finite(),
        live_links(rows, node, level).len() == r.len(),
{
    assert forall|i: int, j: int| 0 <= i < ks.len() && 0 <= j < ks.len() && i != j implies ks[i] != ks[j] by {
        assert(ks[i] == r[i].0);
        assert(ks[j] == r[j].0);
    }
    assert(ks.no_duplicates());
    assert(ks.to_set() =~= live_links(rows, node, level).dom()) by {
        assert forall|k: NodeKey| #[trigger] live_links(rows, node, level).dom().contains(k) implies ks.to_set().contains(k) by {
            let d = choose|d: u64| is_neighbour(rows, node, level, false, k, d);
            let i = choose|i: int| 0 <= i < r.len() && r[i].0 == k;
            assert(ks[i] == k);
        }
        assert forall|k: NodeKey| #[trigger] ks.to_set().contains(k) implies live_links(rows, node, level).dom().contains(k) by {
            let i = choose|i: int| 0 <= i < ks.len() && ks[i] == k;
            assert(is_neighbour(rows, node, level, false, r[i].0, r[i].1));
        }
    }
    ks.unique_seq_to_set();
}

/// The nodes two links away from `target` at `layer`: live neighbours of its
/// live neighbours that are neither the target nor one of its live neighbours.
pub open spec fn second_hop(rows: Map<RowKey, RowView>, target: NodeKey, layer: i64) -> Set<NodeKey> {
    Set::new(
        |n: NodeKey|
            n != target && !live_links(rows, target, layer).dom().contains(n) && exists|c: NodeKey, d: u64|
                live_links(rows, target, layer).dom().contains(c) && is_neighbour(rows, c, layer, false, n, d),
    )
}

/// The candidates of a repair: the live neighbours with their link distances
/// and the second-hop nodes with distances to the target that `dist` reported.
pub open spec fn repair_pool<F: Fn(Probe, NodeKey) -> Option<u64>>(
    rows: Map<RowKey, RowView>,
    target: NodeKey,
    layer: i64,
    dist: F,
    cands: Map<NodeKey, u64>,
) -> bool {
    &&& forall|n: NodeKey| #[trigger] cands.dom().contains(n) <==> live_links(rows, target, layer).dom().contains(n)
        || second_hop(rows, target, layer).contains(n)
    &&& forall|n: NodeKey| #[trigger] live_links(rows, target, layer).dom().contains(n) ==> cands[n] == live_links(rows, target, layer)[n]
    &&& forall|n: NodeKey| #[trigger] second_hop(rows, target, layer).contains(n) ==> measured(dist, Probe::Node(target), n, cands[n])
}

/// `target` was reconnected: some neighbour selection from the repair
/// candidates is linked from the target (each selected node that was not yet
/// a live neighbour was linked in turn, both ways), and the target's own row
/// (when it had one) records as degree the number selected.
pub open spec fn repaired<F: Fn(Probe, NodeKey) -> Option<u64>>(
    old_rel: IndexRelation,
    new_rows: Map<RowKey, RowView>,
    target: NodeKey,
    layer: i64,
    params: HnswParams,
    dist: F,
) -> bool {
    exists|cands: Map<NodeKey, u64>, sel: Map<NodeKey, u64>|
        #[trigger] repair_selection(old_rel, new_rows, target, layer, params, dist, cands, sel)
}

/// The parts of a repair, for given candidates and selection.
pub open spec fn repair_selection<F: Fn(Probe, NodeKey) -> Option<u64>>(
    old_rel: IndexRelation,
    new_rows: Map<RowKey, RowView>,
    target: NodeKey,
    layer: i64,
    params: HnswParams,
    dist: F,
    cands: Map<NodeKey, u64>,
    sel: Map<NodeKey, u64>,
) -> bool {
    &&& repair_pool(old_rel.rows_view(), target, layer, dist, cands)
    &&& selected_from(
        old_rel,
        Probe::Node(target),
        cands,
        layer,
        params.extend_candidates,
        max_links(params, layer),
        params.keep_pruned_connections,
        dist,
        sel,
    )
    &&& forall|n: NodeKey| #[trigger] sel.dom().contains(n) && n != target ==> live_edge(new_rows, (layer, target, n))
    &&& exists|
        links: Seq<(NodeKey, u64)>,
        states: Seq<Map<RowKey, RowView>>,
        rels: Seq<IndexRelation>,
        rows_end: Map<RowKey, RowView>,
    |
        {
            &&& lists(links, sel)
            &&& #[trigger] linked_in_turn(
                old_rel.rows_view(),
                rows_end,
                target,
                layer,
                links,
                live_links(old_rel.rows_view(), target, layer).dom().insert(target),
                max_links(params, layer),
                states,
                rels,
                params,
                dist,
            )
            &&& rows_end.dom().contains((layer, target, target)) ==> new_rows == rows_end.insert(
                (layer, target, target),
                RowView::Node {
                    degree: record(sel.len() as int),
                    hash: rows_end[(layer, target, target)]->hash,
                },
            )
            &&& !rows_end.dom().contains((layer, target, target)) ==> new_rows == rows_end
        }
    &&& old_rel.rows_view().dom().contains((layer, target, target))
        && old_rel.rows_view()[(layer, target, target)] is Node ==> {
        &&& new_rows.dom().contains((layer, target, target))
        &&& new_rows[(layer, target, target)] == (RowView::Node {
            degree: if sel.len() <= i64::MAX { sel.len() as i64 } else { i64::MAX },
            hash: old_rel.rows_view()[(layer, target, target)]->hash,
        })
    }
}

/// What a repair of `target` at `layer` makes of the rows of `before`: no own
/// row appears and none loses its hash; a node with enough live links (or
/// nothing two links away) is left as it was, and any other is reconnected.
pub open spec fn repair_step<F: Fn(Probe, NodeKey) -> Option<u64>>(
    before: IndexRelation,
    after: Map<RowKey, RowView>,
    target: NodeKey,
    layer: i64,
    params: HnswParams,
    dist: F,
) -> bool {
    &&& no_new_own_rows(before.rows_view(), after)
    &&& no_new_members(before.rows_view(), after)
    &&& own_edges_kept(before.rows_view(), after)
    &&& hashes_kept(before.rows_view(), after, |x: NodeKey| false)
    &&& (live_links(before.rows_view(), target, layer).len() >= repair_threshold(params, layer)
        || second_hop(before.rows_view(), target, layer).is_empty()) ==> after == before.rows_view()
    &&& live_links(before.rows_view(), target, layer).len() < repair_threshold(params, layer)
        && !second_hop(before.rows_view(), target, layer).is_empty() ==> repaired(
        before,
        after,
        target,
        layer,
        params,
        dist,
    )
}

/// A repair step reconnects a node exactly when it needs it: a node with fewer
/// live links at a level than one, or than half that level's link limit
/// (`m_max0` at the bottom level, `m_max` above it), and something two links
/// away is reconnected; a node with at least one live link and at least half
/// the limit is left as it was.
pub proof fn law_repair_below_half_the_limit<F: Fn(Probe, NodeKey) -> Option<u64>>(
    before: IndexRelation,
    after: Map<RowKey, RowView>,
    target: NodeKey,
    layer: i64,
    params: HnswParams,
    dist: F,
)
    requires
        repair_step(before, after, target, layer, params, dist),
    ensures
        (live_links(before.rows_view(), target, layer).len() < 1 || live_links(before.rows_view(), target, layer).len()
            < (if layer == 0 { params.m_max0 } else { params.m_max }) / 2) && !second_hop(before.rows_view(), target, layer).is_empty() ==> repaired(
            before,
            after,
            target,
            layer,
            params,
            dist,
        ),
        live_links(before.rows_view(), target, layer).len() >= 1 && live_links(before.rows_view(), target, layer).len()
            >= (if layer == 0 { params.m_max0 } else { params.m_max }) / 2 ==> after == before.rows_view(),
{
}

/// Reconnects `target` at `layer` when it has fewer live links than the repair
/// threshold: its live links and their live neighbours (other than itself)
/// form the candidates, a neighbour selection picks among them, and each
/// picked node not already linked gets links in both directions (and is cut
/// back when that gives it too many); the target itself, which an extended
/// selection can pick, gets no link to itself and keeps its own row. The
/// target's degree becomes the number picked.
#[verifier::loop_isolation(false)]
pub fn repair_node<F>(
    rel: &mut IndexRelation,
    target: NodeKey,
    layer: i64,
    params: &HnswParams,
    dist: &F,
) -> (r: Result<(), HnswError>) where F: Fn(Probe, NodeKey) -> Option<u64>
    requires
        old(rel).wf(),
        forall|p: Probe, k: NodeKey| dist.requires((p, k)),
    ensures
        final(rel).wf(),
        final(rel).canary_view() == old(rel).canary_view(),
        final(rel).codes_view() == old(rel).codes_view(),
        final(rel).codebook_view() == old(rel).codebook_view(),
        live_links(old(rel).rows_view(), target, layer).len() >= repair_threshold(*params, layer) ==> r is Ok,
        second_hop(old(rel).rows_view(), target, layer).is_empty() && !dist.ensures((Probe::Node(target), target), None)
            ==> r is Ok,
        match r {
            Ok(()) => {
                &&& repair_step(*old(rel), final(rel).rows_view(), target, layer, *params, *dist)
                &&& degrees_within(old(rel).rows_view(), *params) ==> degrees_within(final(rel).rows_view(), *params)
            },
            Err(HnswError::DistanceUnavailable(k)) => dist_failed(*dist, k),
            Err(HnswError::InvalidDegree(b)) => broken_at(old(rel).rows_view(), b, layer),
            Err(_) => false,
        },
{
    let ghost rows0 = rel.rows_view();
    proof {
        lemma_no_new_members_refl(rows0);
    }
    let m_max: usize = if layer == 0 { params.m_max0 } else { params.m_max };
    let threshold: usize = if m_max / 2 >= 1 { m_max / 2 } else { 1 };
    let current = rel.neighbours(target, layer, false);
    let current_keys = keys_of(&current);
    proof {
        lemma_links_len(rows0, target, layer, current@, current_keys@);
    }
    if current.len() >= threshold {
        return Ok(());
    }
    if dist(Probe::Node(target), target).is_none() {
        return Err(HnswError::DistanceUnavailable(target));
    }
    let nc: usize = current.len();
    let ghost lv = live_links(rows0, target, layer);
    let ghost sh = second_hop(rows0, target, layer);
    let mut candidates = queue_new();
    let mut i: usize = 0;
    while i < nc
        invariant
            i <= nc,
            queue_items(candidates).dom().finite(),
            forall|n: NodeKey| #[trigger] queue_items(candidates).dom().contains(n) <==> exists|t: int|
                0 <= t < i && current@[t].0 == n,
            forall|n: NodeKey| #[trigger] queue_items(candidates).dom().contains(n) ==> lv.dom().contains(n)
                && queue_items(candidates)[n] == lv[n],
        decreases nc - i,
    {
        let (k, d) = current[i];
        proof {
            assert(is_neighbour(rows0, target, layer, false, k, d));
            assert(lv.dom().contains(k));
        }
        queue_push(&mut candidates, k, d);
        i = i + 1;
    }
    proof {
        assert forall|n: NodeKey| #[trigger] lv.dom().contains(n) implies queue_items(candidates).dom().contains(n) by {
            let d = choose|d: u64| is_neighbour(rows0, target, layer, false, n, d);
            let t = choose|t: int| 0 <= t < nc && current@[t].0 == n;
        }
    }
    let mut expansion: Vec<NodeKey> = Vec::new();
    let mut i: usize = 0;
    while i < nc
        invariant
            i <= nc,
            forall|t: int| 0 <= t < expansion.len() ==> sh.contains(#[trigger] expansion@[t]),
            forall|u: int, n: NodeKey, d: u64|
                0 <= u < i && #[trigger] is_neighbour(rows0, current@[u].0, layer, false, n, d) && n != target
                    && !lv.dom().contains(n) ==> expansion@.contains(n),
        decreases nc - i,
    {
        let nk = current[i].0;
        proof {
            assert(is_neighbour(rows0, target, layer, false, nk, current@[i as int].1));
            assert(lv.dom().contains(nk));
        }
        let second = rel.neighbours(nk, layer, false);
        let ns: usize = second.len();
        let mut j: usize = 0;
        while j < ns
            invariant
                j <= ns,
                forall|t: int| 0 <= t < expansion.len() ==> sh.contains(#[trigger] expansion@[t]),
                forall|u: int, n: NodeKey, d: u64|
                    0 <= u < i && #[trigger] is_neighbour(rows0, current@[u].0, layer, false, n, d) && n != target
                        && !lv.dom().contains(n) ==> expansion@.contains(n),
                forall|t: int| 0 <= t < j && second@[t].0 != target && !lv.dom().contains(second@[t].0)
                    ==> expansion@.contains(#[trigger] second@[t].0),
            decreases ns - j,
        {
            let nn = second[j].0;
            let ghost e0 = expansion@;
            if !(nn.0 == target.0 && nn.1 == target.1 && nn.2 == target.2) && !holds_key(&current_keys, &nn) {
                proof {
                    assert(is_neighbour(rows0, nk, layer, false, nn, second@[j as int].1));
                    if lv.dom().contains(nn) {
                        let d = choose|d: u64| is_neighbour(rows0, target, layer, false, nn, d);
                        let t = choose|t: int| 0 <= t < nc && current@[t].0 == nn;
                        assert(current_keys@[t] == nn);
                    }
                    assert(sh.contains(nn));
                }
                expansion.push(nn);
                proof {
                    crate::search::lemma_push_contains(e0, expansion@, nn);
                }
            } else {
                proof {
                    if nn != target {
                        let t = choose|t: int| 0 <= t < nc && current_keys@[t] == nn;
                        assert(is_neighbour(rows0, target, layer, false, current@[t].0, current@[t].1));
                    }
                }
            }
            j = j + 1;
        }
        proof {
            assert forall|u: int, n: NodeKey, d: u64|
                0 <= u < i + 1 && #[trigger] is_neighbour(rows0, current@[u].0, layer, false, n, d) && n != target
                    && !lv.dom().contains(n) implies expansion@.contains(n) by {
                if u == i {
                    let t = choose|t: int| 0 <= t < ns && second@[t].0 == n;
                }
            }
        }
        i = i + 1;
    }
    proof {
        assert forall|n: NodeKey| #[trigger] sh.contains(n) implies expansion@.contains(n) by {
            let (c, d) = choose|c: NodeKey, d: u64| lv.dom().contains(c) && is_neighbour(rows0, c, layer, false, n, d);
            let dc = choose|dc: u64| is_neighbour(rows0, target, layer, false, c, dc);
            let u = choose|u: int| 0 <= u < nc && current@[u].0 == c;
            assert(is_neighbour(rows0, current@[u].0, layer, false, n, d));
        }
    }
    let nx: usize = expansion.len();
    let mut i: usize = 0;
    while i < nx
        invariant
            i <= nx,
            queue_items(candidates).dom().finite(),
            forall|n: NodeKey| #[trigger] queue_items(candidates).dom().contains(n) <==> lv.dom().contains(n)
                || exists|t: int| 0 <= t < i && expansion@[t] == n,
            forall|n: NodeKey| #[trigger] lv.dom().contains(n) ==> queue_items(candidates)[n] == lv[n],
            forall|n: NodeKey| #[trigger] queue_items(candidates).dom().contains(n) && !lv.dom().contains(n)
                ==> measured(*dist, Probe::Node(target), n, queue_items(candidates)[n]),
        decreases nx - i,
    {
        let nn = expansion[i];
        proof {
            assert(sh.contains(expansion@[i as int]));
        }
        let d: u64 = match dist(Probe::Node(target), nn) {
            Some(d) => d,
            None => {
                return Err(HnswError::DistanceUnavailable(nn));
            },
        };
        queue_push(&mut candidates, nn, d);
        i = i + 1;
    }
    proof {
        assert forall|n: NodeKey| #[trigger] queue_items(candidates).dom().contains(n) implies lv.dom().contains(n)
            || sh.contains(n) by {
            if !lv.dom().contains(n) {
                let t = choose|t: int| 0 <= t < nx && expansion@[t] == n;
            }
        }
        assert forall|n: NodeKey| lv.dom().contains(n) || sh.contains(n) implies #[trigger] queue_items(candidates).dom().contains(n) by {
            if sh.contains(n) && !lv.dom().contains(n) {
                let t = choose|t: int| 0 <= t < nx && expansion@[t] == n;
            }
        }
        assert forall|n: NodeKey| #[trigger] sh.contains(n) implies measured(*dist, Probe::Node(target), n, queue_items(candidates)[n]) by {
            assert(!lv.dom().contains(n));
            assert(queue_items(candidates).dom().contains(n));
        }
        assert(repair_pool(rows0, target, layer, *dist, queue_items(candidates)));
    }
    if crate::queue::queue_len(&candidates) <= nc {
        proof {
            if !sh.is_empty() {
                let x = choose|x: NodeKey| sh.contains(x);
                assert(lv.dom().insert(x).subset_of(queue_items(candidates).dom()));
                vstd::set_lib::lemma_len_subset(lv.dom().insert(x), queue_items(candidates).dom());
                assert(false);
            }
        }
        return Ok(());
    }
    let ghost cands = queue_items(candidates);
    proof {
        if sh.is_empty() {
            assert(cands.dom() =~= lv.dom());
        }
        assert(lv.len() < repair_threshold(*params, layer));
    }
    let chosen = select_neighbours_heuristic(
        rel,
        Probe::Node(target),
        &candidates,
        m_max,
        layer,
        params.extend_candidates,
        params.keep_pruned_connections,
        dist,
    );
    let chosen = match chosen {
        Ok(q) => q,
        Err(e) => {
            proof {
                if let HnswError::DistanceUnavailable(k) = e {
                    if dist.ensures((Probe::Node(target), k), None) {
                    } else {
                        let e2 = choose|e2: NodeKey| dist.ensures((Probe::Node(e2), k), None);
                        assert(dist.ensures((Probe::Node(e2), k), None));
                    }
                }
            }
            return Err(e);
        },
    };
    let ghost sel = queue_items(chosen);
    proof {
        assert forall|x: NodeKey| #[trigger] cands.dom().contains(x) implies member(rows0, layer, x) by {
            if lv.dom().contains(x) {
                let d = choose|d: u64| is_neighbour(rows0, target, layer, false, x, d);
                assert(rows0.dom().contains((layer, target, x)));
            } else {
                assert(sh.contains(x));
                let (c, d) = choose|c: NodeKey, d: u64| lv.dom().contains(c) && is_neighbour(rows0, c, layer, false, x, d);
                assert(rows0.dom().contains((layer, c, x)));
            }
        }
        lemma_selected_members(
            *old(rel),
            Probe::Node(target),
            cands,
            layer,
            params.extend_candidates,
            m_max,
            params.keep_pruned_connections,
            *dist,
            sel,
        );
        assert forall|x: NodeKey| #[trigger] sel.dom().contains(x) implies member(rows0, layer, target) by {
            let y = choose|y: NodeKey| cands.dom().contains(y);
            let c = if lv.dom().contains(y) {
                y
            } else {
                let (c2, d2) = choose|c2: NodeKey, d2: u64| lv.dom().contains(c2) && is_neighbour(rows0, c2, layer, false, y, d2);
                c2
            };
            assert(lv.dom().contains(c));
            let d = choose|d: u64| is_neighbour(rows0, target, layer, false, c, d);
            assert(rows0.dom().contains((layer, target, c)));
        }
    }
    let entries = queue_entries(&chosen);
    let new_degree: usize = entries.len();
    let ne: usize = entries.len();
    let ghost mut states: Seq<Map<RowKey, RowView>> = seq![rel.rows_view()];
    let ghost mut rels: Seq<IndexRelation> = Seq::empty();
    let mut j: usize = 0;
    while j < ne
        invariant
            j <= ne,
            states.len() == j + 1,
            rels.len() == j,
            states[0] == rows0,
            states[j as int] == rel.rows_view(),
            forall|i: int| 0 <= i < j && #[trigger] lv.dom().insert(target).contains(entries@[i].0) ==> states[i + 1] == states[i],
            forall|i: int|
                0 <= i < j && !lv.dom().insert(target).contains(entries@[i].0) ==> #[trigger] link_step(
                    states[i],
                    states[i + 1],
                    rels[i],
                    target,
                    entries@[i].0,
                    layer,
                    entries@[i].1,
                    m_max,
                    *params,
                    *dist,
                ),
            rel.wf(),
            rel.canary_view() == old(rel).canary_view(),
            rel.codes_view() == old(rel).codes_view(),
            rel.codebook_view() == old(rel).codebook_view(),
            no_new_own_rows(rows0, rel.rows_view()),
            no_new_members(rows0, rel.rows_view()),
            own_edges_kept(rows0, rel.rows_view()),
            hashes_kept(rows0, rel.rows_view(), |x: NodeKey| false),
            degrees_within(rows0, *params) ==> degrees_within(rel.rows_view(), *params),
            rel.rows_view().dom().contains((layer, target, target)) == rows0.dom().contains((layer, target, target)),
            rows0.dom().contains((layer, target, target)) ==> rel.rows_view()[(layer, target, target)] == rows0[(layer, target, target)],
            forall|k: RowKey| #[trigger] rel.rows_view().dom().contains(k) && k.1 == target && !rows0.dom().contains(k)
                ==> exists|t: int| 0 <= t < j && entries@[t].0 == k.2,
            forall|n: NodeKey| rows0.dom().contains((layer, target, n)) ==> #[trigger] rel.rows_view().dom().contains((layer, target, n)),
            forall|n: NodeKey| #[trigger] rel.rows_view().dom().contains((layer, target, n)) && (forall|t: int| 0 <= t < j ==> entries@[t].0 != n)
                ==> rel.rows_view()[(layer, target, n)] == rows0[(layer, target, n)],
            forall|t: int| 0 <= t < j ==> entries@[t].0 == target || live_edge(rel.rows_view(), (layer, target, #[trigger] entries@[t].0)),
        decreases ne - j,
    {
        let (nb, rd) = entries[j];
        let ghost rb0 = rel.rows_view();
        let ghost s0 = states;
        let ghost q0 = rels;
        if (nb.0 == target.0 && nb.1 == target.1 && nb.2 == target.2) || holds_key(&current_keys, &nb) {
            proof {
                if nb != target {
                    let t = choose|t: int| 0 <= t < nc && current_keys@[t] == nb;
                    assert(is_neighbour(rows0, target, layer, false, current@[t].0, current@[t].1));
                    assert(lv.dom().contains(nb));
                }
                assert(lv.dom().insert(target).contains(nb));
                states = states.push(rel.rows_view());
                rels = rels.push(*rel);
            }
        } else {
            proof {
                if lv.dom().contains(nb) {
                    let dd = choose|dd: u64| is_neighbour(rows0, target, layer, false, nb, dd);
                    let t = choose|t: int| 0 <= t < nc && current@[t].0 == nb;
                    assert(current_keys@[t] == nb);
                    assert(current_keys@.contains(nb));
                }
                assert(!lv.dom().contains(nb));
            }
            let d: u64 = NAN_KEY - rd;
            let ghost rb = rel.rows_view();
            proof {
                assert(sel.dom().contains(nb));
                assert(member(rows0, layer, nb));
                assert(member(rows0, layer, target));
                lemma_insert_members(rows0, rb, (layer, target, nb), RowView::Edge { dist: d, deleted: false });
                lemma_insert_members(
                    rows0,
                    rb.insert((layer, target, nb), RowView::Edge { dist: d, deleted: false }),
                    (layer, nb, target),
                    RowView::Edge { dist: d, deleted: false },
                );
            }
            rel.put_row((layer, target, nb), RowVal::Edge { dist: d, deleted: false });
            rel.put_row((layer, nb, target), RowVal::Edge { dist: d, deleted: false });
            let ghost r2 = rel.rows_view();
            proof {
                if degrees_within(rows0, *params) {
                    let e = RowView::Edge { dist: d, deleted: false };
                    lemma_degrees_insert(rb, *params, (layer, target, nb), e);
                    lemma_degrees_insert(rb.insert((layer, target, nb), e), *params, (layer, nb, target), e);
                }
            }
            let ghost rm = *rel;
            let own: RowKey = (layer, nb, nb);
            let (deg, own_hash) = match rel.get_row(&own) {
                Some(RowVal::Node { degree, hash }) => (Some(*degree), Some(crate::relation::clone_bytes(hash))),
                Some(RowVal::Edge { .. }) => {
                    proof {
                        assert(rb.dom().contains(own));
                        assert(rows0.dom().contains((layer, nb, nb)));
                        assert(broken_at(rows0, nb, layer));
                    }
                    return Err(HnswError::InvalidDegree(nb));
                },
                None => (None, None),
            };
            proof {
                assert(nb != target) by {
                    if nb == target {
                        assert(rel.rows_view()[own] is Edge);
                    }
                }
                assert(hashes_kept(rb, r2, |x: NodeKey| false));
                lemma_hashes_kept_trans(rows0, rb, r2, |x: NodeKey| false, |x: NodeKey| false);
            }
            match (deg, own_hash) {
                (Some(degree), Some(h)) => {
                    let bumped: u64 = bumped_degree(degree);
                    let ghost mut sel_w: Map<NodeKey, u64> = Map::empty();
                    let actual: u64 = if bumped > m_max as u64 {
                        let shrunk = shrink_neighbour(rel, nb, m_max, layer, params, dist);
                        match shrunk {
                            Ok(n) => {
                                proof {
                                    sel_w = choose|sel2: Map<NodeKey, u64>|
                                        {
                                            &&& selected_from(
                                                rm,
                                                Probe::Node(nb),
                                                live_links(r2, nb, layer),
                                                layer,
                                                params.extend_candidates,
                                                m_max,
                                                params.keep_pruned_connections,
                                                *dist,
                                                sel2,
                                            )
                                            &&& n == sel2.len()
                                            &&& rel.rows_view() == shrunk_rows(r2, nb, layer, live_links(r2, nb, layer), sel2)
                                        };
                                }
                                n as u64
                            },
                            Err(e) => {
                                return Err(e);
                            },
                        }
                    } else {
                        bumped
                    };
                    let ghost mid = rel.rows_view();
                    proof {
                        if mid != r2 {
                            let sel = choose|sel: Map<NodeKey, u64>| mid == shrunk_rows(r2, nb, layer, live_links(r2, nb, layer), sel);
                            lemma_shrunk_frame(r2, nb, layer, live_links(r2, nb, layer), sel);
                            lemma_no_new_members_trans(rows0, r2, mid);
                            if degrees_within(rows0, *params) {
                                lemma_degrees_shrunk(r2, *params, nb, layer, sel);
                            }
                        }
                        if bumped > m_max as u64 {
                            assert(sel_w.len() <= m_max);
                        }
                        assert(actual <= m_max);
                    }
                    let rec: i64 = degree_record(actual);
                    proof {
                        if degrees_within(rows0, *params) {
                            lemma_degrees_insert(mid, *params, own, RowView::Node { degree: rec, hash: h@ });
                        }
                    }
                    proof {
                        lemma_row_members(rows0, mid, own);
                        lemma_insert_members(rows0, mid, own, RowView::Node { degree: rec, hash: h@ });
                    }
                    rel.put_row(own, RowVal::Node { degree: rec, hash: h });
                    proof {
                        lemma_own_row_restored(r2, mid, nb, layer, rec, r2[own]->hash);
                        lemma_hashes_kept_trans(rows0, r2, rel.rows_view(), |x: NodeKey| false, |x: NodeKey| false);
                        assert forall|k: RowKey| #[trigger]
                            rel.rows_view().dom().contains(k) && k.1 == k.2 && rel.rows_view()[k] is Edge implies rows0.dom().contains(k)
                                && rows0[k] is Edge by {
                            assert(k != own);
                            assert(!(k.0 == layer && k.1 == nb));
                            assert(r2.dom().contains(k) && r2[k] == mid[k]);
                        }
                        if bumped > m_max as u64 {
                            assert(selected_from(
                                rm,
                                Probe::Node(nb),
                                live_links(r2, nb, layer),
                                layer,
                                params.extend_candidates,
                                m_max,
                                params.keep_pruned_connections,
                                *dist,
                                sel_w,
                            ));
                            assert(rel.rows_view() == shrunk_rows(r2, nb, layer, live_links(r2, nb, layer), sel_w).insert(
                                own,
                                RowView::Node { degree: record(sel_w.len() as int), hash: r2[own]->hash },
                            ));
                        }
                    }
                },
                _ => {},
            }
            proof {
                assert(link_step(rb0, rel.rows_view(), rm, target, nb, layer, rd, m_max, *params, *dist));
                states = states.push(rel.rows_view());
                rels = rels.push(rm);
            }
        }
        proof {
            assert forall|t: int| 0 <= t < j + 1 implies entries@[t].0 == target || live_edge(rel.rows_view(), (layer, target, #[trigger] entries@[t].0)) by {
                if entries@[t].0 != target {
                    if t < j {
                        assert(live_edge(rb0, (layer, target, entries@[t].0)));
                        assert(entries@[t].0 != nb);
                    } else if lv.dom().contains(nb) {
                        let dd = choose|dd: u64| is_neighbour(rows0, target, layer, false, nb, dd);
                        assert forall|u: int| 0 <= u < j implies entries@[u].0 != nb by {
                            assert(entries@[u].0 != entries@[j as int].0);
                        }
                        assert(rb0.dom().contains((layer, target, nb)));
                        assert(rb0[(layer, target, nb)] == rows0[(layer, target, nb)]);
                    }
                }
            }
            assert forall|i: int| 0 <= i < j + 1 && #[trigger] lv.dom().insert(target).contains(entries@[i].0) implies states[i + 1]
                == states[i] by {
                if i < j {
                    assert(states[i] == s0[i]);
                    assert(states[i + 1] == s0[i + 1]);
                }
            }
            assert forall|i: int|
                0 <= i < j + 1 && !lv.dom().insert(target).contains(entries@[i].0) implies #[trigger] link_step(
                    states[i],
                    states[i + 1],
                    rels[i],
                    target,
                    entries@[i].0,
                    layer,
                    entries@[i].1,
                    m_max,
                    *params,
                    *dist,
                ) by {
                if i < j {
                    assert(states[i] == s0[i]);
                    assert(states[i + 1] == s0[i + 1]);
                    assert(rels[i] == q0[i]);
                    assert(link_step(s0[i], s0[i + 1], q0[i], target, entries@[i].0, layer, entries@[i].1, m_max, *params, *dist));
                } else {
                    assert(entries@[i].0 == nb);
                    assert(states[i] == rb0);
                }
            }
        }
        j = j + 1;
    }
    let ghost rows_end = rel.rows_view();
    proof {
        assert(lists(entries@, sel));
        assert(linked_in_turn(rows0, rows_end, target, layer, entries@, lv.dom().insert(target), m_max, states, rels, *params, *dist));
    }
    let own_target: RowKey = (layer, target, target);
    let target_hash = match rel.get_row(&own_target) {
        Some(RowVal::Node { hash, .. }) => Some(crate::relation::clone_bytes(hash)),
        Some(RowVal::Edge { .. }) => {
            proof {
                assert(rows0.dom().contains(own_target));
                assert(broken_at(rows0, target, layer));
            }
            return Err(HnswError::InvalidDegree(target));
        },
        None => None,
    };
    let ghost cur = rel.rows_view();
    match target_hash {
        Some(h) => {
            let rec: i64 = degree_record(new_degree as u64);
            proof {
                if degrees_within(rows0, *params) {
                    assert(new_degree <= m_max);
                    lemma_degrees_insert(cur, *params, own_target, RowView::Node { degree: rec, hash: h@ });
                }
            }
            proof {
                lemma_row_members(rows0, cur, own_target);
                lemma_insert_members(rows0, cur, own_target, RowView::Node { degree: rec, hash: h@ });
            }
            rel.put_row(own_target, RowVal::Node { degree: rec, hash: h });
            proof {
                lemma_own_row_restored(cur, cur, target, layer, rec, cur[own_target]->hash);
                lemma_hashes_kept_trans(rows0, cur, rel.rows_view(), |x: NodeKey| false, |x: NodeKey| false);
            }
        },
        None => {},
    }
    proof {
        assert(repair_selection(*old(rel), rel.rows_view(), target, layer, *params, *dist, cands, sel));
        assert(repaired(*old(rel), rel.rows_view(), target, layer, *params, *dist));
    }
    Ok(())
}

/// Where the conflict-detection row points once the entry point may have gone:
/// at the least row at a level no higher than 1, else at itself when it exists.
pub open spec fn canary_after(rows: Map<RowKey, RowView>, old_canary: Option<Canary>) -> Option<Canary> {
    if exists|k: RowKey| is_entry_row(rows, 1, k) {
        let k = choose|k: RowKey| is_entry_row(rows, 1, k);
        Some(Canary { level: k.0, target: CanaryTarget::Row(k) })
    } else if old_canary is Some {
        Some(Canary { level: 1, target: CanaryTarget::Itself })
    } else {
        None
    }
}

/// `node` had own rows at every level from the bottom one (0) up to, but not
/// including, `stop`, and has none of them any more.
pub open spec fn own_rows_removed(
    old_rows: Map<RowKey, RowView>,
    new_rows: Map<RowKey, RowView>,
    node: NodeKey,
    stop: int,
) -> bool {
    &&& stop <= 0
    &&& i64::MIN <= stop
    &&& (stop > i64::MIN ==> !old_rows.dom().contains((stop as i64, node, node)))
    &&& forall|l: int| stop < l <= 0 ==> #[trigger] old_rows.dom().contains((l as i64, node, node))
    &&& forall|l: int| stop < l <= 0 ==> !#[trigger] new_rows.dom().contains((l as i64, node, node))
}

/// `x`, a node of another base row, is linked from `node` at level `l`
/// (pruned links included).
pub open spec fn linked_from(rows: Map<RowKey, RowView>, node: NodeKey, l: i64, x: NodeKey) -> bool {
    exists|d: u64| is_neighbour(rows, node, l, true, x, d)
}

/// At level `l`, `node` has no link (pruned ones included) to a node of another
/// base row.
pub open spec fn unlinked_at(rows: Map<RowKey, RowView>, node: NodeKey, l: i64) -> bool {
    forall|x: NodeKey| !#[trigger] linked_from(rows, node, l, x)
}

/// Where the conflict-detection row stands after removing `node` at the levels
/// above `stop` up to the bottom one: moved as `canary_after` says when the
/// node had no link at one of those levels, else where it was.
pub open spec fn canary_on_removal(
    old: Map<RowKey, RowView>,
    new: Map<RowKey, RowView>,
    node: NodeKey,
    stop: int,
    old_canary: Option<Canary>,
) -> Option<Canary> {
    if exists|l: i64| stop < l <= 0 && #[trigger] unlinked_at(old, node, l) {
        canary_after(new, old_canary)
    } else {
        old_canary
    }
}

/// A degree one lower (the least degree stays as it is).
pub open spec fn lowered(d: i64) -> i64 {
    if d > i64::MIN {
        (d - 1) as i64
    } else {
        d
    }
}

/// The row is one that unlinking `node` deletes: at a level above `stop` up to
/// the bottom one, every row that belongs to the node or points at it; at level
/// `lvl`, its own row (when `own_cut`) and its links to and from the nodes of
/// `done`.
pub open spec fn cut_key(
    old: Map<RowKey, RowView>,
    node: NodeKey,
    stop: int,
    lvl: int,
    own_cut: bool,
    done: Set<NodeKey>,
    k: RowKey,
) -> bool {
    ||| stop < k.0 <= 0 && (k.1 == node || k.2 == node)
    ||| k.0 == lvl && ((own_cut && k.1 == node && k.2 == node) || (k.1 == node && done.contains(k.2))
        || (k.2 == node && done.contains(k.1)))
}

/// The row is the own row of a neighbour that unlinking `node` leaves with one
/// degree less.
pub open spec fn lowered_key(
    old: Map<RowKey, RowView>,
    node: NodeKey,
    stop: int,
    lvl: int,
    done: Set<NodeKey>,
    k: RowKey,
) -> bool {
    &&& k.1 == k.2
    &&& (stop < k.0 <= 0 && linked_from(old, node, k.0, k.1)) || (k.0 == lvl && done.contains(k.1))
}

/// The rows of `old` as unlinking `node` leaves them (see `cut_key` and
/// `lowered_key`).
pub open spec fn unlinked_rows(
    old: Map<RowKey, RowView>,
    node: NodeKey,
    stop: int,
    lvl: int,
    own_cut: bool,
    done: Set<NodeKey>,
) -> Map<RowKey, RowView> {
    Map::new(
        |k: RowKey| old.dom().contains(k) && !cut_key(old, node, stop, lvl, own_cut, done, k),
        |k: RowKey|
            if lowered_key(old, node, stop, lvl, done, k) {
                RowView::Node { degree: lowered(old[k]->degree), hash: old[k]->hash }
            } else {
                old[k]
            },
    )
}

/// `new` is reached from `rows1` by repairing each of `targets` in turn, through
/// the relations `states`.
pub open spec fn repaired_in_turn<F: Fn(Probe, NodeKey) -> Option<u64>>(
    rows1: Map<RowKey, RowView>,
    new: Map<RowKey, RowView>,
    targets: Seq<(NodeKey, i64)>,
    states: Seq<IndexRelation>,
    params: HnswParams,
    dist: F,
) -> bool {
    &&& states.len() == targets.len() + 1
    &&& states[0].rows_view() == rows1
    &&& states.last().rows_view() == new
    &&& forall|i: int|
        0 <= i < targets.len() ==> #[trigger] repair_step(
            states[i],
            states[i + 1].rows_view(),
            targets[i].0,
            targets[i].1,
            params,
            dist,
        )
}

/// The rows of a removal of `node`: it had own rows at every level above
/// `stop` up to the bottom one and none at `stop`; at those levels every row
/// that belongs to it or points at it is deleted (its neighbours' degrees
/// lowered), then each neighbour it was linked to there is repaired in turn,
/// and in the end no row at those levels belongs to it or points at it.
pub open spec fn removal<F: Fn(Probe, NodeKey) -> Option<u64>>(
    old: Map<RowKey, RowView>,
    new: Map<RowKey, RowView>,
    node: NodeKey,
    stop: int,
    targets: Seq<(NodeKey, i64)>,
    states: Seq<IndexRelation>,
    params: HnswParams,
    dist: F,
) -> bool {
    &&& stop <= 0
    &&& forall|l: i64| stop < l <= 0 ==> #[trigger] old.dom().contains((l, node, node))
    &&& stop >= i64::MIN ==> !old.dom().contains((stop as i64, node, node))
    &&& forall|p: (NodeKey, i64)| #[trigger]
        targets.contains(p) <==> stop < p.1 <= 0 && linked_from(old, node, p.1, p.0)
    &&& forall|k: RowKey| #[trigger] new.dom().contains(k) && stop < k.0 <= 0 ==> k.1 != node && k.2 != node
    &&& repaired_in_turn(
        unlinked_rows(old, node, stop, stop, false, Set::empty()),
        new,
        targets,
        states,
        params,
        dist,
    )
}

/// Two rows that are least at the same bound are the same row.
proof fn lemma_entry_row_unique(rows: Map<RowKey, RowView>, max_level: i64, a: RowKey, b: RowKey)
    requires
        is_entry_row(rows, max_level, a),
        is_entry_row(rows, max_level, b),
    ensures
        a == b,
{
    assert(a == b || row_lt(a, b));
    assert(b == a || row_lt(b, a));
}

/// Removes a vector from the graph: its own rows from the bottom level up to
/// the first level where it has none, with every link from it at those levels
/// and the matching links back, one less degree for each former neighbour;
/// then repairs the former neighbours, moves the entry point when some level
/// was left without links, and deletes the vector's quantization codes.
#[verifier::loop_isolation(false)]
pub fn remove_vec<F>(
    rel: &mut IndexRelation,
    node: NodeKey,
    params: &HnswParams,
    dist: &F,
) -> (r: Result<(), HnswError>) where F: Fn(Probe, NodeKey) -> Option<u64>
    requires
        old(rel).wf(),
        forall|p: Probe, k: NodeKey| dist.requires((p, k)),
    ensures
        final(rel).wf(),
        final(rel).codebook_view() == old(rel).codebook_view(),
        !old(rel).rows_view().dom().contains((0, node, node)) ==> {
            &&& r is Ok
            &&& final(rel).rows_view() == old(rel).rows_view()
            &&& final(rel).canary_view() == old(rel).canary_view()
        },
        match r {
            Ok(()) => {
                &&& final(rel).codes_view() == old(rel).codes_view().remove(node)
                &&& no_new_own_rows(old(rel).rows_view(), final(rel).rows_view())
                &&& no_new_members(old(rel).rows_view(), final(rel).rows_view())
                &&& own_edges_kept(old(rel).rows_view(), final(rel).rows_view())
                &&& hashes_kept(old(rel).rows_view(), final(rel).rows_view(), |x: NodeKey| x == node)
                &&& own_rows_kept_where_present(old(rel).rows_view(), final(rel).rows_view(), node)
                &&& degrees_within(old(rel).rows_view(), *params) ==> degrees_within(final(rel).rows_view(), *params)
                &&& exists|stop: int| #[trigger]
                    own_rows_removed(old(rel).rows_view(), final(rel).rows_view(), node, stop)
                &&& exists|stop: int, targets: Seq<(NodeKey, i64)>, states: Seq<IndexRelation>| #[trigger]
                    removal(old(rel).rows_view(), final(rel).rows_view(), node, stop, targets, states, *params, *dist)
                &&& exists|stop: int, targets: Seq<(NodeKey, i64)>, states: Seq<IndexRelation>| #[trigger]
                    removal(old(rel).rows_view(), final(rel).rows_view(), node, stop, targets, states, *params, *dist)
                        && final(rel).canary_view() == canary_on_removal(
                        old(rel).rows_view(),
                        final(rel).rows_view(),
                        node,
                        stop,
                        old(rel).canary_view(),
                    )
            },
            Err(HnswError::DistanceUnavailable(k)) => dist_failed(*dist, k),
            Err(HnswError::IndexedVectorNotFound(b)) => missing_neighbour(old(rel).rows_view(), node, b),
            Err(HnswError::InvalidDegree(b)) => removal_fault(old(rel).rows_view(), b),
            Err(_) => false,
        },
{
    let ghost rows0 = rel.rows_view();
    let mut singletons: bool = false;
    let mut to_repair: Vec<(NodeKey, i64)> = Vec::new();
    let mut layer: i64 = 0;
    let ghost mut g: int = 0;
    proof {
        rel.lemma_rows_finite();
        assert(rel.rows_view() =~= unlinked_rows(rows0, node, 0, 0, false, Set::<NodeKey>::empty()));
    }
    loop
        invariant
            g == layer,
            !rows0.dom().contains((0, node, node)) ==> layer == 0 && !singletons && to_repair@.len() == 0,
            singletons <==> exists|l: i64| layer < l <= 0 && #[trigger] unlinked_at(rows0, node, l),
            rel.rows_view() == unlinked_rows(rows0, node, layer as int, layer as int, false, Set::<NodeKey>::empty()),
            forall|p: (NodeKey, i64)| #[trigger]
                to_repair@.contains(p) <==> layer < p.1 <= 0 && linked_from(rows0, node, p.1, p.0),
            rel.wf(),
            layer <= 0,
            rel.rows_view().dom().finite(),
            rel.canary_view() == old(rel).canary_view(),
            rel.codes_view() == old(rel).codes_view(),
            rel.codebook_view() == old(rel).codebook_view(),
            no_new_own_rows(rows0, rel.rows_view()),
            hashes_kept(rows0, rel.rows_view(), |x: NodeKey| x == node),
            degrees_within(rows0, *params) ==> degrees_within(rel.rows_view(), *params),
            forall|l: int| layer < l <= 0 ==> #[trigger] rows0.dom().contains((l as i64, node, node)),
            forall|l: int| layer < l <= 0 ==> !#[trigger] rel.rows_view().dom().contains((l as i64, node, node)),
            forall|l: int| i64::MIN <= l <= layer ==> #[trigger] rel.rows_view().dom().contains((l as i64, node, node))
                == rows0.dom().contains((l as i64, node, node)),
        decreases rel.rows_view().dom().len(),
    {
        let own: RowKey = (layer, node, node);
        if rel.has_row(&own) {
            let ghost before = rel.rows_view();
            proof {
                assert(rows0.dom().contains(own));
            }
            rel.del_row(&own);
            proof {
                lemma_hashes_kept_trans(rows0, before, rel.rows_view(), |x: NodeKey| x == node, |x: NodeKey| x == node);
            }
        } else {
            proof {
                assert(!rows0.dom().contains(own));
            }
            break ;
        }
        let ghost len1 = rel.rows_view().dom().len();
        let ghost cur_l = rel.rows_view();
        proof {
            assert(cur_l =~= unlinked_rows(rows0, node, layer as int, layer as int, true, Set::<NodeKey>::empty()));
            assert forall|x: NodeKey, d: u64| #[trigger] is_neighbour(cur_l, node, layer, true, x, d)
                <==> is_neighbour(rows0, node, layer, true, x, d) by {
                if is_neighbour(rows0, node, layer, true, x, d) {
                    assert(!cut_key(rows0, node, layer as int, layer as int, true, Set::<NodeKey>::empty(), (layer, node, x)));
                }
            }
        }
        let nbs = rel.neighbours(node, layer, true);
        proof {
            if nbs.len() == 0 {
                assert forall|x: NodeKey| !#[trigger] linked_from(rows0, node, layer, x) by {
                    if linked_from(rows0, node, layer, x) {
                        let d = choose|d: u64| is_neighbour(rows0, node, layer, true, x, d);
                        assert(is_neighbour(cur_l, node, layer, true, x, d));
                    }
                }
                assert(unlinked_at(rows0, node, layer));
            } else {
                assert(is_neighbour(cur_l, node, layer, true, nbs@[0].0, nbs@[0].1));
                assert(linked_from(rows0, node, layer, nbs@[0].0));
                assert(!unlinked_at(rows0, node, layer));
            }
        }
        let ghost single0 = singletons;
        if nbs.len() == 0 {
            singletons = true;
        }
        proof {
            assert(singletons <==> exists|l: i64| layer - 1 < l <= 0 && #[trigger] unlinked_at(rows0, node, l)) by {
                if single0 {
                    let l = choose|l: i64| layer < l <= 0 && #[trigger] unlinked_at(rows0, node, l);
                    assert(layer - 1 < l <= 0 && unlinked_at(rows0, node, l));
                }
                if nbs.len() == 0 {
                    assert(layer - 1 < layer <= 0 && unlinked_at(rows0, node, layer));
                }
                if exists|l: i64| layer - 1 < l <= 0 && #[trigger] unlinked_at(rows0, node, l) {
                    let l = choose|l: i64| layer - 1 < l <= 0 && #[trigger] unlinked_at(rows0, node, l);
                    if l > layer {
                        assert(single0);
                    }
                }
            }
        }
        let nn: usize = nbs.len();
        let mut j: usize = 0;
        let ghost mut done: Set<NodeKey> = Set::empty();
        while j < nn
            invariant
                g == layer,
                rel.rows_view() == unlinked_rows(rows0, node, layer as int, layer as int, true, done),
                forall|x: NodeKey| #[trigger] done.contains(x) <==> exists|t: int| 0 <= t < j && nbs@[t].0 == x,
                forall|p: (NodeKey, i64)| #[trigger]
                    to_repair@.contains(p) <==> (layer < p.1 <= 0 && linked_from(rows0, node, p.1, p.0)) || (p.1
                        == layer && done.contains(p.0)),
                j <= nn,
                rel.wf(),
                rel.rows_view().dom().finite(),
                rel.rows_view().dom().len() <= len1,
                rel.canary_view() == old(rel).canary_view(),
                rel.codes_view() == old(rel).codes_view(),
                rel.codebook_view() == old(rel).codebook_view(),
                no_new_own_rows(rows0, rel.rows_view()),
                hashes_kept(rows0, rel.rows_view(), |x: NodeKey| x == node),
                degrees_within(rows0, *params) ==> degrees_within(rel.rows_view(), *params),
                forall|l: int| layer < l <= 0 ==> #[trigger] rows0.dom().contains((l as i64, node, node)),
                forall|l: int| layer <= l <= 0 ==> !#[trigger] rel.rows_view().dom().contains((l as i64, node, node)),
                forall|l: int| i64::MIN <= l < layer ==> #[trigger] rel.rows_view().dom().contains((l as i64, node, node))
                    == rows0.dom().contains((l as i64, node, node)),
            decreases nn - j,
        {
            let nb = nbs[j].0;
            proof {
                assert(nb != node);
            }
            let ghost before = rel.rows_view();
            rel.del_row(&(layer, node, nb));
            rel.del_row(&(layer, nb, node));
            proof {
                assert(hashes_kept(before, rel.rows_view(), |x: NodeKey| false));
                lemma_hashes_kept_trans(rows0, before, rel.rows_view(), |x: NodeKey| x == node, |x: NodeKey| false);
            }
            let ghost cur = rel.rows_view();
            let nb_own: RowKey = (layer, nb, nb);
            proof {
                assert(is_neighbour(cur_l, node, layer, true, nbs@[j as int].0, nbs@[j as int].1));
                assert(linked_from(rows0, node, layer, nb));
                let d = choose|d: u64| is_neighbour(rows0, node, layer, true, nb, d);
                assert(rows0.dom().contains((layer, node, nb)));
                assert(member(rows0, layer, nb));
                assert(!done.contains(nb)) by {
                    if done.contains(nb) {
                        let t = choose|t: int| 0 <= t < j && nbs@[t].0 == nb;
                    }
                }
                assert(!cut_key(rows0, node, layer as int, layer as int, true, done, nb_own));
                assert(before.dom().contains(nb_own) == rows0.dom().contains(nb_own));
                assert(before.dom().contains(nb_own) ==> before[nb_own] == rows0[nb_own]);
            }
            let (degree, h) = match rel.get_row(&nb_own) {
                None => {
                    proof {
                        assert(broken_at(rows0, nb, layer));
                        assert(missing_neighbour(rows0, node, nb));
                    }
                    return Err(HnswError::IndexedVectorNotFound(nb));
                },
                Some(RowVal::Edge { .. }) => {
                    proof {
                        assert(broken_at(rows0, nb, layer));
                        assert(removal_fault(rows0, nb));
                    }
                    return Err(HnswError::InvalidDegree(nb));
                },
                Some(RowVal::Node { degree, hash }) => (*degree, crate::relation::clone_bytes(hash)),
            };
            let low: i64 = if degree > i64::MIN { degree - 1 } else { degree };
            proof {
                if degrees_within(rows0, *params) {
                    assert(cur.dom().contains(nb_own) && cur[nb_own] is Node);
                    lemma_degrees_insert(cur, *params, nb_own, RowView::Node { degree: low, hash: h@ });
                }
            }
            rel.put_row(nb_own, RowVal::Node { degree: low, hash: h });
            proof {
                lemma_own_row_restored(cur, cur, nb, layer, low, cur[nb_own]->hash);
                lemma_hashes_kept_trans(rows0, cur, rel.rows_view(), |x: NodeKey| x == node, |x: NodeKey| false);
                assert(!done.contains(nb)) by {
                    if done.contains(nb) {
                        let t = choose|t: int| 0 <= t < j && nbs@[t].0 == nb;
                    }
                }
                assert(before.dom().contains(nb_own));
                assert(!lowered_key(rows0, node, layer as int, layer as int, done, nb_own));
                assert(low == lowered(rows0[nb_own]->degree));
                let done2 = done.insert(nb);
                assert(rel.rows_view() =~= unlinked_rows(rows0, node, layer as int, layer as int, true, done2));
                done = done2;
            }
            let ghost tr0 = to_repair@;
            to_repair.push((nb, layer));
            proof {
                assert forall|x: NodeKey| #[trigger] done.contains(x) <==> exists|t: int| 0 <= t < j + 1 && nbs@[t].0 == x by {
                    if x == nb {
                        assert(nbs@[j as int].0 == x);
                    }
                }
                assert forall|p: (NodeKey, i64)| #[trigger] to_repair@.contains(p) <==> (layer < p.1 <= 0 && linked_from(
                    rows0,
                    node,
                    p.1,
                    p.0,
                )) || (p.1 == layer && done.contains(p.0)) by {
                    if to_repair@.contains(p) {
                        let t = choose|t: int| 0 <= t < to_repair@.len() && to_repair@[t] == p;
                        if t < tr0.len() {
                            assert(tr0[t] == p);
                            assert(tr0.contains(p));
                        }
                    }
                    if tr0.contains(p) {
                        let t = choose|t: int| 0 <= t < tr0.len() && tr0[t] == p;
                        assert(to_repair@[t] == p);
                    }
                    if p == (nb, layer) {
                        assert(to_repair@[to_repair@.len() - 1] == p);
                    }
                }
            }
            j = j + 1;
        }
        proof {
            assert forall|x: NodeKey| #[trigger] done.contains(x) <==> linked_from(rows0, node, layer, x) by {
                if done.contains(x) {
                    let t = choose|t: int| 0 <= t < nn && nbs@[t].0 == x;
                    assert(is_neighbour(cur_l, node, layer, true, nbs@[t].0, nbs@[t].1));
                }
                if linked_from(rows0, node, layer, x) {
                    let d = choose|d: u64| is_neighbour(rows0, node, layer, true, x, d);
                    assert(is_neighbour(cur_l, node, layer, true, x, d));
                }
            }
            assert forall|p: (NodeKey, i64)| #[trigger] to_repair@.contains(p) <==> layer - 1 < p.1 <= 0 && linked_from(
                rows0,
                node,
                p.1,
                p.0,
            ) by {
                if p.1 == layer && linked_from(rows0, node, p.1, p.0) {
                    assert(done.contains(p.0));
                }
            }
        }
        let ghost pre = rel.rows_view();
        let touching = rel.rows_touching(node, layer);
        let nt: usize = touching.len();
        let mut u: usize = 0;
        while u < nt
            invariant
                u <= nt,
                rel.wf(),
                rel.rows_view().dom().finite(),
                rel.rows_view().dom().len() <= len1,
                rel.canary_view() == old(rel).canary_view(),
                rel.codes_view() == old(rel).codes_view(),
                rel.codebook_view() == old(rel).codebook_view(),
                forall|k: RowKey| #[trigger]
                    rel.rows_view().dom().contains(k) <==> pre.dom().contains(k) && !(exists|w: int|
                        0 <= w < u && touching@[w] == k),
                forall|k: RowKey| #[trigger] rel.rows_view().dom().contains(k) ==> rel.rows_view()[k] == pre[k],
                degrees_within(rows0, *params) ==> degrees_within(rel.rows_view(), *params),
            decreases nt - u,
        {
            let ghost r0 = rel.rows_view();
            rel.del_row(&touching[u]);
            proof {
                assert forall|k: RowKey| #[trigger]
                    rel.rows_view().dom().contains(k) <==> pre.dom().contains(k) && !(exists|w: int|
                        0 <= w < u + 1 && touching@[w] == k) by {
                    if pre.dom().contains(k) && !(exists|w: int| 0 <= w < u + 1 && touching@[w] == k) {
                        assert(k != touching@[u as int]);
                    }
                }
            }
            u = u + 1;
        }
        proof {
            assert forall|k: RowKey| #[trigger] rel.rows_view().dom().contains(k) <==> unlinked_rows(rows0, node, layer - 1, layer - 1, false, Set::<NodeKey>::empty()).dom().contains(k) by {
                if pre.dom().contains(k) && k.0 == layer && (k.1 == node || k.2 == node) {
                    assert(touching@.contains(k));
                    let w = choose|w: int| 0 <= w < touching@.len() && touching@[w] == k;
                }
                if exists|w: int| 0 <= w < nt && touching@[w] == k {
                    let w = choose|w: int| 0 <= w < nt && touching@[w] == k;
                    assert(pre.dom().contains(touching@[w]));
                }
            }
            assert(rel.rows_view() =~= unlinked_rows(rows0, node, layer - 1, layer - 1, false, Set::<NodeKey>::empty()));
        }
        if layer == i64::MIN {
            proof {
                g = layer - 1;
            }
            break ;
        }
        layer = layer - 1;
        proof {
            g = layer as int;
        }
    }
    let ghost stop: int = layer as int;
    let ghost rows1 = rel.rows_view();
    proof {
        if !rows0.dom().contains((0, node, node)) {
            assert(rel.rows_view() =~= rows0);
        }
    }
    let ghost mut states: Seq<IndexRelation> = seq![*rel];
    proof {
        assert(hashes_kept(rows1, rel.rows_view(), |x: NodeKey| false));
        lemma_unlinked_keeps(rows0, node, g, g, false, Set::<NodeKey>::empty());
        assert forall|i: int| 0 <= i < to_repair@.len() implies g < (#[trigger] to_repair@[i]).1 <= 0 && linked_from(
            rows0,
            node,
            to_repair@[i].1,
            to_repair@[i].0,
        ) by {
            assert(to_repair@.contains(to_repair@[i]));
        }
    }
    let nr: usize = to_repair.len();
    let mut t: usize = 0;
    while t < nr
        invariant
            t <= nr,
            rel.wf(),
            rel.canary_view() == old(rel).canary_view(),
            rel.codes_view() == old(rel).codes_view(),
            rel.codebook_view() == old(rel).codebook_view(),
            no_new_own_rows(rows0, rel.rows_view()),
            hashes_kept(rows0, rel.rows_view(), |x: NodeKey| x == node),
            degrees_within(rows0, *params) ==> degrees_within(rel.rows_view(), *params),
            forall|l: int| stop < l <= 0 ==> !#[trigger] rel.rows_view().dom().contains((l as i64, node, node)),
            forall|k: RowKey| #[trigger] rel.rows_view().dom().contains(k) && g < k.0 <= 0 ==> k.1 != node && k.2 != node,
            no_new_members(rows0, rel.rows_view()),
            own_edges_kept(rows0, rel.rows_view()),
            hashes_kept(rows1, rel.rows_view(), |x: NodeKey| false),
            forall|i: int| 0 <= i < nr ==> g < (#[trigger] to_repair@[i]).1 <= 0 && linked_from(rows0, node, to_repair@[i].1, to_repair@[i].0),
            states.len() == t + 1,
            states[0].rows_view() == rows1,
            states[t as int] == *rel,
            nr == to_repair@.len(),
            forall|i: int|
                0 <= i < t ==> #[trigger] repair_step(
                    states[i],
                    states[i + 1].rows_view(),
                    to_repair@[i].0,
                    to_repair@[i].1,
                    *params,
                    *dist,
                ),
        decreases nr - t,
    {
        let (nb, l) = to_repair[t];
        let ghost before = rel.rows_view();
        let ghost before_rel = *rel;
        match repair_node(rel, nb, l, params, dist) {
            Ok(()) => {
                proof {
                    lemma_hashes_kept_trans(rows0, before, rel.rows_view(), |x: NodeKey| x == node, |x: NodeKey| false);
                    lemma_hashes_kept_trans(rows1, before, rel.rows_view(), |x: NodeKey| false, |x: NodeKey| false);
                    assert forall|k: RowKey| #[trigger] rel.rows_view().dom().contains(k) && g < k.0 <= 0 implies k.1 != node
                        && k.2 != node by {
                        lemma_row_members(before, rel.rows_view(), k);
                        if k.1 == node {
                            let w = choose|w: RowKey| #[trigger] before.dom().contains(w) && w.0 == k.0 && (w.1 == k.1 || w.2 == k.1);
                        }
                        if k.2 == node {
                            let w = choose|w: RowKey| #[trigger] before.dom().contains(w) && w.0 == k.0 && (w.1 == k.2 || w.2 == k.2);
                        }
                    }
                    lemma_no_new_members_trans(rows0, before, rel.rows_view());
                    let s0 = states;
                    states = states.push(*rel);
                    assert forall|i: int|
                        0 <= i < t + 1 implies #[trigger] repair_step(
                            states[i],
                            states[i + 1].rows_view(),
                            to_repair@[i].0,
                            to_repair@[i].1,
                            *params,
                            *dist,
                        ) by {
                        assert(states[i] == s0[i]);
                        if i < t {
                            assert(states[i + 1] == s0[i + 1]);
                        }
                    }
                }
            },
            Err(e) => {
                proof {
                    assert(to_repair@[t as int] == (nb, l));
                    if let HnswError::InvalidDegree(b) = e {
                        assert(broken_at(before, b, l));
                        let w = choose|w: RowKey| #[trigger] before.dom().contains(w) && w.0 == l && (w.1 == b || w.2 == b);
                        lemma_row_members(rows0, before, w);
                        assert(b != node);
                        if rows0.dom().contains((l, b, b)) && rows0[(l, b, b)] is Node {
                            assert(before.dom().contains((l, b, b)));
                        }
                        assert(broken_at(rows0, b, l));
                        assert(removal_fault(rows0, b));
                    }
                }
                return Err(e);
            },
        }
        t = t + 1;
    }
    if singletons {
        match rel.entry_row(1) {
            Some(k) => {
                proof {
                    assert(is_entry_row(rel.rows_view(), 1, k));
                    let k2 = choose|k2: RowKey| is_entry_row(rel.rows_view(), 1, k2);
                    lemma_entry_row_unique(rel.rows_view(), 1, k, k2);
                }
                rel.set_canary(Some(Canary { level: k.0, target: CanaryTarget::Row(k) }));
            },
            None => {
                if rel.canary().is_some() {
                    rel.set_canary(Some(Canary { level: 1, target: CanaryTarget::Itself }));
                } else {
                    rel.set_canary(None);
                }
            },
        }
    }
    rel.remove_pq_codes(&node);
    proof {
        assert(own_rows_removed(rows0, rel.rows_view(), node, stop));
        assert(repaired_in_turn(rows1, rel.rows_view(), to_repair@, states, *params, *dist));
        assert forall|l: i64| g < l <= 0 implies #[trigger] rows0.dom().contains((l, node, node)) by {
            if l > layer {
                assert(rows0.dom().contains(((l as int) as i64, node, node)));
            }
        }
        assert(removal(rows0, rel.rows_view(), node, g, to_repair@, states, *params, *dist));
        assert forall|l: i64| #[trigger]
            member(rel.rows_view(), l, node) && rows0.dom().contains((l, node, node)) && rows0[(l, node, node)] is Node
            implies rel.rows_view().dom().contains((l, node, node)) && rel.rows_view()[(l, node, node)] is Node by {
            let k = choose|k: RowKey| #[trigger] rel.rows_view().dom().contains(k) && k.0 == l && (k.1 == node || k.2 == node);
            assert(!(g < l <= 0));
            assert(rows1.dom().contains((l, node, node)));
        }
    }
    Ok(())
}

/// Whether two byte strings are equal.
pub fn bytes_eq(a: &Vec<u8>, b: &Vec<u8>) -> (r: bool)
    ensures
        r == (a@ == b@),
{
    if a.len() != b.len() {
        return false;
    }
    let n: usize = a.len();
    let mut i: usize = 0;
    while i < n
        invariant
            n == a.len(),
            n == b.len(),
            i <= n,
            forall|j: int| 0 <= j < i ==> a@[j] == b@[j],
        decreases n - i,
    {
        if a[i] != b[i] {
            return false;
        }
        i = i + 1;
    }
    assert(a@ =~= b@);
    true
}

/// The node's own row at the bottom level holds this hash: the vector is
/// already indexed as it is.
pub open spec fn indexed_with_hash(rows: Map<RowKey, RowView>, node: NodeKey, hash: Seq<u8>) -> bool {
    &&& rows.dom().contains((0, node, node))
    &&& rows[(0, node, node)] matches RowView::Node { hash: h, .. } && h == hash
}

/// The node has its own row at level `l`, with this hash.
pub open spec fn own_row_with(rows: Map<RowKey, RowView>, node: NodeKey, hash: Seq<u8>, l: int) -> bool {
    &&& rows.dom().contains((l as i64, node, node))
    &&& rows[(l as i64, node, node)] matches RowView::Node { hash: h, .. } && h == hash
}

/// After a successful put of a vector whose top level is no higher than the
/// bottom level, the vector is indexed with its hash, so that putting it again
/// with the same hash changes nothing. The requirements are what a put
/// promises of the rows before and after it.
pub proof fn law_put_leaves_vector_indexed(
    old_rows: Map<RowKey, RowView>,
    new_rows: Map<RowKey, RowView>,
    node: NodeKey,
    hash: Seq<u8>,
    target_level: i64,
)
    requires
        target_level <= 0,
        indexed_with_hash(old_rows, node, hash) ==> new_rows == old_rows,
        !indexed_with_hash(old_rows, node, hash) ==> forall|l: int|
            target_level <= l <= 0 ==> #[trigger] own_row_with(new_rows, node, hash, l),
    ensures
        indexed_with_hash(new_rows, node, hash),
{
    if !indexed_with_hash(old_rows, node, hash) {
        assert(own_row_with(new_rows, node, hash, 0));
    }
}

/// A put of a vector not indexed with its hash, into an index where the
/// vector's own rows run without a gap from the bottom level up, leaves it
/// own rows exactly at the levels from `target_level` to the bottom one. The
/// requirements are that shape of the rows before and what a put promises.
pub proof fn law_put_gives_exact_levels(
    old_rows: Map<RowKey, RowView>,
    new_rows: Map<RowKey, RowView>,
    node: NodeKey,
    hash: Seq<u8>,
    target_level: i64,
)
    requires
        target_level <= 0,
        !indexed_with_hash(old_rows, node, hash),
        forall|l: i64| #[trigger] old_rows.dom().contains((l, node, node)) ==> l <= 0,
        forall|l1: i64, l2: i64| #![trigger old_rows.dom().contains((l1, node, node)), old_rows.dom().contains((l2, node, node))]
            old_rows.dom().contains((l1, node, node)) && l1 <= l2 <= 0 ==> old_rows.dom().contains((l2, node, node)),
        forall|l: int| target_level <= l <= 0 ==> #[trigger] own_row_with(new_rows, node, hash, l),
        forall|l: i64| #[trigger] new_rows.dom().contains((l, node, node)) && !(target_level <= l <= 0)
            ==> old_rows.dom().contains((l, node, node)) && (l <= 0 && old_rows.dom().contains((0, node, node))
            && !indexed_with_hash(old_rows, node, hash) ==> gap_above(old_rows, node, l)),
    ensures
        forall|l: i64| #[trigger] new_rows.dom().contains((l, node, node)) <==> target_level <= l <= 0,
{
    assert forall|l: i64| #[trigger] new_rows.dom().contains((l, node, node)) <==> target_level <= l <= 0 by {
        if target_level <= l <= 0 {
            assert(own_row_with(new_rows, node, hash, l as int));
        }
        if new_rows.dom().contains((l, node, node)) && !(target_level <= l <= 0) {
            assert(old_rows.dom().contains((l, node, node)));
            assert(old_rows.dom().contains((0, node, node)));
            let l2 = choose|l2: i64| l < l2 <= 0 && !#[trigger] old_rows.dom().contains((l2, node, node));
            assert(old_rows.dom().contains((l2, node, node)));
        }
    }
}

/// A link step keeps every row and leaves a link in each direction.
proof fn lemma_link_step_grows<F: Fn(Probe, NodeKey) -> Option<u64>>(
    before: Map<RowKey, RowView>,
    after: Map<RowKey, RowView>,
    rel_m: IndexRelation,
    a: NodeKey,
    b: NodeKey,
    l: i64,
    p: u64,
    m: usize,
    params: HnswParams,
    dist: F,
)
    requires
        link_step(before, after, rel_m, a, b, l, p, m, params, dist),
    ensures
        forall|k: RowKey| #[trigger] before.dom().contains(k) ==> after.dom().contains(k),
        after.dom().contains((l, b, a)),
{
    let d = (NAN_KEY - p) as u64;
    let mid = before.insert((l, a, b), RowView::Edge { dist: d, deleted: false }).insert(
        (l, b, a),
        RowView::Edge { dist: d, deleted: false },
    );
    let own = (l, b, b);
    if mid.dom().contains(own) && mid[own] is Node {
        let bumped: int = if mid[own]->degree < 0 { 1 } else { mid[own]->degree + 1 };
        if bumped > m {
            let sel = choose|sel: Map<NodeKey, u64>|
                {
                    &&& selected_from(
                        rel_m,
                        Probe::Node(b),
                        live_links(mid, b, l),
                        l,
                        params.extend_candidates,
                        m,
                        params.keep_pruned_connections,
                        dist,
                        sel,
                    )
                    &&& after == shrunk_rows(mid, b, l, live_links(mid, b, l), sel).insert(
                        own,
                        RowView::Node { degree: record(sel.len() as int), hash: mid[own]->hash },
                    )
                };
        }
    }
}

/// The rows of a state of a linking in turn stay in every later state.
proof fn lemma_linked_keeps<F: Fn(Probe, NodeKey) -> Option<u64>>(
    start: Map<RowKey, RowView>,
    end: Map<RowKey, RowView>,
    a: NodeKey,
    l: i64,
    links: Seq<(NodeKey, u64)>,
    skip: Set<NodeKey>,
    m: usize,
    states: Seq<Map<RowKey, RowView>>,
    rels: Seq<IndexRelation>,
    params: HnswParams,
    dist: F,
    i: int,
    j: int,
)
    requires
        linked_in_turn(start, end, a, l, links, skip, m, states, rels, params, dist),
        0 <= i <= j < states.len(),
    ensures
        forall|k: RowKey| #[trigger] states[i].dom().contains(k) ==> states[j].dom().contains(k),
    decreases j - i,
{
    if i < j {
        lemma_linked_keeps(start, end, a, l, links, skip, m, states, rels, params, dist, i, j - 1);
        let t = j - 1;
        if !skip.contains(links[t].0) {
            lemma_link_step_grows(states[t], states[t + 1], rels[t], a, links[t].0, l, links[t].1, m, params, dist);
        }
    }
}

/// After a put, the node has, at each of its linked levels, a live link to
/// every node it selected there, and each of them a link back to it (marked
/// pruned where that node was cut back); its own row records as degree the
/// number selected, no more than the level's link limit.
pub proof fn law_put_links_both_ways<F: Fn(Probe, NodeKey) -> Option<u64>>(
    rows: Map<RowKey, RowView>,
    node: NodeKey,
    query: usize,
    l: i64,
    params: HnswParams,
    dist: F,
    base: Map<RowKey, RowView>,
)
    requires
        put_linked(rows, node, query, l, params, dist, base),
    ensures
        exists|sel: Map<NodeKey, u64>| {
            &&& sel.len() <= max_links(params, l)
            &&& rows.dom().contains((l, node, node))
            &&& rows[(l, node, node)] == (RowView::Node {
                degree: record(sel.len() as int),
                hash: rows[(l, node, node)]->hash,
            })
            &&& forall|n: NodeKey| #[trigger] sel.dom().contains(n) ==> live_edge(rows, (l, node, n))
                && rows.dom().contains((l, n, node))
        },
{
    let (rel_l, f, sel) = choose|rel_l: IndexRelation, f: Map<NodeKey, u64>, sel: Map<NodeKey, u64>|
        #[trigger] linked_at(rel_l, rows, node, query, l, params, dist, f, sel) && same_at_level(rel_l.rows_view(), base, l);
    let pool = choose|pool: Map<NodeKey, u64>|
        crate::search::candidate_pool(rel_l, Probe::Query(query), f, l, params.extend_candidates, dist, pool)
            && crate::search::selection(pool, max_links(params, l), params.keep_pruned_connections, dist, sel);
    let start = rel_l.rows_view().insert((l, node, node), rows[(l, node, node)]);
    let (links, states, rels, rows_end) = choose|
        links: Seq<(NodeKey, u64)>,
        states: Seq<Map<RowKey, RowView>>,
        rels: Seq<IndexRelation>,
        rows_end: Map<RowKey, RowView>,
    |
        {
            &&& lists(links, sel)
            &&& #[trigger] linked_in_turn(
                start,
                rows_end,
                node,
                l,
                links,
                Set::empty(),
                max_links(params, l),
                states,
                rels,
                params,
                dist,
            )
            &&& same_at_level(rows, rows_end, l)
        };
    assert forall|n: NodeKey| #[trigger] sel.dom().contains(n) implies live_edge(rows, (l, node, n))
        && rows.dom().contains((l, n, node)) by {
        let i = choose|i: int| 0 <= i < links.len() && links[i].0 == n;
        lemma_link_step_grows(states[i], states[i + 1], rels[i], node, n, l, links[i].1, max_links(params, l), params, dist);
        lemma_linked_keeps(start, rows_end, node, l, links, Set::empty(), max_links(params, l), states, rels, params, dist, i + 1, links.len() as int);
        assert(rows_end.dom().contains((l, n, node)));
    }
    assert(rows[(l, node, node)] == (RowView::Node { degree: record(sel.len() as int), hash: rows[(l, node, node)]->hash }));
}

/// A removed vector is no longer indexed under any hash, so that putting it
/// again inserts it anew. The requirements are what a removal promises of the
/// rows before and after it.
pub proof fn law_removed_vector_not_indexed(
    old_rows: Map<RowKey, RowView>,
    new_rows: Map<RowKey, RowView>,
    node: NodeKey,
)
    requires
        no_new_own_rows(old_rows, new_rows),
        exists|stop: int| #[trigger] own_rows_removed(old_rows, new_rows, node, stop),
    ensures
        !new_rows.dom().contains((0, node, node)),
        forall|h: Seq<u8>| !#[trigger] indexed_with_hash(new_rows, node, h),
{
    let stop = choose|stop: int| #[trigger] own_rows_removed(old_rows, new_rows, node, stop);
    if stop == 0 {
        assert(!old_rows.dom().contains((0, node, node)));
    } else {
        assert(!new_rows.dom().contains((0int as i64, node, node)));
    }
}

/// Removing the only vector of an index leaves no row at all, so that a search
/// then finds nothing and the next put starts a new graph. The requirements are
/// that every row is an own row of the vector, at levels from the bottom one up
/// with no gap, and what a removal promises.
pub proof fn law_removing_the_last_vector_empties_the_graph<F: Fn(Probe, NodeKey) -> Option<u64>>(
    old_rows: Map<RowKey, RowView>,
    new_rows: Map<RowKey, RowView>,
    node: NodeKey,
    params: HnswParams,
    dist: F,
)
    requires
        forall|k: RowKey| #[trigger] old_rows.dom().contains(k) ==> k.1 == node && k.2 == node && k.0 <= 0,
        forall|l1: i64, l2: i64| #![trigger old_rows.dom().contains((l1, node, node)), old_rows.dom().contains((l2, node, node))]
            old_rows.dom().contains((l1, node, node)) && l1 <= l2 <= 0 ==> old_rows.dom().contains((l2, node, node)),
        exists|stop: int, targets: Seq<(NodeKey, i64)>, states: Seq<IndexRelation>| #[trigger]
            removal(old_rows, new_rows, node, stop, targets, states, params, dist),
    ensures
        forall|k: RowKey| !#[trigger] new_rows.dom().contains(k),
{
    let (stop, targets, states) = choose|stop: int, targets: Seq<(NodeKey, i64)>, states: Seq<IndexRelation>| #[trigger]
        removal(old_rows, new_rows, node, stop, targets, states, params, dist);
    if targets.len() > 0 {
        let p = targets[0];
        assert(targets.contains(p));
        let d = choose|d: u64| is_neighbour(old_rows, node, p.1, true, p.0, d);
        assert(old_rows.dom().contains((p.1, node, p.0)));
    }
    assert(states.len() == 1);
    let rows1 = unlinked_rows(old_rows, node, stop, stop, false, Set::empty());
    assert(new_rows == rows1);
    assert forall|k: RowKey| !#[trigger] new_rows.dom().contains(k) by {
        if new_rows.dom().contains(k) {
            assert(old_rows.dom().contains(k));
            if k.0 <= stop {
                assert(old_rows.dom().contains((k.0, node, node)));
                assert(old_rows.dom().contains((stop as i64, node, node)));
            }
        }
    }
}

/// A vector that an operation does not touch stays indexed with its hash:
/// putting or removing the vectors of one base row leaves those of every other
/// row where they were.
pub proof fn law_other_vectors_stay_indexed(
    old_rows: Map<RowKey, RowView>,
    new_rows: Map<RowKey, RowView>,
    skip: spec_fn(NodeKey) -> bool,
    node: NodeKey,
    hash: Seq<u8>,
)
    requires
        hashes_kept(old_rows, new_rows, skip),
        !skip(node),
        indexed_with_hash(old_rows, node, hash),
    ensures
        indexed_with_hash(new_rows, node, hash),
{
    assert(old_rows.dom().contains((0, node, node)));
}

/// At level `l` the node is linked to a neighbour selection: `f` is what a
/// search of that level kept (in relation `rel_l`, from a non-empty queue, with
/// distances measured from query `query`), `sel` is a selection from `f` of
/// at most the level's link limit, the node's own row at `l` records as degree
/// the number selected, and the node has a live link to each selected node at
/// the measured distance. The rows at level `l` are those of `rel_l` once the
/// node's own row is written and it is linked to each selected node in turn.
pub open spec fn linked_at<F: Fn(Probe, NodeKey) -> Option<u64>>(
    rel_l: IndexRelation,
    rows: Map<RowKey, RowView>,
    node: NodeKey,
    query: usize,
    l: i64,
    params: HnswParams,
    dist: F,
    f: Map<NodeKey, u64>,
    sel: Map<NodeKey, u64>,
) -> bool {
    &&& f.dom().finite()
    &&& f.len() > 0
    &&& forall|x: NodeKey| #[trigger] f.dom().contains(x) ==> measured(dist, Probe::Query(query), x, f[x])
    &&& exists|f0: Map<NodeKey, u64>, seen: Map<NodeKey, u64>|
        f0.len() > 0 && #[trigger] beam_result(rel_l, Probe::Query(query), l, params.ef_construction, dist, f0, f, seen)
    &&& selected_from(
        rel_l,
        Probe::Query(query),
        f,
        l,
        params.extend_candidates,
        max_links(params, l),
        params.keep_pruned_connections,
        dist,
        sel,
    )
    &&& rows.dom().contains((l, node, node))
    &&& rows[(l, node, node)] is Node
    &&& rows[(l, node, node)]->degree == (if sel.len() <= i64::MAX {
        sel.len() as i64
    } else {
        i64::MAX
    })
    &&& forall|n: NodeKey| #[trigger]
        sel.dom().contains(n) ==> live_edge(rows, (l, node, n)) && rows[(l, node, n)]->dist == NAN_KEY
            - sel[n]
    &&& exists|
        links: Seq<(NodeKey, u64)>,
        states: Seq<Map<RowKey, RowView>>,
        rels: Seq<IndexRelation>,
        rows_end: Map<RowKey, RowView>,
    |
        {
            &&& lists(links, sel)
            &&& #[trigger] linked_in_turn(
                rel_l.rows_view().insert((l, node, node), rows[(l, node, node)]),
                rows_end,
                node,
                l,
                links,
                Set::empty(),
                max_links(params, l),
                states,
                rels,
                params,
                dist,
            )
            &&& same_at_level(rows, rows_end, l)
        }
}

/// The two relations have the same rows at level `l`.
pub open spec fn same_at_level(a: Map<RowKey, RowView>, b: Map<RowKey, RowView>, l: i64) -> bool {
    &&& forall|k: RowKey| #[trigger] a.dom().contains(k) && k.0 == l ==> b.dom().contains(k) && b[k] == a[k]
    &&& forall|k: RowKey| #[trigger] b.dom().contains(k) && k.0 == l ==> a.dom().contains(k)
}

/// The node is linked at level `l` to a neighbour selection from a search of
/// that level, run while the level held the rows of `base`.
pub open spec fn put_linked<F: Fn(Probe, NodeKey) -> Option<u64>>(
    rows: Map<RowKey, RowView>,
    node: NodeKey,
    query: usize,
    l: i64,
    params: HnswParams,
    dist: F,
    base: Map<RowKey, RowView>,
) -> bool {
    exists|rel_l: IndexRelation, f: Map<NodeKey, u64>, sel: Map<NodeKey, u64>|
        #[trigger] linked_at(rel_l, rows, node, query, l, params, dist, f, sel) && same_at_level(
            rel_l.rows_view(),
            base,
            l,
        )
}

/// The rows a put links the node into: those before the put, or, when the node
/// already had its own row at the bottom level, those its removal left.
pub open spec fn put_base<F: Fn(Probe, NodeKey) -> Option<u64>>(
    old: Map<RowKey, RowView>,
    base: Map<RowKey, RowView>,
    node: NodeKey,
    params: HnswParams,
    dist: F,
) -> bool {
    if old.dom().contains((0, node, node)) {
        exists|stop: int, targets: Seq<(NodeKey, i64)>, states: Seq<IndexRelation>| #[trigger]
            removal(old, base, node, stop, targets, states, params, dist)
    } else {
        base == old
    }
}

/// Some node other than `node` has its own row at a level no higher than the
/// bottom one.
pub open spec fn others_indexed(rows: Map<RowKey, RowView>, node: NodeKey) -> bool {
    exists|k: RowKey| #[trigger]
        rows.dom().contains(k) && k.0 <= 0 && k.1 == k.2 && k.1 != node && rows[k] is Node
}

/// The node joined the graph `base`, whose lowest level was `bottom`: below
/// that level only the node's own rows stand, and at each of its levels from
/// there up to the bottom one it is linked to a neighbour selection from a
/// search of that level of `base`.
pub open spec fn joined_graph<F: Fn(Probe, NodeKey) -> Option<u64>>(
    rows: Map<RowKey, RowView>,
    node: NodeKey,
    query: usize,
    target_level: i64,
    params: HnswParams,
    dist: F,
    bottom: i64,
    base: Map<RowKey, RowView>,
) -> bool {
    &&& bottom <= 0
    &&& forall|k: RowKey| #[trigger] rows.dom().contains(k) && k.0 < bottom ==> k.1 == node && k.2 == node
    &&& forall|l: i64|
        target_level <= l <= 0 && bottom <= l ==> #[trigger] put_linked(rows, node, query, l, params, dist, base)
}

/// Being linked at a level depends only on the rows at that level.
proof fn lemma_linked_frame<F: Fn(Probe, NodeKey) -> Option<u64>>(
    rows1: Map<RowKey, RowView>,
    rows2: Map<RowKey, RowView>,
    node: NodeKey,
    query: usize,
    l: i64,
    params: HnswParams,
    dist: F,
    base: Map<RowKey, RowView>,
)
    requires
        put_linked(rows1, node, query, l, params, dist, base),
        same_at_level(rows1, rows2, l),
    ensures
        put_linked(rows2, node, query, l, params, dist, base),
{
    let (rel_l, f, sel) = choose|rel_l: IndexRelation, f: Map<NodeKey, u64>, sel: Map<NodeKey, u64>|
        #[trigger] linked_at(rel_l, rows1, node, query, l, params, dist, f, sel) && same_at_level(rel_l.rows_view(), base, l);
    assert(rows2.dom().contains((l, node, node)));
    let (links, states, rels, rows_end) = choose|
        links: Seq<(NodeKey, u64)>,
        states: Seq<Map<RowKey, RowView>>,
        rels: Seq<IndexRelation>,
        rows_end: Map<RowKey, RowView>,
    |
        {
            &&& lists(links, sel)
            &&& #[trigger] linked_in_turn(
                rel_l.rows_view().insert((l, node, node), rows1[(l, node, node)]),
                rows_end,
                node,
                l,
                links,
                Set::empty(),
                max_links(params, l),
                states,
                rels,
                params,
                dist,
            )
            &&& same_at_level(rows1, rows_end, l)
        };
    assert(same_at_level(rows2, rows_end, l));
    assert forall|n: NodeKey| #[trigger]
        sel.dom().contains(n) implies live_edge(rows2, (l, node, n)) && rows2[(l, node, n)]->dist
        == NAN_KEY - sel[n] by {
        assert(rows1.dom().contains((l, node, n)));
    }
    assert(linked_at(rel_l, rows2, node, query, l, params, dist, f, sel));
}

/// The graph has no row at any level up to the bottom one.
pub open spec fn graph_empty(rows: Map<RowKey, RowView>) -> bool {
    forall|k: RowKey| #[trigger] rows.dom().contains(k) ==> k.0 > 0
}

/// Some level above `l`, up to the bottom one, has no own row of `node`.
pub open spec fn gap_above(rows: Map<RowKey, RowView>, node: NodeKey, l: i64) -> bool {
    exists|l2: i64| l < l2 <= 0 && !#[trigger] rows.dom().contains((l2, node, node))
}

/// An own row of the node that a put leaves outside its drawn levels was there
/// before, and, when the node was indexed before, only above a level where it
/// had no own row (its removal took every own row from the bottom level up to
/// the first gap).
proof fn lemma_outside_own_rows<F: Fn(Probe, NodeKey) -> Option<u64>>(
    old: Map<RowKey, RowView>,
    mid: Map<RowKey, RowView>,
    fin: Map<RowKey, RowView>,
    node: NodeKey,
    target_level: i64,
    params: HnswParams,
    dist: F,
)
    requires
        put_base(old, mid, node, params, dist),
        no_new_own_rows(old, mid),
        forall|l: i64| #[trigger] fin.dom().contains((l, node, node)) && !(target_level <= l <= 0)
            ==> mid.dom().contains((l, node, node)),
    ensures
        forall|l: i64| #[trigger] fin.dom().contains((l, node, node)) && !(target_level <= l <= 0)
            ==> old.dom().contains((l, node, node)) && (l <= 0 && old.dom().contains((0, node, node)) ==> gap_above(old, node, l)),
{
    assert forall|l: i64| #[trigger] fin.dom().contains((l, node, node)) && !(target_level <= l <= 0)
        implies old.dom().contains((l, node, node)) && (l <= 0 && old.dom().contains((0, node, node)) ==> gap_above(old, node, l)) by {
        assert(mid.dom().contains((l, node, node)));
        if l <= 0 && old.dom().contains((0, node, node)) {
            let (stop, targets, states) = choose|stop: int, targets: Seq<(NodeKey, i64)>, states: Seq<IndexRelation>| #[trigger]
                removal(old, mid, node, stop, targets, states, params, dist);
            assert(!(stop < l));
            assert(old.dom().contains((l, node, node)));
            assert(!old.dom().contains((stop as i64, node, node)));
            assert(l < stop);
            assert(!old.dom().contains(((stop as i64), node, node)));
        }
    }
}

/// What a put leaves of the nodes: from `mid`, the rows the node is put into,
/// to `fin`, no other node appears higher than it did, and the node appears
/// without an own row below it only where it did in `mid`, so only where the
/// index before the put (`old`) was damaged at it.
proof fn lemma_put_frame(
    old: Map<RowKey, RowView>,
    mid: Map<RowKey, RowView>,
    fin: Map<RowKey, RowView>,
    node: NodeKey,
    hash: Seq<u8>,
    target_level: i64,
)
    requires
        no_new_appearances(old, mid, node),
        no_new_appearances(mid, fin, node),
        same_below(mid, fin, target_level),
        target_level <= 0 ==> forall|l: int| target_level <= l <= 0 ==> #[trigger] own_row_with(fin, node, hash, l),
        forall|l: i64| l <= 0 && #[trigger] member(mid, l, node) ==> damaged(old, node),
    ensures
        no_new_appearances(old, fin, node),
        damaged(fin, node) ==> damaged(old, node),
{
    reveal(no_new_appearances);
    reveal(same_below);
    assert forall|l: i64, b: NodeKey| b != node && #[trigger] member(fin, l, b) implies appears_by(old, l, b) by {
        let l2 = choose|l2: i64| l2 <= l && #[trigger] member(mid, l2, b);
        let l3 = choose|l3: i64| l3 <= l2 && #[trigger] member(old, l3, b);
    }
    if damaged(fin, node) {
        let (l1, l2) = choose|l1: i64, l2: i64| l1 <= l2 <= 0 && member(fin, l1, node) && no_own_node(fin, l2, node);
        if target_level <= l2 {
            assert(own_row_with(fin, node, hash, l2 as int));
        }
        let w = choose|w: RowKey| #[trigger] fin.dom().contains(w) && w.0 == l1 && (w.1 == node || w.2 == node);
        assert(mid.dom().contains(w));
        assert(member(mid, l1, node));
    }
}

/// Inserts (or re-inserts) the vector of `node`, whose query position for
/// `dist` is `query` and whose hash is `hash`, with `target_level` as its top
/// level. Nothing changes when the node is indexed with the same hash; a node
/// indexed with another hash is removed first. Into an empty graph the node
/// goes alone at every level from `target_level` to the bottom one. Otherwise
/// a greedy search from the entry point descends to the node's levels; at each
/// of them the node's neighbours are selected, linked in both directions, and
/// cut back when they have too many links. The node's quantization codes are
/// stored when given.
#[verifier::loop_isolation(false)]
#[verifier::spinoff_prover]
#[verifier::rlimit(100)]
pub fn put_vector<F>(
    rel: &mut IndexRelation,
    node: NodeKey,
    query: usize,
    hash: &Vec<u8>,
    target_level: i64,
    codes: &Option<Vec<u8>>,
    params: &HnswParams,
    dist: &F,
) -> (r: Result<(), HnswError>) where F: Fn(Probe, NodeKey) -> Option<u64>
    requires
        old(rel).wf(),
        forall|p: Probe, k: NodeKey| dist.requires((p, k)),
    ensures
        final(rel).wf(),
        final(rel).codebook_view() == old(rel).codebook_view(),
        indexed_with_hash(old(rel).rows_view(), node, hash@) ==> r is Ok,
        !old(rel).rows_view().dom().contains((0, node, node)) && graph_empty(old(rel).rows_view()) ==> r is Ok,
        match r {
            Ok(()) => {
                &&& hashes_kept(old(rel).rows_view(), final(rel).rows_view(), |x: NodeKey| x == node)
                &&& indexed_with_hash(old(rel).rows_view(), node, hash@) ==> {
                    &&& final(rel).rows_view() == old(rel).rows_view()
                    &&& final(rel).canary_view() == old(rel).canary_view()
                    &&& final(rel).codes_view() == old(rel).codes_view()
                }
                &&& !old(rel).rows_view().dom().contains((0, node, node)) && graph_empty(old(rel).rows_view()) ==> {
                    &&& final(rel).rows_view() == crate::relation::with_fresh_rows(
                        old(rel).rows_view(),
                        node,
                        hash@,
                        target_level as int,
                        0,
                    )
                    &&& final(rel).canary_view() == Some(
                        Canary { level: target_level, target: CanaryTarget::Fresh(node) },
                    )
                }
                &&& !indexed_with_hash(old(rel).rows_view(), node, hash@) && target_level <= 0 ==> forall|l: int|
                    target_level <= l <= 0 ==> #[trigger] own_row_with(final(rel).rows_view(), node, hash@, l)
                &&& forall|l: i64| #[trigger] final(rel).rows_view().dom().contains((l, node, node)) && !(target_level <= l <= 0)
                    ==> old(rel).rows_view().dom().contains((l, node, node)) && (l <= 0 && old(rel).rows_view().dom().contains((0, node, node))
                    && !indexed_with_hash(old(rel).rows_view(), node, hash@) ==> gap_above(old(rel).rows_view(), node, l))
                &&& no_new_appearances(old(rel).rows_view(), final(rel).rows_view(), node)
                &&& degrees_within(old(rel).rows_view(), *params) ==> degrees_within(final(rel).rows_view(), *params)
                &&& damaged(final(rel).rows_view(), node) ==> damaged(old(rel).rows_view(), node)
                &&& !indexed_with_hash(old(rel).rows_view(), node, hash@) && target_level <= 0 && others_indexed(
                    old(rel).rows_view(),
                    node,
                ) ==> exists|bottom: i64, base: Map<RowKey, RowView>| #[trigger]
                    joined_graph(final(rel).rows_view(), node, query, target_level, *params, *dist, bottom, base)
                        && put_base(old(rel).rows_view(), base, node, *params, *dist)
                        && (target_level < bottom ==> final(rel).canary_view() == Some(
                        Canary { level: target_level, target: CanaryTarget::Fresh(node) },
                    ))
                &&& !indexed_with_hash(old(rel).rows_view(), node, hash@) ==> match codes {
                    Some(c) => final(rel).codes_view() == (if old(rel).rows_view().dom().contains((0, node, node)) {
                        old(rel).codes_view().remove(node)
                    } else {
                        old(rel).codes_view()
                    }).insert(node, c@),
                    None => final(rel).codes_view() == (if old(rel).rows_view().dom().contains((0, node, node)) {
                        old(rel).codes_view().remove(node)
                    } else {
                        old(rel).codes_view()
                    }),
                }
            },
            Err(HnswError::DistanceUnavailable(k)) => dist_failed(*dist, k),
            Err(HnswError::IndexedVectorNotFound(b)) => damaged(old(rel).rows_view(), b),
            Err(HnswError::InvalidDegree(b)) => damaged(old(rel).rows_view(), b),
            Err(_) => false,
        },
{
    let own0: RowKey = (0, node, node);
    let existing: Option<bool> = match rel.get_row(&own0) {
        Some(RowVal::Node { hash: h, .. }) => Some(bytes_eq(h, hash)),
        Some(RowVal::Edge { .. }) => Some(false),
        None => None,
    };
    match existing {
        Some(true) => {
            assert(no_new_appearances(old(rel).rows_view(), rel.rows_view(), node)) by {
                reveal(no_new_appearances);
            }
            return Ok(());
        },
        Some(false) => {
            match remove_vec(rel, node, params, dist) {
                Ok(()) => {},
                Err(e) => {
                    proof {
                        let rows0 = old(rel).rows_view();
                        if let HnswError::IndexedVectorNotFound(b) = e {
                            let l = choose|l: i64| l <= 0 && #[trigger] linked_from(rows0, node, l, b) && broken_at(rows0, b, l);
                            lemma_damaged(rows0, b, l, l);
                        }
                        if let HnswError::InvalidDegree(b) = e {
                            let l = choose|l: i64| l <= 0 && #[trigger] broken_at(rows0, b, l);
                            lemma_damaged(rows0, b, l, l);
                        }
                    }
                    return Err(e);
                },
            }
        },
        None => {
            proof {
                lemma_no_new_members_refl(rel.rows_view());
            }
        },
    }
    let ghost codes_mid = rel.codes_view();
    let ghost rows_mid = rel.rows_view();
    assert(hashes_kept(old(rel).rows_view(), rows_mid, |x: NodeKey| x == node));
    assert(no_new_members(old(rel).rows_view(), rows_mid));
    assert(put_base(old(rel).rows_view(), rows_mid, node, *params, *dist));
    assert(no_new_own_rows(old(rel).rows_view(), rows_mid));
    assert(degrees_within(old(rel).rows_view(), *params) ==> degrees_within(rows_mid, *params));
    assert(no_new_appearances(old(rel).rows_view(), rows_mid, node)) by {
        reveal(no_new_appearances);
        let rows0 = old(rel).rows_view();
        assert forall|l: i64, b: NodeKey| b != node && #[trigger] member(rows_mid, l, b) implies appears_by(rows0, l, b) by {
            lemma_member_back(rows0, rows_mid, l, b);
        }
    }
    proof {
        let rows0 = old(rel).rows_view();
        assert forall|l: i64| l <= 0 && #[trigger] member(rows_mid, l, node) implies damaged(rows0, node) by {
            lemma_member_back(rows0, rows_mid, l, node);
            if rows_mid == rows0 {
                assert(no_own_node(rows0, 0, node));
                lemma_damaged(rows0, node, l, 0);
            } else {
                let (stop, targets, states) = choose|stop: int, targets: Seq<(NodeKey, i64)>, states: Seq<IndexRelation>| #[trigger]
                    removal(rows0, rows_mid, node, stop, targets, states, *params, *dist);
                let w = choose|w: RowKey| #[trigger] rows_mid.dom().contains(w) && w.0 == l && (w.1 == node || w.2 == node);
                assert(!(stop < l));
                lemma_damaged(rows0, node, l, stop as i64);
            }
        }
    }
    match rel.entry_row(0) {
        Some(ep) => {
            let bottom: i64 = ep.0;
            let ep_key: NodeKey = ep.1;
            let ep_dist: u64 = match dist(Probe::Query(query), ep_key) {
                Some(d) => d,
                None => {
                    return Err(HnswError::DistanceUnavailable(ep_key));
                },
            };
            let mut found = queue_new();
            queue_push(&mut found, ep_key, ep_dist);
            proof {
                assert(member(rows_mid, bottom, ep_key));
                assert forall|x: NodeKey| #[trigger] queue_items(found).dom().contains(x) implies exists|l: i64|
                    l <= bottom && #[trigger] member(rows_mid, l, x) by {
                    assert(x == ep_key);
                }
                assert forall|k: RowKey| #[trigger] rel.rows_view().dom().contains(k) implies k.0 >= bottom by {
                    if k.0 <= 0 {
                        assert(k == ep || row_lt(ep, k));
                    }
                }
            }
            if target_level < bottom {
                rel.put_fresh_at_levels(hash, node, target_level, bottom - 1);
            }
            proof {
                assert(hashes_kept(rows_mid, rel.rows_view(), |x: NodeKey| x == node));
                lemma_hashes_kept_trans(old(rel).rows_view(), rows_mid, rel.rows_view(), |x: NodeKey| x == node, |x: NodeKey| x == node);
                if target_level < bottom {
                    assert forall|l: int| target_level <= l < bottom implies #[trigger] own_row_with(rel.rows_view(), node, hash@, l) by {
                        assert(rel.rows_view().dom().contains((l as i64, node, node)));
                    }
                }
            }
            let ghost rows_fresh = rel.rows_view();
            proof {
                assert forall|k: RowKey| #[trigger] rows_fresh.dom().contains(k) && k.0 >= bottom implies rows_mid.dom().contains(k)
                    && rows_fresh[k] == rows_mid[k] by {
                    if target_level < bottom {
                        assert(rows_mid.dom().contains(k));
                    }
                }
                assert forall|k: RowKey| #[trigger] rows_mid.dom().contains(k) implies rows_fresh.dom().contains(k)
                    && rows_fresh[k] == rows_mid[k] && k.0 >= bottom by {
                }
                assert(degrees_within(rows_mid, *params) ==> degrees_within(rows_fresh, *params)) by {
                    if degrees_within(rows_mid, *params) && target_level < bottom {
                        assert forall|k: RowKey| #[trigger] rows_fresh.dom().contains(k) && k.1 == k.2 && rows_fresh[k] is Node
                            implies rows_fresh[k]->degree <= max_links(*params, k.0) by {
                            if !rows_mid.dom().contains(k) {
                                assert(rows_fresh[k]->degree == 0);
                            }
                        }
                    }
                }
                assert(same_below(rows_mid, rows_fresh, target_level)) by {
                    reveal(same_below);
                    assert forall|k: RowKey| #[trigger] rows_fresh.dom().contains(k) && k.0 < target_level
                        implies rows_mid.dom().contains(k) by {
                        if target_level < bottom {
                            assert(rows_mid.dom().contains(k));
                        }
                    }
                }
                assert(no_new_appearances(rows_mid, rows_fresh, node)) by {
                    reveal(no_new_appearances);
                    assert forall|l: i64, b: NodeKey| b != node && #[trigger] member(rows_fresh, l, b) implies appears_by(rows_mid, l, b) by {
                        let w = choose|w: RowKey| #[trigger] rows_fresh.dom().contains(w) && w.0 == l && (w.1 == b || w.2 == b);
                        if target_level < bottom {
                            assert(rows_mid.dom().contains(w));
                        }
                        assert(member(rows_mid, l, b));
                    }
                }
                assert forall|k: RowKey| #[trigger] rel.rows_view().dom().contains(k) && k.0 < bottom implies k.1 == node
                    && k.2 == node by {
                    if !rows_mid.dom().contains(k) {
                        assert(target_level < bottom);
                    }
                }
            }
            let mut level: i64 = bottom;
            while level < target_level
                invariant
                    rel.wf(),
                    rel.rows_view() == rows_fresh,
                    target_level < bottom ==> rel.canary_view() == Some(Canary { level: target_level, target: CanaryTarget::Fresh(node) }),
                    rel.codes_view() == codes_mid,
                    rel.codebook_view() == old(rel).codebook_view(),
                    queue_items(found).dom().finite(),
                    queue_items(found).len() > 0,
                    bottom <= level,
                    level <= target_level || level == bottom,
                    forall|x: NodeKey| #[trigger] queue_items(found).dom().contains(x) ==> exists|l: i64|
                        l <= level && #[trigger] member(rows_mid, l, x),
                    forall|x: NodeKey| #[trigger] queue_items(found).dom().contains(x) ==> measured(
                        *dist,
                        Probe::Query(query),
                        x,
                        queue_items(found)[x],
                    ),
                decreases target_level - level,
            {
                let ghost f0 = queue_items(found);
                match crate::search::search_level(rel, Probe::Query(query), 1, level, &mut found, false, &|k: NodeKey| -> (r: Option<bool>) { Some(true) }, dist) {
                    Ok(()) => {},
                    Err(e) => {
                        return Err(e);
                    },
                }
                proof {
                    let seen = choose|seen: Map<NodeKey, u64>|
                        beam_result(*rel, Probe::Query(query), level, 1, *dist, f0, queue_items(found), seen);
                    assert forall|x: NodeKey| #[trigger] queue_items(found).dom().contains(x) implies measured(
                        *dist,
                        Probe::Query(query),
                        x,
                        queue_items(found)[x],
                    ) by {
                        if !f0.dom().contains(x) {
                            assert(seen.dom().contains(x));
                        }
                    }
                    assert forall|x: NodeKey| #[trigger] queue_items(found).dom().contains(x) implies exists|l: i64|
                        l <= level + 1 && #[trigger] member(rows_mid, l, x) by {
                        if f0.dom().contains(x) {
                            let l = choose|l: i64| l <= level && #[trigger] member(rows_mid, l, x);
                            assert(l <= level + 1 && member(rows_mid, l, x));
                        } else {
                            assert(seen.dom().contains(x));
                            let (k, d) = choose|k: NodeKey, d: u64| #[trigger] is_neighbour(rows_fresh, k, level, false, x, d);
                            assert(rows_fresh.dom().contains((level, k, x)));
                            assert(rows_mid.dom().contains((level, k, x)));
                            assert(member(rows_mid, level, x));
                        }
                    }
                }
                level = level + 1;
            }
            let start: i64 = if target_level > bottom { target_level } else { bottom };
            let mut level: i64 = start;
            while level <= 0
                invariant
                    forall|k: RowKey| #[trigger] rel.rows_view().dom().contains(k) && k.0 >= level ==> rows_mid.dom().contains(k)
                        && rel.rows_view()[k] == rows_mid[k],
                    forall|k: RowKey| #[trigger] rows_mid.dom().contains(k) && k.0 >= level ==> rel.rows_view().dom().contains(k),
                    rel.wf(),
                    start <= level,
                    start == (if target_level > bottom { target_level } else { bottom }),
                    target_level <= 0 ==> forall|l: int| target_level <= l < level ==> #[trigger] own_row_with(rel.rows_view(), node, hash@, l),
                    hashes_kept(old(rel).rows_view(), rel.rows_view(), |x: NodeKey| x == node),
                    target_level < bottom ==> rel.canary_view() == Some(Canary { level: target_level, target: CanaryTarget::Fresh(node) }),
                    rel.codes_view() == codes_mid,
                    rel.codebook_view() == old(rel).codebook_view(),
                    queue_items(found).dom().finite(),
                    queue_items(found).len() > 0,
                    forall|x: NodeKey| #[trigger] queue_items(found).dom().contains(x) ==> measured(
                        *dist,
                        Probe::Query(query),
                        x,
                        queue_items(found)[x],
                    ),
                    bottom <= start,
                    forall|k: RowKey| #[trigger] rel.rows_view().dom().contains(k) && k.0 < bottom ==> k.1 == node
                        && k.2 == node,
                    forall|l: i64| start <= l < level ==> #[trigger] put_linked(rel.rows_view(), node, query, l, *params, *dist, rows_mid),
                    forall|l: i64| #[trigger] rel.rows_view().dom().contains((l, node, node)) && !(target_level <= l <= 0)
                        ==> rows_mid.dom().contains((l, node, node)),
                    no_new_appearances(rows_mid, rel.rows_view(), node),
                    same_below(rows_mid, rel.rows_view(), target_level),
                    degrees_within(rows_mid, *params) ==> degrees_within(rel.rows_view(), *params),
                    forall|x: NodeKey| #[trigger] queue_items(found).dom().contains(x) ==> exists|l: i64|
                        l <= level && #[trigger] member(rows_mid, l, x),
                decreases 0 - level,
            {
                let m_max: usize = if level == 0 { params.m_max0 } else { params.m_max };
                let ghost f_before = queue_items(found);
                match crate::search::search_level(rel, Probe::Query(query), params.ef_construction, level, &mut found, false, &|k: NodeKey| -> (r: Option<bool>) { Some(true) }, dist) {
                    Ok(()) => {},
                    Err(e) => {
                        return Err(e);
                    },
                }
                let ghost f_l = queue_items(found);
                let ghost rel_l = *rel;
                proof {
                    let seen = choose|seen: Map<NodeKey, u64>|
                        beam_result(*rel, Probe::Query(query), level, params.ef_construction, *dist, f_before, f_l, seen);
                    assert forall|x: NodeKey| #[trigger] f_l.dom().contains(x) implies exists|l: i64|
                        l <= level && #[trigger] member(rows_mid, l, x) by {
                        if f_before.dom().contains(x) {
                            let l = choose|l: i64| l <= level && #[trigger] member(rows_mid, l, x);
                            assert(l <= level && member(rows_mid, l, x));
                        } else {
                            assert(seen.dom().contains(x));
                            let (k, d) = choose|k: NodeKey, d: u64| #[trigger] is_neighbour(rel_l.rows_view(), k, level, false, x, d);
                            assert(rel_l.rows_view().dom().contains((level, k, x)));
                            assert(rows_mid.dom().contains((level, k, x)));
                            assert(member(rows_mid, level, x));
                        }
                    }
                }
                proof {
                    let seen = choose|seen: Map<NodeKey, u64>|
                        beam_result(*rel, Probe::Query(query), level, params.ef_construction, *dist, f_before, f_l, seen);
                    assert forall|x: NodeKey| #[trigger] f_l.dom().contains(x) implies measured(
                        *dist,
                        Probe::Query(query),
                        x,
                        f_l[x],
                    ) by {
                        if !f_before.dom().contains(x) {
                            assert(seen.dom().contains(x));
                        }
                    }
                }
                let chosen = match select_neighbours_heuristic(
                    rel,
                    Probe::Query(query),
                    &found,
                    m_max,
                    level,
                    params.extend_candidates,
                    params.keep_pruned_connections,
                    dist,
                ) {
                    Ok(q) => q,
                    Err(e) => {
                        proof {
                            if let HnswError::DistanceUnavailable(k) = e {
                                if dist.ensures((Probe::Query(query), k), None) {
                                } else {
                                    let e2 = choose|e2: NodeKey| dist.ensures((Probe::Node(e2), k), None);
                                    assert(dist.ensures((Probe::Node(e2), k), None));
                                }
                            }
                        }
                        return Err(e);
                    },
                };
                let ghost sel = queue_items(chosen);
                proof {
                    let pool = choose|pool: Map<NodeKey, u64>|
                        candidate_pool(rel_l, Probe::Query(query), f_l, level, params.extend_candidates, *dist, pool) && selection(
                            pool,
                            m_max,
                            params.keep_pruned_connections,
                            *dist,
                            sel,
                        );
                    assert forall|x: NodeKey| #[trigger] sel.dom().contains(x) implies exists|l: i64|
                        l <= level && #[trigger] member(rows_mid, l, x) by {
                        assert(pool.dom().contains(x));
                        if f_l.dom().contains(x) {
                        } else {
                            let (item, d) = choose|item: NodeKey, d: u64|
                                f_l.dom().contains(item) && is_neighbour(rel_l.rows_view(), item, level, false, x, d);
                            assert(rel_l.rows_view().dom().contains((level, item, x)));
                            assert(rows_mid.dom().contains((level, item, x)));
                            assert(member(rows_mid, level, x));
                        }
                    }
                }
                let entries = queue_entries(&chosen);
                let ne: usize = entries.len();
                let ghost rows_level = rel.rows_view();
                let deg: i64 = degree_record(ne as u64);
                rel.put_row(
                    (level, node, node),
                    RowVal::Node { degree: deg, hash: crate::relation::clone_bytes(hash) },
                );
                proof {
                    assert(hashes_kept(rows_level, rel.rows_view(), |x: NodeKey| x == node));
                    lemma_hashes_kept_trans(old(rel).rows_view(), rows_level, rel.rows_view(), |x: NodeKey| x == node, |x: NodeKey| x == node);
                    if target_level <= 0 {
                        assert forall|l: int| target_level <= l <= level implies #[trigger] own_row_with(rel.rows_view(), node, hash@, l) by {
                            if l < level {
                                assert(own_row_with(rows_level, node, hash@, l));
                            }
                        }
                    }
                }
                let ghost start_rows = rel.rows_view();
                assert(degrees_within(rows_mid, *params) ==> degrees_within(start_rows, *params)) by {
                    if degrees_within(rows_mid, *params) {
                        assert(ne <= m_max);
                        lemma_degrees_insert(rows_level, *params, (level, node, node), RowView::Node { degree: deg, hash: hash@ });
                    }
                }
                assert(no_new_appearances(rows_mid, start_rows, node)) by {
                    reveal(no_new_appearances);
                    assert forall|l: i64, b: NodeKey| b != node && #[trigger] member(start_rows, l, b) implies appears_by(rows_mid, l, b) by {
                        let w = choose|w: RowKey| #[trigger] start_rows.dom().contains(w) && w.0 == l && (w.1 == b || w.2 == b);
                        assert(rows_level.dom().contains(w));
                        assert(member(rows_level, l, b));
                    }
                }
                let ghost mut states: Seq<Map<RowKey, RowView>> = seq![rel.rows_view()];
                let ghost mut rels: Seq<IndexRelation> = Seq::empty();
                let mut j: usize = 0;
                while j < ne
                    invariant
                        j <= ne,
                        rel.wf(),
                        start_rows == rows_level.insert((level, node, node), RowView::Node { degree: deg, hash: hash@ }),
                        no_new_appearances(rows_mid, rel.rows_view(), node),
                        degrees_within(rows_mid, *params) ==> degrees_within(rel.rows_view(), *params),
                        forall|x: NodeKey| #![trigger rows_level.dom().contains((level, x, x))]
                            x != node && (forall|t: int| 0 <= t < j ==> entries@[t].0 != x) ==> {
                                &&& rel.rows_view().dom().contains((level, x, x)) == rows_level.dom().contains((level, x, x))
                                &&& rows_level.dom().contains((level, x, x)) ==> rel.rows_view()[(level, x, x)]
                                    == rows_level[(level, x, x)]
                            },
                        forall|k: RowKey| #[trigger] rel.rows_view().dom().contains(k) && k.0 != level ==> rows_level.dom().contains(k),
                        states.len() == j + 1,
                        rels.len() == j,
                        states[0] == start_rows,
                        states[j as int] == rel.rows_view(),
                        forall|i: int|
                            0 <= i < j ==> #[trigger] link_step(
                                states[i],
                                states[i + 1],
                                rels[i],
                                node,
                                entries@[i].0,
                                level,
                                entries@[i].1,
                                m_max,
                                *params,
                                *dist,
                            ),
                        target_level <= 0 ==> forall|l: int| target_level <= l <= level ==> #[trigger] own_row_with(rel.rows_view(), node, hash@, l),
                        hashes_kept(old(rel).rows_view(), rel.rows_view(), |x: NodeKey| x == node),
                        target_level < bottom ==> rel.canary_view() == Some(Canary { level: target_level, target: CanaryTarget::Fresh(node) }),
                        rel.codes_view() == codes_mid,
                        rel.codebook_view() == old(rel).codebook_view(),
                        forall|k: RowKey| #[trigger] rows_level.dom().contains(k) && k.0 != level ==> rel.rows_view().dom().contains(k)
                            && rel.rows_view()[k] == rows_level[k],
                        forall|k: RowKey| #[trigger] rel.rows_view().dom().contains(k) && k.0 < bottom ==> k.1 == node
                            && k.2 == node,
                        rel.rows_view().dom().contains((level, node, node)),
                        rel.rows_view()[(level, node, node)] == (RowView::Node { degree: deg, hash: hash@ }),
                        forall|t: int| 0 <= t < j ==> live_edge(rel.rows_view(), (level, node, #[trigger] entries@[t].0))
                            && rel.rows_view()[(level, node, entries@[t].0)]->dist == NAN_KEY - entries@[t].1,
                    decreases ne - j,
                {
                    let (nb, rd) = entries[j];
                    let d: u64 = NAN_KEY - rd;
                    let ghost rb = rel.rows_view();
                    rel.put_row((level, node, nb), RowVal::Edge { dist: d, deleted: false });
                    rel.put_row((level, nb, node), RowVal::Edge { dist: d, deleted: false });
                    let ghost r2 = rel.rows_view();
                    let ghost rm = *rel;
                    assert(degrees_within(rows_mid, *params) ==> degrees_within(r2, *params)) by {
                        if degrees_within(rows_mid, *params) {
                            let e = RowView::Edge { dist: d, deleted: false };
                            lemma_degrees_insert(rb, *params, (level, node, nb), e);
                            lemma_degrees_insert(rb.insert((level, node, nb), e), *params, (level, nb, node), e);
                        }
                    }
                    let own: RowKey = (level, nb, nb);
                    proof {
                        assert(sel.dom().contains(nb));
                        assert forall|t: int| 0 <= t < j implies entries@[t].0 != nb by {
                            assert(entries@[t].0 != entries@[j as int].0);
                        }
                        // names nb's own row, so that the loop invariant on untouched own rows applies to it
                        assert(rows_level.dom().contains((level, nb, nb)) == rows_level.dom().contains((level, nb, nb)));
                    }
                    let (degree, h) = match rel.get_row(&own) {
                        None => {
                            proof {
                                let rows0 = old(rel).rows_view();
                                let l = choose|l: i64| l <= level && #[trigger] member(rows_mid, l, nb);
                                assert(nb != node);
                                assert(!rows_level.dom().contains(own));
                                assert(no_own_node(rows_mid, level, nb));
                                assert(no_own_node(rows0, level, nb));
                                lemma_member_back(rows0, rows_mid, l, nb);
                                lemma_damaged(rows0, nb, l, level);
                            }
                            return Err(HnswError::IndexedVectorNotFound(nb));
                        },
                        Some(RowVal::Edge { .. }) => {
                            proof {
                                let rows0 = old(rel).rows_view();
                                let l = choose|l: i64| l <= level && #[trigger] member(rows_mid, l, nb);
                                if nb == node {
                                    assert(damaged(rows0, node));
                                } else {
                                    assert(rows_level.dom().contains(own));
                                    assert(rows_level[own] is Edge);
                                    assert(no_own_node(rows_mid, level, nb));
                                    assert(no_own_node(rows0, level, nb));
                                    lemma_member_back(rows0, rows_mid, l, nb);
                                    lemma_damaged(rows0, nb, l, level);
                                }
                            }
                            return Err(HnswError::InvalidDegree(nb));
                        },
                        Some(RowVal::Node { degree, hash }) => (*degree, crate::relation::clone_bytes(hash)),
                    };
                    proof {
                        assert(nb != node) by {
                            if nb == node {
                                assert(rel.rows_view()[own] is Edge);
                            }
                        }
                        assert(hashes_kept(rb, r2, |x: NodeKey| x == node));
                        lemma_hashes_kept_trans(old(rel).rows_view(), rb, r2, |x: NodeKey| x == node, |x: NodeKey| x == node);
                    }
                    let bumped: u64 = bumped_degree(degree);
                    let ghost mut sel_w: Map<NodeKey, u64> = Map::empty();
                    let actual: u64 = if bumped > m_max as u64 {
                        match shrink_neighbour(rel, nb, m_max, level, params, dist) {
                            Ok(n) => {
                                proof {
                                    assert(no_new_members(r2, rel.rows_view()));
                                    sel_w = choose|sel2: Map<NodeKey, u64>|
                                        {
                                            &&& selected_from(
                                                rm,
                                                Probe::Node(nb),
                                                live_links(r2, nb, level),
                                                level,
                                                params.extend_candidates,
                                                m_max,
                                                params.keep_pruned_connections,
                                                *dist,
                                                sel2,
                                            )
                                            &&& n == sel2.len()
                                            &&& rel.rows_view() == shrunk_rows(r2, nb, level, live_links(r2, nb, level), sel2)
                                        };
                                }
                                n as u64
                            },
                            Err(e) => {
                                return Err(e);
                            },
                        }
                    } else {
                        bumped
                    };
                    proof {
                        assert forall|x: RowKey| x.1 != nb implies (#[trigger] rel.rows_view().dom().contains(x) == r2.dom().contains(x)
                            && (r2.dom().contains(x) ==> rel.rows_view()[x] == r2[x])) by {
                            if rel.rows_view() != r2 {
                                let sel = choose|sel: Map<NodeKey, u64>| rel.rows_view() == shrunk_rows(r2, nb, level, live_links(r2, nb, level), sel);
                            }
                        }
                    }
                    let ghost mid = rel.rows_view();
                    proof {
                        if mid == r2 {
                            lemma_no_new_members_refl(r2);
                        }
                        if mid != r2 {
                            let sel2 = choose|sel2: Map<NodeKey, u64>| mid == shrunk_rows(r2, nb, level, live_links(r2, nb, level), sel2);
                            lemma_shrunk_frame(r2, nb, level, live_links(r2, nb, level), sel2);
                        }
                    }
                    let rec: i64 = degree_record(actual);
                    assert(degrees_within(rows_mid, *params) ==> degrees_within(mid.insert(own, RowView::Node { degree: rec, hash: h@ }), *params)) by {
                        if degrees_within(rows_mid, *params) {
                            if mid != r2 {
                                let sel2 = choose|sel2: Map<NodeKey, u64>| mid == shrunk_rows(r2, nb, level, live_links(r2, nb, level), sel2);
                                lemma_degrees_shrunk(r2, *params, nb, level, sel2);
                            }
                            if bumped > m_max as u64 {
                                assert(sel_w.len() <= m_max);
                            }
                            lemma_degrees_insert(mid, *params, own, RowView::Node { degree: rec, hash: h@ });
                        }
                    }
                    rel.put_row(own, RowVal::Node { degree: rec, hash: h });
                    assert(no_new_appearances(rows_mid, rel.rows_view(), node)) by {
                        reveal(no_new_appearances);
                        assert(appears_by(rows_mid, level, nb)) by {
                            assert(sel.dom().contains(nb));
                        }
                        assert forall|l: i64, b: NodeKey| b != node && #[trigger] member(rel.rows_view(), l, b) implies appears_by(rows_mid, l, b) by {
                            let w = choose|w: RowKey| #[trigger] rel.rows_view().dom().contains(w) && w.0 == l && (w.1 == b || w.2 == b);
                            if w == own {
                                assert(b == nb && l == level);
                            } else {
                                assert(mid.dom().contains(w));
                                assert(member(mid, l, b));
                                lemma_member_back(r2, mid, l, b);
                                let w2 = choose|w2: RowKey| #[trigger] r2.dom().contains(w2) && w2.0 == l && (w2.1 == b || w2.2 == b);
                                if w2 == (level, node, nb) || w2 == (level, nb, node) {
                                    assert(b == nb && l == level);
                                } else {
                                    assert(rb.dom().contains(w2));
                                    assert(member(rb, l, b));
                                }
                            }
                        }
                    }
                    proof {
                        lemma_own_row_restored(r2, mid, nb, level, rec, r2[own]->hash);
                        lemma_hashes_kept_trans(old(rel).rows_view(), r2, rel.rows_view(), |x: NodeKey| x == node, |x: NodeKey| false);
                        if target_level <= 0 {
                            assert forall|l: int| target_level <= l <= level implies #[trigger] own_row_with(rel.rows_view(), node, hash@, l) by {
                                assert(own_row_with(rb, node, hash@, l));
                                let kk: RowKey = (l as i64, node, node);
                                assert(r2.dom().contains(kk) && r2[kk] == rb[kk]);
                            }
                        }
                    }
                    proof {
                        assert forall|t: int| 0 <= t < j + 1 implies live_edge(rel.rows_view(), (level, node, #[trigger] entries@[t].0))
                            && rel.rows_view()[(level, node, entries@[t].0)]->dist == NAN_KEY - entries@[t].1 by {
                            if t < j {
                                assert(entries@[t].0 != entries@[j as int].0);
                                assert(rb.dom().contains((level, node, entries@[t].0)));
                            }
                            assert(r2.dom().contains((level, node, entries@[t].0)));
                        }
                        if bumped > m_max as u64 {
                            assert(selected_from(
                                rm,
                                Probe::Node(nb),
                                live_links(r2, nb, level),
                                level,
                                params.extend_candidates,
                                m_max,
                                params.keep_pruned_connections,
                                *dist,
                                sel_w,
                            ));
                            assert(rel.rows_view() == shrunk_rows(r2, nb, level, live_links(r2, nb, level), sel_w).insert(
                                own,
                                RowView::Node { degree: record(sel_w.len() as int), hash: r2[own]->hash },
                            ));
                        }
                        assert(link_step(rb, rel.rows_view(), rm, node, nb, level, rd, m_max, *params, *dist));
                        let s0 = states;
                        states = states.push(rel.rows_view());
                        let r0 = rels;
                        rels = rels.push(rm);
                        assert forall|i: int|
                            0 <= i < j + 1 implies #[trigger] link_step(
                                states[i],
                                states[i + 1],
                                rels[i],
                                node,
                                entries@[i].0,
                                level,
                                entries@[i].1,
                                m_max,
                                *params,
                                *dist,
                            ) by {
                            if i < j {
                                assert(states[i] == s0[i]);
                                assert(states[i + 1] == s0[i + 1]);
                                assert(rels[i] == r0[i]);
                            }
                        }
                    }
                    j = j + 1;
                }
                proof {
                    assert forall|n: NodeKey| #[trigger] sel.dom().contains(n) implies live_edge(rel.rows_view(), (level, node, n))
                        && rel.rows_view()[(level, node, n)]->dist == NAN_KEY - sel[n] by {
                        let t = choose|t: int| 0 <= t < entries.len() && entries@[t].0 == n;
                    }
                    assert(lists(entries@, sel));
                    assert(rel_l.rows_view().insert((level, node, node), rel.rows_view()[(level, node, node)]) == start_rows);
                    assert(linked_in_turn(
                        start_rows,
                        rel.rows_view(),
                        node,
                        level,
                        entries@,
                        Set::empty(),
                        max_links(*params, level),
                        states,
                        rels,
                        *params,
                        *dist,
                    ));
                    assert(same_at_level(rel.rows_view(), rel.rows_view(), level));
                    assert(linked_at(rel_l, rel.rows_view(), node, query, level, *params, *dist, f_l, sel));
                    assert(same_at_level(rel_l.rows_view(), rows_mid, level));
                    assert(same_below(rows_mid, rel.rows_view(), target_level)) by {
                        reveal(same_below);
                        assert forall|k: RowKey| #[trigger] rel.rows_view().dom().contains(k) && k.0 < target_level
                            implies rows_mid.dom().contains(k) by {
                            assert(rows_level.dom().contains(k));
                        }
                    }
                    assert forall|l: i64| start <= l < level + 1 implies #[trigger] put_linked(rel.rows_view(), node, query, l, *params, *dist, rows_mid) by {
                        if l < level {
                            assert(same_at_level(rows_level, rel.rows_view(), l));
                            lemma_linked_frame(rows_level, rel.rows_view(), node, query, l, *params, *dist, rows_mid);
                        }
                    }
                }
                if level == 0 {
                    break ;
                }
                level = level + 1;
            }
            proof {
                if target_level <= 0 {
                    assert(joined_graph(rel.rows_view(), node, query, target_level, *params, *dist, bottom, rows_mid));
                }
                lemma_put_frame(old(rel).rows_view(), rows_mid, rel.rows_view(), node, hash@, target_level);
                lemma_outside_own_rows(old(rel).rows_view(), rows_mid, rel.rows_view(), node, target_level, *params, *dist);
            }
        },
        None => {
            proof {
                if others_indexed(old(rel).rows_view(), node) {
                    let k = choose|k: RowKey| #[trigger]
                        old(rel).rows_view().dom().contains(k) && k.0 <= 0 && k.1 == k.2 && k.1 != node
                            && old(rel).rows_view()[k] is Node;
                    assert(rows_mid.dom().contains(k));
                }
            }
            rel.put_fresh_at_levels(hash, node, target_level, 0);
            proof {
                let fin = rel.rows_view();
                assert(no_new_appearances(rows_mid, fin, node)) by {
                    reveal(no_new_appearances);
                    assert forall|l: i64, b: NodeKey| b != node && #[trigger] member(fin, l, b) implies appears_by(rows_mid, l, b) by {
                        let w = choose|w: RowKey| #[trigger] fin.dom().contains(w) && w.0 == l && (w.1 == b || w.2 == b);
                        assert(rows_mid.dom().contains(w));
                        assert(member(rows_mid, l, b));
                    }
                }
                assert(same_below(rows_mid, fin, target_level)) by {
                    reveal(same_below);
                }
                assert(degrees_within(rows_mid, *params) ==> degrees_within(fin, *params)) by {
                    if degrees_within(rows_mid, *params) {
                        assert forall|k: RowKey| #[trigger] fin.dom().contains(k) && k.1 == k.2 && fin[k] is Node
                            implies fin[k]->degree <= max_links(*params, k.0) by {
                            if !(k.1 == node && target_level <= k.0 <= 0) {
                                assert(rows_mid.dom().contains(k));
                            }
                        }
                    }
                }
                if target_level <= 0 {
                    assert forall|l: int| target_level <= l <= 0 implies #[trigger] own_row_with(fin, node, hash@, l) by {
                        assert(fin.dom().contains((l as i64, node, node)));
                    }
                }
                lemma_put_frame(old(rel).rows_view(), rows_mid, fin, node, hash@, target_level);
                lemma_outside_own_rows(old(rel).rows_view(), rows_mid, fin, node, target_level, *params, *dist);
                assert(hashes_kept(rows_mid, rel.rows_view(), |x: NodeKey| x == node));
                lemma_hashes_kept_trans(old(rel).rows_view(), rows_mid, rel.rows_view(), |x: NodeKey| x == node, |x: NodeKey| x == node);
                if !old(rel).rows_view().dom().contains((0, node, node)) {
                    assert(rows_mid == old(rel).rows_view());
                }
            }
        },
    }
    match codes {
        Some(c) => {
            rel.store_pq_codes(node, c);
        },
        None => {},
    }
    Ok(())
}

/// What removing the vectors of base row `tuple` leaves: no own row appears,
/// every other node keeps its own rows and hashes, degrees stay within their
/// limits if they were, no vector of the row keeps its bottom-level own row or
/// appears at the levels its own rows covered without a gap, and the row's
/// vectors lose their quantization codes while every other node keeps its own.
pub open spec fn tuple_removed(old: IndexRelation, new: IndexRelation, tuple: u64, params: HnswParams) -> bool {
    &&& no_new_own_rows(old.rows_view(), new.rows_view())
    &&& hashes_kept(old.rows_view(), new.rows_view(), |x: NodeKey| x.0 == tuple)
    &&& degrees_within(old.rows_view(), params) ==> degrees_within(new.rows_view(), params)
    &&& forall|k: NodeKey| k.0 == tuple ==> !#[trigger] new.rows_view().dom().contains((0, k, k))
    &&& forall|k: NodeKey, l: i64| k.0 == tuple && l <= 0 && #[trigger] own_rows_from(old.rows_view(), k, l)
        ==> !member(new.rows_view(), l, k)
    &&& forall|k: NodeKey| k.0 == tuple && #[trigger] old.rows_view().dom().contains((0, k, k))
        ==> !new.codes_view().dom().contains(k)
    &&& forall|k: NodeKey| #[trigger] new.codes_view().dom().contains(k) ==> old.codes_view().dom().contains(k)
        && new.codes_view()[k] == old.codes_view()[k]
}

/// Removes every vector of base row `tuple` that owns a row at the bottom
/// level, one after the other, as `remove_vec` does.
#[verifier::loop_isolation(false)]
#[verifier::spinoff_prover]
pub fn remove_tuple<F>(
    rel: &mut IndexRelation,
    tuple: u64,
    params: &HnswParams,
    dist: &F,
) -> (r: Result<(), HnswError>) where F: Fn(Probe, NodeKey) -> Option<u64>
    requires
        old(rel).wf(),
        forall|p: Probe, k: NodeKey| dist.requires((p, k)),
    ensures
        final(rel).wf(),
        final(rel).codebook_view() == old(rel).codebook_view(),
        (forall|k: RowKey| #[trigger] old(rel).rows_view().dom().contains(k) && k.0 == 0 ==> k.1.0 != tuple) ==> {
            &&& r is Ok
            &&& final(rel).rows_view() == old(rel).rows_view()
            &&& final(rel).canary_view() == old(rel).canary_view()
            &&& final(rel).codes_view() == old(rel).codes_view()
        },
        match r {
            Ok(()) => tuple_removed(*old(rel), *final(rel), tuple, *params),
            Err(HnswError::DistanceUnavailable(k)) => dist_failed(*dist, k),
            Err(HnswError::IndexedVectorNotFound(b)) => exists|l: i64| l <= 0 && #[trigger] broken_at(old(rel).rows_view(), b, l),
            Err(HnswError::InvalidDegree(b)) => removal_fault(old(rel).rows_view(), b),
            Err(_) => false,
        },
{
    let ghost rows0 = rel.rows_view();
    let ghost codes0 = rel.codes_view();
    proof {
        lemma_no_new_members_refl(rows0);
    }
    let owners = rel.owners_at(0, tuple);
    let n: usize = owners.len();
    if n == 0 {
        proof {
            assert forall|k: NodeKey| k.0 == tuple implies !#[trigger] rel.rows_view().dom().contains((0, k, k)) by {
                if rel.rows_view().dom().contains((0, k, k)) {
                    assert(owners@.contains(k));
                }
            }
            assert(hashes_kept(rows0, rel.rows_view(), |x: NodeKey| x.0 == tuple));
            assert forall|k: NodeKey, l: i64| k.0 == tuple && l <= 0 && #[trigger] own_rows_from(rows0, k, l)
                implies !member(rel.rows_view(), l, k) by {
                assert(rows0.dom().contains((0, k, k)));
                assert(owners@.contains(k));
            }
        }
        return Ok(());
    }
    proof {
        let o0 = owners@[0];
        assert(o0.0 == tuple);
        let to = choose|to: NodeKey| rows0.dom().contains((0, o0, to));
        assert(rows0.dom().contains((0, o0, to)));
    }
    let mut i: usize = 0;
    while i < n
        invariant
            i <= n,
            rel.wf(),
            rel.codebook_view() == old(rel).codebook_view(),
            no_new_own_rows(rows0, rel.rows_view()),
            hashes_kept(rows0, rel.rows_view(), |x: NodeKey| x.0 == tuple),
            forall|t: int| 0 <= t < i ==> !rel.rows_view().dom().contains((0, #[trigger] owners@[t], owners@[t])),
            forall|t: int| 0 <= t < i ==> !rel.codes_view().dom().contains(#[trigger] owners@[t]),
            forall|k: NodeKey| #[trigger] rel.codes_view().dom().contains(k) ==> codes0.dom().contains(k)
                && rel.codes_view()[k] == codes0[k],
            no_new_members(rows0, rel.rows_view()),
            forall|b: NodeKey| #[trigger] own_rows_kept_where_present(rows0, rel.rows_view(), b),
            degrees_within(rows0, *params) ==> degrees_within(rel.rows_view(), *params),
            forall|t: int, l: i64| 0 <= t < i && l <= 0 && #[trigger] own_rows_from(rows0, owners@[t], l)
                ==> !member(rel.rows_view(), l, owners@[t]),
            forall|t: int, l: i64| i <= t < n && #[trigger] own_rows_from(rows0, owners@[t], l)
                ==> own_rows_from(rel.rows_view(), owners@[t], l),
        decreases n - i,
    {
        let ghost before = rel.rows_view();
        match remove_vec(rel, owners[i], params, dist) {
            Ok(()) => {},
            Err(e) => {
                proof {
                    let o = owners@[i as int];
                    if let HnswError::IndexedVectorNotFound(b) = e {
                        let l = choose|l: i64| l <= 0 && #[trigger] linked_from(before, o, l, b) && broken_at(before, b, l);
                        assert(own_rows_kept_where_present(rows0, before, b));
                        lemma_broken_back(rows0, before, l, b);
                    }
                    if let HnswError::InvalidDegree(b) = e {
                        assert(own_rows_kept_where_present(rows0, before, b));
                        let l = choose|l: i64| l <= 0 && #[trigger] broken_at(before, b, l);
                        lemma_broken_back(rows0, before, l, b);
                    }
                }
                return Err(e);
            },
        }
        proof {
            let o = owners@[i as int];
            let after = rel.rows_view();
            lemma_no_new_members_trans(rows0, before, after);
            assert forall|t: int, l: i64| 0 <= t < i + 1 && l <= 0 && #[trigger] own_rows_from(rows0, owners@[t], l)
                implies !member(after, l, owners@[t]) by {
                let x = owners@[t];
                if member(after, l, x) {
                    lemma_member_back(before, after, l, x);
                    if t == i {
                        assert(own_rows_from(before, o, l));
                        let (stop, targets, states) = choose|stop: int, targets: Seq<(NodeKey, i64)>, states: Seq<IndexRelation>| #[trigger]
                            removal(before, after, o, stop, targets, states, *params, *dist);
                        let w = choose|w: RowKey| #[trigger] after.dom().contains(w) && w.0 == l && (w.1 == o || w.2 == o);
                        if stop >= l {
                            assert(before.dom().contains((stop as i64, o, o)));
                        }
                    }
                }
            }
            assert forall|t: int, l: i64| i + 1 <= t < n && #[trigger] own_rows_from(rows0, owners@[t], l)
                implies own_rows_from(after, owners@[t], l) by {
                assert(t != i);
                assert(owners@[t] != owners@[i as int]);
                assert(own_rows_from(before, owners@[t], l));
                assert forall|l2: i64| l <= l2 <= 0 implies #[trigger] after.dom().contains((l2, owners@[t], owners@[t]))
                    && after[(l2, owners@[t], owners@[t])] is Node by {
                    assert(before.dom().contains((l2, owners@[t], owners@[t])));
                }
            }
            assert forall|b: NodeKey| #[trigger] own_rows_kept_where_present(rows0, after, b) by {
                assert forall|l: i64| #[trigger]
                    member(after, l, b) && rows0.dom().contains((l, b, b)) && rows0[(l, b, b)] is Node implies
                    after.dom().contains((l, b, b)) && after[(l, b, b)] is Node by {
                    lemma_member_back(before, after, l, b);
                    assert(own_rows_kept_where_present(rows0, before, b));
                    assert(before.dom().contains((l, b, b)) && before[(l, b, b)] is Node);
                }
            }
            law_removed_vector_not_indexed(before, rel.rows_view(), o);
            lemma_hashes_kept_trans(rows0, before, rel.rows_view(), |x: NodeKey| x.0 == tuple, |x: NodeKey| x == o);
            assert forall|t: int| 0 <= t < i + 1 implies !rel.rows_view().dom().contains((0, #[trigger] owners@[t], owners@[t])) by {
                if t < i {
                    assert(!before.dom().contains((0, owners@[t], owners@[t])));
                }
            }
        }
        i = i + 1;
    }
    proof {
        assert forall|k: NodeKey| k.0 == tuple implies !#[trigger] rel.rows_view().dom().contains((0, k, k)) by {
            if rows0.dom().contains((0, k, k)) {
                let t = choose|t: int| 0 <= t < n && owners@[t] == k;
                assert(!rel.rows_view().dom().contains((0, owners@[t], owners@[t])));
            }
        }
        assert forall|k: NodeKey, l: i64| k.0 == tuple && l <= 0 && #[trigger] own_rows_from(rows0, k, l)
            implies !member(rel.rows_view(), l, k) by {
            assert(rows0.dom().contains((0, k, k)));
            let t = choose|t: int| 0 <= t < n && owners@[t] == k;
            assert(own_rows_from(rows0, owners@[t], l));
        }
        assert forall|k: NodeKey| k.0 == tuple && #[trigger] rows0.dom().contains((0, k, k))
            implies !rel.codes_view().dom().contains(k) by {
            let t = choose|t: int| 0 <= t < n && owners@[t] == k;
            assert(!rel.codes_view().dom().contains(owners@[t]));
        }
    }
    Ok(())
}

/// What a field of a base row holds, as far as vector extraction reads it.
pub enum FieldValue {
    /// A vector.
    Vector,
    /// A list, marking which of its elements are vectors.
    List(Vec<bool>),
    /// Anything else.
    Other,
}

/// The vectors that the fields `vec_fields` of a row hold: `(field, -1)` for a
/// field that is a vector, `(field, position)` for each vector in a list
/// field; `None` when a field lies beyond the row.
pub open spec fn spec_extract(fields: Seq<FieldValue>, vec_fields: Seq<usize>) -> Option<Seq<(usize, i32)>>
    decreases vec_fields.len(),
{
    if vec_fields.len() == 0 {
        Some(Seq::empty())
    } else {
        match spec_extract(fields, vec_fields.drop_last()) {
            None => None,
            Some(prefix) => {
                let f = vec_fields.last();
                if f >= fields.len() {
                    None
                } else {
                    match fields[f as int] {
                        FieldValue::Vector => Some(prefix.push((f, -1i32))),
                        FieldValue::List(l) => Some(prefix + list_vectors(f, l@, l@.len() as int)),
                        FieldValue::Other => Some(prefix),
                    }
                }
            },
        }
    }
}

/// The vectors among the first `n` elements of a list field.
pub open spec fn list_vectors(f: usize, l: Seq<bool>, n: int) -> Seq<(usize, i32)>
    decreases n,
{
    if n <= 0 {
        Seq::empty()
    } else if l[n - 1] {
        list_vectors(f, l, n - 1).push((f, (n - 1) as i32))
    } else {
        list_vectors(f, l, n - 1)
    }
}

/// Field `f` is a list whose element at position `j` is a vector.
pub open spec fn list_holds_vector(fields: Seq<FieldValue>, f: usize, j: int) -> bool {
    match fields[f as int] {
        FieldValue::List(l) => 0 <= j < l@.len() && l@[j],
        _ => false,
    }
}

/// The vectors among the first `n` elements of a list field are exactly the
/// positions below `n` that hold a vector.
proof fn lemma_list_vectors(f: usize, l: Seq<bool>, n: int)
    requires
        0 <= n <= l.len(),
    ensures
        forall|j: int| 0 <= j < n && l[j] ==> #[trigger] list_vectors(f, l, n).contains((f, j as i32)),
        forall|x: (usize, i32)| #[trigger] list_vectors(f, l, n).contains(x) ==> exists|j: int|
            0 <= j < n && l[j] && x == (f, j as i32),
    decreases n,
{
    if n > 0 {
        lemma_list_vectors(f, l, n - 1);
        let prev = list_vectors(f, l, n - 1);
        assert forall|j: int| 0 <= j < n && l[j] implies #[trigger] list_vectors(f, l, n).contains((f, j as i32)) by {
            if j < n - 1 {
                assert(prev.contains((f, j as i32)));
                if l[n - 1] {
                    let k = choose|k: int| 0 <= k < prev.len() && prev[k] == (f, j as i32);
                    assert(list_vectors(f, l, n)[k] == (f, j as i32));
                }
            } else {
                assert(list_vectors(f, l, n)[prev.len() as int] == (f, j as i32));
            }
        }
        assert forall|x: (usize, i32)| #[trigger] list_vectors(f, l, n).contains(x) implies exists|j: int|
            0 <= j < n && l[j] && x == (f, j as i32) by {
            let cur = list_vectors(f, l, n);
            let k = choose|k: int| 0 <= k < cur.len() && cur[k] == x;
            if l[n - 1] && k == prev.len() {
                assert(x == (f, (n - 1) as i32));
            } else {
                assert(prev[k] == x);
                assert(prev.contains(x));
            }
        }
    }
}

/// Extraction takes every vector of the fields it reads and nothing else: a
/// field that is a vector gives `(field, -1)`, a list field gives
/// `(field, position)` for every position that holds a vector, and each
/// extracted pair is one of these; it fails exactly when one of the fields
/// lies beyond the row.
pub proof fn law_extraction_takes_every_vector(fields: Seq<FieldValue>, vec_fields: Seq<usize>)
    ensures
        spec_extract(fields, vec_fields) is None <==> exists|i: int| 0 <= i < vec_fields.len() && vec_fields[i] >= fields.len(),
        spec_extract(fields, vec_fields) matches Some(r) ==> {
            &&& forall|i: int| 0 <= i < vec_fields.len() && fields[vec_fields[i] as int] is Vector
                ==> r.contains((#[trigger] vec_fields[i], -1i32))
            &&& forall|i: int, j: int| 0 <= i < vec_fields.len() && #[trigger] list_holds_vector(fields, vec_fields[i], j)
                ==> r.contains((vec_fields[i], j as i32))
            &&& forall|x: (usize, i32)| #[trigger] r.contains(x) ==> exists|i: int| 0 <= i < vec_fields.len() && x.0 == vec_fields[i] && (
                (fields[x.0 as int] is Vector && x.1 == -1) || exists|j: int| list_holds_vector(fields, x.0, j) && x.1 == j as i32)
        },
    decreases vec_fields.len(),
{
    if vec_fields.len() > 0 {
        let vp = vec_fields.drop_last();
        law_extraction_takes_every_vector(fields, vp);
        let f = vec_fields.last();
        let last = vec_fields.len() - 1;
        assert(vec_fields[last] == f);
        assert forall|i: int| 0 <= i < vp.len() implies vp[i] == vec_fields[i] by {}
        if spec_extract(fields, vp) is None {
            let i = choose|i: int| 0 <= i < vp.len() && vp[i] >= fields.len();
            assert(vec_fields[i] >= fields.len());
        } else if f >= fields.len() {
        } else {
            let prefix = spec_extract(fields, vp)->0;
            assert forall|i: int| !(0 <= i < vec_fields.len() && vec_fields[i] >= fields.len()) by {
                if 0 <= i < vp.len() && vec_fields[i] >= fields.len() {
                    assert(vp[i] >= fields.len());
                }
            }
            let r = spec_extract(fields, vec_fields)->0;
            let extra: Seq<(usize, i32)> = match fields[f as int] {
                FieldValue::Vector => seq![(f, -1i32)],
                FieldValue::List(l) => list_vectors(f, l@, l@.len() as int),
                FieldValue::Other => Seq::empty(),
            };
            assert(r =~= prefix + extra);
            if let FieldValue::List(l) = fields[f as int] {
                lemma_list_vectors(f, l@, l@.len() as int);
            }
            assert forall|x: (usize, i32)| prefix.contains(x) implies r.contains(x) by {
                let k = choose|k: int| 0 <= k < prefix.len() && prefix[k] == x;
                assert(r[k] == x);
            }
            assert forall|x: (usize, i32)| extra.contains(x) implies r.contains(x) by {
                let k = choose|k: int| 0 <= k < extra.len() && extra[k] == x;
                assert(r[prefix.len() + k] == x);
            }
            assert forall|x: (usize, i32)| r.contains(x) implies prefix.contains(x) || extra.contains(x) by {
                let k = choose|k: int| 0 <= k < r.len() && r[k] == x;
                if k < prefix.len() {
                    assert(prefix[k] == x);
                } else {
                    assert(extra[k - prefix.len()] == x);
                }
            }
            assert forall|i: int| 0 <= i < vec_fields.len() && fields[vec_fields[i] as int] is Vector
                implies r.contains((#[trigger] vec_fields[i], -1i32)) by {
                if i < last {
                    assert(vp[i] == vec_fields[i]);
                    assert(prefix.contains((vp[i], -1i32)));
                } else {
                    assert(extra[0] == (f, -1i32));
                    assert(extra.contains((f, -1i32)));
                }
            }
            assert forall|i: int, j: int| 0 <= i < vec_fields.len() && #[trigger] list_holds_vector(fields, vec_fields[i], j)
                implies r.contains((vec_fields[i], j as i32)) by {
                if i < last {
                    assert(vp[i] == vec_fields[i]);
                    assert(list_holds_vector(fields, vp[i], j));
                    assert(prefix.contains((vp[i], j as i32)));
                } else {
                    assert(extra.contains((f, j as i32)));
                }
            }
            assert forall|x: (usize, i32)| #[trigger] r.contains(x) implies exists|i: int| 0 <= i < vec_fields.len() && x.0 == vec_fields[i] && (
                (fields[x.0 as int] is Vector && x.1 == -1) || exists|j: int| list_holds_vector(fields, x.0, j) && x.1 == j as i32) by {
                if prefix.contains(x) {
                    let i = choose|i: int| 0 <= i < vp.len() && x.0 == vp[i] && (
                        (fields[x.0 as int] is Vector && x.1 == -1) || exists|j: int| list_holds_vector(fields, x.0, j) && x.1 == j as i32);
                    assert(vec_fields[i] == vp[i]);
                } else {
                    assert(extra.contains(x));
                    match fields[f as int] {
                        FieldValue::Vector => {
                            let k = choose|k: int| 0 <= k < extra.len() && extra[k] == x;
                            assert(x == (f, -1i32));
                        },
                        FieldValue::List(l) => {
                            let j = choose|j: int| 0 <= j < l@.len() && l@[j] && x == (f, j as i32);
                            assert(list_holds_vector(fields, x.0, j));
                        },
                        FieldValue::Other => {},
                    }
                    assert(x.0 == vec_fields[last]);
                }
            }
        }
    }
}

/// Extracts the vectors of a row from the fields `vec_fields`.
pub fn extract_vectors(fields: &Vec<FieldValue>, vec_fields: &Vec<usize>) -> (r: Result<Vec<(usize, i32)>, HnswError>)
    ensures
        match r {
            Ok(v) => spec_extract(fields@, vec_fields@) == Some(v@),
            Err(e) => e == HnswError::RowTooShort && spec_extract(fields@, vec_fields@) is None,
        },
{
    let mut out: Vec<(usize, i32)> = Vec::new();
    let n: usize = vec_fields.len();
    let mut i: usize = 0;
    while i < n
        invariant
            n == vec_fields.len(),
            i <= n,
            spec_extract(fields@, vec_fields@.subrange(0, i as int)) == Some(out@),
        decreases n - i,
    {
        let f: usize = vec_fields[i];
        proof {
            assert(vec_fields@.subrange(0, i + 1).drop_last() =~= vec_fields@.subrange(0, i as int));
        }
        if f >= fields.len() {
            proof {
                lemma_extract_none(fields@, vec_fields@, i + 1);
            }
            return Err(HnswError::RowTooShort);
        }
        match &fields[f] {
            FieldValue::Vector => {
                out.push((f, -1i32));
            },
            FieldValue::List(l) => {
                let ln: usize = l.len();
                let mut j: usize = 0;
                let ghost base = out@;
                while j < ln
                    invariant
                        j <= ln,
                        ln == l.len(),
                        out@ == base + list_vectors(f, l@, j as int),
                    decreases ln - j,
                {
                    if l[j] {
                        out.push((f, j as i32));
                    }
                    proof {
                        assert(base + list_vectors(f, l@, j + 1) =~= out@);
                    }
                    j = j + 1;
                }
            },
            FieldValue::Other => {},
        }
        i = i + 1;
    }
    proof {
        assert(vec_fields@.subrange(0, n as int) =~= vec_fields@);
    }
    Ok(out)
}

/// Once a prefix of the fields lies beyond the row, so do all the fields.
proof fn lemma_extract_none(fields: Seq<FieldValue>, vec_fields: Seq<usize>, i: int)
    requires
        0 < i <= vec_fields.len(),
        spec_extract(fields, vec_fields.subrange(0, i)) is None,
    ensures
        spec_extract(fields, vec_fields) is None,
    decreases vec_fields.len() - i,
{
    if i < vec_fields.len() {
        assert(vec_fields.subrange(0, i + 1).drop_last() =~= vec_fields.subrange(0, i));
        lemma_extract_none(fields, vec_fields, i + 1);
    } else {
        assert(vec_fields.subrange(0, i) =~= vec_fields);
    }
}

/// One vector of a row, ready to be indexed.
pub struct VectorInput {
    /// The field that holds the vector.
    pub field: usize,
    /// The position in a list field, or `-1`.
    pub sub: i32,
    /// The hash of the vector.
    pub hash: Vec<u8>,
    /// The top level drawn for the vector.
    pub level: i64,
    /// The vector's quantization codes, when the index is quantized.
    pub codes: Option<Vec<u8>>,
}

/// Indexes a base row: a row that the index filter rejects is removed from the
/// index (and `false` returned); a row without vectors gives `false`; otherwise
/// each vector is put, with its position in `vectors` as query position for
/// `dist`, and `true` returned.
#[verifier::loop_isolation(false)]
pub fn put_tuple<F>(
    rel: &mut IndexRelation,
    tuple: u64,
    passes_filter: bool,
    vectors: &Vec<VectorInput>,
    params: &HnswParams,
    dist: &F,
) -> (r: Result<bool, HnswError>) where F: Fn(Probe, NodeKey) -> Option<u64>
    requires
        old(rel).wf(),
        forall|p: Probe, k: NodeKey| dist.requires((p, k)),
    ensures
        final(rel).wf(),
        final(rel).codebook_view() == old(rel).codebook_view(),
        passes_filter && vectors.len() == 0 ==> r == Ok::<bool, HnswError>(false),
        !passes_filter && (forall|k: RowKey| #[trigger] old(rel).rows_view().dom().contains(k) && k.0 == 0 ==> k.1.0 != tuple)
            ==> {
            &&& r == Ok::<bool, HnswError>(false)
            &&& final(rel).rows_view() == old(rel).rows_view()
            &&& final(rel).canary_view() == old(rel).canary_view()
            &&& final(rel).codes_view() == old(rel).codes_view()
        },
        match r {
            Ok(b) => {
                &&& b == (passes_filter && vectors.len() > 0)
                &&& hashes_kept(old(rel).rows_view(), final(rel).rows_view(), |x: NodeKey| x.0 == tuple)
                &&& degrees_within(old(rel).rows_view(), *params) ==> degrees_within(final(rel).rows_view(), *params)
                &&& passes_filter ==> forall|t: int|
                    0 <= t < vectors.len() && vectors@[t].level <= 0 && (forall|u: int|
                        t < u < vectors.len() ==> vectors@[u].field != vectors@[t].field
                            || vectors@[u].sub != vectors@[t].sub) ==> #[trigger] indexed_with_hash(
                        final(rel).rows_view(),
                        (tuple, vectors@[t].field, vectors@[t].sub),
                        vectors@[t].hash@,
                    )
                &&& !passes_filter ==> tuple_removed(*old(rel), *final(rel), tuple, *params)
                &&& passes_filter && vectors.len() == 0 ==> {
                    &&& final(rel).rows_view() == old(rel).rows_view()
                    &&& final(rel).canary_view() == old(rel).canary_view()
                    &&& final(rel).codes_view() == old(rel).codes_view()
                }
            },
            Err(HnswError::DistanceUnavailable(k)) => dist_failed(*dist, k),
            Err(HnswError::IndexedVectorNotFound(b)) => damaged(old(rel).rows_view(), b),
            Err(HnswError::InvalidDegree(b)) => damaged(old(rel).rows_view(), b),
            Err(_) => false,
        },
{
    if !passes_filter {
        match remove_tuple(rel, tuple, params, dist) {
            Ok(()) => {
                return Ok(false);
            },
            Err(e) => {
                proof {
                    let rows0 = old(rel).rows_view();
                    if let HnswError::IndexedVectorNotFound(b) = e {
                        let l = choose|l: i64| l <= 0 && #[trigger] broken_at(rows0, b, l);
                        lemma_damaged(rows0, b, l, l);
                    }
                    if let HnswError::InvalidDegree(b) = e {
                        let l = choose|l: i64| l <= 0 && #[trigger] broken_at(rows0, b, l);
                        lemma_damaged(rows0, b, l, l);
                    }
                }
                return Err(e);
            },
        }
    }
    if vectors.len() == 0 {
        return Ok(false);
    }
    let n: usize = vectors.len();
    let mut i: usize = 0;
    while i < n
        invariant
            i <= n,
            n == vectors.len(),
            rel.wf(),
            rel.codebook_view() == old(rel).codebook_view(),
            hashes_kept(old(rel).rows_view(), rel.rows_view(), |x: NodeKey| x.0 == tuple),
            degrees_within(old(rel).rows_view(), *params) ==> degrees_within(rel.rows_view(), *params),
            forall|b: NodeKey| #[trigger] damaged(rel.rows_view(), b) ==> damaged(old(rel).rows_view(), b),
            forall|t: int|
                0 <= t < i && vectors@[t].level <= 0 && (forall|u: int|
                    t < u < i ==> vectors@[u].field != vectors@[t].field || vectors@[u].sub
                        != vectors@[t].sub) ==> #[trigger] indexed_with_hash(
                    rel.rows_view(),
                    (tuple, vectors@[t].field, vectors@[t].sub),
                    vectors@[t].hash@,
                ),
        decreases n - i,
    {
        let v = &vectors[i];
        let ghost before = rel.rows_view();
        let ghost node: NodeKey = (tuple, v.field, v.sub);
        match put_vector(rel, (tuple, v.field, v.sub), i, &v.hash, v.level, &v.codes, params, dist) {
            Ok(()) => {},
            Err(e) => {
                return Err(e);
            },
        }
        proof {
            let after = rel.rows_view();
            let rows0 = old(rel).rows_view();
            reveal(no_new_appearances);
            assert forall|b: NodeKey| #[trigger] damaged(after, b) implies damaged(rows0, b) by {
                if b != node {
                    let (l1, l2) = choose|l1: i64, l2: i64| l1 <= l2 <= 0 && member(after, l1, b) && no_own_node(after, l2, b);
                    assert(appears_by(before, l1, b));
                    let l0 = choose|l0: i64| l0 <= l1 && #[trigger] member(before, l0, b);
                    assert(no_own_node(before, l2, b));
                    lemma_damaged(before, b, l0, l2);
                }
            }
        }
        proof {
            lemma_hashes_kept_trans(old(rel).rows_view(), before, rel.rows_view(), |x: NodeKey| x.0 == tuple, |x: NodeKey| x == node);
            assert forall|t: int|
                0 <= t < i + 1 && vectors@[t].level <= 0 && (forall|u: int|
                    t < u < i + 1 ==> vectors@[u].field != vectors@[t].field || vectors@[u].sub
                        != vectors@[t].sub) implies #[trigger] indexed_with_hash(
                    rel.rows_view(),
                    (tuple, vectors@[t].field, vectors@[t].sub),
                    vectors@[t].hash@,
                ) by {
                if t < i {
                    assert(vectors@[i as int].field != vectors@[t].field || vectors@[i as int].sub != vectors@[t].sub);
                    assert(indexed_with_hash(before, (tuple, vectors@[t].field, vectors@[t].sub), vectors@[t].hash@));
                    law_other_vectors_stay_indexed(before, rel.rows_view(), |x: NodeKey| x == node,
                        (tuple, vectors@[t].field, vectors@[t].sub), vectors@[t].hash@);
                } else {
                    law_put_leaves_vector_indexed(before, rel.rows_view(), node, v.hash@, v.level);
                }
            }
        }
        i = i + 1;
    }
    Ok(true)
}

} // verus!
