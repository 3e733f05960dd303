use vstd::prelude::*;
use crate::key::{NodeKey, RowKey, row_lt, node_lt, node_eq, node_less, row_less};
use crate::table::{Table, lemma_entry_in_map, lemma_map_key_in_entries, lemma_entries_len, index_of};

verus! {

/// The value of a row of the index relation.
pub enum RowVal {
    /// A node's own row at a level: its recorded degree and the hash of its vector.
    Node { degree: i64, hash: Vec<u8> },
    /// A link to another node: the distance between the two, and whether the
    /// link has been pruned (kept only for the other direction).
    Edge { dist: u64, deleted: bool },
}

/// What a row's value holds, with the hash as a sequence of bytes.
pub enum RowView {
    Node { degree: i64, hash: Seq<u8> },
    Edge { dist: u64, deleted: bool },
}

impl View for RowVal {
    type V = RowView;

    open spec fn view(&self) -> RowView {
        match self {
            RowVal::Node { degree, hash } => RowView::Node { degree: *degree, hash: hash@ },
            RowVal::Edge { dist, deleted } => RowView::Edge { dist: *dist, deleted: *deleted },
        }
    }
}

/// What the conflict-detection row points at.
#[derive(Clone, Copy)]
pub enum CanaryTarget {
    /// The own rows of a node written fresh at some levels.
    Fresh(NodeKey),
    /// A row of the index relation.
    Row(RowKey),
    /// The conflict-detection row itself.
    Itself,
}

/// The conflict-detection row: the entry level and what it points at.
#[derive(Clone, Copy)]
pub struct Canary {
    pub level: i64,
    pub target: CanaryTarget,
}

/// The index relation of an HNSW index: graph rows, the conflict-detection row,
/// the product-quantization codes of the nodes, and the serialized codebook.
pub struct IndexRelation {
    rows: Table<RowKey, RowVal>,
    canary: Option<Canary>,
    pq_codes: Table<NodeKey, Vec<u8>>,
    codebook: Option<Vec<u8>>,
}

/// The link from `node` to `to` at `level` is one that a neighbour scan
/// reports, with distance `d`.
pub open spec fn is_neighbour(
    rows: Map<RowKey, RowView>,
    node: NodeKey,
    level: i64,
    include_deleted: bool,
    to: NodeKey,
    d: u64,
) -> bool {
    &&& rows.dom().contains((level, node, to))
    &&& to.0 != node.0
    &&& rows[(level, node, to)] matches RowView::Edge { dist, deleted } && dist == d && (
    include_deleted || !deleted)
}

/// The rows after `node` gets a fresh own row, of degree 0 with `hash`, at every
/// level from `bottom` to `top`.
pub open spec fn with_fresh_rows(
    rows: Map<RowKey, RowView>,
    node: NodeKey,
    hash: Seq<u8>,
    bottom: int,
    top: int,
) -> Map<RowKey, RowView> {
    Map::new(
        |k: RowKey| rows.dom().contains(k) || (k.1 == node && k.2 == node && bottom <= k.0 <= top),
        |k: RowKey|
            if k.1 == node && k.2 == node && bottom <= k.0 <= top {
                RowView::Node { degree: 0, hash }
            } else {
                rows[k]
            },
    )
}

/// The least row at a level no higher than `max_level`.
pub open spec fn is_entry_row(rows: Map<RowKey, RowView>, max_level: i64, k: RowKey) -> bool {
    &&& rows.dom().contains(k)
    &&& k.0 <= max_level
    &&& forall|j: RowKey| #[trigger]
        rows.dom().contains(j) && j.0 <= max_level ==> j == k || row_lt(k, j)
}

/// A copy of a byte string.
pub fn clone_bytes(v: &Vec<u8>) -> (r: Vec<u8>)
    ensures
        r@ == v@,
{
    let r = v.clone();
    assert(r@ =~= v@);
    r
}

/// The links of `v` (whose nodes are distinct) ordered by node.
fn sort_links(v: &Vec<(NodeKey, u64)>) -> (r: Vec<(NodeKey, u64)>)
    requires
        forall|a: int, b: int| 0 <= a < v.len() && 0 <= b < v.len() && a != b ==> v@[a].0 != v@[b].0,
    ensures
        r.len() == v.len(),
        forall|a: int, b: int| 0 <= a < b < r.len() ==> node_lt(r@[a].0, r@[b].0),
        forall|x: (NodeKey, u64)| #[trigger] r@.contains(x) <==> v@.contains(x),
{
    let mut r: Vec<(NodeKey, u64)> = Vec::new();
    let n: usize = v.len();
    let mut i: usize = 0;
    while i < n
        invariant
            n == v.len(),
            i <= n,
            r.len() == i,
            forall|a: int, b: int| 0 <= a < v.len() && 0 <= b < v.len() && a != b ==> v@[a].0 != v@[b].0,
            forall|a: int, b: int| 0 <= a < b < r.len() ==> node_lt(r@[a].0, r@[b].0),
            forall|x: (NodeKey, u64)| #[trigger] r@.contains(x) <==> v@.subrange(0, i as int).contains(x),
        decreases n - i,
    {
        let e = v[i];
        let mut p: usize = 0;
        while p < r.len() && !node_less(&e.0, &r[p].0)
            invariant
                p <= r.len(),
                forall|t: int| 0 <= t < p ==> !node_lt(e.0, r@[t].0),
            decreases r.len() - p,
        {
            p = p + 1;
        }
        let ghost r0 = r@;
        proof {
            assert forall|t: int| 0 <= t < r0.len() implies r0[t].0 != e.0 by {
                assert(r@.contains(r0[t]));
                assert(v@.subrange(0, i as int).contains(r0[t]));
                let a = choose|a: int| 0 <= a < i && v@.subrange(0, i as int)[a] == r0[t];
                assert(v@[a] == r0[t]);
            }
        }
        r.insert(p, e);
        proof {
            r0.insert_ensures(p as int, e);
            assert forall|a: int, b: int| 0 <= a < b < r.len() implies node_lt(r@[a].0, r@[b].0) by {
                if b < p {
                } else if b == p {
                    assert(r0[a].0 != e.0);
                } else if a < p {
                    assert(r0[a].0 != e.0);
                    if p < r0.len() {
                        assert(node_lt(e.0, r0[p as int].0));
                        assert(r@[b] == r0[b - 1]);
                        if b - 1 > p {
                            assert(node_lt(r0[p as int].0, r0[b - 1].0));
                        }
                    }
                } else if a == p {
                    assert(node_lt(e.0, r0[p as int].0));
                    assert(r@[b] == r0[b - 1]);
                    if b - 1 > p {
                        assert(node_lt(r0[p as int].0, r0[b - 1].0));
                    }
                } else {
                    assert(r@[a] == r0[a - 1]);
                    assert(r@[b] == r0[b - 1]);
                }
            }
            let vi = v@.subrange(0, i + 1);
            let vp = v@.subrange(0, i as int);
            assert forall|x: (NodeKey, u64)| #[trigger] r@.contains(x) <==> vi.contains(x) by {
                if r@.contains(x) {
                    let t = choose|t: int| 0 <= t < r.len() && r@[t] == x;
                    if t < p {
                        assert(r0[t] == x);
                        assert(r0.contains(x));
                        let a = choose|a: int| 0 <= a < i && vp[a] == x;
                        assert(vi[a] == x);
                    } else if t == p {
                        assert(vi[i as int] == x);
                    } else {
                        assert(r0[t - 1] == x);
                        assert(r0.contains(x));
                        let a = choose|a: int| 0 <= a < i && vp[a] == x;
                        assert(vi[a] == x);
                    }
                }
                if vi.contains(x) {
                    let a = choose|a: int| 0 <= a < i + 1 && vi[a] == x;
                    if a == i {
                        assert(r@[p as int] == x);
                    } else {
                        assert(vp[a] == x);
                        assert(r0.contains(x));
                        let t = choose|t: int| 0 <= t < r0.len() && r0[t] == x;
                        if t < p {
                            assert(r@[t] == x);
                        } else {
                            assert(r@[t + 1] == x);
                        }
                    }
                }
            }
        }
        i = i + 1;
    }
    proof {
        assert(v@.subrange(0, n as int) =~= v@);
    }
    r
}

impl IndexRelation {
    /// The rows of the relation.
    pub closed spec fn rows_view(&self) -> Map<RowKey, RowView> {
        Map::new(|k: RowKey| self.rows@.dom().contains(k), |k: RowKey| self.rows@[k]@)
    }

    pub closed spec fn canary_view(&self) -> Option<Canary> {
        self.canary
    }

    /// The product-quantization codes of the nodes.
    pub closed spec fn codes_view(&self) -> Map<NodeKey, Seq<u8>> {
        Map::new(|k: NodeKey| self.pq_codes@.dom().contains(k), |k: NodeKey| self.pq_codes@[k]@)
    }

    pub closed spec fn codebook_view(&self) -> Option<Seq<u8>> {
        match self.codebook {
            Some(b) => Some(b@),
            None => None,
        }
    }

    /// Well-formedness: the tables have distinct keys, and a node's own row
    /// only ever stands at the key that points from the node to itself.
    pub closed spec fn wf(&self) -> bool {
        &&& self.rows.wf()
        &&& self.pq_codes.wf()
        &&& forall|k: RowKey| #[trigger]
            self.rows@.dom().contains(k) && self.rows@[k] is Node ==> k.1 == k.2
    }

    /// An empty index relation.
    pub fn new() -> (r: Self)
        ensures
            r.wf(),
            r.rows_view().dom().is_empty(),
            r.canary_view() is None,
            r.codes_view().dom().is_empty(),
            r.codebook_view() is None,
    {
        IndexRelation {
            rows: Table::new(),
            canary: None,
            pq_codes: Table::new(),
            codebook: None,
        }
    }

    /// The value of a row, if the row is there.
    pub fn get_row(&self, k: &RowKey) -> (r: Option<&RowVal>)
        requires
            self.wf(),
        ensures
            match r {
                Some(v) => self.rows_view().dom().contains(*k) && self.rows_view()[*k] == v@,
                None => !self.rows_view().dom().contains(*k),
            },
    {
        self.rows.get(k)
    }

    /// Whether the row is there.
    pub fn has_row(&self, k: &RowKey) -> (r: bool)
        requires
            self.wf(),
        ensures
            r == self.rows_view().dom().contains(*k),
    {
        self.rows.contains(k)
    }

    /// Writes a row.
    pub fn put_row(&mut self, k: RowKey, v: RowVal)
        requires
            old(self).wf(),
            v is Node ==> k.1 == k.2,
        ensures
            final(self).wf(),
            final(self).rows_view() == old(self).rows_view().insert(k, v@),
            final(self).canary_view() == old(self).canary_view(),
            final(self).codes_view() == old(self).codes_view(),
            final(self).codebook_view() == old(self).codebook_view(),
    {
        let ghost vv = v@;
        self.rows.insert(k, v);
        assert(self.rows_view() =~= old(self).rows_view().insert(k, vv));
        assert(self.codes_view() =~= old(self).codes_view());
    }

    /// Deletes a row (nothing happens when it is not there).
    pub fn del_row(&mut self, k: &RowKey)
        requires
            old(self).wf(),
        ensures
            final(self).wf(),
            final(self).rows_view() == old(self).rows_view().remove(*k),
            final(self).canary_view() == old(self).canary_view(),
            final(self).codes_view() == old(self).codes_view(),
            final(self).codebook_view() == old(self).codebook_view(),
    {
        self.rows.remove(k);
        assert(self.rows_view() =~= old(self).rows_view().remove(*k));
        assert(self.codes_view() =~= old(self).codes_view());
    }

    /// The live (or, with `include_deleted`, all) links of `node` at `level` to
    /// nodes of other base rows, with their distances, in the order of the
    /// nodes linked to.
    pub fn neighbours(&self, node: NodeKey, level: i64, include_deleted: bool) -> (r: Vec<
        (NodeKey, u64),
    >)
        requires
            self.wf(),
        ensures
            forall|i: int, j: int| 0 <= i < j < r.len() ==> node_lt(r@[i].0, r@[j].0),
            forall|i: int, j: int| 0 <= i < r.len() && 0 <= j < r.len() && i != j ==> r@[i].0 != r@[j].0,
            forall|i: int| 0 <= i < r.len() ==> is_neighbour(
                self.rows_view(),
                node,
                level,
                include_deleted,
                #[trigger] r@[i].0,
                r@[i].1,
            ),
            forall|to: NodeKey, d: u64| #[trigger]
                is_neighbour(self.rows_view(), node, level, include_deleted, to, d) ==> exists|i: int|
                    0 <= i < r.len() && r@[i].0 == to,
    {
        let ghost s = self.rows.entries@;
        let n: usize = self.rows.entries.len();
        let mut r: Vec<(NodeKey, u64)> = Vec::new();
        let ghost mut src: Seq<int> = Seq::empty();
        let mut i: usize = 0;
        while i < n
            invariant
                s == self.rows.entries@,
                self.wf(),
                n == s.len(),
                i <= n,
                src.len() == r.len(),
                forall|t: int| 0 <= t < r.len() ==> 0 <= #[trigger] src[t] < i,
                forall|t: int| 0 <= t < r.len() ==> s[#[trigger] src[t]].0 == (level, node, r@[t].0),
                forall|t: int, u: int| 0 <= t < r.len() && 0 <= u < r.len() && t != u ==> src[t] != src[u],
                forall|t: int| 0 <= t < r.len() ==> is_neighbour(
                    self.rows_view(),
                    node,
                    level,
                    include_deleted,
                    #[trigger] r@[t].0,
                    r@[t].1,
                ),
                forall|j: int|
                    0 <= j < i && s[j].0.0 == level && s[j].0.1 == node && s[j].0.2.0 != node.0
                        && (#[trigger] s[j].1 matches RowVal::Edge { deleted, .. } && (include_deleted
                        || !deleted)) ==> exists|t: int| 0 <= t < r.len() && r@[t].0 == s[j].0.2,
            decreases n - i,
        {
            let k = self.rows.entries[i].0;
            let ghost r_before = r@;
            proof {
                lemma_entry_in_map(s, i as int);
            }
            if k.0 == level && node_eq(&k.1, &node) && k.2.0 != node.0 {
                match &self.rows.entries[i].1 {
                    RowVal::Edge { dist, deleted } => {
                        if include_deleted || !*deleted {
                            proof {
                                assert forall|t: int| 0 <= t < r.len() implies r@[t].0 != k.2 by {
                                    if r@[t].0 == k.2 {
                                        assert(s[src[t]].0 == s[i as int].0);
                                    }
                                }
                                src = src.push(i as int);
                            }
                            r.push((k.2, *dist));
                            proof {
                                assert(r@[r.len() - 1].0 == k.2);
                            }
                        }
                    },
                    RowVal::Node { .. } => {},
                }
            }
            proof {
                assert forall|j: int|
                    0 <= j < i + 1 && s[j].0.0 == level && s[j].0.1 == node && s[j].0.2.0 != node.0
                        && (#[trigger] s[j].1 matches RowVal::Edge { deleted, .. } && (include_deleted
                        || !deleted)) implies exists|t: int| 0 <= t < r.len() && r@[t].0 == s[j].0.2 by {
                    if j < i {
                        let t = choose|t: int| 0 <= t < r_before.len() && r_before[t].0 == s[j].0.2;
                        assert(r@[t] == r_before[t]);
                    } else {
                        assert(r@[r.len() - 1].0 == s[j].0.2);
                    }
                }
            }
            i = i + 1;
        }
        proof {
            assert forall|a: int, b: int| 0 <= a < r.len() && 0 <= b < r.len() && a != b implies r@[a].0
                != r@[b].0 by {
                assert(s[src[a]].0 != s[src[b]].0);
            }
            assert forall|to: NodeKey, d: u64| #[trigger]
                is_neighbour(self.rows_view(), node, level, include_deleted, to, d) implies exists|t: int|
                0 <= t < r.len() && r@[t].0 == to by {
                lemma_map_key_in_entries(s, (level, node, to));
                let j = index_of(s, (level, node, to));
                assert(s[j].0.2 == to);
                assert(s[j].1@ == self.rows_view()[(level, node, to)]);
            }
        }
        let sorted = sort_links(&r);
        proof {
            assert forall|a: int, b: int| 0 <= a < sorted.len() && 0 <= b < sorted.len() && a != b implies sorted@[a].0
                != sorted@[b].0 by {
                if a < b {
                    assert(node_lt(sorted@[a].0, sorted@[b].0));
                } else {
                    assert(node_lt(sorted@[b].0, sorted@[a].0));
                }
            }
            assert forall|a: int| 0 <= a < sorted.len() implies is_neighbour(
                self.rows_view(),
                node,
                level,
                include_deleted,
                #[trigger] sorted@[a].0,
                sorted@[a].1,
            ) by {
                assert(sorted@.contains(sorted@[a]));
                let t = choose|t: int| 0 <= t < r.len() && r@[t] == sorted@[a];
            }
            assert forall|to: NodeKey, d: u64| #[trigger]
                is_neighbour(self.rows_view(), node, level, include_deleted, to, d) implies exists|a: int|
                0 <= a < sorted.len() && sorted@[a].0 == to by {
                let t = choose|t: int| 0 <= t < r.len() && r@[t].0 == to;
                assert(r@.contains(r@[t]));
                assert(sorted@.contains(r@[t]));
                let a = choose|a: int| 0 <= a < sorted.len() && sorted@[a] == r@[t];
            }
        }
        sorted
    }

    /// The rows at `level` that belong to `node` or point at it.
    pub fn rows_touching(&self, node: NodeKey, level: i64) -> (r: Vec<RowKey>)
        requires
            self.wf(),
        ensures
            forall|i: int| 0 <= i < r.len() ==> {
                &&& self.rows_view().dom().contains(#[trigger] r@[i])
                &&& r@[i].0 == level
                &&& (r@[i].1 == node || r@[i].2 == node)
            },
            forall|k: RowKey| #[trigger]
                self.rows_view().dom().contains(k) && k.0 == level && (k.1 == node || k.2 == node)
                    ==> r@.contains(k),
    {
        let ghost s = self.rows.entries@;
        let n: usize = self.rows.entries.len();
        let mut r: Vec<RowKey> = Vec::new();
        let mut i: usize = 0;
        while i < n
            invariant
                s == self.rows.entries@,
                self.wf(),
                n == s.len(),
                i <= n,
                forall|t: int| 0 <= t < r.len() ==> {
                    &&& self.rows_view().dom().contains(#[trigger] r@[t])
                    &&& r@[t].0 == level
                    &&& (r@[t].1 == node || r@[t].2 == node)
                },
                forall|j: int|
                    0 <= j < i && s[j].0.0 == level && (s[j].0.1 == node || s[j].0.2 == node) ==> r@.contains(
                        #[trigger] s[j].0,
                    ),
            decreases n - i,
        {
            let k = self.rows.entries[i].0;
            proof {
                lemma_entry_in_map(s, i as int);
            }
            if k.0 == level && (node_eq(&k.1, &node) || node_eq(&k.2, &node)) {
                let ghost r0 = r@;
                r.push(k);
                proof {
                    assert forall|j: int|
                        0 <= j < i + 1 && s[j].0.0 == level && (s[j].0.1 == node || s[j].0.2 == node) implies r@.contains(
                            #[trigger] s[j].0,
                        ) by {
                        if j < i {
                            let t = choose|t: int| 0 <= t < r0.len() && r0[t] == s[j].0;
                            assert(r@[t] == s[j].0);
                        } else {
                            assert(r@[r.len() - 1] == s[j].0);
                        }
                    }
                }
            }
            i = i + 1;
        }
        proof {
            assert forall|k: RowKey| #[trigger]
                self.rows_view().dom().contains(k) && k.0 == level && (k.1 == node || k.2 == node) implies r@.contains(k) by {
                lemma_map_key_in_entries(s, k);
                let j = index_of(s, k);
                assert(s[j].0 == k);
            }
        }
        r
    }

    /// The nodes of base row `tuple` that own some row at `level`, each once.
    #[verifier::spinoff_prover]
    pub fn owners_at(&self, level: i64, tuple: u64) -> (r: Vec<NodeKey>)
        requires
            self.wf(),
        ensures
            forall|i: int, j: int| 0 <= i < r.len() && 0 <= j < r.len() && i != j ==> r@[i] != r@[j],
            forall|i: int| 0 <= i < r.len() ==> (#[trigger] r@[i]).0 == tuple && exists|to: NodeKey|
                self.rows_view().dom().contains((level, r@[i], to)),
            forall|k: RowKey| #[trigger] self.rows_view().dom().contains(k) && k.0 == level && k.1.0 == tuple
                ==> r@.contains(k.1),
    {
        let ghost s = self.rows.entries@;
        let n: usize = self.rows.entries.len();
        let mut r: Vec<NodeKey> = Vec::new();
        let mut i: usize = 0;
        while i < n
            invariant
                s == self.rows.entries@,
                self.wf(),
                n == s.len(),
                i <= n,
                forall|a: int, b: int| 0 <= a < r.len() && 0 <= b < r.len() && a != b ==> r@[a] != r@[b],
                forall|a: int| 0 <= a < r.len() ==> (#[trigger] r@[a]).0 == tuple && exists|to: NodeKey|
                    self.rows_view().dom().contains((level, r@[a], to)),
                forall|j: int| 0 <= j < i && s[j].0.0 == level && s[j].0.1.0 == tuple ==> r@.contains(
                    #[trigger] s[j].0.1,
                ),
            decreases n - i,
        {
            let k = self.rows.entries[i].0;
            proof {
                lemma_entry_in_map(s, i as int);
            }
            if k.0 == level && k.1.0 == tuple && !crate::key::holds_key(&r, &k.1) {
                let ghost r0 = r@;
                r.push(k.1);
                proof {
                    assert forall|a: int, b: int| 0 <= a < r.len() && 0 <= b < r.len() && a != b implies r@[a] != r@[b] by {
                        if a == r.len() - 1 {
                            if r@[b] == k.1 {
                                assert(r0.contains(k.1));
                            }
                        }
                        if b == r.len() - 1 {
                            if r@[a] == k.1 {
                                assert(r0.contains(k.1));
                            }
                        }
                    }
                    assert forall|j: int| 0 <= j < i + 1 && s[j].0.0 == level && s[j].0.1.0 == tuple implies r@.contains(
                        #[trigger] s[j].0.1,
                    ) by {
                        if j < i {
                            let t = choose|t: int| 0 <= t < r0.len() && r0[t] == s[j].0.1;
                            assert(r@[t] == s[j].0.1);
                        } else {
                            assert(r@[r.len() - 1] == s[j].0.1);
                        }
                    }
                    assert(self.rows_view().dom().contains((level, k.1, k.2)));
                    assert forall|a: int| 0 <= a < r.len() implies (#[trigger] r@[a]).0 == tuple && exists|to: NodeKey|
                        self.rows_view().dom().contains((level, r@[a], to)) by {
                        if a == r.len() - 1 {
                            assert(r@[a] == k.1);
                            assert(self.rows_view().dom().contains((level, r@[a], k.2)));
                        } else {
                            assert(r@[a] == r0[a]);
                        }
                    }
                }
            }
            i = i + 1;
        }
        proof {
            assert forall|k: RowKey| #[trigger] self.rows_view().dom().contains(k) && k.0 == level && k.1.0 == tuple
                implies r@.contains(k.1) by {
                lemma_map_key_in_entries(s, k);
                let j = index_of(s, k);
                assert(s[j].0 == k);
            }
        }
        r
    }

    /// The nodes that some row points at.
    pub closed spec fn link_targets(&self) -> Set<NodeKey> {
        self.rows_view().dom().map(|k: RowKey| k.2)
    }

    /// The nodes that rows point at are finitely many, and every neighbour is one.
    pub proof fn lemma_link_targets(&self)
        requires
            self.wf(),
        ensures
            self.link_targets().finite(),
            forall|c: NodeKey, l: i64, incl: bool, n: NodeKey, d: u64| #[trigger]
                is_neighbour(self.rows_view(), c, l, incl, n, d) ==> self.link_targets().contains(n),
    {
        lemma_entries_len(self.rows.entries@);
        assert(self.rows_view().dom() =~= self.rows@.dom());
        self.rows_view().dom().lemma_map_finite(|k: RowKey| k.2);
        assert forall|c: NodeKey, l: i64, incl: bool, n: NodeKey, d: u64| #[trigger]
            is_neighbour(self.rows_view(), c, l, incl, n, d) implies self.link_targets().contains(n) by {
            assert(self.rows_view().dom().contains((l, c, n)));
        }
    }

    /// The relation has finitely many rows.
    pub proof fn lemma_rows_finite(&self)
        requires
            self.wf(),
        ensures
            self.rows_view().dom().finite(),
    {
        lemma_entries_len(self.rows.entries@);
        assert(self.rows_view().dom() =~= self.rows@.dom());
    }

    /// The least row at a level no higher than `max_level`, if there is one.
    pub fn entry_row(&self, max_level: i64) -> (r: Option<RowKey>)
        requires
            self.wf(),
        ensures
            match r {
                Some(k) => is_entry_row(self.rows_view(), max_level, k),
                None => forall|j: RowKey| #[trigger]
                    self.rows_view().dom().contains(j) ==> j.0 > max_level,
            },
    {
        let ghost s = self.rows.entries@;
        let n: usize = self.rows.entries.len();
        let mut best: Option<RowKey> = None;
        let mut i: usize = 0;
        while i < n
            invariant
                s == self.rows.entries@,
                self.wf(),
                n == s.len(),
                i <= n,
                match best {
                    Some(b) => {
                        &&& self.rows_view().dom().contains(b)
                        &&& b.0 <= max_level
                        &&& forall|j: int| 0 <= j < i && s[j].0.0 <= max_level ==> s[j].0 == b
                            || row_lt(b, #[trigger] s[j].0)
                    },
                    None => forall|j: int| 0 <= j < i ==> #[trigger] s[j].0.0 > max_level,
                },
            decreases n - i,
        {
            let k = self.rows.entries[i].0;
            proof {
                lemma_entry_in_map(s, i as int);
            }
            if k.0 <= max_level {
                match best {
                    Some(b) => {
                        if row_less(&k, &b) {
                            best = Some(k);
                        }
                    },
                    None => {
                        best = Some(k);
                    },
                }
            }
            i = i + 1;
        }
        proof {
            match best {
                Some(b) => {
                    assert forall|j: RowKey| #[trigger]
                        self.rows_view().dom().contains(j) && j.0 <= max_level implies j == b
                        || row_lt(b, j) by {
                        lemma_map_key_in_entries(s, j);
                        let t = index_of(s, j);
                        assert(s[t].0 == j);
                    }
                },
                None => {
                    assert forall|j: RowKey| #[trigger]
                        self.rows_view().dom().contains(j) implies j.0 > max_level by {
                        lemma_map_key_in_entries(s, j);
                        let t = index_of(s, j);
                        assert(s[t].0 == j);
                    }
                },
            }
        }
        best
    }

    /// Writes the own rows of `node`, of degree 0 with `hash`, at every level
    /// from `bottom` to `top`, and points the conflict-detection row at them.
    pub fn put_fresh_at_levels(&mut self, hash: &Vec<u8>, node: NodeKey, bottom: i64, top: i64)
        requires
            old(self).wf(),
        ensures
            final(self).wf(),
            final(self).rows_view() == with_fresh_rows(
                old(self).rows_view(),
                node,
                hash@,
                bottom as int,
                top as int,
            ),
            final(self).canary_view() == Some(
                Canary { level: bottom, target: CanaryTarget::Fresh(node) },
            ),
            final(self).codes_view() == old(self).codes_view(),
            final(self).codebook_view() == old(self).codebook_view(),
    {
        self.canary = Some(Canary { level: bottom, target: CanaryTarget::Fresh(node) });
        assert(self.rows_view() =~= with_fresh_rows(
            old(self).rows_view(),
            node,
            hash@,
            bottom as int,
            bottom - 1,
        ));
        if bottom <= top {
            let mut l: i64 = bottom;
            loop
                invariant_except_break
                    self.rows_view() == with_fresh_rows(
                        old(self).rows_view(),
                        node,
                        hash@,
                        bottom as int,
                        l - 1,
                    ),
                invariant
                    self.wf(),
                    bottom <= l <= top,
                    self.canary_view() == Some(
                        Canary { level: bottom, target: CanaryTarget::Fresh(node) },
                    ),
                    self.codes_view() == old(self).codes_view(),
                    self.codebook_view() == old(self).codebook_view(),
                ensures
                    self.wf(),
                    self.rows_view() == with_fresh_rows(
                        old(self).rows_view(),
                        node,
                        hash@,
                        bottom as int,
                        top as int,
                    ),
                    self.canary_view() == Some(
                        Canary { level: bottom, target: CanaryTarget::Fresh(node) },
                    ),
                    self.codes_view() == old(self).codes_view(),
                    self.codebook_view() == old(self).codebook_view(),
                decreases top - l,
            {
                let h = clone_bytes(hash);
                self.put_row((l, node, node), RowVal::Node { degree: 0, hash: h });
                assert(self.rows_view() =~= with_fresh_rows(
                    old(self).rows_view(),
                    node,
                    hash@,
                    bottom as int,
                    l as int,
                ));
                if l == top {
                    break;
                }
                l = l + 1;
            }
        } else {
            assert(with_fresh_rows(old(self).rows_view(), node, hash@, bottom as int, bottom - 1)
                =~= with_fresh_rows(old(self).rows_view(), node, hash@, bottom as int, top as int));
        }
    }

    /// Points the conflict-detection row at `target`, or deletes it.
    pub fn set_canary(&mut self, c: Option<Canary>)
        requires
            old(self).wf(),
        ensures
            final(self).wf(),
            final(self).rows_view() == old(self).rows_view(),
            final(self).canary_view() == c,
            final(self).codes_view() == old(self).codes_view(),
            final(self).codebook_view() == old(self).codebook_view(),
    {
        self.canary = c;
    }

    /// The conflict-detection row.
    pub fn canary(&self) -> (r: Option<Canary>)
        ensures
            r == self.canary_view(),
    {
        self.canary
    }

    /// Stores the product-quantization codes of a node.
    pub fn store_pq_codes(&mut self, node: NodeKey, codes: &Vec<u8>)
        requires
            old(self).wf(),
        ensures
            final(self).wf(),
            final(self).rows_view() == old(self).rows_view(),
            final(self).canary_view() == old(self).canary_view(),
            final(self).codes_view() == old(self).codes_view().insert(node, codes@),
            final(self).codebook_view() == old(self).codebook_view(),
    {
        let c = clone_bytes(codes);
        self.pq_codes.insert(node, c);
        assert(self.codes_view() =~= old(self).codes_view().insert(node, codes@));
        assert(self.rows_view() =~= old(self).rows_view());
    }

    /// Deletes the product-quantization codes of a node.
    pub fn remove_pq_codes(&mut self, node: &NodeKey)
        requires
            old(self).wf(),
        ensures
            final(self).wf(),
            final(self).rows_view() == old(self).rows_view(),
            final(self).canary_view() == old(self).canary_view(),
            final(self).codes_view() == old(self).codes_view().remove(*node),
            final(self).codebook_view() == old(self).codebook_view(),
    {
        self.pq_codes.remove(node);
        assert(self.codes_view() =~= old(self).codes_view().remove(*node));
        assert(self.rows_view() =~= old(self).rows_view());
    }

    /// The product-quantization codes of a node: empty when none are stored.
    pub fn pq_codes(&self, node: &NodeKey) -> (r: Vec<u8>)
        requires
            self.wf(),
        ensures
            r@ == (if self.codes_view().dom().contains(*node) {
                self.codes_view()[*node]
            } else {
                Seq::<u8>::empty()
            }),
    {
        match self.pq_codes.get(node) {
            Some(c) => clone_bytes(c),
            None => Vec::new(),
        }
    }

    /// Stores the serialized codebook.
    pub fn store_codebook(&mut self, bytes: Vec<u8>)
        requires
            old(self).wf(),
        ensures
            final(self).wf(),
            final(self).rows_view() == old(self).rows_view(),
            final(self).canary_view() == old(self).canary_view(),
            final(self).codes_view() == old(self).codes_view(),
            final(self).codebook_view() == Some(bytes@),
    {
        self.codebook = Some(bytes);
    }

    /// The serialized codebook, if one is stored.
    pub fn codebook(&self) -> (r: Option<Vec<u8>>)
        ensures
            match r {
                Some(b) => self.codebook_view() == Some(b@),
                None => self.codebook_view() is None,
            },
    {
        match &self.codebook {
            Some(b) => Some(clone_bytes(b)),
            None => None,
        }
    }
}

} // verus!
