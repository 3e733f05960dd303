use cozo_hnsw::error::HnswError;
use cozo_hnsw::index::{
    bumped_degree, bytes_eq, degree_record, extract_vectors, put_tuple, put_vector, remove_tuple,
    remove_vec, repair_node, shrink_neighbour, FieldValue, HnswParams, VectorInput,
};
use cozo_hnsw::key::{float_gt, float_lt, NodeKey, Probe, F32_MAX_KEY, NAN_KEY};
use cozo_hnsw::pq::{check_pq_training, check_samples, encode_vector_pq, select_samples, store_codes};
use priority_queue::PriorityQueue;
use rand::Rng;
use cozo_hnsw::relation::{CanaryTarget, IndexRelation, RowVal};
use cozo_hnsw::search::{knn, search_level, select_neighbours_heuristic};
use std::collections::BTreeMap;

fn node(id: u64) -> NodeKey {
    (id, 0, -1)
}

fn sq(a: (i64, i64), b: (i64, i64)) -> u64 {
    let dx = a.0 - b.0;
    let dy = a.1 - b.1;
    (dx * dx + dy * dy) as u64
}

/// Squared Euclidean distances between integer points; node `i` is point `points[i]`.
fn point_dist<'a>(
    points: &'a [(i64, i64)],
    queries: &'a [(i64, i64)],
) -> impl Fn(Probe, NodeKey) -> Option<u64> + 'a {
    move |p: Probe, k: NodeKey| {
        let b = *points.get(k.0 as usize)?;
        let a = match p {
            Probe::Query(i) => *queries.get(i)?,
            Probe::Node(n) => *points.get(n.0 as usize)?,
        };
        Some(sq(a, b))
    }
}

fn params(m: usize) -> HnswParams {
    HnswParams {
        ef_construction: 20,
        m_max: m,
        m_max0: 2 * m,
        extend_candidates: false,
        keep_pruned_connections: false,
    }
}

fn no_filter(_k: NodeKey) -> Option<bool> {
    Some(true)
}

fn accept_all(_k: NodeKey, _d: u64) -> Option<bool> {
    Some(true)
}

fn edge(dist: u64) -> RowVal {
    RowVal::Edge { dist, deleted: false }
}

fn own(degree: i64) -> RowVal {
    RowVal::Node { degree, hash: vec![1] }
}

/// Builds an index of the given points, every node at the bottom level only.
fn build(points: &[(i64, i64)], m: usize) -> IndexRelation {
    let mut rel = IndexRelation::new();
    let p = params(m);
    for i in 0..points.len() {
        let queries = vec![points[i]];
        let dist = point_dist(points, &queries);
        put_vector(&mut rel, node(i as u64), 0, &vec![i as u8], 0, &None, &p, &dist).unwrap();
    }
    rel
}

#[test]
fn test_random_level() {
    let m = 20;
    let mult = 1. / (m as f64).ln();
    let mut rng = rand::thread_rng();
    let mut collected = BTreeMap::new();
    for _ in 0..10000 {
        let uniform_num: f64 = rng.gen_range(0.0..1.0);
        let r = -uniform_num.ln() * mult;
        // the level is the largest integer smaller than r
        let level = -(r.floor() as i64);
        collected.entry(level).and_modify(|x| *x += 1).or_insert(1);
    }
    println!("{:?}", collected);
}

#[test]
fn test_float_comparisons_treat_nan_as_unordered() {
    assert!(float_lt(1, 2));
    assert!(!float_lt(2, 1));
    assert!(!float_lt(1, NAN_KEY));
    assert!(!float_lt(NAN_KEY, 1));
    assert!(float_gt(3, 2));
    assert!(!float_gt(NAN_KEY, 2));
    assert!(!float_gt(2, NAN_KEY));
}

#[test]
fn test_queue_pops_greatest_priority_first() {
    let mut q = PriorityQueue::new();
    assert_eq!(q.push(node(1), 5), None);
    assert_eq!(q.push(node(2), 9), None);
    assert_eq!(q.push(node(3), 7), None);
    assert_eq!(q.push(node(1), 8), Some(5));
    assert_eq!(q.len(), 3);
    assert_eq!(q.peek().map(|(k, p)| (*k, *p)), Some((node(2), 9)));
    assert_eq!(q.pop(), Some((node(2), 9)));
    assert_eq!(q.pop(), Some((node(1), 8)));
    assert_eq!(q.pop(), Some((node(3), 7)));
    assert_eq!(q.pop(), None);
}

#[test]
fn test_degree_helpers() {
    assert_eq!(bumped_degree(-3), 1);
    assert_eq!(bumped_degree(4), 5);
    assert_eq!(degree_record(7), 7);
    assert_eq!(degree_record(u64::MAX), i64::MAX);
    assert!(bytes_eq(&vec![1, 2], &vec![1, 2]));
    assert!(!bytes_eq(&vec![1, 2], &vec![1, 3]));
    assert!(!bytes_eq(&vec![1], &vec![1, 2]));
}

#[test]
fn test_neighbours_skip_pruned_links_and_same_row() {
    let mut rel = IndexRelation::new();
    let a = node(1);
    rel.put_row((0, a, a), own(3));
    rel.put_row((0, a, node(2)), edge(10));
    rel.put_row((0, a, node(3)), RowVal::Edge { dist: 20, deleted: true });
    rel.put_row((0, a, (1, 1, -1)), edge(30));
    rel.put_row((-1, a, node(4)), edge(40));
    let live = rel.neighbours(a, 0, false);
    assert_eq!(live, vec![(node(2), 10)]);
    let mut all = rel.neighbours(a, 0, true);
    all.sort();
    assert_eq!(all, vec![(node(2), 10), (node(3), 20)]);
    assert_eq!(rel.neighbours(a, -1, false), vec![(node(4), 40)]);
}

#[test]
fn test_entry_row_is_least_row_at_top_level() {
    let mut rel = IndexRelation::new();
    assert_eq!(rel.entry_row(0), None);
    rel.put_row((0, node(1), node(1)), own(0));
    rel.put_row((-2, node(5), node(5)), own(0));
    rel.put_row((-2, node(3), node(7)), edge(1));
    rel.put_row((-2, node(3), node(3)), own(0));
    assert_eq!(rel.entry_row(0), Some((-2, node(3), node(3))));
    assert_eq!(rel.entry_row(-3), None);
}

#[test]
fn test_put_fresh_at_levels_writes_own_rows_and_canary() {
    let mut rel = IndexRelation::new();
    rel.put_fresh_at_levels(&vec![9, 9], node(4), -2, 0);
    for l in -2..=0 {
        match rel.get_row(&(l, node(4), node(4))) {
            Some(RowVal::Node { degree, hash }) => {
                assert_eq!(*degree, 0);
                assert_eq!(hash, &vec![9, 9]);
            }
            _ => panic!("missing own row"),
        }
    }
    assert!(!rel.has_row(&(-3, node(4), node(4))));
    let c = rel.canary().unwrap();
    assert_eq!(c.level, -2);
    assert!(matches!(c.target, CanaryTarget::Fresh(k) if k == node(4)));
}

#[test]
fn test_pq_codes_and_codebook_storage() {
    let mut rel = IndexRelation::new();
    assert!(rel.pq_codes(&node(1)).is_empty());
    rel.store_pq_codes(node(1), &vec![3, 1, 2]);
    assert_eq!(rel.pq_codes(&node(1)), vec![3, 1, 2]);
    rel.remove_pq_codes(&node(1));
    assert!(rel.pq_codes(&node(1)).is_empty());
    assert_eq!(rel.codebook(), None);
    rel.store_codebook(vec![7, 7]);
    assert_eq!(rel.codebook(), Some(vec![7, 7]));
}

/// A path graph 0 - 1 - 2 - 3 - 4 on a line; node i at (10 i, 0).
fn path_graph() -> (IndexRelation, Vec<(i64, i64)>) {
    let points: Vec<(i64, i64)> = (0..5).map(|i| (10 * i, 0)).collect();
    let mut rel = IndexRelation::new();
    for i in 0..5u64 {
        rel.put_row((0, node(i), node(i)), own(0));
    }
    for i in 0..4u64 {
        rel.put_row((0, node(i), node(i + 1)), edge(100));
        rel.put_row((0, node(i + 1), node(i)), edge(100));
    }
    (rel, points)
}

#[test]
fn test_search_level_walks_to_the_nearest_nodes() {
    let (rel, points) = path_graph();
    let queries = vec![(41, 0)];
    let dist = point_dist(&points, &queries);
    let mut found = PriorityQueue::new();
    found.push(node(0), sq((41, 0), points[0]));
    search_level(&rel, Probe::Query(0), 2, 0, &mut found, false, &no_filter, &dist).unwrap();
    assert_eq!(found.len(), 2);
    let mut got = vec![];
    while let Some((k, d)) = found.pop() {
        got.push((k, d));
    }
    assert_eq!(got, vec![(node(3), 121), (node(4), 1)]);
}

#[test]
fn test_search_level_with_filter_keeps_only_accepted_nodes() {
    let (rel, points) = path_graph();
    let queries = vec![(41, 0)];
    let dist = point_dist(&points, &queries);
    let even = |k: NodeKey| Some(k.0 % 2 == 0);
    let mut found = PriorityQueue::new();
    found.push(node(0), sq((41, 0), points[0]));
    search_level(&rel, Probe::Query(0), 2, 0, &mut found, true, &even, &dist).unwrap();
    let mut got = vec![];
    while let Some((k, _)) = found.pop() {
        got.push(k);
    }
    got.sort();
    // the starting node stays; node 2 and node 4 pass the filter, odd nodes never enter
    assert!(got.contains(&node(0)));
    assert!(got.contains(&node(4)));
    assert!(got.iter().all(|k| k.0 % 2 == 0));
}

#[test]
fn test_search_level_reports_missing_distance() {
    let (rel, points) = path_graph();
    let queries = vec![(41, 0)];
    let base = point_dist(&points, &queries);
    let dist = |p: Probe, k: NodeKey| if k.0 == 1 { None } else { base(p, k) };
    let mut found = PriorityQueue::new();
    found.push(node(0), 1681);
    let r = search_level(&rel, Probe::Query(0), 2, 0, &mut found, false, &no_filter, &dist);
    assert_eq!(r, Err(HnswError::DistanceUnavailable(node(1))));
}

#[test]
fn test_select_neighbours_heuristic_prunes_shadowed_candidates() {
    // query at origin; a at (10,0), b at (12,0) is nearer to a than to the query; c at (0,11)
    let points = vec![(10, 0), (12, 0), (0, 11)];
    let queries = vec![(0, 0)];
    let dist = point_dist(&points, &queries);
    let rel = IndexRelation::new();
    let mut found = PriorityQueue::new();
    for i in 0..3u64 {
        found.push(node(i), sq((0, 0), points[i as usize]));
    }
    let sel = select_neighbours_heuristic(&rel, Probe::Query(0), &found, 3, 0, false, false, &dist).unwrap();
    let mut q = sel;
    let mut got = vec![];
    while let Some((k, p)) = q.pop() {
        got.push((k, NAN_KEY - p));
    }
    assert_eq!(got, vec![(node(0), 100), (node(2), 121)]);

    let kept = select_neighbours_heuristic(&rel, Probe::Query(0), &found, 3, 0, false, true, &dist).unwrap();
    assert_eq!(kept.len(), 3);
    let capped = select_neighbours_heuristic(&rel, Probe::Query(0), &found, 1, 0, false, true, &dist).unwrap();
    assert_eq!(capped.len(), 1);
    assert_eq!(capped.peek().map(|(k, p)| (*k, *p)), Some((node(0), NAN_KEY - 100)));
}

#[test]
fn test_select_neighbours_heuristic_extends_with_neighbours() {
    let (rel, points) = path_graph();
    let queries = vec![(25, 0)];
    let dist = point_dist(&points, &queries);
    let mut found = PriorityQueue::new();
    found.push(node(2), 25);
    let plain = select_neighbours_heuristic(&rel, Probe::Query(0), &found, 4, 0, false, true, &dist).unwrap();
    assert_eq!(plain.len(), 1);
    let ext = select_neighbours_heuristic(&rel, Probe::Query(0), &found, 4, 0, true, true, &dist).unwrap();
    // node 2 and its neighbours 1 and 3
    assert_eq!(ext.len(), 3);
}

#[test]
fn test_shrink_neighbour_marks_pruned_links() {
    let (mut rel, points) = path_graph();
    // give node 2 extra links to 0 and 4
    rel.put_row((0, node(2), node(0)), edge(400));
    rel.put_row((0, node(2), node(4)), edge(400));
    let queries: Vec<(i64, i64)> = vec![];
    let dist = point_dist(&points, &queries);
    let n = shrink_neighbour(&mut rel, node(2), 2, 0, &params(2), &dist).unwrap();
    assert_eq!(n, 2);
    let live = rel.neighbours(node(2), 0, false);
    let mut live_keys: Vec<NodeKey> = live.iter().map(|x| x.0).collect();
    live_keys.sort();
    assert_eq!(live_keys, vec![node(1), node(3)]);
    assert!(matches!(rel.get_row(&(0, node(2), node(0))), Some(RowVal::Edge { deleted: true, dist: 400 })));
    assert!(matches!(rel.get_row(&(0, node(2), node(4))), Some(RowVal::Edge { deleted: true, dist: 400 })));
}

#[test]
fn test_first_vector_goes_alone_at_its_levels() {
    let points = vec![(0, 0)];
    let queries = vec![(0, 0)];
    let dist = point_dist(&points, &queries);
    let mut rel = IndexRelation::new();
    put_vector(&mut rel, node(0), 0, &vec![5], -2, &Some(vec![1, 2]), &params(4), &dist).unwrap();
    for l in -2..=0 {
        assert!(matches!(rel.get_row(&(l, node(0), node(0))), Some(RowVal::Node { degree: 0, .. })));
    }
    assert!(rel.neighbours(node(0), 0, true).is_empty());
    assert_eq!(rel.canary().unwrap().level, -2);
    assert_eq!(rel.pq_codes(&node(0)), vec![1, 2]);
}

#[test]
fn test_put_links_both_ways_and_reput_with_same_hash_is_noop() {
    let points = vec![(0, 0), (3, 4)];
    let mut rel = IndexRelation::new();
    let p = params(4);
    for i in 0..2usize {
        let queries = vec![points[i]];
        let dist = point_dist(&points, &queries);
        put_vector(&mut rel, node(i as u64), 0, &vec![i as u8], 0, &None, &p, &dist).unwrap();
    }
    assert!(matches!(rel.get_row(&(0, node(1), node(0))), Some(RowVal::Edge { dist: 25, deleted: false })));
    assert!(matches!(rel.get_row(&(0, node(0), node(1))), Some(RowVal::Edge { dist: 25, deleted: false })));
    assert!(matches!(rel.get_row(&(0, node(0), node(0))), Some(RowVal::Node { degree: 1, .. })));
    assert!(matches!(rel.get_row(&(0, node(1), node(1))), Some(RowVal::Node { degree: 1, .. })));
    // putting node 1 again with the same hash changes nothing, even with a broken distance
    let broken = |_p: Probe, _k: NodeKey| None;
    put_vector(&mut rel, node(1), 0, &vec![1u8], 0, &Some(vec![9]), &p, &broken).unwrap();
    assert!(rel.pq_codes(&node(1)).is_empty());
    // with another hash the node is removed and inserted again
    let queries = vec![points[1]];
    let dist = point_dist(&points, &queries);
    put_vector(&mut rel, node(1), 0, &vec![42u8], 0, &None, &p, &dist).unwrap();
    match rel.get_row(&(0, node(1), node(1))) {
        Some(RowVal::Node { hash, .. }) => assert_eq!(hash, &vec![42u8]),
        _ => panic!("missing own row"),
    }
}

#[test]
fn test_knn_finds_nearest_in_order() {
    let points: Vec<(i64, i64)> = (0..12).map(|i| ((i * 7) % 13, (i * 5) % 11)).collect();
    let rel = build(&points, 4);
    let q = (6, 6);
    let queries = vec![q];
    let dist = point_dist(&points, &queries);
    let res = knn(&rel, 3, 20, None, false, &no_filter, &accept_all, &dist, &dist).unwrap();
    let mut expected: Vec<(NodeKey, u64)> = (0..12u64).map(|i| (node(i), sq(q, points[i as usize]))).collect();
    expected.sort_by_key(|x| (x.1, x.0));
    let got_d: Vec<u64> = res.iter().map(|x| x.1).collect();
    let exp_d: Vec<u64> = expected.iter().take(3).map(|x| x.1).collect();
    assert_eq!(got_d, exp_d);
}

#[test]
fn test_knn_radius_and_result_filter() {
    let points: Vec<(i64, i64)> = (0..8).map(|i| (i, 0)).collect();
    let rel = build(&points, 4);
    let queries = vec![(0, 0)];
    let dist = point_dist(&points, &queries);
    let res = knn(&rel, 8, 20, Some(4), false, &no_filter, &accept_all, &dist, &dist).unwrap();
    assert_eq!(res.iter().map(|x| x.1).collect::<Vec<_>>(), vec![0, 1, 4]);
    let odd = |k: NodeKey| Some(k.0 % 2 == 1);
    let odd_post = |k: NodeKey, _d: u64| Some(k.0 % 2 == 1);
    let res = knn(&rel, 2, 10, None, true, &odd, &odd_post, &dist, &dist).unwrap();
    assert_eq!(res, vec![(node(1), 1), (node(3), 9)]);
    let failing_post = |_k: NodeKey, _d: u64| None;
    let r = knn(&rel, 2, 10, None, false, &no_filter, &failing_post, &dist, &dist);
    assert!(matches!(r, Err(HnswError::ResultFailed(_))));
}

#[test]
fn test_knn_on_empty_index_returns_nothing() {
    let rel = IndexRelation::new();
    let dist = |_p: Probe, _k: NodeKey| Some(0u64);
    assert_eq!(knn(&rel, 5, 10, None, false, &no_filter, &accept_all, &dist, &dist).unwrap(), vec![]);
}

#[test]
fn test_remove_vec_unlinks_and_removes_codes() {
    let points: Vec<(i64, i64)> = (0..6).map(|i| (i * 3, i)).collect();
    let mut rel = build(&points, 3);
    rel.store_pq_codes(node(2), &vec![1]);
    let queries: Vec<(i64, i64)> = vec![];
    let dist = point_dist(&points, &queries);
    remove_vec(&mut rel, node(2), &params(3), &dist).unwrap();
    assert!(!rel.has_row(&(0, node(2), node(2))));
    assert!(rel.neighbours(node(2), 0, true).is_empty());
    assert!(rel.pq_codes(&node(2)).is_empty());
    for i in [0u64, 1, 3, 4, 5] {
        assert!(rel.has_row(&(0, node(i), node(i))));
        assert!(!rel.has_row(&(0, node(i), node(2))));
    }
    // removing the last nodes leaves an empty graph; knn finds nothing
    for i in [0u64, 1, 3, 4, 5] {
        remove_vec(&mut rel, node(i), &params(3), &dist).unwrap();
    }
    assert_eq!(rel.entry_row(1), None);
    let q = vec![(0, 0)];
    let d2 = point_dist(&points, &q);
    assert_eq!(knn(&rel, 3, 10, None, false, &no_filter, &accept_all, &d2, &d2).unwrap(), vec![]);
}

#[test]
fn test_repair_node_reconnects_isolated_node() {
    let (mut rel, points) = path_graph();
    // cut node 0 from node 1, leaving node 0 without live links
    rel.put_row((0, node(0), node(1)), RowVal::Edge { dist: 100, deleted: true });
    let queries: Vec<(i64, i64)> = vec![];
    let dist = point_dist(&points, &queries);
    // node 1 has one live link (to 2) plus the one back to 0: below threshold of m_max0 = 4 / 2
    repair_node(&mut rel, node(1), 0, &params(2), &dist).unwrap();
    // node 1's second hop (node 3) is now linked
    assert!(matches!(rel.get_row(&(0, node(1), node(3))), Some(RowVal::Edge { deleted: false, .. })) ||
        rel.neighbours(node(1), 0, false).len() >= 2);
    // a node with enough links is left alone
    let before = rel.neighbours(node(2), 0, true);
    repair_node(&mut rel, node(2), 0, &params(1), &dist).unwrap();
    assert_eq!(rel.neighbours(node(2), 0, true), before);
}

#[test]
fn test_put_tuple_and_remove_tuple() {
    let points = vec![(0, 0), (1, 1), (5, 5)];
    let mut rel = build(&points, 3);
    let queries = vec![(2, 2)];
    let dist = point_dist(&points, &queries);
    let p = params(3);
    // a rejected row is removed from the index
    assert_eq!(put_tuple(&mut rel, 1, false, &vec![], &p, &dist), Ok(false));
    assert!(!rel.has_row(&(0, node(1), node(1))));
    // a row without vectors changes nothing
    assert_eq!(put_tuple(&mut rel, 7, true, &vec![], &p, &dist), Ok(false));
    // a row with a vector is indexed
    let pts2 = vec![(0, 0), (2, 2), (5, 5)];
    let d2 = point_dist(&pts2, &queries);
    let v = VectorInput { field: 0, sub: -1, hash: vec![3], level: 0, codes: None };
    assert_eq!(put_tuple(&mut rel, 1, true, &vec![v], &p, &d2), Ok(true));
    assert!(rel.has_row(&(0, node(1), node(1))));
    remove_tuple(&mut rel, 1, &p, &d2).unwrap();
    assert!(!rel.has_row(&(0, node(1), node(1))));
}

#[test]
fn test_extract_vectors() {
    let fields = vec![
        FieldValue::Other,
        FieldValue::Vector,
        FieldValue::List(vec![true, false, true]),
    ];
    assert_eq!(extract_vectors(&fields, &vec![1, 2, 0]), Ok(vec![(1, -1), (2, 0), (2, 2)]));
    assert_eq!(extract_vectors(&fields, &vec![0]), Ok(vec![]));
    assert_eq!(extract_vectors(&fields, &vec![1, 3]), Err(HnswError::RowTooShort));
}

#[test]
fn test_encode_vector_pq() {
    // 2 subspaces, 3 centroids: distance table by (m, c)
    let table = [[5u64, 2, 2], [1, 7, 0]];
    let sub_dist = |m: usize, c: usize| table[m][c];
    assert_eq!(encode_vector_pq(true, 4, true, 2, 2, 3, &sub_dist), Ok(vec![1, 2]));
    assert_eq!(encode_vector_pq(false, 4, true, 2, 2, 3, &sub_dist), Err(HnswError::NotF32));
    assert_eq!(
        encode_vector_pq(true, 5, true, 2, 2, 3, &sub_dist),
        Err(HnswError::DimensionMismatch { len: 5, dim: 4 })
    );
    assert_eq!(encode_vector_pq(true, 4, false, 2, 2, 3, &sub_dist), Err(HnswError::NotContiguous));
    // distances at or above the largest single float, and NaN, keep centroid 0
    let far = |_m: usize, c: usize| if c == 0 { NAN_KEY } else { F32_MAX_KEY };
    assert_eq!(encode_vector_pq(true, 2, true, 1, 2, 4, &far), Ok(vec![0]));
    // more than 256 centroids: the index is cut to a byte
    let at_300 = |_m: usize, c: usize| if c == 300 { 0 } else { 10 };
    assert_eq!(encode_vector_pq(true, 1, true, 1, 1, 301, &at_300), Ok(vec![(300 % 256) as u8]));
}

#[test]
fn test_pq_training_checks() {
    assert_eq!(check_pq_training(true, 8, 2, 4), Ok(4));
    assert_eq!(check_pq_training(false, 8, 2, 4), Err(HnswError::NotF32));
    assert_eq!(
        check_pq_training(true, 9, 2, 4),
        Err(HnswError::NotDivisible { dim: 9, num_subspaces: 2 })
    );
    assert_eq!(check_pq_training(true, 8, 2, 0), Err(HnswError::NoCentroids));
    assert_eq!(check_pq_training(true, 8, 0, 4), Err(HnswError::NoSubspaces));
    assert_eq!(check_pq_training(false, 8, 0, 4), Err(HnswError::NotF32));
    assert_eq!(check_samples(0, 1), Err(HnswError::NoSamples));
    assert_eq!(check_samples(3, 4), Err(HnswError::TooFewSamples { needed: 4, got: 3 }));
    assert_eq!(check_samples(4, 4), Ok(()));
}

#[test]
fn test_select_samples_keeps_distinct_samples() {
    let mut v: Vec<u32> = (0..50).collect();
    select_samples(&mut v, 10);
    assert_eq!(v.len(), 10);
    let mut s = v.clone();
    s.sort();
    s.dedup();
    assert_eq!(s.len(), 10);
    assert!(v.iter().all(|x| *x < 50));
    let mut w: Vec<u32> = vec![4, 5, 6];
    select_samples(&mut w, 10);
    assert_eq!(w, vec![4, 5, 6]);
}

#[test]
fn test_other_rows_stay_indexed() {
    let points = vec![(0, 0), (3, 4), (6, 8)];
    let p = params(4);
    let mut rel = IndexRelation::new();
    for id in 0..3u64 {
        let queries = vec![points[id as usize]];
        let dist = point_dist(&points, &queries);
        let v = VectorInput { field: 0, sub: -1, hash: vec![id as u8 + 10], level: 0, codes: None };
        assert_eq!(put_tuple(&mut rel, id, true, &vec![v], &p, &dist), Ok(true));
    }
    let no_queries: Vec<(i64, i64)> = vec![];
    let dist = point_dist(&points, &no_queries);
    remove_tuple(&mut rel, 1, &p, &dist).unwrap();
    for id in [0u64, 2] {
        match rel.get_row(&(0, (id, 0, -1), (id, 0, -1))) {
            Some(RowVal::Node { hash, .. }) => assert_eq!(hash, &vec![id as u8 + 10]),
            _ => panic!("vector of row {} lost", id),
        }
    }
    assert!(!rel.has_row(&(0, (1, 0, -1), (1, 0, -1))));
}

#[test]
fn test_put_tuple_indexes_every_vector_of_the_row() {
    let points = vec![(0, 0), (1, 0), (5, 5)];
    let p = params(4);
    let mut rel = IndexRelation::new();
    // base row 0 holds a vector in field 0 and a list of two vectors in field 1
    let queries = vec![(0, 0), (1, 0), (5, 5)];
    let dist = |pr: Probe, k: NodeKey| -> Option<u64> {
        let idx = |n: NodeKey| if n.2 < 0 { 0usize } else { 1 + n.2 as usize };
        let a = match pr {
            Probe::Query(i) => *queries.get(i)?,
            Probe::Node(n) => points[idx(n)],
        };
        Some(sq(a, points[idx(k)]))
    };
    let inputs = vec![
        VectorInput { field: 0, sub: -1, hash: vec![1], level: 0, codes: None },
        VectorInput { field: 1, sub: 0, hash: vec![2], level: 0, codes: Some(vec![7]) },
        VectorInput { field: 1, sub: 1, hash: vec![3], level: -1, codes: None },
    ];
    assert_eq!(put_tuple(&mut rel, 0, true, &inputs, &p, &dist), Ok(true));
    for v in &inputs {
        let n = (0u64, v.field, v.sub);
        match rel.get_row(&(0, n, n)) {
            Some(RowVal::Node { hash, .. }) => assert_eq!(hash, &v.hash),
            _ => panic!("vector {:?} not indexed", n),
        }
    }
    assert_eq!(rel.pq_codes(&(0, 1, 0)), vec![7]);
    // the vector drawn at level -1 is the entry point there
    assert!(rel.has_row(&(-1, (0, 1, 1), (0, 1, 1))));
    let c = rel.canary().unwrap();
    assert_eq!(c.level, -1);
    assert!(matches!(c.target, CanaryTarget::Fresh(k) if k == (0, 1, 1)));
    // at the bottom level it is linked to the entry point, the only node the
    // search reaches (scans pass over links within one base row)
    assert!(matches!(rel.get_row(&(0, (0, 1, 1), (0, 0, -1))), Some(RowVal::Edge { deleted: false, dist: 50 })));
}

#[test]
fn test_select_samples_draws_at_random() {
    let prefix: Vec<u32> = (0..10).collect();
    let mut differs = false;
    for _ in 0..20 {
        let mut v: Vec<u32> = (0..50).collect();
        select_samples(&mut v, 10);
        if v != prefix {
            differs = true;
        }
    }
    assert!(differs);
}

#[test]
fn test_remove_vec_deletes_every_link_into_the_node() {
    let mut rel = IndexRelation::new();
    let a = node(1);
    let a2: NodeKey = (1, 1, -1);
    let b = node(2);
    let c = node(3);
    rel.put_row((0, a, a), own(1));
    rel.put_row((0, a, b), edge(5));
    rel.put_row((0, b, b), own(1));
    rel.put_row((0, b, a), edge(5));
    // a link into `a` from a node that `a` does not link to
    rel.put_row((0, c, c), own(1));
    rel.put_row((0, c, a), edge(7));
    // links between `a` and another vector of its own base row
    rel.put_row((0, a2, a2), own(0));
    rel.put_row((0, a2, a), edge(2));
    rel.put_row((0, a, a2), edge(2));
    let dist = |_p: Probe, _k: NodeKey| Some(1u64);
    remove_vec(&mut rel, a, &params(3), &dist).unwrap();
    for k in [(0, a, a), (0, a, b), (0, b, a), (0, c, a), (0, a2, a), (0, a, a2)] {
        assert!(!rel.has_row(&k));
    }
    assert!(rel.has_row(&(0, b, b)));
    assert!(rel.has_row(&(0, c, c)));
    assert!(rel.has_row(&(0, a2, a2)));
}

#[test]
fn test_removing_an_absent_vector_changes_nothing() {
    let points: Vec<(i64, i64)> = (0..4).map(|i| (i * 2, i)).collect();
    let mut rel = build(&points, 2);
    let queries: Vec<(i64, i64)> = vec![];
    let dist = point_dist(&points, &queries);
    let before: Vec<Vec<(NodeKey, u64)>> = (0..4u64).map(|i| rel.neighbours(node(i), 0, true)).collect();
    let canary = rel.canary().map(|c| c.level);
    assert_eq!(remove_vec(&mut rel, node(9), &params(2), &dist), Ok(()));
    assert_eq!(remove_tuple(&mut rel, 9, &params(2), &dist), Ok(()));
    let after: Vec<Vec<(NodeKey, u64)>> = (0..4u64).map(|i| rel.neighbours(node(i), 0, true)).collect();
    assert_eq!(before, after);
    assert_eq!(rel.canary().map(|c| c.level), canary);
}

#[test]
fn test_removal_reports_damaged_neighbours() {
    let dist = |_p: Probe, _k: NodeKey| Some(1u64);
    // the neighbour has no own row
    let mut rel = IndexRelation::new();
    rel.put_row((0, node(1), node(1)), own(1));
    rel.put_row((0, node(1), node(2)), edge(3));
    assert_eq!(remove_vec(&mut rel, node(1), &params(3), &dist), Err(HnswError::IndexedVectorNotFound(node(2))));
    // the neighbour's own row holds a link value
    let mut rel = IndexRelation::new();
    rel.put_row((0, node(1), node(1)), own(1));
    rel.put_row((0, node(1), node(2)), edge(3));
    rel.put_row((0, node(2), node(2)), edge(0));
    assert_eq!(remove_tuple(&mut rel, 1, &params(3), &dist), Err(HnswError::InvalidDegree(node(2))));
}

#[test]
fn test_put_reports_a_linked_node_without_own_row() {
    let points = vec![(0, 0), (1, 0), (2, 0)];
    let mut rel = IndexRelation::new();
    rel.put_row((0, node(0), node(0)), own(1));
    rel.put_row((0, node(0), node(1)), edge(1));
    let queries = vec![(2, 0)];
    let dist = point_dist(&points, &queries);
    assert_eq!(
        put_vector(&mut rel, node(2), 0, &vec![2], 0, &None, &params(3), &dist),
        Err(HnswError::IndexedVectorNotFound(node(1)))
    );
}

#[test]
fn test_kept_pruned_candidates_come_after_the_heuristic_picks() {
    // a at (10,0) and c at (0,11) are taken; b at (12,0), nearer than c to the
    // query but shadowed by a, only fills a place left over
    let points = vec![(10, 0), (12, 0), (0, 11)];
    let queries = vec![(0, 0)];
    let dist = point_dist(&points, &queries);
    let rel = IndexRelation::new();
    let mut found = PriorityQueue::new();
    for i in 0..3u64 {
        found.push(node(i), sq((0, 0), points[i as usize]));
    }
    let mut two = select_neighbours_heuristic(&rel, Probe::Query(0), &found, 2, 0, false, true, &dist).unwrap();
    let mut got = vec![];
    while let Some((k, _)) = two.pop() {
        got.push(k);
    }
    assert_eq!(got, vec![node(0), node(2)]);
    let three = select_neighbours_heuristic(&rel, Probe::Query(0), &found, 3, 0, false, true, &dist).unwrap();
    assert!(three.get(&node(1)).is_some());
}

#[test]
fn test_removing_the_last_vector_empties_the_graph() {
    let points = vec![(0, 0)];
    let queries = vec![(0, 0)];
    let dist = point_dist(&points, &queries);
    let mut rel = IndexRelation::new();
    put_vector(&mut rel, node(0), 0, &vec![1], -2, &None, &params(2), &dist).unwrap();
    assert!(rel.has_row(&(-2, node(0), node(0))));
    remove_vec(&mut rel, node(0), &params(2), &dist).unwrap();
    for l in -2..=0 {
        assert!(!rel.has_row(&(l, node(0), node(0))));
    }
    assert_eq!(rel.entry_row(1), None);
    assert_eq!(knn(&rel, 3, 10, None, false, &no_filter, &accept_all, &dist, &dist).unwrap(), vec![]);
}

#[test]
fn test_remove_tuple_leaves_no_link_into_its_vectors() {
    let points = vec![(0, 0), (1, 1), (2, 2), (3, 3)];
    let mut rel = build(&points, 2);
    let queries: Vec<(i64, i64)> = vec![];
    let dist = point_dist(&points, &queries);
    remove_tuple(&mut rel, 1, &params(2), &dist).unwrap();
    for i in 0..4u64 {
        assert!(!rel.has_row(&(0, node(i), node(1))));
        assert!(!rel.has_row(&(0, node(1), node(i))));
    }
}

#[test]
fn test_remove_tuple_clears_every_level_of_its_vectors() {
    let points = vec![(0, 0), (1, 1), (2, 2)];
    let mut rel = IndexRelation::new();
    for i in 0..3u64 {
        let queries = vec![points[i as usize]];
        let dist = point_dist(&points, &queries);
        put_vector(&mut rel, node(i), 0, &vec![i as u8], -1, &None, &params(2), &dist).unwrap();
    }
    assert!(rel.has_row(&(-1, node(1), node(1))));
    assert!(!rel.neighbours(node(1), -1, false).is_empty());
    let queries: Vec<(i64, i64)> = vec![];
    let dist = point_dist(&points, &queries);
    remove_tuple(&mut rel, 1, &params(2), &dist).unwrap();
    for l in [-1i64, 0] {
        for i in 0..3u64 {
            assert!(!rel.has_row(&(l, node(i), node(1))));
            assert!(!rel.has_row(&(l, node(1), node(i))));
        }
    }
}

#[test]
fn test_degrees_stay_within_the_link_limit() {
    let points: Vec<(i64, i64)> = (0..8).map(|i| (i % 3, i / 3)).collect();
    let mut rel = build(&points, 1);
    let queries: Vec<(i64, i64)> = vec![];
    let dist = point_dist(&points, &queries);
    let check = |rel: &IndexRelation| {
        for i in 0..8u64 {
            if let Some(RowVal::Node { degree, .. }) = rel.get_row(&(0, node(i), node(i))) {
                assert!(*degree <= 2);
            }
        }
    };
    check(&rel);
    remove_vec(&mut rel, node(4), &params(1), &dist).unwrap();
    check(&rel);
    repair_node(&mut rel, node(3), 0, &params(1), &dist).unwrap();
    check(&rel);
}

fn params_extended(m: usize) -> HnswParams {
    HnswParams { extend_candidates: true, ..params(m) }
}

#[test]
fn test_extended_candidates_repair_keeps_the_own_row() {
    let (mut rel, points) = path_graph();
    // node 1 keeps one live link (to node 2); its extended pool holds node 1 itself
    rel.put_row((0, node(1), node(0)), RowVal::Edge { dist: 100, deleted: true });
    let queries: Vec<(i64, i64)> = vec![];
    let dist = point_dist(&points, &queries);
    assert_eq!(repair_node(&mut rel, node(1), 0, &params_extended(2), &dist), Ok(()));
    assert!(matches!(rel.get_row(&(0, node(1), node(1))), Some(RowVal::Node { hash, .. }) if *hash == vec![1u8]));
    assert!(!rel.neighbours(node(1), 0, true).iter().any(|(k, _)| *k == node(1)));
}

#[test]
fn test_extended_candidates_insert_and_remove() {
    let points: Vec<(i64, i64)> = (0..6).map(|i| (i * 2, i % 2)).collect();
    let mut rel = IndexRelation::new();
    let p = params_extended(2);
    for i in 0..6u64 {
        let queries = vec![points[i as usize]];
        let dist = point_dist(&points, &queries);
        let v = VectorInput { field: 0, sub: -1, hash: vec![i as u8], level: 0, codes: None };
        assert_eq!(put_tuple(&mut rel, i, true, &vec![v], &p, &dist), Ok(true));
    }
    let queries: Vec<(i64, i64)> = vec![];
    let dist = point_dist(&points, &queries);
    assert_eq!(remove_vec(&mut rel, node(2), &p, &dist), Ok(()));
    assert_eq!(remove_tuple(&mut rel, 3, &p, &dist), Ok(()));
    for i in [0u64, 1, 4, 5] {
        assert!(matches!(rel.get_row(&(0, node(i), node(i))), Some(RowVal::Node { .. })));
    }
}

#[test]
fn test_reput_with_another_hash_takes_the_new_levels() {
    let points = vec![(0, 0), (1, 0), (2, 0)];
    let mut rel = IndexRelation::new();
    for i in 0..3u64 {
        let queries = vec![points[i as usize]];
        let dist = point_dist(&points, &queries);
        put_vector(&mut rel, node(i), 0, &vec![i as u8], -2, &None, &params(2), &dist).unwrap();
    }
    let queries = vec![points[1]];
    let dist = point_dist(&points, &queries);
    put_vector(&mut rel, node(1), 0, &vec![9], 0, &None, &params(2), &dist).unwrap();
    assert!(matches!(rel.get_row(&(0, node(1), node(1))), Some(RowVal::Node { hash, .. }) if *hash == vec![9u8]));
    assert!(!rel.has_row(&(-1, node(1), node(1))));
    assert!(!rel.has_row(&(-2, node(1), node(1))));
}

#[test]
fn test_store_codes_in_turn_and_stop_at_a_failure() {
    let mut rel = IndexRelation::new();
    let keys = vec![node(1), node(2), node(3)];
    let encode = |k: NodeKey| -> Option<Result<Vec<u8>, HnswError>> {
        if k == node(2) { None } else { Some(Ok(vec![k.0 as u8])) }
    };
    assert_eq!(store_codes(&mut rel, &keys, &encode), Ok(()));
    assert_eq!(rel.pq_codes(&node(1)), vec![1]);
    assert!(rel.pq_codes(&node(2)).is_empty());
    assert_eq!(rel.pq_codes(&node(3)), vec![3]);
    let failing = |k: NodeKey| -> Option<Result<Vec<u8>, HnswError>> {
        if k == node(2) { Some(Err(HnswError::NotF32)) } else { Some(Ok(vec![7])) }
    };
    let mut rel2 = IndexRelation::new();
    assert_eq!(store_codes(&mut rel2, &keys, &failing), Err(HnswError::NotF32));
    assert_eq!(rel2.pq_codes(&node(1)), vec![7]);
    assert!(rel2.pq_codes(&node(3)).is_empty());
}

#[test]
fn test_knn_measures_the_entry_point_with_its_own_distance() {
    let points = vec![(0, 0)];
    let queries = vec![(0, 0)];
    let d = point_dist(&points, &queries);
    let mut rel = IndexRelation::new();
    put_vector(&mut rel, node(0), 0, &vec![1], 0, &None, &params(2), &d).unwrap();
    let approx = |_p: Probe, _k: NodeKey| Some(100u64);
    let exact = |_p: Probe, _k: NodeKey| Some(5u64);
    let res = knn(&rel, 1, 10, None, false, &no_filter, &accept_all, &approx, &exact).unwrap();
    assert_eq!(res, vec![(node(0), 5)]);
}

#[test]
fn test_encoding_picks_each_strictly_nearest_centroid() {
    let codes_back = [2usize, 0];
    let sub_dist = |m: usize, c: usize| -> u64 { if c == codes_back[m] { 0 } else { 10 } };
    assert_eq!(encode_vector_pq(true, 4, true, 2, 2, 3, &sub_dist), Ok(vec![2u8, 0]));
}

#[test]
fn test_search_with_room_for_every_reachable_node_keeps_them_all() {
    let (mut rel, points) = path_graph();
    // node 4 is cut off: nothing links to it any more
    rel.put_row((0, node(3), node(4)), RowVal::Edge { dist: 100, deleted: true });
    let queries = vec![(0, 0)];
    let dist = point_dist(&points, &queries);
    let mut found = PriorityQueue::new();
    found.push(node(0), 0);
    search_level(&rel, Probe::Query(0), 10, 0, &mut found, false, &no_filter, &dist).unwrap();
    for i in 0..4u64 {
        assert!(found.get(&node(i)).is_some());
    }
    assert!(found.get(&node(4)).is_none());
}
