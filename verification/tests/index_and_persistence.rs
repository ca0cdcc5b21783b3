//! Index construction, training decisions, and the persistence round trip.

use seli_vector_db::codec::{decode_store, encode_store};
use seli_vector_db::errors::VectorDBError;
use seli_vector_db::ivf::{closest_centroid, reassign_points, IVFIndex};
use seli_vector_db::rank::{top_k, SearchResult};
use seli_vector_db::store::VectorDB;

fn unit_x() -> Vec<u32> {
    vec![1.0f32.to_bits(), 0.0f32.to_bits()]
}

fn unit_y() -> Vec<u32> {
    vec![0.0f32.to_bits(), 1.0f32.to_bits()]
}

fn two_cluster_index() -> IVFIndex {
    IVFIndex::from_assignment(vec![unit_x(), unit_y()], vec![0, 1, 0, 1]).unwrap()
}

#[test]
fn from_assignment_builds_ascending_partition() {
    let ivf = two_cluster_index();
    assert_eq!(ivf.num_clusters(), 2);
    assert_eq!(ivf.num_points(), 4);
    let first_wins = vec![0.9f32.to_bits(), 0.1f32.to_bits()];
    assert_eq!(ivf.query(&first_wins, 2), vec![0, 2, 1, 3]);
    let second_wins = vec![0.1f32.to_bits(), 0.9f32.to_bits()];
    assert_eq!(ivf.query(&second_wins, 2), vec![1, 3, 0, 2]);
}

#[test]
fn query_probes_only_best_clusters() {
    let ivf = two_cluster_index();
    let scores = vec![0.1f32.to_bits(), 0.9f32.to_bits()];
    assert_eq!(ivf.query(&scores, 1), vec![1, 3]);
}

#[test]
fn query_clamps_nprobe_to_cluster_count() {
    let ivf = two_cluster_index();
    let scores = vec![0.9f32.to_bits(), 0.1f32.to_bits()];
    assert_eq!(ivf.query(&scores, 100), vec![0, 2, 1, 3]);
}

#[test]
fn from_assignment_rejects_unknown_cluster() {
    let r = IVFIndex::from_assignment(vec![unit_x(), unit_y()], vec![0, 2]);
    assert!(matches!(r, Err(VectorDBError::InternalError(_))));
}

#[test]
fn build_fails_on_empty_store() {
    let db = VectorDB::new();
    let r = db.plan_index_build(1, 7);
    assert!(matches!(r, Err(VectorDBError::EmptyDataSet)));
    assert_eq!(db.len(), 0);
}

#[test]
fn build_fails_on_invalid_cluster_count() {
    let mut db = VectorDB::new();
    db.add(unit_x());
    db.add(unit_y());
    assert!(matches!(
        db.plan_index_build(0, 7),
        Err(VectorDBError::InvalidClusterCount)
    ));
    assert!(matches!(
        db.plan_index_build(3, 7),
        Err(VectorDBError::InvalidClusterCount)
    ));
    assert_eq!(db.len(), 2);
    assert!(db.num_clusters().is_none());
}

#[test]
fn plan_samples_distinct_seedable_ids() {
    let mut db = VectorDB::new();
    for _ in 0..10 {
        db.add(unit_x());
    }
    let ids = db.plan_index_build(5, 42).unwrap();
    assert_eq!(ids.len(), 5);
    for &id in &ids {
        assert!(id < 10);
    }
    for i in 0..ids.len() {
        for j in (i + 1)..ids.len() {
            assert_ne!(ids[i], ids[j]);
        }
    }
    let again = db.plan_index_build(5, 42).unwrap();
    assert_eq!(ids, again);
}

#[test]
fn closest_centroid_picks_first_best() {
    let row = vec![0.5f32.to_bits(), 0.9f32.to_bits(), 0.9f32.to_bits()];
    assert_eq!(closest_centroid(&row).unwrap(), 1);
    let empty: Vec<u32> = Vec::new();
    assert!(matches!(
        closest_centroid(&empty),
        Err(VectorDBError::InternalError(_))
    ));
}

#[test]
fn reassign_points_reports_changes() {
    let rows = vec![
        vec![0.9f32.to_bits(), 0.1f32.to_bits()],
        vec![0.2f32.to_bits(), 0.8f32.to_bits()],
    ];
    let mut assignment = vec![0usize, 0];
    let changed = reassign_points(&rows, &mut assignment).unwrap();
    assert!(changed);
    assert_eq!(assignment, vec![0, 1]);
    let changed_again = reassign_points(&rows, &mut assignment).unwrap();
    assert!(!changed_again);
}

#[test]
fn install_rejects_stale_index() {
    let mut db = VectorDB::new();
    db.add(unit_x());
    let ivf = two_cluster_index();
    let r = db.install_index(ivf);
    assert!(matches!(r, Err(VectorDBError::InternalError(_))));
    assert!(db.num_clusters().is_none());
}

#[test]
fn roundtrip_without_index() {
    let mut db = VectorDB::new();
    db.add(unit_x());
    db.add(unit_y());
    let words = encode_store(&db);
    let loaded = decode_store(&words).unwrap();
    assert_eq!(loaded.len(), 2);
    assert!(loaded.num_clusters().is_none());
    assert_eq!(loaded.vector_at(0), db.vector_at(0));
    assert_eq!(loaded.vector_at(1), db.vector_at(1));
    assert_eq!(
        loaded.search_candidates(&Vec::new(), 3),
        db.search_candidates(&Vec::new(), 3)
    );
}

#[test]
fn roundtrip_with_index() {
    let mut db = VectorDB::new();
    db.add(unit_x());
    db.add(unit_y());
    db.add(unit_x());
    db.add(unit_y());
    db.install_index(two_cluster_index()).unwrap();
    let words = encode_store(&db);
    let loaded = decode_store(&words).unwrap();
    assert_eq!(loaded.len(), 4);
    assert_eq!(loaded.num_clusters(), Some(2));
    for id in 0..4 {
        assert_eq!(loaded.vector_at(id), db.vector_at(id));
    }
    let scores = vec![0.9f32.to_bits(), 0.1f32.to_bits()];
    assert_eq!(
        loaded.search_candidates(&scores, 2),
        db.search_candidates(&scores, 2)
    );
}

#[test]
fn exhaustive_probe_matches_brute_force() {
    let vectors = [
        [1.0f32, 0.0],
        [0.0, 1.0],
        [0.95, 0.05],
        [0.1, 0.9],
    ];
    let mut db = VectorDB::new();
    for v in &vectors {
        let norm = (v[0] * v[0] + v[1] * v[1]).sqrt();
        db.add(vec![(v[0] / norm).to_bits(), (v[1] / norm).to_bits()]);
    }
    let centroids = vec![unit_x(), unit_y()];
    db.install_index(IVFIndex::from_assignment(centroids, vec![0, 1, 0, 1]).unwrap()).unwrap();

    let query = [0.7f32, 0.3];
    let score = |id: usize| -> u32 {
        let stored = db.vector_at(id);
        let x = f32::from_bits(stored[0]);
        let y = f32::from_bits(stored[1]);
        (query[0] * x + query[1] * y).to_bits()
    };
    let centroid_scores = vec![
        (query[0] * 1.0 + query[1] * 0.0).to_bits(),
        (query[0] * 0.0 + query[1] * 1.0).to_bits(),
    ];

    let indexed: Vec<SearchResult> = db
        .search_candidates(&centroid_scores, 2)
        .iter()
        .map(|&id| SearchResult { id, score_bits: score(id) })
        .collect();
    let brute: Vec<SearchResult> = (0..4)
        .map(|id| SearchResult { id, score_bits: score(id) })
        .collect();
    for k in 0..=4 {
        let a = top_k(&indexed, k);
        let b = top_k(&brute, k);
        assert_eq!(a.len(), b.len());
        for (x, y) in a.iter().zip(b.iter()) {
            assert_eq!(x.id, y.id);
            assert_eq!(x.score_bits, y.score_bits);
        }
    }
}

#[test]
fn encode_is_deterministic() {
    let mut db = VectorDB::new();
    db.add(unit_x());
    db.install_index(IVFIndex::from_assignment(vec![unit_x()], vec![0]).unwrap()).unwrap();
    assert_eq!(encode_store(&db), encode_store(&db));
}

#[test]
fn decode_rejects_truncated_artifact() {
    let mut db = VectorDB::new();
    db.add(unit_x());
    db.add(unit_y());
    let mut words = encode_store(&db);
    words.pop();
    assert!(matches!(
        decode_store(&words),
        Err(VectorDBError::DecodeError)
    ));
}

#[test]
fn decode_rejects_trailing_garbage() {
    let mut db = VectorDB::new();
    db.add(unit_x());
    let mut words = encode_store(&db);
    words.push(99);
    assert!(matches!(
        decode_store(&words),
        Err(VectorDBError::DecodeError)
    ));
}

#[test]
fn decode_rejects_out_of_range_assignment() {
    let mut db = VectorDB::new();
    db.add(unit_x());
    db.add(unit_y());
    db.install_index(
        IVFIndex::from_assignment(vec![unit_x(), unit_y()], vec![0, 1]).unwrap(),
    ).unwrap();
    let mut words = encode_store(&db);
    let last = words.len() - 1;
    words[last] = 7;
    assert!(matches!(
        decode_store(&words),
        Err(VectorDBError::DecodeError)
    ));
}

#[test]
fn decode_rejects_empty_artifact() {
    let words: Vec<u64> = Vec::new();
    assert!(matches!(
        decode_store(&words),
        Err(VectorDBError::DecodeError)
    ));
}
