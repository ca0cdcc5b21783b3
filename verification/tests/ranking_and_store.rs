//! Ranking, the store lifecycle, and the exact-search scenario.

use seli_vector_db::ivf::IVFIndex;
use seli_vector_db::rank::{cosine_inputs_valid, sort_key, top_k, SearchResult};
use seli_vector_db::store::VectorDB;

fn bits_of(v: &[f32]) -> Vec<u32> {
    v.iter().map(|x| x.to_bits()).collect()
}

fn normalized_bits(v: &[f32]) -> Vec<u32> {
    let norm = v.iter().map(|x| x * x).sum::<f32>().sqrt();
    if norm > 0.0 {
        v.iter().map(|x| (x / norm).to_bits()).collect()
    } else {
        bits_of(v)
    }
}

fn dot_bits(a: &[u32], b: &[u32]) -> f32 {
    a.iter()
        .zip(b.iter())
        .map(|(x, y)| f32::from_bits(*x) * f32::from_bits(*y))
        .sum()
}

#[test]
fn sort_key_orders_like_floats() {
    let samples = [-3.5f32, -1.0, -0.25, 0.0, 0.125, 1.0, 2.5, 100.0];
    for i in 0..samples.len() {
        for j in (i + 1)..samples.len() {
            assert!(sort_key(samples[i].to_bits()) < sort_key(samples[j].to_bits()));
        }
    }
}

#[test]
fn top_k_ranks_by_descending_score() {
    let scored = vec![
        SearchResult { id: 0, score_bits: 0.2f32.to_bits() },
        SearchResult { id: 1, score_bits: 0.9f32.to_bits() },
        SearchResult { id: 2, score_bits: 0.5f32.to_bits() },
    ];
    let r = top_k(&scored, 3);
    let ids: Vec<usize> = r.iter().map(|s| s.id).collect();
    assert_eq!(ids, vec![1, 2, 0]);
}

#[test]
fn top_k_breaks_ties_by_ascending_id() {
    let scored = vec![
        SearchResult { id: 2, score_bits: 0.5f32.to_bits() },
        SearchResult { id: 0, score_bits: 0.5f32.to_bits() },
        SearchResult { id: 1, score_bits: 0.7f32.to_bits() },
    ];
    let r = top_k(&scored, 3);
    let ids: Vec<usize> = r.iter().map(|s| s.id).collect();
    assert_eq!(ids, vec![1, 0, 2]);
}

#[test]
fn top_k_truncates_to_k() {
    let scored = vec![
        SearchResult { id: 0, score_bits: 0.2f32.to_bits() },
        SearchResult { id: 1, score_bits: 0.9f32.to_bits() },
        SearchResult { id: 2, score_bits: 0.5f32.to_bits() },
    ];
    assert_eq!(top_k(&scored, 0).len(), 0);
    let two: Vec<usize> = top_k(&scored, 2).iter().map(|s| s.id).collect();
    assert_eq!(two, vec![1, 2]);
    assert_eq!(top_k(&scored, 10).len(), 3);
}

#[test]
fn cosine_inputs_valid_checks_lengths() {
    assert!(cosine_inputs_valid(3, 3));
    assert!(!cosine_inputs_valid(2, 3));
    assert!(!cosine_inputs_valid(0, 0));
}

#[test]
fn new_store_is_empty() {
    let db = VectorDB::new();
    assert_eq!(db.len(), 0);
    assert!(db.is_empty());
    assert!(db.num_clusters().is_none());
}

#[test]
fn add_returns_insertion_order_ids() {
    let mut db = VectorDB::new();
    assert_eq!(db.add(normalized_bits(&[1.0, 0.0])), 0);
    assert_eq!(db.add(normalized_bits(&[0.0, 1.0])), 1);
    assert_eq!(db.add(normalized_bits(&[1.0, 1.0])), 2);
    assert_eq!(db.len(), 3);
    assert!(!db.is_empty());
}

#[test]
fn store_without_index_scans_all_ids() {
    let mut db = VectorDB::new();
    db.add(normalized_bits(&[1.0, 0.0]));
    db.add(normalized_bits(&[0.0, 1.0]));
    db.add(normalized_bits(&[1.0, 1.0]));
    let cands = db.search_candidates(&Vec::new(), 7);
    assert_eq!(cands, vec![0, 1, 2]);
}

#[test]
fn add_after_build_drops_index() {
    let mut db = VectorDB::new();
    db.add(normalized_bits(&[1.0, 0.0]));
    db.add(normalized_bits(&[0.0, 1.0]));
    let centroids = vec![normalized_bits(&[1.0, 0.0]), normalized_bits(&[0.0, 1.0])];
    let ivf = IVFIndex::from_assignment(centroids, vec![0, 1]).unwrap();
    db.install_index(ivf).unwrap();
    assert_eq!(db.num_clusters(), Some(2));
    let id = db.add(normalized_bits(&[1.0, 1.0]));
    assert_eq!(id, 2);
    assert!(db.num_clusters().is_none());
    let cands = db.search_candidates(&Vec::new(), 1);
    assert_eq!(cands, vec![0, 1, 2]);
}

#[test]
fn exact_search_scenario() {
    let mut db = VectorDB::new();
    db.add(normalized_bits(&[1.0, 0.0, 0.0]));
    db.add(normalized_bits(&[0.0, 1.0, 0.0]));
    db.add(normalized_bits(&[0.9, 0.1, 0.05]));
    db.add(normalized_bits(&[-1.0, 0.0, 0.0]));
    db.add(normalized_bits(&[0.5, 0.5, 0.5]));
    let query = normalized_bits(&[0.8, 0.2, 0.1]);
    let cands = db.search_candidates(&Vec::new(), 1);
    let scored: Vec<SearchResult> = cands
        .iter()
        .map(|&id| SearchResult {
            id,
            score_bits: dot_bits(&query, db.vector_at(id)).to_bits(),
        })
        .collect();
    let r = top_k(&scored, 3);
    assert_eq!(r.len(), 3);
    let top_two: Vec<usize> = r[..2].iter().map(|s| s.id).collect();
    assert!(top_two.contains(&0) && top_two.contains(&2));
    let worst = scored
        .iter()
        .min_by(|a, b| {
            f32::from_bits(a.score_bits)
                .partial_cmp(&f32::from_bits(b.score_bits))
                .unwrap()
        })
        .unwrap();
    assert_eq!(worst.id, 3);
}
