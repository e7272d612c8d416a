use docrag::vector::dot;
use docrag::vector::EmbeddingVector;
use docrag::vector::Payload;
use docrag::vector::VectorDB;

fn entry(id: u64, values: Vec<i32>, path: &str, text: &str) -> EmbeddingVector {
    EmbeddingVector {
        id,
        values,
        payload: Payload { source_path: path.to_string(), text: text.to_string() },
    }
}

#[test]
fn dot_product_exact() {
    assert_eq!(dot(&vec![1, 2, 3], &vec![4, 5, 6]), 32);
    assert_eq!(dot(&vec![], &vec![]), 0);
    assert_eq!(dot(&vec![-2, 7], &vec![3, 1]), 1);
    assert_eq!(
        dot(&vec![i32::MAX, i32::MAX], &vec![i32::MAX, i32::MAX]),
        2 * (i32::MAX as i128) * (i32::MAX as i128)
    );
}

#[test]
fn search_on_empty_index_returns_empty() {
    let db = VectorDB::new();
    let hits = db.search(&vec![1, 2], 1);
    assert!(hits.is_empty());
    let hits = db.search(&vec![], 5);
    assert!(hits.is_empty());
}

#[test]
fn upsert_with_repeated_id_overwrites() {
    let mut db = VectorDB::new();
    db.upsert_embedding(entry(7, vec![1, 0], "a.mdx", "old text"));
    db.upsert_embedding(entry(7, vec![0, 1], "b.mdx", "new text"));
    let hits = db.search(&vec![0, 1], 10);
    assert_eq!(hits.len(), 1);
    assert_eq!(hits[0].id, 7);
    assert_eq!(hits[0].payload.source_path, "b.mdx");
    assert_eq!(hits[0].payload.text, "new text");
    assert_eq!(hits[0].score, 1);
}

#[test]
fn search_ranks_by_descending_score() {
    let mut db = VectorDB::new();
    db.upsert_embedding(entry(1, vec![1, 0, 0], "a.mdx", "alpha"));
    db.upsert_embedding(entry(2, vec![0, 1, 0], "b.mdx", "beta"));
    db.upsert_embedding(entry(3, vec![0, 0, 1], "c.mdx", "gamma"));
    let hits = db.search(&vec![2, 5, 3], 3);
    assert_eq!(hits.len(), 3);
    assert_eq!(hits[0].id, 2);
    assert_eq!(hits[0].score, 5);
    assert_eq!(hits[1].id, 3);
    assert_eq!(hits[1].score, 3);
    assert_eq!(hits[2].id, 1);
    assert_eq!(hits[2].score, 2);
}

#[test]
fn search_returns_at_most_top_k() {
    let mut db = VectorDB::new();
    db.upsert_embedding(entry(1, vec![3], "a.mdx", "alpha"));
    db.upsert_embedding(entry(2, vec![9], "b.mdx", "beta"));
    db.upsert_embedding(entry(3, vec![5], "c.mdx", "gamma"));
    let hits = db.search(&vec![1], 2);
    assert_eq!(hits.len(), 2);
    assert_eq!(hits[0].id, 2);
    assert_eq!(hits[1].id, 3);
    let all = db.search(&vec![1], 100);
    assert_eq!(all.len(), 3);
}

#[test]
fn reset_collection_destroys_all_vectors() {
    let mut db = VectorDB::new();
    db.upsert_embedding(entry(1, vec![1], "a.mdx", "alpha"));
    db.reset_collection();
    assert!(db.search(&vec![1], 1).is_empty());
}

#[test]
fn negative_scores_still_rank() {
    let mut db = VectorDB::new();
    db.upsert_embedding(entry(1, vec![-4], "a.mdx", "alpha"));
    db.upsert_embedding(entry(2, vec![-1], "b.mdx", "beta"));
    let hits = db.search(&vec![1], 1);
    assert_eq!(hits.len(), 1);
    assert_eq!(hits[0].id, 2);
    assert_eq!(hits[0].score, -1);
}
