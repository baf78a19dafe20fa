use contextd::search::{
    cache_eligible, cache_store, cached_lookup, fts_search, rrf_fuse, vector_rank, QueryCache,
    ScoredChunk, SearchOptions, SearchResult, MICRO,
};
use contextd::store::Database;

fn scored(id: u64, score: i64, path: &str, ftype: &str, lm: u64) -> ScoredChunk {
    ScoredChunk {
        chunk_id: id,
        content: format!("chunk {}", id),
        score,
        file_path: path.to_string(),
        file_type: ftype.to_string(),
        last_modified: lm,
    }
}

fn result(id: u64, score: i64) -> SearchResult {
    SearchResult {
        chunk_id: id,
        content: format!("r {}", id),
        score,
        file_path: String::new(),
        file_type: String::new(),
        last_modified: 0,
    }
}

#[test]
fn test_recency_ordering() {
    // two chunks with the identical unit-vector cosine; the fresher file
    // must come back first, with a strictly higher score
    let now: u64 = 1_700_000_000;
    let old_lm = now - 7 * 86_400;
    let cands = vec![
        scored(1, MICRO, "/old.rs", "rs", old_lm),
        scored(2, MICRO, "/new.rs", "rs", now),
    ];
    let opts = SearchOptions {
        recency_weight: Some(500_000),
        ..SearchOptions::none()
    };
    let out = vector_rank(cands, &opts, now);
    assert_eq!(out.len(), 2);
    assert_eq!(out[0].chunk_id, 2);
    assert!(out[0].score > out[1].score);
}

#[test]
fn test_vector_rank_filters_and_limit() {
    let now: u64 = 1_000_000;
    let cands = vec![
        scored(1, 900_000, "/src/a.rs", "rs", now),
        scored(2, 800_000, "/src/b.py", "py", now),
        scored(3, 100_000, "/src/c.rs", "rs", now),
    ];
    let opts = SearchOptions {
        file_types: Some(vec!["RS".to_string()]),
        min_score: Some(500_000),
        recency_weight: Some(0),
        ..SearchOptions::none()
    };
    let out = vector_rank(cands, &opts, now);
    assert_eq!(out.len(), 1);
    assert_eq!(out[0].chunk_id, 1);

    let cands2 = vec![
        scored(1, 900_000, "/src/a.rs", "rs", now),
        scored(2, 800_000, "/lib/b.rs", "rs", now),
    ];
    let opts2 = SearchOptions {
        paths: Some(vec!["/lib/".to_string()]),
        ..SearchOptions::none()
    };
    let out2 = vector_rank(cands2, &opts2, now);
    assert_eq!(out2.len(), 1);
    assert_eq!(out2[0].chunk_id, 2);

    let many: Vec<ScoredChunk> = (0..15u64).map(|i| scored(i, i as i64, "/x", "x", now)).collect();
    let out3 = vector_rank(many, &SearchOptions::none(), now);
    assert_eq!(out3.len(), 10);
    assert!(out3[0].score >= out3[9].score);
}

#[test]
fn test_rrf_fusion_order() {
    // chunk 1 outranks chunk 2 in both lists, so it outranks it fused
    let v = vec![result(1, 90), result(2, 80)];
    let f = vec![result(1, 7), result(2, 5)];
    let fused = rrf_fuse(&v, &f, 10);
    assert_eq!(fused.len(), 2);
    assert_eq!(fused[0].chunk_id, 1);
    assert!(fused[0].score > fused[1].score);
    // 1/(60+1) twice, in micros
    assert_eq!(fused[0].score, 2 * (1_000_000 / 61));
    // the union keeps a chunk only one list saw
    let f2 = vec![result(3, 9)];
    let fused2 = rrf_fuse(&v, &f2, 10);
    assert_eq!(fused2.len(), 3);
    assert_eq!(fused2[0].chunk_id, 1);
}

#[test]
fn test_fts_search_ranks_by_occurrences() {
    let mut db = Database::new();
    let id = db.add_or_update_file("/notes.txt", 50).unwrap();
    db.add_chunk(id, 0, 10, "apple pie".to_string(), None, None).unwrap();
    db.add_chunk(id, 10, 30, "apple apple crumble".to_string(), None, None).unwrap();
    db.add_chunk(id, 30, 40, "plain bread".to_string(), None, None).unwrap();

    let out = fts_search(&db, "Apple", &SearchOptions::none());
    assert_eq!(out.len(), 2);
    assert_eq!(out[0].score, 2);
    assert_eq!(out[1].score, 1);
    assert!(out[0].content.contains("crumble"));
    assert_eq!(out[0].file_type, "txt");

    let none = fts_search(&db, "", &SearchOptions::none());
    assert_eq!(none.len(), 0);
}

#[test]
fn test_fts_search_honors_window() {
    let mut db = Database::new();
    let a = db.add_or_update_file("/old.txt", 10).unwrap();
    let b = db.add_or_update_file("/new.txt", 90).unwrap();
    db.add_chunk(a, 0, 4, "word".to_string(), None, None).unwrap();
    db.add_chunk(b, 0, 4, "word".to_string(), None, None).unwrap();
    let opts = SearchOptions {
        start_time: Some(50),
        ..SearchOptions::none()
    };
    let out = fts_search(&db, "word", &opts);
    assert_eq!(out.len(), 1);
    assert_eq!(out[0].file_path, "/new.txt");
}

#[test]
fn test_vector_candidates_skip_mismatched_dimensions() {
    let mut db = Database::new();
    let id = db.add_or_update_file("/v.rs", 5).unwrap();
    db.add_chunk(id, 0, 1, "good".to_string(), Some(vec![0u8; 8]), None).unwrap();
    db.add_chunk(id, 1, 2, "short blob".to_string(), Some(vec![0u8; 7]), None).unwrap();
    db.add_chunk(id, 2, 3, "no vector".to_string(), None, None).unwrap();

    let cands = db.vector_candidates(2, None, None);
    assert_eq!(cands.len(), 1);
    assert_eq!(cands[0].content, "good");
    assert_eq!(cands[0].embedding.len(), 8);
    assert_eq!(cands[0].file_type, "rs");
    assert_eq!(cands[0].file_path, "/v.rs");
}

#[test]
fn test_vector_candidates_real_embeddings() {
    let mut db = Database::new();
    let id = db.add_or_update_file("/e.txt", 5).unwrap();
    let unit: Vec<f32> = {
        let mut v = vec![0.0f32; 4];
        v[0] = 1.0;
        v
    };
    let blob: Vec<u8> = unit.iter().flat_map(|x| x.to_le_bytes()).collect();
    db.add_chunk(id, 0, 1, "vec".to_string(), Some(blob), None).unwrap();
    let cands = db.vector_candidates(4, None, None);
    assert_eq!(cands.len(), 1);
    let decoded: Vec<f32> = cands[0]
        .embedding
        .chunks_exact(4)
        .map(|b| f32::from_le_bytes([b[0], b[1], b[2], b[3]]))
        .collect();
    assert_eq!(decoded, unit);
}

#[test]
fn test_query_cache_lru() {
    let mut cache = QueryCache::new(2);
    cache.put(vec![1], vec![result(1, 10)]);
    cache.put(vec![2], vec![result(2, 20)]);

    // a hit refreshes the row
    let hit = cache.lookup(&[1]).expect("cached");
    assert_eq!(hit.len(), 1);
    assert_eq!(hit[0].chunk_id, 1);

    // the least recently used row falls off when a third arrives
    cache.put(vec![3], vec![result(3, 30)]);
    assert!(cache.lookup(&[2]).is_none());
    assert!(cache.lookup(&[1]).is_some());
    assert!(cache.lookup(&[3]).is_some());

    // rewriting a key replaces its row without growing the cache
    cache.put(vec![3], vec![result(4, 40)]);
    let again = cache.lookup(&[3]).unwrap();
    assert_eq!(again[0].chunk_id, 4);
}

#[test]
fn test_cache_eligibility() {
    assert!(cache_eligible(&SearchOptions::none()));
    let with_limit = SearchOptions {
        limit: Some(5),
        min_score: Some(100),
        ..SearchOptions::none()
    };
    assert!(cache_eligible(&with_limit));
    let with_window = SearchOptions {
        start_time: Some(1),
        ..SearchOptions::none()
    };
    assert!(!cache_eligible(&with_window));
    let with_types = SearchOptions {
        file_types: Some(vec!["rs".to_string()]),
        ..SearchOptions::none()
    };
    assert!(!cache_eligible(&with_types));
}

#[test]
fn test_fts_search_is_case_insensitive_both_ways() {
    let mut db = Database::new();
    let id = db.add_or_update_file("/c.txt", 1).unwrap();
    db.add_chunk(id, 0, 5, "APPLE sauce".to_string(), None, None).unwrap();
    let out = fts_search(&db, "apple", &SearchOptions::none());
    assert_eq!(out.len(), 1);
    let out2 = fts_search(&db, "ApPlE", &SearchOptions::none());
    assert_eq!(out2.len(), 1);
}

#[test]
fn test_rrf_respects_limit_and_keeps_best() {
    let v = vec![result(1, 90), result(2, 80)];
    let f = vec![result(2, 5), result(1, 7)];
    // two distinct chunks, room for one: the better fused score stays
    let fused = rrf_fuse(&v, &f, 1);
    assert_eq!(fused.len(), 1);
    let both = rrf_fuse(&v, &f, 10);
    assert_eq!(both.len(), 2);
    assert!(fused[0].score >= both[1].score);
}

#[test]
fn test_cache_policy_roundtrip() {
    let mut cache = QueryCache::new(100);
    let opts = SearchOptions {
        limit: Some(2),
        min_score: Some(500_000),
        ..SearchOptions::none()
    };
    // a miss touches nothing and returns nothing
    assert!(cached_lookup(&mut cache, &[7], &opts).is_none());

    // final scores sit at micro-squared scale; the cutoff is lifted there
    let rows = vec![
        result(1, 900_000_000_000),
        result(2, 700_000_000_000),
        result(3, 600_000_000_000),
        result(4, 100_000_000_000),
    ];
    cache_store(&mut cache, &[7], &opts, &rows);

    // a hit clones, applies the cutoff, and cuts to the limit
    let hit = cached_lookup(&mut cache, &[7], &opts).expect("cached");
    assert_eq!(hit.len(), 2);
    assert_eq!(hit[0].chunk_id, 1);
    assert_eq!(hit[1].chunk_id, 2);

    // a filtered query bypasses the cache entirely
    let filtered = SearchOptions {
        start_time: Some(1),
        ..SearchOptions::none()
    };
    assert!(cached_lookup(&mut cache, &[7], &filtered).is_none());
    cache_store(&mut cache, &[8], &filtered, &rows);
    assert!(cached_lookup(&mut cache, &[8], &SearchOptions::none()).is_none());
}
