use contextd::chunk::Metadata;
use contextd::pipeline::reindex_file;
use contextd::store::Database;

#[test]
fn test_database_init() {
    let db = Database::new();
    let stats = db.get_stats();
    assert_eq!(stats.file_count, 0);
    assert_eq!(stats.chunk_count, 0);
    assert_eq!(stats.db_size, 0);
}

#[test]
fn test_add_get_file() {
    let mut db = Database::new();
    let path = "/tmp/test.txt";

    let id = db.add_or_update_file(path, 100).unwrap();
    assert!(id > 0);

    let fetched_id = db.get_file_id(path);
    assert_eq!(Some(id), fetched_id);

    let missing = db.get_file_id("/nonexistent");
    assert_eq!(None, missing);
}

#[test]
fn test_update_file() {
    let mut db = Database::new();
    let path = "/tmp/test.txt";

    let id1 = db.add_or_update_file(path, 100).unwrap();
    let id2 = db.add_or_update_file(path, 200).unwrap();

    assert_eq!(id1, id2);

    let row = db.files.iter().find(|f| f.path == path).unwrap();
    assert_eq!(row.last_modified, 200);
}

#[test]
fn test_chunks() {
    let mut db = Database::new();
    let path = "/tmp/test.txt";
    let file_id = db.add_or_update_file(path, 100).unwrap();

    db.add_chunk(file_id, 0, 10, "chunk1".to_string(), None, None).unwrap();
    db.add_chunk(file_id, 10, 20, "chunk2".to_string(), None, None).unwrap();

    let count = db.chunks.iter().filter(|c| c.file_id == file_id).count();
    assert_eq!(count, 2);

    db.clear_chunks(file_id);
    let count_after = db.chunks.iter().filter(|c| c.file_id == file_id).count();
    assert_eq!(count_after, 0);
}

#[test]
fn test_file_upsert_stability() {
    let mut db = Database::new();
    let id1 = db.add_or_update_file("/a", 100).unwrap();
    let id2 = db.add_or_update_file("/a", 200).unwrap();
    assert_eq!(id1, id2);
    let row = db.files.iter().find(|f| f.path == "/a").unwrap();
    assert_eq!(row.last_modified, 200);
    assert_eq!(row.last_indexed, None);
}

#[test]
fn test_cascade_delete() {
    let mut db = Database::new();
    let a = db.add_or_update_file("/a", 1).unwrap();
    let b = db.add_or_update_file("/b", 1).unwrap();
    db.add_chunk(a, 0, 1, "a0".to_string(), None, None).unwrap();
    db.add_chunk(a, 1, 2, "a1".to_string(), None, None).unwrap();
    db.add_chunk(b, 0, 1, "b0".to_string(), None, None).unwrap();

    db.delete_file(a);

    assert!(db.files.iter().all(|f| f.id != a));
    assert!(db.chunks.iter().all(|c| c.file_id != a));
    assert_eq!(db.chunks.len(), 1);
    assert_eq!(db.fts.len(), 1);
    assert_eq!(db.fts[0].content, "b0");
}

#[test]
fn test_fts_shadow_in_lockstep() {
    let mut db = Database::new();
    let a = db.add_or_update_file("/a", 1).unwrap();
    db.add_chunk(a, 0, 5, "hello".to_string(), None, None).unwrap();
    db.add_chunk(a, 5, 10, "world".to_string(), None, None).unwrap();
    assert_eq!(db.fts.len(), db.chunks.len());
    for (row, c) in db.fts.iter().zip(db.chunks.iter()) {
        assert_eq!(row.chunk_id, c.id);
        assert_eq!(row.content, c.content);
    }
    db.clear_chunks(a);
    assert_eq!(db.fts.len(), db.chunks.len());
    assert_eq!(db.fts.len(), 0);
}

#[test]
fn test_needs_reindexing() {
    let mut db = Database::new();
    assert!(db.needs_reindexing("/a", 100));
    let id = db.add_or_update_file("/a", 100).unwrap();
    assert!(db.needs_reindexing("/a", 100));
    db.mark_indexed(id, 100);
    assert!(!db.needs_reindexing("/a", 100));
    assert!(db.needs_reindexing("/a", 150));
}

#[test]
fn test_get_stats_counts_bytes() {
    let mut db = Database::new();
    let id = db.add_or_update_file("/a", 1).unwrap();
    db.add_chunk(id, 0, 4, "abcd".to_string(), Some(vec![1u8, 2, 3, 4]), None).unwrap();
    let stats = db.get_stats();
    assert_eq!(stats.file_count, 1);
    assert_eq!(stats.chunk_count, 1);
    assert_eq!(stats.db_size, 8);
}

#[test]
fn test_reindex_file_rewrites_chunks() {
    let mut db = Database::new();
    let meta = Metadata::new();

    let chunks1 = contextd::chunk::chunk_text("one\n\ntwo").unwrap();
    let embs1 = vec![None, None];
    let id = reindex_file(&mut db, "/f.txt", 10, chunks1, embs1, &meta, 11).unwrap();
    assert_eq!(db.chunks.len(), 2);

    // indexing again with the same modification time is a no-op decision
    assert!(!db.needs_reindexing("/f.txt", 10));

    let chunks2 = contextd::chunk::chunk_text("three").unwrap();
    let embs2 = vec![Some(vec![0u8; 8])];
    let id2 = reindex_file(&mut db, "/f.txt", 20, chunks2, embs2, &meta, 21).unwrap();
    assert_eq!(id, id2);
    assert_eq!(db.chunks.len(), 1);
    assert_eq!(db.chunks[0].content, "three");
    assert_eq!(db.fts.len(), 1);
    let row = db.files.iter().find(|f| f.path == "/f.txt").unwrap();
    assert_eq!(row.last_indexed, Some(21));
}

#[test]
fn test_reindex_idempotent_chunk_set() {
    let mut db = Database::new();
    let meta = Metadata::new();
    let content = "alpha\n\nbeta";

    let chunks = contextd::chunk::chunk_text(content).unwrap();
    let n = chunks.len();
    reindex_file(&mut db, "/g.txt", 5, chunks, vec![None, None], &meta, 6).unwrap();
    let before: Vec<(u64, u64, String)> = db
        .chunks
        .iter()
        .map(|c| (c.start_offset, c.end_offset, c.content.clone()))
        .collect();
    assert_eq!(before.len(), n);

    // the second pass is skipped by the reindex decision, so nothing moves
    if db.needs_reindexing("/g.txt", 5) {
        let chunks2 = contextd::chunk::chunk_text(content).unwrap();
        reindex_file(&mut db, "/g.txt", 5, chunks2, vec![None, None], &meta, 7).unwrap();
    }
    let after: Vec<(u64, u64, String)> = db
        .chunks
        .iter()
        .map(|c| (c.start_offset, c.end_offset, c.content.clone()))
        .collect();
    assert_eq!(before, after);
}
