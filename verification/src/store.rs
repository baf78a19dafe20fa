//! The persistent hybrid store, modelled as verified in-memory tables:
//! keyed file rows, content chunks with their (opaque) embedding blobs,
//! and a full-text shadow kept in lockstep with the chunk table.
//!
//! Durability is a caller concern: a persistence host mirrors every
//! mutation into its database file. The logic of the store — upsert
//! semantics, the reindex decision, cascade deletion, and the shadow
//! invariant — all lives here.

use vstd::prelude::*;
use crate::chunk::Metadata;
use crate::errors::CoreError;
use crate::strutil::str_eq;
use vstd::string::StringSliceAdditionalSpecFns;

verus! {

/// One row of the file table.
pub struct FileRecord {
    pub id: u64,
    pub path: String,
    pub last_modified: u64,
    pub last_indexed: Option<u64>,
}

/// One row of the chunk table. The embedding is an opaque blob of
/// little-endian 32-bit floats; the store never interprets it.
pub struct ChunkRecord {
    pub id: u64,
    pub file_id: u64,
    pub start_offset: u64,
    pub end_offset: u64,
    pub content: String,
    pub embedding: Option<Vec<u8>>,
    pub metadata: Option<Metadata>,
}

/// One row of the full-text shadow, keyed by chunk id.
pub struct FtsRow {
    pub chunk_id: u64,
    pub content: String,
}

/// Store statistics.
#[derive(Debug)]
pub struct DbStats {
    pub file_count: u64,
    pub chunk_count: u64,
    pub db_size: u64,
}

/// The store itself.
pub struct Database {
    pub files: Vec<FileRecord>,
    pub chunks: Vec<ChunkRecord>,
    pub fts: Vec<FtsRow>,
    pub next_file_id: u64,
    pub next_chunk_id: u64,
}

/// Is some file row keyed by this path?
pub open spec fn spec_has_file(files: Seq<FileRecord>, path: Seq<char>) -> bool {
    exists|i: int| 0 <= i < files.len() && files[i].path@ == path
}

/// Is some file row keyed by this id?
pub open spec fn spec_has_file_id(files: Seq<FileRecord>, id: u64) -> bool {
    exists|i: int| 0 <= i < files.len() && files[i].id == id
}

/// The reindex decision: a path needs work when no row exists, when its
/// row was never marked indexed, or when the file changed after the mark.
pub open spec fn spec_needs_reindex(
    files: Seq<FileRecord>,
    path: Seq<char>,
    current_modified: u64,
) -> bool {
    forall|i: int|
        0 <= i < files.len() && files[i].path@ == path ==> (files[i].last_indexed is None
            || current_modified > files[i].last_indexed->0)
}

/// The chunk rows that survive clearing one file.
pub open spec fn chunk_not_of_file(file_id: u64) -> spec_fn(ChunkRecord) -> bool {
    |c: ChunkRecord| c.file_id != file_id
}

/// The file rows that survive deleting one file.
pub open spec fn file_not_with_id(file_id: u64) -> spec_fn(FileRecord) -> bool {
    |f: FileRecord| f.id != file_id
}

/// Total byte weight of the chunk table: content bytes plus embedding bytes.
pub open spec fn spec_chunks_size(chunks: Seq<ChunkRecord>) -> int
    decreases chunks.len(),
{
    if chunks.len() == 0 {
        0
    } else {
        spec_chunks_size(chunks.drop_last()) + vstd::utf8::encode_utf8(
            chunks.last().content@,
        ).len() + (if chunks.last().embedding is Some {
            chunks.last().embedding->0@.len()
        } else {
            0
        })
    }
}

impl Database {
    /// Well-formedness: ids are assigned monotonically and are unique,
    /// paths are unique, every chunk points at an existing file with a
    /// sane byte range, and the full-text shadow mirrors the chunk table
    /// row for row.
    pub open spec fn wf(&self) -> bool {
        &&& 1 <= self.next_file_id
        &&& 1 <= self.next_chunk_id
        &&& forall|i: int, j: int|
            0 <= i < j < self.files@.len() ==> self.files@[i].id < self.files@[j].id
        &&& forall|i: int|
            0 <= i < self.files@.len() ==> 1 <= #[trigger] self.files@[i].id < self.next_file_id
        &&& forall|i: int, j: int|
            0 <= i < j < self.files@.len() ==> self.files@[i].path@ != self.files@[j].path@
        &&& forall|i: int, j: int|
            0 <= i < j < self.chunks@.len() ==> self.chunks@[i].id < self.chunks@[j].id
        &&& forall|i: int|
            0 <= i < self.chunks@.len() ==> 1 <= #[trigger] self.chunks@[i].id
                < self.next_chunk_id
        &&& forall|i: int|
            0 <= i < self.chunks@.len() ==> spec_has_file_id(
                self.files@,
                #[trigger] self.chunks@[i].file_id,
            )
        &&& forall|i: int|
            0 <= i < self.chunks@.len() ==> #[trigger] self.chunks@[i].start_offset
                <= self.chunks@[i].end_offset
        &&& self.fts@.len() == self.chunks@.len()
        &&& forall|i: int|
            0 <= i < self.chunks@.len() ==> #[trigger] self.fts@[i].chunk_id == self.chunks@[i].id
                && self.fts@[i].content@ == self.chunks@[i].content@
    }

    /// An empty store.
    pub fn new() -> (db: Database)
        ensures
            db.wf(),
            db.files@.len() == 0,
            db.chunks@.len() == 0,
            db.fts@.len() == 0,
            db.next_file_id == 1,
            db.next_chunk_id == 1,
    {
        Database {
            files: Vec::new(),
            chunks: Vec::new(),
            fts: Vec::new(),
            next_file_id: 1,
            next_chunk_id: 1,
        }
    }

    /// Index of the file row keyed by `path`, if any.
    fn find_file(&self, path: &str) -> (r: Option<usize>)
        requires
            self.wf(),
        ensures
            match r {
                Some(k) => 0 <= k < self.files@.len() && self.files@[k as int].path@ == path@,
                None => !spec_has_file(self.files@, path@),
            },
    {
        let n = self.files.len();
        let mut i: usize = 0;
        while i < n
            invariant
                n == self.files@.len(),
                i <= n,
                forall|j: int| 0 <= j < i ==> self.files@[j].path@ != path@,
            decreases n - i,
        {
            if str_eq(path, self.files[i].path.as_str()) {
                return Some(i);
            }
            i += 1;
        }
        None
    }

    /// Insert a file row or update the row keyed by `path`. An update
    /// stores the new modification time and resets the indexed mark; an
    /// insert assigns the next id. The id is stable across updates.
    /// Fails only when the id space is exhausted.
    pub fn add_or_update_file(&mut self, path: &str, last_modified: u64) -> (r: Result<
        u64,
        CoreError,
    >)
        requires
            old(self).wf(),
        ensures
            final(self).wf(),
            final(self).chunks@ == old(self).chunks@,
            final(self).fts@ == old(self).fts@,
            final(self).next_chunk_id == old(self).next_chunk_id,
            r is Err <==> (!spec_has_file(old(self).files@, path@) && old(self).next_file_id
                == u64::MAX),
            r is Err ==> *final(self) == *old(self) && r->Err_0 is StorageUnavailable,
            r is Ok ==> spec_has_file(final(self).files@, path@),
            // update: the row keyed by this path keeps its id, takes the new
            // modification time, and loses its indexed mark; everything else
            // is untouched.
            forall|i: int|
                0 <= i < old(self).files@.len() && old(self).files@[i].path@ == path@ ==> {
                    &&& r == Result::<u64, CoreError>::Ok(old(self).files@[i].id)
                    &&& final(self).files@.len() == old(self).files@.len()
                    &&& final(self).files@[i].id == old(self).files@[i].id
                    &&& final(self).files@[i].path@ == path@
                    &&& final(self).files@[i].last_modified == last_modified
                    &&& final(self).files@[i].last_indexed is None
                    &&& forall|j: int|
                        0 <= j < old(self).files@.len() && j != i ==> final(self).files@[j] == old(
                            self,
                        ).files@[j]
                },
            // insert: a fresh row with the next id is appended.
            (!spec_has_file(old(self).files@, path@) && r is Ok) ==> {
                &&& r == Result::<u64, CoreError>::Ok(old(self).next_file_id)
                &&& final(self).files@.len() == old(self).files@.len() + 1
                &&& forall|j: int|
                    0 <= j < old(self).files@.len() ==> final(self).files@[j] == old(
                        self,
                    ).files@[j]
                &&& final(self).files@.last().id == old(self).next_file_id
                &&& final(self).files@.last().path@ == path@
                &&& final(self).files@.last().last_modified == last_modified
                &&& final(self).files@.last().last_indexed is None
            },
    {
        match self.find_file(path) {
            Some(k) => {
                let id = self.files[k].id;
                self.files[k].last_modified = last_modified;
                self.files[k].last_indexed = None;
                proof {
                    assert(self.files@ =~= old(self).files@.update(
                        k as int,
                        (FileRecord {
                            last_modified,
                            last_indexed: None,
                            ..old(self).files@[k as int]
                        }),
                    ));
                    assert forall|i: int| 0 <= i < self.chunks@.len() implies spec_has_file_id(
                        self.files@,
                        #[trigger] self.chunks@[i].file_id,
                    ) by {
                        let w = choose|w: int|
                            0 <= w < old(self).files@.len() && old(self).files@[w].id
                                == self.chunks@[i].file_id;
                        assert(self.files@[w].id == self.chunks@[i].file_id);
                    }
                    assert(forall|j: int|
                        0 <= j < self.files@.len() ==> #[trigger] self.files@[j].id == old(
                            self,
                        ).files@[j].id && self.files@[j].path@ == old(self).files@[j].path@);
                }
                Ok(id)
            },
            None => {
                if self.next_file_id == u64::MAX {
                    return Err(CoreError::StorageUnavailable);
                }
                let id = self.next_file_id;
                let rec = FileRecord {
                    id,
                    path: path.to_owned(),
                    last_modified,
                    last_indexed: None,
                };
                self.files.push(rec);
                self.next_file_id = id + 1;
                proof {
                    assert forall|i: int| 0 <= i < self.chunks@.len() implies spec_has_file_id(
                        self.files@,
                        #[trigger] self.chunks@[i].file_id,
                    ) by {
                        let w = choose|w: int|
                            0 <= w < old(self).files@.len() && old(self).files@[w].id
                                == self.chunks@[i].file_id;
                        assert(self.files@[w].id == self.chunks@[i].file_id);
                    }
                }
                Ok(id)
            },
        }
    }

    /// Stable id of the file row keyed by `path`, if one exists.
    pub fn get_file_id(&self, path: &str) -> (r: Option<u64>)
        requires
            self.wf(),
        ensures
            r is Some <==> spec_has_file(self.files@, path@),
            forall|i: int|
                0 <= i < self.files@.len() && self.files@[i].path@ == path@ ==> r == Some(
                    self.files@[i].id,
                ),
    {
        match self.find_file(path) {
            Some(k) => Some(self.files[k].id),
            None => None,
        }
    }

    /// The reindex decision for a path seen with modification time
    /// `current_modified`.
    pub fn needs_reindexing(&self, path: &str, current_modified: u64) -> (r: bool)
        requires
            self.wf(),
        ensures
            r == spec_needs_reindex(self.files@, path@, current_modified),
    {
        match self.find_file(path) {
            Some(k) => {
                match self.files[k].last_indexed {
                    None => true,
                    Some(t) => current_modified > t,
                }
            },
            None => true,
        }
    }

    /// Set the indexed mark of the file row with this id to `now`.
    /// A missing id leaves the store unchanged.
    pub fn mark_indexed(&mut self, file_id: u64, now: u64)
        requires
            old(self).wf(),
        ensures
            final(self).wf(),
            final(self).chunks@ == old(self).chunks@,
            final(self).fts@ == old(self).fts@,
            final(self).files@.len() == old(self).files@.len(),
            forall|j: int|
                0 <= j < old(self).files@.len() ==> #[trigger] final(self).files@[j] == (if old(
                    self,
                ).files@[j].id == file_id {
                    (FileRecord { last_indexed: Some(now), ..old(self).files@[j] })
                } else {
                    old(self).files@[j]
                }),
    {
        let n = self.files.len();
        let mut i: usize = 0;
        while i < n
            invariant
                old(self).wf(),
                n == self.files@.len() == old(self).files@.len(),
                i <= n,
                self.chunks@ == old(self).chunks@,
                self.fts@ == old(self).fts@,
                self.next_file_id == old(self).next_file_id,
                self.next_chunk_id == old(self).next_chunk_id,
                forall|j: int| i <= j < n ==> #[trigger] self.files@[j] == old(self).files@[j],
                forall|j: int|
                    0 <= j < i ==> #[trigger] self.files@[j] == (if old(self).files@[j].id
                        == file_id {
                        (FileRecord { last_indexed: Some(now), ..old(self).files@[j] })
                    } else {
                        old(self).files@[j]
                    }),
            decreases n - i,
        {
            if self.files[i].id == file_id {
                self.files[i].last_indexed = Some(now);
            }
            i += 1;
        }
        proof {
            assert forall|i: int| 0 <= i < self.chunks@.len() implies spec_has_file_id(
                self.files@,
                #[trigger] self.chunks@[i].file_id,
            ) by {
                let w = choose|w: int|
                    0 <= w < old(self).files@.len() && old(self).files@[w].id
                        == self.chunks@[i].file_id;
                assert(self.files@[w].id == self.chunks@[i].file_id);
            }
        }
    }

    /// Delete the chunk rows of one file, together with their full-text
    /// shadow rows.
    pub fn clear_chunks(&mut self, file_id: u64)
        requires
            old(self).wf(),
        ensures
            final(self).wf(),
            final(self).files@ == old(self).files@,
            final(self).next_file_id == old(self).next_file_id,
            final(self).next_chunk_id == old(self).next_chunk_id,
            final(self).chunks@ == old(self).chunks@.filter(chunk_not_of_file(file_id)),
    {
        let ghost orig = self.chunks@;
        let ghost pred = chunk_not_of_file(file_id);
        let mut pending: Vec<ChunkRecord> = Vec::new();
        core::mem::swap(&mut pending, &mut self.chunks);
        let mut pending_fts: Vec<FtsRow> = Vec::new();
        core::mem::swap(&mut pending_fts, &mut self.fts);
        let n = pending.len();
        let mut k: usize = 0;
        while k < n
            invariant
                old(self).wf(),
                orig == old(self).chunks@,
                pred == chunk_not_of_file(file_id),
                n == orig.len(),
                k <= n,
                pending@ == orig.subrange(k as int, n as int),
                pending_fts@ == old(self).fts@.subrange(k as int, n as int),
                self.files@ == old(self).files@,
                self.next_file_id == old(self).next_file_id,
                self.next_chunk_id == old(self).next_chunk_id,
                self.chunks@ == orig.subrange(0, k as int).filter(pred),
                self.fts@.len() == self.chunks@.len(),
                forall|i: int|
                    0 <= i < self.chunks@.len() ==> #[trigger] self.fts@[i].chunk_id
                        == self.chunks@[i].id && self.fts@[i].content@ == self.chunks@[i].content@,
            decreases n - k,
        {
            let c = pending.remove(0);
            let f = pending_fts.remove(0);
            proof {
                assert(c == orig[k as int]);
                assert(old(self).fts@[k as int].chunk_id == orig[k as int].id);
                lemma_filter_step(orig, pred, k as int);
                assert(pending@ =~= orig.subrange(k + 1, n as int));
                assert(pending_fts@ =~= old(self).fts@.subrange(k + 1, n as int));
            }
            if c.file_id != file_id {
                self.chunks.push(c);
                self.fts.push(f);
            }
            k += 1;
        }
        proof {
            assert(orig.subrange(0, n as int) =~= orig);
            lemma_filter_keeps(orig, pred);
            lemma_filter_sorted(orig, pred, |c: ChunkRecord| c.id as int);
        }
    }

    /// Insert one chunk row, and synchronously its full-text shadow row
    /// keyed by the same id. Succeeds exactly when the file exists and the
    /// id space is not exhausted.
    pub fn add_chunk(
        &mut self,
        file_id: u64,
        start: u64,
        end: u64,
        content: String,
        embedding: Option<Vec<u8>>,
        metadata: Option<Metadata>,
    ) -> (r: Result<u64, CoreError>)
        requires
            old(self).wf(),
            start <= end,
        ensures
            final(self).wf(),
            final(self).files@ == old(self).files@,
            final(self).next_file_id == old(self).next_file_id,
            r is Ok <==> (spec_has_file_id(old(self).files@, file_id) && old(self).next_chunk_id
                < u64::MAX),
            r is Err ==> *final(self) == *old(self),
            r is Err ==> (if spec_has_file_id(old(self).files@, file_id) {
                r->Err_0 is StorageUnavailable
            } else {
                r->Err_0 is SchemaMismatch
            }),
            r is Ok ==> {
                &&& r == Result::<u64, CoreError>::Ok(old(self).next_chunk_id)
                &&& final(self).next_chunk_id == old(self).next_chunk_id + 1
                &&& final(self).chunks@.len() == old(self).chunks@.len() + 1
                &&& forall|j: int|
                    0 <= j < old(self).chunks@.len() ==> final(self).chunks@[j] == old(
                        self,
                    ).chunks@[j]
                &&& final(self).chunks@.last().id == old(self).next_chunk_id
                &&& final(self).chunks@.last().file_id == file_id
                &&& final(self).chunks@.last().start_offset == start
                &&& final(self).chunks@.last().end_offset == end
                &&& final(self).chunks@.last().content == content
                &&& final(self).chunks@.last().embedding == embedding
                &&& final(self).chunks@.last().metadata == metadata
                &&& final(self).fts@.len() == old(self).fts@.len() + 1
                &&& forall|j: int|
                    0 <= j < old(self).fts@.len() ==> final(self).fts@[j] == old(self).fts@[j]
                &&& final(self).fts@.last().chunk_id == old(self).next_chunk_id
                &&& final(self).fts@.last().content@ == content@
            },
    {
        let mut have_file = false;
        let n = self.files.len();
        let mut i: usize = 0;
        while i < n
            invariant
                n == self.files@.len(),
                i <= n,
                have_file == exists|j: int| 0 <= j < i && self.files@[j].id == file_id,
            decreases n - i,
        {
            if self.files[i].id == file_id {
                have_file = true;
            }
            i += 1;
        }
        if !have_file {
            return Err(CoreError::SchemaMismatch);
        }
        if self.next_chunk_id == u64::MAX {
            return Err(CoreError::StorageUnavailable);
        }
        let id = self.next_chunk_id;
        let shadow = FtsRow { chunk_id: id, content: content.clone() };
        let rec = ChunkRecord {
            id,
            file_id,
            start_offset: start,
            end_offset: end,
            content,
            embedding,
            metadata,
        };
        self.chunks.push(rec);
        self.fts.push(shadow);
        self.next_chunk_id = id + 1;
        Ok(id)
    }

    /// Delete a file row; its chunk rows and their shadow rows go with it.
    pub fn delete_file(&mut self, file_id: u64)
        requires
            old(self).wf(),
        ensures
            final(self).wf(),
            final(self).files@ == old(self).files@.filter(file_not_with_id(file_id)),
            final(self).chunks@ == old(self).chunks@.filter(chunk_not_of_file(file_id)),
    {
        self.clear_chunks(file_id);
        let ghost orig = self.files@;
        let ghost pred = file_not_with_id(file_id);
        let ghost mid_chunks = self.chunks@;
        let ghost mid_fts = self.fts@;
        let mut pending: Vec<FileRecord> = Vec::new();
        core::mem::swap(&mut pending, &mut self.files);
        let n = pending.len();
        let mut k: usize = 0;
        while k < n
            invariant
                pred == file_not_with_id(file_id),
                n == orig.len(),
                k <= n,
                pending@ == orig.subrange(k as int, n as int),
                self.chunks@ == mid_chunks,
                self.fts@ == mid_fts,
                self.next_file_id == old(self).next_file_id,
                self.next_chunk_id == old(self).next_chunk_id,
                self.files@ == orig.subrange(0, k as int).filter(pred),
            decreases n - k,
        {
            let f = pending.remove(0);
            proof {
                assert(f == orig[k as int]);
                lemma_filter_step(orig, pred, k as int);
                assert(pending@ =~= orig.subrange(k + 1, n as int));
            }
            if f.id != file_id {
                self.files.push(f);
            }
            k += 1;
        }
        proof {
            assert(orig.subrange(0, n as int) =~= orig);
            lemma_filter_keeps(orig, pred);
            lemma_filter_sorted(orig, pred, |f: FileRecord| f.id as int);
            lemma_filter_unique(orig, pred, |f: FileRecord| f.path@);
            let chunk_pred = chunk_not_of_file(file_id);
            lemma_filter_keeps(old(self).chunks@, chunk_pred);
            assert forall|i: int| 0 <= i < self.chunks@.len() implies spec_has_file_id(
                self.files@,
                #[trigger] self.chunks@[i].file_id,
            ) by {
                let c = self.chunks@[i];
                assert(chunk_pred(c) && old(self).chunks@.contains(c));
                assert(spec_has_file_id(old(self).files@, c.file_id)) by {
                    let w = choose|w: int|
                        0 <= w < old(self).chunks@.len() && old(self).chunks@[w] == c;
                    assert(old(self).wf());
                }
                let fj = choose|fj: int|
                    0 <= fj < old(self).files@.len() && old(self).files@[fj].id == c.file_id;
                assert(pred(orig[fj]));
                orig.lemma_filter_contains(pred, fj);
                let v = choose|v: int|
                    0 <= v < self.files@.len() && self.files@[v] == old(self).files@[fj];
                assert(self.files@[v].id == c.file_id);
            }
        }
    }

    /// Counts and total byte weight of the store.
    pub fn get_stats(&self) -> (r: DbStats)
        requires
            self.wf(),
        ensures
            r.file_count == self.files@.len(),
            r.chunk_count == self.chunks@.len(),
            r.db_size == if spec_chunks_size(self.chunks@) <= u64::MAX {
                spec_chunks_size(self.chunks@)
            } else {
                u64::MAX as int
            },
    {
        let n = self.chunks.len();
        let mut size: u64 = 0;
        let mut i: usize = 0;
        while i < n
            invariant
                self.wf(),
                n == self.chunks@.len(),
                i <= n,
                size == if spec_chunks_size(self.chunks@.subrange(0, i as int)) <= u64::MAX {
                    spec_chunks_size(self.chunks@.subrange(0, i as int))
                } else {
                    u64::MAX as int
                },
            decreases n - i,
        {
            let c_len = self.chunks[i].content.as_str().as_bytes().len();
            let e_len = match &self.chunks[i].embedding {
                Some(v) => v.len(),
                None => 0,
            };
            let ghost pre = self.chunks@.subrange(0, i as int);
            let ghost post = self.chunks@.subrange(0, i + 1);
            proof {
                let c = self.chunks@[i as int];
                assert(post =~= pre.push(c));
                assert(c_len == vstd::utf8::encode_utf8(c.content@).len());
                assert(e_len == if c.embedding is Some {
                    c.embedding->0@.len()
                } else {
                    0
                });
                lemma_chunks_size_push(pre, c);
                assert(spec_chunks_size(post) == spec_chunks_size(pre) + c_len + e_len);
            }
            size = saturating_add_u64(size, c_len as u64);
            size = saturating_add_u64(size, e_len as u64);
            proof {
                assert(size == if spec_chunks_size(post) <= u64::MAX {
                    spec_chunks_size(post)
                } else {
                    u64::MAX as int
                });
            }
            i += 1;
        }
        proof {
            assert(self.chunks@.subrange(0, n as int) =~= self.chunks@);
        }
        DbStats {
            file_count: self.files.len() as u64,
            chunk_count: self.chunks.len() as u64,
            db_size: size,
        }
    }
}

/// `a + b`, clamped to the top of `u64`.
pub fn saturating_add_u64(a: u64, b: u64) -> (r: u64)
    ensures
        r == if a + b <= u64::MAX {
            a + b
        } else {
            u64::MAX as int
        },
{
    if a > u64::MAX - b {
        u64::MAX
    } else {
        a + b
    }
}

/// One more chunk adds its content bytes and embedding bytes to the total.
pub proof fn lemma_chunks_size_push(s: Seq<ChunkRecord>, c: ChunkRecord)
    ensures
        spec_chunks_size(s.push(c)) == spec_chunks_size(s) + vstd::utf8::encode_utf8(
            c.content@,
        ).len() + (if c.embedding is Some {
            c.embedding->0@.len() as int
        } else {
            0
        }),
{
    let t = s.push(c);
    assert(t.len() == s.len() + 1);
    assert(t.drop_last() =~= s);
    assert(t.last() == c);
    reveal_with_fuel(spec_chunks_size, 2);
    assert(spec_chunks_size(t) == spec_chunks_size(t.drop_last()) + vstd::utf8::encode_utf8(
        t.last().content@,
    ).len() + (if t.last().embedding is Some {
        t.last().embedding->0@.len() as int
    } else {
        0
    }));
}

/// Filtering a one-longer prefix keeps the filtered shorter prefix and
/// appends the new element exactly when it satisfies the predicate.
pub proof fn lemma_filter_step<A>(s: Seq<A>, pred: spec_fn(A) -> bool, k: int)
    requires
        0 <= k < s.len(),
    ensures
        s.subrange(0, k + 1).filter(pred) == if pred(s[k]) {
            s.subrange(0, k).filter(pred).push(s[k])
        } else {
            s.subrange(0, k).filter(pred)
        },
{
    let t = s.subrange(0, k + 1);
    assert(t.drop_last() =~= s.subrange(0, k));
    assert(t.last() == s[k]);
    reveal_with_fuel(Seq::filter, 2);
}

/// Every element of a filtered sequence satisfies the predicate and was
/// an element of the original sequence.
pub proof fn lemma_filter_keeps<A>(s: Seq<A>, pred: spec_fn(A) -> bool)
    ensures
        forall|i: int|
            0 <= i < s.filter(pred).len() ==> pred(#[trigger] s.filter(pred)[i]) && s.contains(
                s.filter(pred)[i],
            ),
    decreases s.len(),
{
    reveal_with_fuel(Seq::filter, 2);
    if s.len() > 0 {
        lemma_filter_keeps(s.drop_last(), pred);
        assert forall|i: int| 0 <= i < s.filter(pred).len() implies pred(
            #[trigger] s.filter(pred)[i],
        ) && s.contains(s.filter(pred)[i]) by {
            let f = s.filter(pred);
            let fd = s.drop_last().filter(pred);
            if i < fd.len() {
                assert(s.drop_last().contains(fd[i]));
                let w = choose|w: int| 0 <= w < s.drop_last().len() && s.drop_last()[w] == fd[i];
                assert(s[w] == fd[i]);
            } else {
                assert(f[i] == s.last());
            }
        }
    }
}

/// Filtering preserves strict ascent of an integer key.
pub proof fn lemma_filter_sorted<A>(s: Seq<A>, pred: spec_fn(A) -> bool, key: spec_fn(A) -> int)
    requires
        forall|i: int, j: int| 0 <= i < j < s.len() ==> key(s[i]) < key(s[j]),
    ensures
        forall|i: int, j: int|
            0 <= i < j < s.filter(pred).len() ==> key(s.filter(pred)[i]) < key(s.filter(pred)[j]),
    decreases s.len(),
{
    reveal_with_fuel(Seq::filter, 2);
    if s.len() > 0 {
        lemma_filter_sorted(s.drop_last(), pred, key);
        lemma_filter_keeps(s.drop_last(), pred);
        assert forall|i: int, j: int| 0 <= i < j < s.filter(pred).len() implies key(
            s.filter(pred)[i],
        ) < key(s.filter(pred)[j]) by {
            let f = s.filter(pred);
            let fd = s.drop_last().filter(pred);
            if j < fd.len() {
            } else {
                assert(f[j] == s.last());
                assert(s.drop_last().contains(fd[i]));
                let w = choose|w: int| 0 <= w < s.drop_last().len() && s.drop_last()[w] == fd[i];
                assert(key(s[w]) < key(s.last()));
            }
        }
    }
}

/// Filtering preserves pairwise distinctness of any key.
pub proof fn lemma_filter_unique<A, K>(s: Seq<A>, pred: spec_fn(A) -> bool, key: spec_fn(A) -> K)
    requires
        forall|i: int, j: int| 0 <= i < j < s.len() ==> key(s[i]) != key(s[j]),
    ensures
        forall|i: int, j: int|
            0 <= i < j < s.filter(pred).len() ==> key(s.filter(pred)[i]) != key(s.filter(pred)[j]),
    decreases s.len(),
{
    reveal_with_fuel(Seq::filter, 2);
    if s.len() > 0 {
        lemma_filter_unique(s.drop_last(), pred, key);
        lemma_filter_keeps(s.drop_last(), pred);
        assert forall|i: int, j: int| 0 <= i < j < s.filter(pred).len() implies key(
            s.filter(pred)[i],
        ) != key(s.filter(pred)[j]) by {
            let f = s.filter(pred);
            let fd = s.drop_last().filter(pred);
            if j < fd.len() {
            } else {
                assert(f[j] == s.last());
                assert(s.drop_last().contains(fd[i]));
                let w = choose|w: int| 0 <= w < s.drop_last().len() && s.drop_last()[w] == fd[i];
                assert(key(s[w]) != key(s.last()));
            }
        }
    }
}

/// The full-text shadow mirrors the chunk table row for row: equal row
/// counts, matching ids, matching contents.
pub proof fn lemma_fts_matches_chunks(db: &Database)
    requires
        db.wf(),
    ensures
        db.fts@.len() == db.chunks@.len(),
        forall|i: int|
            0 <= i < db.chunks@.len() ==> #[trigger] db.fts@[i].chunk_id == db.chunks@[i].id
                && db.fts@[i].content@ == db.chunks@[i].content@,
{
}

} // verus!
