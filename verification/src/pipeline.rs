//! The per-file indexing pipeline: which chunking path a file takes,
//! which watcher events lead to work, how chunk metadata is assembled,
//! and the transactional rewrite of a file's chunk set.

use vstd::prelude::*;
use crate::chunk::{Chunk, Metadata};
use crate::config::Config;
use crate::errors::CoreError;
use crate::store::{spec_has_file, spec_needs_reindex, Database};
use crate::strutil::{dup_strings, str_eq};

verus! {

/// How a file's content is turned into chunks: through a configured
/// plugin, through the document extractor, or read as text.
pub enum ChunkRoute {
    Plugin(Vec<String>),
    Pdf,
    Text,
}

/// Choose the chunking path for an extension: a configured plugin first,
/// the document path for pdf, plain text otherwise.
pub fn chunking_route(config: &Config, ext: &str) -> (r: ChunkRoute)
    ensures
        ({
            let has_plugin = exists|i: int|
                0 <= i < config.plugins@.len() && (#[trigger] config.plugins@[i]).0@ == ext@;
            match r {
                ChunkRoute::Plugin(v) => has_plugin && exists|i: int|
                    {
                        &&& 0 <= i < config.plugins@.len()
                        &&& (#[trigger] config.plugins@[i]).0@ == ext@
                        &&& v@ == config.plugins@[i].1@
                        &&& forall|j: int| 0 <= j < i ==> config.plugins@[j].0@ != ext@
                    },
                ChunkRoute::Pdf => !has_plugin && ext@ == "pdf"@,
                ChunkRoute::Text => !has_plugin && ext@ != "pdf"@,
            }
        }),
{
    match config.plugin_for(ext) {
        Some(v) => ChunkRoute::Plugin(dup_strings(v)),
        None => {
            if str_eq(ext, "pdf") {
                ChunkRoute::Pdf
            } else {
                ChunkRoute::Text
            }
        },
    }
}

/// Does a watcher event for this path lead to an index task? Ignored
/// paths, vanished paths, directories, and the version-control ignore
/// file itself (whose rewrite would re-trigger the watcher) are skipped.
pub fn event_decision(is_ignored: bool, exists_now: bool, is_dir: bool, file_name: &str) -> (r:
    bool)
    ensures
        r == (!is_ignored && exists_now && !is_dir && file_name@ != ".gitignore"@),
{
    !is_ignored && exists_now && !is_dir && !str_eq(file_name, ".gitignore")
}

/// Does some string in the list have this view?
pub open spec fn has_view(s: Seq<String>, v: Seq<char>) -> bool {
    exists|k: int| 0 <= k < s.len() && (#[trigger] s[k])@ == v
}

/// Pushing preserves and extends membership-by-view.
proof fn lemma_has_view_push(s: Seq<String>, x: String, v: Seq<char>)
    ensures
        has_view(s.push(x), v) <==> (has_view(s, v) || x@ == v),
{
    if has_view(s, v) {
        let k = choose|k: int| 0 <= k < s.len() && (#[trigger] s[k])@ == v;
        assert(s.push(x)[k]@ == v);
    }
    if x@ == v {
        assert(s.push(x)[s.len() as int]@ == v);
    }
    if has_view(s.push(x), v) {
        let k = choose|k: int| 0 <= k < s.push(x).len() && (#[trigger] s.push(x)[k])@ == v;
        if k < s.len() {
            assert(s[k]@ == v);
        }
    }
}

/// Drop duplicate paths from one event batch, keeping first occurrences
/// in order.
#[verifier::spinoff_prover]
pub fn dedupe_paths(paths: &Vec<String>) -> (r: Vec<String>)
    ensures
        forall|i: int, j: int| 0 <= i < j < r@.len() ==> (#[trigger] r@[i])@ != (#[trigger] r@[j])@,
        forall|i: int| 0 <= i < paths@.len() ==> has_view(r@, (#[trigger] paths@[i])@),
        forall|k: int| 0 <= k < r@.len() ==> has_view(paths@, (#[trigger] r@[k])@),
{
    let n = paths.len();
    let mut out: Vec<String> = Vec::new();
    let mut i: usize = 0;
    while i < n
        invariant
            n == paths@.len(),
            i <= n,
            forall|a: int, b: int|
                0 <= a < b < out@.len() ==> (#[trigger] out@[a])@ != (#[trigger] out@[b])@,
            forall|a: int| 0 <= a < i ==> has_view(out@, (#[trigger] paths@[a])@),
            forall|k: int| 0 <= k < out@.len() ==> has_view(paths@, (#[trigger] out@[k])@),
        decreases n - i,
    {
        let m = out.len();
        let mut seen = false;
        let mut k: usize = 0;
        while k < m
            invariant
                m == out@.len(),
                k <= m,
                i < n == paths@.len(),
                seen == exists|t: int| 0 <= t < k && (#[trigger] out@[t])@ == paths@[i as int]@,
            decreases m - k,
        {
            if str_eq(out[k].as_str(), paths[i].as_str()) {
                seen = true;
            }
            k += 1;
        }
        let ghost out_before = out@;
        if !seen {
            out.push(paths[i].clone());
            proof {
                assert(out@ == out_before.push(out@[out_before.len() as int]));
                assert(out@[out_before.len() as int]@ == paths@[i as int]@);
            }
        }
        proof {
            assert forall|a: int| 0 <= a < i + 1 implies has_view(
                out@,
                (#[trigger] paths@[a])@,
            ) by {
                if !seen {
                    lemma_has_view_push(out_before, out@[out_before.len() as int], paths@[a]@);
                }
                if a < i {
                } else {
                    if seen {
                        let t = choose|t: int|
                            0 <= t < out_before.len() && (#[trigger] out_before[t])@ == paths@[
                                i as int
                            ]@;
                        assert(out@[t]@ == paths@[a]@);
                    }
                }
            }
            assert forall|k2: int| 0 <= k2 < out@.len() implies has_view(
                paths@,
                (#[trigger] out@[k2])@,
            ) by {
                if k2 < out_before.len() {
                } else {
                    assert(out@[k2]@ == paths@[i as int]@);
                }
            }
        }
        i += 1;
    }
    out
}

/// The merged metadata shape: a field the chunk carries wins, a field
/// it lacks falls back to the file's.
pub open spec fn spec_merged(file_meta: Metadata, chunk_meta: Option<Metadata>, r: Metadata) -> bool {
    match chunk_meta {
        Option::None => {
            &&& r.size == file_meta.size
            &&& r.created == file_meta.created
            &&& r.modified == file_meta.modified
            &&& r.extension == file_meta.extension
            &&& (r.headers is Some <==> file_meta.headers is Some)
            &&& (r.headers is Some ==> r.headers->0@ == file_meta.headers->0@)
        },
        Option::Some(cm) => {
            &&& r.size == (if cm.size is Some {
                cm.size
            } else {
                file_meta.size
            })
            &&& r.created == (if cm.created is Some {
                cm.created
            } else {
                file_meta.created
            })
            &&& r.modified == (if cm.modified is Some {
                cm.modified
            } else {
                file_meta.modified
            })
            &&& r.extension == (if cm.extension is Some {
                cm.extension
            } else {
                file_meta.extension
            })
            &&& (cm.headers is Some ==> r.headers == cm.headers)
            &&& (cm.headers is None ==> ((r.headers is Some <==> file_meta.headers is Some) && (
            r.headers is Some ==> r.headers->0@ == file_meta.headers->0@)))
        },
    }
}

/// Merge chunk metadata over file metadata: a field the chunk carries
/// wins, a field it lacks falls back to the file's.
pub fn merge_metadata(file_meta: &Metadata, chunk_meta: Option<Metadata>) -> (r: Metadata)
    ensures
        spec_merged(*file_meta, chunk_meta, r),
{
    let base = Metadata {
        size: file_meta.size,
        created: file_meta.created,
        modified: file_meta.modified,
        extension: match &file_meta.extension {
            Some(e) => Some(e.clone()),
            None => None,
        },
        headers: match &file_meta.headers {
            Some(h) => Some(dup_strings(h)),
            None => None,
        },
    };
    match chunk_meta {
        None => base,
        Some(cm) => Metadata {
            size: if cm.size.is_some() {
                cm.size
            } else {
                base.size
            },
            created: if cm.created.is_some() {
                cm.created
            } else {
                base.created
            },
            modified: if cm.modified.is_some() {
                cm.modified
            } else {
                base.modified
            },
            extension: if cm.extension.is_some() {
                cm.extension
            } else {
                base.extension
            },
            headers: if cm.headers.is_some() {
                cm.headers
            } else {
                base.headers
            },
        },
    }
}

/// A reindex pass that was decided against leaves the store untouched:
/// once a file is marked indexed at or after its modification time, the
/// reindex decision for the same modification time is negative, so a
/// second pass over an unchanged file changes nothing and the chunk set
/// stays identical.
pub proof fn lemma_reindex_idempotent(db: &Database, path: Seq<char>, modified: u64, now: u64)
    requires
        db.wf(),
        exists|i: int|
            0 <= i < db.files@.len() && (#[trigger] db.files@[i]).path@ == path
                && db.files@[i].last_indexed == Some(now),
        modified <= now,
    ensures
        !spec_needs_reindex(db.files@, path, modified),
{
    let i = choose|i: int|
        0 <= i < db.files@.len() && (#[trigger] db.files@[i]).path@ == path && db.files@[
            i
        ].last_indexed == Some(now);
    assert forall|j: int|
        0 <= j < db.files@.len() && db.files@[j].path@ == path implies j == i by {
        if j != i {
            assert(db.files@[j].path@ != db.files@[i].path@);
        }
    }
}

/// Rewrite one file's chunk set in a single transaction: upsert the file
/// row, clear its old chunks, insert the new ones (each with the file
/// metadata merged under its own), and set the indexed mark. The rewrite
/// is all-or-nothing: on failure the store is exactly as it was, the old
/// chunk set stays visible, and the indexed mark stays unset.
pub fn reindex_file(
    db: &mut Database,
    path: &str,
    modified: u64,
    chunks: Vec<Chunk>,
    embeddings: Vec<Option<Vec<u8>>>,
    file_meta: &Metadata,
    now: u64,
) -> (r: Result<u64, CoreError>)
    requires
        old(db).wf(),
        embeddings@.len() == chunks@.len(),
        forall|i: int| 0 <= i < chunks@.len() ==> (#[trigger] chunks@[i]).start <= chunks@[i].end,
    ensures
        final(db).wf(),
        r is Err <==> (old(db).next_chunk_id + chunks@.len() > u64::MAX || (!spec_has_file(
            old(db).files@,
            path@,
        ) && old(db).next_file_id == u64::MAX)),
        r is Err ==> *final(db) == *old(db) && r->Err_0 is StorageUnavailable,
        r is Ok ==> ({
            let id = r->Ok_0;
            let kept = old(db).chunks@.filter(crate::store::chunk_not_of_file(id));
            &&& spec_has_file(final(db).files@, path@)
            &&& forall|i: int|
                0 <= i < final(db).files@.len() && (#[trigger] final(db).files@[i]).path@ == path@
                    ==> {
                    &&& final(db).files@[i].id == id
                    &&& final(db).files@[i].last_modified == modified
                    &&& final(db).files@[i].last_indexed == Some(now)
                }
            &&& final(db).chunks@.len() == kept.len() + chunks@.len()
            &&& forall|j: int| 0 <= j < kept.len() ==> final(db).chunks@[j] == kept[j]
            &&& forall|i: int|
                0 <= i < chunks@.len() ==> {
                    let c = #[trigger] final(db).chunks@[kept.len() + i];
                    &&& c.file_id == id
                    &&& c.start_offset == chunks@[i].start
                    &&& c.end_offset == chunks@[i].end
                    &&& c.content == chunks@[i].content
                    &&& c.embedding == embeddings@[i]
                    &&& c.metadata is Some
                    &&& spec_merged(*file_meta, chunks@[i].metadata, c.metadata->0)
                }
        }),
{
    let n_chunks = chunks.len();
    if db.next_chunk_id > u64::MAX - n_chunks as u64 {
        return Err(CoreError::StorageUnavailable);
    }
    let id = match db.add_or_update_file(path, modified) {
        Ok(id) => id,
        Err(_) => {
            return Err(CoreError::StorageUnavailable);
        },
    };
    db.clear_chunks(id);
    let ghost kept = old(db).chunks@.filter(crate::store::chunk_not_of_file(id));
    let ghost files_mid = db.files@;
    proof {
        assert forall|i2: int|
            0 <= i2 < files_mid.len() && (#[trigger] files_mid[i2]).path@ == path@ implies {
            &&& files_mid[i2].id == id
            &&& files_mid[i2].last_modified == modified
            &&& files_mid[i2].last_indexed is None
        } by {
            if spec_has_file(old(db).files@, path@) {
                let w = choose|w: int|
                    0 <= w < old(db).files@.len() && (#[trigger] old(db).files@[w]).path@
                        == path@;
                if i2 != w {
                    assert(files_mid[i2] == old(db).files@[i2]);
                    assert(old(db).files@[i2].path@ != old(db).files@[w].path@);
                }
            } else {
                if i2 < old(db).files@.len() {
                    assert(files_mid[i2] == old(db).files@[i2]);
                }
            }
        }
        assert(spec_has_file(files_mid, path@));
    }
    let mut pending = chunks;
    let mut pending_emb = embeddings;
    let ghost all_chunks = pending@;
    let ghost all_emb = pending_emb@;
    let mut i: usize = 0;
    while i < n_chunks
        invariant
            db.wf(),
            n_chunks == all_chunks.len(),
            all_emb.len() == all_chunks.len(),
            i <= n_chunks,
            pending@ == all_chunks.subrange(i as int, n_chunks as int),
            pending_emb@ == all_emb.subrange(i as int, n_chunks as int),
            forall|t: int|
                0 <= t < all_chunks.len() ==> (#[trigger] all_chunks[t]).start
                    <= all_chunks[t].end,
            db.files@ == files_mid,
            spec_has_file(files_mid, path@),
            forall|i2: int|
                0 <= i2 < files_mid.len() && (#[trigger] files_mid[i2]).path@ == path@ ==> {
                    &&& files_mid[i2].id == id
                    &&& files_mid[i2].last_modified == modified
                    &&& files_mid[i2].last_indexed is None
                },
            crate::store::spec_has_file_id(db.files@, id),
            db.next_chunk_id + (n_chunks - i) <= u64::MAX,
            db.chunks@.len() == kept.len() + i,
            forall|j: int| 0 <= j < kept.len() ==> #[trigger] db.chunks@[j] == kept[j],
            forall|t: int|
                0 <= t < i ==> {
                    let c = #[trigger] db.chunks@[kept.len() + t];
                    &&& c.file_id == id
                    &&& c.start_offset == all_chunks[t].start
                    &&& c.end_offset == all_chunks[t].end
                    &&& c.content == all_chunks[t].content
                    &&& c.embedding == all_emb[t]
                    &&& c.metadata is Some
                    &&& spec_merged(*file_meta, all_chunks[t].metadata, c.metadata->0)
                },
        decreases n_chunks - i,
    {
        let c = pending.remove(0);
        let e = pending_emb.remove(0);
        proof {
            assert(c == all_chunks[i as int]);
            assert(e == all_emb[i as int]);
            assert(pending@ =~= all_chunks.subrange(i as int + 1, n_chunks as int));
            assert(pending_emb@ =~= all_emb.subrange(i as int + 1, n_chunks as int));
        }
        let meta = merge_metadata(file_meta, c.metadata);
        match db.add_chunk(id, c.start, c.end, c.content, e, Some(meta)) {
            Ok(_) => {},
            Err(_) => {
                proof {
                    assert(false);
                }
                return Err(CoreError::StorageUnavailable);
            },
        }
        i += 1;
    }
    let ghost files_pre_mark = db.files@;
    db.mark_indexed(id, now);
    proof {
        assert forall|i2: int|
            0 <= i2 < db.files@.len() && (#[trigger] db.files@[i2]).path@ == path@ implies {
            &&& db.files@[i2].id == id
            &&& db.files@[i2].last_modified == modified
            &&& db.files@[i2].last_indexed == Some(now)
        } by {
            assert(db.files@[i2].path@ == files_pre_mark[i2].path@);
        }
        assert(spec_has_file(db.files@, path@)) by {
            let w = choose|w: int|
                0 <= w < files_pre_mark.len() && (#[trigger] files_pre_mark[w]).path@ == path@;
            assert(db.files@[w].path@ == path@);
        }
    }
    Ok(id)
}

/// The full argument vector a plugin is invoked with: the configured
/// command with the file path appended as the trailing argument.
pub fn plugin_argv(cmd: &Vec<String>, file_path: &str) -> (r: Result<Vec<String>, CoreError>)
    ensures
        r is Err <==> cmd@.len() == 0,
        r is Err ==> r->Err_0 is PluginEmpty,
        r is Ok ==> {
            &&& r->Ok_0@.len() == cmd@.len() + 1
            &&& forall|i: int| 0 <= i < cmd@.len() ==> #[trigger] r->Ok_0@[i] == cmd@[i]
            &&& r->Ok_0@.last()@ == file_path@
        },
{
    if cmd.len() == 0 {
        return Err(CoreError::PluginEmpty);
    }
    let mut r = dup_strings(cmd);
    r.push(file_path.to_owned());
    Ok(r)
}

/// Classify what came back from a plugin run: a timeout, a non-zero
/// exit (with its status and captured stderr), stdout that is not text,
/// or the output itself.
pub fn classify_plugin_result(
    timed_out: bool,
    exit_ok: bool,
    exit_code: i64,
    stderr: String,
    stdout_text: Option<String>,
) -> (r: Result<String, CoreError>)
    ensures
        r is Ok <==> (!timed_out && exit_ok && stdout_text is Some),
        r is Ok ==> r->Ok_0 == stdout_text->0,
        timed_out ==> r->Err_0 is PluginTimeout,
        (!timed_out && !exit_ok) ==> r->Err_0 == (CoreError::PluginExit(exit_code, stderr)),
        (!timed_out && exit_ok && stdout_text is None) ==> r->Err_0 is PluginBinary,
{
    if timed_out {
        return Err(CoreError::PluginTimeout);
    }
    if !exit_ok {
        return Err(CoreError::PluginExit(exit_code, stderr));
    }
    match stdout_text {
        Some(t) => Ok(t),
        None => Err(CoreError::PluginBinary),
    }
}

} // verus!
