//! The hybrid ranker. Scores are fixed-point integers: a cosine
//! similarity arrives from the embedding host in micros (1.0 is
//! 1_000_000), and a recency-weighted final score is kept at micro
//! precision squared (1.0 is 1_000_000 * 1_000_000), so that ordering is
//! exact and free of rounding ties.

use vstd::prelude::*;
use vstd::multiset::Multiset;
use vstd::string::StringSliceAdditionalSpecFns;
use crate::store::{ChunkRecord, Database, FileRecord};
use crate::strutil::{
    bytes_eq, contains_bytes, dup_bytes, eq_lower, ext_lower, spec_contains_bytes,
    spec_ext_lower_bytes, spec_lower_bytes, spec_match_at,
};

verus! {

/// One unit of score, in micros.
pub const MICRO: i64 = 1_000_000;

/// Results returned when the caller does not say how many.
pub const DEFAULT_LIMIT: usize = 10;

/// Cap on intermediate result lists.
pub const INTERMEDIATE_CAP: usize = 50;

/// Recency weight used when the caller does not set one, in micros.
pub const DEFAULT_RECENCY_WEIGHT: i64 = 100_000;

/// Caller-supplied retrieval options. `min_score` is a cosine cutoff in
/// micros; `recency_weight` is in micros of weight.
pub struct SearchOptions {
    pub limit: Option<usize>,
    pub start_time: Option<u64>,
    pub end_time: Option<u64>,
    pub file_types: Option<Vec<String>>,
    pub paths: Option<Vec<String>>,
    pub min_score: Option<i64>,
    pub recency_weight: Option<i64>,
}

impl SearchOptions {
    /// Options with nothing set.
    pub fn none() -> (r: SearchOptions)
        ensures
            r.limit is None,
            r.start_time is None,
            r.end_time is None,
            r.file_types is None,
            r.paths is None,
            r.min_score is None,
            r.recency_weight is None,
    {
        SearchOptions {
            limit: None,
            start_time: None,
            end_time: None,
            file_types: None,
            paths: None,
            min_score: None,
            recency_weight: None,
        }
    }
}

/// A chunk that has been scored against the query vector: the cosine
/// similarity in micros, along with everything the result row carries.
pub struct ScoredChunk {
    pub chunk_id: u64,
    pub content: String,
    pub score: i64,
    pub file_path: String,
    pub file_type: String,
    pub last_modified: u64,
}

/// One retrieval result.
pub struct SearchResult {
    pub chunk_id: u64,
    pub content: String,
    pub score: i64,
    pub file_path: String,
    pub file_type: String,
    pub last_modified: u64,
}

impl SearchResult {
    /// An exact copy.
    pub fn duplicate(&self) -> (r: SearchResult)
        ensures
            r == *self,
    {
        SearchResult {
            chunk_id: self.chunk_id,
            content: self.content.clone(),
            score: self.score,
            file_path: self.file_path.clone(),
            file_type: self.file_type.clone(),
            last_modified: self.last_modified,
        }
    }
}

/// Does a modification time fall inside the caller's window?
pub open spec fn spec_in_window(lm: u64, start_time: Option<u64>, end_time: Option<u64>) -> bool {
    &&& (start_time is Some ==> lm >= start_time->0)
    &&& (end_time is Some ==> lm <= end_time->0)
}

/// File-type filter over the type's bytes: some requested type,
/// ASCII-lowered, must equal them.
pub open spec fn spec_passes_types_bytes(ftb: Seq<u8>, types: &Option<Vec<String>>) -> bool {
    match types {
        None => true,
        Some(ts) => exists|i: int|
            0 <= i < ts@.len() && spec_lower_bytes(vstd::utf8::encode_utf8(ts@[i]@)) == ftb,
    }
}

/// File-type filter: some requested type, ASCII-lowered, must equal the
/// candidate's (already lowered) type.
pub open spec fn spec_passes_types(ft: Seq<char>, types: &Option<Vec<String>>) -> bool {
    spec_passes_types_bytes(vstd::utf8::encode_utf8(ft), types)
}

/// Path filter: some requested fragment must occur in the file path.
pub open spec fn spec_passes_paths(fp: Seq<char>, paths: &Option<Vec<String>>) -> bool {
    match paths {
        None => true,
        Some(ps) => exists|i: int|
            0 <= i < ps@.len() && spec_contains_bytes(
                vstd::utf8::encode_utf8(fp),
                vstd::utf8::encode_utf8(ps@[i]@),
            ),
    }
}

/// All in-memory post-filters of the vector path, in their stated order:
/// file type, path fragment, minimum cosine.
pub open spec fn spec_passes_filters(c: ScoredChunk, opts: &SearchOptions) -> bool {
    &&& spec_passes_types(c.file_type@, &opts.file_types)
    &&& spec_passes_paths(c.file_path@, &opts.paths)
    &&& (opts.min_score is Some ==> c.score >= opts.min_score->0)
}

/// Cosine clamped to the meaningful range of micros.
pub open spec fn spec_clamp_micro(s: i64) -> int {
    if s > 1_000_000 {
        1_000_000
    } else if s < -1_000_000 {
        -1_000_000
    } else {
        s as int
    }
}

/// Recency weight clamped to [0, 1] in micros.
pub open spec fn spec_clamp_weight(w: i64) -> int {
    if w > 1_000_000 {
        1_000_000
    } else if w < 0 {
        0
    } else {
        w as int
    }
}

/// The recency boost in micros: 1 / (1 + age_in_days).
pub open spec fn spec_boost(now: u64, lm: u64) -> int {
    let age: int = if now > lm {
        now - lm
    } else {
        0
    };
    (86_400int * 1_000_000) / (86_400int + age)
}

/// The recency-weighted final score, at micro-squared scale:
/// cosine * (1 - w) + boost * w.
pub open spec fn spec_final_score(score: i64, w: i64, now: u64, lm: u64) -> int {
    spec_clamp_micro(score) * (1_000_000 - spec_clamp_weight(w)) + spec_boost(now, lm)
        * spec_clamp_weight(w)
}

/// The result row a scored chunk becomes.
pub open spec fn spec_result_of(c: ScoredChunk, w: i64, now: u64) -> SearchResult {
    SearchResult {
        chunk_id: c.chunk_id,
        content: c.content,
        score: spec_final_score(c.score, w, now, c.last_modified) as i64,
        file_path: c.file_path,
        file_type: c.file_type,
        last_modified: c.last_modified,
    }
}

/// The filter predicate of the vector path, as a value.
pub open spec fn passes_pred(opts: &SearchOptions) -> spec_fn(ScoredChunk) -> bool {
    |c: ScoredChunk| spec_passes_filters(c, opts)
}

/// The scoring map of the vector path, as a value.
pub open spec fn result_map(w: i64, now: u64) -> spec_fn(ScoredChunk) -> SearchResult {
    |c: ScoredChunk| spec_result_of(c, w, now)
}

/// The full scored list of the vector path before sorting: the passing
/// candidates, in their arrival order, with final scores.
pub open spec fn spec_vector_pre(
    cands: Seq<ScoredChunk>,
    opts: &SearchOptions,
    w: i64,
    now: u64,
) -> Seq<SearchResult> {
    cands.filter(passes_pred(opts)).map_values(result_map(w, now))
}

/// The recency weight and result cap the options select.
pub open spec fn spec_weight_of(opts: &SearchOptions) -> i64 {
    if opts.recency_weight is Some {
        opts.recency_weight->0
    } else {
        DEFAULT_RECENCY_WEIGHT
    }
}

/// The result cap the options select.
pub open spec fn spec_limit_of(opts: &SearchOptions) -> usize {
    if opts.limit is Some {
        opts.limit->0
    } else {
        DEFAULT_LIMIT
    }
}

/// Scores never grow along the list.
pub open spec fn spec_sorted_desc(s: Seq<SearchResult>) -> bool {
    forall|i: int, j: int| 0 <= i < j < s.len() ==> s[i].score >= s[j].score
}

/// `out` lists entries of `input` through the injective index map
/// `perm`, scores descending, and ties kept in arrival order: equal
/// scores come out in the order they went in.
pub open spec fn spec_stable_desc_of(
    input: Seq<SearchResult>,
    out: Seq<SearchResult>,
    perm: Seq<int>,
) -> bool {
    &&& perm.len() == out.len()
    &&& forall|k: int| 0 <= k < out.len() ==> 0 <= #[trigger] perm[k] < input.len()
    &&& forall|k1: int, k2: int|
        0 <= k1 < k2 < out.len() ==> #[trigger] perm[k1] != #[trigger] perm[k2]
    &&& forall|k: int| 0 <= k < out.len() ==> #[trigger] out[k] == input[perm[k]]
    &&& forall|i: int, j: int| 0 <= i < j < out.len() ==> out[i].score >= out[j].score
    &&& forall|k1: int, k2: int|
        0 <= k1 < k2 < out.len() && out[k1].score == out[k2].score ==> #[trigger] perm[k1]
            < #[trigger] perm[k2]
}

/// Bounded factors give a bounded product.
proof fn lemma_mul_bounds(a: int, b: int)
    by (nonlinear_arith)
    requires
        -1_000_000 <= a <= 1_000_000,
        0 <= b <= 1_000_000,
    ensures
        -1_000_000_000_000 <= a * b <= 1_000_000_000_000,
{
}

/// The boost stays within one unit of score.
pub proof fn lemma_boost_range(now: u64, lm: u64)
    ensures
        0 <= spec_boost(now, lm) <= 1_000_000,
{
    let age = if now > lm {
        (now - lm) as int
    } else {
        0
    };
    let num: int = 86_400int * 1_000_000;
    let den: int = 86_400int + age;
    vstd::arithmetic::div_mod::lemma_fundamental_div_mod(num, den);
    let q = num / den;
    assert(q * den <= num);
    assert(0 <= q <= 1_000_000) by (nonlinear_arith)
        requires
            q * den <= num,
            num == q * den + num % den,
            0 <= num % den < den,
            num == 86_400 * 1_000_000,
            den >= 86_400,
    ;
}

/// The recency boost, in micros.
fn boost_micro(now: u64, lm: u64) -> (r: i64)
    ensures
        r == spec_boost(now, lm),
        0 <= r <= 1_000_000,
{
    let age: u64 = if now > lm {
        now - lm
    } else {
        0
    };
    let num: u128 = 86_400 * 1_000_000;
    let den: u128 = 86_400 + age as u128;
    let q = num / den;
    proof {
        lemma_boost_range(now, lm);
    }
    q as i64
}

/// The recency-weighted final score of one chunk.
pub fn final_score(score: i64, w: i64, now: u64, lm: u64) -> (r: i64)
    ensures
        r == spec_final_score(score, w, now, lm),
{
    let s: i64 = if score > MICRO {
        MICRO
    } else if score < -MICRO {
        -MICRO
    } else {
        score
    };
    let wc: i64 = if w > MICRO {
        MICRO
    } else if w < 0 {
        0
    } else {
        w
    };
    let b = boost_micro(now, lm);
    proof {
        lemma_mul_bounds(s as int, (1_000_000 - wc) as int);
        lemma_mul_bounds(b as int, wc as int);
    }
    s * (MICRO - wc) + b * wc
}

/// Stable descending sort by score: repeatedly extract the earliest
/// maximum, so equal scores keep their arrival order.
pub fn sort_results_desc(input: Vec<SearchResult>) -> (r: Vec<SearchResult>)
    ensures
        spec_sorted_desc(r@),
        r@.to_multiset() == input@.to_multiset(),
        r@.len() == input@.len(),
        exists|perm: Seq<int>| #[trigger] spec_stable_desc_of(input@, r@, perm),
{
    broadcast use vstd::seq_lib::group_to_multiset_ensures;

    let ghost all = input@;
    let mut rest = input;
    let mut out: Vec<SearchResult> = Vec::new();
    let ghost mut rest_idx = Seq::new(all.len(), |t: int| t);
    let ghost mut operm = Seq::<int>::empty();
    while rest.len() > 0
        invariant
            spec_sorted_desc(out@),
            out@.to_multiset().add(rest@.to_multiset()) == all.to_multiset(),
            out@.len() + rest@.len() == all.len(),
            forall|i: int, j: int|
                0 <= i < out@.len() && 0 <= j < rest@.len() ==> out@[i].score >= rest@[j].score,
            rest_idx.len() == rest@.len(),
            forall|t: int|
                0 <= t < rest_idx.len() ==> 0 <= #[trigger] rest_idx[t] < all.len() && rest@[t]
                    == all[rest_idx[t]],
            forall|t1: int, t2: int|
                0 <= t1 < t2 < rest_idx.len() ==> #[trigger] rest_idx[t1] < #[trigger] rest_idx[t2],
            operm.len() == out@.len(),
            forall|k: int|
                0 <= k < operm.len() ==> 0 <= #[trigger] operm[k] < all.len() && out@[k]
                    == all[operm[k]],
            forall|k1: int, k2: int|
                0 <= k1 < k2 < operm.len() ==> #[trigger] operm[k1] != #[trigger] operm[k2],
            forall|k: int, t: int|
                0 <= k < operm.len() && 0 <= t < rest_idx.len() ==> #[trigger] operm[k]
                    != #[trigger] rest_idx[t],
            forall|k: int, t: int|
                0 <= k < out@.len() && 0 <= t < rest@.len() && out@[k].score == rest@[t].score
                    ==> #[trigger] operm[k] < #[trigger] rest_idx[t],
            forall|k1: int, k2: int|
                0 <= k1 < k2 < out@.len() && out@[k1].score == out@[k2].score
                    ==> #[trigger] operm[k1] < #[trigger] operm[k2],
        decreases rest@.len(),
    {
        let m = rest.len();
        let mut best: usize = 0;
        let mut t: usize = 1;
        while t < m
            invariant
                m == rest@.len(),
                0 < m,
                best < t <= m,
                forall|k: int| 0 <= k < t ==> rest@[best as int].score >= rest@[k].score,
                forall|k: int| 0 <= k < best ==> rest@[k].score < rest@[best as int].score,
            decreases m - t,
        {
            if rest[t].score > rest[best].score {
                best = t;
            }
            t += 1;
        }
        let ghost rest_before = rest@;
        let ghost idx_before = rest_idx;
        let chosen = rest.remove(best);
        proof {
            rest_idx = idx_before.remove(best as int);
            operm = operm.push(idx_before[best as int]);
            rest_before.to_multiset_ensures();
            out@.to_multiset_ensures();
            assert(rest@.to_multiset() =~= rest_before.to_multiset().remove(chosen));
            assert(rest_before.to_multiset().count(chosen) > 0);
            assert(out@.push(chosen).to_multiset() =~= out@.to_multiset().insert(chosen));
            assert(out@.push(chosen).to_multiset().add(rest@.to_multiset()) =~= all.to_multiset());
            assert forall|j: int| 0 <= j < rest@.len() implies chosen.score >= rest@[j].score by {
                if j < best {
                    assert(rest@[j] == rest_before[j]);
                } else {
                    assert(rest@[j] == rest_before[j + 1]);
                }
            }
            // the index lists track the removal
            assert(rest_idx.len() == rest@.len());
            assert forall|j: int| 0 <= j < rest@.len() implies rest@[j] == all[#[trigger] rest_idx[j]]
                && 0 <= rest_idx[j] < all.len() by {
                if j < best {
                    assert(rest@[j] == rest_before[j]);
                    assert(rest_idx[j] == idx_before[j]);
                } else {
                    assert(rest@[j] == rest_before[j + 1]);
                    assert(rest_idx[j] == idx_before[j + 1]);
                }
            }
            assert forall|t1: int, t2: int| 0 <= t1 < t2 < rest_idx.len() implies #[trigger] rest_idx[t1]
                < #[trigger] rest_idx[t2] by {
                if t2 < best {
                } else if t1 < best {
                    assert(rest_idx[t1] == idx_before[t1]);
                    assert(rest_idx[t2] == idx_before[t2 + 1]);
                } else {
                    assert(rest_idx[t1] == idx_before[t1 + 1]);
                    assert(rest_idx[t2] == idx_before[t2 + 1]);
                }
            }
            // the chosen element is the earliest of its score still left,
            // so every remaining equal score sits at a later arrival index
            assert forall|j: int|
                0 <= j < rest@.len() && chosen.score == rest@[j].score implies idx_before[
                best as int
            ] < #[trigger] rest_idx[j] by {
                if j < best {
                    assert(rest@[j] == rest_before[j]);
                    assert(rest_before[j].score < rest_before[best as int].score);
                    assert(false);
                } else {
                    assert(rest_idx[j] == idx_before[j + 1]);
                }
            }
        }
        out.push(chosen);
    }
    proof {
        assert(rest@.to_multiset() =~= Multiset::<SearchResult>::empty());
        assert(out@.to_multiset() =~= all.to_multiset());
        assert(spec_stable_desc_of(all, out@, operm));
    }
    out
}

/// Does some requested type, ASCII-lowered, equal this (lowered) type?
fn passes_types(ft: &str, types: &Option<Vec<String>>) -> (r: bool)
    ensures
        r == spec_passes_types(ft@, types),
{
    match types {
        None => true,
        Some(ts) => {
            let n = ts.len();
            let mut found = false;
            let mut i: usize = 0;
            while i < n
                invariant
                    n == ts@.len(),
                    i <= n,
                    found == exists|j: int|
                        0 <= j < i && spec_lower_bytes(vstd::utf8::encode_utf8(ts@[j]@))
                            == vstd::utf8::encode_utf8(ft@),
                decreases n - i,
            {
                if eq_lower(ts[i].as_str().as_bytes(), ft.as_bytes()) {
                    found = true;
                }
                i += 1;
            }
            found
        },
    }
}

/// Does some requested fragment occur in this path?
fn passes_paths(fp: &str, paths: &Option<Vec<String>>) -> (r: bool)
    ensures
        r == spec_passes_paths(fp@, paths),
{
    match paths {
        None => true,
        Some(ps) => {
            let n = ps.len();
            let mut found = false;
            let mut i: usize = 0;
            while i < n
                invariant
                    n == ps@.len(),
                    i <= n,
                    found == exists|j: int|
                        0 <= j < i && spec_contains_bytes(
                            vstd::utf8::encode_utf8(fp@),
                            vstd::utf8::encode_utf8(ps@[j]@),
                        ),
                decreases n - i,
            {
                if contains_bytes(fp.as_bytes(), ps[i].as_str().as_bytes()) {
                    found = true;
                }
                i += 1;
            }
            found
        },
    }
}

/// Do the in-memory post-filters pass this chunk?
fn passes_filters(c: &ScoredChunk, opts: &SearchOptions) -> (r: bool)
    ensures
        r == spec_passes_filters(*c, opts),
{
    if !passes_types(c.file_type.as_str(), &opts.file_types) {
        return false;
    }
    if !passes_paths(c.file_path.as_str(), &opts.paths) {
        return false;
    }
    match opts.min_score {
        Some(m) => c.score >= m,
        None => true,
    }
}

/// Rank scored chunks: apply the post-filters, re-weight by recency,
/// sort descending, and truncate to the caller's limit. The returned
/// list is a sorted selection of the highest-scoring passing chunks.
pub fn vector_rank(cands: Vec<ScoredChunk>, opts: &SearchOptions, now: u64) -> (r: Vec<
    SearchResult,
>)
    ensures
        ({
            let pre = spec_vector_pre(cands@, opts, spec_weight_of(opts), now);
            let limit = spec_limit_of(opts);
            &&& spec_sorted_desc(r@)
            &&& r@.len() == if pre.len() <= limit {
                pre.len() as int
            } else {
                limit as int
            }
            &&& r@.to_multiset().subset_of(pre.to_multiset())
            &&& (pre.len() <= limit ==> r@.to_multiset() == pre.to_multiset())
            &&& forall|x: SearchResult|
                pre.to_multiset().count(x) > r@.to_multiset().count(x) ==> forall|k: int|
                    0 <= k < r@.len() ==> r@[k].score >= x.score
            // ties keep arrival order: the result is a prefix of the
            // stable descending sort of the passing list
            &&& exists|perm: Seq<int>| #[trigger] spec_stable_desc_of(pre, r@, perm)
        }),
{
    let w = match opts.recency_weight {
        Some(x) => x,
        None => DEFAULT_RECENCY_WEIGHT,
    };
    let limit = match opts.limit {
        Some(l) => l,
        None => DEFAULT_LIMIT,
    };
    let ghost orig = cands@;
    let ghost pred = passes_pred(opts);
    let ghost rmap = result_map(w, now);
    let mut pending = cands;
    let mut picked: Vec<SearchResult> = Vec::new();
    let n = pending.len();
    let mut k: usize = 0;
    while k < n
        invariant
            n == orig.len(),
            k <= n,
            pending@ == orig.subrange(k as int, n as int),
            pred == passes_pred(opts),
            rmap == result_map(w, now),
            picked@ == orig.subrange(0, k as int).filter(pred).map_values(rmap),
        decreases n - k,
    {
        let c = pending.remove(0);
        proof {
            assert(c == orig[k as int]);
            crate::store::lemma_filter_step(orig, pred, k as int);
            assert(pending@ =~= orig.subrange(k + 1, n as int));
        }
        let keep = passes_filters(&c, opts);
        if keep {
            let score = final_score(c.score, w, now, c.last_modified);
            let rec = SearchResult {
                chunk_id: c.chunk_id,
                content: c.content,
                score,
                file_path: c.file_path,
                file_type: c.file_type,
                last_modified: c.last_modified,
            };
            proof {
                lemma_boost_range(now, c.last_modified);
                lemma_mul_bounds(spec_clamp_micro(c.score), 1_000_000 - spec_clamp_weight(w));
                lemma_mul_bounds(spec_boost(now, c.last_modified), spec_clamp_weight(w));
                assert(rec == rmap(c));
                assert(picked@.push(rmap(c)) =~= orig.subrange(0, k + 1).filter(pred).map_values(
                    rmap,
                ));
            }
            picked.push(rec);
        } else {
            proof {
                assert(picked@ =~= orig.subrange(0, k + 1).filter(pred).map_values(rmap));
            }
        }
        k += 1;
    }
    proof {
        assert(orig.subrange(0, n as int) =~= orig);
    }
    let ghost pre = spec_vector_pre(cands@, opts, spec_weight_of(opts), now);
    proof {
        assert(pre == picked@);
    }
    let mut sorted = sort_results_desc(picked);
    let ghost full = sorted@;
    sorted.truncate(limit);
    proof {
        broadcast use vstd::seq_lib::group_to_multiset_ensures;

        if limit <= full.len() {
            assert(sorted@ == full.subrange(0, limit as int));
            assert(full =~= full.subrange(0, limit as int) + full.subrange(
                limit as int,
                full.len() as int,
            ));
            vstd::seq_lib::lemma_multiset_commutative(
                full.subrange(0, limit as int),
                full.subrange(limit as int, full.len() as int),
            );
            let tail = full.subrange(limit as int, full.len() as int);
            assert(full.to_multiset() == sorted@.to_multiset().add(tail.to_multiset()));
            assert forall|x: SearchResult| #[trigger] sorted@.to_multiset().count(x)
                <= full.to_multiset().count(x) by {
                assert(full.to_multiset().count(x) == sorted@.to_multiset().count(x)
                    + tail.to_multiset().count(x));
            }
            assert(sorted@.to_multiset().subset_of(pre.to_multiset()));
            assert forall|x: SearchResult|
                pre.to_multiset().count(x) > sorted@.to_multiset().count(x) implies forall|k2: int|
                0 <= k2 < sorted@.len() ==> sorted@[k2].score >= x.score by {
                assert(tail.to_multiset().count(x) > 0);
                assert(tail.contains(x));
                let wdx = choose|wdx: int| 0 <= wdx < tail.len() && tail[wdx] == x;
                assert(full[limit + wdx] == x);
                assert forall|k2: int| 0 <= k2 < sorted@.len() implies sorted@[k2].score
                    >= x.score by {
                    assert(full[k2] == sorted@[k2]);
                }
            }
        } else {
            assert(sorted@ == full);
            assert forall|x: SearchResult|
                pre.to_multiset().count(x) > sorted@.to_multiset().count(x) implies forall|k2: int|
                0 <= k2 < sorted@.len() ==> sorted@[k2].score >= x.score by {
                assert(false);
            }
        }
        let perm0 = choose|perm0: Seq<int>| spec_stable_desc_of(pre, full, perm0);
        let cut: int = if limit as int <= full.len() as int {
            limit as int
        } else {
            full.len() as int
        };
        let permc = perm0.subrange(0, cut);
        assert(sorted@ == full.subrange(0, cut));
        assert forall|k: int| 0 <= k < sorted@.len() implies #[trigger] sorted@[k] == pre[permc[k]]
            && 0 <= permc[k] < pre.len() by {
            assert(sorted@[k] == full[k]);
            assert(permc[k] == perm0[k]);
        }
        assert(spec_stable_desc_of(pre, sorted@, permc));
    }
    sorted
}

/// A chunk row that is eligible for vector scoring: its embedding blob
/// has exactly the query's width, and its file satisfies the window.
pub struct Candidate {
    pub chunk_id: u64,
    pub content: String,
    pub embedding: Vec<u8>,
    pub file_path: String,
    pub file_type: String,
    pub last_modified: u64,
}

/// The chunk rows the vector path may score: an embedding of exactly
/// `4 * dim` bytes, and a file row inside the caller's time window.
pub open spec fn candidate_pred(
    files: Seq<FileRecord>,
    dim: usize,
    start_time: Option<u64>,
    end_time: Option<u64>,
) -> spec_fn(ChunkRecord) -> bool {
    |c: ChunkRecord|
        {
            &&& c.embedding is Some
            &&& c.embedding->0@.len() == 4 * dim
            &&& exists|j: int|
                0 <= j < files.len() && files[j].id == c.file_id && spec_in_window(
                    files[j].last_modified,
                    start_time,
                    end_time,
                )
        }
}

/// The file fields a candidate or full-text result carries, tied to the
/// file row that owns the chunk.
pub open spec fn spec_file_fields(
    files: Seq<FileRecord>,
    file_id: u64,
    file_path: Seq<char>,
    file_type: Seq<char>,
    last_modified: u64,
) -> bool {
    forall|j: int|
        0 <= j < files.len() && files[j].id == file_id ==> {
            &&& file_path == files[j].path@
            &&& vstd::utf8::encode_utf8(file_type) == spec_ext_lower_bytes(
                vstd::utf8::encode_utf8(files[j].path@),
            )
            &&& last_modified == files[j].last_modified
        }
}

impl Database {
    /// Index of the file row with this id, if any.
    pub fn find_file_by_id(&self, id: u64) -> (r: Option<usize>)
        ensures
            match r {
                Some(j) => 0 <= j < self.files@.len() && self.files@[j as int].id == id,
                None => !crate::store::spec_has_file_id(self.files@, id),
            },
    {
        let n = self.files.len();
        let mut i: usize = 0;
        while i < n
            invariant
                n == self.files@.len(),
                i <= n,
                forall|j: int| 0 <= j < i ==> self.files@[j].id != id,
            decreases n - i,
        {
            if self.files[i].id == id {
                return Some(i);
            }
            i += 1;
        }
        None
    }

    /// The chunk rows eligible for vector scoring against a query of
    /// width `dim`, joined with their file rows. Rows whose embedding
    /// blob decodes to a different width are skipped, never touched.
    pub fn vector_candidates(&self, dim: usize, start_time: Option<u64>, end_time: Option<u64>) -> (
        r: Vec<Candidate>)
        requires
            self.wf(),
        ensures
            ({
                let kept = self.chunks@.filter(
                    candidate_pred(self.files@, dim, start_time, end_time),
                );
                &&& r@.len() == kept.len()
                &&& forall|k: int|
                    0 <= k < kept.len() ==> {
                        &&& (#[trigger] r@[k]).chunk_id == kept[k].id
                        &&& r@[k].content == kept[k].content
                        &&& r@[k].embedding@ == kept[k].embedding->0@
                        &&& r@[k].embedding@.len() == 4 * dim
                        &&& spec_file_fields(
                            self.files@,
                            kept[k].file_id,
                            r@[k].file_path@,
                            r@[k].file_type@,
                            r@[k].last_modified,
                        )
                    }
            }),
    {
        let ghost pred = candidate_pred(self.files@, dim, start_time, end_time);
        let mut out: Vec<Candidate> = Vec::new();
        let n = self.chunks.len();
        let mut i: usize = 0;
        while i < n
            invariant
                self.wf(),
                n == self.chunks@.len(),
                i <= n,
                pred == candidate_pred(self.files@, dim, start_time, end_time),
                out@.len() == self.chunks@.subrange(0, i as int).filter(pred).len(),
                forall|k: int|
                    0 <= k < out@.len() ==> {
                        let kept = self.chunks@.subrange(0, i as int).filter(pred);
                        &&& (#[trigger] out@[k]).chunk_id == kept[k].id
                        &&& out@[k].content == kept[k].content
                        &&& out@[k].embedding@ == kept[k].embedding->0@
                        &&& out@[k].embedding@.len() == 4 * dim
                        &&& spec_file_fields(
                            self.files@,
                            kept[k].file_id,
                            out@[k].file_path@,
                            out@[k].file_type@,
                            out@[k].last_modified,
                        )
                    },
            decreases n - i,
        {
            proof {
                crate::store::lemma_filter_step(self.chunks@, pred, i as int);
            }
            let passes: bool = match &self.chunks[i].embedding {
                None => false,
                Some(v) => {
                    let len_ok = v.len() % 4 == 0 && v.len() / 4 == dim;
                    proof {
                        vstd::arithmetic::div_mod::lemma_fundamental_div_mod(
                            v@.len() as int,
                            4,
                        );
                    }
                    if len_ok {
                        match self.find_file_by_id(self.chunks[i].file_id) {
                            None => false,
                            Some(j) => {
                                let lm = self.files[j].last_modified;
                                let start_ok = match start_time {
                                    Some(t) => lm >= t,
                                    None => true,
                                };
                                let end_ok = match end_time {
                                    Some(t) => lm <= t,
                                    None => true,
                                };
                                start_ok && end_ok
                            },
                        }
                    } else {
                        false
                    }
                },
            };
            if passes {
                let j = match self.find_file_by_id(self.chunks[i].file_id) {
                    Some(j) => j,
                    None => {
                        proof {
                            assert(false);
                        }
                        0
                    },
                };
                let emb = match &self.chunks[i].embedding {
                    Some(v) => dup_bytes(v),
                    None => {
                        proof {
                            assert(false);
                        }
                        Vec::new()
                    },
                };
                let cand = Candidate {
                    chunk_id: self.chunks[i].id,
                    content: self.chunks[i].content.clone(),
                    embedding: emb,
                    file_path: self.files[j].path.clone(),
                    file_type: ext_lower(self.files[j].path.as_str()),
                    last_modified: self.files[j].last_modified,
                };
                proof {
                    let kept_new = self.chunks@.subrange(0, i + 1).filter(pred);
                    let kept_old = self.chunks@.subrange(0, i as int).filter(pred);
                    assert(pred(self.chunks@[i as int]));
                    assert(kept_new == kept_old.push(self.chunks@[i as int]));
                    assert forall|j2: int|
                        0 <= j2 < self.files@.len() && self.files@[j2].id == self.chunks@[
                            i as int
                        ].file_id implies j2 == j by {
                        if j2 != j {
                            assert(self.files@[j2].id == self.files@[j as int].id);
                        }
                    }
                }
                out.push(cand);
            } else {
                proof {
                    assert(!pred(self.chunks@[i as int]));
                    assert(self.chunks@.subrange(0, i + 1).filter(pred)
                        == self.chunks@.subrange(0, i as int).filter(pred));
                }
            }
            i += 1;
        }
        proof {
            assert(self.chunks@.subrange(0, n as int) =~= self.chunks@);
        }
        out
    }
}

/// Rank (0-based position) of the first entry with this chunk id, or -1.
pub open spec fn spec_idx(list: Seq<SearchResult>, id: u64) -> int
    decreases list.len(),
{
    if list.len() == 0 {
        -1
    } else if list[0].chunk_id == id {
        0
    } else {
        if spec_idx(list.drop_first(), id) < 0 {
            -1
        } else {
            spec_idx(list.drop_first(), id) + 1
        }
    }
}

/// The reciprocal-rank contribution of one list, in micros: 1/(60 + rank)
/// with rank 1-based, zero when the id is absent.
pub open spec fn spec_rrf_contrib(list: Seq<SearchResult>, id: u64) -> int {
    if spec_idx(list, id) >= 0 {
        1_000_000int / (61 + spec_idx(list, id))
    } else {
        0
    }
}

/// The fused score of a chunk: its contributions from the vector list and
/// the full-text list, summed.
pub open spec fn spec_rrf_score(v: Seq<SearchResult>, f: Seq<SearchResult>, id: u64) -> int {
    spec_rrf_contrib(v, id) + spec_rrf_contrib(f, id)
}

/// Reciprocal-rank contributions strictly decrease with rank while the
/// divisor stays in the range short result lists produce.
proof fn lemma_rrf_div_strict(a: int, b: int)
    requires
        61 <= a < b <= 111,
    ensures
        1_000_000int / a > 1_000_000int / b,
{
    vstd::arithmetic::div_mod::lemma_fundamental_div_mod(1_000_000int, a);
    vstd::arithmetic::div_mod::lemma_fundamental_div_mod(1_000_000int, b);
    let qa = 1_000_000int / a;
    let qb = 1_000_000int / b;
    let ra = 1_000_000int % a;
    let rb = 1_000_000int % b;
    assert(qa > qb) by (nonlinear_arith)
        requires
            a * qa + ra == 1_000_000int,
            0 <= ra < a,
            b * qb + rb == 1_000_000int,
            0 <= rb < b,
            61 <= a < b <= 111,
    ;
}

/// Reciprocal rank fusion is monotone: when one chunk outranks another in
/// both the vector list and the full-text list, its fused score is
/// strictly larger, so a descending sort places it first.
pub proof fn lemma_rrf_monotone(v: Seq<SearchResult>, f: Seq<SearchResult>, x: u64, y: u64)
    requires
        0 <= spec_idx(v, x) < spec_idx(v, y) <= 50,
        0 <= spec_idx(f, x) < spec_idx(f, y) <= 50,
    ensures
        spec_rrf_score(v, f, x) > spec_rrf_score(v, f, y),
{
    lemma_rrf_div_strict(61 + spec_idx(v, x), 61 + spec_idx(v, y));
    lemma_rrf_div_strict(61 + spec_idx(f, x), 61 + spec_idx(f, y));
}

/// With a positive recency weight and equal cosine, the fresher of two
/// chunks scores strictly higher, provided the age gap is wide enough for
/// the integer boosts to differ: the product of the two boost divisors
/// must not exceed 86_400_000_000 times the age difference. A descending
/// sort then places the fresher chunk first.
pub proof fn lemma_recency_direction(score: i64, w: i64, now: u64, lm1: u64, lm2: u64)
    requires
        1 <= spec_clamp_weight(w),
        lm2 < lm1 <= now,
        (86_400 + (now - lm1)) * (86_400 + (now - lm2)) <= 86_400_000_000 * ((now - lm2) - (now
            - lm1)),
    ensures
        spec_final_score(score, w, now, lm1) > spec_final_score(score, w, now, lm2),
{
    let sterm = 86_400_000_000int;
    let d1 = 86_400 + (now - lm1);
    let d2 = 86_400 + (now - lm2);
    let b1 = spec_boost(now, lm1);
    let b2 = spec_boost(now, lm2);
    vstd::arithmetic::div_mod::lemma_fundamental_div_mod(sterm, d1);
    vstd::arithmetic::div_mod::lemma_fundamental_div_mod(sterm, d2);
    let r1 = sterm % d1;
    let r2 = sterm % d2;
    assert(b1 == sterm / d1);
    assert(b2 == sterm / d2);
    assert(b1 > b2) by (nonlinear_arith)
        requires
            d1 * b1 + r1 == sterm,
            0 <= r1 < d1,
            d2 * b2 + r2 == sterm,
            0 <= r2 < d2,
            0 < d1 < d2,
            d1 * d2 <= sterm * (d2 - d1),
    ;
    let wc = spec_clamp_weight(w);
    assert(b1 * wc > b2 * wc) by (nonlinear_arith)
        requires
            b1 > b2,
            wc >= 1,
    ;
}

/// What `spec_idx` finds: the first entry with the id, or none at all.
pub proof fn lemma_spec_idx(list: Seq<SearchResult>, id: u64)
    ensures
        spec_idx(list, id) < 0 ==> forall|t: int|
            0 <= t < list.len() ==> (#[trigger] list[t]).chunk_id != id,
        spec_idx(list, id) >= 0 ==> {
            &&& 0 <= spec_idx(list, id) < list.len()
            &&& list[spec_idx(list, id)].chunk_id == id
            &&& forall|t: int| 0 <= t < spec_idx(list, id) ==> (#[trigger] list[t]).chunk_id != id
        },
    decreases list.len(),
{
    if list.len() > 0 && list[0].chunk_id != id {
        let rest = list.drop_first();
        lemma_spec_idx(rest, id);
        assert forall|t: int| 0 <= t < rest.len() implies rest[t] == list[t + 1] by {}
        if spec_idx(rest, id) < 0 {
            assert(spec_idx(list, id) < 0);
            assert forall|t: int| 0 <= t < list.len() implies (#[trigger] list[t]).chunk_id
                != id by {
                if t > 0 {
                    assert(list[t] == rest[t - 1]);
                }
            }
        } else {
            assert(spec_idx(list, id) == spec_idx(rest, id) + 1);
            assert(list[spec_idx(list, id)] == rest[spec_idx(rest, id)]);
            assert forall|t: int| 0 <= t < spec_idx(list, id) implies (#[trigger] list[t]).chunk_id
                != id by {
                if t > 0 {
                    assert(list[t] == rest[t - 1]);
                }
            }
        }
    }
}

/// First position of a chunk id in a result list.
fn first_idx(list: &Vec<SearchResult>, id: u64) -> (r: Option<usize>)
    ensures
        match r {
            Some(i) => spec_idx(list@, id) == i && i < list@.len() && list@[i as int].chunk_id
                == id,
            None => spec_idx(list@, id) < 0,
        },
{
    let n = list.len();
    let mut i: usize = 0;
    while i < n
        invariant
            n == list@.len(),
            i <= n,
            forall|t: int| 0 <= t < i ==> (#[trigger] list@[t]).chunk_id != id,
        decreases n - i,
    {
        if list[i].chunk_id == id {
            proof {
                lemma_spec_idx(list@, id);
                if spec_idx(list@, id) < 0 {
                    assert(false);
                }
                if spec_idx(list@, id) < i {
                    assert(list@[spec_idx(list@, id)].chunk_id != id);
                    assert(false);
                }
                if spec_idx(list@, id) > i {
                    assert(list@[i as int].chunk_id != id);
                    assert(false);
                }
            }
            return Some(i);
        }
        i += 1;
    }
    proof {
        lemma_spec_idx(list@, id);
        if spec_idx(list@, id) >= 0 {
            assert(list@[spec_idx(list@, id)].chunk_id != id);
            assert(false);
        }
    }
    None
}

/// The fused score of one chunk id, in micros.
fn rrf_score_of(vec_list: &Vec<SearchResult>, fts_list: &Vec<SearchResult>, id: u64) -> (r: i64)
    ensures
        r == spec_rrf_score(vec_list@, fts_list@, id),
        0 <= r <= 2_000_000,
{
    let mut total: i64 = 0;
    match first_idx(vec_list, id) {
        Some(i) => {
            proof {
                lemma_spec_idx(vec_list@, id);
                vstd::arithmetic::div_mod::lemma_fundamental_div_mod(
                    1_000_000int,
                    61 + i as int,
                );
                let q = 1_000_000int / (61 + i as int);
                assert(0 <= q <= 1_000_000) by (nonlinear_arith)
                    requires
                        (61 + i as int) * q + 1_000_000int % (61 + i as int) == 1_000_000int,
                        0 <= 1_000_000int % (61 + i as int) < 61 + i as int,
                        i >= 0,
                ;
            }
            let share: u64 = (1_000_000u128 / (61u128 + i as u128)) as u64;
            total = total + share as i64;
        },
        None => {},
    }
    match first_idx(fts_list, id) {
        Some(i) => {
            proof {
                lemma_spec_idx(fts_list@, id);
                vstd::arithmetic::div_mod::lemma_fundamental_div_mod(
                    1_000_000int,
                    61 + i as int,
                );
                let q = 1_000_000int / (61 + i as int);
                assert(0 <= q <= 1_000_000) by (nonlinear_arith)
                    requires
                        (61 + i as int) * q + 1_000_000int % (61 + i as int) == 1_000_000int,
                        0 <= 1_000_000int % (61 + i as int) < 61 + i as int,
                        i >= 0,
                ;
            }
            let share: u64 = (1_000_000u128 / (61u128 + i as u128)) as u64;
            total = total + share as i64;
        },
        None => {},
    }
    total
}

/// Does some entry of the list carry this chunk id?
pub open spec fn has_id(list: Seq<SearchResult>, id: u64) -> bool {
    exists|k: int| 0 <= k < list.len() && (#[trigger] list[k]).chunk_id == id
}

/// Pushing preserves and extends membership by chunk id.
proof fn lemma_has_id_push(list: Seq<SearchResult>, x: SearchResult, id: u64)
    ensures
        has_id(list.push(x), id) <==> (has_id(list, id) || x.chunk_id == id),
{
    if has_id(list, id) {
        let k = choose|k: int| 0 <= k < list.len() && (#[trigger] list[k]).chunk_id == id;
        assert(list.push(x)[k].chunk_id == id);
    }
    if x.chunk_id == id {
        assert(list.push(x)[list.len() as int].chunk_id == id);
    }
    if has_id(list.push(x), id) {
        let k = choose|k: int|
            0 <= k < list.push(x).len() && (#[trigger] list.push(x)[k]).chunk_id == id;
        if k < list.len() {
            assert(list[k].chunk_id == id);
        }
    }
}

/// How many distinct chunk ids a list carries.
pub open spec fn spec_num_distinct(list: Seq<SearchResult>) -> int
    decreases list.len(),
{
    if list.len() == 0 {
        0
    } else {
        spec_num_distinct(list.drop_last()) + (if has_id(list.drop_last(), list.last().chunk_id) {
            0int
        } else {
            1
        })
    }
}

/// One more entry adds one distinct id exactly when its id is new.
proof fn lemma_num_distinct_push(list: Seq<SearchResult>, x: SearchResult)
    ensures
        spec_num_distinct(list.push(x)) == spec_num_distinct(list) + (if has_id(
            list,
            x.chunk_id,
        ) {
            0int
        } else {
            1
        }),
{
    reveal_with_fuel(spec_num_distinct, 2);
    assert(list.push(x).drop_last() =~= list);
    assert(list.push(x).last() == x);
}

/// The same chunk ids occur in both lists.
pub open spec fn spec_same_ids(a: Seq<SearchResult>, b: Seq<SearchResult>) -> bool {
    forall|id: u64| #[trigger] has_id(a, id) <==> has_id(b, id)
}

/// Membership by chunk id survives any reordering.
proof fn lemma_has_id_permutation(a: Seq<SearchResult>, b: Seq<SearchResult>, id: u64)
    requires
        a.to_multiset() == b.to_multiset(),
        has_id(a, id),
    ensures
        has_id(b, id),
{
    let k = choose|k: int| 0 <= k < a.len() && (#[trigger] a[k]).chunk_id == id;
    a.to_multiset_ensures();
    assert(a.to_multiset().contains(a[k]));
    b.to_multiset_ensures();
    assert(b.contains(a[k]));
    let w = choose|w: int| 0 <= w < b.len() && b[w] == a[k];
    assert(b[w].chunk_id == id);
}

/// The result row metadata travels from: the entry of the list that saw
/// the chunk first, the vector list taking precedence.
pub open spec fn spec_first_entry(
    v: Seq<SearchResult>,
    f: Seq<SearchResult>,
    id: u64,
) -> SearchResult {
    if spec_idx(v, id) >= 0 {
        v[spec_idx(v, id)]
    } else {
        f[spec_idx(f, id)]
    }
}

/// Fuse the vector and full-text result lists by reciprocal rank: each
/// chunk's score is the sum of 1/(60 + rank) over the lists that saw it
/// (in micros), its row fields come from whichever list saw it first,
/// and the union is sorted by fused score and cut to `limit`.
#[verifier::rlimit(100)]
#[verifier::spinoff_prover]
pub fn rrf_fuse(vec_list: &Vec<SearchResult>, fts_list: &Vec<SearchResult>, limit: usize) -> (r:
    Vec<SearchResult>)
    ensures
        spec_sorted_desc(r@),
        r@.len() <= limit,
        forall|k1: int, k2: int|
            0 <= k1 < k2 < r@.len() ==> (#[trigger] r@[k1]).chunk_id != (#[trigger] r@[k2]).chunk_id,
        forall|k: int|
            0 <= k < r@.len() ==> (#[trigger] r@[k]) == (SearchResult {
                score: spec_rrf_score(vec_list@, fts_list@, r@[k].chunk_id) as i64,
                ..spec_first_entry(vec_list@, fts_list@, r@[k].chunk_id)
            }),
        // with room for the whole union, every chunk either list saw is
        // in the fused result
        vec_list@.len() + fts_list@.len() <= limit ==> {
            &&& forall|i: int|
                0 <= i < vec_list@.len() ==> has_id(r@, (#[trigger] vec_list@[i]).chunk_id)
            &&& forall|j: int|
                0 <= j < fts_list@.len() ==> has_id(r@, (#[trigger] fts_list@[j]).chunk_id)
        },
        // the result holds every distinct chunk id, up to the limit
        r@.len() == (if spec_num_distinct(vec_list@ + fts_list@) <= limit {
            spec_num_distinct(vec_list@ + fts_list@)
        } else {
            limit as int
        }),
        // a chunk left out never outscores a chunk kept
        forall|id: u64|
            (has_id(vec_list@, id) || has_id(fts_list@, id)) && !has_id(r@, id) ==> forall|k: int|
                0 <= k < r@.len() ==> (#[trigger] r@[k]).score >= #[trigger] spec_rrf_score(
                    vec_list@,
                    fts_list@,
                    id,
                ) as i64,
{
    broadcast use vstd::seq_lib::group_to_multiset_ensures;

    let mut union: Vec<SearchResult> = Vec::new();
    let vn = vec_list.len();
    let mut i: usize = 0;
    while i < vn
        invariant
            vn == vec_list@.len(),
            i <= vn,
            union@.len() <= i,
            union@.len() == spec_num_distinct(vec_list@.subrange(0, i as int)),
            spec_same_ids(union@, vec_list@.subrange(0, i as int)),
            forall|i0: int|
                0 <= i0 < i ==> has_id(union@, (#[trigger] vec_list@[i0]).chunk_id),
            forall|k1: int, k2: int|
                0 <= k1 < k2 < union@.len() ==> (#[trigger] union@[k1]).chunk_id != (
                #[trigger] union@[k2]).chunk_id,
            forall|k: int|
                0 <= k < union@.len() ==> (#[trigger] union@[k]) == (SearchResult {
                    score: spec_rrf_score(vec_list@, fts_list@, union@[k].chunk_id) as i64,
                    ..spec_first_entry(vec_list@, fts_list@, union@[k].chunk_id)
                }),
        decreases vn - i,
    {
        let id = vec_list[i].chunk_id;
        let mut present = false;
        let un = union.len();
        let mut k: usize = 0;
        while k < un
            invariant
                un == union@.len(),
                k <= un,
                present == exists|t: int| 0 <= t < k && (#[trigger] union@[t]).chunk_id == id,
            decreases un - k,
        {
            if union[k].chunk_id == id {
                present = true;
            }
            k += 1;
        }
        if !present {
            let score = rrf_score_of(vec_list, fts_list, id);
            proof {
                lemma_spec_idx(vec_list@, id);
                if spec_idx(vec_list@, id) < 0 {
                    assert(vec_list@[i as int].chunk_id != id);
                    assert(false);
                }
            }
            let src_i = match first_idx(vec_list, id) {
                Some(x) => x,
                None => {
                    proof {
                        assert(false);
                    }
                    0
                },
            };
            let base = vec_list[src_i].duplicate();
            let entry = SearchResult { score, ..base };
            let ghost ub = union@;
            proof {
                assert(entry.chunk_id == id);
                assert(base == spec_first_entry(vec_list@, fts_list@, id));
                assert(spec_rrf_score(vec_list@, fts_list@, id) as i64 == score);
                assert(forall|t: int| 0 <= t < ub.len() ==> (#[trigger] ub[t]).chunk_id != id);
            }
            union.push(entry);
            proof {
                assert(union@ == ub.push(entry));
                assert forall|i0: int| 0 <= i0 < i + 1 implies has_id(
                    union@,
                    (#[trigger] vec_list@[i0]).chunk_id,
                ) by {
                    lemma_has_id_push(ub, entry, vec_list@[i0].chunk_id);
                }
                let prefix_old = vec_list@.subrange(0, i as int);
                let prefix_new = vec_list@.subrange(0, i as int + 1);
                assert(prefix_new =~= prefix_old.push(vec_list@[i as int]));
                lemma_num_distinct_push(prefix_old, vec_list@[i as int]);
                assert(!has_id(ub, id));
                assert(!has_id(prefix_old, id));
                assert forall|x: u64| #[trigger] has_id(union@, x) <==> has_id(
                    prefix_new,
                    x,
                ) by {
                    lemma_has_id_push(ub, entry, x);
                    lemma_has_id_push(prefix_old, vec_list@[i as int], x);
                }
                assert(spec_same_ids(union@, prefix_new));
            }
        } else {
            proof {
                let t = choose|t: int|
                    0 <= t < union@.len() && (#[trigger] union@[t]).chunk_id == id;
                assert(has_id(union@, id));
                let prefix_old = vec_list@.subrange(0, i as int);
                let prefix_new = vec_list@.subrange(0, i as int + 1);
                assert(prefix_new =~= prefix_old.push(vec_list@[i as int]));
                lemma_num_distinct_push(prefix_old, vec_list@[i as int]);
                assert(has_id(prefix_old, id));
                assert forall|x: u64| #[trigger] has_id(union@, x) <==> has_id(
                    prefix_new,
                    x,
                ) by {
                    lemma_has_id_push(prefix_old, vec_list@[i as int], x);
                }
                assert(spec_same_ids(union@, prefix_new));
            }
        }
        i += 1;
    }
    proof {
        assert(vec_list@.subrange(0, vn as int) =~= vec_list@);
        assert(vec_list@ + fts_list@.subrange(0, 0) =~= vec_list@);
    }
    let fn_len = fts_list.len();
    let mut j: usize = 0;
    while j < fn_len
        invariant
            fn_len == fts_list@.len(),
            j <= fn_len,
            union@.len() <= vec_list@.len() + j,
            union@.len() == spec_num_distinct(vec_list@ + fts_list@.subrange(0, j as int)),
            spec_same_ids(union@, vec_list@ + fts_list@.subrange(0, j as int)),
            forall|i0: int|
                0 <= i0 < vec_list@.len() ==> has_id(union@, (#[trigger] vec_list@[i0]).chunk_id),
            forall|j0: int|
                0 <= j0 < j ==> has_id(union@, (#[trigger] fts_list@[j0]).chunk_id),
            forall|k1: int, k2: int|
                0 <= k1 < k2 < union@.len() ==> (#[trigger] union@[k1]).chunk_id != (
                #[trigger] union@[k2]).chunk_id,
            forall|k: int|
                0 <= k < union@.len() ==> (#[trigger] union@[k]) == (SearchResult {
                    score: spec_rrf_score(vec_list@, fts_list@, union@[k].chunk_id) as i64,
                    ..spec_first_entry(vec_list@, fts_list@, union@[k].chunk_id)
                }),
        decreases fn_len - j,
    {
        let id = fts_list[j].chunk_id;
        let mut present = false;
        let un = union.len();
        let mut k: usize = 0;
        while k < un
            invariant
                un == union@.len(),
                k <= un,
                present == exists|t: int| 0 <= t < k && (#[trigger] union@[t]).chunk_id == id,
            decreases un - k,
        {
            if union[k].chunk_id == id {
                present = true;
            }
            k += 1;
        }
        if !present {
            let score = rrf_score_of(vec_list, fts_list, id);
            let entry = match first_idx(vec_list, id) {
                Some(x) => {
                    let base = vec_list[x].duplicate();
                    proof {
                        assert(base == spec_first_entry(vec_list@, fts_list@, id));
                    }
                    SearchResult { score, ..base }
                },
                None => {
                    proof {
                        lemma_spec_idx(fts_list@, id);
                        if spec_idx(fts_list@, id) < 0 {
                            assert(fts_list@[j as int].chunk_id != id);
                            assert(false);
                        }
                    }
                    let src_j = match first_idx(fts_list, id) {
                        Some(x) => x,
                        None => {
                            proof {
                                assert(false);
                            }
                            0
                        },
                    };
                    let base = fts_list[src_j].duplicate();
                    proof {
                        assert(base == spec_first_entry(vec_list@, fts_list@, id));
                    }
                    SearchResult { score, ..base }
                },
            };
            let ghost ub = union@;
            proof {
                assert(entry.chunk_id == id);
                assert(spec_rrf_score(vec_list@, fts_list@, id) as i64 == score);
                assert(forall|t: int| 0 <= t < ub.len() ==> (#[trigger] ub[t]).chunk_id != id);
            }
            union.push(entry);
            proof {
                assert(union@ == ub.push(entry));
                assert forall|i0: int| 0 <= i0 < vec_list@.len() implies has_id(
                    union@,
                    (#[trigger] vec_list@[i0]).chunk_id,
                ) by {
                    lemma_has_id_push(ub, entry, vec_list@[i0].chunk_id);
                }
                assert forall|j0: int| 0 <= j0 < j + 1 implies has_id(
                    union@,
                    (#[trigger] fts_list@[j0]).chunk_id,
                ) by {
                    lemma_has_id_push(ub, entry, fts_list@[j0].chunk_id);
                }
                let prefix_old = vec_list@ + fts_list@.subrange(0, j as int);
                let prefix_new = vec_list@ + fts_list@.subrange(0, j as int + 1);
                assert(prefix_new =~= prefix_old.push(fts_list@[j as int]));
                lemma_num_distinct_push(prefix_old, fts_list@[j as int]);
                assert(!has_id(ub, id));
                assert(!has_id(prefix_old, id));
                assert forall|x: u64| #[trigger] has_id(union@, x) <==> has_id(
                    prefix_new,
                    x,
                ) by {
                    lemma_has_id_push(ub, entry, x);
                    lemma_has_id_push(prefix_old, fts_list@[j as int], x);
                }
                assert(spec_same_ids(union@, prefix_new));
            }
        } else {
            proof {
                assert(has_id(union@, id));
                let prefix_old = vec_list@ + fts_list@.subrange(0, j as int);
                let prefix_new = vec_list@ + fts_list@.subrange(0, j as int + 1);
                assert(prefix_new =~= prefix_old.push(fts_list@[j as int]));
                lemma_num_distinct_push(prefix_old, fts_list@[j as int]);
                assert(has_id(prefix_old, id));
                assert forall|x: u64| #[trigger] has_id(union@, x) <==> has_id(
                    prefix_new,
                    x,
                ) by {
                    lemma_has_id_push(prefix_old, fts_list@[j as int], x);
                }
                assert(spec_same_ids(union@, prefix_new));
            }
        }
        j += 1;
    }
    let ghost guni = union@;
    proof {
        assert(vec_list@ + fts_list@.subrange(0, fn_len as int) =~= vec_list@ + fts_list@);
    }
    let sorted0 = sort_results_desc(union);
    let ghost full = sorted0@;
    let mut sorted = sorted0;
    sorted.truncate(limit);
    proof {
        let cut: int = if limit as int <= full.len() as int {
            limit as int
        } else {
            full.len() as int
        };
        assert(sorted@ == full.subrange(0, cut));
        assert forall|k: int| 0 <= k < sorted@.len() implies (#[trigger] sorted@[k])
            == (SearchResult {
            score: spec_rrf_score(vec_list@, fts_list@, sorted@[k].chunk_id) as i64,
            ..spec_first_entry(vec_list@, fts_list@, sorted@[k].chunk_id)
        }) by {
            assert(full[k] == sorted@[k]);
            assert(full.to_multiset().contains(full[k])) by {
                full.to_multiset_ensures();
            }
            assert(full.to_multiset() == guni.to_multiset());
            assert(guni.to_multiset().contains(full[k]));
            assert(guni.contains(full[k])) by {
                guni.to_multiset_ensures();
            }
            let w = choose|w: int| 0 <= w < guni.len() && guni[w] == full[k];
            assert(guni[w] == (SearchResult {
                score: spec_rrf_score(vec_list@, fts_list@, guni[w].chunk_id) as i64,
                ..spec_first_entry(vec_list@, fts_list@, guni[w].chunk_id)
            }));
        }
        if vec_list@.len() + fts_list@.len() <= limit {
            assert(guni.len() <= limit);
            assert(full.len() == guni.len());
            assert(sorted@ == full);
            assert forall|i0: int| 0 <= i0 < vec_list@.len() implies has_id(
                sorted@,
                (#[trigger] vec_list@[i0]).chunk_id,
            ) by {
                lemma_has_id_permutation(guni, full, vec_list@[i0].chunk_id);
            }
            assert forall|j0: int| 0 <= j0 < fts_list@.len() implies has_id(
                sorted@,
                (#[trigger] fts_list@[j0]).chunk_id,
            ) by {
                lemma_has_id_permutation(guni, full, fts_list@[j0].chunk_id);
            }
        }
        assert forall|id: u64|
            ((has_id(vec_list@, id) || has_id(fts_list@, id)) && !has_id(
                sorted@,
                id,
            )) implies forall|k: int|
            0 <= k < sorted@.len() ==> (#[trigger] sorted@[k]).score >= #[trigger] spec_rrf_score(
                vec_list@,
                fts_list@,
                id,
            ) as i64 by {
            assert(has_id(vec_list@ + fts_list@, id)) by {
                if has_id(vec_list@, id) {
                    let t = choose|t: int|
                        0 <= t < vec_list@.len() && (#[trigger] vec_list@[t]).chunk_id == id;
                    assert((vec_list@ + fts_list@)[t].chunk_id == id);
                } else {
                    let t = choose|t: int|
                        0 <= t < fts_list@.len() && (#[trigger] fts_list@[t]).chunk_id == id;
                    assert((vec_list@ + fts_list@)[vec_list@.len() + t].chunk_id == id);
                }
            }
            assert(has_id(guni, id));
            lemma_has_id_permutation(guni, full, id);
            let w = choose|w: int| 0 <= w < full.len() && (#[trigger] full[w]).chunk_id == id;
            if w < cut {
                assert(sorted@[w].chunk_id == id);
                assert(has_id(sorted@, id));
                assert(false);
            }
            assert(full.to_multiset() == guni.to_multiset());
            full.to_multiset_ensures();
            assert(full.to_multiset().contains(full[w]));
            guni.to_multiset_ensures();
            assert(guni.contains(full[w]));
            let p = choose|p: int| 0 <= p < guni.len() && guni[p] == full[w];
            assert(guni[p].score == spec_rrf_score(vec_list@, fts_list@, id) as i64);
            assert forall|k: int| 0 <= k < sorted@.len() implies sorted@[k].score
                >= spec_rrf_score(vec_list@, fts_list@, id) as i64 by {
                assert(sorted@[k] == full[k]);
                assert(full[k].score >= full[w].score);
            }
        }
        assert forall|k1: int, k2: int|
            0 <= k1 < k2 < sorted@.len() implies (#[trigger] sorted@[k1]).chunk_id != (
        #[trigger] sorted@[k2]).chunk_id by {
            if sorted@[k1].chunk_id == sorted@[k2].chunk_id {
                assert(sorted@[k1] == sorted@[k2]);
                let v = sorted@[k1];
                assert(guni.no_duplicates()) by {
                    assert forall|a: int, b: int|
                        0 <= a < guni.len() && 0 <= b < guni.len() && a != b implies guni[a]
                        != guni[b] by {
                        if a < b {
                            assert(guni[a].chunk_id != guni[b].chunk_id);
                        } else {
                            assert(guni[b].chunk_id != guni[a].chunk_id);
                        }
                    }
                }
                guni.lemma_multiset_has_no_duplicates();
                let s0 = full.subrange(0, cut);
                let s00 = s0.subrange(0, k2);
                let s01 = s0.subrange(k2, s0.len() as int);
                assert(s0 =~= s00 + s01);
                vstd::seq_lib::lemma_multiset_commutative(s00, s01);
                assert(s00[k1] == v);
                assert(s00.contains(v));
                assert(s01[0] == v);
                assert(s01.contains(v));
                s00.to_multiset_ensures();
                s01.to_multiset_ensures();
                assert(s0.to_multiset().count(v) >= 2);
                let s1 = full.subrange(cut, full.len() as int);
                assert(full =~= s0 + s1);
                vstd::seq_lib::lemma_multiset_commutative(s0, s1);
                assert(full.to_multiset().count(v) >= 2);
                assert(full.to_multiset() == guni.to_multiset());
                assert(guni.to_multiset().count(v) >= 2);
                assert(guni.to_multiset().contains(v));
                assert(guni.to_multiset().count(v) == 1);
                assert(false);
            }
        }
    }
    sorted
}

/// How many times the needle occurs in the haystack at or after `i`
/// (counting overlaps); zero for an empty needle.
pub open spec fn spec_count_matches(h: Seq<u8>, needle: Seq<u8>, i: int) -> int
    decreases h.len() + 1 - i,
    when 0 <= i <= h.len() + 1
{
    if needle.len() == 0 || i + needle.len() > h.len() {
        0
    } else {
        (if spec_match_at(h, needle, i) {
            1int
        } else {
            0
        }) + spec_count_matches(h, needle, i + 1)
    }
}

/// The full-text rank of one row: occurrences of the (lowered) query in
/// the ASCII-lowered content, clamped into the score type.
pub open spec fn spec_fts_rank(content: Seq<char>, qlow: Seq<u8>) -> int {
    let c = spec_count_matches(
        spec_lower_bytes(vstd::utf8::encode_utf8(content)),
        qlow,
        0,
    );
    if c > 0x7fff_ffff_ffff_ffff {
        0x7fff_ffff_ffff_ffff
    } else {
        c
    }
}

/// Count the needle's occurrences in the ASCII-lowered haystack.
fn count_matches_lower(hay: &[u8], needle: &[u8]) -> (r: u64)
    requires
        needle@.len() >= 1,
    ensures
        r == spec_count_matches(spec_lower_bytes(hay@), needle@, 0),
{
    let n = hay.len();
    let m = needle.len();
    if m > n {
        return 0;
    }
    let mut cnt: u64 = 0;
    let mut i: usize = 0;
    while i <= n - m
        invariant
            0 < m <= n,
            n == hay@.len(),
            m == needle@.len(),
            i <= n - m + 1,
            cnt <= i,
            spec_count_matches(spec_lower_bytes(hay@), needle@, 0) == cnt + spec_count_matches(
                spec_lower_bytes(hay@),
                needle@,
                i as int,
            ),
        decreases n - i,
    {
        let hit = crate::strutil::match_at_lower_pub(hay, needle, i);
        proof {
            assert(spec_count_matches(spec_lower_bytes(hay@), needle@, i as int) == (if
                spec_match_at(spec_lower_bytes(hay@), needle@, i as int) {
                1int
            } else {
                0
            }) + spec_count_matches(spec_lower_bytes(hay@), needle@, i as int + 1));
        }
        if hit {
            cnt = cnt + 1;
        }
        i += 1;
    }
    proof {
        assert(spec_count_matches(spec_lower_bytes(hay@), needle@, i as int) == 0);
    }
    cnt
}

/// The chunk rows the full-text pass returns: the query occurs in the
/// content, and the owning file row sits in the window and passes the
/// type and path filters.
pub open spec fn fts_pred(
    files: Seq<FileRecord>,
    opts: &SearchOptions,
    qlb: Seq<u8>,
) -> spec_fn(ChunkRecord) -> bool {
    |c: ChunkRecord|
        {
            &&& spec_count_matches(
                spec_lower_bytes(vstd::utf8::encode_utf8(c.content@)),
                qlb,
                0,
            ) > 0
            &&& exists|j: int|
                {
                    &&& 0 <= j < files.len()
                    &&& (#[trigger] files[j]).id == c.file_id
                    &&& spec_in_window(files[j].last_modified, opts.start_time, opts.end_time)
                    &&& spec_passes_types_bytes(
                        spec_ext_lower_bytes(vstd::utf8::encode_utf8(files[j].path@)),
                        &opts.file_types,
                    )
                    &&& spec_passes_paths(files[j].path@, &opts.paths)
                }
        }
}

/// One full-text result row is honest: it names a shadow row, carries
/// that row's content, scores it by occurrence count, carries its file's
/// fields, and satisfies the caller's window and filters.
pub open spec fn spec_fts_row_ok(
    db: &Database,
    opts: &SearchOptions,
    qlb: Seq<u8>,
    rec: SearchResult,
) -> bool {
    exists|i: int|
        {
            &&& 0 <= i < db.fts@.len()
            &&& rec.chunk_id == (#[trigger] db.fts@[i]).chunk_id
            &&& rec.content@ == db.fts@[i].content@
            &&& rec.score == spec_fts_rank(db.fts@[i].content@, qlb)
            &&& rec.score > 0
            &&& spec_file_fields(
                db.files@,
                db.chunks@[i].file_id,
                rec.file_path@,
                rec.file_type@,
                rec.last_modified,
            )
            &&& spec_in_window(rec.last_modified, opts.start_time, opts.end_time)
            &&& spec_passes_types(rec.file_type@, &opts.file_types)
            &&& spec_passes_paths(rec.file_path@, &opts.paths)
        }
}

/// Search the full-text shadow: rows whose content holds the query
/// (case-insensitively), under the caller's window and filters, ranked
/// by occurrence count, capped at the intermediate limit. Every result
/// names an existing shadow row, carries its content and its file's
/// fields, satisfies the filters, and scores above zero.
pub fn fts_search(db: &Database, query: &str, opts: &SearchOptions) -> (r: Vec<SearchResult>)
    requires
        db.wf(),
    ensures
        spec_sorted_desc(r@),
        r@.len() <= 50,
        query.spec_bytes().len() == 0 ==> r@.len() == 0,
        query.spec_bytes().len() > 0 ==> ({
            let kept = db.chunks@.filter(
                fts_pred(db.files@, opts, spec_lower_bytes(query.spec_bytes())),
            );
            r@.len() == if kept.len() <= 50 {
                kept.len() as int
            } else {
                50int
            }
        }),
        forall|k: int|
            0 <= k < r@.len() ==> spec_fts_row_ok(
                db,
                opts,
                spec_lower_bytes(query.spec_bytes()),
                #[trigger] r@[k],
            ),
        // one result per chunk
        forall|k1: int, k2: int|
            0 <= k1 < k2 < r@.len() ==> (#[trigger] r@[k1]).chunk_id != (#[trigger] r@[k2]).chunk_id,
        // a matching row left out never outranks a row kept
        forall|i: int|
            0 <= i < db.chunks@.len() && fts_pred(
                db.files@,
                opts,
                spec_lower_bytes(query.spec_bytes()),
            )(#[trigger] db.chunks@[i]) && !has_id(r@, db.chunks@[i].id) ==> forall|k: int|
                0 <= k < r@.len() ==> (#[trigger] r@[k]).score >= spec_fts_rank(
                    db.chunks@[i].content@,
                    spec_lower_bytes(query.spec_bytes()),
                ) as i64,
{
    broadcast use vstd::seq_lib::group_to_multiset_ensures;
    broadcast use vstd::utf8::decode_utf8_encode_utf8, vstd::utf8::encode_utf8_valid_utf8;

    let qlow = crate::strutil::ascii_lower(query);
    let qb = qlow.as_str().as_bytes();
    if qb.len() == 0 {
        proof {
            assert(spec_lower_bytes(query.spec_bytes()).len() == 0);
        }
        return Vec::new();
    }
    let ghost qlb = spec_lower_bytes(query.spec_bytes());
    let ghost pred = fts_pred(db.files@, opts, qlb);
    let n = db.fts.len();
    let mut pre: Vec<SearchResult> = Vec::new();
    let mut i: usize = 0;
    while i < n
        invariant
            db.wf(),
            qb@ == qlb,
            qlb == spec_lower_bytes(query.spec_bytes()),
            qlb.len() >= 1,
            pred == fts_pred(db.files@, opts, qlb),
            n == db.fts@.len(),
            i <= n,
            pre@.len() == db.chunks@.subrange(0, i as int).filter(pred).len(),
            forall|k: int|
                0 <= k < pre@.len() ==> {
                    let kept = db.chunks@.subrange(0, i as int).filter(pred);
                    (#[trigger] pre@[k]).chunk_id == kept[k].id && pre@[k].score == spec_fts_rank(
                        kept[k].content@,
                        qlb,
                    )
                },
            forall|k: int|
                0 <= k < pre@.len() ==> spec_fts_row_ok(db, opts, qlb, #[trigger] pre@[k]),
        decreases n - i,
    {
        proof {
            crate::store::lemma_filter_step(db.chunks@, pred, i as int);
        }
        let cnt = count_matches_lower(db.fts[i].content.as_str().as_bytes(), qb);
        let mut kept_here = false;
        if cnt > 0 {
            let fid = db.chunks[i].file_id;
            match db.find_file_by_id(fid) {
                None => {
                    proof {
                        assert(crate::store::spec_has_file_id(db.files@, fid));
                        assert(false);
                    }
                },
                Some(j) => {
                    proof {
                        assert forall|j2: int|
                            0 <= j2 < db.files@.len() && db.files@[j2].id == fid implies j2
                            == j by {
                            if j2 != j {
                                assert(db.files@[j2].id == db.files@[j as int].id);
                            }
                        }
                    }
                    let lm = db.files[j].last_modified;
                    let start_ok = match opts.start_time {
                        Some(t) => lm >= t,
                        None => true,
                    };
                    let end_ok = match opts.end_time {
                        Some(t) => lm <= t,
                        None => true,
                    };
                    if start_ok && end_ok {
                        let ftype = ext_lower(db.files[j].path.as_str());
                        if passes_types(ftype.as_str(), &opts.file_types) && passes_paths(
                            db.files[j].path.as_str(),
                            &opts.paths,
                        ) {
                            kept_here = true;
                            let score: i64 = if cnt > 0x7fff_ffff_ffff_ffffu64 {
                                0x7fff_ffff_ffff_ffff
                            } else {
                                cnt as i64
                            };
                            let rec = SearchResult {
                                chunk_id: db.fts[i].chunk_id,
                                content: db.fts[i].content.clone(),
                                score,
                                file_path: db.files[j].path.clone(),
                                file_type: ftype,
                                last_modified: lm,
                            };
                            proof {
                                assert(rec.score == spec_fts_rank(db.fts@[i as int].content@, qlb));
                                assert(spec_fts_row_ok(db, opts, qlb, rec));
                                assert(db.fts@[i as int].chunk_id == db.chunks@[i as int].id);
                                assert(db.fts@[i as int].content@ == db.chunks@[i as int].content@);
                                assert(rec.chunk_id == db.chunks@[i as int].id);
                                assert(rec.score == spec_fts_rank(
                                    db.chunks@[i as int].content@,
                                    qlb,
                                ));
                            }
                            pre.push(rec);
                        }
                    }
                    proof {
                        if pred(db.chunks@[i as int]) && !kept_here {
                            let jw = choose|jw: int|
                                0 <= jw < db.files@.len() && (#[trigger] db.files@[jw]).id == fid
                                    && spec_in_window(
                                    db.files@[jw].last_modified,
                                    opts.start_time,
                                    opts.end_time,
                                ) && spec_passes_types_bytes(
                                    spec_ext_lower_bytes(
                                        vstd::utf8::encode_utf8(db.files@[jw].path@),
                                    ),
                                    &opts.file_types,
                                ) && spec_passes_paths(db.files@[jw].path@, &opts.paths);
                            assert(jw == j);
                            assert(false);
                        }
                        if !pred(db.chunks@[i as int]) && kept_here {
                            assert(false);
                        }
                    }
                },
            }
        }
        proof {
            if cnt == 0 {
                assert(db.fts@[i as int].chunk_id == db.chunks@[i as int].id);
                assert(db.fts@[i as int].content@ == db.chunks@[i as int].content@);
                assert(!pred(db.chunks@[i as int]));
            }
        }
        i += 1;
    }
    let ghost gpre = pre@;
    proof {
        assert(db.chunks@.subrange(0, n as int) =~= db.chunks@);
        assert(gpre.len() == db.chunks@.filter(pred).len());
    }
    let sorted0 = sort_results_desc(pre);
    let ghost full = sorted0@;
    let mut sorted = sorted0;
    sorted.truncate(INTERMEDIATE_CAP);
    proof {
        let cut: int = if 50int <= full.len() as int {
            50int
        } else {
            full.len() as int
        };
        assert(sorted@ == full.subrange(0, cut));
        assert forall|k: int| 0 <= k < sorted@.len() implies spec_fts_row_ok(
            db,
            opts,
            qlb,
            #[trigger] sorted@[k],
        ) by {
            assert(full[k] == sorted@[k]);
            full.to_multiset_ensures();
            assert(full.to_multiset().contains(full[k]));
            assert(full.to_multiset() == gpre.to_multiset());
            gpre.to_multiset_ensures();
            assert(gpre.contains(full[k]));
            let p = choose|p: int| 0 <= p < gpre.len() && gpre[p] == full[k];
            assert(spec_fts_row_ok(db, opts, qlb, gpre[p]));
        }
        let kept = db.chunks@.filter(pred);
        crate::store::lemma_filter_unique(db.chunks@, pred, |c: ChunkRecord| c.id);
        assert forall|k1: int, k2: int|
            0 <= k1 < k2 < sorted@.len() implies (#[trigger] sorted@[k1]).chunk_id != (
        #[trigger] sorted@[k2]).chunk_id by {
            if sorted@[k1].chunk_id == sorted@[k2].chunk_id {
                full.to_multiset_ensures();
                gpre.to_multiset_ensures();
                if sorted@[k1] == sorted@[k2] {
                    let v = sorted@[k1];
                    assert(gpre.no_duplicates()) by {
                        assert forall|a: int, b: int|
                            0 <= a < gpre.len() && 0 <= b < gpre.len() && a != b implies gpre[a]
                            != gpre[b] by {
                            if a < b {
                                assert(gpre[a].chunk_id == kept[a].id);
                                assert(gpre[b].chunk_id == kept[b].id);
                            } else {
                                assert(gpre[b].chunk_id == kept[b].id);
                                assert(gpre[a].chunk_id == kept[a].id);
                            }
                        }
                    }
                    gpre.lemma_multiset_has_no_duplicates();
                    let s0 = full.subrange(0, cut);
                    let s00 = s0.subrange(0, k2);
                    let s01 = s0.subrange(k2, s0.len() as int);
                    assert(s0 =~= s00 + s01);
                    vstd::seq_lib::lemma_multiset_commutative(s00, s01);
                    assert(s00[k1] == v);
                    assert(s00.contains(v));
                    assert(s01[0] == v);
                    assert(s01.contains(v));
                    s00.to_multiset_ensures();
                    s01.to_multiset_ensures();
                    assert(s0.to_multiset().count(v) >= 2);
                    let s1 = full.subrange(cut, full.len() as int);
                    assert(full =~= s0 + s1);
                    vstd::seq_lib::lemma_multiset_commutative(s0, s1);
                    assert(full.to_multiset().count(v) >= 2);
                    assert(gpre.to_multiset().count(v) >= 2);
                    assert(gpre.to_multiset().contains(v));
                    assert(gpre.to_multiset().count(v) == 1);
                    assert(false);
                } else {
                    assert(full.to_multiset().contains(full[k1 as int]));
                    assert(gpre.contains(sorted@[k1]));
                    assert(full.to_multiset().contains(full[k2 as int]));
                    assert(gpre.contains(sorted@[k2]));
                    let p1 = choose|p1: int| 0 <= p1 < gpre.len() && gpre[p1] == sorted@[k1];
                    let p2 = choose|p2: int| 0 <= p2 < gpre.len() && gpre[p2] == sorted@[k2];
                    assert(p1 != p2);
                    assert(gpre[p1].chunk_id == kept[p1].id);
                    assert(gpre[p2].chunk_id == kept[p2].id);
                    assert(false);
                }
            }
        }
        assert forall|i2: int|
            (0 <= i2 < db.chunks@.len() && pred(#[trigger] db.chunks@[i2]) && !has_id(
                sorted@,
                db.chunks@[i2].id,
            )) implies forall|k: int|
            0 <= k < sorted@.len() ==> (#[trigger] sorted@[k]).score >= spec_fts_rank(
                db.chunks@[i2].content@,
                qlb,
            ) as i64 by {
            db.chunks@.lemma_filter_contains(pred, i2);
            assert(kept.contains(db.chunks@[i2]));
            let k0 = choose|k0: int| 0 <= k0 < kept.len() && kept[k0] == db.chunks@[i2];
            assert(gpre[k0].chunk_id == db.chunks@[i2].id);
            assert(gpre[k0].score == spec_fts_rank(db.chunks@[i2].content@, qlb));
            gpre.to_multiset_ensures();
            assert(gpre.to_multiset().contains(gpre[k0]));
            assert(gpre.to_multiset() == full.to_multiset());
            full.to_multiset_ensures();
            assert(full.contains(gpre[k0]));
            let w = choose|w: int| 0 <= w < full.len() && full[w] == gpre[k0];
            if w < cut {
                assert(sorted@[w].chunk_id == db.chunks@[i2].id);
                assert(has_id(sorted@, db.chunks@[i2].id));
                assert(false);
            }
            assert forall|k: int| 0 <= k < sorted@.len() implies sorted@[k].score >= spec_fts_rank(
                db.chunks@[i2].content@,
                qlb,
            ) as i64 by {
                assert(sorted@[k] == full[k]);
                assert(full[k].score >= full[w].score);
            }
        }
    }
    sorted
}

/// The query cache may be consulted only for an unfiltered query: no
/// time window, no type filter, no path filter.
pub fn cache_eligible(opts: &SearchOptions) -> (r: bool)
    ensures
        r == (opts.start_time is None && opts.end_time is None && opts.file_types is None
            && opts.paths is None),
{
    let a = match opts.start_time {
        Some(_) => false,
        None => true,
    };
    let b = match opts.end_time {
        Some(_) => false,
        None => true,
    };
    let c = match &opts.file_types {
        Some(_) => false,
        None => true,
    };
    let d = match &opts.paths {
        Some(_) => false,
        None => true,
    };
    a && b && c && d
}

/// The cache rows whose key differs from the one being written.
pub open spec fn cache_key_differs(key: Seq<u8>) -> spec_fn((Vec<u8>, Vec<SearchResult>)) -> bool {
    |e: (Vec<u8>, Vec<SearchResult>)| e.0@ != key
}

/// The bounded query cache: a most-recent-first list of (fingerprint,
/// results) rows, with unique fingerprints, evicting from the back.
pub struct QueryCache {
    pub entries: Vec<(Vec<u8>, Vec<SearchResult>)>,
    pub cap: usize,
}

impl QueryCache {
    /// Well-formed: fingerprints are unique and the row count respects
    /// the capacity.
    pub open spec fn wf(&self) -> bool {
        &&& self.cap >= 1
        &&& self.entries@.len() <= self.cap
        &&& forall|i: int, j: int|
            0 <= i < j < self.entries@.len() ==> (#[trigger] self.entries@[i]).0@ != (
            #[trigger] self.entries@[j]).0@
    }

    /// An empty cache with the given capacity.
    pub fn new(cap: usize) -> (r: QueryCache)
        requires
            cap >= 1,
        ensures
            r.wf(),
            r.entries@.len() == 0,
            r.cap == cap,
    {
        QueryCache { entries: Vec::new(), cap }
    }

    /// Look a fingerprint up; a hit moves its row to the front and hands
    /// back a copy of the stored results.
    pub fn lookup(&mut self, key: &[u8]) -> (r: Option<Vec<SearchResult>>)
        requires
            old(self).wf(),
        ensures
            final(self).wf(),
            final(self).cap == old(self).cap,
            r is Some <==> exists|i: int|
                0 <= i < old(self).entries@.len() && (#[trigger] old(self).entries@[i]).0@ == key@,
            r is None ==> *final(self) == *old(self),
            r is Some ==> exists|i: int|
                {
                    &&& 0 <= i < old(self).entries@.len()
                    &&& (#[trigger] old(self).entries@[i]).0@ == key@
                    &&& r->0@ == old(self).entries@[i].1@
                    &&& final(self).entries@ == seq![old(self).entries@[i]] + old(
                        self,
                    ).entries@.remove(i)
                },
    {
        let n = self.entries.len();
        let mut i: usize = 0;
        while i < n
            invariant
                old(self).wf(),
                *self == *old(self),
                n == self.entries@.len(),
                i <= n,
                forall|j: int| 0 <= j < i ==> (#[trigger] self.entries@[j]).0@ != key@,
            decreases n - i,
        {
            if crate::strutil::bytes_eq(self.entries[i].0.as_slice(), key) {
                let entry = self.entries.remove(i);
                let mut copy: Vec<SearchResult> = Vec::new();
                let m = entry.1.len();
                let mut t: usize = 0;
                while t < m
                    invariant
                        m == entry.1@.len(),
                        t <= m,
                        copy@ == entry.1@.subrange(0, t as int),
                    decreases m - t,
                {
                    copy.push(entry.1[t].duplicate());
                    proof {
                        assert(copy@ =~= entry.1@.subrange(0, t + 1));
                    }
                    t += 1;
                }
                proof {
                    assert(copy@ =~= entry.1@);
                }
                self.entries.insert(0, entry);
                proof {
                    let oe = old(self).entries@;
                    let rem = oe.remove(i as int);
                    assert(self.entries@ =~= seq![oe[i as int]] + rem);
                    assert forall|a: int, b: int|
                        0 <= a < b < self.entries@.len() implies (#[trigger] self.entries@[a]).0@
                        != (#[trigger] self.entries@[b]).0@ by {
                        if a == 0 {
                            assert(self.entries@[b] == rem[b - 1]);
                            if b - 1 < i {
                                assert(rem[b - 1] == oe[b - 1]);
                            } else {
                                assert(rem[b - 1] == oe[b]);
                            }
                        } else {
                            assert(self.entries@[a] == rem[a - 1]);
                            assert(self.entries@[b] == rem[b - 1]);
                            if a - 1 < i {
                                assert(rem[a - 1] == oe[a - 1]);
                            } else {
                                assert(rem[a - 1] == oe[a]);
                            }
                            if b - 1 < i {
                                assert(rem[b - 1] == oe[b - 1]);
                            } else {
                                assert(rem[b - 1] == oe[b]);
                            }
                        }
                    }
                }
                return Some(copy);
            }
            i += 1;
        }
        None
    }

    /// Write a query's results under its fingerprint: the row goes to
    /// the front, a row with the same fingerprint is replaced, and the
    /// least recently used rows beyond the capacity fall off the back.
    pub fn put(&mut self, key: Vec<u8>, results: Vec<SearchResult>)
        requires
            old(self).wf(),
        ensures
            final(self).wf(),
            final(self).cap == old(self).cap,
            ({
                let rebuilt = seq![(key, results)] + old(self).entries@.filter(
                    cache_key_differs(key@),
                );
                final(self).entries@ == rebuilt.subrange(
                    0,
                    if rebuilt.len() <= old(self).cap {
                        rebuilt.len() as int
                    } else {
                        old(self).cap as int
                    },
                )
            }),
            final(self).entries@.len() >= 1,
            final(self).entries@[0].0@ == key@,
            final(self).entries@[0].1 == results,
    {
        let ghost orig = self.entries@;
        let ghost pred = cache_key_differs(key@);
        let mut pending: Vec<(Vec<u8>, Vec<SearchResult>)> = Vec::new();
        core::mem::swap(&mut pending, &mut self.entries);
        let ghost head = (key, results);
        self.entries.push((key, results));
        let n = pending.len();
        let mut k: usize = 0;
        while k < n
            invariant
                pred == cache_key_differs(head.0@),
                n == orig.len(),
                k <= n,
                pending@ == orig.subrange(k as int, n as int),
                self.entries@ == seq![head] + orig.subrange(0, k as int).filter(pred),
                self.cap == old(self).cap,
            decreases n - k,
        {
            let e = pending.remove(0);
            proof {
                assert(e == orig[k as int]);
                crate::store::lemma_filter_step(orig, pred, k as int);
                assert(pending@ =~= orig.subrange(k + 1, n as int));
            }
            if !crate::strutil::bytes_eq(e.0.as_slice(), self.entries[0].0.as_slice()) {
                self.entries.push(e);
                proof {
                    assert(self.entries@ =~= seq![head] + orig.subrange(0, k + 1).filter(pred));
                }
            } else {
                proof {
                    assert(self.entries@ =~= seq![head] + orig.subrange(0, k + 1).filter(pred));
                }
            }
            k += 1;
        }
        proof {
            assert(orig.subrange(0, n as int) =~= orig);
        }
        let cap = self.cap;
        let ghost rebuilt = self.entries@;
        self.entries.truncate(cap);
        proof {
            crate::store::lemma_filter_keeps(orig, pred);
            crate::store::lemma_filter_unique(
                orig,
                pred,
                |e: (Vec<u8>, Vec<SearchResult>)| e.0@,
            );
            let cut: int = if rebuilt.len() <= old(self).cap {
                rebuilt.len() as int
            } else {
                old(self).cap as int
            };
            assert(self.entries@ == rebuilt.subrange(0, cut));
            assert forall|a: int, b: int|
                0 <= a < b < self.entries@.len() implies (#[trigger] self.entries@[a]).0@ != (
            #[trigger] self.entries@[b]).0@ by {
                assert(self.entries@[a] == rebuilt[a]);
                assert(self.entries@[b] == rebuilt[b]);
                let kept = orig.filter(pred);
                if a == 0 {
                    assert(rebuilt[b] == kept[b - 1]);
                    assert(pred(kept[b - 1]));
                } else {
                    assert(rebuilt[a] == kept[a - 1]);
                    assert(rebuilt[b] == kept[b - 1]);
                }
            }
        }
    }
}

/// The rows of a cached result list that clear the caller's cosine
/// cutoff, the cutoff lifted to the final-score scale.
pub open spec fn spec_cache_keep(min_score: Option<i64>) -> spec_fn(SearchResult) -> bool {
    |r: SearchResult|
        match min_score {
            Option::None => true,
            Option::Some(m) => r.score >= spec_clamp_micro(m) * 1_000_000,
        }
}

/// Consult the query cache for an unfiltered query: on a hit the cached
/// rows come back with the cosine cutoff applied and cut to the caller's
/// limit, and the row is refreshed; a filtered query never touches the
/// cache.
pub fn cached_lookup(cache: &mut QueryCache, key: &[u8], opts: &SearchOptions) -> (r: Option<
    Vec<SearchResult>,
>)
    requires
        old(cache).wf(),
    ensures
        final(cache).wf(),
        final(cache).cap == old(cache).cap,
        !(opts.start_time is None && opts.end_time is None && opts.file_types is None
            && opts.paths is None) ==> r is None && *final(cache) == *old(cache),
        (opts.start_time is None && opts.end_time is None && opts.file_types is None
            && opts.paths is None) ==> {
            &&& (r is Some <==> exists|i: int|
                0 <= i < old(cache).entries@.len() && (#[trigger] old(cache).entries@[i]).0@
                    == key@)
            &&& (r is None ==> *final(cache) == *old(cache))
            &&& (r is Some ==> exists|i: int|
                {
                    &&& 0 <= i < old(cache).entries@.len()
                    &&& (#[trigger] old(cache).entries@[i]).0@ == key@
                    &&& ({
                        let kept = old(cache).entries@[i].1@.filter(
                            spec_cache_keep(opts.min_score),
                        );
                        r->0@ == kept.subrange(
                            0,
                            if kept.len() <= spec_limit_of(opts) {
                                kept.len() as int
                            } else {
                                spec_limit_of(opts) as int
                            },
                        )
                    })
                })
        },
{
    if !cache_eligible(opts) {
        return None;
    }
    let limit = match opts.limit {
        Some(l) => l,
        None => DEFAULT_LIMIT,
    };
    match cache.lookup(key) {
        None => None,
        Some(rows) => {
            let ghost orig = rows@;
            let ghost pred = spec_cache_keep(opts.min_score);
            let mut pending = rows;
            let mut kept: Vec<SearchResult> = Vec::new();
            let n = pending.len();
            let mut k: usize = 0;
            while k < n
                invariant
                    pred == spec_cache_keep(opts.min_score),
                    n == orig.len(),
                    k <= n,
                    pending@ == orig.subrange(k as int, n as int),
                    kept@ == orig.subrange(0, k as int).filter(pred),
                decreases n - k,
            {
                let row = pending.remove(0);
                proof {
                    assert(row == orig[k as int]);
                    crate::store::lemma_filter_step(orig, pred, k as int);
                    assert(pending@ =~= orig.subrange(k + 1, n as int));
                }
                let keep = match opts.min_score {
                    None => true,
                    Some(m) => {
                        let mc: i64 = if m > MICRO {
                            MICRO
                        } else if m < -MICRO {
                            -MICRO
                        } else {
                            m
                        };
                        proof {
                            lemma_mul_bounds(spec_clamp_micro(m), 1_000_000);
                        }
                        row.score >= mc * MICRO
                    },
                };
                if keep {
                    kept.push(row);
                }
                k += 1;
            }
            proof {
                assert(orig.subrange(0, n as int) =~= orig);
            }
            kept.truncate(limit);
            Some(kept)
        },
    }
}

/// Store a query's results in the cache, capped at the intermediate
/// limit; a filtered query is never cached.
pub fn cache_store(
    cache: &mut QueryCache,
    key: &[u8],
    opts: &SearchOptions,
    results: &Vec<SearchResult>,
)
    requires
        old(cache).wf(),
    ensures
        final(cache).wf(),
        final(cache).cap == old(cache).cap,
        !(opts.start_time is None && opts.end_time is None && opts.file_types is None
            && opts.paths is None) ==> *final(cache) == *old(cache),
        (opts.start_time is None && opts.end_time is None && opts.file_types is None
            && opts.paths is None) ==> {
            &&& final(cache).entries@.len() >= 1
            &&& final(cache).entries@[0].0@ == key@
            &&& final(cache).entries@[0].1@ == results@.subrange(
                0,
                if results@.len() <= 50 {
                    results@.len() as int
                } else {
                    50
                },
            )
        },
{
    if !cache_eligible(opts) {
        return ;
    }
    let n = results.len();
    let cap = if n <= INTERMEDIATE_CAP {
        n
    } else {
        INTERMEDIATE_CAP
    };
    let mut stored: Vec<SearchResult> = Vec::new();
    let mut i: usize = 0;
    while i < cap
        invariant
            cap <= results@.len(),
            i <= cap,
            stored@ == results@.subrange(0, i as int),
        decreases cap - i,
    {
        stored.push(results[i].duplicate());
        proof {
            assert(stored@ =~= results@.subrange(0, i as int + 1));
        }
        i += 1;
    }
    let k = vstd::slice::slice_to_vec(key);
    cache.put(k, stored);
}

} // verus!
