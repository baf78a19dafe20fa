//! The chunk data model: a contiguous byte range of a source file together
//! with its extracted text and optional structured metadata.

use vstd::prelude::*;
use vstd::string::StringSliceAdditionalSpecFns;
use vstd::utf8::{decode_utf8, valid_utf8};
use crate::errors::CoreError;
use crate::lang::spec_matches_text;
use crate::strutil::{
    all_ws, dup_bytes, dup_strings, lemma_ascii_boundaries, lemma_ascii_singleton_valid,
    spec_all_ws, spec_is_ws, string_from_byte_range, string_from_utf8,
};

verus! {

broadcast use vstd::utf8::encode_utf8_valid_utf8, vstd::string::group_string_axioms;

/// Structured metadata attached to a chunk. The recognized fields of the
/// metadata object; a chunker fills only what it knows (the heading stack
/// for markdown), the pipeline fills the per-file fields.
pub struct Metadata {
    pub size: Option<u64>,
    pub created: Option<u64>,
    pub modified: Option<u64>,
    pub extension: Option<String>,
    pub headers: Option<Vec<String>>,
}

/// One extracted fragment: `start` and `end` are byte offsets into the
/// source content at the time of chunking, with `start <= end`.
pub struct Chunk {
    pub start: u64,
    pub end: u64,
    pub content: String,
    pub metadata: Option<Metadata>,
}

impl Metadata {
    /// An empty metadata object.
    pub fn new() -> (r: Metadata)
        ensures
            r.size is None,
            r.created is None,
            r.modified is None,
            r.extension is None,
            r.headers is None,
    {
        Metadata { size: None, created: None, modified: None, extension: None, headers: None }
    }
}

/// Can this content be offset into the chunk type? Two bytes of
/// separator must still fit beside its length.
pub open spec fn spec_text_fits(b: Seq<u8>) -> bool {
    b.len() + 2 <= u64::MAX && b.len() + 2 <= usize::MAX
}

/// Position of the first paragraph separator (two newline bytes) at or
/// after `i`, or the length when there is none.
pub open spec fn spec_next_sep(b: Seq<u8>, i: int) -> int
    decreases b.len() - i,
    when 0 <= i
{
    if i + 1 >= b.len() {
        b.len() as int
    } else if b[i] == 10 && b[i + 1] == 10 {
        i
    } else {
        spec_next_sep(b, i + 1)
    }
}

/// What `spec_next_sep` finds: the earliest separator, or none at all.
pub proof fn lemma_next_sep(b: Seq<u8>, i: int)
    requires
        0 <= i <= b.len(),
    ensures
        i <= spec_next_sep(b, i) <= b.len(),
        spec_next_sep(b, i) < b.len() ==> spec_next_sep(b, i) + 1 < b.len() && b[spec_next_sep(
            b,
            i,
        )] == 10 && b[spec_next_sep(b, i) + 1] == 10,
        forall|t: int|
            i <= t < spec_next_sep(b, i) && t + 1 < b.len() ==> !(#[trigger] b[t] == 10 && b[t + 1]
                == 10),
    decreases b.len() - i,
{
    if i + 1 >= b.len() {
    } else if b[i] == 10 && b[i + 1] == 10 {
    } else {
        lemma_next_sep(b, i + 1);
    }
}

/// The paragraphs of a text, as (start, end, bytes) triples: maximal
/// pieces between double-newline separators, empty pieces skipped while
/// their span still advances the offsets.
pub open spec fn spec_text_chunks(b: Seq<u8>, i: int) -> Seq<(int, int, Seq<u8>)>
    decreases b.len() + 2 - i,
    when 0 <= i
    via spec_text_chunks_decreases
{
    if i >= b.len() {
        Seq::empty()
    } else {
        let j = spec_next_sep(b, i);
        if j == i {
            spec_text_chunks(b, j + 2)
        } else {
            seq![(i, j, b.subrange(i, j))] + spec_text_chunks(b, j + 2)
        }
    }
}

#[via_fn]
proof fn spec_text_chunks_decreases(b: Seq<u8>, i: int) {
    if i < b.len() {
        lemma_next_sep(b, i);
    }
}

/// Split text into paragraph chunks at blank lines. Byte offsets into the
/// content are preserved exactly; empty paragraphs produce no chunk but
/// still advance the offset past their separator. Fails only when the
/// content is too large for offsets to fit the chunk type.
pub fn chunk_text(content: &str) -> (r: Result<Vec<Chunk>, CoreError>)
    ensures
        r is Ok <==> spec_text_fits(content.spec_bytes()),
        r is Err ==> r->Err_0 is ChunkingFailed,
        r is Ok ==> ({
            let model = spec_text_chunks(content.spec_bytes(), 0);
            let chunks = r->Ok_0@;
            &&& chunks.len() == model.len()
            &&& forall|k: int|
                0 <= k < model.len() ==> {
                    &&& (#[trigger] chunks[k]).start == model[k].0
                    &&& chunks[k].end == model[k].1
                    &&& chunks[k].content@ == decode_utf8(model[k].2)
                    &&& chunks[k].metadata is None
                }
        }),
{
    let b = content.as_bytes();
    let n = b.len();
    if n > usize::MAX - 2 || n as u64 > u64::MAX - 2 {
        return Err(CoreError::ChunkingFailed);
    }
    let ghost bs = content.spec_bytes();
    let ghost model = spec_text_chunks(bs, 0);
    let mut out: Vec<Chunk> = Vec::new();
    let mut i: usize = 0;
    while i < n
        invariant
            b@ == bs,
            valid_utf8(bs),
            n == bs.len(),
            n + 2 <= u64::MAX,
            n + 2 <= usize::MAX,
            model == spec_text_chunks(bs, 0),
            0 <= i <= n + 2,
            i < n ==> !vstd::utf8::is_continuation_byte(bs[i as int]),
            out@.len() <= model.len(),
            spec_text_chunks(bs, i as int) == model.subrange(out@.len() as int, model.len() as int),
            forall|k: int|
                0 <= k < out@.len() ==> {
                    &&& (#[trigger] out@[k]).start == model[k].0
                    &&& out@[k].end == model[k].1
                    &&& out@[k].content@ == decode_utf8(model[k].2)
                    &&& out@[k].metadata is None
                },
        decreases n + 2 - i,
    {
        // scan for the next separator
        let mut j: usize = i;
        while j + 1 < n && !(*vstd::slice::slice_index_get(b, j) == 10
            && *vstd::slice::slice_index_get(b, j + 1) == 10)
            invariant
                b@ == bs,
                n == bs.len(),
                n + 2 <= usize::MAX,
                i <= j <= n,
                forall|t: int|
                    i <= t < j && t + 1 < n ==> !(#[trigger] bs[t] == 10 && bs[t + 1] == 10),
            decreases n - j,
        {
            j += 1;
        }
        let sep_found: bool = j + 1 < n;
        let j_real: usize = if sep_found {
            j
        } else {
            n
        };
        proof {
            lemma_next_sep(bs, i as int);
            let ns = spec_next_sep(bs, i as int);
            if sep_found {
                if ns < j_real {
                    assert(bs[ns] == 10 && bs[ns + 1] == 10);
                    assert(false);
                }
                if ns > j_real {
                    assert(!(bs[j_real as int] == 10 && bs[j_real as int + 1] == 10));
                    assert(false);
                }
            } else {
                if ns < n {
                    assert(bs[ns] == 10 && bs[ns + 1] == 10);
                    assert(ns + 1 < n);
                    assert(false);
                }
            }
            assert(ns == j_real as int);
        }
        if j_real > i {
            // a non-empty paragraph [i, j_real)
            proof {
                if j_real < n {
                    assert(bs[j_real as int] == 10);
                }
            }
            let piece = string_from_byte_range(b, i, j_real);
            let c = Chunk {
                start: i as u64,
                end: j_real as u64,
                content: piece,
                metadata: None,
            };
            proof {
                let rem = model.subrange(out@.len() as int, model.len() as int);
                assert(rem == spec_text_chunks(bs, i as int));
                assert(spec_text_chunks(bs, i as int) == seq![
                    (i as int, j_real as int, bs.subrange(i as int, j_real as int)),
                ] + spec_text_chunks(bs, j_real as int + 2));
                assert(rem.len() > 0);
                assert(model[out@.len() as int] == rem[0]);
                assert(rem[0] == (i as int, j_real as int, bs.subrange(i as int, j_real as int)));
                let tail = spec_text_chunks(bs, j_real as int + 2);
                assert(rem.len() == 1 + tail.len());
                assert forall|t: int| 0 <= t < tail.len() implies model[out@.len() + 1 + t]
                    == tail[t] by {
                    assert(model[out@.len() + 1 + t] == rem[1 + t]);
                    assert(rem[1 + t] == tail[t]);
                }
                assert(model.subrange(out@.len() as int + 1, model.len() as int) =~= tail);
            }
            out.push(c);
        } else {
            proof {
                assert(spec_text_chunks(bs, i as int) == spec_text_chunks(bs, i as int + 2));
            }
        }
        proof {
            if j_real + 2 < n {
                assert(bs[j_real as int + 1] == 10);
                lemma_ascii_boundaries(bs, j_real as int + 1);
            }
        }
        i = j_real + 2;
    }
    proof {
        assert(spec_text_chunks(bs, i as int) =~= Seq::<(int, int, Seq<u8>)>::empty());
        assert(out@.len() == model.len());
    }
    Ok(out)
}

/// Position of the first newline byte at or after `i`, or the length.
pub open spec fn spec_next_nl(b: Seq<u8>, i: int) -> int
    decreases b.len() - i,
    when 0 <= i
{
    if i >= b.len() {
        b.len() as int
    } else if b[i] == 10 {
        i
    } else {
        spec_next_nl(b, i + 1)
    }
}

/// What `spec_next_nl` finds: the earliest newline, or none at all.
pub proof fn lemma_next_nl(b: Seq<u8>, i: int)
    requires
        0 <= i <= b.len(),
    ensures
        i <= spec_next_nl(b, i) <= b.len(),
        spec_next_nl(b, i) < b.len() ==> b[spec_next_nl(b, i)] == 10,
        forall|t: int| i <= t < spec_next_nl(b, i) ==> #[trigger] b[t] != 10,
    decreases b.len() - i,
{
    if i >= b.len() {
    } else if b[i] == 10 {
    } else {
        lemma_next_nl(b, i + 1);
    }
}

/// The lines of a text with their byte positions, as the line iterator
/// of the standard library yields them: split at newlines, a carriage
/// return stripped from lines that ended in one, no final empty line.
pub open spec fn spec_md_lines(b: Seq<u8>, i: int) -> Seq<(int, Seq<u8>)>
    decreases b.len() + 1 - i,
    when 0 <= i
    via spec_md_lines_decreases
{
    if i >= b.len() {
        Seq::empty()
    } else {
        let j = spec_next_nl(b, i);
        let raw = b.subrange(i, j);
        let line = if j < b.len() && raw.len() > 0 && raw.last() == 13 {
            raw.drop_last()
        } else {
            raw
        };
        seq![(i, line)] + spec_md_lines(b, j + 1)
    }
}

#[via_fn]
proof fn spec_md_lines_decreases(b: Seq<u8>, i: int) {
    if i < b.len() {
        lemma_next_nl(b, i);
    }
}

/// Position just past the leading number signs of a heading line.
pub open spec fn spec_hash_end(l: Seq<u8>, i: int) -> int
    decreases l.len() - i,
    when 0 <= i
{
    if i < l.len() && l[i] == 35 {
        spec_hash_end(l, i + 1)
    } else {
        i
    }
}

/// What `spec_hash_end` finds.
pub proof fn lemma_hash_end(l: Seq<u8>, i: int)
    requires
        0 <= i <= l.len(),
    ensures
        i <= spec_hash_end(l, i) <= l.len(),
        forall|t: int| i <= t < spec_hash_end(l, i) ==> #[trigger] l[t] == 35,
        spec_hash_end(l, i) < l.len() ==> l[spec_hash_end(l, i)] != 35,
    decreases l.len() - i,
{
    if i < l.len() && l[i] == 35 {
        lemma_hash_end(l, i + 1);
    }
}

/// First non-whitespace position at or after `i`.
pub open spec fn spec_ws_start(s: Seq<u8>, i: int) -> int
    decreases s.len() - i,
    when 0 <= i
{
    if i < s.len() && spec_is_ws(s[i]) {
        spec_ws_start(s, i + 1)
    } else {
        i
    }
}

/// What `spec_ws_start` finds.
pub proof fn lemma_ws_start(s: Seq<u8>, i: int)
    requires
        0 <= i <= s.len(),
    ensures
        i <= spec_ws_start(s, i) <= s.len(),
        forall|t: int| i <= t < spec_ws_start(s, i) ==> spec_is_ws(#[trigger] s[t]),
        spec_ws_start(s, i) < s.len() ==> !spec_is_ws(s[spec_ws_start(s, i)]),
    decreases s.len() - i,
{
    if i < s.len() && spec_is_ws(s[i]) {
        lemma_ws_start(s, i + 1);
    }
}

/// Position after the last non-whitespace byte strictly before `i`.
pub open spec fn spec_ws_end(s: Seq<u8>, i: int) -> int
    decreases i,
    when i <= s.len()
{
    if 0 < i && i <= s.len() && spec_is_ws(s[i - 1]) {
        spec_ws_end(s, i - 1)
    } else {
        i
    }
}

/// What `spec_ws_end` finds.
pub proof fn lemma_ws_end(s: Seq<u8>, i: int)
    requires
        0 <= i <= s.len(),
    ensures
        0 <= spec_ws_end(s, i) <= i,
        forall|t: int| spec_ws_end(s, i) <= t < i ==> spec_is_ws(#[trigger] s[t]),
        spec_ws_end(s, i) > 0 ==> !spec_is_ws(s[spec_ws_end(s, i) - 1]),
    decreases i,
{
    if 0 < i && spec_is_ws(s[i - 1]) {
        lemma_ws_end(s, i - 1);
    }
}

/// Whitespace trimmed from both ends.
pub open spec fn spec_trim_bytes(s: Seq<u8>) -> Seq<u8> {
    let a = spec_ws_start(s, 0);
    let e = spec_ws_end(s, s.len() as int);
    if a >= e {
        Seq::empty()
    } else {
        s.subrange(a, e)
    }
}

/// The heading title of a heading line: everything after the number
/// signs, trimmed.
pub open spec fn spec_md_title(l: Seq<u8>) -> Seq<u8> {
    spec_trim_bytes(l.subrange(spec_hash_end(l, 0), l.len() as int))
}

/// One accumulated markdown chunk: byte span, content bytes, and the
/// heading stack attached to it, when there was one.
pub open spec fn spec_md_item(
    start: int,
    cur: Seq<u8>,
    stack: Seq<Seq<u8>>,
) -> (int, int, Seq<u8>, Option<Seq<Seq<u8>>>) {
    (
        start,
        start + cur.len(),
        cur,
        if stack.len() > 0 {
            Some(stack)
        } else {
            None
        },
    )
}

/// The same chunk with its end clamped into the content: the final
/// accumulated line carries a synthetic newline, which must not push the
/// span past the content's last byte.
pub open spec fn spec_md_item_capped(
    start: int,
    cur: Seq<u8>,
    stack: Seq<Seq<u8>>,
    cap: int,
) -> (int, int, Seq<u8>, Option<Seq<Seq<u8>>>) {
    (
        start,
        if start + cur.len() <= cap {
            start + cur.len()
        } else {
            cap
        },
        cur,
        if stack.len() > 0 {
            Some(stack)
        } else {
            None
        },
    )
}

/// One step of the markdown accumulator over a line at its byte
/// position. A heading line flushes the accumulated chunk (when it is
/// not blank), adjusts the heading stack to the heading's depth, and
/// starts a new chunk at the heading's own byte offset; any other line
/// is appended to the running chunk.
pub open spec fn spec_md_step(
    st: (int, Seq<u8>, Seq<Seq<u8>>, Seq<(int, int, Seq<u8>, Option<Seq<Seq<u8>>>)>),
    pl: (int, Seq<u8>),
) -> (int, Seq<u8>, Seq<Seq<u8>>, Seq<(int, int, Seq<u8>, Option<Seq<Seq<u8>>>)>) {
    let l = pl.1;
    if l.len() > 0 && l[0] == 35 {
        let lvl = spec_hash_end(l, 0);
        let title = spec_md_title(l);
        let out2 = if !spec_all_ws(st.1) {
            st.3.push(spec_md_item(st.0, st.1, st.2))
        } else {
            st.3
        };
        let stack2 = if lvl > st.2.len() {
            st.2.push(title)
        } else {
            st.2.take(lvl - 1).push(title)
        };
        (pl.0, l + seq![10u8], stack2, out2)
    } else {
        (st.0, st.1 + l + seq![10u8], st.2, st.3)
    }
}

/// The markdown accumulator folded over a list of lines.
pub open spec fn spec_md_fold(
    lines: Seq<(int, Seq<u8>)>,
    st: (int, Seq<u8>, Seq<Seq<u8>>, Seq<(int, int, Seq<u8>, Option<Seq<Seq<u8>>>)>),
) -> (int, Seq<u8>, Seq<Seq<u8>>, Seq<(int, int, Seq<u8>, Option<Seq<Seq<u8>>>)>)
    decreases lines.len(),
{
    if lines.len() == 0 {
        st
    } else {
        spec_md_fold(lines.drop_first(), spec_md_step(st, lines.first()))
    }
}

/// Folding one more line from the front.
pub proof fn lemma_md_fold_cons(
    l: (int, Seq<u8>),
    rest: Seq<(int, Seq<u8>)>,
    st: (int, Seq<u8>, Seq<Seq<u8>>, Seq<(int, int, Seq<u8>, Option<Seq<Seq<u8>>>)>),
)
    ensures
        spec_md_fold(seq![l] + rest, st) == spec_md_fold(rest, spec_md_step(st, l)),
{
    let lines = seq![l] + rest;
    assert(lines.len() == 1 + rest.len());
    assert(lines.first() == l);
    assert(lines.drop_first() =~= rest);
}

/// The markdown chunks of a text: fold the accumulator over the lines,
/// then flush the final chunk when it is not blank.
pub open spec fn spec_markdown_items(b: Seq<u8>) -> Seq<
    (int, int, Seq<u8>, Option<Seq<Seq<u8>>>),
> {
    let st = spec_md_fold(
        spec_md_lines(b, 0),
        (0, Seq::empty(), Seq::empty(), Seq::empty()),
    );
    if !spec_all_ws(st.1) {
        st.3.push(spec_md_item_capped(st.0, st.1, st.2, b.len() as int))
    } else {
        st.3
    }
}

/// Chunks agree with markdown items: exact spans, decoded contents, and
/// heading-stack metadata exactly when the item carries one.
pub open spec fn spec_matches_md(
    chunks: Seq<Chunk>,
    items: Seq<(int, int, Seq<u8>, Option<Seq<Seq<u8>>>)>,
) -> bool {
    &&& chunks.len() == items.len()
    &&& forall|k: int|
        0 <= k < items.len() ==> {
            &&& (#[trigger] chunks[k]).start == items[k].0
            &&& chunks[k].end == items[k].1
            &&& chunks[k].content@ == decode_utf8(items[k].2)
            &&& match items[k].3 {
                Option::None => chunks[k].metadata is None,
                Option::Some(hs) => {
                    &&& chunks[k].metadata is Some
                    &&& chunks[k].metadata->0.size is None
                    &&& chunks[k].metadata->0.created is None
                    &&& chunks[k].metadata->0.modified is None
                    &&& chunks[k].metadata->0.extension is None
                    &&& chunks[k].metadata->0.headers is Some
                    &&& chunks[k].metadata->0.headers->0@.len() == hs.len()
                    &&& forall|t: int|
                        0 <= t < hs.len() ==> (#[trigger] chunks[k].metadata->0.headers->0@[t])@
                            == decode_utf8(hs[t])
                },
            }
        }
}

/// An ASCII whitespace byte?
pub fn is_ws_byte(x: u8) -> (r: bool)
    ensures
        r == spec_is_ws(x),
{
    x == 32 || x == 9 || x == 10 || x == 11 || x == 12 || x == 13
}

/// Append bytes to a buffer.
fn push_bytes(dst: &mut Vec<u8>, src: &[u8])
    ensures
        final(dst)@ == old(dst)@ + src@,
{
    let n = src.len();
    let mut i: usize = 0;
    while i < n
        invariant
            n == src@.len(),
            i <= n,
            dst@ == old(dst)@ + src@.subrange(0, i as int),
        decreases n - i,
    {
        dst.push(*vstd::slice::slice_index_get(src, i));
        proof {
            assert(old(dst)@ + src@.subrange(0, i as int + 1) =~= (old(dst)@ + src@.subrange(
                0,
                i as int,
            )).push(src@[i as int]));
        }
        i += 1;
    }
    proof {
        assert(src@.subrange(0, n as int) =~= src@);
    }
}

/// Parse a heading line: its depth (number of leading signs) and its
/// trimmed title.
fn md_heading(b: &[u8], li: usize, line_end: usize) -> (r: (usize, String))
    requires
        valid_utf8(b@),
        li < line_end <= b@.len(),
        b@[li as int] == 35,
        line_end < b@.len() ==> (b@[line_end as int] == 10 || b@[line_end as int] == 13),
    ensures
        ({
            let gline = b@.subrange(li as int, line_end as int);
            &&& r.0 == spec_hash_end(gline, 0)
            &&& r.1@ == decode_utf8(spec_md_title(gline))
        }),
{
    let ghost bs = b@;
    let ghost gline = bs.subrange(li as int, line_end as int);
    let n = b.len();
    let mut he: usize = li;
    while he < line_end && *vstd::slice::slice_index_get(b, he) == 35
        invariant
            b@ == bs,
            n == bs.len(),
            line_end <= n,
            li <= he <= line_end,
            forall|t: int| li <= t < he ==> #[trigger] bs[t] == 35,
        decreases line_end - he,
    {
        he += 1;
    }
    proof {
        lemma_hash_end(gline, 0);
        let sh = spec_hash_end(gline, 0);
        assert forall|t: int| 0 <= t < gline.len() implies gline[t] == bs[li + t] by {}
        if sh < he - li {
            assert(gline[sh] == 35);
            assert(false);
        }
        if sh > he - li {
            assert(he < line_end);
            assert(bs[he as int] != 35);
            assert(gline[he - li] == 35);
            assert(false);
        }
        assert(sh == he - li);
    }
    let mut a: usize = he;
    while a < line_end && is_ws_byte(*vstd::slice::slice_index_get(b, a))
        invariant
            b@ == bs,
            n == bs.len(),
            line_end <= n,
            he <= a <= line_end,
            forall|t: int| he <= t < a ==> spec_is_ws(#[trigger] bs[t]),
        decreases line_end - a,
    {
        a += 1;
    }
    let mut et: usize = line_end;
    while et > a && is_ws_byte(*vstd::slice::slice_index_get(b, et - 1))
        invariant
            b@ == bs,
            n == bs.len(),
            line_end <= n,
            a <= et <= line_end,
            forall|t: int| et <= t < line_end ==> spec_is_ws(#[trigger] bs[t]),
        decreases et,
    {
        et -= 1;
    }
    let ghost tail = gline.subrange(he - li, gline.len() as int);
    proof {
        assert forall|t: int| 0 <= t < tail.len() implies tail[t] == bs[he + t] by {}
        lemma_ws_start(tail, 0);
        lemma_ws_end(tail, tail.len() as int);
        let sa = spec_ws_start(tail, 0);
        let se = spec_ws_end(tail, tail.len() as int);
        if sa < a - he {
            assert(!spec_is_ws(tail[sa]));
            assert(spec_is_ws(bs[he + sa]));
            assert(false);
        }
        if sa > a - he {
            assert(a < line_end && !spec_is_ws(bs[a as int]));
            assert(spec_is_ws(tail[a - he]));
            assert(false);
        }
        assert(sa == a - he);
        if a < et {
            if se < et - he {
                assert(spec_is_ws(tail[et - he - 1]));
                assert(!spec_is_ws(bs[et - 1]));
                assert(false);
            }
            if se > et - he {
                assert(!spec_is_ws(tail[se - 1]));
                assert(et <= he + (se - 1) < line_end);
                assert(spec_is_ws(bs[he + (se - 1)]));
                assert(false);
            }
            assert(se == et - he);
        } else {
            assert(a == et);
            if a < line_end {
                assert(spec_is_ws(bs[a as int]));
                assert(!spec_is_ws(bs[a as int]));
                assert(false);
            }
            assert(sa == tail.len());
            assert(se <= sa);
        }
    }
    let title: String = if a >= et {
        proof {
            assert(spec_md_title(gline) =~= Seq::<u8>::empty());
        }
        String::new()
    } else {
        proof {
            assert(bs[a - 1] == 35 || spec_is_ws(bs[a - 1]));
            assert(bs[a - 1] < 128);
            lemma_ascii_boundaries(bs, a as int - 1);
            if et < n {
                if et < line_end {
                    assert(spec_is_ws(bs[et as int]));
                } else {
                    assert(bs[et as int] == 13 || bs[et as int] == 10);
                }
                assert(bs[et as int] < 128);
            }
            assert(spec_md_title(gline) =~= bs.subrange(a as int, et as int));
        }
        string_from_byte_range(b, a, et)
    };
    (he - li, title)
}

/// Flush the running chunk, unless it is blank; its end is clamped into
/// the content.
fn flush_md_chunk(
    out: &mut Vec<Chunk>,
    start: usize,
    cur: &Vec<u8>,
    stack: &Vec<String>,
    cap: usize,
    Ghost(gstack): Ghost<Seq<Seq<u8>>>,
    Ghost(gout): Ghost<Seq<(int, int, Seq<u8>, Option<Seq<Seq<u8>>>)>>,
) -> (r: Ghost<Seq<(int, int, Seq<u8>, Option<Seq<Seq<u8>>>)>>)
    requires
        valid_utf8(cur@),
        start + cur@.len() <= u64::MAX,
        start <= cap,
        stack@.len() == gstack.len(),
        forall|t: int| 0 <= t < gstack.len() ==> (#[trigger] stack@[t])@ == decode_utf8(gstack[t]),
        spec_matches_md(old(out)@, gout),
    ensures
        r@ == if !spec_all_ws(cur@) {
            gout.push(spec_md_item_capped(start as int, cur@, gstack, cap as int))
        } else {
            gout
        },
        spec_matches_md(final(out)@, r@),
{
    let blank = all_ws(cur.as_slice());
    if !blank {
        let text = string_from_utf8(dup_bytes(cur));
        let meta: Option<Metadata> = if stack.len() > 0 {
            Some(
                Metadata {
                    size: None,
                    created: None,
                    modified: None,
                    extension: None,
                    headers: Some(dup_strings(stack)),
                },
            )
        } else {
            None
        };
        let end_off: u64 = if start as u64 + cur.len() as u64 <= cap as u64 {
            start as u64 + cur.len() as u64
        } else {
            cap as u64
        };
        out.push(Chunk { start: start as u64, end: end_off, content: text, metadata: meta });
        Ghost(gout.push(spec_md_item_capped(start as int, cur@, gstack, cap as int)))
    } else {
        Ghost(gout)
    }
}

/// Split markdown at its headings. Lines accumulate into a chunk until
/// the next heading; each chunk carries the heading stack it sits under.
/// Falls back to paragraph chunking when nothing accumulates and the
/// content is not blank; fails only on content too large for the offset
/// arithmetic.
#[verifier::rlimit(100)]
#[verifier::spinoff_prover]
pub fn chunk_markdown(content: &str) -> (r: Result<Vec<Chunk>, CoreError>)
    ensures
        r is Ok <==> spec_text_fits(content.spec_bytes()),
        r is Err ==> r->Err_0 is ChunkingFailed,
        r is Ok ==> ({
            let b = content.spec_bytes();
            let items = spec_markdown_items(b);
            if items.len() == 0 && !spec_all_ws(b) {
                spec_matches_text(r->Ok_0@, spec_text_chunks(b, 0))
            } else {
                spec_matches_md(r->Ok_0@, items)
            }
        }),
{
    let b = content.as_bytes();
    let n = b.len();
    if n > usize::MAX - 2 || n as u64 > u64::MAX - 2 {
        return Err(CoreError::ChunkingFailed);
    }
    let ghost bs = content.spec_bytes();
    let ghost init = (
        0int,
        Seq::<u8>::empty(),
        Seq::<Seq<u8>>::empty(),
        Seq::<(int, int, Seq<u8>, Option<Seq<Seq<u8>>>)>::empty(),
    );
    let ghost gtotal = spec_md_fold(spec_md_lines(bs, 0), init);
    let mut out: Vec<Chunk> = Vec::new();
    let mut cur: Vec<u8> = Vec::new();
    let mut stack: Vec<String> = Vec::new();
    let mut cur_start: usize = 0;
    let ghost mut gstack = Seq::<Seq<u8>>::empty();
    let ghost mut gout = Seq::<(int, int, Seq<u8>, Option<Seq<Seq<u8>>>)>::empty();
    let mut li: usize = 0;
    while li < n
        invariant
            b@ == bs,
            valid_utf8(bs),
            n == bs.len(),
            n + 2 <= usize::MAX,
            n + 2 <= u64::MAX,
            li <= n + 1,
            li <= n ==> (li == 0 || bs[li - 1] == 10),
            gtotal == spec_md_fold(spec_md_lines(bs, 0), init),
            init == (
                0int,
                Seq::<u8>::empty(),
                Seq::<Seq<u8>>::empty(),
                Seq::<(int, int, Seq<u8>, Option<Seq<Seq<u8>>>)>::empty(),
            ),
            spec_md_fold(spec_md_lines(bs, li as int), (cur_start as int, cur@, gstack, gout))
                == gtotal,
            valid_utf8(cur@),
            cur_start <= li,
            cur_start <= n,
            cur@.len() <= li - cur_start,
            stack@.len() == gstack.len(),
            forall|t: int|
                0 <= t < gstack.len() ==> (#[trigger] stack@[t])@ == decode_utf8(gstack[t]),
            spec_matches_md(out@, gout),
        decreases n + 1 - li,
    {
        // find the end of this line
        let mut j: usize = li;
        while j < n && *vstd::slice::slice_index_get(b, j) != 10
            invariant
                b@ == bs,
                n == bs.len(),
                li <= j <= n,
                forall|t: int| li <= t < j ==> #[trigger] bs[t] != 10,
            decreases n - j,
        {
            j += 1;
        }
        proof {
            lemma_next_nl(bs, li as int);
            let ns = spec_next_nl(bs, li as int);
            if ns < j {
                assert(bs[ns] == 10);
                assert(false);
            }
            if ns > j {
                assert(j < n && bs[j as int] == 10);
                assert(bs[j as int] != 10);
                assert(false);
            }
        }
        let had_nl: bool = j < n;
        let line_end: usize = if had_nl && j > li && *vstd::slice::slice_index_get(b, j - 1)
            == 13 {
            j - 1
        } else {
            j
        };
        let ghost gline = bs.subrange(li as int, line_end as int);
        proof {
            // gline is the line the model sees at this position
            let raw = bs.subrange(li as int, j as int);
            if had_nl && raw.len() > 0 && raw.last() == 13 {
                assert(raw.drop_last() =~= gline);
            } else {
                assert(raw =~= gline);
            }
            // the line is valid UTF-8 and bounded by ASCII
            if li < n {
                if li == 0 {
                    crate::strutil::lemma_valid_first_not_continuation(bs);
                } else {
                    lemma_ascii_boundaries(bs, li as int - 1);
                }
            }
            if line_end < n {
                assert(bs[line_end as int] == 13 || bs[line_end as int] == 10);
            }
            crate::strutil::lemma_range_valid_utf8(bs, li as int, line_end as int);
            lemma_ascii_singleton_valid(10);
        }
        let is_header: bool = line_end > li && *vstd::slice::slice_index_get(b, li) == 35;
        let ghost gst_old = (cur_start as int, cur@, gstack, gout);
        if is_header {
            // flush the accumulated chunk
            let Ghost(gout2) = flush_md_chunk(
                &mut out,
                cur_start,
                &cur,
                &stack,
                n,
                Ghost(gstack),
                Ghost(gout),
            );
            proof {
                // here the span sits inside the content, so the clamp is
                // the identity and the flushed item is the step's item
                assert(cur_start + cur@.len() <= n);
                assert(spec_md_item_capped(cur_start as int, cur@, gstack, n as int)
                    == spec_md_item(cur_start as int, cur@, gstack));
                gout = gout2;
            }
            // heading depth and title
            let (lvl, title) = md_heading(b, li, line_end);

            // adjust the heading stack
            
            proof {
                lemma_hash_end(gline, 0);
                assert(gline[0] == bs[li as int]);
            }
            if lvl > stack.len() {
                stack.push(title);
                proof {
                    gstack = gstack.push(spec_md_title(gline));
                }
            } else {
                stack.truncate(lvl - 1);
                stack.push(title);
                proof {
                    gstack = gstack.take(lvl as int - 1).push(spec_md_title(gline));
                }
            }
            // start a new chunk at the heading's own offset
            cur_start = li;
            cur = Vec::new();
            push_bytes(&mut cur, vstd::slice::slice_subrange(b, li, line_end));
            cur.push(10);
            proof {
                assert(cur@ =~= gline + seq![10u8]);
                vstd::utf8::valid_utf8_concat(gline, seq![10u8]);
            }
        } else {
            push_bytes(&mut cur, vstd::slice::slice_subrange(b, li, line_end));
            cur.push(10);
            proof {
                vstd::utf8::valid_utf8_concat(gline, seq![10u8]);
                vstd::utf8::valid_utf8_concat(gst_old.1, gline + seq![10u8]);
                assert(cur@ =~= gst_old.1 + (gline + seq![10u8]));
                assert(cur@ =~= gst_old.1 + gline + seq![10u8]);
            }
        }
        proof {
            // one fold step
            assert(spec_md_lines(bs, li as int) == seq![(li as int, gline)] + spec_md_lines(
                bs,
                j as int + 1,
            ));
            lemma_md_fold_cons((li as int, gline), spec_md_lines(bs, j as int + 1), gst_old);
            assert(spec_md_step(gst_old, (li as int, gline)) == (
                cur_start as int,
                cur@,
                gstack,
                gout,
            ));
        }
        li = j + 1;
    }
    proof {
        assert(spec_md_lines(bs, li as int) =~= Seq::<(int, Seq<u8>)>::empty());
        assert(gtotal == (cur_start as int, cur@, gstack, gout));
    }
    // flush the final chunk
    let Ghost(gout3) = flush_md_chunk(
        &mut out,
        cur_start,
        &cur,
        &stack,
        n,
        Ghost(gstack),
        Ghost(gout),
    );
    proof {
        gout = gout3;
        assert(gout == spec_markdown_items(bs));
    }
    if out.len() == 0 {
        if !all_ws(b) {
            return chunk_text(content);
        }
    }
    Ok(out)
}

/// Chunk content according to its file extension: language-aware
/// chunking for the known source languages, heading-based chunking for
/// markdown, paragraph chunking for everything else.
pub fn chunk_by_type(content: &str, ext: &str) -> (r: Result<Vec<Chunk>, CoreError>)
    requires
        (ext@ == "rs"@ || ext@ == "py"@ || ext@ == "js"@ || ext@ == "jsx"@ || ext@ == "ts"@ || ext@
            == "tsx"@ || ext@ == "go"@) ==> content.spec_bytes().len() < 0x1_0000_0000,
    ensures
        r is Err ==> r->Err_0 is ChunkingFailed,
        ext@ == "rs"@ ==> (r is Ok <==> crate::lang::spec_code_fits(
            content.spec_bytes(),
            crate::lang::spec_rust_spans(crate::lang::rust_top_nodes_of(content@), 0, None),
        )),
        ext@ == "py"@ ==> (r is Ok <==> crate::lang::spec_code_fits(
            content.spec_bytes(),
            crate::lang::spec_lang_spans(
                crate::lang::CodeLang::Python,
                crate::lang::python_top_nodes_of(content@),
            ),
        )),
        (ext@ == "js"@ || ext@ == "jsx"@) ==> (r is Ok <==> crate::lang::spec_code_fits(
            content.spec_bytes(),
            crate::lang::spec_lang_spans(
                crate::lang::CodeLang::Javascript,
                crate::lang::javascript_top_nodes_of(content@),
            ),
        )),
        (ext@ == "ts"@ || ext@ == "tsx"@) ==> (r is Ok <==> crate::lang::spec_code_fits(
            content.spec_bytes(),
            crate::lang::spec_lang_spans(
                crate::lang::CodeLang::Typescript,
                crate::lang::typescript_top_nodes_of(content@),
            ),
        )),
        ext@ == "go"@ ==> (r is Ok <==> crate::lang::spec_code_fits(
            content.spec_bytes(),
            crate::lang::spec_lang_spans(
                crate::lang::CodeLang::Go,
                crate::lang::go_top_nodes_of(content@),
            ),
        )),
        (ext@ == "md"@ || ext@ == "markdown"@) ==> (r is Ok <==> spec_text_fits(
            content.spec_bytes(),
        )),
        (ext@ != "rs"@ && ext@ != "py"@ && ext@ != "js"@ && ext@ != "jsx"@ && ext@ != "ts"@ && ext@
            != "tsx"@ && ext@ != "go"@ && ext@ != "md"@ && ext@ != "markdown"@) ==> (r is Ok
            <==> spec_text_fits(content.spec_bytes())),
        r is Ok ==> ({
            let b = content.spec_bytes();
            if ext@ == "rs"@ {
                crate::lang::spec_code_ok(
                    r->Ok_0@,
                    b,
                    crate::lang::spec_rust_spans(crate::lang::rust_top_nodes_of(content@), 0, None),
                )
            } else if ext@ == "py"@ {
                crate::lang::spec_code_ok(
                    r->Ok_0@,
                    b,
                    crate::lang::spec_lang_spans(
                        crate::lang::CodeLang::Python,
                        crate::lang::python_top_nodes_of(content@),
                    ),
                )
            } else if ext@ == "js"@ || ext@ == "jsx"@ {
                crate::lang::spec_code_ok(
                    r->Ok_0@,
                    b,
                    crate::lang::spec_lang_spans(
                        crate::lang::CodeLang::Javascript,
                        crate::lang::javascript_top_nodes_of(content@),
                    ),
                )
            } else if ext@ == "ts"@ || ext@ == "tsx"@ {
                crate::lang::spec_code_ok(
                    r->Ok_0@,
                    b,
                    crate::lang::spec_lang_spans(
                        crate::lang::CodeLang::Typescript,
                        crate::lang::typescript_top_nodes_of(content@),
                    ),
                )
            } else if ext@ == "go"@ {
                crate::lang::spec_code_ok(
                    r->Ok_0@,
                    b,
                    crate::lang::spec_lang_spans(
                        crate::lang::CodeLang::Go,
                        crate::lang::go_top_nodes_of(content@),
                    ),
                )
            } else if ext@ == "md"@ || ext@ == "markdown"@ {
                if spec_markdown_items(b).len() == 0 && !spec_all_ws(b) {
                    spec_matches_text(r->Ok_0@, spec_text_chunks(b, 0))
                } else {
                    spec_matches_md(r->Ok_0@, spec_markdown_items(b))
                }
            } else {
                spec_matches_text(r->Ok_0@, spec_text_chunks(b, 0))
            }
        }),
{
    proof {
        reveal_strlit("md");
        reveal_strlit("markdown");
        reveal_strlit("rs");
        reveal_strlit("py");
        reveal_strlit("js");
        reveal_strlit("jsx");
        reveal_strlit("ts");
        reveal_strlit("tsx");
        reveal_strlit("go");
        assert("rs"@.len() == 2 && "py"@.len() == 2 && "js"@.len() == 2 && "ts"@.len() == 2
            && "go"@.len() == 2 && "md"@.len() == 2);
        assert("jsx"@.len() == 3 && "tsx"@.len() == 3);
        assert("markdown"@.len() == 8);
        assert("rs"@[0] == 'r' && "py"@[0] == 'p' && "js"@[0] == 'j' && "ts"@[0] == 't' && "go"@[0]
            == 'g' && "md"@[0] == 'm');
        assert("jsx"@[0] == 'j' && "tsx"@[0] == 't');
    }
    if crate::strutil::str_eq(ext, "rs") {
        crate::lang::chunk_rust(content)
    } else if crate::strutil::str_eq(ext, "py") {
        crate::lang::chunk_python(content)
    } else if crate::strutil::str_eq(ext, "js") || crate::strutil::str_eq(ext, "jsx") {
        crate::lang::chunk_javascript(content)
    } else if crate::strutil::str_eq(ext, "ts") || crate::strutil::str_eq(ext, "tsx") {
        crate::lang::chunk_typescript(content)
    } else if crate::strutil::str_eq(ext, "go") {
        crate::lang::chunk_go(content)
    } else if crate::strutil::str_eq(ext, "md") || crate::strutil::str_eq(ext, "markdown") {
        chunk_markdown(content)
    } else {
        chunk_text(content)
    }
}

} // verus!
