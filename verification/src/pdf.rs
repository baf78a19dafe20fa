//! Chunking of extracted PDF text. Reading the document and running the
//! extractor are host concerns (extraction can abort on exotic
//! documents, so the host guards that call); once the text is here,
//! form feeds become paragraph breaks and the verified splitter below
//! cuts it while keeping positional truth.

use vstd::prelude::*;
use vstd::string::StringSliceAdditionalSpecFns;
use vstd::utf8::{decode_utf8, encode_utf8, valid_utf8};
use crate::chunk::{
    is_ws_byte, lemma_next_sep, lemma_ws_end, lemma_ws_start, spec_next_sep, spec_trim_bytes,
    spec_ws_end, spec_ws_start, Chunk,
};
use crate::errors::CoreError;
use crate::lang::spec_matches_text;
use crate::strutil::{
    all_ws, lemma_ascii_boundaries, spec_all_ws, spec_is_ws, string_from_byte_range,
};

verus! {

broadcast use vstd::utf8::encode_utf8_valid_utf8;

/// Every form feed replaced by a blank line; all other bytes unchanged.
pub open spec fn spec_normalize_ff(b: Seq<u8>) -> Seq<u8>
    decreases b.len(),
{
    if b.len() == 0 {
        Seq::empty()
    } else {
        (if b.first() == 12 {
            seq![10u8, 10u8]
        } else {
            seq![b.first()]
        }) + spec_normalize_ff(b.drop_first())
    }
}

/// Relies on str::replace: replacing the form-feed character with a blank
/// line rewrites, at the byte level, every 0x0c byte into two newline
/// bytes (both pattern and replacement are single-byte ASCII).
#[verifier::external_body]
fn normalize_form_feeds(s: &str) -> (r: String)
    ensures
        encode_utf8(r@) == spec_normalize_ff(s.spec_bytes()),
{
    s.replace('\x0c', "\n\n")
}

/// The paragraphs of extracted PDF text: pieces between blank lines with
/// their untrimmed spans, whitespace-only pieces skipped while their span
/// still advances the offsets, contents trimmed.
pub open spec fn spec_pdf_chunks(b: Seq<u8>, i: int) -> Seq<(int, int, Seq<u8>)>
    decreases b.len() + 2 - i,
    when 0 <= i
    via spec_pdf_chunks_decreases
{
    if i >= b.len() {
        Seq::empty()
    } else {
        let j = spec_next_sep(b, i);
        if j == i || spec_all_ws(b.subrange(i, j)) {
            spec_pdf_chunks(b, j + 2)
        } else {
            seq![(i, j, spec_trim_bytes(b.subrange(i, j)))] + spec_pdf_chunks(b, j + 2)
        }
    }
}

#[via_fn]
proof fn spec_pdf_chunks_decreases(b: Seq<u8>, i: int) {
    if i < b.len() {
        lemma_next_sep(b, i);
    }
}

/// Chunk the text extracted from a PDF document: treat page breaks as
/// paragraph breaks and split at blank lines. Offsets advance over
/// skipped blank paragraphs; contents are trimmed. Fails only on text
/// too large for the offsets.
pub fn chunk_pdf(text: &str) -> (r: Result<Vec<Chunk>, CoreError>)
    ensures
        r is Ok <==> crate::chunk::spec_text_fits(spec_normalize_ff(text.spec_bytes())),
        r is Err ==> r->Err_0 is ChunkingFailed,
        r is Ok ==> spec_matches_text(
            r->Ok_0@,
            spec_pdf_chunks(spec_normalize_ff(text.spec_bytes()), 0),
        ),
{
    let normalized = normalize_form_feeds(text);
    let b = normalized.as_str().as_bytes();
    let n = b.len();
    if n > usize::MAX - 2 || n as u64 > u64::MAX - 2 {
        return Err(CoreError::ChunkingFailed);
    }
    let ghost bs = spec_normalize_ff(text.spec_bytes());
    let ghost model = spec_pdf_chunks(bs, 0);
    let mut out: Vec<Chunk> = Vec::new();
    let mut i: usize = 0;
    while i < n
        invariant
            b@ == bs,
            valid_utf8(bs),
            n == bs.len(),
            n + 2 <= u64::MAX,
            n + 2 <= usize::MAX,
            model == spec_pdf_chunks(bs, 0),
            0 <= i <= n + 2,
            i < n ==> !vstd::utf8::is_continuation_byte(bs[i as int]),
            out@.len() <= model.len(),
            spec_pdf_chunks(bs, i as int) == model.subrange(out@.len() as int, model.len() as int),
            forall|k: int|
                0 <= k < out@.len() ==> {
                    &&& (#[trigger] out@[k]).start == model[k].0
                    &&& out@[k].end == model[k].1
                    &&& out@[k].content@ == decode_utf8(model[k].2)
                    &&& out@[k].metadata is None
                },
        decreases n + 2 - i,
    {
        // scan for the next separator
        let mut j: usize = i;
        while j + 1 < n && !(*vstd::slice::slice_index_get(b, j) == 10
            && *vstd::slice::slice_index_get(b, j + 1) == 10)
            invariant
                b@ == bs,
                n == bs.len(),
                n + 2 <= usize::MAX,
                i <= j <= n,
                forall|t: int|
                    i <= t < j && t + 1 < n ==> !(#[trigger] bs[t] == 10 && bs[t + 1] == 10),
            decreases n - j,
        {
            j += 1;
        }
        let sep_found: bool = j + 1 < n;
        let j_real: usize = if sep_found {
            j
        } else {
            n
        };
        proof {
            lemma_next_sep(bs, i as int);
            let ns = spec_next_sep(bs, i as int);
            if sep_found {
                if ns < j_real {
                    assert(bs[ns] == 10 && bs[ns + 1] == 10);
                    assert(false);
                }
                if ns > j_real {
                    assert(!(bs[j_real as int] == 10 && bs[j_real as int + 1] == 10));
                    assert(false);
                }
            } else {
                if ns < n {
                    assert(bs[ns] == 10 && bs[ns + 1] == 10);
                    assert(ns + 1 < n);
                    assert(false);
                }
            }
            assert(ns == j_real as int);
        }
        let ghost piece = bs.subrange(i as int, j_real as int);
        let piece_blank: bool = if j_real > i {
            all_ws(vstd::slice::slice_subrange(b, i, j_real))
        } else {
            true
        };
        if j_real > i && !piece_blank {
            // trim the paragraph
            let mut a: usize = i;
            while a < j_real && is_ws_byte(*vstd::slice::slice_index_get(b, a))
                invariant
                    b@ == bs,
                    n == bs.len(),
                    j_real <= n,
                    i <= a <= j_real,
                    forall|t: int| i <= t < a ==> spec_is_ws(#[trigger] bs[t]),
                decreases j_real - a,
            {
                a += 1;
            }
            let mut et: usize = j_real;
            while et > a && is_ws_byte(*vstd::slice::slice_index_get(b, et - 1))
                invariant
                    b@ == bs,
                    n == bs.len(),
                    j_real <= n,
                    a <= et <= j_real,
                    forall|t: int| et <= t < j_real ==> spec_is_ws(#[trigger] bs[t]),
                decreases et,
            {
                et -= 1;
            }
            proof {
                assert forall|t: int| 0 <= t < piece.len() implies piece[t] == bs[i + t] by {}
                lemma_ws_start(piece, 0);
                lemma_ws_end(piece, piece.len() as int);
                let sa = spec_ws_start(piece, 0);
                let se = spec_ws_end(piece, piece.len() as int);
                if sa < a - i {
                    assert(!spec_is_ws(piece[sa]));
                    assert(spec_is_ws(bs[i + sa]));
                    assert(false);
                }
                if sa > a - i {
                    assert(a < j_real && !spec_is_ws(bs[a as int]));
                    assert(spec_is_ws(piece[a - i]));
                    assert(false);
                }
                assert(sa == a - i);
                if a >= et {
                    // then the piece would be all whitespace
                    assert(a == et);
                    if a < j_real {
                        assert(spec_is_ws(bs[a as int]));
                        assert(!spec_is_ws(bs[a as int]));
                        assert(false);
                    }
                    assert forall|t: int| 0 <= t < piece.len() implies spec_is_ws(
                        #[trigger] piece[t],
                    ) by {
                        assert(piece[t] == bs[i + t]);
                    }
                    assert(spec_all_ws(piece));
                    assert(false);
                }
                if se < et - i {
                    assert(spec_is_ws(piece[et - i - 1]));
                    assert(!spec_is_ws(bs[et - 1]));
                    assert(false);
                }
                if se > et - i {
                    assert(!spec_is_ws(piece[se - 1]));
                    assert(et <= i + (se - 1) < j_real);
                    assert(spec_is_ws(bs[i + (se - 1)]));
                    assert(false);
                }
                assert(se == et - i);
                assert(spec_trim_bytes(piece) =~= bs.subrange(a as int, et as int));
                // boundaries of the trimmed range
                if a > i {
                    assert(spec_is_ws(bs[a - 1]));
                    assert(bs[a - 1] < 128);
                    lemma_ascii_boundaries(bs, a as int - 1);
                } else {
                    assert(!vstd::utf8::is_continuation_byte(bs[i as int]));
                }
                if et < n {
                    if et < j_real {
                        assert(spec_is_ws(bs[et as int]));
                        assert(bs[et as int] < 128);
                    } else {
                        assert(bs[et as int] == 10);
                    }
                }
            }
            let content = string_from_byte_range(b, a, et);
            let c = Chunk { start: i as u64, end: j_real as u64, content, metadata: None };
            proof {
                let rem = model.subrange(out@.len() as int, model.len() as int);
                assert(rem == spec_pdf_chunks(bs, i as int));
                assert(spec_pdf_chunks(bs, i as int) == seq![
                    (i as int, j_real as int, spec_trim_bytes(piece)),
                ] + spec_pdf_chunks(bs, j_real as int + 2));
                let tail = spec_pdf_chunks(bs, j_real as int + 2);
                assert(rem.len() == 1 + tail.len());
                assert(model[out@.len() as int] == rem[0]);
                assert forall|t: int| 0 <= t < tail.len() implies model[out@.len() + 1 + t]
                    == tail[t] by {
                    assert(model[out@.len() + 1 + t] == rem[1 + t]);
                    assert(rem[1 + t] == tail[t]);
                }
                assert(model.subrange(out@.len() as int + 1, model.len() as int) =~= tail);
            }
            out.push(c);
        } else {
            proof {
                assert(spec_pdf_chunks(bs, i as int) == spec_pdf_chunks(bs, j_real as int + 2));
            }
        }
        proof {
            if j_real + 2 < n {
                assert(bs[j_real as int + 1] == 10);
                lemma_ascii_boundaries(bs, j_real as int + 1);
            }
        }
        i = j_real + 2;
    }
    proof {
        assert(spec_pdf_chunks(bs, i as int) =~= Seq::<(int, int, Seq<u8>)>::empty());
        assert(out@.len() == model.len());
    }
    Ok(out)
}

} // verus!
