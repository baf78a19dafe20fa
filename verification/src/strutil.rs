//! Small verified helpers over strings and byte sequences that the rest of
//! the crate builds on: equality, ASCII classification, substring search,
//! and conversion between UTF-8 bytes and `String`.

use vstd::prelude::*;
use vstd::string::StringSliceAdditionalSpecFns;
use vstd::utf8::{decode_utf8, encode_utf8, valid_utf8};

verus! {

broadcast use vstd::utf8::encode_utf8_decode_utf8, vstd::utf8::encode_utf8_valid_utf8;

/// Two string slices are equal exactly when their character views are.
pub fn str_eq(a: &str, b: &str) -> (r: bool)
    ensures
        r == (a@ == b@),
{
    let ab = a.as_bytes();
    let bb = b.as_bytes();
    if ab.len() != bb.len() {
        assert(a@ != b@) by {
            if a@ == b@ {
                assert(encode_utf8(a@) == encode_utf8(b@));
                assert(false);
            }
        }
        return false;
    }
    let n = ab.len();
    let mut i: usize = 0;
    while i < n
        invariant
            n == ab@.len() == bb@.len(),
            ab@ == a.spec_bytes(),
            bb@ == b.spec_bytes(),
            i <= n,
            forall|j: int| 0 <= j < i ==> ab@[j] == bb@[j],
        decreases n - i,
    {
        let ai = *vstd::slice::slice_index_get(ab, i);
        let bi = *vstd::slice::slice_index_get(bb, i);
        if ai != bi {
            assert(a@ != b@) by {
                if a@ == b@ {
                    assert(encode_utf8(a@) == encode_utf8(b@));
                    assert(ab@ == bb@);
                    assert(ab@[i as int] == bb@[i as int]);
                    assert(false);
                }
            }
            return false;
        }
        i += 1;
    }
    assert(ab@ =~= bb@);
    assert(a@ == b@) by {
        assert(encode_utf8(a@) == encode_utf8(b@));
        assert(decode_utf8(encode_utf8(a@)) == a@);
        assert(decode_utf8(encode_utf8(b@)) == b@);
    }
    true
}

/// Relies on `String::from_utf8`: valid UTF-8 bytes decode to the string
/// of the scalars they encode.
#[verifier::external_body]
pub fn string_from_utf8(v: Vec<u8>) -> (r: String)
    requires
        valid_utf8(v@),
    ensures
        r@ == decode_utf8(v@),
{
    match String::from_utf8(v) {
        Ok(s) => s,
        Err(_) => String::new(),
    }
}

/// A valid, non-empty UTF-8 sequence starts with a leading byte.
pub proof fn lemma_valid_first_not_continuation(b: Seq<u8>)
    requires
        valid_utf8(b),
        b.len() > 0,
    ensures
        !vstd::utf8::is_continuation_byte(b[0]),
{
    assert(vstd::utf8::valid_first_scalar(b));
}

/// Around an ASCII byte of a valid UTF-8 sequence, neither the byte
/// itself nor its successor can be a continuation byte: both positions
/// are character boundaries.
pub proof fn lemma_ascii_boundaries(b: Seq<u8>, i: int)
    requires
        valid_utf8(b),
        0 <= i < b.len(),
        b[i] < 128,
    ensures
        !vstd::utf8::is_continuation_byte(b[i]),
        vstd::utf8::is_char_boundary(b, i),
        i + 1 < b.len() ==> !vstd::utf8::is_continuation_byte(b[i + 1]),
        vstd::utf8::is_char_boundary(b, i + 1),
{
    vstd::utf8::is_char_boundary_iff_not_is_continuation_byte(b, i);
    assert(vstd::utf8::is_char_boundary(b, i));
    vstd::utf8::valid_utf8_split(b, i);
    let s = b.subrange(i, b.len() as int);
    assert(valid_utf8(s));
    assert(s.len() > 0 && s[0] == b[i]);
    assert(vstd::utf8::is_leading_byte_width_1(s[0]));
    assert(vstd::utf8::length_of_first_scalar(s) == 1);
    let rest = vstd::utf8::pop_first_scalar(s);
    assert(valid_utf8(rest));
    assert(rest =~= b.subrange(i + 1, b.len() as int));
    if i + 1 < b.len() {
        lemma_valid_first_not_continuation(rest);
        assert(rest[0] == b[i + 1]);
        vstd::utf8::is_char_boundary_iff_not_is_continuation_byte(b, i + 1);
        assert(vstd::utf8::is_char_boundary(b, i + 1));
    } else {
        vstd::utf8::is_char_boundary_start_end_of_seq(b);
        assert(vstd::utf8::is_char_boundary(b, b.len() as int));
    }
}

/// Extract the bytes `[from, to)` of a valid UTF-8 sequence as a string,
/// given that both cut points sit on character boundaries (stated through
/// the bytes at the cut points).
pub fn string_from_byte_range(b: &[u8], from: usize, to: usize) -> (r: String)
    requires
        valid_utf8(b@),
        from <= to <= b@.len(),
        from < b@.len() ==> !vstd::utf8::is_continuation_byte(b@[from as int]),
        to < b@.len() ==> !vstd::utf8::is_continuation_byte(b@[to as int]),
    ensures
        valid_utf8(b@.subrange(from as int, to as int)),
        r@ == decode_utf8(b@.subrange(from as int, to as int)),
{
    proof {
        lemma_range_valid_utf8(b@, from as int, to as int);
    }
    let piece = vstd::slice::slice_to_vec(vstd::slice::slice_subrange(b, from, to));
    string_from_utf8(piece)
}

/// A byte range of a valid UTF-8 sequence whose cut points are character
/// boundaries is itself valid UTF-8.
pub proof fn lemma_range_valid_utf8(b: Seq<u8>, from: int, to: int)
    requires
        valid_utf8(b),
        0 <= from <= to <= b.len(),
        from < b.len() ==> !vstd::utf8::is_continuation_byte(b[from]),
        to < b.len() ==> !vstd::utf8::is_continuation_byte(b[to]),
    ensures
        valid_utf8(b.subrange(from, to)),
{
    if to < b.len() {
        vstd::utf8::is_char_boundary_iff_not_is_continuation_byte(b, to);
    } else {
        vstd::utf8::is_char_boundary_start_end_of_seq(b);
    }
    assert(vstd::utf8::is_char_boundary(b, to));
    vstd::utf8::valid_utf8_split(b, to);
    let prefix = b.subrange(0, to);
    assert(valid_utf8(prefix));
    if from < to {
        assert(prefix[from] == b[from]);
        vstd::utf8::is_char_boundary_iff_not_is_continuation_byte(prefix, from);
        assert(vstd::utf8::is_char_boundary(prefix, from));
        vstd::utf8::valid_utf8_split(prefix, from);
        assert(valid_utf8(prefix.subrange(from, to)));
        assert(prefix.subrange(from, to) =~= b.subrange(from, to));
    } else {
        assert(b.subrange(from, to) =~= Seq::<u8>::empty());
        reveal_with_fuel(valid_utf8, 2);
    }
}

/// ASCII lowercasing of one byte: uppercase letters move down by 32,
/// everything else stays.
pub open spec fn spec_lower_byte(b: u8) -> u8 {
    if 65 <= b <= 90 {
        (b + 32) as u8
    } else {
        b
    }
}

/// ASCII lowercasing of a byte sequence.
pub open spec fn spec_lower_bytes(b: Seq<u8>) -> Seq<u8> {
    b.map_values(|x: u8| spec_lower_byte(x))
}

/// Relies on `str::to_ascii_lowercase`: ASCII uppercase letters map to
/// their lowercase forms and every other character is unchanged, which at
/// the byte level is exactly a bytewise ASCII lowering.
#[verifier::external_body]
pub fn ascii_lower(s: &str) -> (r: String)
    ensures
        r@ == decode_utf8(spec_lower_bytes(s.spec_bytes())),
        vstd::utf8::encode_utf8(r@) == spec_lower_bytes(s.spec_bytes()),
{
    s.to_ascii_lowercase()
}

/// Does `needle` occur in `hay` starting at `at`?
pub open spec fn spec_match_at(hay: Seq<u8>, needle: Seq<u8>, at: int) -> bool {
    &&& 0 <= at
    &&& at + needle.len() <= hay.len()
    &&& hay.subrange(at, at + needle.len()) == needle
}

/// Does `needle` occur anywhere in `hay`?
pub open spec fn spec_contains_bytes(hay: Seq<u8>, needle: Seq<u8>) -> bool {
    exists|at: int| spec_match_at(hay, needle, at)
}

/// Does `needle` occur at `at`, comparing the haystack ASCII-lowered?
pub fn match_at_lower_pub(hay: &[u8], needle: &[u8], at: usize) -> (r: bool)
    requires
        at + needle@.len() <= hay@.len(),
    ensures
        r == spec_match_at(spec_lower_bytes(hay@), needle@, at as int),
{
    let hn = hay.len();
    let m = needle.len();
    let mut j: usize = 0;
    while j < m
        invariant
            hn == hay@.len(),
            at + m <= hn,
            m == needle@.len(),
            j <= m,
            forall|t: int| 0 <= t < j ==> spec_lower_byte(hay@[at + t]) == needle@[t],
        decreases m - j,
    {
        let h = *vstd::slice::slice_index_get(hay, at + j);
        let lowered: u8 = if 65 <= h && h <= 90 {
            h + 32
        } else {
            h
        };
        if lowered != *vstd::slice::slice_index_get(needle, j) {
            assert(spec_lower_bytes(hay@).subrange(at as int, at + m)[j as int] != needle@[j as int]);
            return false;
        }
        j += 1;
    }
    assert(spec_lower_bytes(hay@).subrange(at as int, at + m) =~= needle@);
    true
}

/// Substring search over the ASCII-lowered haystack.
pub fn contains_lower(hay: &[u8], needle: &[u8]) -> (r: bool)
    ensures
        r == spec_contains_bytes(spec_lower_bytes(hay@), needle@),
{
    let n = hay.len();
    let m = needle.len();
    if m > n {
        assert(!spec_contains_bytes(spec_lower_bytes(hay@), needle@));
        return false;
    }
    if m == 0 {
        assert(spec_lower_bytes(hay@).subrange(0, 0) =~= needle@);
        assert(spec_match_at(spec_lower_bytes(hay@), needle@, 0));
        return true;
    }
    let mut at: usize = 0;
    while at <= n - m
        invariant
            0 < m <= n,
            n == hay@.len(),
            m == needle@.len(),
            at <= n - m + 1,
            forall|t: int| 0 <= t < at ==> !spec_match_at(spec_lower_bytes(hay@), needle@, t),
        decreases n - at,
    {
        if match_at_lower_pub(hay, needle, at) {
            return true;
        }
        at += 1;
    }
    assert forall|t: int| !spec_match_at(spec_lower_bytes(hay@), needle@, t) by {
        if 0 <= t <= n - m {
        }
    }
    false
}

/// Substring search, byte for byte.
pub fn contains_bytes(hay: &[u8], needle: &[u8]) -> (r: bool)
    ensures
        r == spec_contains_bytes(hay@, needle@),
{
    let n = hay.len();
    let m = needle.len();
    if m > n {
        assert(!spec_contains_bytes(hay@, needle@));
        return false;
    }
    if m == 0 {
        assert(hay@.subrange(0, 0) =~= needle@);
        assert(spec_match_at(hay@, needle@, 0));
        return true;
    }
    let mut at: usize = 0;
    while at <= n - m
        invariant
            0 < m <= n,
            n == hay@.len(),
            m == needle@.len(),
            at <= n - m + 1,
            forall|t: int| 0 <= t < at ==> !spec_match_at(hay@, needle@, t),
        decreases n - at,
    {
        let mut j: usize = 0;
        let mut hit = true;
        while j < m && hit
            invariant
                at + m <= n,
                n == hay@.len(),
                m == needle@.len(),
                j <= m,
                hit == forall|t: int| 0 <= t < j ==> hay@[at + t] == needle@[t],
            decreases m - j,
        {
            if *vstd::slice::slice_index_get(hay, at + j) != *vstd::slice::slice_index_get(
                needle,
                j,
            ) {
                hit = false;
                assert(hay@[at + j] != needle@[j as int]);
            }
            j += 1;
        }
        if hit {
            assert(hay@.subrange(at as int, at + m) =~= needle@);
            assert(spec_match_at(hay@, needle@, at as int));
            return true;
        }
        proof {
            if spec_match_at(hay@, needle@, at as int) {
                assert(forall|t: int|
                    0 <= t < m ==> hay@.subrange(at as int, at + m)[t] == needle@[t]);
                assert(hay@[at + (j - 1)] == needle@[j - 1]);
                assert(false);
            }
        }
        at += 1;
    }
    assert forall|t: int| !spec_match_at(hay@, needle@, t) by {
        if 0 <= t <= n - m {
        }
    }
    false
}

/// Byte-for-byte equality of two slices.
pub fn bytes_eq(a: &[u8], b: &[u8]) -> (r: bool)
    ensures
        r == (a@ == b@),
{
    let n = a.len();
    if n != b.len() {
        assert(a@ != b@);
        return false;
    }
    let mut i: usize = 0;
    while i < n
        invariant
            n == a@.len() == b@.len(),
            i <= n,
            forall|j: int| 0 <= j < i ==> a@[j] == b@[j],
        decreases n - i,
    {
        if *vstd::slice::slice_index_get(a, i) != *vstd::slice::slice_index_get(b, i) {
            return false;
        }
        i += 1;
    }
    assert(a@ =~= b@);
    true
}

/// An exact copy of a byte vector.
pub fn dup_bytes(v: &Vec<u8>) -> (r: Vec<u8>)
    ensures
        r@ == v@,
{
    let n = v.len();
    let mut r: Vec<u8> = Vec::new();
    let mut i: usize = 0;
    while i < n
        invariant
            n == v@.len(),
            i <= n,
            r@ == v@.subrange(0, i as int),
        decreases n - i,
    {
        r.push(v[i]);
        proof {
            assert(r@ =~= v@.subrange(0, i + 1));
        }
        i += 1;
    }
    proof {
        assert(v@.subrange(0, n as int) =~= v@);
    }
    r
}

/// Index of the last occurrence of `x`, scanning from the back.
pub open spec fn spec_rfind(b: Seq<u8>, x: u8) -> int
    decreases b.len(),
{
    if b.len() == 0 {
        -1
    } else if b.last() == x {
        b.len() - 1
    } else {
        spec_rfind(b.drop_last(), x)
    }
}

/// What `spec_rfind` finds: the last occurrence, or nothing anywhere.
pub proof fn lemma_rfind(b: Seq<u8>, x: u8)
    ensures
        spec_rfind(b, x) >= 0 ==> {
            &&& spec_rfind(b, x) < b.len()
            &&& b[spec_rfind(b, x)] == x
            &&& forall|k: int| spec_rfind(b, x) < k < b.len() ==> b[k] != x
        },
        spec_rfind(b, x) < 0 ==> forall|k: int| 0 <= k < b.len() ==> b[k] != x,
    decreases b.len(),
{
    if b.len() > 0 {
        lemma_rfind(b.drop_last(), x);
        if b.last() != x {
            assert(forall|k: int| 0 <= k < b.len() - 1 ==> b[k] == b.drop_last()[k]);
        }
    }
}

/// Scan for the last occurrence of `x` in `b`.
pub fn rfind_byte(b: &[u8], x: u8) -> (r: Option<usize>)
    ensures
        match r {
            Some(i) => i == spec_rfind(b@, x) && i < b@.len() && b@[i as int] == x,
            None => spec_rfind(b@, x) < 0,
        },
{
    let n = b.len();
    let mut j: usize = n;
    while j > 0
        invariant
            n == b@.len(),
            j <= n,
            forall|k: int| j <= k < n ==> b@[k] != x,
        decreases j,
    {
        j -= 1;
        if *vstd::slice::slice_index_get(b, j) == x {
            proof {
                lemma_rfind(b@, x);
                if spec_rfind(b@, x) < 0 {
                    assert(false);
                }
                if spec_rfind(b@, x) < j {
                    assert(b@[j as int] != x);
                    assert(false);
                }
                if spec_rfind(b@, x) > j {
                    assert(b@[spec_rfind(b@, x)] == x);
                    assert(false);
                }
            }
            return Some(j);
        }
    }
    proof {
        lemma_rfind(b@, x);
        if spec_rfind(b@, x) >= 0 {
            assert(b@[spec_rfind(b@, x)] == x);
            assert(false);
        }
    }
    None
}

/// The ASCII-lowered extension bytes of a path: the bytes after the last
/// dot, or the whole path when it has none.
pub open spec fn spec_ext_lower_bytes(pb: Seq<u8>) -> Seq<u8> {
    if spec_rfind(pb, 46) >= 0 {
        spec_lower_bytes(pb.subrange(spec_rfind(pb, 46) + 1, pb.len() as int))
    } else {
        spec_lower_bytes(pb)
    }
}

/// The ASCII-lowered extension of a path: everything after the last
/// dot, or the whole name when the path has no dot.
pub fn ext_lower(path: &str) -> (r: String)
    ensures
        encode_utf8(r@) == spec_ext_lower_bytes(path.spec_bytes()),
        r@ == decode_utf8(spec_ext_lower_bytes(path.spec_bytes())),
{
    broadcast use vstd::utf8::decode_utf8_encode_utf8;

    let b = path.as_bytes();
    let n = b.len();
    let suffix: String = match rfind_byte(b, 46) {
        Some(i) => {
            proof {
                lemma_ascii_boundaries(b@, i as int);
            }
            string_from_byte_range(b, i + 1, n)
        },
        None => {
            proof {
                if n > 0 {
                    lemma_valid_first_not_continuation(b@);
                }
                assert(b@.subrange(0, n as int) =~= b@);
            }
            string_from_byte_range(b, 0, n)
        },
    };
    let r = ascii_lower(suffix.as_str());
    proof {
        if spec_rfind(b@, 46) >= 0 {
            let d = spec_rfind(b@, 46);
            let sub = b@.subrange(d + 1, n as int);
            assert(valid_utf8(sub));
            assert(encode_utf8(suffix@) == sub);
        } else {
            assert(encode_utf8(suffix@) == b@);
        }
    }
    r
}

/// Is the ASCII-lowering of `a` exactly `b`?
pub fn eq_lower(a: &[u8], b: &[u8]) -> (r: bool)
    ensures
        r == (spec_lower_bytes(a@) == b@),
{
    let n = a.len();
    if n != b.len() {
        assert(spec_lower_bytes(a@) != b@);
        return false;
    }
    let mut i: usize = 0;
    while i < n
        invariant
            n == a@.len() == b@.len(),
            i <= n,
            forall|j: int| 0 <= j < i ==> spec_lower_byte(a@[j]) == b@[j],
        decreases n - i,
    {
        let x = *vstd::slice::slice_index_get(a, i);
        let lowered: u8 = if 65 <= x && x <= 90 {
            x + 32
        } else {
            x
        };
        if lowered != *vstd::slice::slice_index_get(b, i) {
            assert(spec_lower_bytes(a@)[i as int] != b@[i as int]);
            return false;
        }
        i += 1;
    }
    assert(spec_lower_bytes(a@) =~= b@);
    true
}

/// An ASCII whitespace byte.
pub open spec fn spec_is_ws(b: u8) -> bool {
    b == 32 || b == 9 || b == 10 || b == 11 || b == 12 || b == 13
}

/// Only whitespace bytes.
pub open spec fn spec_all_ws(b: Seq<u8>) -> bool {
    forall|k: int| 0 <= k < b.len() ==> spec_is_ws(#[trigger] b[k])
}

/// Is the content whitespace only?
pub fn all_ws(b: &[u8]) -> (r: bool)
    ensures
        r == spec_all_ws(b@),
{
    let n = b.len();
    let mut i: usize = 0;
    while i < n
        invariant
            n == b@.len(),
            i <= n,
            forall|k: int| 0 <= k < i ==> spec_is_ws(#[trigger] b@[k]),
        decreases n - i,
    {
        let x = *vstd::slice::slice_index_get(b, i);
        if !(x == 32 || x == 9 || x == 10 || x == 11 || x == 12 || x == 13) {
            return false;
        }
        i += 1;
    }
    true
}

/// An exact copy of a vector of strings.
pub fn dup_strings(v: &Vec<String>) -> (r: Vec<String>)
    ensures
        r@ == v@,
{
    let n = v.len();
    let mut r: Vec<String> = Vec::new();
    let mut i: usize = 0;
    while i < n
        invariant
            n == v@.len(),
            i <= n,
            r@ == v@.subrange(0, i as int),
        decreases n - i,
    {
        r.push(v[i].clone());
        proof {
            assert(r@ =~= v@.subrange(0, i + 1));
        }
        i += 1;
    }
    proof {
        assert(v@.subrange(0, n as int) =~= v@);
    }
    r
}

/// A single ASCII byte is valid UTF-8 on its own.
pub proof fn lemma_ascii_singleton_valid(x: u8)
    requires
        x < 128,
    ensures
        valid_utf8(seq![x]),
        decode_utf8(seq![x]) == seq![x as char],
{
    let s = seq![x];
    assert(vstd::utf8::is_leading_byte_width_1(s[0]));
    assert(vstd::utf8::valid_first_scalar(s));
    assert(vstd::utf8::length_of_first_scalar(s) == 1);
    assert(vstd::utf8::pop_first_scalar(s) =~= Seq::<u8>::empty());
    reveal_with_fuel(valid_utf8, 2);
    reveal_with_fuel(decode_utf8, 2);
    assert(x & 0x7F == x) by (bit_vector)
        requires
            x < 128,
    ;
    assert(vstd::utf8::decode_first_scalar(s) == x as u32);
    vstd::utf8::char_u32_cast(x as char, x as u32);
    assert(decode_utf8(s) =~= seq![x as char]);
}

} // verus!
