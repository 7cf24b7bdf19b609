//! Tagged-field scanner: locates the first occurrence of a marker byte
//! sequence in a buffer and extracts the length-prefixed string that
//! follows it.

use vstd::prelude::*;

verus! {

/// Why a field could not be extracted from the buffer.
#[derive(Debug, Clone, Copy, PartialEq, Eq, Structural)]
pub enum FieldError {
    /// The marker sequence does not occur in the buffer.
    NotFound,
    /// The length byte, or the string it announces, would run past the
    /// end of the buffer.
    OutOfBounds,
    /// The length-prefixed bytes are not valid text.
    InvalidText,
}

/// The marker `m` occurs in `b` as a contiguous subsequence starting at `p`.
pub open spec fn marker_matches_at(b: Seq<u8>, m: Seq<u8>, p: int) -> bool {
    0 <= p && p + m.len() <= b.len() && b.subrange(p, p + m.len() as int) == m
}

/// The offset of the first occurrence of `m` in `b` at or after `i`,
/// if there is one.
pub open spec fn first_match_from(b: Seq<u8>, m: Seq<u8>, i: int) -> Option<int>
    decreases b.len() - i
        when 0 <= i && 1 <= m.len()
{
    if i + m.len() > b.len() {
        None
    } else if marker_matches_at(b, m, i) {
        Some(i)
    } else {
        first_match_from(b, m, i + 1)
    }
}

/// The offset of the lowest-offset occurrence of `m` in `b`, if any.
pub open spec fn first_match(b: Seq<u8>, m: Seq<u8>) -> Option<int> {
    first_match_from(b, m, 0)
}

/// What `String::from_utf8` decodes a byte sequence to: `Some` of the decoded
/// characters exactly when the bytes are valid UTF-8, `None` otherwise.
pub uninterp spec fn utf8_decoding(bytes: Seq<u8>) -> Option<Seq<char>>;

/// Relies on `String::from_utf8`: decodes the bytes as UTF-8, succeeding
/// exactly when they are valid UTF-8; the decoding depends on the bytes alone.
#[verifier::external_body]
fn decode_utf8(bytes: Vec<u8>) -> (r: Option<String>)
    ensures
        match r {
            Some(s) => utf8_decoding(bytes@) == Some(s@),
            None => utf8_decoding(bytes@) is None,
        },
{
    String::from_utf8(bytes).ok()
}

/// The field that the scanner extracts from `b` for the marker `m`: the
/// decoding of the length-prefixed bytes just after the first occurrence of
/// `m`, or the error that stops the extraction.
pub open spec fn spec_find_field(b: Seq<u8>, m: Seq<u8>) -> Result<Seq<char>, FieldError> {
    match first_match(b, m) {
        None => Err(FieldError::NotFound),
        Some(p) => {
            let len_pos = p + m.len();
            if len_pos >= b.len() {
                Err(FieldError::OutOfBounds)
            } else {
                let l = b[len_pos] as int;
                if len_pos + 1 + l > b.len() {
                    Err(FieldError::OutOfBounds)
                } else {
                    match utf8_decoding(b.subrange(len_pos + 1, len_pos + 1 + l)) {
                        Some(cs) => Ok(cs),
                        None => Err(FieldError::InvalidText),
                    }
                }
            }
        },
    }
}

/// The first match is sound and lowest: when `first_match_from` finds an
/// offset, the marker occurs there and nowhere earlier in the searched
/// range; when it finds none, the marker occurs nowhere in it.
proof fn lemma_first_match_from_lowest(b: Seq<u8>, m: Seq<u8>, i: int)
    requires
        0 <= i,
        m.len() >= 1,
    ensures
        match first_match_from(b, m, i) {
            Some(p) => i <= p && marker_matches_at(b, m, p) && (forall|q: int|
                i <= q < p ==> !marker_matches_at(b, m, q)),
            None => forall|q: int| i <= q ==> !marker_matches_at(b, m, q),
        },
    decreases b.len() - i,
{
    if i + m.len() > b.len() {
    } else if marker_matches_at(b, m, i) {
    } else {
        lemma_first_match_from_lowest(b, m, i + 1);
    }
}

/// Law: `first_match` always reports the lowest-offset occurrence of `m` in
/// `b`; every lower offset is not an occurrence, and a `None` result means
/// that `m` occurs nowhere in `b`.
pub proof fn lemma_first_match_lowest(b: Seq<u8>, m: Seq<u8>)
    requires
        m.len() >= 1,
    ensures
        match first_match(b, m) {
            Some(p) => 0 <= p && marker_matches_at(b, m, p) && (forall|q: int|
                0 <= q < p ==> !marker_matches_at(b, m, q)),
            None => forall|q: int| !marker_matches_at(b, m, q),
        },
{
    lemma_first_match_from_lowest(b, m, 0);
    if first_match(b, m) is None {
        assert forall|q: int| !marker_matches_at(b, m, q) by {
            if 0 <= q {
                assert(!marker_matches_at(b, m, q));
            }
        }
    }
}

/// Law: when the marker's lowest-offset occurrence is at `p` and the length
/// byte and string fit inside the buffer, the field is the UTF-8 decoding of
/// the `b[p + |m|]` bytes that follow the length byte, and extraction fails
/// only when those bytes are not valid text.
pub proof fn lemma_find_field_at_first_occurrence(b: Seq<u8>, m: Seq<u8>, p: int)
    requires
        m.len() >= 1,
        marker_matches_at(b, m, p),
        forall|q: int| 0 <= q < p ==> !marker_matches_at(b, m, q),
        p + m.len() + 1 <= b.len(),
        p + m.len() + 1 + (b[p + m.len()] as int) <= b.len(),
    ensures
        spec_find_field(b, m) == (match utf8_decoding(
            b.subrange(p + m.len() + 1, p + m.len() + 1 + (b[p + m.len()] as int)),
        ) {
            Some(cs) => Ok::<Seq<char>, FieldError>(cs),
            None => Err::<Seq<char>, FieldError>(FieldError::InvalidText),
        }),
{
    lemma_first_match_lowest(b, m);
    match first_match(b, m) {
        Some(pp) => {
            assert(pp == p);
        },
        None => {
            assert(false);
        },
    }
}

/// Law: when the marker occurs nowhere in the buffer — whatever the buffer's
/// length, the empty buffer included — extraction fails with `NotFound`.
pub proof fn lemma_find_field_not_found(b: Seq<u8>, m: Seq<u8>)
    requires
        m.len() >= 1,
        forall|q: int| !marker_matches_at(b, m, q),
    ensures
        spec_find_field(b, m) == Err::<Seq<char>, FieldError>(FieldError::NotFound),
{
    lemma_first_match_lowest(b, m);
    if first_match(b, m) is Some {
        assert(false);
    }
}

/// Law: when the marker's lowest-offset occurrence leaves no room for the
/// length byte, or the announced string would run past the buffer end,
/// extraction fails with `OutOfBounds`.
pub proof fn lemma_find_field_out_of_bounds(b: Seq<u8>, m: Seq<u8>, p: int)
    requires
        m.len() >= 1,
        marker_matches_at(b, m, p),
        forall|q: int| 0 <= q < p ==> !marker_matches_at(b, m, q),
        p + m.len() >= b.len() || p + m.len() + 1 + (b[p + m.len()] as int) > b.len(),
    ensures
        spec_find_field(b, m) == Err::<Seq<char>, FieldError>(FieldError::OutOfBounds),
{
    lemma_first_match_lowest(b, m);
    match first_match(b, m) {
        Some(pp) => {
            assert(pp == p);
        },
        None => {
            assert(false);
        },
    }
}

/// Scans `data` for the first occurrence of `marker` and returns the
/// length-prefixed string field that follows it: one length byte, then that
/// many bytes of UTF-8 text.
pub fn search(data: &[u8], marker: &[u8]) -> (r: Result<String, FieldError>)
    requires
        marker@.len() >= 1,
    ensures
        match r {
            Ok(s) => spec_find_field(data@, marker@) == Ok::<Seq<char>, FieldError>(s@),
            Err(e) => spec_find_field(data@, marker@) == Err::<Seq<char>, FieldError>(e),
        },
{
    let n: usize = data.len();
    let mlen: usize = marker.len();
    match find_marker_from(data, marker, 0) {
        None => Err(FieldError::NotFound),
        Some(p) => {
            proof {
                lemma_first_match_lowest(data@, marker@);
            }
            let len_pos: usize = p + mlen;
            if len_pos >= n {
                Err(FieldError::OutOfBounds)
            } else {
                let l: usize = data[len_pos] as usize;
                let start: usize = len_pos + 1;
                if l > n - start {
                    Err(FieldError::OutOfBounds)
                } else {
                    let field: &[u8] = vstd::slice::slice_subrange(data, start, start + l);
                    let bytes: Vec<u8> = vstd::slice::slice_to_vec(field);
                    match decode_utf8(bytes) {
                        Some(s) => Ok(s),
                        None => Err(FieldError::InvalidText),
                    }
                }
            }
        },
    }
}

/// Finds the lowest offset at or after `i` where `marker` occurs in `data`.
fn find_marker_from(data: &[u8], marker: &[u8], from: usize) -> (r: Option<usize>)
    requires
        marker@.len() >= 1,
        from <= data@.len(),
    ensures
        match r {
            Some(p) => first_match_from(data@, marker@, from as int) == Some(p as int),
            None => first_match_from(data@, marker@, from as int) is None,
        },
{
    let n: usize = data.len();
    let m: usize = marker.len();
    let mut i: usize = from;
    loop
        invariant
            n == data@.len(),
            m == marker@.len(),
            m >= 1,
            from as int <= i as int <= n as int,
            first_match_from(data@, marker@, from as int) == first_match_from(
                data@,
                marker@,
                i as int,
            ),
        decreases n - i,
    {
        if m > n - i {
            assert(first_match_from(data@, marker@, i as int) is None);
            return None;
        }
        let mut j: usize = 0;
        let mut matched = true;
        while j < m
            invariant_except_break
                matched,
            invariant
                n == data@.len(),
                m == marker@.len(),
                i + m <= n,
                j <= m,
                forall|t: int| 0 <= t < j ==> data@[i + t] == marker@[t],
            ensures
                matched ==> j == marker@.len(),
                !matched ==> j < marker@.len() && data@[i + j] != marker@[j as int],
            decreases m - j,
        {
            if data[i + j] != marker[j] {
                matched = false;
                break ;
            }
            j = j + 1;
        }
        if matched {
            proof {
                assert(data@.subrange(i as int, i + marker@.len() as int) =~= marker@);
            }
            return Some(i);
        }
        proof {
            if marker_matches_at(data@, marker@, i as int) {
                assert(data@.subrange(i as int, i + marker@.len() as int)[j as int] == data@[i
                    + j]);
            }
        }
        i = i + 1;
    }
}

} // verus!
