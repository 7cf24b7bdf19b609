//! Account-field extraction: recovers the account identifier and display
//! name from one binary container buffer by scanning for the two fixed
//! marker byte sequences, given as hexadecimal strings.

use vstd::prelude::*;
use crate::scanner::{search, spec_find_field, FieldError};

verus! {

/// A character that may appear in a hexadecimal string.
pub open spec fn is_hex_digit(c: char) -> bool {
    ('0' as int <= c as int && c as int <= '9' as int) || ('a' as int <= c as int && c as int
        <= 'f' as int) || ('A' as int <= c as int && c as int <= 'F' as int)
}

/// The numeric value of one hexadecimal digit.
pub open spec fn hex_digit_value(c: char) -> int {
    if '0' as int <= c as int && c as int <= '9' as int {
        c as int - '0' as int
    } else if 'a' as int <= c as int && c as int <= 'f' as int {
        c as int - 'a' as int + 10
    } else {
        c as int - 'A' as int + 10
    }
}

/// A string that decodes to bytes: even length, hexadecimal digits only.
pub open spec fn valid_hex(s: Seq<char>) -> bool {
    s.len() % 2 == 0 && (forall|i: int| 0 <= i < s.len() ==> is_hex_digit(s[i]))
}

/// The bytes a hexadecimal string denotes: two digits per byte, high nibble
/// first.
pub open spec fn spec_hex_decode(s: Seq<char>) -> Seq<u8>
    decreases s.len(),
{
    if s.len() < 2 {
        Seq::empty()
    } else {
        seq![(hex_digit_value(s[0]) * 16 + hex_digit_value(s[1])) as u8] + spec_hex_decode(
            s.subrange(2, s.len() as int),
        )
    }
}

/// A hexadecimal string of `2k` digits decodes to `k` bytes.
pub proof fn lemma_hex_decode_len(s: Seq<char>)
    ensures
        spec_hex_decode(s).len() == s.len() / 2,
    decreases s.len(),
{
    if s.len() >= 2 {
        lemma_hex_decode_len(s.subrange(2, s.len() as int));
    }
}

/// Relies on `hex::decode`: decodes a hexadecimal string into bytes, two
/// digits per byte, high nibble first; it fails exactly when the length is
/// odd or a character is not a hexadecimal digit.
#[verifier::external_body]
fn hex_decode(s: &str) -> (r: Option<Vec<u8>>)
    ensures
        (r is Some) <==> valid_hex(s@),
        r matches Some(v) ==> v@ == spec_hex_decode(s@),
{
    hex::decode(s).ok()
}

/// The two string fields scanned out of one account container buffer: the
/// account identifier and the display name.
pub struct AccountFields {
    pub id: String,
    pub name: String,
}

/// The hexadecimal spelling of the marker that precedes the identifier
/// field.
pub open spec fn id_marker_hex() -> Seq<char> {
    "9201"@
}

/// The hexadecimal spelling of the marker that precedes the display-name
/// field.
pub open spec fn name_marker_hex() -> Seq<char> {
    "9a0100a201"@
}

/// Extracts the account identifier and display name from a container
/// buffer: scans for the identifier marker first, then the display-name
/// marker, and fails with the first scan error met.
pub fn account_from_buffer(data: &[u8]) -> (r: Result<AccountFields, FieldError>)
    ensures
        match r {
            Ok(a) => spec_find_field(data@, spec_hex_decode(id_marker_hex())) == Ok::<
                Seq<char>,
                FieldError,
            >(a.id@) && spec_find_field(data@, spec_hex_decode(name_marker_hex())) == Ok::<
                Seq<char>,
                FieldError,
            >(a.name@),
            Err(e) => spec_find_field(data@, spec_hex_decode(id_marker_hex())) == Err::<
                Seq<char>,
                FieldError,
            >(e) || (spec_find_field(data@, spec_hex_decode(id_marker_hex())) is Ok
                && spec_find_field(data@, spec_hex_decode(name_marker_hex())) == Err::<
                Seq<char>,
                FieldError,
            >(e)),
        },
{
    proof {
        reveal_strlit("9201");
        reveal_strlit("9a0100a201");
        assert(valid_hex(id_marker_hex()));
        assert(valid_hex(name_marker_hex()));
        lemma_hex_decode_len(id_marker_hex());
        lemma_hex_decode_len(name_marker_hex());
    }
    let id_marker = match hex_decode("9201") {
        Some(m) => m,
        None => {
            proof {
                assert(false);
            }
            return Err(FieldError::NotFound);
        },
    };
    let name_marker = match hex_decode("9a0100a201") {
        Some(m) => m,
        None => {
            proof {
                assert(false);
            }
            return Err(FieldError::NotFound);
        },
    };
    let id = match search(data, id_marker.as_slice()) {
        Ok(s) => s,
        Err(e) => {
            return Err(e);
        },
    };
    let name = match search(data, name_marker.as_slice()) {
        Ok(s) => s,
        Err(e) => {
            return Err(e);
        },
    };
    Ok(AccountFields { id, name })
}

} // verus!
