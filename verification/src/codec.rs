use vstd::prelude::*;
use vstd::string::*;

use crate::errors::MmrError;

verus! {

/// Whether c is a hex digit, in either case.
pub open spec fn is_hex_digit(c: char) -> bool {
    ('0' <= c && c <= '9') || ('a' <= c && c <= 'f') || ('A' <= c && c <= 'F')
}

/// The value of a hex digit, in either case.
pub open spec fn hex_val(c: char) -> nat {
    if '0' <= c && c <= '9' {
        (c as int - 48) as nat
    } else if 'a' <= c && c <= 'f' {
        (c as int - 87) as nat
    } else {
        (c as int - 55) as nat
    }
}

/// The lowercase hex digit of a value below 16.
pub open spec fn hex_digit(n: nat) -> char {
    if n == 0 {
        '0'
    } else if n == 1 {
        '1'
    } else if n == 2 {
        '2'
    } else if n == 3 {
        '3'
    } else if n == 4 {
        '4'
    } else if n == 5 {
        '5'
    } else if n == 6 {
        '6'
    } else if n == 7 {
        '7'
    } else if n == 8 {
        '8'
    } else if n == 9 {
        '9'
    } else if n == 10 {
        'a'
    } else if n == 11 {
        'b'
    } else if n == 12 {
        'c'
    } else if n == 13 {
        'd'
    } else if n == 14 {
        'e'
    } else {
        'f'
    }
}

/// Lowercase hex encoding of a byte sequence: two digits per byte, in order.
pub open spec fn hex_str(bytes: Seq<u8>) -> Seq<char>
    decreases bytes.len(),
{
    if bytes.len() == 0 {
        Seq::empty()
    } else {
        hex_str(bytes.drop_last()) + seq![
            hex_digit((bytes.last() / 16) as nat),
            hex_digit((bytes.last() % 16) as nat),
        ]
    }
}

/// Whether a character sequence decodes as hex: even length, digits only.
pub open spec fn hex_ok(s: Seq<char>) -> bool {
    s.len() % 2 == 0 && (forall|i: int| 0 <= i < s.len() ==> is_hex_digit(#[trigger] s[i]))
}

/// The bytes a hex character sequence decodes to, one per digit pair.
pub open spec fn hex_bytes(s: Seq<char>) -> Seq<u8>
    decreases s.len(),
{
    if s.len() < 2 {
        Seq::empty()
    } else {
        seq![(hex_val(s[0]) * 16 + hex_val(s[1])) as u8] + hex_bytes(s.skip(2))
    }
}

/// A character sequence with one leading "0x" transport prefix removed.
pub open spec fn strip0x(s: Seq<char>) -> Seq<char> {
    if s.len() >= 2 && s[0] == '0' && s[1] == 'x' {
        s.skip(2)
    } else {
        s
    }
}

#[verifier::external_type_specification]
#[verifier::external_body]
pub struct ExFromHexError(hex::FromHexError);

/// Relies on hex::encode: lowercase hex, two digits per byte, in input order.
#[verifier::external_body]
fn hex_encode(bytes: &[u8]) -> (r: String)
    ensures
        r@ == hex_str(bytes@),
{
    hex::encode(bytes)
}

/// Relies on hex::decode: it succeeds exactly on even-length strings of hex
/// digits (upper or lower case) and returns the decoded byte pairs.
#[verifier::external_body]
fn hex_decode(s: &str) -> (r: Result<Vec<u8>, hex::FromHexError>)
    ensures
        r is Ok <==> hex_ok(s@),
        r is Ok ==> r->Ok_0@ == hex_bytes(s@),
{
    hex::decode(s)
}

/// Encode a digest as a lowercase hex string with the "0x" prefix of the
/// transport representation.
pub fn bytes_to_hex(bytes: &[u8]) -> (r: String)
    ensures
        r@ == seq!['0', 'x'] + hex_str(bytes@),
{
    let mut s: String = "0x".to_owned();
    proof {
        reveal_strlit("0x");
        assert(s@ =~= seq!['0', 'x']);
    }
    let h = hex_encode(bytes);
    s.append(h.as_str());
    s
}

/// Encode every proof item, each as a prefixed lowercase hex string.
pub fn bytes_to_hex_proof(items: &Vec<Vec<u8>>) -> (r: Vec<String>)
    ensures
        r@.len() == items@.len(),
        forall|i: int|
            0 <= i < r@.len() ==> r@[i]@ == seq!['0', 'x'] + hex_str(#[trigger] items@[i]@),
{
    let mut r: Vec<String> = Vec::new();
    let mut i: usize = 0;
    while i < items.len()
        invariant
            i <= items@.len(),
            r@.len() == i,
            forall|k: int|
                0 <= k < i ==> r@[k]@ == seq!['0', 'x'] + hex_str(#[trigger] items@[k]@),
        decreases items@.len() - i,
    {
        r.push(bytes_to_hex(items[i].as_slice()));
        i = i + 1;
    }
    r
}

/// Remove one leading "0x" prefix, if present.
fn strip_prefix_0x<'a>(s: &'a str) -> (r: &'a str)
    ensures
        r@ == strip0x(s@),
{
    let n = s.unicode_len();
    if n >= 2 {
        let c0 = s.get_char(0);
        let c1 = s.get_char(1);
        if c0 == '0' && c1 == 'x' {
            return s.substring_char(2, n);
        }
    }
    s
}

/// Decode one "0x"-prefixed hex field into raw bytes.
pub fn decode_hex_field(s: &str) -> (r: Result<Vec<u8>, MmrError>)
    ensures
        r is Ok <==> hex_ok(strip0x(s@)),
        r is Ok ==> r->Ok_0@ == hex_bytes(strip0x(s@)),
        r is Err ==> r->Err_0 == MmrError::EncodingError,
{
    let t = strip_prefix_0x(s);
    match hex_decode(t) {
        Ok(v) => Ok(v),
        Err(_) => Err(MmrError::EncodingError),
    }
}

} // verus!
