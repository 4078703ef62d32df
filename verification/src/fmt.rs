//! Byte-format transcoding at the program boundary: hexadecimal, written
//! and proved here, and base64 in both alphabets, called in the base64
//! crate behind trusted wrappers.

use vstd::prelude::*;
use vstd::slice::slice_to_vec;
use vstd::string::StringExecFns;

use crate::error::SeedPhraserError;
use crate::lang::IoFormat;

verus! {

// ------------------------------------------------------------------
// Hexadecimal.
// ------------------------------------------------------------------

/// The lowercase hexadecimal digit of a value below 16.
pub open spec fn hex_digit(n: nat) -> char {
    if n == 0 {
        '0'
    } else if n == 1 {
        '1'
    } else if n == 2 {
        '2'
    } else if n == 3 {
        '3'
    } else if n == 4 {
        '4'
    } else if n == 5 {
        '5'
    } else if n == 6 {
        '6'
    } else if n == 7 {
        '7'
    } else if n == 8 {
        '8'
    } else if n == 9 {
        '9'
    } else if n == 10 {
        'a'
    } else if n == 11 {
        'b'
    } else if n == 12 {
        'c'
    } else if n == 13 {
        'd'
    } else if n == 14 {
        'e'
    } else {
        'f'
    }
}

/// The lowercase hexadecimal encoding: two digits per byte, high nibble
/// first.
pub open spec fn hex_of(bytes: Seq<u8>) -> Seq<char>
    decreases bytes.len(),
{
    if bytes.len() == 0 {
        Seq::empty()
    } else {
        hex_of(bytes.drop_last()) + seq![
            hex_digit((bytes.last() / 16) as nat),
            hex_digit((bytes.last() % 16) as nat),
        ]
    }
}

/// The string form of a single hexadecimal digit.
fn hex_digit_str(d: u8) -> (r: &'static str)
    requires
        d < 16,
    ensures
        r@ == seq![hex_digit(d as nat)],
{
    proof {
        reveal_strlit("0");
        reveal_strlit("1");
        reveal_strlit("2");
        reveal_strlit("3");
        reveal_strlit("4");
        reveal_strlit("5");
        reveal_strlit("6");
        reveal_strlit("7");
        reveal_strlit("8");
        reveal_strlit("9");
        reveal_strlit("a");
        reveal_strlit("b");
        reveal_strlit("c");
        reveal_strlit("d");
        reveal_strlit("e");
        reveal_strlit("f");
    }
    let r: &'static str = if d == 0 {
        "0"
    } else if d == 1 {
        "1"
    } else if d == 2 {
        "2"
    } else if d == 3 {
        "3"
    } else if d == 4 {
        "4"
    } else if d == 5 {
        "5"
    } else if d == 6 {
        "6"
    } else if d == 7 {
        "7"
    } else if d == 8 {
        "8"
    } else if d == 9 {
        "9"
    } else if d == 10 {
        "a"
    } else if d == 11 {
        "b"
    } else if d == 12 {
        "c"
    } else if d == 13 {
        "d"
    } else if d == 14 {
        "e"
    } else {
        "f"
    };
    proof {
        assert(r@ =~= seq![hex_digit(d as nat)]);
    }
    r
}

/// Encodes a byte buffer as lowercase hexadecimal text.
pub fn encode_hex(bytes: &Vec<u8>) -> (r: String)
    ensures
        r@ == hex_of(bytes@),
{
    let n = bytes.len();
    let mut s = String::new();
    let mut i: usize = 0;
    proof {
        assert(bytes@.take(0) =~= Seq::<u8>::empty());
    }
    while i < n
        invariant
            0 <= i <= n,
            n == bytes@.len(),
            s@ == hex_of(bytes@.take(i as int)),
        decreases n - i,
    {
        let b = bytes[i];
        s.append(hex_digit_str(b / 16));
        s.append(hex_digit_str(b % 16));
        proof {
            assert(bytes@.take(i as int + 1).drop_last() =~= bytes@.take(i as int));
            assert(bytes@.take(i as int + 1).last() == bytes@[i as int]);
            assert(s@ =~= hex_of(bytes@.take(i as int + 1)));
        }
        i += 1;
    }
    proof {
        assert(bytes@.take(n as int) =~= bytes@);
    }
    s
}

/// Whether an ASCII byte is a hexadecimal digit, either case.
pub open spec fn is_hex_u8(b: u8) -> bool {
    (48 <= b && b <= 57) || (97 <= b && b <= 102) || (65 <= b && b <= 70)
}

/// The value of an ASCII hexadecimal digit byte.
pub open spec fn hex_val_u8(b: u8) -> nat {
    if 48 <= b && b <= 57 {
        (b - 48) as nat
    } else if 97 <= b && b <= 102 {
        (b - 97 + 10) as nat
    } else {
        (b - 65 + 10) as nat
    }
}

/// A well-formed hexadecimal payload: an even number of digit bytes.
pub open spec fn valid_hex(s: Seq<u8>) -> bool {
    &&& s.len() as int % 2 == 0
    &&& forall|i: int| 0 <= i < s.len() ==> is_hex_u8(#[trigger] s[i])
}

/// The byte a pair of hexadecimal digits encodes.
pub open spec fn hex_byte(hi: u8, lo: u8) -> u8 {
    (16 * hex_val_u8(hi) + hex_val_u8(lo)) as u8
}

/// The bytes a hexadecimal payload decodes to, two digits at a time.
pub open spec fn unhex(s: Seq<u8>) -> Seq<u8>
    decreases s.len(),
{
    if s.len() < 2 {
        Seq::empty()
    } else {
        unhex(s.take(s.len() - 2)).push(hex_byte(s[s.len() - 2], s[s.len() - 1]))
    }
}

/// The value of one ASCII byte read as a hexadecimal digit.
fn hex_val(b: u8) -> (r: Option<u8>)
    ensures
        r is Some <==> is_hex_u8(b),
        r is Some ==> r.unwrap() as nat == hex_val_u8(b) && r.unwrap() < 16,
{
    if 48 <= b && b <= 57 {
        Some(b - 48)
    } else if 97 <= b && b <= 102 {
        Some(b - 97 + 10)
    } else if 65 <= b && b <= 70 {
        Some(b - 65 + 10)
    } else {
        None
    }
}

/// Decodes a hexadecimal payload, accepting both digit cases. Fails with
/// `MalformedHex` exactly when the length is odd or a byte is no digit.
pub fn decode_hex(data: &Vec<u8>) -> (r: Result<Vec<u8>, SeedPhraserError>)
    ensures
        r is Ok <==> valid_hex(data@),
        r is Ok ==> r.unwrap()@ == unhex(data@),
        r is Err ==> r->Err_0 == SeedPhraserError::MalformedHex,
{
    let n = data.len();
    if n % 2 != 0 {
        return Err(SeedPhraserError::MalformedHex);
    }
    let mut out: Vec<u8> = Vec::new();
    let mut i: usize = 0;
    proof {
        assert(unhex(data@.take(0)) =~= Seq::<u8>::empty());
    }
    while i < n
        invariant
            0 <= i <= n,
            i as int % 2 == 0,
            n as int % 2 == 0,
            n == data@.len(),
            forall|j: int| 0 <= j < i ==> is_hex_u8(#[trigger] data@[j]),
            out@ == unhex(data@.take(i as int)),
        decreases n - i,
    {
        let hi = match hex_val(data[i]) {
            Some(v) => v,
            None => {
                return Err(SeedPhraserError::MalformedHex);
            },
        };
        let lo = match hex_val(data[i + 1]) {
            Some(v) => v,
            None => {
                return Err(SeedPhraserError::MalformedHex);
            },
        };
        out.push(16 * hi + lo);
        proof {
            let grown = data@.take(i as int + 2);
            assert(grown.take(grown.len() - 2) =~= data@.take(i as int));
            assert(grown[grown.len() - 2] == data@[i as int]);
            assert(grown[grown.len() - 1] == data@[i as int + 1]);
            assert(out@ =~= unhex(data@.take(i as int + 2)));
        }
        i += 2;
    }
    proof {
        assert(data@.take(n as int) =~= data@);
    }
    Ok(out)
}

// ------------------------------------------------------------------
// Base64, standard and URL-safe alphabets.
// ------------------------------------------------------------------

/// The padded standard-alphabet base64 text of a byte sequence; a function
/// of the bytes alone.
pub uninterp spec fn b64_of(bytes: Seq<u8>) -> Seq<char>;

/// The padded URL-safe-alphabet base64 text of a byte sequence; a function
/// of the bytes alone.
pub uninterp spec fn b64url_of(bytes: Seq<u8>) -> Seq<char>;

/// What decoding a standard-alphabet base64 payload yields: the bytes, or
/// nothing when the payload is not valid base64. A function of the payload
/// alone.
pub uninterp spec fn b64_decoded(data: Seq<u8>) -> Option<Seq<u8>>;

/// What decoding a URL-safe-alphabet base64 payload yields; a function of
/// the payload alone.
pub uninterp spec fn b64url_decoded(data: Seq<u8>) -> Option<Seq<u8>>;

/// Relies on base64's STANDARD engine `encode`: a padded text of four
/// characters for every three bytes, rounded up, a function of the bytes
/// alone.
#[verifier::external_body]
fn b64_encode_raw(bytes: &Vec<u8>) -> (r: String)
    ensures
        r@ == b64_of(bytes@),
        r@.len() == 4 * ((bytes@.len() + 2) / 3),
{
    base64::Engine::encode(&base64::prelude::BASE64_STANDARD, bytes)
}

/// Relies on base64's URL_SAFE engine `encode`: as the standard engine, in
/// the URL-safe alphabet.
#[verifier::external_body]
fn b64url_encode_raw(bytes: &Vec<u8>) -> (r: String)
    ensures
        r@ == b64url_of(bytes@),
        r@.len() == 4 * ((bytes@.len() + 2) / 3),
{
    base64::Engine::encode(&base64::prelude::BASE64_URL_SAFE, bytes)
}

/// Relies on base64's STANDARD engine `decode`: whether a payload is valid
/// base64 and which bytes it encodes depend on the payload alone.
#[verifier::external_body]
fn b64_decode_raw(data: &Vec<u8>) -> (r: Result<Vec<u8>, SeedPhraserError>)
    ensures
        r is Ok <==> b64_decoded(data@) is Some,
        r is Ok ==> Some(r.unwrap()@) == b64_decoded(data@),
        r is Err ==> r->Err_0 == SeedPhraserError::MalformedBase64,
{
    match base64::Engine::decode(&base64::prelude::BASE64_STANDARD, data) {
        Ok(v) => Ok(v),
        Err(_) => Err(SeedPhraserError::MalformedBase64),
    }
}

/// Relies on base64's URL_SAFE engine `decode`: as the standard engine, in
/// the URL-safe alphabet.
#[verifier::external_body]
fn b64url_decode_raw(data: &Vec<u8>) -> (r: Result<Vec<u8>, SeedPhraserError>)
    ensures
        r is Ok <==> b64url_decoded(data@) is Some,
        r is Ok ==> Some(r.unwrap()@) == b64url_decoded(data@),
        r is Err ==> r->Err_0 == SeedPhraserError::MalformedBase64,
{
    match base64::Engine::decode(&base64::prelude::BASE64_URL_SAFE, data) {
        Ok(v) => Ok(v),
        Err(_) => Err(SeedPhraserError::MalformedBase64),
    }
}

/// The text rendering of a byte buffer in a byte-to-text output format:
/// base64, URL-safe base64 or hexadecimal. Phrase text and raw binary have
/// no such rendering and yield nothing.
pub fn encode_payload(bytes: &Vec<u8>, format: &IoFormat) -> (r: Option<String>)
    ensures
        format is Base64 ==> r is Some && r.unwrap()@ == b64_of(bytes@),
        format is Base64UrlSafe ==> r is Some && r.unwrap()@ == b64url_of(bytes@),
        format is Hex ==> r is Some && r.unwrap()@ == hex_of(bytes@),
        r is None <==> (format is Text || format is Binary),
{
    match format {
        IoFormat::Base64 => Some(b64_encode_raw(bytes)),
        IoFormat::Base64UrlSafe => Some(b64url_encode_raw(bytes)),
        IoFormat::Hex => Some(encode_hex(bytes)),
        IoFormat::Text => None,
        IoFormat::Binary => None,
    }
}

/// Decodes a byte payload read in a byte-oriented input format: base64 in
/// either alphabet, hexadecimal, or raw binary, which passes through
/// unchanged. A phrase-text payload is not byte-decoded here, so the format
/// must not be `Text`.
pub fn decode_payload(data: &Vec<u8>, format: &IoFormat) -> (r: Result<Vec<u8>, SeedPhraserError>)
    requires
        !(format is Text),
    ensures
        format is Binary ==> r is Ok && r.unwrap()@ == data@,
        format is Base64 ==> ((r is Ok <==> b64_decoded(data@) is Some) && (r is Ok ==> Some(
            r.unwrap()@,
        ) == b64_decoded(data@))),
        format is Base64UrlSafe ==> ((r is Ok <==> b64url_decoded(data@) is Some) && (r is Ok
            ==> Some(r.unwrap()@) == b64url_decoded(data@))),
        format is Hex ==> ((r is Ok <==> valid_hex(data@)) && (r is Ok ==> r.unwrap()@ == unhex(
            data@,
        ))),
        r is Err ==> (format is Hex && r->Err_0 == SeedPhraserError::MalformedHex) || ((
        format is Base64 || format is Base64UrlSafe) && r->Err_0
            == SeedPhraserError::MalformedBase64),
    {
    match format {
        IoFormat::Binary => Ok(slice_to_vec(data.as_slice())),
        IoFormat::Base64 => b64_decode_raw(data),
        IoFormat::Base64UrlSafe => b64url_decode_raw(data),
        IoFormat::Hex => decode_hex(data),
        IoFormat::Text => Err(SeedPhraserError::UnknownFormat),
    }
}

} // verus!
