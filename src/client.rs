use vstd::prelude::*;
use crate::bytes::{append_bytes, be_bytes, push_be};
use crate::error::HashassinError;
use crate::server::{crack_word, upload_word};
use vstd::string::StringSliceAdditionalSpecFns;

verus! {

/// The bytes of a crack request: the magic word, version 1, the payload
/// size in 8 big-endian bytes, the payload.
pub open spec fn crack_request_bytes(payload: Seq<u8>) -> Seq<u8> {
    crack_word() + seq![1u8] + be_bytes(payload.len(), 8) + payload
}

/// The bytes of an upload request: the magic word, version 1, the name's
/// length and bytes, the payload size in 8 big-endian bytes, the payload.
pub open spec fn upload_request_bytes(name: Seq<u8>, payload: Seq<u8>) -> Seq<u8> {
    upload_word() + seq![1u8, name.len() as u8] + name + be_bytes(payload.len(), 8) + payload
}

/// Frames a hash file as a crack request.
pub fn build_crack_request(payload: &[u8]) -> (r: Vec<u8>)
    ensures
        r@ == crack_request_bytes(payload@),
{
    let mut message: Vec<u8> = Vec::new();
    append_bytes(&mut message, &[99u8, 114u8, 97u8, 99u8, 107u8]);
    message.push(1);
    push_be(&mut message, payload.len() as u128, 8);
    append_bytes(&mut message, payload);
    proof {
        assert(message@ =~= crack_request_bytes(payload@));
    }
    message
}

/// Frames a rainbow-table file as an upload under `name`. A name longer than
/// its length byte can say is refused as `InvalidInput`.
pub fn build_upload_message(name: &str, payload: &[u8]) -> (r: Result<Vec<u8>, HashassinError>)
    ensures
        r is Ok <==> name.spec_bytes().len() <= 255,
        r is Err ==> r->Err_0 is InvalidInput,
        r matches Ok(m) ==> m@ == upload_request_bytes(name.spec_bytes(), payload@),
{
    let name_bytes = name.as_bytes();
    if name_bytes.len() > 255 {
        return Err(HashassinError::InvalidInput("name longer than 255 bytes".to_owned()));
    }
    let mut message: Vec<u8> = Vec::new();
    append_bytes(&mut message, &[117u8, 112u8, 108u8, 111u8, 97u8, 100u8]);
    message.push(1);
    message.push(name_bytes.len() as u8);
    append_bytes(&mut message, name_bytes);
    push_be(&mut message, payload.len() as u128, 8);
    append_bytes(&mut message, payload);
    proof {
        assert(message@ =~= upload_request_bytes(name.spec_bytes(), payload@));
    }
    Ok(message)
}

/// The numeral texts that `u64::from_str` reads: an optional `+`, then one
/// or more decimal digits; the value they denote.
pub open spec fn numeral_value(s: Seq<char>) -> Option<nat> {
    let t = if s.len() > 0 && s[0] == '+' { s.drop_first() } else { s };
    if t.len() > 0 && forall|i: int| 0 <= i < t.len() ==> '0' <= #[trigger] t[i] <= '9' {
        Some(digits_value(t))
    } else {
        None
    }
}

/// The number that a string of decimal digits denotes.
pub open spec fn digits_value(t: Seq<char>) -> nat
    decreases t.len(),
{
    if t.len() == 0 {
        0
    } else {
        digits_value(t.drop_last()) * 10 + ((t.last() as u32) - 48) as nat
    }
}

/// Relies on `u64::from_str`: the value of an optional `+` followed by
/// decimal digits when it fits 64 bits; otherwise the text of the parse
/// error.
#[verifier::external_body]
fn parse_u64(s: &str) -> (r: Result<u64, String>)
    ensures
        r is Ok <==> (numeral_value(s@) matches Some(v) && v <= u64::MAX),
        r matches Ok(v) ==> numeral_value(s@) == Some(v as nat),
{
    s.parse::<u64>().map_err(|e| e.to_string())
}

/// Reads a cache size, which must not exceed `i32::MAX` bytes.
pub fn cache_size_within_i32(val: &str) -> (r: Result<u32, String>)
    ensures
        r is Ok <==> (numeral_value(val@) matches Some(v) && v <= i32::MAX),
        r matches Ok(v) ==> numeral_value(val@) == Some(v as nat),
        (numeral_value(val@) matches Some(v) && i32::MAX < v <= u64::MAX)
            ==> r is Err && r->Err_0@ == "cache-size must be <= 2147483647 bytes"@,
        !(numeral_value(val@) matches Some(v) && v <= u64::MAX)
            ==> r is Err && exists|t: Seq<char>| r->Err_0@ == "Invalid number: "@ + t,
{
    match parse_u64(val) {
        Ok(v) => {
            if v <= 0x7fff_ffff {
                Ok(v as u32)
            } else {
                Err("cache-size must be <= 2147483647 bytes".to_owned())
            }
        },
        Err(e) => {
            let mut m = "Invalid number: ".to_owned();
            crate::text::push_text(&mut m, e.as_str());
            proof {
                assert(m@ == "Invalid number: "@ + e@);
            }
            Err(m)
        },
    }
}

} // verus!
