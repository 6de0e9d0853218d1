use vstd::prelude::*;
use vstd::utf8::*;

use crate::frame::decimal_in;

verus! {

/// std's `ParseIntError`, the error that `str::parse::<u64>` returns.
#[verifier::external_type_specification]
#[verifier::external_body]
pub struct ExParseIntError(std::num::ParseIntError);

/// The number that `str::parse::<u64>` reads from a text's bytes: an
/// optional `+`, then decimal digits whose value fits in 64 bits.
pub open spec fn unsigned_in(b: Seq<u8>) -> Option<u64> {
    if b.len() > 0 && b[0] == 43u8 {
        decimal_in(b.subrange(1, b.len() as int))
    } else {
        decimal_in(b)
    }
}

/// Relies on `str::parse::<u64>`: it accepts an optional `+` followed by
/// decimal digits whose value fits in 64 bits, and nothing else.
#[verifier::external_body]
fn parse_u64(s: &str) -> (r: Result<u64, std::num::ParseIntError>)
    ensures
        match unsigned_in(encode_utf8(s@)) {
            Some(n) => r matches Ok(m) && m == n,
            None => r is Err,
        },
{
    s.parse::<u64>()
}

/// Reads a time to live given in milliseconds on the command line.
pub fn duration_from_ms_str(src: &str) -> (r: Result<u64, std::num::ParseIntError>)
    ensures
        match unsigned_in(encode_utf8(src@)) {
            Some(n) => r matches Ok(m) && m == n,
            None => r is Err,
        },
{
    parse_u64(src)
}

} // verus!
