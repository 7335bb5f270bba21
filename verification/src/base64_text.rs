//! Standard base64 with padding, as an exact specification of the text the
//! outside encoder produces for given octets.

use vstd::prelude::*;

verus! {

/// The base64 alphabet character for a 6-bit value.
pub open spec fn b64_digit(n: int) -> char {
    if n < 26 {
        (('A' as u8) + n as u8) as char
    } else if n < 52 {
        (('a' as u8) + (n - 26) as u8) as char
    } else if n < 62 {
        (('0' as u8) + (n - 52) as u8) as char
    } else if n == 62 {
        '+'
    } else {
        '/'
    }
}

/// The standard padded base64 text of an octet sequence.
pub open spec fn base64_of(b: Seq<u8>) -> Seq<char>
    decreases b.len(),
{
    if b.len() == 0 {
        Seq::empty()
    } else if b.len() == 1 {
        let x = b[0] as int;
        seq![b64_digit(x / 4), b64_digit((x % 4) * 16), '=', '=']
    } else if b.len() == 2 {
        let x = b[0] as int;
        let y = b[1] as int;
        seq![b64_digit(x / 4), b64_digit((x % 4) * 16 + y / 16), b64_digit((y % 16) * 4), '=']
    } else {
        let x = b[0] as int;
        let y = b[1] as int;
        let z = b[2] as int;
        seq![
            b64_digit(x / 4),
            b64_digit((x % 4) * 16 + y / 16),
            b64_digit((y % 16) * 4 + z / 64),
            b64_digit(z % 64),
        ] + base64_of(b.skip(3))
    }
}

} // verus!
