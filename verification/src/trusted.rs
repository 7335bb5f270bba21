//! Trusted bridges to the outside crates and to the few std functions that
//! vstd gives no specification.  Every verified proof that touches the
//! outside world rests on the contracts stated here; each item names the
//! function it relies on.

use vstd::prelude::*;

verus! {

/// Relies on `str::chars` + `Iterator::collect`: the characters of a string
/// slice, in order, are exactly its view.
#[verifier::external_body]
pub fn str_chars(s: &str) -> (r: Vec<char>)
    ensures
        r@ == s@,
{
    s.chars().collect()
}

/// Relies on `String::from_iter` over characters: building a string from a
/// character sequence yields exactly that sequence as its view.
#[verifier::external_body]
pub fn chars_string(v: &Vec<char>) -> (r: String)
    ensures
        r@ == v@,
{
    v.iter().collect()
}

/// Relies on `String::from_utf8`: it accepts exactly the byte sequences
/// that are well-formed UTF-8 and yields the characters they encode.
#[verifier::external_body]
pub fn utf8_to_string(b: Vec<u8>) -> (r: Option<String>)
    ensures
        r is Some <==> vstd::utf8::valid_utf8(b@),
        r matches Some(s) ==> s@ == vstd::utf8::decode_utf8(b@),
{
    String::from_utf8(b).ok()
}

/// The bit pattern of the IEEE-754 double nearest to `whole + nanos/1e9`
/// seconds, as `std::time::Duration::as_secs_f64` computes it.  A function
/// of its arguments alone; its sign bit is always clear.
pub uninterp spec fn secs_f64_bits_of(whole: u64, nanos: u32) -> u64;

/// The whole seconds and nanoseconds that `Duration::try_from_secs_f64`
/// reads back from a double given by its bit pattern: `None` for negative,
/// non-finite or overlarge doubles.
pub uninterp spec fn duration_parts_of(bits: u64) -> Option<(u64, u32)>;

/// Whether `chrono` can represent the instant `secs` seconds plus `nanos`
/// nanoseconds after the Unix epoch (`DateTime::from_timestamp` succeeds).
pub uninterp spec fn chrono_range_of(secs: int, nanos: int) -> bool;

/// Relies on `std::time::Duration::new` and `as_secs_f64`: the magnitude
/// of a date instant expressed as one non-negative double, for the binary
/// wire.  Whole seconds below 2^53 are exact in a double, so reading such
/// a value back recovers it.
#[verifier::external_body]
pub fn secs_to_real_bits(whole: u64, nanos: u32) -> (r: u64)
    requires
        nanos < 1_000_000_000,
        whole < 0xFFFF_FFFF_FFFF_FFFF,
    ensures
        r == secs_f64_bits_of(whole, nanos),
        r >> 63 == 0,
        nanos == 0 && whole < 0x20_0000_0000_0000 ==> duration_parts_of(r) == Some((whole, 0u32)),
{
    let d = std::time::Duration::new(whole, nanos);
    let x = d.as_secs_f64();
    x.to_bits()
}

/// Relies on `bytes::Buf::get_f64` and
/// `std::time::Duration::try_from_secs_f64`: the seconds and nanoseconds a
/// non-negative wire double denotes, rounded to the nearest nanosecond, or
/// `None` when the double is negative, not finite, or too large.
#[verifier::external_body]
pub fn real_bits_to_secs(bits: u64) -> (r: Option<(u64, u32)>)
    ensures
        r == duration_parts_of(bits),
        r matches Some(p) ==> p.1 < 1_000_000_000,
{
    let arr = bits.to_be_bytes();
    let mut sl: &[u8] = &arr;
    let x = bytes::Buf::get_f64(&mut sl);
    match std::time::Duration::try_from_secs_f64(x) {
        Ok(d) => Some((d.as_secs(), d.subsec_nanos())),
        Err(_) => None,
    }
}

/// Relies on `chrono::DateTime::from_timestamp`: whether the instant is
/// inside chrono's representable range.
#[verifier::external_body]
pub fn timestamp_in_range(secs: i64, nanos: u32) -> (r: bool)
    ensures
        r == chrono_range_of(secs as int, nanos as int),
        r ==> nanos < 2_000_000_000,
{
    chrono::DateTime::from_timestamp(secs, nanos).is_some()
}

/// The result of truncating the IEEE-754 double given by `bits` to a
/// 32-bit integer, with Rust's saturating `as` semantics.
pub uninterp spec fn real_trunc_i32_of(bits: u64) -> i32;

/// The bit pattern of the IEEE-754 double that exactly represents `i`.
pub uninterp spec fn real_bits_of_i32(i: i32) -> u64;

/// Whether the doubles given by two bit patterns differ by less than the
/// tolerance, as IEEE-754 subtraction and comparison decide it.
pub uninterp spec fn real_close_of(a: u64, b: u64, tol: u64) -> bool;

/// Relies on `bytes::Buf::get_f64` and the `as i32` float cast: the
/// truncated integer value of a double.
#[verifier::external_body]
pub fn real_bits_to_i32(bits: u64) -> (r: i32)
    ensures
        r == real_trunc_i32_of(bits),
{
    let arr = bits.to_be_bytes();
    let mut sl: &[u8] = &arr;
    let x = bytes::Buf::get_f64(&mut sl);
    x as i32
}

/// Relies on `bytes::BufMut::put_f64` and the `as` int-to-float cast: the
/// double a 32-bit integer converts to (always exact).
#[verifier::external_body]
pub fn i32_to_real_bits(i: i32) -> (r: u64)
    ensures
        r == real_bits_of_i32(i),
{
    let mut m = bytes::BytesMut::new();
    bytes::BufMut::put_f64(&mut m, i.into());
    let mut sl: &[u8] = &m;
    bytes::Buf::get_u64(&mut sl)
}

/// Relies on IEEE-754 subtraction, `abs` and comparison through
/// `bytes::Buf::get_f64`: whether two doubles lie within the tolerance.
/// The comparison is symmetric, as `|x-y| == |y-x|`.
#[verifier::external_body]
pub fn real_close(a: u64, b: u64, tol: u64) -> (r: bool)
    ensures
        r == real_close_of(a, b, tol),
        r == real_close_of(b, a, tol),
{
    let aa = a.to_be_bytes();
    let ba = b.to_be_bytes();
    let ta = tol.to_be_bytes();
    let mut s1: &[u8] = &aa;
    let mut s2: &[u8] = &ba;
    let mut s3: &[u8] = &ta;
    let x = bytes::Buf::get_f64(&mut s1);
    let y = bytes::Buf::get_f64(&mut s2);
    let t = bytes::Buf::get_f64(&mut s3);
    (x - y).abs() < t
}

/// Relies on `uuid::Uuid::new_v4`: a fresh random UUID, returned as its
/// sixteen big-endian bytes.  Nothing is promised of the random bits; the
/// version and variant fields are as RFC 4122 fixes them for version 4.
#[verifier::external_body]
pub fn generate_uuid_bytes() -> (r: [u8; 16])
    ensures
        r@.len() == 16,
        r@[6] >> 4 == 4,
{
    *uuid::Uuid::new_v4().as_bytes()
}

/// Whether the IEEE-754 double given by `bits` is finite: its exponent
/// field is not all ones.
pub open spec fn real_is_finite(bits: u64) -> bool {
    (bits >> 52) & 0x7FF != 0x7FF
}

/// Whether the IEEE-754 double given by `bits` is a NaN.
pub open spec fn real_is_nan(bits: u64) -> bool {
    (bits >> 52) & 0x7FF == 0x7FF && bits & 0xF_FFFF_FFFF_FFFF != 0
}

/// The text Rust's `Display` gives the double with bit pattern `bits`: the
/// shortest decimal that reads back as the same value.
pub uninterp spec fn real_text_of(bits: u64) -> Seq<char>;

/// The double (as bits) that `str::parse` reads from a text, or `None`
/// when the text is not a number.
pub uninterp spec fn real_parse_of(s: Seq<char>) -> Option<u64>;

/// The JSON number text `serde_json` writes for a finite double: always
/// distinguishable from an integer literal.
pub uninterp spec fn json_real_text_of(bits: u64) -> Seq<char>;

/// Relies on `f64` `Display` through `ToString`, reached via
/// `bytes::Buf::get_f64`.
#[verifier::external_body]
pub fn real_to_text(bits: u64) -> (r: String)
    ensures
        r@ == real_text_of(bits),
{
    let arr = bits.to_be_bytes();
    let mut sl: &[u8] = &arr;
    let x = bytes::Buf::get_f64(&mut sl);
    x.to_string()
}

/// Relies on `str::parse` into a double (typed through
/// `bytes::BufMut::put_f64`): the nearest double a decimal text denotes.
/// Rust's shortest-round-trip `Display` guarantees that the text of any
/// non-NaN double parses back to exactly that double, and the same holds
/// of the text `serde_json` writes for any finite double.
#[verifier::external_body]
pub fn text_to_real(s: &str) -> (r: Option<u64>)
    ensures
        r == real_parse_of(s@),
        forall|b: u64| !real_is_nan(b) && real_text_of(b) == s@ ==> r == Some(b),
        forall|b: u64| real_is_finite(b) && json_real_text_of(b) == s@ ==> r == Some(b),
{
    let v = match s.parse() {
        Ok(x) => x,
        Err(_) => {
            return None;
        },
    };
    let mut m = bytes::BytesMut::new();
    bytes::BufMut::put_f64(&mut m, v);
    let mut sl: &[u8] = &m;
    Some(bytes::Buf::get_u64(&mut sl))
}

/// Relies on `serde_json::Number::from_f64` and its `Display`: the JSON
/// number text of a finite double, `None` for NaN and infinities.  The
/// text always carries a character beyond digits and a sign, so it never
/// reads as an integer literal.
#[verifier::external_body]
pub fn real_to_json_text(bits: u64) -> (r: Option<String>)
    ensures
        r is Some <==> real_is_finite(bits),
        r matches Some(s) ==> s@ == json_real_text_of(bits) && (exists|i: int|
            0 <= i < s@.len() && s@[i] != '-' && !('0' <= s@[i] <= '9')),
{
    let arr = bits.to_be_bytes();
    let mut sl: &[u8] = &arr;
    let x = bytes::Buf::get_f64(&mut sl);
    serde_json::Number::from_f64(x).map(|n| n.to_string())
}

/// The RFC 3339 text chrono writes for an in-range UTC instant.
pub uninterp spec fn rfc3339_of(secs: int, nanos: int) -> Seq<char>;

/// The instant chrono reads from an RFC 3339 text, or `None` when the
/// text is not a valid RFC 3339 date-time.
pub uninterp spec fn rfc3339_parse_of(s: Seq<char>) -> Option<(i64, u32)>;

/// Relies on `chrono::DateTime::from_timestamp` and `to_rfc3339`: the RFC
/// 3339 rendering of an instant, or `None` outside chrono's range.  The
/// rendering always holds a colon (in its time part).
#[verifier::external_body]
pub fn format_rfc3339_opt(secs: i64, nanos: u32) -> (r: Option<String>)
    requires
        nanos < 1_000_000_000,
    ensures
        r is Some <==> chrono_range_of(secs as int, nanos as int),
        r matches Some(s) ==> s@ == rfc3339_of(secs as int, nanos as int) && (exists|i: int|
            0 <= i < s@.len() && s@[i] == ':'),
{
    chrono::DateTime::from_timestamp(secs, nanos).map(|d| d.to_rfc3339())
}

/// Relies on `chrono::DateTime::parse_from_rfc3339`: the UTC instant an
/// RFC 3339 text denotes, or `None` when the text is not one — a
/// leap-second rendering, which no normalized instant can carry, also
/// reads as `None`.  Parsing chrono's own rendering of an instant whose
/// year has four digits (years 0000 through 9999) yields that instant
/// back, at full nanosecond precision; outside that span the rendering
/// carries a signed, wider year field, which the RFC 3339 grammar — and
/// this parser — rejects.
#[verifier::external_body]
pub fn parse_rfc3339(s: &str) -> (r: Option<(i64, u32)>)
    ensures
        r == rfc3339_parse_of(s@),
        r matches Some(p) ==> p.1 < 1_000_000_000 && chrono_range_of(p.0 as int, p.1 as int),
        forall|se: i64, na: u32| #![all_triggers]
            na < 1_000_000_000 && -62167219200 <= se <= 253402300799 && chrono_range_of(
                se as int,
                na as int,
            ) && rfc3339_of(se as int, na as int) == s@ ==> r == Some((se, na)),
{
    match chrono::DateTime::parse_from_rfc3339(s) {
        Ok(d) => {
            let u = d.with_timezone(&chrono::Utc);
            // chrono carries a leap second as a nanosecond count past one
            // second, which no normalized instant can hold
            if u.timestamp_subsec_nanos() >= 1_000_000_000 {
                None
            } else {
                Some((u.timestamp(), u.timestamp_subsec_nanos()))
            }
        },
        Err(_) => None,
    }
}

/// Relies on `base64::encode` (the standard alphabet, padded).
#[verifier::external_body]
pub fn base64_encode(b: &Vec<u8>) -> (r: String)
    ensures
        r@ == crate::base64_text::base64_of(b@),
{
    base64::encode(b)
}

/// What `base64::decode` reads from a text.
pub uninterp spec fn base64_decode_of(s: Seq<char>) -> Option<Seq<u8>>;

/// Relies on `base64::decode`: the octets a base64 text denotes.  The
/// canonical padded encoding of any octets decodes back to those octets.
#[verifier::external_body]
pub fn base64_decode(s: &str) -> (r: Option<Vec<u8>>)
    ensures
        (match r {
            Some(v) => base64_decode_of(s@) == Some(v@),
            None => base64_decode_of(s@) is None,
        }),
        forall|b: Seq<u8>| crate::base64_text::base64_of(b) == s@ ==> (r is Some && r->0@ == b),
{
    base64::decode(s).ok()
}

/// What `uuid::Uuid::parse_str` reads from a text, as sixteen bytes.
pub uninterp spec fn uuid_any_parse_of(s: Seq<char>) -> Option<Seq<u8>>;

/// Relies on `uuid::Uuid::parse_str`: it accepts the simple, hyphenated,
/// braced and URN forms; in particular the hyphenated text of any sixteen
/// bytes reads back as those bytes.
#[verifier::external_body]
pub fn uuid_parse_any(s: &str) -> (r: Option<[u8; 16]>)
    ensures
        (match r {
            Some(u) => uuid_any_parse_of(s@) == Some(u@),
            None => uuid_any_parse_of(s@) is None,
        }),
        forall|b: Seq<u8>| b.len() == 16 && crate::uuid_text::uuid_text(b) == s@ ==> (r is Some
            && r->0@ == b),
{
    uuid::Uuid::parse_str(s).ok().map(|u| *u.as_bytes())
}

/// Relies on `std::time::SystemTime`: the wall clock, in milliseconds
/// since the Unix epoch (zero if the clock reads before the epoch).
#[verifier::external_body]
pub fn clock_millis() -> (r: u64)
    ensures
        r >= 0,
{
    match std::time::SystemTime::now().duration_since(std::time::UNIX_EPOCH) {
        Ok(d) => d.as_millis() as u64,
        Err(_) => 0,
    }
}

/// `std::time::Instant`, the monotonic clock's reading, opaque to the
/// verifier: a value of it marks a moment and is only ever compared
/// against later readings.
#[verifier::external_type_specification]
#[verifier::external_body]
pub struct ExInstant(std::time::Instant);

/// Relies on `std::time::Instant::now`: a fresh reading of the monotonic
/// clock, which never goes backwards.  Nothing can be promised of the
/// reading itself.
#[verifier::external_body]
pub fn instant_now() -> (r: std::time::Instant) {
    std::time::Instant::now()
}

/// Relies on `std::time::Instant::elapsed`: the time passed since the
/// earlier reading `origin`.
#[verifier::external_body]
pub fn instant_elapsed(origin: &std::time::Instant) -> (r: std::time::Duration) {
    origin.elapsed()
}

/// Relies on `std::time::Duration::as_millis`: the whole milliseconds a
/// duration holds.
#[verifier::external_body]
pub fn duration_millis(d: &std::time::Duration) -> (r: u128) {
    d.as_millis()
}

/// Relies on `char::from_u32`: `Some` exactly for unicode scalar values,
/// yielding the character with that value.
#[verifier::external_body]
pub fn char_from_u32(v: u32) -> (r: Option<char>)
    ensures
        r is Some <==> (v < 0xD800 || (0xE000 <= v && v <= 0x10FFFF)),
        r matches Some(c) ==> c as u32 == v,
{
    char::from_u32(v)
}

} // verus!
