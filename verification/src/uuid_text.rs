//! The hyphenated UUID text form: sixteen bytes written as
//! `xxxxxxxx-xxxx-xxxx-xxxx-xxxxxxxxxxxx` in lowercase hex, and the exact
//! parse back.

use vstd::prelude::*;

verus! {

/// The lowercase hex digit for `d` in `0..=15`.
pub open spec fn hex_digit(d: int) -> char {
    if d == 0 { '0' }
    else if d == 1 { '1' }
    else if d == 2 { '2' }
    else if d == 3 { '3' }
    else if d == 4 { '4' }
    else if d == 5 { '5' }
    else if d == 6 { '6' }
    else if d == 7 { '7' }
    else if d == 8 { '8' }
    else if d == 9 { '9' }
    else if d == 10 { 'a' }
    else if d == 11 { 'b' }
    else if d == 12 { 'c' }
    else if d == 13 { 'd' }
    else if d == 14 { 'e' }
    else { 'f' }
}

/// The value of a hex digit character, upper or lower case; `None` for
/// anything else.
pub open spec fn hex_val(c: char) -> Option<int> {
    if '0' <= c <= '9' {
        Some(c as int - '0' as int)
    } else if 'a' <= c <= 'f' {
        Some(c as int - 'a' as int + 10)
    } else if 'A' <= c <= 'F' {
        Some(c as int - 'A' as int + 10)
    } else {
        None
    }
}

/// The two lowercase hex digits of one byte.
pub open spec fn byte_hex(b: u8) -> Seq<char> {
    seq![hex_digit(b as int / 16), hex_digit(b as int % 16)]
}

/// The hex digits of a byte range of `b`, concatenated.
pub open spec fn bytes_hex(b: Seq<u8>, from: int, to: int) -> Seq<char>
    decreases to - from,
{
    if from >= to {
        Seq::empty()
    } else {
        byte_hex(b[from]) + bytes_hex(b, from + 1, to)
    }
}

/// The hyphenated lowercase text of sixteen UUID bytes.
pub open spec fn uuid_text(b: Seq<u8>) -> Seq<char> {
    bytes_hex(b, 0, 4) + seq!['-'] + bytes_hex(b, 4, 6) + seq!['-'] + bytes_hex(b, 6, 8)
        + seq!['-'] + bytes_hex(b, 8, 10) + seq!['-'] + bytes_hex(b, 10, 16)
}

/// The exec form of one hex digit.
pub fn hex_digit_char(d: u8) -> (r: char)
    requires
        d <= 15,
    ensures
        r == hex_digit(d as int),
{
    match d {
        0 => '0',
        1 => '1',
        2 => '2',
        3 => '3',
        4 => '4',
        5 => '5',
        6 => '6',
        7 => '7',
        8 => '8',
        9 => '9',
        10 => 'a',
        11 => 'b',
        12 => 'c',
        13 => 'd',
        14 => 'e',
        _ => 'f',
    }
}

/// The exec value of a hex digit character.
pub fn hex_char_val(c: char) -> (r: Option<u8>)
    ensures
        (match r {
            Some(v) => hex_val(c) == Some(v as int) && v <= 15,
            None => hex_val(c) is None,
        }),
{
    if '0' <= c && c <= '9' {
        Some((c as u32 - '0' as u32) as u8)
    } else if 'a' <= c && c <= 'f' {
        Some((c as u32 - 'a' as u32 + 10) as u8)
    } else if 'A' <= c && c <= 'F' {
        Some((c as u32 - 'A' as u32 + 10) as u8)
    } else {
        None
    }
}

/// Append the hex digits of bytes `from..to` of `u`.
fn push_bytes_hex(out: &mut Vec<char>, u: &[u8; 16], from: usize, to: usize)
    requires
        from <= to <= 16,
    ensures
        final(out)@ == old(out)@ + bytes_hex(u@, from as int, to as int),
    decreases to - from,
{
    if from < to {
        let b = u[from];
        out.push(hex_digit_char(b / 16));
        out.push(hex_digit_char(b % 16));
        push_bytes_hex(out, u, from + 1, to);
        proof {
            assert(final(out)@ =~= old(out)@ + bytes_hex(u@, from as int, to as int));
        }
    } else {
        proof {
            assert(final(out)@ =~= old(out)@ + bytes_hex(u@, from as int, to as int));
        }
    }
}

/// The hyphenated lowercase text of a UUID, as characters.
pub fn format_uuid(u: &[u8; 16]) -> (r: Vec<char>)
    ensures
        r@ == uuid_text(u@),
{
    let mut out: Vec<char> = Vec::new();
    push_bytes_hex(&mut out, u, 0, 4);
    out.push('-');
    push_bytes_hex(&mut out, u, 4, 6);
    out.push('-');
    push_bytes_hex(&mut out, u, 6, 8);
    out.push('-');
    push_bytes_hex(&mut out, u, 8, 10);
    out.push('-');
    push_bytes_hex(&mut out, u, 10, 16);
    proof {
        assert(out@ =~= uuid_text(u@));
    }
    out
}

/// Whether `s` has the hyphenated UUID shape and which bytes it denotes:
/// 36 characters, hyphens at positions 8, 13, 18 and 23, hex digits (either
/// case) everywhere else.
pub open spec fn uuid_parse(s: Seq<char>) -> Option<Seq<u8>> {
    if s.len() == 36 && s[8] == '-' && s[13] == '-' && s[18] == '-' && s[23] == '-'
        && (forall|i: int|
        0 <= i < 36 && i != 8 && i != 13 && i != 18 && i != 23 ==> hex_val(#[trigger] s[i])
            is Some) {
        Some(Seq::new(16, |k: int| uuid_byte_at(s, k)))
    } else {
        None
    }
}

/// The digit positions of byte `k` in the hyphenated text.
pub open spec fn uuid_digit_pos(k: int) -> int {
    if k < 4 {
        2 * k
    } else if k < 6 {
        2 * k + 1
    } else if k < 8 {
        2 * k + 2
    } else if k < 10 {
        2 * k + 3
    } else {
        2 * k + 4
    }
}

/// Byte `k` of the UUID the text denotes.
pub open spec fn uuid_byte_at(s: Seq<char>, k: int) -> u8 {
    let p = uuid_digit_pos(k);
    ((match hex_val(s[p]) {
        Some(h) => h,
        None => 0,
    }) * 16 + (match hex_val(s[p + 1]) {
        Some(l) => l,
        None => 0,
    })) as u8
}

/// Parse the hyphenated UUID text form.
pub fn parse_uuid_chars(s: &Vec<char>) -> (r: Option<[u8; 16]>)
    ensures
        r is Some <==> uuid_parse(s@) is Some,
        r matches Some(u) ==> uuid_parse(s@) == Some(u@),
{
    if s.len() != 36 {
        return None;
    }
    if !(s[8] == '-' && s[13] == '-' && s[18] == '-' && s[23] == '-') {
        return None;
    }
    let mut u: [u8; 16] = [0u8; 16];
    let mut k: usize = 0;
    while k < 16
        invariant
            k <= 16,
            s@.len() == 36,
            s@[8] == '-' && s@[13] == '-' && s@[18] == '-' && s@[23] == '-',
            u@.len() == 16,
            forall|i: int| 0 <= i < k ==> (hex_val(s@[#[trigger] uuid_digit_pos(i)]) is Some
                && hex_val(s@[uuid_digit_pos(i) + 1]) is Some && u@[i] == uuid_byte_at(s@, i)),
        decreases 16 - k,
    {
        let p: usize = if k < 4 {
            2 * k
        } else if k < 6 {
            2 * k + 1
        } else if k < 8 {
            2 * k + 2
        } else if k < 10 {
            2 * k + 3
        } else {
            2 * k + 4
        };
        let hi = match hex_char_val(s[p]) {
            Some(v) => v,
            None => {
                proof {
                    lemma_pos_not_dash(k as int);
                    assert(uuid_parse(s@) is None);
                }
                return None;
            },
        };
        let lo = match hex_char_val(s[p + 1]) {
            Some(v) => v,
            None => {
                proof {
                    lemma_pos_not_dash(k as int);
                    assert(uuid_parse(s@) is None);
                }
                return None;
            },
        };
        let b: u8 = hi * 16 + lo;
        vstd::array::ArrayAdditionalExecFns::set(&mut u, k, b);
        proof {
            assert(p as int == uuid_digit_pos(k as int));
            assert(u@[k as int] == b);
            assert(uuid_byte_at(s@, k as int) == b);
        }
        k = k + 1;
    }
    proof {
        assert forall|i: int|
            0 <= i < 36 && i != 8 && i != 13 && i != 18 && i != 23 implies hex_val(
            #[trigger] s@[i]) is Some by {
            let k2 = uuid_pos_byte(i);
            assert(uuid_digit_pos(k2) == i || uuid_digit_pos(k2) + 1 == i);
        }
        assert(uuid_parse(s@) == Some(Seq::new(16, |k: int| uuid_byte_at(s@, k))));
        assert(u@ =~= Seq::new(16, |k: int| uuid_byte_at(s@, k)));
    }
    Some(u)
}

/// The byte whose digits cover text position `i` (for non-hyphen `i`).
pub open spec fn uuid_pos_byte(i: int) -> int {
    if i < 8 {
        i / 2
    } else if i < 13 {
        (i - 1) / 2
    } else if i < 18 {
        (i - 2) / 2
    } else if i < 23 {
        (i - 3) / 2
    } else {
        (i - 4) / 2
    }
}

/// The digit positions of the bytes are never the hyphen positions.
proof fn lemma_pos_not_dash(k: int)
    requires
        0 <= k < 16,
    ensures
        uuid_digit_pos(k) != 8 && uuid_digit_pos(k) != 13 && uuid_digit_pos(k) != 18
            && uuid_digit_pos(k) != 23,
        uuid_digit_pos(k) + 1 != 8 && uuid_digit_pos(k) + 1 != 13 && uuid_digit_pos(k) + 1 != 18
            && uuid_digit_pos(k) + 1 != 23,
        0 <= uuid_digit_pos(k) && uuid_digit_pos(k) + 1 < 36,
{
}

/// Law: the UUID text round-trips — parsing the formatted text of sixteen
/// bytes gives the bytes back.
pub proof fn lemma_uuid_round_trip(b: Seq<u8>)
    requires
        b.len() == 16,
    ensures
        uuid_parse(uuid_text(b)) == Some(b),
{
    let s = uuid_text(b);
    lemma_uuid_text_chars(b);
    assert forall|i: int|
        0 <= i < 36 && i != 8 && i != 13 && i != 18 && i != 23 implies hex_val(#[trigger] s[i])
        is Some by {
        let k2 = uuid_pos_byte(i);
        assert(uuid_digit_pos(k2) == i || uuid_digit_pos(k2) + 1 == i);
    }
    assert(uuid_parse(s) == Some(Seq::new(16, |k: int| uuid_byte_at(s, k))));
    assert forall|k: int| 0 <= k < 16 implies uuid_byte_at(s, k) == b[k] by {
        lemma_pos_not_dash(k);
    }
    assert(Seq::new(16, |k: int| uuid_byte_at(s, k)) =~= b);
}

/// Each character of the formatted text: hyphens at their places, the
/// byte digits everywhere else.
proof fn lemma_uuid_text_chars(b: Seq<u8>)
    requires
        b.len() == 16,
    ensures
        uuid_text(b).len() == 36,
        uuid_text(b)[8] == '-' && uuid_text(b)[13] == '-' && uuid_text(b)[18] == '-'
            && uuid_text(b)[23] == '-',
        forall|k: int| 0 <= k < 16 ==> uuid_text(b)[#[trigger] uuid_digit_pos(k)] == hex_digit(
            b[k] as int / 16) && uuid_text(b)[uuid_digit_pos(k) + 1] == hex_digit(b[k] as int % 16),
{
    lemma_bytes_hex_len(b, 0, 4);
    lemma_bytes_hex_len(b, 4, 6);
    lemma_bytes_hex_len(b, 6, 8);
    lemma_bytes_hex_len(b, 8, 10);
    lemma_bytes_hex_len(b, 10, 16);
    assert forall|k: int| 0 <= k < 16 implies uuid_text(b)[#[trigger] uuid_digit_pos(k)]
        == hex_digit(b[k] as int / 16) && uuid_text(b)[uuid_digit_pos(k) + 1] == hex_digit(
        b[k] as int % 16) by {
        if k < 4 {
            lemma_bytes_hex_at(b, 0, 4, k);
        } else if k < 6 {
            lemma_bytes_hex_at(b, 4, 6, k);
        } else if k < 8 {
            lemma_bytes_hex_at(b, 6, 8, k);
        } else if k < 10 {
            lemma_bytes_hex_at(b, 8, 10, k);
        } else {
            lemma_bytes_hex_at(b, 10, 16, k);
        }
    }
}

/// Length of a hex run.
proof fn lemma_bytes_hex_len(b: Seq<u8>, from: int, to: int)
    requires
        0 <= from <= to <= b.len(),
    ensures
        bytes_hex(b, from, to).len() == 2 * (to - from),
    decreases to - from,
{
    if from < to {
        lemma_bytes_hex_len(b, from + 1, to);
    }
}

/// The digits of byte `k` inside a hex run.
proof fn lemma_bytes_hex_at(b: Seq<u8>, from: int, to: int, k: int)
    requires
        0 <= from <= k < to <= b.len(),
    ensures
        bytes_hex(b, from, to)[2 * (k - from)] == hex_digit(b[k] as int / 16),
        bytes_hex(b, from, to)[2 * (k - from) + 1] == hex_digit(b[k] as int % 16),
    decreases to - from,
{
    lemma_bytes_hex_len(b, from, to);
    lemma_bytes_hex_len(b, from + 1, to);
    if k > from {
        lemma_bytes_hex_at(b, from + 1, to, k);
    }
}

} // verus!
