//! Decimal integer text, as an exact specification with verified
//! executable rendering and parsing.  The XML and JSON codecs and the
//! debug printer rest on it.

use vstd::prelude::*;
use crate::types::{dec_val, is_digits, lemma_dec_val_nonneg, lemma_dec_val_prefix};

verus! {

/// The digit character for `d` in `0..=9`.
pub open spec fn dec_digit(d: int) -> char {
    if d == 0 { '0' }
    else if d == 1 { '1' }
    else if d == 2 { '2' }
    else if d == 3 { '3' }
    else if d == 4 { '4' }
    else if d == 5 { '5' }
    else if d == 6 { '6' }
    else if d == 7 { '7' }
    else if d == 8 { '8' }
    else { '9' }
}

/// The digit character for `d`, executable.
pub fn digit_char(d: u32) -> (r: char)
    requires
        d <= 9,
    ensures
        r == dec_digit(d as int),
{
    match d {
        0 => '0',
        1 => '1',
        2 => '2',
        3 => '3',
        4 => '4',
        5 => '5',
        6 => '6',
        7 => '7',
        8 => '8',
        _ => '9',
    }
}

/// The decimal text of a non-negative number, without sign or padding.
pub open spec fn nat_text(n: int) -> Seq<char>
    decreases n,
{
    if n < 10 {
        seq![dec_digit(if n >= 0 { n } else { 0 })]
    } else {
        nat_text(n / 10) + seq![dec_digit(n % 10)]
    }
}

/// The decimal text of an integer: a `-` sign for negative values, then
/// the digits of its magnitude.
pub open spec fn int_text(i: int) -> Seq<char> {
    if i < 0 {
        seq!['-'] + nat_text(-i)
    } else {
        nat_text(i)
    }
}

/// The number a decimal text denotes: an optional leading `-`, then one
/// or more digits.  Anything else denotes nothing.
pub open spec fn int_of_text(s: Seq<char>) -> Option<int> {
    if s.len() >= 1 && s[0] == '-' {
        if is_digits(s.skip(1)) {
            Some(-dec_val(s.skip(1)))
        } else {
            None
        }
    } else if is_digits(s) {
        Some(dec_val(s))
    } else {
        None
    }
}

/// Append the decimal digits of `n` to `out`.
pub fn push_nat_digits(out: &mut Vec<char>, n: u32)
    ensures
        final(out)@ == old(out)@ + nat_text(n as int),
    decreases n,
{
    if n < 10 {
        let c = digit_char(n);
        out.push(c);
        proof {
            assert(final(out)@ =~= old(out)@ + nat_text(n as int));
        }
    } else {
        push_nat_digits(out, n / 10);
        let c = digit_char(n % 10);
        out.push(c);
        proof {
            assert(final(out)@ =~= old(out)@ + nat_text(n as int));
        }
    }
}

/// The decimal text of a 32-bit integer, as characters.
pub fn i32_text_chars(i: i32) -> (r: Vec<char>)
    ensures
        r@ == int_text(i as int),
{
    let mut out: Vec<char> = Vec::new();
    if i < 0 {
        out.push('-');
        let wide: i64 = i as i64;
        let mag: u32 = (-wide) as u32;
        proof {
            assert(mag == -(i as int));
        }
        push_nat_digits(&mut out, mag);
        proof {
            assert(out@ =~= int_text(i as int));
        }
    } else {
        push_nat_digits(&mut out, i as u32);
        proof {
            assert(out@ =~= int_text(i as int));
        }
    }
    out
}

/// The 32-bit integer a text denotes, when it denotes one in range.
pub fn parse_i32_chars(s: &Vec<char>) -> (r: Option<i32>)
    ensures
        r is Some <==> (int_of_text(s@) is Some && i32::MIN <= int_of_text(s@)->0 <= i32::MAX),
        r matches Some(v) ==> int_of_text(s@) == Some(v as int),
{
    let neg: bool = s.len() >= 1 && s[0] == '-';
    let start: usize = if neg {
        1
    } else {
        0
    };
    let ghost digits = if neg {
        s@.skip(1)
    } else {
        s@
    };
    if s.len() == start {
        proof {
            assert(!is_digits(digits));
        }
        return None;
    }
    let mut i: usize = start;
    let mut acc: u64 = 0;
    let mut over: bool = false;
    while i < s.len()
        invariant
            start <= i <= s@.len(),
            start == if neg { 1int } else { 0int },
            neg ==> s@.len() >= 1 && s@[0] == '-',
            !neg ==> s@.len() == 0 || s@[0] != '-',
            digits == if neg { s@.skip(1) } else { s@ },
            forall|k: int| start <= k < i ==> '0' <= #[trigger] s@[k] <= '9',
            !over ==> acc == dec_val(s@.subrange(start as int, i as int)) && acc
                <= 0x8000_0000,
            over ==> dec_val(s@.subrange(start as int, i as int)) > 0x8000_0000,
            forall|k: int| 0 <= k < i - start ==> digits[k] == s@[k + start],
        decreases s@.len() - i,
    {
        let c = s[i];
        if c < '0' || c > '9' {
            proof {
                assert(digits[i - start as int] == s@[i as int]);
                assert(!is_digits(digits));
            }
            return None;
        }
        let d: u64 = (c as u32 - 48) as u64;
        proof {
            let pre = s@.subrange(start as int, i as int);
            let ext = s@.subrange(start as int, i + 1 as int);
            assert(ext.drop_last() =~= pre);
            assert(ext.last() == s@[i as int]);
            assert(forall|k: int| 0 <= k < pre.len() ==> '0' <= #[trigger] pre[k] <= '9');
            lemma_dec_val_nonneg(pre);
        }
        if over {
            proof {
                let pre = s@.subrange(start as int, i as int);
                let ext = s@.subrange(start as int, i + 1 as int);
                assert(forall|k: int| 0 <= k < ext.len() ==> '0' <= #[trigger] ext[k] <= '9');
                lemma_dec_val_prefix(ext, i - start as int);
                assert(ext.subrange(0, i - start as int) =~= pre);
            }
        } else if acc > 0x0CCC_CCCC || acc * 10 + d > 0x8000_0000 {
            proof {
                assert(dec_val(s@.subrange(start as int, i + 1 as int)) == acc * 10 + d);
            }
            over = true;
        } else {
            acc = acc * 10 + d;
        }
        i = i + 1;
    }
    proof {
        assert(s@.subrange(start as int, s@.len() as int) =~= digits);
        assert(is_digits(digits));
    }
    if over {
        proof {
            if neg {
                assert(int_of_text(s@) == Some(-dec_val(digits)));
            } else {
                assert(int_of_text(s@) == Some(dec_val(digits)));
            }
        }
        return None;
    }
    if neg {
        if acc > 0x8000_0000 {
            return None;
        }
        let wide: i64 = -(acc as i64);
        if wide < -0x8000_0000i64 {
            return None;
        }
        Some(wide as i32)
    } else {
        if acc > 0x7FFF_FFFF {
            return None;
        }
        Some(acc as i32)
    }
}

/// Digits render as digits.
proof fn lemma_nat_text_digits(n: int)
    requires
        n >= 0,
    ensures
        nat_text(n).len() >= 1,
        forall|i: int| 0 <= i < nat_text(n).len() ==> '0' <= #[trigger] nat_text(n)[i] <= '9',
        is_digits(nat_text(n)),
    decreases n,
{
    if n >= 10 {
        lemma_nat_text_digits(n / 10);
        assert forall|i: int|
            0 <= i < nat_text(n).len() implies '0' <= #[trigger] nat_text(n)[i] <= '9' by {
            if i < nat_text(n / 10).len() {
                assert(nat_text(n)[i] == nat_text(n / 10)[i]);
            } else {
                assert(nat_text(n)[i] == dec_digit(n % 10));
            }
        }
    }
}

/// A rendered number reads back as itself.
proof fn lemma_nat_text_value(n: int)
    requires
        n >= 0,
    ensures
        dec_val(nat_text(n)) == n,
    decreases n,
{
    if n < 10 {
        assert(nat_text(n) == seq![dec_digit(n)]);
        assert(nat_text(n).drop_last() =~= Seq::<char>::empty());
        assert(dec_val(nat_text(n)) == dec_val(Seq::<char>::empty()) * 10 + (dec_digit(
            n) as int - '0' as int));
    } else {
        lemma_nat_text_value(n / 10);
        assert(nat_text(n).drop_last() =~= nat_text(n / 10));
        assert(nat_text(n).last() == dec_digit(n % 10));
        assert(dec_digit(n % 10) as int - '0' as int == n % 10);
    }
}

/// Law: decimal integer text round-trips — the text of any integer reads
/// back as exactly that integer.
pub proof fn lemma_int_text_round_trip(i: int)
    requires
        -0x8000_0000 <= i <= 0x7FFF_FFFF,
    ensures
        int_of_text(int_text(i)) == Some(i),
{
    if i >= 0 {
        lemma_nat_text_digits(i);
        lemma_nat_text_value(i);
        assert(int_text(i) == nat_text(i));
        assert(nat_text(i)[0] != '-');
    } else {
        lemma_nat_text_digits(-i);
        lemma_nat_text_value(-i);
        let s = int_text(i);
        assert(s == seq!['-'] + nat_text(-i));
        assert(s[0] == '-');
        assert(s.skip(1) =~= nat_text(-i));
    }
}

} // verus!
