//! The tagged binary codec: a length-prefixed big-endian wire format with
//! an optional four-byte magic header, recursive containers, and depth and
//! element quotas on the parsing side.
//!
//! The wire layout is fixed by [`bin_enc`]; the parser is specified by the
//! decoder [`bin_dec`], and the two are proved inverse on encodable values.

use vstd::prelude::*;
use vstd::utf8::{encode_utf8, decode_utf8, valid_utf8};
use crate::types::{LLSDValue, LLSDDocument, LLSDDate, ValueView, views_of, entry_views_of,
    view_of, lemma_views_of, lemma_entry_views_of, dict_set, wf_seq, wf_entries, wf_entries_vals,
    lemma_wf_seq, lemma_wf_entries_vals, lemma_dict_set_new, lemma_dict_set_update};
use crate::trusted::{secs_f64_bits_of, duration_parts_of, chrono_range_of, secs_to_real_bits,
    real_bits_to_secs, timestamp_in_range, utf8_to_string};
use crate::error::{LLSDError, QuotaKind};

verus! {

/// The four magic bytes that may open a binary stream: `llsd` in ASCII.
pub open spec fn magic_bytes() -> Seq<u8> {
    seq![0x6Cu8, 0x6Cu8, 0x73u8, 0x64u8]
}

/// Big-endian bytes of a 32-bit value.
pub open spec fn be32(n: u32) -> Seq<u8> {
    seq![(n >> 24) as u8, (n >> 16) as u8, (n >> 8) as u8, n as u8]
}

/// Big-endian bytes of a 64-bit value.
pub open spec fn be64(n: u64) -> Seq<u8> {
    seq![
        (n >> 56) as u8,
        (n >> 48) as u8,
        (n >> 40) as u8,
        (n >> 32) as u8,
        (n >> 24) as u8,
        (n >> 16) as u8,
        (n >> 8) as u8,
        n as u8,
    ]
}

/// The 32-bit value four big-endian bytes denote.
pub open spec fn be32_val(b: Seq<u8>) -> u32 {
    (((b[0] as u32) << 24) | ((b[1] as u32) << 16) | ((b[2] as u32) << 8) | (b[3] as u32)) as u32
}

/// The 64-bit value eight big-endian bytes denote.
pub open spec fn be64_val(b: Seq<u8>) -> u64 {
    (((b[0] as u64) << 56) | ((b[1] as u64) << 48) | ((b[2] as u64) << 40) | ((b[3] as u64) << 32)
        | ((b[4] as u64) << 24) | ((b[5] as u64) << 16) | ((b[6] as u64) << 8) | (b[
        7] as u64)) as u64
}

/// The two's-complement 32-bit image of an integer in `[-2^31, 2^31)`.
pub open spec fn u32_of_i32(i: int) -> u32 {
    if i >= 0 {
        i as u32
    } else {
        (i + 0x1_0000_0000) as u32
    }
}

/// The integer a two's-complement 32-bit image denotes.
pub open spec fn i32_of_u32(n: u32) -> int {
    if n < 0x8000_0000 {
        n as int
    } else {
        n - 0x1_0000_0000
    }
}

/// The wire double of a date instant: its seconds since the epoch with the
/// sub-second part in the fraction, by way of the trusted conversion names.
pub open spec fn date_wire_of(secs: int, nanos: int) -> u64 {
    if secs >= 0 {
        secs_f64_bits_of(secs as u64, nanos as u32)
    } else if nanos == 0 {
        secs_f64_bits_of((-secs) as u64, 0) | 0x8000_0000_0000_0000
    } else {
        secs_f64_bits_of((-secs - 1) as u64, (1_000_000_000 - nanos) as u32)
            | 0x8000_0000_0000_0000
    }
}

/// The binary wire image of one value, without the magic header.
pub open spec fn bin_enc(v: ValueView) -> Seq<u8>
    decreases v, 1int, 0int,
{
    match v {
        ValueView::Undefined => seq![0u8],
        ValueView::Boolean(b) => seq![1u8, if b { 1u8 } else { 0u8 }],
        ValueView::Integer(i) => seq![2u8] + be32(u32_of_i32(i)),
        ValueView::Real(bits) => seq![3u8] + be64(bits),
        ValueView::String(s) => seq![4u8] + be32(encode_utf8(s).len() as u32) + encode_utf8(s),
        ValueView::UUID(b) => seq![5u8] + b,
        ValueView::Date(se, na) => seq![6u8] + be64(date_wire_of(se, na)),
        ValueView::URI(s) => seq![7u8] + be32(encode_utf8(s).len() as u32) + encode_utf8(s),
        ValueView::Binary(b) => seq![8u8] + be32(b.len() as u32) + b,
        ValueView::Array(a) => seq![9u8] + be32(a.len() as u32) + bin_enc_seq(a),
        ValueView::Dict(m) => seq![10u8] + be32(m.len() as u32) + bin_enc_entries(m),
    }
}

/// The concatenated wire images of a sequence of values.
pub open spec fn bin_enc_seq(a: Seq<ValueView>) -> Seq<u8>
    decreases a, 0int, a.len(),
{
    if a.len() == 0 {
        Seq::empty()
    } else {
        bin_enc(a[0]) + bin_enc_seq(a.drop_first())
    }
}

/// The concatenated wire images of map entries: each key with a length
/// prefix, then the value.
pub open spec fn bin_enc_entries(m: Seq<(Seq<char>, ValueView)>) -> Seq<u8>
    decreases m, 0int, m.len(),
{
    if m.len() == 0 {
        Seq::empty()
    } else {
        be32(encode_utf8(m[0].0).len() as u32) + encode_utf8(m[0].0) + bin_enc(m[0].1)
            + bin_enc_entries(m.drop_first())
    }
}

/// Whether every length the wire carries for `v` fits its 32-bit prefix.
pub open spec fn bin_encodable(v: ValueView) -> bool
    decreases v, 1int, 0int,
{
    match v {
        ValueView::String(s) => encode_utf8(s).len() < 0x1_0000_0000,
        ValueView::URI(s) => encode_utf8(s).len() < 0x1_0000_0000,
        ValueView::Binary(b) => b.len() < 0x1_0000_0000,
        ValueView::Date(se, na) => 0 <= na < 1_000_000_000 && i64::MIN <= se <= i64::MAX,
        ValueView::Array(a) => a.len() < 0x1_0000_0000 && bin_encodable_seq(a),
        ValueView::Dict(m) => m.len() < 0x1_0000_0000 && bin_encodable_entries(m),
        _ => true,
    }
}

/// Encodability of each element of a sequence.
pub open spec fn bin_encodable_seq(a: Seq<ValueView>) -> bool
    decreases a, 0int, a.len(),
{
    if a.len() == 0 {
        true
    } else {
        bin_encodable(a[0]) && bin_encodable_seq(a.drop_first())
    }
}

/// Encodability of map entries: keys fit their prefix, values are
/// encodable.
pub open spec fn bin_encodable_entries(m: Seq<(Seq<char>, ValueView)>) -> bool
    decreases m, 0int, m.len(),
{
    if m.len() == 0 {
        true
    } else {
        encode_utf8(m[0].0).len() < 0x1_0000_0000 && bin_encodable(m[0].1)
            && bin_encodable_entries(m.drop_first())
    }
}

/// Whether `v` contains no date leaf.  The wire carries dates as doubles,
/// which cannot hold every nanosecond instant, so the binary round-trip
/// law is stated for date-free values.
pub open spec fn date_free(v: ValueView) -> bool
    decreases v, 1int, 0int,
{
    match v {
        ValueView::Date(_, _) => false,
        ValueView::Array(a) => date_free_seq(a),
        ValueView::Dict(m) => date_free_entries(m),
        _ => true,
    }
}

/// Date-freedom of each element of a sequence.
pub open spec fn date_free_seq(a: Seq<ValueView>) -> bool
    decreases a, 0int, a.len(),
{
    if a.len() == 0 {
        true
    } else {
        date_free(a[0]) && date_free_seq(a.drop_first())
    }
}

/// Date-freedom of map entry values.
pub open spec fn date_free_entries(m: Seq<(Seq<char>, ValueView)>) -> bool
    decreases m, 0int, m.len(),
{
    if m.len() == 0 {
        true
    } else {
        date_free(m[0].1) && date_free_entries(m.drop_first())
    }
}

/// Whether `v` nests no deeper than `budget` more container levels.
pub open spec fn depth_ok(v: ValueView, budget: int) -> bool
    decreases v, 1int, 0int,
{
    budget >= 0 && match v {
        ValueView::Array(a) => depth_ok_seq(a, budget - 1),
        ValueView::Dict(m) => depth_ok_entries(m, budget - 1),
        _ => true,
    }
}

/// Depth bound for each element of a sequence.
pub open spec fn depth_ok_seq(a: Seq<ValueView>, budget: int) -> bool
    decreases a, 0int, a.len(),
{
    if a.len() == 0 {
        true
    } else {
        depth_ok(a[0], budget) && depth_ok_seq(a.drop_first(), budget)
    }
}

/// Depth bound for map entry values.
pub open spec fn depth_ok_entries(m: Seq<(Seq<char>, ValueView)>, budget: int) -> bool
    decreases m, 0int, m.len(),
{
    if m.len() == 0 {
        true
    } else {
        depth_ok(m[0].1, budget) && depth_ok_entries(m.drop_first(), budget)
    }
}

/// Whether no container in `v` holds more than `max` elements.
pub open spec fn elems_ok(v: ValueView, max: int) -> bool
    decreases v, 1int, 0int,
{
    match v {
        ValueView::Array(a) => a.len() <= max && elems_ok_seq(a, max),
        ValueView::Dict(m) => m.len() <= max && elems_ok_entries(m, max),
        _ => true,
    }
}

/// Element bound for each element of a sequence.
pub open spec fn elems_ok_seq(a: Seq<ValueView>, max: int) -> bool
    decreases a, 0int, a.len(),
{
    if a.len() == 0 {
        true
    } else {
        elems_ok(a[0], max) && elems_ok_seq(a.drop_first(), max)
    }
}

/// Element bound for map entry values.
pub open spec fn elems_ok_entries(m: Seq<(Seq<char>, ValueView)>, max: int) -> bool
    decreases m, 0int, m.len(),
{
    if m.len() == 0 {
        true
    } else {
        elems_ok(m[0].1, max) && elems_ok_entries(m.drop_first(), max)
    }
}

/// The decoder the parser is held to: the value starting at `pos` in `d`,
/// with `depth_left` container levels and `max_elems` elements per
/// container allowed, and the position just past it — or `None` when the
/// bytes are not a well-formed value within the quotas.
pub open spec fn bin_dec(d: Seq<u8>, pos: int, depth_left: int, max_elems: int) -> Option<
    (ValueView, int),
>
    decreases d.len() - pos, 0int, 0int,
{
    if pos < 0 || pos >= d.len() || depth_left < 0 {
        None
    } else {
        let tag = d[pos];
        if tag == 0 {
            Some((ValueView::Undefined, pos + 1))
        } else if tag == 1 {
            if pos + 2 <= d.len() {
                Some((ValueView::Boolean(d[pos + 1] != 0), pos + 2))
            } else {
                None
            }
        } else if tag == 2 {
            if pos + 5 <= d.len() {
                Some((ValueView::Integer(i32_of_u32(be32_val(d.subrange(pos + 1, pos + 5)))),
                    pos + 5))
            } else {
                None
            }
        } else if tag == 3 {
            if pos + 9 <= d.len() {
                Some((ValueView::Real(be64_val(d.subrange(pos + 1, pos + 9))), pos + 9))
            } else {
                None
            }
        } else if tag == 4 || tag == 7 {
            if pos + 5 <= d.len() {
                let n = be32_val(d.subrange(pos + 1, pos + 5)) as int;
                if pos + 5 + n <= d.len() && valid_utf8(d.subrange(pos + 5, pos + 5 + n)) {
                    let s = decode_utf8(d.subrange(pos + 5, pos + 5 + n));
                    if tag == 4 {
                        Some((ValueView::String(s), pos + 5 + n))
                    } else {
                        Some((ValueView::URI(s), pos + 5 + n))
                    }
                } else {
                    None
                }
            } else {
                None
            }
        } else if tag == 5 {
            if pos + 17 <= d.len() {
                Some((ValueView::UUID(d.subrange(pos + 1, pos + 17)), pos + 17))
            } else {
                None
            }
        } else if tag == 6 {
            if pos + 9 <= d.len() {
                let bits = be64_val(d.subrange(pos + 1, pos + 9));
                match bin_dec_date(bits) {
                    Some((se, na)) => Some((ValueView::Date(se, na), pos + 9)),
                    None => None,
                }
            } else {
                None
            }
        } else if tag == 8 {
            if pos + 5 <= d.len() {
                let n = be32_val(d.subrange(pos + 1, pos + 5)) as int;
                if pos + 5 + n <= d.len() {
                    Some((ValueView::Binary(d.subrange(pos + 5, pos + 5 + n)), pos + 5 + n))
                } else {
                    None
                }
            } else {
                None
            }
        } else if tag == 9 {
            if pos + 5 <= d.len() {
                let n = be32_val(d.subrange(pos + 1, pos + 5)) as int;
                if n <= max_elems {
                    match bin_dec_seq(d, pos + 5, depth_left - 1, max_elems, n) {
                        Some((vs, p2)) => Some((ValueView::Array(vs), p2)),
                        None => None,
                    }
                } else {
                    None
                }
            } else {
                None
            }
        } else if tag == 10 {
            if pos + 5 <= d.len() {
                let n = be32_val(d.subrange(pos + 1, pos + 5)) as int;
                if n <= max_elems {
                    match bin_dec_entries(
                        d,
                        pos + 5,
                        depth_left - 1,
                        max_elems,
                        n,
                        Seq::empty(),
                    ) {
                        Some((es, p2)) => Some((ValueView::Dict(es), p2)),
                        None => None,
                    }
                } else {
                    None
                }
            } else {
                None
            }
        } else {
            None
        }
    }
}

/// The date instant a wire double denotes, or `None` when the double is
/// not one chrono can carry.
pub open spec fn bin_dec_date(bits: u64) -> Option<(int, int)> {
    let mag = (bits & 0x7FFF_FFFF_FFFF_FFFF) as u64;
    let neg = bits >= 0x8000_0000_0000_0000;
    match duration_parts_of(mag) {
        Some(p) => {
            let se = if !neg {
                p.0 as int
            } else if p.1 == 0 {
                -(p.0 as int)
            } else {
                -(p.0 as int) - 1
            };
            let na = if !neg || p.1 == 0 {
                p.1 as int
            } else {
                1_000_000_000 - p.1
            };
            if i64::MIN <= se <= i64::MAX && chrono_range_of(se, na) {
                Some((se, na))
            } else {
                None
            }
        },
        None => None,
    }
}

/// `n` consecutive values starting at `pos`.
pub open spec fn bin_dec_seq(d: Seq<u8>, pos: int, depth_left: int, max_elems: int, n: int)
    -> Option<(Seq<ValueView>, int)>
    decreases d.len() - pos, 1int, n,
{
    if n <= 0 {
        Some((Seq::empty(), pos))
    } else if pos < 0 || pos > d.len() {
        None
    } else {
        match bin_dec(d, pos, depth_left, max_elems) {
            Some((v, p2)) => if pos < p2 <= d.len() {
                match bin_dec_seq(d, p2, depth_left, max_elems, n - 1) {
                    Some((vs, p3)) => Some((seq![v] + vs, p3)),
                    None => None,
                }
            } else {
                None
            },
            None => None,
        }
    }
}

/// `n` consecutive key/value entries starting at `pos`, folded onto the
/// entries read so far: a repeated wire key overwrites its earlier binding
/// in place (last write wins), so the keys stay unique.
pub open spec fn bin_dec_entries(
    d: Seq<u8>,
    pos: int,
    depth_left: int,
    max_elems: int,
    n: int,
    acc: Seq<(Seq<char>, ValueView)>,
) -> Option<(Seq<(Seq<char>, ValueView)>, int)>
    decreases d.len() - pos, 1int, n,
{
    if n <= 0 {
        Some((acc, pos))
    } else if pos < 0 || pos + 4 > d.len() {
        None
    } else {
        let kl = be32_val(d.subrange(pos, pos + 4)) as int;
        if pos + 4 + kl <= d.len() && valid_utf8(d.subrange(pos + 4, pos + 4 + kl)) {
            let key = decode_utf8(d.subrange(pos + 4, pos + 4 + kl));
            match bin_dec(d, pos + 4 + kl, depth_left, max_elems) {
                Some((v, p2)) => if pos + 4 + kl <= p2 <= d.len() {
                    bin_dec_entries(d, p2, depth_left, max_elems, n - 1, dict_set(acc, key, v))
                } else {
                    None
                },
                None => None,
            }
        } else {
            None
        }
    }
}

/// Which failure the binary decoder meets first, in the order the parser
/// reads the input.  Meaningful exactly where [`bin_dec`] is `None`.
pub enum BinDecodeFailure {
    /// Input ran out in the middle of a value, or a length field declared
    /// more bytes than remain.
    Truncated,
    /// A type tag outside the known range, carrying that tag.
    UnknownTag(u8),
    /// A container opened past the depth quota.
    DepthQuota,
    /// A container header declared more members than the element quota.
    ElementsQuota,
    /// A string, key or URI payload that is not valid UTF-8.
    BadUtf8,
    /// A date wire double outside the representable range.
    BadDate,
}

/// Which error value the parser owes for a decoder failure of each kind.
pub open spec fn bin_err_matches(k: BinDecodeFailure, e: LLSDError) -> bool {
    match k {
        BinDecodeFailure::Truncated => e is UnexpectedEndOfData,
        BinDecodeFailure::UnknownTag(t) => e matches LLSDError::InvalidType { type_id }
            && type_id == t,
        BinDecodeFailure::DepthQuota => e == (LLSDError::QuotaExceeded { kind: QuotaKind::Depth }),
        BinDecodeFailure::ElementsQuota => e == (LLSDError::QuotaExceeded {
            kind: QuotaKind::Elements,
        }),
        BinDecodeFailure::BadUtf8 => e is Utf8Error,
        BinDecodeFailure::BadDate => e is InvalidDate,
    }
}

/// The kind of the first failure [`bin_dec`] meets at `pos`.  Consulted
/// only where [`bin_dec`] is `None`; on a position that decodes, the value
/// is meaningless.
#[verifier::opaque]
pub open spec fn bin_err(d: Seq<u8>, pos: int, depth_left: int, max_elems: int)
    -> BinDecodeFailure
    decreases d.len() - pos, 0int, 0int,
{
    if pos < 0 || pos >= d.len() {
        BinDecodeFailure::Truncated
    } else {
        let tag = d[pos];
        if tag == 0 || tag == 1 || tag == 2 || tag == 3 || tag == 5 || tag == 8 {
            BinDecodeFailure::Truncated
        } else if tag == 4 || tag == 7 {
            if pos + 5 <= d.len() && pos + 5 + be32_val(d.subrange(pos + 1, pos + 5)) as int
                <= d.len() {
                BinDecodeFailure::BadUtf8
            } else {
                BinDecodeFailure::Truncated
            }
        } else if tag == 6 {
            if pos + 9 <= d.len() {
                BinDecodeFailure::BadDate
            } else {
                BinDecodeFailure::Truncated
            }
        } else if tag == 9 {
            if pos + 5 <= d.len() {
                let n = be32_val(d.subrange(pos + 1, pos + 5)) as int;
                if n <= max_elems {
                    bin_seq_err(d, pos + 5, depth_left - 1, max_elems, n)
                } else {
                    BinDecodeFailure::ElementsQuota
                }
            } else {
                BinDecodeFailure::Truncated
            }
        } else if tag == 10 {
            if pos + 5 <= d.len() {
                let n = be32_val(d.subrange(pos + 1, pos + 5)) as int;
                if n <= max_elems {
                    bin_entries_err(d, pos + 5, depth_left - 1, max_elems, n)
                } else {
                    BinDecodeFailure::ElementsQuota
                }
            } else {
                BinDecodeFailure::Truncated
            }
        } else {
            BinDecodeFailure::UnknownTag(tag)
        }
    }
}

/// The kind of the first failure when reading `n` consecutive values: the
/// depth quota is checked before each member, as the parser does.
#[verifier::opaque]
pub open spec fn bin_seq_err(d: Seq<u8>, pos: int, depth_left: int, max_elems: int, n: int)
    -> BinDecodeFailure
    decreases d.len() - pos, 1int, n,
{
    if n <= 0 || pos < 0 || pos > d.len() {
        BinDecodeFailure::Truncated
    } else if depth_left < 0 {
        BinDecodeFailure::DepthQuota
    } else {
        match bin_dec(d, pos, depth_left, max_elems) {
            Some((v, p2)) => if pos < p2 <= d.len() {
                bin_seq_err(d, p2, depth_left, max_elems, n - 1)
            } else {
                BinDecodeFailure::Truncated
            },
            None => bin_err(d, pos, depth_left, max_elems),
        }
    }
}

/// The kind of the first failure when reading `n` consecutive key/value
/// entries: the key is read before the depth quota is checked, as the
/// parser does.
#[verifier::opaque]
pub open spec fn bin_entries_err(d: Seq<u8>, pos: int, depth_left: int, max_elems: int, n: int)
    -> BinDecodeFailure
    decreases d.len() - pos, 1int, n,
{
    if n <= 0 || pos < 0 || pos + 4 > d.len() {
        BinDecodeFailure::Truncated
    } else {
        let kl = be32_val(d.subrange(pos, pos + 4)) as int;
        if pos + 4 + kl <= d.len() {
            if valid_utf8(d.subrange(pos + 4, pos + 4 + kl)) {
                if depth_left < 0 {
                    BinDecodeFailure::DepthQuota
                } else {
                    match bin_dec(d, pos + 4 + kl, depth_left, max_elems) {
                        Some((v, p2)) => if pos + 4 + kl <= p2 <= d.len() {
                            bin_entries_err(d, p2, depth_left, max_elems, n - 1)
                        } else {
                            BinDecodeFailure::Truncated
                        },
                        None => bin_err(d, pos + 4 + kl, depth_left, max_elems),
                    }
                }
            } else {
                BinDecodeFailure::BadUtf8
            }
        } else {
            BinDecodeFailure::Truncated
        }
    }
}

/// Appending one value to a sequence appends its image.
pub proof fn lemma_enc_seq_snoc(a: Seq<ValueView>, x: ValueView)
    ensures
        bin_enc_seq(a.push(x)) == bin_enc_seq(a) + bin_enc(x),
        bin_encodable_seq(a.push(x)) == (bin_encodable_seq(a) && bin_encodable(x)),
    decreases a.len(),
{
    if a.len() == 0 {
        let p = a.push(x);
        assert(p.len() == 1);
        assert(p[0] == x);
        assert(p.drop_first() =~= Seq::<ValueView>::empty());
        assert(bin_enc_seq(p.drop_first()) =~= Seq::<u8>::empty());
        assert(bin_enc_seq(p) =~= bin_enc(p[0]) + bin_enc_seq(p.drop_first()));
        assert(bin_enc_seq(p) =~= bin_enc(x));
        assert(bin_enc_seq(a) + bin_enc(x) =~= bin_enc(x));
        assert(bin_encodable_seq(p) == (bin_encodable(p[0]) && bin_encodable_seq(
            p.drop_first())));
        assert(bin_encodable_seq(p) == bin_encodable(x));
    } else {
        lemma_enc_seq_snoc(a.drop_first(), x);
        assert(a.push(x)[0] == a[0]);
        assert(a.push(x).drop_first() =~= a.drop_first().push(x));
        assert(bin_enc_seq(a.push(x)) =~= bin_enc_seq(a) + bin_enc(x));
    }
}

/// Appending one entry to a map appends its image.
pub proof fn lemma_enc_entries_snoc(m: Seq<(Seq<char>, ValueView)>, e: (Seq<char>, ValueView))
    ensures
        bin_enc_entries(m.push(e)) == bin_enc_entries(m) + be32(encode_utf8(e.0).len() as u32)
            + encode_utf8(e.0) + bin_enc(e.1),
        bin_encodable_entries(m.push(e)) == (bin_encodable_entries(m) && encode_utf8(e.0).len()
            < 0x1_0000_0000 && bin_encodable(e.1)),
    decreases m.len(),
{
    if m.len() == 0 {
        let p = m.push(e);
        assert(p.len() == 1);
        assert(p[0] == e);
        assert(p.drop_first() =~= Seq::<(Seq<char>, ValueView)>::empty());
        assert(bin_enc_entries(p.drop_first()) =~= Seq::<u8>::empty());
        assert(bin_enc_entries(p) =~= be32(encode_utf8(p[0].0).len() as u32) + encode_utf8(
            p[0].0) + bin_enc(p[0].1) + bin_enc_entries(p.drop_first()));
        assert(bin_enc_entries(p) =~= bin_enc_entries(m) + be32(encode_utf8(
            e.0).len() as u32) + encode_utf8(e.0) + bin_enc(e.1));
        assert(bin_encodable_entries(p) == (encode_utf8(p[0].0).len() < 0x1_0000_0000
            && bin_encodable(p[0].1) && bin_encodable_entries(p.drop_first())));
        assert(bin_encodable_entries(p) == (encode_utf8(e.0).len() < 0x1_0000_0000
            && bin_encodable(e.1)));
    } else {
        lemma_enc_entries_snoc(m.drop_first(), e);
        assert(m.push(e)[0] == m[0]);
        assert(m.push(e).drop_first() =~= m.drop_first().push(e));
        assert(bin_enc_entries(m.push(e)) =~= bin_enc_entries(m) + be32(encode_utf8(
            e.0).len() as u32) + encode_utf8(e.0) + bin_enc(e.1));
    }
}

/// Append the big-endian bytes of a 32-bit value.
fn push_be32(buf: &mut Vec<u8>, n: u32)
    ensures
        final(buf)@ == old(buf)@ + be32(n),
{
    buf.push(#[verifier::truncate] ((n >> 24) as u8));
    buf.push(#[verifier::truncate] ((n >> 16) as u8));
    buf.push(#[verifier::truncate] ((n >> 8) as u8));
    buf.push(#[verifier::truncate] (n as u8));
    proof {
        assert(final(buf)@ =~= old(buf)@ + be32(n));
    }
}

/// Append the big-endian bytes of a 64-bit value.
fn push_be64(buf: &mut Vec<u8>, n: u64)
    ensures
        final(buf)@ == old(buf)@ + be64(n),
{
    buf.push(#[verifier::truncate] ((n >> 56) as u8));
    buf.push(#[verifier::truncate] ((n >> 48) as u8));
    buf.push(#[verifier::truncate] ((n >> 40) as u8));
    buf.push(#[verifier::truncate] ((n >> 32) as u8));
    buf.push(#[verifier::truncate] ((n >> 24) as u8));
    buf.push(#[verifier::truncate] ((n >> 16) as u8));
    buf.push(#[verifier::truncate] ((n >> 8) as u8));
    buf.push(#[verifier::truncate] (n as u8));
    proof {
        assert(final(buf)@ =~= old(buf)@ + be64(n));
    }
}

/// Append a byte slice.
fn push_bytes(buf: &mut Vec<u8>, b: &[u8])
    ensures
        final(buf)@ == old(buf)@ + b@,
{
    let mut i: usize = 0;
    while i < b.len()
        invariant
            i <= b@.len(),
            buf@ =~= old(buf)@ + b@.subrange(0, i as int),
        decreases b@.len() - i,
    {
        let x = b[i];
        buf.push(x);
        i = i + 1;
        proof {
            assert(buf@ =~= old(buf)@ + b@.subrange(0, i as int));
        }
    }
    proof {
        assert(b@.subrange(0, b@.len() as int) =~= b@);
    }
}

/// Append the wire image of one value; fails only when a length does not
/// fit its 32-bit prefix or a date is not normalized, and then leaves what
/// it wrote so far in place.
fn write_value(buf: &mut Vec<u8>, v: &LLSDValue) -> (r: Result<(), LLSDError>)
    ensures
        r is Ok <==> bin_encodable(v@),
        r is Ok ==> final(buf)@ == old(buf)@ + bin_enc(v@),
    decreases *v, 1int, 0int,
{
    match v {
        LLSDValue::Undefined => {
            buf.push(0u8);
            proof {
                assert(final(buf)@ =~= old(buf)@ + bin_enc(v@));
            }
            Ok(())
        },
        LLSDValue::Boolean(b) => {
            buf.push(1u8);
            buf.push(if *b { 1u8 } else { 0u8 });
            proof {
                assert(final(buf)@ =~= old(buf)@ + bin_enc(v@));
            }
            Ok(())
        },
        LLSDValue::Integer(i) => {
            buf.push(2u8);
            let w: u32 = #[verifier::truncate] (*i as u32);
            proof {
                assert(w == u32_of_i32(*i as int)) by (bit_vector)
                    requires w == *i as u32;
            }
            push_be32(buf, w);
            proof {
                assert(final(buf)@ =~= old(buf)@ + bin_enc(v@));
            }
            Ok(())
        },
        LLSDValue::Real(bits) => {
            buf.push(3u8);
            push_be64(buf, *bits);
            proof {
                assert(final(buf)@ =~= old(buf)@ + bin_enc(v@));
            }
            Ok(())
        },
        LLSDValue::String(s) => {
            let bytes = write_tagged_text(buf, 4u8, s);
            proof {
                if bytes is Ok {
                    assert(final(buf)@ =~= old(buf)@ + bin_enc(v@));
                }
            }
            bytes
        },
        LLSDValue::UUID(u) => {
            buf.push(5u8);
            push_bytes(buf, u.as_slice());
            proof {
                assert(final(buf)@ =~= old(buf)@ + bin_enc(v@));
            }
            Ok(())
        },
        LLSDValue::Date(d) => {
            if d.nanos >= 1_000_000_000 {
                return Err(LLSDError::InvalidDate { date: ("unnormalized instant").to_owned() });
            }
            buf.push(6u8);
            let bits: u64;
            if d.secs >= 0 {
                bits = secs_to_real_bits(d.secs as u64, d.nanos);
            } else if d.nanos == 0 {
                let wide: i128 = -(d.secs as i128);
                bits = secs_to_real_bits(wide as u64, 0) | 0x8000_0000_0000_0000;
            } else {
                let wide: i128 = -(d.secs as i128) - 1;
                bits = secs_to_real_bits(wide as u64, 1_000_000_000 - d.nanos)
                    | 0x8000_0000_0000_0000;
            }
            proof {
                assert(bits == date_wire_of(d.secs as int, d.nanos as int));
            }
            push_be64(buf, bits);
            proof {
                assert(final(buf)@ =~= old(buf)@ + bin_enc(v@));
            }
            Ok(())
        },
        LLSDValue::URI(s) => {
            let r = write_tagged_text(buf, 7u8, s);
            proof {
                if r is Ok {
                    assert(final(buf)@ =~= old(buf)@ + bin_enc(v@));
                }
            }
            r
        },
        LLSDValue::Binary(b) => {
            if b.len() as u64 >= 0x1_0000_0000u64 {
                return Err(LLSDError::binary_error("length does not fit the 32-bit prefix"));
            }
            buf.push(8u8);
            push_be32(buf, b.len() as u32);
            push_bytes(buf, b.as_slice());
            proof {
                assert(final(buf)@ =~= old(buf)@ + bin_enc(v@));
            }
            Ok(())
        },
        LLSDValue::Array(a) => {
            if a.len() as u64 >= 0x1_0000_0000u64 {
                proof {
                    lemma_views_of(a@);
                }
                return Err(LLSDError::binary_error("count does not fit the 32-bit prefix"));
            }
            buf.push(9u8);
            proof {
                lemma_views_of(a@);
            }
            push_be32(buf, a.len() as u32);
            let w = write_values(buf, a);
            proof {
                if w is Ok {
                    assert(final(buf)@ =~= old(buf)@ + bin_enc(v@));
                }
            }
            w
        },
        LLSDValue::Dict(m) => {
            if m.len() as u64 >= 0x1_0000_0000u64 {
                proof {
                    lemma_entry_views_of(m@);
                }
                return Err(LLSDError::binary_error("count does not fit the 32-bit prefix"));
            }
            buf.push(10u8);
            proof {
                lemma_entry_views_of(m@);
            }
            push_be32(buf, m.len() as u32);
            let w = write_entries(buf, m);
            proof {
                if w is Ok {
                    assert(final(buf)@ =~= old(buf)@ + bin_enc(v@));
                }
            }
            w
        },
    }
}

/// Append the wire images of the elements, in order.
fn write_values(buf: &mut Vec<u8>, a: &Vec<LLSDValue>) -> (r: Result<(), LLSDError>)
    ensures
        r is Ok <==> bin_encodable_seq(views_of(a@)),
        r is Ok ==> final(buf)@ == old(buf)@ + bin_enc_seq(views_of(a@)),
    decreases a@, 0int, a@.len(),
{
    proof {
        lemma_views_of(a@);
    }
    let ghost vs = views_of(a@);
    let ghost base = buf@;
    let mut i: usize = 0;
    let mut failed: bool = false;
    while i < a.len()
        invariant
            i <= a@.len(),
            vs == views_of(a@),
            vs.len() == a@.len(),
            forall|j: int| 0 <= j < a@.len() ==> vs[j] == view_of(#[trigger] a@[j]),
            base == old(buf)@,
            !failed ==> bin_encodable_seq(vs.take(i as int)) && buf@ == base + bin_enc_seq(
                vs.take(i as int)),
            failed ==> !bin_encodable_seq(vs),
        decreases a@.len() - i,
    {
        if !failed {
            let w = write_value(buf, &a[i]);
            proof {
                lemma_enc_seq_snoc(vs.take(i as int), vs[i as int]);
                assert(vs.take(i + 1 as int) =~= vs.take(i as int).push(vs[i as int]));
                if w is Err {
                    lemma_encodable_seq_member(vs, i as int);
                }
            }
            if w.is_err() {
                failed = true;
            }
        }
        i = i + 1;
    }
    if failed {
        Err(LLSDError::binary_error("an element cannot be encoded"))
    } else {
        proof {
            assert(vs.take(vs.len() as int) =~= vs);
        }
        Ok(())
    }
}

/// Append the wire images of the entries, in order.
fn write_entries(buf: &mut Vec<u8>, m: &Vec<(String, LLSDValue)>) -> (r: Result<
    (),
    LLSDError,
>)
    ensures
        r is Ok <==> bin_encodable_entries(entry_views_of(m@)),
        r is Ok ==> final(buf)@ == old(buf)@ + bin_enc_entries(entry_views_of(m@)),
    decreases m@, 0int, m@.len(),
{
    proof {
        lemma_entry_views_of(m@);
    }
    let ghost es = entry_views_of(m@);
    let ghost base = buf@;
    let mut i: usize = 0;
    let mut failed: bool = false;
    while i < m.len()
        invariant
            i <= m@.len(),
            es == entry_views_of(m@),
            es.len() == m@.len(),
            forall|j: int| 0 <= j < m@.len() ==> es[j] == ((#[trigger] m@[j]).0@, view_of(
                m@[j].1)),
            base == old(buf)@,
            !failed ==> bin_encodable_entries(es.take(i as int)) && buf@ == base
                + bin_enc_entries(es.take(i as int)),
            failed ==> !bin_encodable_entries(es),
        decreases m@.len() - i,
    {
        if !failed {
            let kb = m[i].0.as_str().as_bytes_vec();
            if kb.len() as u64 >= 0x1_0000_0000u64 {
                proof {
                    lemma_encodable_entries_member(es, i as int);
                }
                failed = true;
            } else {
                push_be32(buf, kb.len() as u32);
                push_bytes(buf, kb.as_slice());
                let w = write_value(buf, &m[i].1);
                proof {
                    lemma_enc_entries_snoc(es.take(i as int), es[i as int]);
                    assert(es.take(i + 1 as int) =~= es.take(i as int).push(es[i as int]));
                    if w is Err {
                        lemma_encodable_entries_member(es, i as int);
                    }
                }
                if w.is_err() {
                    failed = true;
                }
            }
        }
        i = i + 1;
    }
    if failed {
        Err(LLSDError::binary_error("an entry cannot be encoded"))
    } else {
        proof {
            assert(es.take(es.len() as int) =~= es);
        }
        Ok(())
    }
}

/// One element failing makes the whole sequence unencodable.
proof fn lemma_encodable_seq_member(s: Seq<ValueView>, i: int)
    requires
        0 <= i < s.len(),
        !bin_encodable(s[i]),
    ensures
        !bin_encodable_seq(s),
    decreases i,
{
    if i > 0 {
        lemma_encodable_seq_member(s.drop_first(), i - 1);
        assert(s.drop_first()[i - 1] == s[i]);
    }
}

/// One entry failing makes the whole map unencodable.
proof fn lemma_encodable_entries_member(m: Seq<(Seq<char>, ValueView)>, i: int)
    requires
        0 <= i < m.len(),
        encode_utf8(m[i].0).len() >= 0x1_0000_0000 || !bin_encodable(m[i].1),
    ensures
        !bin_encodable_entries(m),
    decreases i,
{
    if i > 0 {
        lemma_encodable_entries_member(m.drop_first(), i - 1);
        assert(m.drop_first()[i - 1] == m[i]);
    }
}

/// Append the tag, 32-bit byte length and UTF-8 bytes of a text value.
fn write_tagged_text(buf: &mut Vec<u8>, tag: u8, s: &String) -> (r: Result<(), LLSDError>)
    ensures
        r is Ok <==> encode_utf8(s@).len() < 0x1_0000_0000,
        r is Ok ==> final(buf)@ == old(buf)@ + seq![tag] + be32(encode_utf8(s@).len() as u32)
            + encode_utf8(s@),
{
    let bytes = s.as_str().as_bytes_vec();
    if bytes.len() as u64 >= 0x1_0000_0000u64 {
        return Err(LLSDError::binary_error("length does not fit the 32-bit prefix"));
    }
    buf.push(tag);
    push_be32(buf, bytes.len() as u32);
    push_bytes(buf, bytes.as_slice());
    proof {
        assert(final(buf)@ =~= old(buf)@ + seq![tag] + be32(encode_utf8(s@).len() as u32)
            + encode_utf8(s@));
    }
    Ok(())
}

/// The binary serializer: one pass, deterministic for a given value.
pub struct LLSDBinarySerializer {
    pub include_magic: bool,
}

impl LLSDBinarySerializer {
    /// A serializer that writes the magic header.
    pub fn new() -> (r: LLSDBinarySerializer)
        ensures
            r.include_magic,
    {
        LLSDBinarySerializer { include_magic: true }
    }

    /// The same serializer without the magic header.
    pub fn without_magic(self) -> (r: LLSDBinarySerializer)
        ensures
            !r.include_magic,
    {
        LLSDBinarySerializer { include_magic: false }
    }

    /// The wire bytes of a document: the optional magic header, then the
    /// image of the root value.  Fails exactly when some length cannot fit
    /// its 32-bit prefix or a date is not normalized.
    pub fn serialize(&self, document: &LLSDDocument) -> (r: Result<Vec<u8>, LLSDError>)
        ensures
            r is Ok <==> bin_encodable(document@),
            r matches Ok(out) ==> out@ == (if self.include_magic {
                magic_bytes()
            } else {
                Seq::<u8>::empty()
            }) + bin_enc(document@),
    {
        let mut buf: Vec<u8> = Vec::new();
        if self.include_magic {
            buf.push(0x6Cu8);
            buf.push(0x6Cu8);
            buf.push(0x73u8);
            buf.push(0x64u8);
            proof {
                assert(buf@ =~= magic_bytes());
            }
        }
        let ghost head = buf@;
        match write_value(&mut buf, document.content()) {
            Ok(u) => {
                proof {
                    if self.include_magic {
                        assert(buf@ =~= magic_bytes() + bin_enc(document@));
                    } else {
                        assert(buf@ =~= Seq::<u8>::empty() + bin_enc(document@));
                    }
                }
                Ok(buf)
            },
            Err(e) => Err(e),
        }
    }
}

impl Default for LLSDBinarySerializer {
    /// The default serializer writes the magic header.
    fn default() -> (r: Self)
        ensures
            r.include_magic,
    {
        LLSDBinarySerializer::new()
    }
}

/// Prefix a decoded tail with already-decoded values.
pub open spec fn seq_compose(pre: Seq<ValueView>, r: Option<(Seq<ValueView>, int)>) -> Option<
    (Seq<ValueView>, int),
> {
    match r {
        Some(p) => Some((pre + p.0, p.1)),
        None => None,
    }
}

/// Read four big-endian bytes as a 32-bit value.
fn read_be32(data: &[u8], pos: usize) -> (r: u32)
    requires
        pos + 4 <= data@.len(),
    ensures
        r == be32_val(data@.subrange(pos as int, pos + 4)),
{
    let b0 = data[pos];
    let b1 = data[pos + 1];
    let b2 = data[pos + 2];
    let b3 = data[pos + 3];
    proof {
        let s = data@.subrange(pos as int, pos + 4);
        assert(s[0] == data@[pos as int]);
        assert(s[1] == data@[pos + 1]);
        assert(s[2] == data@[pos + 2]);
        assert(s[3] == data@[pos + 3]);
    }
    ((b0 as u32) << 24u32) | ((b1 as u32) << 16u32) | ((b2 as u32) << 8u32) | (b3 as u32)
}

/// Read eight big-endian bytes as a 64-bit value.
fn read_be64(data: &[u8], pos: usize) -> (r: u64)
    requires
        pos + 8 <= data@.len(),
    ensures
        r == be64_val(data@.subrange(pos as int, pos + 8)),
{
    let b0 = data[pos];
    let b1 = data[pos + 1];
    let b2 = data[pos + 2];
    let b3 = data[pos + 3];
    let b4 = data[pos + 4];
    let b5 = data[pos + 5];
    let b6 = data[pos + 6];
    let b7 = data[pos + 7];
    proof {
        let s = data@.subrange(pos as int, pos + 8);
        assert(s[0] == data@[pos as int]);
        assert(s[1] == data@[pos + 1]);
        assert(s[2] == data@[pos + 2]);
        assert(s[3] == data@[pos + 3]);
        assert(s[4] == data@[pos + 4]);
        assert(s[5] == data@[pos + 5]);
        assert(s[6] == data@[pos + 6]);
        assert(s[7] == data@[pos + 7]);
    }
    ((b0 as u64) << 56u64) | ((b1 as u64) << 48u64) | ((b2 as u64) << 40u64) | ((b3 as u64)
        << 32u64) | ((b4 as u64) << 24u64) | ((b5 as u64) << 16u64) | ((b6 as u64) << 8u64) | (
    b7 as u64)
}

/// Copy the bytes of `data` from `from` to `to` into a fresh vector.
fn copy_byte_range(data: &[u8], from: usize, to: usize) -> (r: Vec<u8>)
    requires
        from <= to <= data@.len(),
    ensures
        r@ == data@.subrange(from as int, to as int),
{
    let mut out: Vec<u8> = Vec::new();
    let mut i: usize = from;
    while i < to
        invariant
            from <= i <= to <= data@.len(),
            out@ =~= data@.subrange(from as int, i as int),
        decreases to - i,
    {
        out.push(data[i]);
        i = i + 1;
        proof {
            assert(out@ =~= data@.subrange(from as int, i as int));
        }
    }
    out
}

/// The binary parser and its quotas.
pub struct LLSDBinaryParser {
    pub validate_magic: bool,
    pub max_depth: usize,
    pub max_elements: usize,
}

impl LLSDBinaryParser {
    /// A parser with magic validation on and the default quotas.
    pub fn new() -> (r: LLSDBinaryParser)
        ensures
            r.validate_magic,
            r.max_depth == 1000,
            r.max_elements == 1_000_000,
    {
        LLSDBinaryParser { validate_magic: true, max_depth: 1000, max_elements: 1_000_000 }
    }

    /// The same parser without magic validation.
    pub fn without_magic_validation(self) -> (r: LLSDBinaryParser)
        ensures
            !r.validate_magic,
            r.max_depth == self.max_depth,
            r.max_elements == self.max_elements,
    {
        LLSDBinaryParser { validate_magic: false, ..self }
    }

    /// The same parser with the given depth quota.
    pub fn with_max_depth(self, depth: usize) -> (r: LLSDBinaryParser)
        ensures
            r.validate_magic == self.validate_magic,
            r.max_depth == depth,
            r.max_elements == self.max_elements,
    {
        LLSDBinaryParser { max_depth: depth, ..self }
    }

    /// The same parser with the given element quota.
    pub fn with_max_elements(self, elements: usize) -> (r: LLSDBinaryParser)
        ensures
            r.validate_magic == self.validate_magic,
            r.max_depth == self.max_depth,
            r.max_elements == elements,
    {
        LLSDBinaryParser { max_elements: elements, ..self }
    }

    /// Parse one document from binary data.  With magic validation on, the
    /// stream must begin with the magic bytes — an absent or wrong magic is
    /// the magic failure.  Succeeds exactly when the decoder reads a
    /// well-formed value within the quotas; trailing bytes are ignored, as
    /// the wire format carries no end marker.  On any other failure the
    /// error kind names the first fault the decoder met — truncation, an
    /// unknown tag (carrying it), a quota, bad UTF-8 or a bad date — as
    /// [`bin_err`] classifies it.
    pub fn parse(&self, data: &[u8]) -> (r: Result<LLSDDocument, LLSDError>)
        ensures
            r is Ok <==> ((self.validate_magic ==> data@.len() >= 4 && data@.subrange(0, 4)
                == magic_bytes()) && bin_dec(
                data@,
                if self.validate_magic {
                    4int
                } else {
                    0int
                },
                self.max_depth as int,
                self.max_elements as int,
            ) is Some),
            r matches Ok(doc) ==> Some(doc@) == (match bin_dec(
                data@,
                if self.validate_magic {
                    4int
                } else {
                    0int
                },
                self.max_depth as int,
                self.max_elements as int,
            ) {
                Some(p) => Some(p.0),
                None => None,
            }) && doc@.wf(),
            self.validate_magic ==> ((r matches Err(e) && e is InvalidMagic) <==> !(data@.len()
                >= 4 && data@.subrange(0, 4) == magic_bytes())),
            !self.validate_magic ==> !(r matches Err(e) && e is InvalidMagic),
            r matches Err(e) ==> (e is InvalidMagic || e is UnexpectedEndOfData
                || e is InvalidType || e is QuotaExceeded || e is Utf8Error || e is InvalidDate),
            r is Err && !(r->Err_0 is InvalidMagic) ==> bin_err_matches(
                bin_err(
                    data@,
                    if self.validate_magic {
                        4int
                    } else {
                        0int
                    },
                    self.max_depth as int,
                    self.max_elements as int,
                ),
                r->Err_0,
            ),
    {
        let mut start: usize = 0;
        if self.validate_magic {
            if data.len() < 4 {
                return Err(LLSDError::InvalidMagic);
            }
            let m = read_be32(data, 0);
            if m != 0x6C6C_7364u32 {
                proof {
                    assert(((0x6Cu32 << 24) | (0x6Cu32 << 16) | (0x73u32 << 8) | 0x64u32) as u32
                        == 0x6C6C_7364u32) by (bit_vector);
                    assert(be32_val(magic_bytes()) == 0x6C6C_7364u32);
                    if data@.subrange(0, 4) == magic_bytes() {
                        assert(m == 0x6C6C_7364u32);
                    }
                }
                return Err(LLSDError::InvalidMagic);
            }
            proof {
                let s = data@.subrange(0, 4);
                assert(be32_val(s) == 0x6C6C_7364u32);
                assert(s.len() == 4);
                let c0 = s[0];
                let c1 = s[1];
                let c2 = s[2];
                let c3 = s[3];
                assert(c0 == 0x6Cu8 && c1 == 0x6Cu8 && c2 == 0x73u8 && c3 == 0x64u8)
                    by (bit_vector)
                    requires
                        (((c0 as u32) << 24) | ((c1 as u32) << 16) | ((c2 as u32) << 8) | (
                        c3 as u32)) as u32 == 0x6C6C_7364u32,
                ;
                assert(s =~= magic_bytes());
            }
            start = 4;
        }
        match self.parse_value(data, start, self.max_depth) {
            Ok(p) => Ok(LLSDDocument::new(p.0)),
            Err(e) => Err(e),
        }
    }

    /// Parse one value at `pos`, with `depth_left` container levels still
    /// allowed.  Agrees exactly with the decoder [`bin_dec`].
    #[verifier::loop_isolation(false)]
    #[verifier::rlimit(100)]
    fn parse_value(&self, data: &[u8], pos: usize, depth_left: usize) -> (r: Result<
        (LLSDValue, usize),
        LLSDError,
    >)
        ensures
            r matches Ok(p) ==> bin_dec(
                data@,
                pos as int,
                depth_left as int,
                self.max_elements as int,
            ) == Some((p.0@, p.1 as int)) && pos < p.1 <= data@.len() && p.0@.wf(),
            r is Err ==> bin_dec(
                data@,
                pos as int,
                depth_left as int,
                self.max_elements as int,
            ) is None,
            r matches Err(e) ==> (e is UnexpectedEndOfData || e is InvalidType
                || e is QuotaExceeded || e is Utf8Error || e is InvalidDate),
            r matches Err(e) ==> bin_err_matches(
                bin_err(data@, pos as int, depth_left as int, self.max_elements as int),
                e,
            ),
            pos >= data@.len() ==> (r matches Err(e) && e is UnexpectedEndOfData),
            pos < data@.len() && data@[pos as int] > 10 ==> (r matches Err(e) && e matches
                LLSDError::InvalidType { type_id } && type_id == data@[pos as int]),
            pos < data@.len() && (data@[pos as int] == 9 || data@[pos as int] == 10) && pos + 5
                <= data@.len() && be32_val(data@.subrange(pos + 1, pos + 5))
                > self.max_elements ==> (r matches Err(e) && e == (LLSDError::QuotaExceeded {
                kind: QuotaKind::Elements,
            })),
        decreases data@.len() - pos, 0int,
    {
        let ghost me = self.max_elements as int;
        let ghost ek = bin_err(data@, pos as int, depth_left as int, me);
        if pos >= data.len() {
            proof {
                assert(bin_dec(data@, pos as int, depth_left as int, me) is None);
                reveal(bin_err);
                    assert(ek == BinDecodeFailure::Truncated);
            }
            return Err(LLSDError::UnexpectedEndOfData);
        }
        let tag = data[pos];
        if tag == 0 {
            Ok((LLSDValue::Undefined, pos + 1))
        } else if tag == 1 {
            if data.len() - pos >= 2 {
                Ok((LLSDValue::Boolean(data[pos + 1] != 0), pos + 2))
            } else {
                proof {
                    reveal(bin_err);
                    assert(ek == BinDecodeFailure::Truncated);
                }
                Err(LLSDError::UnexpectedEndOfData)
            }
        } else if tag == 2 {
            if data.len() - pos >= 5 {
                let n = read_be32(data, pos + 1);
                let i = #[verifier::truncate] (n as i32);
                proof {
                    assert(i as int == i32_of_u32(n)) by (bit_vector)
                        requires
                            i == n as i32,
                    ;
                    assert(LLSDValue::Integer(i)@.wf());
                }
                Ok((LLSDValue::Integer(i), pos + 5))
            } else {
                proof {
                    reveal(bin_err);
                    assert(ek == BinDecodeFailure::Truncated);
                }
                Err(LLSDError::UnexpectedEndOfData)
            }
        } else if tag == 3 {
            if data.len() - pos >= 9 {
                let bits = read_be64(data, pos + 1);
                Ok((LLSDValue::Real(bits), pos + 9))
            } else {
                proof {
                    reveal(bin_err);
                    assert(ek == BinDecodeFailure::Truncated);
                }
                Err(LLSDError::UnexpectedEndOfData)
            }
        } else if tag == 4 || tag == 7 {
            if data.len() - pos < 5 {
                proof {
                    reveal(bin_err);
                    assert(ek == BinDecodeFailure::Truncated);
                }
                return Err(LLSDError::UnexpectedEndOfData);
            }
            let n = read_be32(data, pos + 1) as usize;
            if n > data.len() - (pos + 5) {
                proof {
                    reveal(bin_err);
                    assert(ek == BinDecodeFailure::Truncated);
                }
                return Err(LLSDError::UnexpectedEndOfData);
            }
            let bytes = copy_byte_range(data, pos + 5, pos + 5 + n);
            match crate::trusted::utf8_to_string(bytes) {
                Some(s) => {
                    if tag == 4 {
                        Ok((LLSDValue::String(s), pos + 5 + n))
                    } else {
                        Ok((LLSDValue::URI(s), pos + 5 + n))
                    }
                },
                None => {
                    proof {
                        reveal(bin_err);
                    assert(ek == BinDecodeFailure::BadUtf8);
                    }
                    Err(LLSDError::Utf8Error)
                },
            }
        } else if tag == 5 {
            if data.len() - pos < 17 {
                proof {
                    reveal(bin_err);
                    assert(ek == BinDecodeFailure::Truncated);
                }
                return Err(LLSDError::UnexpectedEndOfData);
            }
            let mut u: [u8; 16] = [0u8; 16];
            let mut j: usize = 0;
            while j < 16
                invariant
                    j <= 16,
                    pos + 17 <= data@.len(),
                    u@.len() == 16,
                    forall|k: int| 0 <= k < j ==> u@[k] == data@[pos + 1 + k],
                decreases 16 - j,
            {
                let b = data[pos + 1 + j];
                vstd::array::ArrayAdditionalExecFns::set(&mut u, j, b);
                j = j + 1;
            }
            proof {
                assert(u@ =~= data@.subrange(pos + 1, pos + 17));
            }
            Ok((LLSDValue::UUID(u), pos + 17))
        } else if tag == 6 {
            if data.len() - pos < 9 {
                proof {
                    reveal(bin_err);
                    assert(ek == BinDecodeFailure::Truncated);
                }
                return Err(LLSDError::UnexpectedEndOfData);
            }
            proof {
                reveal(bin_err);
                    assert(ek == BinDecodeFailure::BadDate);
            }
            let bits = read_be64(data, pos + 1);
            let neg: bool = bits >= 0x8000_0000_0000_0000u64;
            let mag: u64 = bits & 0x7FFF_FFFF_FFFF_FFFFu64;
            match real_bits_to_secs(mag) {
                Some(p) => {
                    let w = p.0;
                    let sn = p.1;
                    let se128: i128 = if !neg {
                        w as i128
                    } else if sn == 0 {
                        -(w as i128)
                    } else {
                        -(w as i128) - 1
                    };
                    let na: u32 = if !neg || sn == 0 {
                        sn
                    } else {
                        1_000_000_000 - sn
                    };
                    if se128 < (i64::MIN as i128) || se128 > (i64::MAX as i128) {
                        return Err(LLSDError::InvalidDate {
                            date: ("instant out of range").to_owned(),
                        });
                    }
                    let se: i64 = se128 as i64;
                    if timestamp_in_range(se, na) {
                        Ok((LLSDValue::Date(LLSDDate { secs: se, nanos: na }), pos + 9))
                    } else {
                        Err(LLSDError::InvalidDate { date: ("instant out of range").to_owned() })
                    }
                },
                None => Err(LLSDError::InvalidDate { date: ("instant out of range").to_owned() }),
            }
        } else if tag == 8 {
            if data.len() - pos < 5 {
                proof {
                    reveal(bin_err);
                    assert(ek == BinDecodeFailure::Truncated);
                }
                return Err(LLSDError::UnexpectedEndOfData);
            }
            let n = read_be32(data, pos + 1) as usize;
            if n > data.len() - (pos + 5) {
                proof {
                    reveal(bin_err);
                    assert(ek == BinDecodeFailure::Truncated);
                }
                return Err(LLSDError::UnexpectedEndOfData);
            }
            let bytes = copy_byte_range(data, pos + 5, pos + 5 + n);
            Ok((LLSDValue::Binary(bytes), pos + 5 + n))
        } else if tag == 9 {
            if data.len() - pos < 5 {
                proof {
                    reveal(bin_err);
                    assert(ek == BinDecodeFailure::Truncated);
                }
                return Err(LLSDError::UnexpectedEndOfData);
            }
            let n = read_be32(data, pos + 1) as usize;
            if n > self.max_elements {
                proof {
                    reveal(bin_err);
                    assert(ek == BinDecodeFailure::ElementsQuota);
                }
                return Err(LLSDError::QuotaExceeded { kind: QuotaKind::Elements });
            }
            proof {
                reveal(bin_err);
                reveal(bin_seq_err);
                assert(ek == bin_seq_err(data@, pos + 5, depth_left as int - 1, me, n as int));
            }
            match self.parse_array_items(data, pos + 5, n, depth_left) {
                Ok(p) => {
                    proof {
                        assert(bin_dec(data@, pos as int, depth_left as int, me) == Some((
                            ValueView::Array(views_of(p.0@)),
                            p.1 as int,
                        )));
                    }
                    Ok((LLSDValue::Array(p.0), p.1))
                },
                Err(e) => Err(e),
            }
        } else if tag == 10 {
            if data.len() - pos < 5 {
                proof {
                    reveal(bin_err);
                    assert(ek == BinDecodeFailure::Truncated);
                }
                return Err(LLSDError::UnexpectedEndOfData);
            }
            let n = read_be32(data, pos + 1) as usize;
            if n > self.max_elements {
                proof {
                    reveal(bin_err);
                    assert(ek == BinDecodeFailure::ElementsQuota);
                }
                return Err(LLSDError::QuotaExceeded { kind: QuotaKind::Elements });
            }
            proof {
                reveal(bin_err);
                reveal(bin_entries_err);
                assert(ek == bin_entries_err(data@, pos + 5, depth_left as int - 1, me, n as int));
            }
            match self.parse_map_entries(data, pos + 5, n, depth_left) {
                Ok(p) => {
                    proof {
                        assert(bin_dec(data@, pos as int, depth_left as int, me) == Some((
                            ValueView::Dict(entry_views_of(p.0@)),
                            p.1 as int,
                        )));
                    }
                    Ok((LLSDValue::Dict(p.0), p.1))
                },
                Err(e) => Err(e),
            }
        } else {
            proof {
                reveal(bin_err);
                assert(ek == BinDecodeFailure::UnknownTag(tag));
            }
            Err(LLSDError::InvalidType { type_id: tag })
        }
    }

    /// Read `n` consecutive array members starting at `start`, each one
    /// container level deeper.  Agrees exactly with [`bin_dec_seq`]; on
    /// failure the error kind is as [`bin_seq_err`] classifies it.
    #[verifier::loop_isolation(false)]
    #[verifier::rlimit(100)]
    fn parse_array_items(&self, data: &[u8], start: usize, n: usize, depth_left: usize) -> (r:
        Result<(Vec<LLSDValue>, usize), LLSDError>)
        requires
            start <= data@.len(),
        ensures
            r matches Ok(p) ==> bin_dec_seq(
                data@,
                start as int,
                depth_left as int - 1,
                self.max_elements as int,
                n as int,
            ) == Some((views_of(p.0@), p.1 as int)) && start <= p.1 <= data@.len() && wf_seq(
                views_of(p.0@),
            ),
            r is Err ==> bin_dec_seq(
                data@,
                start as int,
                depth_left as int - 1,
                self.max_elements as int,
                n as int,
            ) is None,
            r matches Err(e) ==> (e is UnexpectedEndOfData || e is InvalidType
                || e is QuotaExceeded || e is Utf8Error || e is InvalidDate),
            r matches Err(e) ==> bin_err_matches(
                bin_seq_err(
                    data@,
                    start as int,
                    depth_left as int - 1,
                    self.max_elements as int,
                    n as int,
                ),
                e,
            ),
        decreases data@.len() - start, 1int,
    {
        let ghost me = self.max_elements as int;
        let ghost dl2 = depth_left as int - 1;
        let mut out: Vec<LLSDValue> = Vec::new();
        let mut cur: usize = start;
        let mut k: usize = 0;
        while k < n
            invariant
                0 <= k <= n,
                start <= cur <= data@.len(),
                out@.len() == k,
                me == self.max_elements as int,
                dl2 == depth_left as int - 1,
                wf_seq(views_of(out@)),
                bin_dec_seq(data@, start as int, dl2, me, n as int) == seq_compose(
                    views_of(out@),
                    bin_dec_seq(data@, cur as int, dl2, me, n - k as int),
                ),
                bin_seq_err(data@, start as int, dl2, me, n as int) == bin_seq_err(
                    data@,
                    cur as int,
                    dl2,
                    me,
                    n - k as int,
                ),
            decreases n - k,
        {
            proof {
                lemma_views_of(out@);
            }
            if depth_left == 0 {
                proof {
                    assert(bin_dec(data@, cur as int, dl2, me) is None);
                    assert(bin_dec_seq(data@, cur as int, dl2, me, n - k as int) is None);
                    reveal(bin_seq_err);
                    assert(bin_seq_err(data@, cur as int, dl2, me, n - k as int)
                        == BinDecodeFailure::DepthQuota);
                }
                return Err(LLSDError::QuotaExceeded { kind: QuotaKind::Depth });
            }
            let child = self.parse_value(data, cur, depth_left - 1);
            match child {
                Ok(cp) => {
                    let ghost pre = out@;
                    out.push(cp.0);
                    proof {
                        lemma_views_of(out@);
                        lemma_views_of(pre);
                        lemma_wf_seq(views_of(out@));
                        lemma_wf_seq(views_of(pre));
                        assert(views_of(out@) =~= views_of(pre) + seq![cp.0@]);
                        assert(bin_dec_seq(data@, cur as int, dl2, me, n - k as int)
                            == seq_compose(
                            seq![cp.0@],
                            bin_dec_seq(data@, cp.1 as int, dl2, me, n - k - 1 as int),
                        ));
                        reveal(bin_seq_err);
                        assert(bin_seq_err(data@, cur as int, dl2, me, n - k as int)
                            == bin_seq_err(data@, cp.1 as int, dl2, me, n - k - 1 as int));
                    }
                    cur = cp.1;
                    k = k + 1;
                },
                Err(e) => {
                    proof {
                        assert(bin_dec_seq(data@, cur as int, dl2, me, n - k as int) is None);
                        reveal(bin_seq_err);
                        reveal(bin_err);
                        assert(bin_seq_err(data@, cur as int, dl2, me, n - k as int)
                            == bin_err(data@, cur as int, dl2, me));
                    }
                    return Err(e);
                },
            }
        }
        proof {
            lemma_views_of(out@);
            assert(bin_dec_seq(data@, cur as int, dl2, me, 0) == Some((
                Seq::<ValueView>::empty(),
                cur as int,
            )));
            assert(views_of(out@) + Seq::<ValueView>::empty() =~= views_of(out@));
        }
        Ok((out, cur))
    }

    /// Read `n` consecutive key/value entries starting at `start`, each
    /// value one container level deeper; a repeated key overwrites its
    /// earlier binding in place.  Agrees exactly with [`bin_dec_entries`];
    /// on failure the error kind is as [`bin_entries_err`] classifies it.
    #[verifier::loop_isolation(false)]
    #[verifier::rlimit(100)]
    fn parse_map_entries(&self, data: &[u8], start: usize, n: usize, depth_left: usize) -> (r:
        Result<(Vec<(String, LLSDValue)>, usize), LLSDError>)
        requires
            start <= data@.len(),
        ensures
            r matches Ok(p) ==> bin_dec_entries(
                data@,
                start as int,
                depth_left as int - 1,
                self.max_elements as int,
                n as int,
                Seq::empty(),
            ) == Some((entry_views_of(p.0@), p.1 as int)) && start <= p.1 <= data@.len()
                && wf_entries(entry_views_of(p.0@)),
            r is Err ==> bin_dec_entries(
                data@,
                start as int,
                depth_left as int - 1,
                self.max_elements as int,
                n as int,
                Seq::empty(),
            ) is None,
            r matches Err(e) ==> (e is UnexpectedEndOfData || e is InvalidType
                || e is QuotaExceeded || e is Utf8Error || e is InvalidDate),
            r matches Err(e) ==> bin_err_matches(
                bin_entries_err(
                    data@,
                    start as int,
                    depth_left as int - 1,
                    self.max_elements as int,
                    n as int,
                ),
                e,
            ),
        decreases data@.len() - start, 1int,
    {
        let ghost me = self.max_elements as int;
        let ghost dl2 = depth_left as int - 1;
        let mut out: Vec<(String, LLSDValue)> = Vec::new();
        let mut cur: usize = start;
        let mut k: usize = 0;
        while k < n
            invariant
                0 <= k <= n,
                start <= cur <= data@.len(),
                me == self.max_elements as int,
                dl2 == depth_left as int - 1,
                wf_entries(entry_views_of(out@)),
                bin_dec_entries(data@, start as int, dl2, me, n as int, Seq::empty())
                    == bin_dec_entries(
                    data@,
                    cur as int,
                    dl2,
                    me,
                    n - k as int,
                    entry_views_of(out@),
                ),
                bin_entries_err(data@, start as int, dl2, me, n as int) == bin_entries_err(
                    data@,
                    cur as int,
                    dl2,
                    me,
                    n - k as int,
                ),
            decreases n - k,
        {
                proof {
                    lemma_entry_views_of(out@);
                }
                if data.len() - cur < 4 {
                    proof {
                        reveal(bin_entries_err);
                            assert(bin_entries_err(data@, cur as int, dl2, me, n - k as int)
                            == BinDecodeFailure::Truncated);
                    }
                    return Err(LLSDError::UnexpectedEndOfData);
                }
                let kl = read_be32(data, cur) as usize;
                if kl > data.len() - (cur + 4) {
                    proof {
                        reveal(bin_entries_err);
                            assert(bin_entries_err(data@, cur as int, dl2, me, n - k as int)
                            == BinDecodeFailure::Truncated);
                    }
                    return Err(LLSDError::UnexpectedEndOfData);
                }
                let kb = copy_byte_range(data, cur + 4, cur + 4 + kl);
                let key = match crate::trusted::utf8_to_string(kb) {
                    Some(s) => s,
                    None => {
                        proof {
                            reveal(bin_entries_err);
                            assert(bin_entries_err(data@, cur as int, dl2, me, n - k as int)
                                == BinDecodeFailure::BadUtf8);
                        }
                        return Err(LLSDError::Utf8Error);
                    },
                };
                if depth_left == 0 {
                    proof {
                        assert(bin_dec(data@, cur + 4 + kl, dl2, me) is None);
                        reveal(bin_entries_err);
                            assert(bin_entries_err(data@, cur as int, dl2, me, n - k as int)
                            == BinDecodeFailure::DepthQuota);
                    }
                    return Err(LLSDError::QuotaExceeded { kind: QuotaKind::Depth });
                }
                let child = self.parse_value(data, cur + 4 + kl, depth_left - 1);
                match child {
                    Ok(cp) => {
                        let ghost pre = entry_views_of(out@);
                        let ghost kv = key@;
                        proof {
                            assert(bin_dec_entries(data@, cur as int, dl2, me, n - k as int, pre)
                                == bin_dec_entries(
                                data@,
                                cp.1 as int,
                                dl2,
                                me,
                                n - k - 1 as int,
                                dict_set(pre, kv, cp.0@),
                            ));
                            reveal(bin_entries_err);
                            assert(bin_entries_err(data@, cur as int, dl2, me, n - k as int)
                                == bin_entries_err(data@, cp.1 as int, dl2, me, n - k - 1 as int));
                        }
                        match crate::types::dict_position(&out, &key) {
                            Some(at) => {
                                let removed = out.remove(at);
                                out.insert(at, (key, cp.0));
                                proof {
                                    lemma_entry_views_of(out@);
                                    assert(entry_views_of(out@) =~= pre.update(
                                        at as int,
                                        (kv, cp.0@),
                                    ));
                                    assert(pre[at as int].0 == kv);
                                    lemma_dict_set_update(pre, at as int, cp.0@);
                                    lemma_wf_entries_vals(pre);
                                    lemma_wf_entries_vals(entry_views_of(out@));
                                    assert forall|x: int, y: int|
                                        0 <= x < y < entry_views_of(out@).len()
                                        implies entry_views_of(out@)[x].0 != entry_views_of(
                                        out@)[y].0 by {
                                        assert(entry_views_of(out@)[x].0 == pre[x].0);
                                        assert(entry_views_of(out@)[y].0 == pre[y].0);
                                    }
                                    assert(wf_entries(entry_views_of(out@)));
                                }
                            },
                            None => {
                                out.push((key, cp.0));
                                proof {
                                    lemma_entry_views_of(out@);
                                    assert(entry_views_of(out@) =~= pre.push((kv, cp.0@)));
                                    crate::utils::lemma_dict_get_absent(pre, kv);
                                    lemma_dict_set_new(pre, kv, cp.0@);
                                    lemma_wf_entries_vals(pre);
                                    lemma_wf_entries_vals(entry_views_of(out@));
                                    assert forall|x: int, y: int|
                                        0 <= x < y < entry_views_of(out@).len()
                                        implies entry_views_of(out@)[x].0 != entry_views_of(
                                        out@)[y].0 by {
                                        if y < pre.len() {
                                            assert(entry_views_of(out@)[x].0 == pre[x].0);
                                            assert(entry_views_of(out@)[y].0 == pre[y].0);
                                        } else {
                                            assert(entry_views_of(out@)[x].0 == pre[x].0);
                                            assert(entry_views_of(out@)[y].0 == kv);
                                        }
                                    }
                                    assert(wf_entries(entry_views_of(out@)));
                                }
                            },
                        }
                        cur = cp.1;
                        k = k + 1;
                    },
                    Err(e) => {
                        proof {
                            reveal(bin_entries_err);
                            reveal(bin_err);
                            assert(bin_entries_err(data@, cur as int, dl2, me, n - k as int)
                                == bin_err(data@, cur + 4 + kl, dl2, me));
                        }
                        return Err(e);
                    },
                }
            }
            proof {
                lemma_entry_views_of(out@);
                assert(bin_dec_entries(data@, cur as int, dl2, me, 0, entry_views_of(out@))
                    == Some((entry_views_of(out@), cur as int)));
            }
            Ok((out, cur))
    }
}

impl Default for LLSDBinaryParser {
    /// The default parser validates the magic and uses the default quotas.
    fn default() -> (r: Self)
        ensures
            r.validate_magic,
            r.max_depth == 1000,
            r.max_elements == 1_000_000,
    {
        LLSDBinaryParser::new()
    }
}

/// A window inside an equal window of `d` is the matching window of `w`.
proof fn lemma_slice_parts(d: Seq<u8>, pos: int, w: Seq<u8>, k1: int, k2: int)
    requires
        0 <= pos,
        pos + w.len() <= d.len(),
        d.subrange(pos, pos + w.len()) == w,
        0 <= k1 <= k2 <= w.len(),
    ensures
        d.subrange(pos + k1, pos + k2) == w.subrange(k1, k2),
{
    assert forall|i: int| 0 <= i < k2 - k1 implies d.subrange(pos + k1, pos + k2)[i]
        == w.subrange(k1, k2)[i] by {
        assert(d.subrange(pos, pos + w.len())[k1 + i] == w[k1 + i]);
        assert(d[pos + k1 + i] == w[k1 + i]);
    }
    assert(d.subrange(pos + k1, pos + k2) =~= w.subrange(k1, k2));
}

/// Reading back four big-endian bytes yields the written value.
proof fn lemma_be32_round(n: u32)
    ensures
        be32_val(be32(n)) == n,
        be32(n).len() == 4,
{
    let b0 = (n >> 24) as u8;
    let b1 = (n >> 16) as u8;
    let b2 = (n >> 8) as u8;
    let b3 = n as u8;
    assert((((b0 as u32) << 24) | ((b1 as u32) << 16) | ((b2 as u32) << 8) | (b3 as u32)) as u32
        == n) by (bit_vector)
        requires
            b0 == (n >> 24) as u8,
            b1 == (n >> 16) as u8,
            b2 == (n >> 8) as u8,
            b3 == n as u8,
    ;
    assert(be32(n)[0] == b0 && be32(n)[1] == b1 && be32(n)[2] == b2 && be32(n)[3] == b3);
}

/// Reading back eight big-endian bytes yields the written value.
proof fn lemma_be64_round(n: u64)
    ensures
        be64_val(be64(n)) == n,
        be64(n).len() == 8,
{
    let b0 = (n >> 56) as u8;
    let b1 = (n >> 48) as u8;
    let b2 = (n >> 40) as u8;
    let b3 = (n >> 32) as u8;
    let b4 = (n >> 24) as u8;
    let b5 = (n >> 16) as u8;
    let b6 = (n >> 8) as u8;
    let b7 = n as u8;
    assert((((b0 as u64) << 56) | ((b1 as u64) << 48) | ((b2 as u64) << 40) | ((b3 as u64) << 32)
        | ((b4 as u64) << 24) | ((b5 as u64) << 16) | ((b6 as u64) << 8) | (b7 as u64)) as u64
        == n) by (bit_vector)
        requires
            b0 == (n >> 56) as u8,
            b1 == (n >> 48) as u8,
            b2 == (n >> 40) as u8,
            b3 == (n >> 32) as u8,
            b4 == (n >> 24) as u8,
            b5 == (n >> 16) as u8,
            b6 == (n >> 8) as u8,
            b7 == n as u8,
    ;
    assert(be64(n)[0] == b0 && be64(n)[1] == b1 && be64(n)[2] == b2 && be64(n)[3] == b3
        && be64(n)[4] == b4 && be64(n)[5] == b5 && be64(n)[6] == b6 && be64(n)[7] == b7);
}

/// The two's-complement image is faithful on the 32-bit range.
proof fn lemma_i32_round(i: int)
    requires
        -0x8000_0000 <= i < 0x8000_0000,
    ensures
        i32_of_u32(u32_of_i32(i)) == i,
{
}

/// The decoder reads back exactly what the encoder wrote: one value, from
/// anywhere inside a longer stream, provided the value is well formed,
/// its lengths fit the wire, it is free of date leaves, and it respects
/// the decoder's quotas.
pub proof fn lemma_bin_dec_enc(d: Seq<u8>, pos: int, v: ValueView, dl: int, me: int)
    requires
        v.wf(),
        bin_encodable(v),
        date_free(v),
        depth_ok(v, dl),
        elems_ok(v, me),
        0 <= pos,
        pos + bin_enc(v).len() <= d.len(),
        d.subrange(pos, pos + bin_enc(v).len()) == bin_enc(v),
    ensures
        bin_dec(d, pos, dl, me) == Some((v, pos + bin_enc(v).len() as int)),
    decreases v, 1int, 0int,
{
    broadcast use vstd::utf8::encode_utf8_valid_utf8, vstd::utf8::encode_utf8_decode_utf8;

    let w = bin_enc(v);
    assert(d[pos] == w[0]) by {
        assert(d.subrange(pos, pos + w.len())[0] == w[0]);
    }
    assert(forall|j: int| 0 <= j < w.len() ==> d[pos + j] == #[trigger] w[j]) by {
        assert(forall|j: int| 0 <= j < w.len() ==> d.subrange(pos, pos + w.len())[j]
            == #[trigger] w[j]);
    }
    match v {
        ValueView::Undefined => {
            assert(w[0] == 0u8);
        },
        ValueView::Boolean(b) => {
            assert(w[0] == 1u8);
            assert(d[pos + 1] == w[1]);
            if b {
                assert(w[1] == 1u8);
            } else {
                assert(w[1] == 0u8);
            }
        },
        ValueView::Integer(i) => {
            assert(w[0] == 2u8);
            lemma_be32_round(u32_of_i32(i));
            lemma_slice_parts(d, pos, w, 1, 5);
            assert(w.subrange(1, 5) =~= be32(u32_of_i32(i)));
            lemma_i32_round(i);
        },
        ValueView::Real(bits) => {
            assert(w[0] == 3u8);
            lemma_be64_round(bits);
            lemma_slice_parts(d, pos, w, 1, 9);
            assert(w.subrange(1, 9) =~= be64(bits));
        },
        ValueView::String(s) => {
            let el = encode_utf8(s);
            let n = el.len() as int;
            assert(w[0] == 4u8);
            lemma_be32_round(n as u32);
            lemma_slice_parts(d, pos, w, 1, 5);
            assert(w.subrange(1, 5) =~= be32(n as u32));
            lemma_slice_parts(d, pos, w, 5, 5 + n);
            assert(w.subrange(5, 5 + n) =~= el);
            assert(valid_utf8(el));
            assert(decode_utf8(el) == s);
        },
        ValueView::UUID(b) => {
            assert(w[0] == 5u8);
            lemma_slice_parts(d, pos, w, 1, 17);
            assert(w.subrange(1, 17) =~= b);
        },
        ValueView::Date(se, na) => {
            assert(false);
        },
        ValueView::URI(s) => {
            let el = encode_utf8(s);
            let n = el.len() as int;
            assert(w[0] == 7u8);
            lemma_be32_round(n as u32);
            lemma_slice_parts(d, pos, w, 1, 5);
            assert(w.subrange(1, 5) =~= be32(n as u32));
            lemma_slice_parts(d, pos, w, 5, 5 + n);
            assert(w.subrange(5, 5 + n) =~= el);
            assert(valid_utf8(el));
            assert(decode_utf8(el) == s);
        },
        ValueView::Binary(b) => {
            assert(w[0] == 8u8);
            lemma_be32_round(b.len() as u32);
            lemma_slice_parts(d, pos, w, 1, 5);
            assert(w.subrange(1, 5) =~= be32(b.len() as u32));
            lemma_slice_parts(d, pos, w, 5, 5 + b.len() as int);
            assert(w.subrange(5, 5 + b.len() as int) =~= b);
        },
        ValueView::Array(a) => {
            assert(w[0] == 9u8);
            lemma_be32_round(a.len() as u32);
            lemma_slice_parts(d, pos, w, 1, 5);
            assert(w.subrange(1, 5) =~= be32(a.len() as u32));
            lemma_slice_parts(d, pos, w, 5, w.len() as int);
            assert(w.subrange(5, w.len() as int) =~= bin_enc_seq(a));
            lemma_bin_dec_enc_seq(d, pos + 5, a, dl - 1, me);
        },
        ValueView::Dict(m) => {
            assert(w[0] == 10u8);
            lemma_be32_round(m.len() as u32);
            lemma_slice_parts(d, pos, w, 1, 5);
            assert(w.subrange(1, 5) =~= be32(m.len() as u32));
            lemma_slice_parts(d, pos, w, 5, w.len() as int);
            assert(w.subrange(5, w.len() as int) =~= bin_enc_entries(m));
            lemma_bin_dec_enc_entries(d, pos + 5, m, dl - 1, me, Seq::empty());
            assert(Seq::<(Seq<char>, ValueView)>::empty() + m =~= m);
        },
    }
}

/// The sequence form of [`lemma_bin_dec_enc`].
proof fn lemma_bin_dec_enc_seq(d: Seq<u8>, pos: int, a: Seq<ValueView>, dl: int, me: int)
    requires
        crate::types::wf_seq(a),
        bin_encodable_seq(a),
        date_free_seq(a),
        depth_ok_seq(a, dl),
        elems_ok_seq(a, me),
        0 <= pos,
        pos + bin_enc_seq(a).len() <= d.len(),
        d.subrange(pos, pos + bin_enc_seq(a).len()) == bin_enc_seq(a),
    ensures
        bin_dec_seq(d, pos, dl, me, a.len() as int) == Some((
            a,
            pos + bin_enc_seq(a).len() as int,
        )),
    decreases a, 0int, a.len(),
{
    if a.len() == 0 {
        assert(bin_dec_seq(d, pos, dl, me, 0) == Some((Seq::<ValueView>::empty(), pos)));
        assert(a =~= Seq::<ValueView>::empty());
    } else {
        let w = bin_enc_seq(a);
        let e0 = bin_enc(a[0]);
        let rest = bin_enc_seq(a.drop_first());
        assert(w == e0 + rest);
        lemma_slice_parts(d, pos, w, 0, e0.len() as int);
        assert(w.subrange(0, e0.len() as int) =~= e0);
        assert(d.subrange(pos, pos + e0.len() as int) =~= d.subrange(pos, pos + e0.len()));
        lemma_bin_dec_enc(d, pos, a[0], dl, me);
        lemma_slice_parts(d, pos, w, e0.len() as int, w.len() as int);
        assert(w.subrange(e0.len() as int, w.len() as int) =~= rest);
        lemma_bin_dec_enc_seq(d, pos + e0.len(), a.drop_first(), dl, me);
        assert(e0.len() > 0) by {
            lemma_bin_enc_nonempty(a[0]);
        }
        assert(seq![a[0]] + a.drop_first() =~= a);
    }
}

/// The entries form of [`lemma_bin_dec_enc`]: reading the image of
/// unique-keyed entries folds them, in order, onto any accumulator whose
/// keys are disjoint from theirs.
proof fn lemma_bin_dec_enc_entries(
    d: Seq<u8>,
    pos: int,
    m: Seq<(Seq<char>, ValueView)>,
    dl: int,
    me: int,
    acc: Seq<(Seq<char>, ValueView)>,
)
    requires
        crate::types::wf_entries_vals(m),
        forall|i: int, j: int| 0 <= i < j < m.len() ==> m[i].0 != m[j].0,
        bin_encodable_entries(m),
        date_free_entries(m),
        depth_ok_entries(m, dl),
        elems_ok_entries(m, me),
        0 <= pos,
        pos + bin_enc_entries(m).len() <= d.len(),
        d.subrange(pos, pos + bin_enc_entries(m).len()) == bin_enc_entries(m),
        forall|i: int, j: int| 0 <= i < acc.len() && 0 <= j < m.len()
            ==> (#[trigger] acc[i]).0 != (#[trigger] m[j]).0,
    ensures
        bin_dec_entries(d, pos, dl, me, m.len() as int, acc) == Some((
            acc + m,
            pos + bin_enc_entries(m).len() as int,
        )),
    decreases m, 0int, m.len(),
{
    broadcast use vstd::utf8::encode_utf8_valid_utf8, vstd::utf8::encode_utf8_decode_utf8;

    if m.len() == 0 {
        assert(acc + m =~= acc);
    } else {
        let w = bin_enc_entries(m);
        let kb = encode_utf8(m[0].0);
        let kl = kb.len() as int;
        let e0 = bin_enc(m[0].1);
        let rest = bin_enc_entries(m.drop_first());
        assert(w == be32(kl as u32) + kb + e0 + rest);
        lemma_be32_round(kl as u32);
        lemma_slice_parts(d, pos, w, 0, 4);
        assert(w.subrange(0, 4) =~= be32(kl as u32));
        lemma_slice_parts(d, pos, w, 4, 4 + kl);
        assert(w.subrange(4, 4 + kl) =~= kb);
        assert(valid_utf8(kb));
        assert(decode_utf8(kb) == m[0].0);
        lemma_slice_parts(d, pos, w, 4 + kl, 4 + kl + e0.len() as int);
        assert(w.subrange(4 + kl, 4 + kl + e0.len() as int) =~= e0);
        lemma_bin_dec_enc(d, pos + 4 + kl, m[0].1, dl, me);
        lemma_slice_parts(d, pos, w, 4 + kl + e0.len() as int, w.len() as int);
        assert(w.subrange(4 + kl + e0.len() as int, w.len() as int) =~= rest);
        assert(e0.len() > 0) by {
            lemma_bin_enc_nonempty(m[0].1);
        }
        // the freshly read key is new to the accumulator, so the fold is a push
        assert forall|i: int| 0 <= i < acc.len() implies (#[trigger] acc[i]).0 != m[0].0 by {
            assert(acc[i].0 != m[0].0);
        }
        lemma_dict_set_new(acc, m[0].0, m[0].1);
        assert(dict_set(acc, m[0].0, m[0].1) =~= acc.push((m[0].0, m[0].1)));
        let acc2 = acc.push((m[0].0, m[0].1));
        let d2 = m.drop_first();
        assert(forall|i: int| 0 <= i < d2.len() ==> #[trigger] d2[i] == m[i + 1]);
        assert forall|i: int, j: int|
            0 <= i < acc2.len() && 0 <= j < d2.len() implies (#[trigger] acc2[i]).0
            != (#[trigger] d2[j]).0 by {
            assert(d2[j] == m[j + 1]);
            if i < acc.len() {
                assert(acc2[i] == acc[i]);
            } else {
                assert(acc2[i] == (m[0].0, m[0].1));
                assert(m[0].0 != m[j + 1].0);
            }
        }
        lemma_bin_dec_enc_entries(d, pos + 4 + kl + e0.len(), d2, dl, me, acc2);
        assert((m[0].0, m[0].1) == m[0]);
        assert(acc + m =~= acc2 + d2);
    }
}

/// Every wire image holds at least its tag byte.
proof fn lemma_bin_enc_nonempty(v: ValueView)
    ensures
        bin_enc(v).len() >= 1,
{
}

/// Law: the binary codec round-trips — parsing a serialized document gives
/// back the document.  Holds for every well-formed value whose lengths fit
/// the wire, that is free of date leaves, and that respects the parser's
/// quotas.  Date leaves are excluded wholesale: the wire carries a date as
/// one double, which cannot hold every nanosecond instant, so the law is
/// false for instants the double rounds (seconds plus a few nanoseconds);
/// whole-second dates below 2^53 seconds do round-trip at run time (the
/// date wrappers promise it), but that fact lives in their contracts, not
/// at this spec level, so such dates are excluded here too.  Together with
/// the contracts of `serialize` and `parse`, this says
/// `parse(serialize(doc))` returns a document with the same model.
pub proof fn lemma_binary_round_trip(v: ValueView, max_depth: int, max_elems: int)
    requires
        v.wf(),
        bin_encodable(v),
        date_free(v),
        depth_ok(v, max_depth),
        elems_ok(v, max_elems),
    ensures
        bin_dec(magic_bytes() + bin_enc(v), 4, max_depth, max_elems) == Some((
            v,
            4 + bin_enc(v).len() as int,
        )),
        (magic_bytes() + bin_enc(v)).subrange(0, 4) == magic_bytes(),
{
    let d = magic_bytes() + bin_enc(v);
    assert(d.subrange(0, 4) =~= magic_bytes());
    assert(d.subrange(4, 4 + bin_enc(v).len() as int) =~= bin_enc(v));
    lemma_bin_dec_enc(d, 4, v, max_depth, max_elems);
}

} // verus!
