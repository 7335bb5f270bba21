//! The JSON codec: a lossy-by-default bridge into JSON's smaller type
//! universe, an optional type-preserving tunnel
//! `{ "__type": kind, "value": lexical }` for the four extra kinds, and a
//! best-effort string-recognition heuristic on the read path.  The
//! serializer's compact output is specified exactly by [`json_enc`]; the
//! parser always yields a well-formed value.

use vstd::prelude::*;
use crate::types::{LLSDValue, LLSDDocument, LLSDDate, ValueView, views_of, entry_views_of,
    view_of, lemma_views_of, lemma_entry_views_of, wf_seq, wf_entries, dict_set,
    lemma_dict_set_new, lemma_dict_set_update, lemma_wf_seq, lemma_wf_entries_vals};
use crate::text::{int_text, int_of_text, i32_text_chars, parse_i32_chars};
use crate::uuid_text::{uuid_text, format_uuid, parse_uuid_chars, hex_digit};
use crate::base64_text::base64_of;
use crate::trusted::{real_is_finite, json_real_text_of, rfc3339_of, chrono_range_of,
    real_to_json_text, text_to_real, format_rfc3339_opt, parse_rfc3339, base64_encode,
    base64_decode, uuid_parse_any, chars_string, str_chars, char_from_u32};
use crate::error::LLSDError;

verus! {

broadcast use vstd::string::group_string_axioms, vstd::utf8::char_u32_cast;

/// The escaped form of one JSON string character.
pub open spec fn json_esc_char(c: char) -> Seq<char> {
    if c == '"' {
        "\\\""@
    } else if c == '\\' {
        "\\\\"@
    } else if c == '\u{8}' {
        "\\b"@
    } else if c == '\u{c}' {
        "\\f"@
    } else if c == '\n' {
        "\\n"@
    } else if c == '\r' {
        "\\r"@
    } else if c == '\t' {
        "\\t"@
    } else if (c as u32) < 0x20 {
        "\\u00"@ + seq![hex_digit((c as u32 / 16) as int), hex_digit((c as u32 % 16) as int)]
    } else {
        seq![c]
    }
}

/// The escaped form of a JSON string body.
pub open spec fn json_escape(s: Seq<char>) -> Seq<char>
    decreases s.len(),
{
    if s.len() == 0 {
        Seq::empty()
    } else {
        json_esc_char(s[0]) + json_escape(s.drop_first())
    }
}

/// A quoted JSON string.
pub open spec fn json_quoted(s: Seq<char>) -> Seq<char> {
    seq!['"'] + json_escape(s) + seq!['"']
}

/// The compact JSON image of one value.
pub open spec fn json_enc(v: ValueView, preserve: bool) -> Seq<char>
    decreases v, 1int, 0int,
{
    match v {
        ValueView::Undefined => "null"@,
        ValueView::Boolean(b) => if b {
            "true"@
        } else {
            "false"@
        },
        ValueView::Integer(i) => int_text(i),
        ValueView::Real(bits) => json_real_text_of(bits),
        ValueView::String(s) => json_quoted(s),
        ValueView::UUID(b) => if preserve {
            "{\"__type\":\"uuid\",\"value\":"@ + json_quoted(uuid_text(b)) + "}"@
        } else {
            json_quoted(uuid_text(b))
        },
        ValueView::Date(se, na) => if preserve {
            "{\"__type\":\"date\",\"value\":"@ + json_quoted(rfc3339_of(se, na)) + "}"@
        } else {
            json_quoted(rfc3339_of(se, na))
        },
        ValueView::URI(s) => if preserve {
            "{\"__type\":\"uri\",\"value\":"@ + json_quoted(s) + "}"@
        } else {
            json_quoted(s)
        },
        ValueView::Binary(b) => if preserve {
            "{\"__type\":\"binary\",\"value\":"@ + json_quoted(base64_of(b)) + "}"@
        } else {
            json_quoted(base64_of(b))
        },
        ValueView::Array(a) => seq!['['] + json_enc_seq(a, preserve) + seq![']'],
        ValueView::Dict(m) => seq!['{'] + json_enc_entries(m, preserve) + seq!['}'],
    }
}

/// The comma-separated images of a sequence of values.
pub open spec fn json_enc_seq(a: Seq<ValueView>, preserve: bool) -> Seq<char>
    decreases a, 0int, a.len(),
{
    if a.len() == 0 {
        Seq::empty()
    } else if a.len() == 1 {
        json_enc(a[0], preserve)
    } else {
        json_enc(a[0], preserve) + seq![','] + json_enc_seq(a.drop_first(), preserve)
    }
}

/// The comma-separated images of map entries.
pub open spec fn json_enc_entries(m: Seq<(Seq<char>, ValueView)>, preserve: bool) -> Seq<char>
    decreases m, 0int, m.len(),
{
    if m.len() == 0 {
        Seq::empty()
    } else if m.len() == 1 {
        json_quoted(m[0].0) + seq![':'] + json_enc(m[0].1, preserve)
    } else {
        json_quoted(m[0].0) + seq![':'] + json_enc(m[0].1, preserve) + seq![',']
            + json_enc_entries(m.drop_first(), preserve)
    }
}

/// Whether a value can be written as JSON: every real must be finite and
/// every date a normalized in-range instant.
pub open spec fn json_encodable(v: ValueView) -> bool
    decreases v, 1int, 0int,
{
    match v {
        ValueView::Real(bits) => real_is_finite(bits),
        ValueView::Date(se, na) => 0 <= na < 1_000_000_000 && i64::MIN <= se <= i64::MAX
            && chrono_range_of(se, na),
        ValueView::Array(a) => json_encodable_seq(a),
        ValueView::Dict(m) => json_encodable_entries(m),
        _ => true,
    }
}

/// Encodability of each element of a sequence.
pub open spec fn json_encodable_seq(a: Seq<ValueView>) -> bool
    decreases a, 0int, a.len(),
{
    if a.len() == 0 {
        true
    } else {
        json_encodable(a[0]) && json_encodable_seq(a.drop_first())
    }
}

/// Encodability of map entry values.
pub open spec fn json_encodable_entries(m: Seq<(Seq<char>, ValueView)>) -> bool
    decreases m, 0int, m.len(),
{
    if m.len() == 0 {
        true
    } else {
        json_encodable(m[0].1) && json_encodable_entries(m.drop_first())
    }
}

/// Whether the first leaf the writer cannot encode, in writing order, is a
/// real (`true`, the number failure) rather than a date (`false`, the date
/// failure).  Meaningful only where the value is not encodable.
pub open spec fn json_fail_real(v: ValueView) -> bool
    decreases v, 1int, 0int,
{
    match v {
        ValueView::Real(bits) => true,
        ValueView::Date(se, na) => false,
        ValueView::Array(a) => json_fail_real_seq(a),
        ValueView::Dict(m) => json_fail_real_entries(m),
        _ => true,
    }
}

/// The kind of the first failing element of a sequence.
pub open spec fn json_fail_real_seq(a: Seq<ValueView>) -> bool
    decreases a, 0int, a.len(),
{
    if a.len() == 0 {
        true
    } else if json_encodable(a[0]) {
        json_fail_real_seq(a.drop_first())
    } else {
        json_fail_real(a[0])
    }
}

/// The kind of the first failing value of map entries.
pub open spec fn json_fail_real_entries(m: Seq<(Seq<char>, ValueView)>) -> bool
    decreases m, 0int, m.len(),
{
    if m.len() == 0 {
        true
    } else if json_encodable(m[0].1) {
        json_fail_real_entries(m.drop_first())
    } else {
        json_fail_real(m[0].1)
    }
}

/// The first failing element decides the failure kind of the sequence.
proof fn lemma_json_fail_real_seq_member(s: Seq<ValueView>, i: int)
    requires
        0 <= i < s.len(),
        json_encodable_seq(s.take(i)),
        !json_encodable(s[i]),
    ensures
        json_fail_real_seq(s) == json_fail_real(s[i]),
    decreases i,
{
    if i == 0 {
        assert(!json_encodable(s[0]));
    } else {
        let t = s.take(i);
        assert(t[0] == s[0]);
        assert(json_encodable(s[0]));
        assert(s.drop_first().take(i - 1) =~= t.drop_first());
        assert(s.drop_first()[i - 1] == s[i]);
        lemma_json_fail_real_seq_member(s.drop_first(), i - 1);
    }
}

/// A pretty-printing line break: a newline and two spaces per level,
/// clamped where the count would overflow a machine word, as the writer
/// clamps it.
pub open spec fn json_nl_indent(depth: int) -> Seq<char> {
    seq!['\n'] + crate::utils::spaces(
        if depth * 2 <= usize::MAX as int {
            depth * 2
        } else {
            usize::MAX as int
        },
    )
}

/// The pretty JSON image of one value at an indent depth: leaves print as
/// in [`json_enc`]; containers put each member on a line of its own,
/// indented, and close one level shallower.  The depth changes only the
/// whitespace between tokens, never the tokens themselves.
pub open spec fn json_enc_p(v: ValueView, preserve: bool, depth: int) -> Seq<char>
    decreases v, 1int, 0int,
{
    match v {
        ValueView::Array(a) => seq!['['] + json_enc_seq_p(a, preserve, depth) + (if a.len() > 0 {
            json_nl_indent(crate::xml::drop_depth(depth))
        } else {
            Seq::<char>::empty()
        }) + seq![']'],
        ValueView::Dict(m) => seq!['{'] + json_enc_entries_p(m, preserve, depth) + (if m.len()
            > 0 {
            json_nl_indent(crate::xml::drop_depth(depth))
        } else {
            Seq::<char>::empty()
        }) + seq!['}'],
        _ => json_enc(v, preserve),
    }
}

/// The pretty images of a sequence of values, one line each.
pub open spec fn json_enc_seq_p(a: Seq<ValueView>, preserve: bool, depth: int) -> Seq<char>
    decreases a, 0int, a.len(),
{
    if a.len() == 0 {
        Seq::empty()
    } else if a.len() == 1 {
        json_nl_indent(depth) + json_enc_p(a[0], preserve, crate::xml::bump_depth(depth))
    } else {
        json_nl_indent(depth) + json_enc_p(a[0], preserve, crate::xml::bump_depth(depth))
            + seq![','] + json_enc_seq_p(a.drop_first(), preserve, depth)
    }
}

/// The pretty images of map entries, one line each, a space after each
/// colon.
pub open spec fn json_enc_entries_p(m: Seq<(Seq<char>, ValueView)>, preserve: bool, depth: int)
    -> Seq<char>
    decreases m, 0int, m.len(),
{
    if m.len() == 0 {
        Seq::empty()
    } else if m.len() == 1 {
        json_nl_indent(depth) + json_quoted(m[0].0) + seq![':', ' '] + json_enc_p(
            m[0].1,
            preserve,
            crate::xml::bump_depth(depth),
        )
    } else {
        json_nl_indent(depth) + json_quoted(m[0].0) + seq![':', ' '] + json_enc_p(
            m[0].1,
            preserve,
            crate::xml::bump_depth(depth),
        ) + seq![','] + json_enc_entries_p(m.drop_first(), preserve, depth)
    }
}

/// Appending one value appends its pretty image on its own line.
proof fn lemma_json_enc_seq_p_snoc(a: Seq<ValueView>, x: ValueView, preserve: bool, depth: int)
    ensures
        json_enc_seq_p(a.push(x), preserve, depth) == (if a.len() == 0 {
            json_nl_indent(depth) + json_enc_p(x, preserve, crate::xml::bump_depth(depth))
        } else {
            json_enc_seq_p(a, preserve, depth) + seq![','] + json_nl_indent(depth) + json_enc_p(
                x,
                preserve,
                crate::xml::bump_depth(depth),
            )
        }),
    decreases a.len(),
{
    let p = a.push(x);
    if a.len() == 0 {
        assert(p[0] == x);
        assert(json_enc_seq_p(p, preserve, depth) =~= json_nl_indent(depth) + json_enc_p(
            x,
            preserve,
            crate::xml::bump_depth(depth),
        ));
    } else {
        lemma_json_enc_seq_p_snoc(a.drop_first(), x, preserve, depth);
        assert(p[0] == a[0]);
        assert(p.drop_first() =~= a.drop_first().push(x));
        if a.len() == 1 {
            assert(json_enc_seq_p(p, preserve, depth) =~= json_enc_seq_p(a, preserve, depth)
                + seq![','] + json_nl_indent(depth) + json_enc_p(
                x,
                preserve,
                crate::xml::bump_depth(depth),
            ));
        } else {
            assert(json_enc_seq_p(p, preserve, depth) =~= json_enc_seq_p(a, preserve, depth)
                + seq![','] + json_nl_indent(depth) + json_enc_p(
                x,
                preserve,
                crate::xml::bump_depth(depth),
            ));
        }
    }
}

/// Appending one entry appends its pretty line.
proof fn lemma_json_enc_entries_p_snoc(
    m: Seq<(Seq<char>, ValueView)>,
    e: (Seq<char>, ValueView),
    preserve: bool,
    depth: int,
)
    ensures
        json_enc_entries_p(m.push(e), preserve, depth) == (if m.len() == 0 {
            json_nl_indent(depth) + json_quoted(e.0) + seq![':', ' '] + json_enc_p(
                e.1,
                preserve,
                crate::xml::bump_depth(depth),
            )
        } else {
            json_enc_entries_p(m, preserve, depth) + seq![','] + json_nl_indent(depth)
                + json_quoted(e.0) + seq![':', ' '] + json_enc_p(
                e.1,
                preserve,
                crate::xml::bump_depth(depth),
            )
        }),
    decreases m.len(),
{
    let p = m.push(e);
    if m.len() == 0 {
        assert(p[0] == e);
        assert(json_enc_entries_p(p, preserve, depth) =~= json_nl_indent(depth) + json_quoted(
            e.0,
        ) + seq![':', ' '] + json_enc_p(e.1, preserve, crate::xml::bump_depth(depth)));
    } else {
        lemma_json_enc_entries_p_snoc(m.drop_first(), e, preserve, depth);
        assert(p[0] == m[0]);
        assert(p.drop_first() =~= m.drop_first().push(e));
        assert(json_enc_entries_p(p, preserve, depth) =~= json_enc_entries_p(m, preserve, depth)
            + seq![','] + json_nl_indent(depth) + json_quoted(e.0) + seq![':', ' '] + json_enc_p(
            e.1,
            preserve,
            crate::xml::bump_depth(depth),
        ));
    }
}

/// The first failing entry decides the failure kind of the entries.
proof fn lemma_json_fail_real_entries_member(m: Seq<(Seq<char>, ValueView)>, i: int)
    requires
        0 <= i < m.len(),
        json_encodable_entries(m.take(i)),
        !json_encodable(m[i].1),
    ensures
        json_fail_real_entries(m) == json_fail_real(m[i].1),
    decreases i,
{
    if i == 0 {
        assert(!json_encodable(m[0].1));
    } else {
        let t = m.take(i);
        assert(t[0] == m[0]);
        assert(json_encodable(m[0].1));
        assert(m.drop_first().take(i - 1) =~= t.drop_first());
        assert(m.drop_first()[i - 1] == m[i]);
        lemma_json_fail_real_entries_member(m.drop_first(), i - 1);
    }
}

/// The JSON serializer.
pub struct LLSDJsonSerializer {
    pub pretty_print: bool,
    pub preserve_types: bool,
}

impl LLSDJsonSerializer {
    /// A compact, lossy serializer.
    pub fn new() -> (r: LLSDJsonSerializer)
        ensures
            !r.pretty_print,
            !r.preserve_types,
    {
        LLSDJsonSerializer { pretty_print: false, preserve_types: false }
    }

    /// The same serializer with pretty printing on or off.  Pretty output
    /// is exactly [`json_enc_p`] of the root: the same tokens as compact
    /// output, with line breaks and indentation between them.
    pub fn with_pretty_print(self, pretty: bool) -> (r: LLSDJsonSerializer)
        ensures
            r.pretty_print == pretty,
            r.preserve_types == self.preserve_types,
    {
        LLSDJsonSerializer { pretty_print: pretty, ..self }
    }

    /// The same serializer with the type-preservation tunnel on or off.
    pub fn with_type_preservation(self, preserve: bool) -> (r: LLSDJsonSerializer)
        ensures
            r.pretty_print == self.pretty_print,
            r.preserve_types == preserve,
    {
        LLSDJsonSerializer { preserve_types: preserve, ..self }
    }

    /// The JSON text of a document.  In compact mode the output is exactly
    /// [`json_enc`] of the root; in pretty mode exactly [`json_enc_p`],
    /// the same tokens with line breaks and indentation between them.
    /// Fails exactly when a real is not finite or a date cannot be
    /// rendered: the number failure when the first offending leaf is a
    /// real, the date failure when it is a date.
    pub fn serialize(&self, document: &LLSDDocument) -> (r: Result<String, LLSDError>)
        ensures
            r is Ok <==> json_encodable(document@),
            !self.pretty_print && r is Ok ==> r->Ok_0@ == json_enc(
                document@,
                self.preserve_types,
            ),
            self.pretty_print && r is Ok ==> r->Ok_0@ == json_enc_p(
                document@,
                self.preserve_types,
                1,
            ),
            r matches Err(e) ==> (e is InvalidNumber || e is InvalidDate),
            r matches Err(e) ==> (e is InvalidNumber <==> json_fail_real(document@)),
    {
        let mut out: String = String::new();
        match write_json_value(&mut out, document.content(), self.preserve_types,
            self.pretty_print, 1) {
            Ok(u) => Ok(out),
            Err(e) => Err(e),
        }
    }
}

impl Default for LLSDJsonSerializer {
    /// The default serializer is compact and lossy.
    fn default() -> (r: Self)
        ensures
            !r.pretty_print,
            !r.preserve_types,
    {
        LLSDJsonSerializer::new()
    }
}


/// Escaping distributes over appending one character.
proof fn lemma_json_escape_snoc(s: Seq<char>, c: char)
    ensures
        json_escape(s.push(c)) == json_escape(s) + json_esc_char(c),
    decreases s.len(),
{
    let p = s.push(c);
    if s.len() == 0 {
        assert(p[0] == c);
        assert(p.drop_first() =~= Seq::<char>::empty());
        assert(json_escape(p.drop_first()) =~= Seq::<char>::empty());
        assert(json_escape(p) == json_esc_char(c) + json_escape(p.drop_first()));
        assert(json_escape(p) =~= json_escape(s) + json_esc_char(c));
    } else {
        lemma_json_escape_snoc(s.drop_first(), c);
        assert(p[0] == s[0]);
        assert(p.drop_first() =~= s.drop_first().push(c));
        assert(json_escape(p) == json_esc_char(s[0]) + json_escape(p.drop_first()));
        assert(json_escape(s) == json_esc_char(s[0]) + json_escape(s.drop_first()));
        assert(json_escape(p) =~= json_escape(s) + json_esc_char(c));
    }
}


/// Append a newline and two spaces per level, for pretty output.
#[verifier::loop_isolation(false)]
fn push_json_indent(out: &mut String, depth: usize)
    ensures
        final(out)@ == old(out)@ + json_nl_indent(depth as int),
{
    proof {
        reveal_strlit("\n");
    }
    out.append("\n");
    let mut i: usize = 0;
    let total: usize = match depth.checked_mul(2) {
        Some(t) => t,
        None => usize::MAX,
    };
    let ghost mid = out@;
    proof {
        assert(mid =~= old(out)@ + seq!['\n']);
        assert(out@ =~= mid + crate::utils::spaces(0));
    }
    while i < total
        invariant
            i <= total,
            out@ == mid + crate::utils::spaces(i as int),
        decreases total - i,
    {
        proof {
            reveal_strlit(" ");
            crate::utils::lemma_spaces_snoc(i as int);
        }
        out.append(" ");
        proof {
            assert(out@ =~= mid + crate::utils::spaces(i + 1 as int));
        }
        i = i + 1;
    }
    proof {
        assert(out@ =~= old(out)@ + json_nl_indent(depth as int));
    }
}

/// Append a quoted, escaped JSON string.
#[verifier::loop_isolation(false)]
fn push_json_string(out: &mut String, s: &str)
    ensures
        final(out)@ == old(out)@ + json_quoted(s@),
{
    let raw = str_chars(s);
    proof {
        reveal_strlit("\"");
    }
    out.append("\"");
    let ghost mid0 = out@;
    let mut i: usize = 0;
    while i < raw.len()
        invariant
            i <= raw@.len(),
            raw@ == s@,
            out@ == mid0 + json_escape(raw@.take(i as int)),
            mid0 == old(out)@ + seq!['"'],
        decreases raw@.len() - i,
    {
        let c = raw[i];
        proof {
            lemma_json_escape_snoc(raw@.take(i as int), c);
            assert(raw@.take(i + 1 as int) =~= raw@.take(i as int).push(c));
            reveal_strlit("\\\"");
            reveal_strlit("\\\\");
            reveal_strlit("\\b");
            reveal_strlit("\\f");
            reveal_strlit("\\n");
            reveal_strlit("\\r");
            reveal_strlit("\\t");
            reveal_strlit("\\u00");
        }
        if c == '"' {
            out.append("\\\"");
        } else if c == '\\' {
            out.append("\\\\");
        } else if c == '\u{8}' {
            out.append("\\b");
        } else if c == '\u{c}' {
            out.append("\\f");
        } else if c == '\n' {
            out.append("\\n");
        } else if c == '\r' {
            out.append("\\r");
        } else if c == '\t' {
            out.append("\\t");
        } else if (c as u32) < 0x20 {
            out.append("\\u00");
            let hi = crate::uuid_text::hex_digit_char(((c as u32) / 16) as u8);
            let lo = crate::uuid_text::hex_digit_char(((c as u32) % 16) as u8);
            let mut two: Vec<char> = Vec::new();
            two.push(hi);
            two.push(lo);
            let ts = chars_string(&two);
            out.append(ts.as_str());
        } else {
            let mut one: Vec<char> = Vec::new();
            one.push(c);
            let os = chars_string(&one);
            out.append(os.as_str());
        }
        proof {
            assert(out@ =~= mid0 + json_escape(raw@.take(i + 1 as int)));
        }
        i = i + 1;
    }
    out.append("\"");
    proof {
        reveal_strlit("\"");
        assert(raw@.take(raw@.len() as int) =~= raw@);
        assert(final(out)@ =~= old(out)@ + json_quoted(s@));
    }
}

/// Append the tunnel object for a kind and lexical value.
fn push_tunnel(out: &mut String, kind: &str, value: &str)
    ensures
        final(out)@ == old(out)@ + ("{\"__type\":\""@ + kind@ + "\",\"value\":"@) + json_quoted(
            value@) + "}"@,
{
    out.append("{\"__type\":\"");
    out.append(kind);
    out.append("\",\"value\":");
    push_json_string(out, value);
    out.append("}");
    proof {
        assert(final(out)@ =~= old(out)@ + ("{\"__type\":\""@ + kind@ + "\",\"value\":"@)
            + json_quoted(value@) + "}"@);
    }
}

/// Append the JSON image of one value; exact in compact mode.
#[verifier::rlimit(100)]
fn write_json_value(out: &mut String, v: &LLSDValue, preserve: bool, pretty: bool, depth: usize)
    -> (r: Result<(), LLSDError>)
    ensures
        r is Ok <==> json_encodable(v@),
        r is Ok && !pretty ==> final(out)@ == old(out)@ + json_enc(v@, preserve),
        r is Ok && pretty ==> final(out)@ == old(out)@ + json_enc_p(v@, preserve, depth as int),
        r matches Err(e) ==> (e is InvalidNumber || e is InvalidDate),
        r matches Err(e) ==> (e is InvalidNumber <==> json_fail_real(v@)),
    decreases *v, 1int, 0int,
{
    match v {
        LLSDValue::Undefined => {
            out.append("null");
            Ok(())
        },
        LLSDValue::Boolean(b) => {
            if *b {
                out.append("true");
            } else {
                out.append("false");
            }
            Ok(())
        },
        LLSDValue::Integer(i) => {
            let digits = i32_text_chars(*i);
            let ds = chars_string(&digits);
            out.append(ds.as_str());
            proof {
                assert(final(out)@ =~= old(out)@ + json_enc(v@, preserve));
            }
            Ok(())
        },
        LLSDValue::Real(bits) => {
            match real_to_json_text(*bits) {
                Some(t) => {
                    out.append(t.as_str());
                    proof {
                        assert(final(out)@ =~= old(out)@ + json_enc(v@, preserve));
                    }
                    Ok(())
                },
                None => Err(LLSDError::InvalidNumber),
            }
        },
        LLSDValue::String(s) => {
            push_json_string(out, s.as_str());
            Ok(())
        },
        LLSDValue::UUID(u) => {
            let t = format_uuid(u);
            let ts = chars_string(&t);
            if preserve {
                push_tunnel(out, "uuid", ts.as_str());
                proof {
                        reveal_strlit("uuid");
                        assert(("{\"__type\":\""@ + "uuid"@ + "\",\"value\":"@) =~= (
                        "{\"__type\":\"uuid\",\"value\":"@)) by {
                            reveal_strlit("{\"__type\":\"");
                            reveal_strlit("\",\"value\":");
                            reveal_strlit("{\"__type\":\"uuid\",\"value\":");
                        }
                    assert(final(out)@ =~= old(out)@ + json_enc(v@, preserve));
                }
            } else {
                push_json_string(out, ts.as_str());
                proof {
                    assert(final(out)@ =~= old(out)@ + json_enc(v@, preserve));
                }
            }
            Ok(())
        },
        LLSDValue::Date(d) => {
            if d.nanos >= 1_000_000_000 {
                return Err(LLSDError::InvalidDate { date: ("unnormalized instant").to_owned() });
            }
            match format_rfc3339_opt(d.secs, d.nanos) {
                Some(t) => {
                    if preserve {
                        push_tunnel(out, "date", t.as_str());
                        proof {
                                reveal_strlit("date");
                                assert(("{\"__type\":\""@ + "date"@ + "\",\"value\":"@) =~= (
                        "{\"__type\":\"date\",\"value\":"@)) by {
                            reveal_strlit("{\"__type\":\"");
                            reveal_strlit("\",\"value\":");
                            reveal_strlit("{\"__type\":\"date\",\"value\":");
                        }
                            assert(final(out)@ =~= old(out)@ + json_enc(v@, preserve));
                        }
                    } else {
                        push_json_string(out, t.as_str());
                        proof {
                            assert(final(out)@ =~= old(out)@ + json_enc(v@, preserve));
                        }
                    }
                    Ok(())
                },
                None => Err(LLSDError::InvalidDate { date: ("instant out of range").to_owned() }),
            }
        },
        LLSDValue::URI(s) => {
            if preserve {
                push_tunnel(out, "uri", s.as_str());
                proof {
                        reveal_strlit("uri");
                        assert(("{\"__type\":\""@ + "uri"@ + "\",\"value\":"@) =~= (
                        "{\"__type\":\"uri\",\"value\":"@)) by {
                            reveal_strlit("{\"__type\":\"");
                            reveal_strlit("\",\"value\":");
                            reveal_strlit("{\"__type\":\"uri\",\"value\":");
                        }
                    assert(final(out)@ =~= old(out)@ + json_enc(v@, preserve));
                }
            } else {
                push_json_string(out, s.as_str());
            }
            Ok(())
        },
        LLSDValue::Binary(b) => {
            let t = base64_encode(b);
            if preserve {
                push_tunnel(out, "binary", t.as_str());
                proof {
                        reveal_strlit("binary");
                        assert(("{\"__type\":\""@ + "binary"@ + "\",\"value\":"@) =~= (
                        "{\"__type\":\"binary\",\"value\":"@)) by {
                            reveal_strlit("{\"__type\":\"");
                            reveal_strlit("\",\"value\":");
                            reveal_strlit("{\"__type\":\"binary\",\"value\":");
                        }
                    assert(final(out)@ =~= old(out)@ + json_enc(v@, preserve));
                }
            } else {
                push_json_string(out, t.as_str());
                proof {
                    assert(final(out)@ =~= old(out)@ + json_enc(v@, preserve));
                }
            }
            Ok(())
        },
        LLSDValue::Array(a) => {
            out.append("[");
            let r = write_json_values(out, a, preserve, pretty, depth);
            match r {
                Ok(u) => {
                    if pretty && a.len() > 0 {
                        push_json_indent(
                            out,
                            if depth >= 1 {
                                depth - 1
                            } else {
                                0
                            },
                        );
                    }
                    out.append("]");
                    proof {
                        reveal_strlit("[");
                        reveal_strlit("]");
                        if !pretty {
                            assert(final(out)@ =~= old(out)@ + json_enc(v@, preserve));
                        } else {
                            assert(final(out)@ =~= old(out)@ + json_enc_p(
                                v@,
                                preserve,
                                depth as int,
                            ));
                        }
                    }
                    Ok(())
                },
                Err(e) => Err(e),
            }
        },
        LLSDValue::Dict(m) => {
            out.append("{");
            let r = write_json_entries(out, m, preserve, pretty, depth);
            match r {
                Ok(u) => {
                    if pretty && m.len() > 0 {
                        push_json_indent(
                            out,
                            if depth >= 1 {
                                depth - 1
                            } else {
                                0
                            },
                        );
                    }
                    out.append("}");
                    proof {
                        reveal_strlit("{");
                        reveal_strlit("}");
                        if !pretty {
                            assert(final(out)@ =~= old(out)@ + json_enc(v@, preserve));
                        } else {
                            assert(final(out)@ =~= old(out)@ + json_enc_p(
                                v@,
                                preserve,
                                depth as int,
                            ));
                        }
                    }
                    Ok(())
                },
                Err(e) => Err(e),
            }
        },
    }
}

/// Appending one value extends the comma-separated run.
proof fn lemma_json_enc_seq_snoc(a: Seq<ValueView>, x: ValueView, preserve: bool)
    ensures
        json_enc_seq(a.push(x), preserve) == (if a.len() == 0 {
            json_enc(x, preserve)
        } else {
            json_enc_seq(a, preserve) + seq![','] + json_enc(x, preserve)
        }),
        json_encodable_seq(a.push(x)) == (json_encodable_seq(a) && json_encodable(x)),
    decreases a.len(),
{
    let p = a.push(x);
    if a.len() == 0 {
        assert(p[0] == x);
        assert(p.len() == 1);
        assert(json_enc_seq(p, preserve) == json_enc(x, preserve));
        assert(p.drop_first() =~= Seq::<ValueView>::empty());
        assert(json_encodable_seq(p.drop_first()));
        assert(json_encodable_seq(p) == json_encodable(x));
    } else {
        lemma_json_enc_seq_snoc(a.drop_first(), x, preserve);
        assert(p[0] == a[0]);
        assert(p.drop_first() =~= a.drop_first().push(x));
        assert(p.len() >= 2);
        assert(json_enc_seq(p, preserve) == json_enc(p[0], preserve) + seq![','] + json_enc_seq(
            p.drop_first(), preserve));
        if a.len() == 1 {
            assert(a.drop_first() =~= Seq::<ValueView>::empty());
            assert(json_enc_seq(a, preserve) == json_enc(a[0], preserve));
            assert(json_enc_seq(p.drop_first(), preserve) == json_enc(x, preserve));
            assert(json_enc_seq(p, preserve) =~= json_enc_seq(a, preserve) + seq![','] + json_enc(
                x, preserve));
        } else {
            assert(json_enc_seq(a, preserve) == json_enc(a[0], preserve) + seq![',']
                + json_enc_seq(a.drop_first(), preserve));
            assert(json_enc_seq(p, preserve) =~= json_enc_seq(a, preserve) + seq![','] + json_enc(
                x, preserve));
        }
    }
}

/// Appending one entry extends the comma-separated run.
proof fn lemma_json_enc_entries_snoc(
    m: Seq<(Seq<char>, ValueView)>,
    e: (Seq<char>, ValueView),
    preserve: bool,
)
    ensures
        json_enc_entries(m.push(e), preserve) == (if m.len() == 0 {
            json_quoted(e.0) + seq![':'] + json_enc(e.1, preserve)
        } else {
            json_enc_entries(m, preserve) + seq![','] + json_quoted(e.0) + seq![':'] + json_enc(
                e.1,
                preserve,
            )
        }),
        json_encodable_entries(m.push(e)) == (json_encodable_entries(m) && json_encodable(e.1)),
    decreases m.len(),
{
    let p = m.push(e);
    if m.len() == 0 {
        assert(p[0] == e);
        assert(p.len() == 1);
        assert(json_enc_entries(p, preserve) == json_quoted(e.0) + seq![':'] + json_enc(
            e.1, preserve));
        assert(p.drop_first() =~= Seq::<(Seq<char>, ValueView)>::empty());
        assert(json_encodable_entries(p.drop_first()));
        assert(json_encodable_entries(p) == json_encodable(e.1));
    } else {
        lemma_json_enc_entries_snoc(m.drop_first(), e, preserve);
        assert(p[0] == m[0]);
        assert(p.drop_first() =~= m.drop_first().push(e));
        assert(p.len() >= 2);
        assert(json_enc_entries(p, preserve) == json_quoted(p[0].0) + seq![':'] + json_enc(
            p[0].1, preserve) + seq![','] + json_enc_entries(p.drop_first(), preserve));
        if m.len() == 1 {
            assert(m.drop_first() =~= Seq::<(Seq<char>, ValueView)>::empty());
            assert(json_enc_entries(m, preserve) == json_quoted(m[0].0) + seq![':'] + json_enc(
                m[0].1, preserve));
            assert(json_enc_entries(p.drop_first(), preserve) == json_quoted(e.0) + seq![':']
                + json_enc(e.1, preserve));
            assert(json_enc_entries(p, preserve) =~= json_enc_entries(m, preserve) + seq![',']
                + json_quoted(e.0) + seq![':'] + json_enc(e.1, preserve));
        } else {
            assert(json_enc_entries(m, preserve) == json_quoted(m[0].0) + seq![':'] + json_enc(
                m[0].1, preserve) + seq![','] + json_enc_entries(m.drop_first(), preserve));
            assert(json_enc_entries(p, preserve) =~= json_enc_entries(m, preserve) + seq![',']
                + json_quoted(e.0) + seq![':'] + json_enc(e.1, preserve));
        }
    }
}

/// One element failing makes the whole sequence unencodable.
proof fn lemma_json_encodable_seq_member(s: Seq<ValueView>, i: int)
    requires
        0 <= i < s.len(),
        !json_encodable(s[i]),
    ensures
        !json_encodable_seq(s),
    decreases i,
{
    if i > 0 {
        lemma_json_encodable_seq_member(s.drop_first(), i - 1);
        assert(s.drop_first()[i - 1] == s[i]);
    }
}

/// One entry failing makes the whole map unencodable.
proof fn lemma_json_encodable_entries_member(m: Seq<(Seq<char>, ValueView)>, i: int)
    requires
        0 <= i < m.len(),
        !json_encodable(m[i].1),
    ensures
        !json_encodable_entries(m),
    decreases i,
{
    if i > 0 {
        lemma_json_encodable_entries_member(m.drop_first(), i - 1);
        assert(m.drop_first()[i - 1] == m[i]);
    }
}

/// Comma-separated images of a sequence of values.
#[verifier::rlimit(100)]
fn write_json_values(
    out: &mut String,
    a: &Vec<LLSDValue>,
    preserve: bool,
    pretty: bool,
    depth: usize,
) -> (r: Result<(), LLSDError>)
    ensures
        r is Ok <==> json_encodable_seq(views_of(a@)),
        r is Ok && !pretty ==> final(out)@ == old(out)@ + json_enc_seq(views_of(a@), preserve),
        r is Ok && pretty ==> final(out)@ == old(out)@ + json_enc_seq_p(
            views_of(a@),
            preserve,
            depth as int,
        ),
        r matches Err(e) ==> (e is InvalidNumber || e is InvalidDate),
        r matches Err(e) ==> (e is InvalidNumber <==> json_fail_real_seq(views_of(a@))),
    decreases a@, 0int, a@.len(),
{
    proof {
        lemma_views_of(a@);
    }
    let ghost vs = views_of(a@);
    let ghost base = out@;
    let mut i: usize = 0;
    let mut failed: bool = false;
    let mut err: LLSDError = LLSDError::InvalidNumber;
    while i < a.len()
        invariant
            i <= a@.len(),
            vs == views_of(a@),
            vs.len() == a@.len(),
            forall|j: int| 0 <= j < a@.len() ==> vs[j] == view_of(#[trigger] a@[j]),
            base == old(out)@,
            !failed ==> json_encodable_seq(vs.take(i as int)),
            !failed && !pretty ==> out@ == base + json_enc_seq(vs.take(i as int), preserve),
            !failed && pretty ==> out@ == base + json_enc_seq_p(
                vs.take(i as int),
                preserve,
                depth as int,
            ),
            failed ==> !json_encodable_seq(vs),
            failed ==> (err is InvalidNumber || err is InvalidDate),
            failed ==> (err is InvalidNumber <==> json_fail_real_seq(vs)),
        decreases a@.len() - i,
    {
        if !failed {
            proof {
                reveal_strlit(",");
            }
            if i > 0 {
                out.append(",");
            }
            if pretty {
                push_json_indent(out, depth);
            }
            let w = write_json_value(out, &a[i], preserve, pretty, depth.saturating_add(1));
            proof {
                lemma_json_enc_seq_snoc(vs.take(i as int), vs[i as int], preserve);
                lemma_json_enc_seq_p_snoc(vs.take(i as int), vs[i as int], preserve, depth as int);
                assert(vs.take(i + 1 as int) =~= vs.take(i as int).push(vs[i as int]));
                if w is Ok && pretty {
                    assert(out@ =~= base + json_enc_seq_p(
                        vs.take(i + 1 as int),
                        preserve,
                        depth as int,
                    ));
                }
                if w is Err {
                    lemma_json_encodable_seq_member(vs, i as int);
                    lemma_json_fail_real_seq_member(vs, i as int);
                }
            }
            match w {
                Ok(u) => {
                },
                Err(e) => {
                    failed = true;
                    err = e;
                },
            }
        }
        i = i + 1;
    }
    if failed {
        Err(err)
    } else {
        proof {
            assert(vs.take(vs.len() as int) =~= vs);
        }
        Ok(())
    }
}

/// Comma-separated images of map entries.
#[verifier::rlimit(100)]
fn write_json_entries(
    out: &mut String,
    m: &Vec<(String, LLSDValue)>,
    preserve: bool,
    pretty: bool,
    depth: usize,
) -> (r: Result<(), LLSDError>)
    ensures
        r is Ok <==> json_encodable_entries(entry_views_of(m@)),
        r is Ok && !pretty ==> final(out)@ == old(out)@ + json_enc_entries(
            entry_views_of(m@),
            preserve,
        ),
        r is Ok && pretty ==> final(out)@ == old(out)@ + json_enc_entries_p(
            entry_views_of(m@),
            preserve,
            depth as int,
        ),
        r matches Err(e) ==> (e is InvalidNumber || e is InvalidDate),
        r matches Err(e) ==> (e is InvalidNumber <==> json_fail_real_entries(entry_views_of(m@))),
    decreases m@, 0int, m@.len(),
{
    proof {
        lemma_entry_views_of(m@);
    }
    let ghost es = entry_views_of(m@);
    let ghost base = out@;
    let mut i: usize = 0;
    let mut failed: bool = false;
    let mut err: LLSDError = LLSDError::InvalidNumber;
    while i < m.len()
        invariant
            i <= m@.len(),
            es == entry_views_of(m@),
            es.len() == m@.len(),
            forall|j: int| 0 <= j < m@.len() ==> es[j] == ((#[trigger] m@[j]).0@, view_of(
                m@[j].1)),
            base == old(out)@,
            !failed ==> json_encodable_entries(es.take(i as int)),
            !failed && !pretty ==> out@ == base + json_enc_entries(es.take(i as int), preserve),
            !failed && pretty ==> out@ == base + json_enc_entries_p(
                es.take(i as int),
                preserve,
                depth as int,
            ),
            failed ==> !json_encodable_entries(es),
            failed ==> (err is InvalidNumber || err is InvalidDate),
            failed ==> (err is InvalidNumber <==> json_fail_real_entries(es)),
        decreases m@.len() - i,
    {
        if !failed {
            proof {
                reveal_strlit(",");
                reveal_strlit(":");
                reveal_strlit(" ");
            }
            if i > 0 {
                out.append(",");
            }
            if pretty {
                push_json_indent(out, depth);
            }
            push_json_string(out, m[i].0.as_str());
            out.append(":");
            if pretty {
                out.append(" ");
            }
            proof {
                assert(decreases_to!(m@ => m@[i as int]));
                assert(decreases_to!(m@[i as int] => m@[i as int].1));
            }
            let w = write_json_value(out, &m[i].1, preserve, pretty, depth.saturating_add(1));
            proof {
                lemma_json_enc_entries_snoc(es.take(i as int), es[i as int], preserve);
                lemma_json_enc_entries_p_snoc(
                    es.take(i as int),
                    es[i as int],
                    preserve,
                    depth as int,
                );
                assert(es.take(i + 1 as int) =~= es.take(i as int).push(es[i as int]));
                if w is Ok && pretty {
                    assert(out@ =~= base + json_enc_entries_p(
                        es.take(i + 1 as int),
                        preserve,
                        depth as int,
                    ));
                }
                if w is Err {
                    lemma_json_encodable_entries_member(es, i as int);
                    lemma_json_fail_real_entries_member(es, i as int);
                }
            }
            match w {
                Ok(u) => {
                },
                Err(e) => {
                    failed = true;
                    err = e;
                },
            }
        }
        i = i + 1;
    }
    if failed {
        Err(err)
    } else {
        proof {
            assert(es.take(es.len() as int) =~= es);
        }
        Ok(())
    }
}

} // verus!

verus! {


/// Four hex digits at `p`, as a value.
pub open spec fn hex4_at(c: Seq<char>, p: int) -> Option<u32> {
    if !(0 <= p && p + 4 <= c.len()) {
        None
    } else {
        match crate::uuid_text::hex_val(c[p]) {
            Some(d0) => match crate::uuid_text::hex_val(c[p + 1]) {
                Some(d1) => match crate::uuid_text::hex_val(c[p + 2]) {
                    Some(d2) => match crate::uuid_text::hex_val(c[p + 3]) {
                        Some(d3) => Some((d0 * 4096 + d1 * 256 + d2 * 16 + d3) as u32),
                        None => None,
                    },
                    None => None,
                },
                None => None,
            },
            None => None,
        }
    }
}

/// A JSON string body from just after the opening quote: escapes and
/// surrogate pairs decode; a raw control character or a bad escape reads
/// as nothing.
pub open spec fn jstr_dec(c: Seq<char>, i: int, acc: Seq<char>) -> Option<(Seq<char>, int)>
    decreases c.len() - i,
{
    if i < 0 || i >= c.len() {
        None
    } else if c[i] == '"' {
        Some((acc, i + 1))
    } else if (c[i] as u32) < 0x20 {
        None
    } else if c[i] == '\\' {
        if i + 2 > c.len() {
            None
        } else {
            let e = c[i + 1];
            if e == '"' {
                jstr_dec(c, i + 2, acc.push('"'))
            } else if e == '\\' {
                jstr_dec(c, i + 2, acc.push('\\'))
            } else if e == '/' {
                jstr_dec(c, i + 2, acc.push('/'))
            } else if e == 'b' {
                jstr_dec(c, i + 2, acc.push('\u{8}'))
            } else if e == 'f' {
                jstr_dec(c, i + 2, acc.push('\u{c}'))
            } else if e == 'n' {
                jstr_dec(c, i + 2, acc.push('\n'))
            } else if e == 'r' {
                jstr_dec(c, i + 2, acc.push('\r'))
            } else if e == 't' {
                jstr_dec(c, i + 2, acc.push('\t'))
            } else if e == 'u' {
                match hex4_at(c, i + 2) {
                    Some(u1) => if 0xD800 <= u1 <= 0xDBFF {
                        if i + 12 <= c.len() && c[i + 6] == '\\' && c[i + 7] == 'u' {
                            match hex4_at(c, i + 8) {
                                Some(u2) => if 0xDC00 <= u2 <= 0xDFFF {
                                    let comb = (0x10000 + (u1 - 0xD800) * 0x400 + (u2
                                        - 0xDC00)) as u32;
                                    jstr_dec(c, i + 12, acc.push(comb as char))
                                } else {
                                    None
                                },
                                None => None,
                            }
                        } else {
                            None
                        }
                    } else if u1 < 0xD800 || u1 >= 0xE000 {
                        jstr_dec(c, i + 6, acc.push(u1 as char))
                    } else {
                        None
                    },
                    None => None,
                }
            } else {
                None
            }
        }
    } else {
        jstr_dec(c, i + 1, acc.push(c[i]))
    }
}

/// The end of a run of decimal digits from `i` on.
pub open spec fn digits_end(c: Seq<char>, i: int) -> int
    decreases c.len() - i,
{
    if 0 <= i && i < c.len() && '0' <= c[i] <= '9' {
        digits_end(c, i + 1)
    } else {
        i
    }
}

/// A JSON number at `pos`: integer literals in the 32-bit range read as
/// integers, everything else as reals; a non-finite result reads as
/// nothing.
pub open spec fn jnum_dec(c: Seq<char>, pos: int) -> Option<(ValueView, int)> {
    if !(0 <= pos < c.len()) {
        None
    } else {
        let d0 = if c[pos] == '-' {
            pos + 1
        } else {
            pos
        };
        if d0 >= c.len() || !('0' <= c[d0] <= '9') {
            None
        } else {
            let int_end = if c[d0] == '0' {
                d0 + 1
            } else {
                digits_end(c, d0)
            };
            let frac_ok_end = if int_end < c.len() && c[int_end] == '.' {
                if int_end + 1 >= c.len() || !('0' <= c[int_end + 1] <= '9') {
                    None
                } else {
                    Some(digits_end(c, int_end + 1))
                }
            } else {
                Some(int_end)
            };
            match frac_ok_end {
                None => None,
                Some(fe) => {
                    let exp_ok_end = if fe < c.len() && (c[fe] == 'e' || c[fe] == 'E') {
                        let sp = if fe + 1 < c.len() && (c[fe + 1] == '+' || c[fe + 1] == '-') {
                            fe + 2
                        } else {
                            fe + 1
                        };
                        if sp >= c.len() || !('0' <= c[sp] <= '9') {
                            None
                        } else {
                            Some(digits_end(c, sp))
                        }
                    } else {
                        Some(fe)
                    };
                    match exp_ok_end {
                        None => None,
                        Some(end) => {
                            let text = c.subrange(pos, end);
                            let is_integer = end == int_end;
                            if is_integer && (match int_of_text(text) {
                                Some(n) => -0x8000_0000 <= n <= 0x7FFF_FFFF,
                                None => false,
                            }) {
                                Some((ValueView::Integer(int_of_text(text)->0), end))
                            } else {
                                match crate::trusted::real_parse_of(text) {
                                    Some(bits) => if real_is_finite(bits) {
                                        Some((ValueView::Real(bits), end))
                                    } else {
                                        None
                                    },
                                    None => None,
                                }
                            }
                        },
                    }
                },
            }
        }
    }
}

/// The number of `-` characters from `i` on, counted onto `n`.
pub open spec fn dash_count(s: Seq<char>, i: int, n: int) -> int
    decreases s.len() - i,
{
    if i < 0 || i >= s.len() {
        n
    } else if s[i] == '-' {
        dash_count(s, i + 1, n + 1)
    } else {
        dash_count(s, i + 1, n)
    }
}

/// Whether a text carries `://` somewhere before its last two characters.
pub open spec fn has_scheme(s: Seq<char>) -> bool {
    exists|i: int| 0 <= i && i + 2 < s.len() && #[trigger] s[i] == ':' && s[i + 1] == '/' && s[i
        + 2] == '/'
}

/// The string-recognition heuristic: UUID shape (or any UUID in strict
/// mode), then RFC 3339 date, then URI scheme, then plain string.
pub open spec fn classify_spec(raw: Seq<char>, strict: bool) -> ValueView {
    if strict && crate::trusted::uuid_any_parse_of(raw) is Some {
        ValueView::UUID(crate::trusted::uuid_any_parse_of(raw)->0)
    } else if !strict && raw.len() == 36 && dash_count(raw, 0, 0) == 4
        && crate::uuid_text::uuid_parse(raw) is Some {
        ValueView::UUID(crate::uuid_text::uuid_parse(raw)->0)
    } else {
        classify_rest(raw)
    }
}

/// The date, URI and plain-string tail of the heuristic.
pub open spec fn classify_rest(raw: Seq<char>) -> ValueView {
    match crate::trusted::rfc3339_parse_of(raw) {
        Some(p) => ValueView::Date(p.0 as int, p.1 as int),
        None => if has_scheme(raw) || crate::xml::lit_at(raw, 0, "http:"@) || crate::xml::lit_at(
            raw,
            0,
            "https:"@,
        ) || crate::xml::lit_at(raw, 0, "ftp:"@) {
            ValueView::URI(raw)
        } else {
            ValueView::String(raw)
        },
    }
}

/// The view of an optional raw text.
pub open spec fn opt_view(o: Option<String>) -> Option<Seq<char>> {
    match o {
        Some(s) => Some(s@),
        None => None,
    }
}

/// The decoder the JSON value parser is held to.
pub open spec fn json_dec_value(c: Seq<char>, pos: int, strict: bool) -> Option<
    (ValueView, int),
>
    decreases c.len() - pos, 0int,
{
    let i = crate::xml::ws_end(c, pos);
    if !(pos <= i <= c.len()) {
        None
    } else if i >= c.len() {
        None
    } else if c[i] == 'n' {
        if crate::xml::lit_at(c, i, "null"@) {
            Some((ValueView::Undefined, i + 4))
        } else {
            None
        }
    } else if c[i] == 't' {
        if crate::xml::lit_at(c, i, "true"@) {
            Some((ValueView::Boolean(true), i + 4))
        } else {
            None
        }
    } else if c[i] == 'f' {
        if crate::xml::lit_at(c, i, "false"@) {
            Some((ValueView::Boolean(false), i + 5))
        } else {
            None
        }
    } else if c[i] == '"' {
        match jstr_dec(c, i + 1, Seq::empty()) {
            Some(p) => Some((classify_spec(p.0, strict), p.1)),
            None => None,
        }
    } else if c[i] == '[' {
        json_dec_array(c, i + 1, strict, Seq::empty(), true)
    } else if c[i] == '{' {
        json_dec_object(c, i + 1, strict, Seq::empty(), true, None, None)
    } else if c[i] == '-' || ('0' <= c[i] <= '9') {
        jnum_dec(c, i)
    } else {
        None
    }
}

/// Array elements up to the closing bracket, folded onto those read.
pub open spec fn json_dec_array(
    c: Seq<char>,
    cur: int,
    strict: bool,
    acc: Seq<ValueView>,
    first: bool,
) -> Option<(ValueView, int)>
    decreases c.len() - cur, 1int,
{
    let i = crate::xml::ws_end(c, cur);
    if !(cur <= i <= c.len()) {
        None
    } else if i >= c.len() {
        None
    } else if c[i] == ']' {
        if acc.len() > 0 && first {
            None
        } else {
            Some((ValueView::Array(acc), i + 1))
        }
    } else if !first {
        if c[i] != ',' {
            None
        } else {
            match json_dec_value(c, i + 1, strict) {
                Some(p) => if cur < p.1 <= c.len() {
                    json_dec_array(c, p.1, strict, acc.push(p.0), false)
                } else {
                    None
                },
                None => None,
            }
        }
    } else {
        match json_dec_value(c, i, strict) {
            Some(p) => if cur < p.1 <= c.len() {
                json_dec_array(c, p.1, strict, acc.push(p.0), false)
            } else {
                None
            },
            None => None,
        }
    }
}

/// The end of a two-member tunnel object, or the plain map.
pub open spec fn json_dec_finish_object(
    acc: Seq<(Seq<char>, ValueView)>,
    rt: Option<Seq<char>>,
    rv: Option<Seq<char>>,
    end: int,
) -> Option<(ValueView, int)> {
    if acc.len() == 2 && rt is Some && rv is Some {
        let th = rt->0;
        let lex = rv->0;
        if th == "uuid"@ && crate::trusted::uuid_any_parse_of(lex) is Some {
            Some((ValueView::UUID(crate::trusted::uuid_any_parse_of(lex)->0), end))
        } else if th == "date"@ && crate::trusted::rfc3339_parse_of(lex) is Some {
            let p = crate::trusted::rfc3339_parse_of(lex)->0;
            Some((ValueView::Date(p.0 as int, p.1 as int), end))
        } else if th == "uri"@ {
            Some((ValueView::URI(lex), end))
        } else if th == "binary"@ && crate::trusted::base64_decode_of(lex) is Some {
            Some((ValueView::Binary(crate::trusted::base64_decode_of(lex)->0), end))
        } else {
            Some((ValueView::Dict(acc), end))
        }
    } else {
        Some((ValueView::Dict(acc), end))
    }
}

/// Object members up to the closing brace, folded onto those read; a
/// repeated key overwrites in place, and the raw texts of the two tunnel
/// keys ride along for the tunnel check at the brace.
pub open spec fn json_dec_object(
    c: Seq<char>,
    cur: int,
    strict: bool,
    acc: Seq<(Seq<char>, ValueView)>,
    first: bool,
    rt: Option<Seq<char>>,
    rv: Option<Seq<char>>,
) -> Option<(ValueView, int)>
    decreases c.len() - cur, 1int,
{
    let i0 = crate::xml::ws_end(c, cur);
    if !(cur <= i0 <= c.len()) {
        None
    } else if i0 >= c.len() {
        None
    } else if c[i0] == '}' {
        if acc.len() > 0 && first {
            None
        } else {
            json_dec_finish_object(acc, rt, rv, i0 + 1)
        }
    } else {
        let i = if !first {
            if c[i0] != ',' {
                c.len() + 1 as int
            } else {
                crate::xml::ws_end(c, i0 + 1)
            }
        } else {
            i0
        };
        if !(cur <= i <= c.len()) {
            None
        } else if i >= c.len() || c[i] != '"' {
            None
        } else {
            match jstr_dec(c, i + 1, Seq::empty()) {
                Some(kp) => {
                    let j = crate::xml::ws_end(c, kp.1);
                    if !(0 <= j) || j >= c.len() || c[j] != ':' {
                        None
                    } else {
                        let k = crate::xml::ws_end(c, j + 1);
                        if !(cur <= k <= c.len()) {
                            None
                        } else if k < c.len() && c[k] == '"' {
                            match jstr_dec(c, k + 1, Seq::empty()) {
                                Some(sp) => {
                                    let rt2 = if kp.0 == "__type"@ {
                                        Some(sp.0)
                                    } else {
                                        rt
                                    };
                                    let rv2 = if kp.0 == "value"@ {
                                        Some(sp.0)
                                    } else {
                                        rv
                                    };
                                    if cur < sp.1 <= c.len() {
                                        json_dec_object(
                                            c,
                                            sp.1,
                                            strict,
                                            dict_set(acc, kp.0, classify_spec(sp.0, strict)),
                                            false,
                                            rt2,
                                            rv2,
                                        )
                                    } else {
                                        None
                                    }
                                },
                                None => None,
                            }
                        } else {
                            match json_dec_value(c, k, strict) {
                                Some(p) => {
                                    let rt2 = if kp.0 == "__type"@ {
                                        None
                                    } else {
                                        rt
                                    };
                                    let rv2 = if kp.0 == "value"@ {
                                        None
                                    } else {
                                        rv
                                    };
                                    if cur < p.1 <= c.len() {
                                        json_dec_object(
                                            c,
                                            p.1,
                                            strict,
                                            dict_set(acc, kp.0, p.0),
                                            false,
                                            rt2,
                                            rv2,
                                        )
                                    } else {
                                        None
                                    }
                                },
                                None => None,
                            }
                        }
                    }
                },
                None => None,
            }
        }
    }
}

/// The decoder the JSON document parser is held to: one value, then only
/// whitespace to the end.
pub open spec fn json_dec_document(s: Seq<char>, strict: bool) -> Option<ValueView> {
    match json_dec_value(s, 0, strict) {
        Some(p) => if crate::xml::ws_end(s, p.1) == s.len() {
            Some(p.0)
        } else {
            None
        },
        None => None,
    }
}

/// The JSON parser.
pub struct LLSDJsonParser {
    pub strict_uuid_parsing: bool,
}

impl LLSDJsonParser {
    /// A parser with the strict UUID mode off: only 36-character
    /// hyphenated strings read as UUIDs.
    pub fn new() -> (r: LLSDJsonParser)
        ensures
            !r.strict_uuid_parsing,
    {
        LLSDJsonParser { strict_uuid_parsing: false }
    }

    /// The same parser with strict UUID parsing set as given: when on, any
    /// string the UUID grammar accepts reads as a UUID.
    pub fn with_strict_uuid_parsing(self, strict: bool) -> (r: LLSDJsonParser)
        ensures
            r.strict_uuid_parsing == strict,
    {
        LLSDJsonParser { strict_uuid_parsing: strict }
    }

    /// Parse an LLSD document from JSON text, exactly as the decoder
    /// [`json_dec_document`] reads it: numbers in the 32-bit integer range
    /// read as integers and all others as reals; strings read through the
    /// recognition heuristic; objects with exactly the two keys of the
    /// type-preservation tunnel decode to the tunnelled kind, and fall
    /// back to plain maps when malformed.  Every parsed value is well
    /// formed.
    #[verifier::loop_isolation(false)]
    pub fn parse(&self, json: &str) -> (r: Result<LLSDDocument, LLSDError>)
        ensures
            r is Ok <==> json_dec_document(json@, self.strict_uuid_parsing) is Some,
            r matches Ok(doc) ==> Some(doc@) == json_dec_document(
                json@,
                self.strict_uuid_parsing,
            ) && doc@.wf(),
            r matches Err(e) ==> (e is JsonError || e is InvalidNumber),
    {
        let c = str_chars(json);
        let p = match parse_json_value(&c, 0, self.strict_uuid_parsing) {
            Ok(p) => p,
            Err(e) => {
                return Err(e);
            },
        };
        let after = crate::xml::skip_ws(&c, p.1);
        if after != c.len() {
            return Err(LLSDError::JsonError {
                message: ("trailing characters after the document").to_owned(),
            });
        }
        Ok(LLSDDocument::new(p.0))
    }
}

impl Default for LLSDJsonParser {
    /// The default parser keeps strict UUID parsing off.
    fn default() -> (r: Self)
        ensures
            !r.strict_uuid_parsing,
    {
        LLSDJsonParser::new()
    }
}

/// Classify a string read from JSON, per the recognition heuristic.
/// Agrees exactly with [`classify_spec`].
#[verifier::loop_isolation(false)]
fn classify_string(raw: Vec<char>, strict_uuid: bool) -> (r: LLSDValue)
    ensures
        r@.wf(),
        r@ == classify_spec(raw@, strict_uuid),
{
    if strict_uuid {
        let rs = chars_string(&raw);
        match uuid_parse_any(rs.as_str()) {
            Some(u) => {
                return LLSDValue::UUID(u);
            },
            None => {
            },
        }
    } else {
        if raw.len() == 36 {
            let mut dashes: usize = 0;
            let mut i: usize = 0;
            while i < raw.len()
                invariant
                    i <= raw@.len(),
                    dashes <= i,
                    dash_count(raw@, 0, 0) == dash_count(raw@, i as int, dashes as int),
                decreases raw@.len() - i,
            {
                if raw[i] == '-' {
                    dashes = dashes + 1;
                }
                i = i + 1;
            }
            proof {
                assert(dash_count(raw@, 0, 0) == dashes);
            }
            if dashes == 4 {
                match parse_uuid_chars(&raw) {
                    Some(u) => {
                        return LLSDValue::UUID(u);
                    },
                    None => {
                    },
                }
            }
        }
    }
    let rs = chars_string(&raw);
    match parse_rfc3339(rs.as_str()) {
        Some(p) => {
            return LLSDValue::Date(LLSDDate { secs: p.0, nanos: p.1 });
        },
        None => {
        },
    }
    let mut scheme: bool = false;
    if raw.len() >= 3 {
        let limit = raw.len() - 2;
        let mut i: usize = 0;
        while i < limit
            invariant
                i <= limit,
                limit + 2 == raw@.len(),
                scheme ==> has_scheme(raw@),
                !scheme ==> forall|j: int| 0 <= j < i ==> !(#[trigger] raw@[j] == ':' && raw@[j
                    + 1] == '/' && raw@[j + 2] == '/'),
            decreases limit - i,
        {
            if raw[i] == ':' && raw[i + 1] == '/' && raw[i + 2] == '/' {
                scheme = true;
                proof {
                    assert(has_scheme(raw@));
                }
                break ;
            }
            i = i + 1;
        }
        proof {
            if !scheme {
                assert(i == limit);
            }
        }
        proof {
            if !scheme {
                assert(!has_scheme(raw@)) by {
                    if has_scheme(raw@) {
                        let j = choose|j: int|
                            0 <= j && j + 2 < raw@.len() && #[trigger] raw@[j] == ':' && raw@[j
                                + 1] == '/' && raw@[j + 2] == '/';
                        assert(!(raw@[j] == ':' && raw@[j + 1] == '/' && raw@[j + 2] == '/'));
                    }
                }
            }
        }
    } else {
        proof {
            assert(!has_scheme(raw@)) by {
                if has_scheme(raw@) {
                    let j = choose|j: int|
                        0 <= j && j + 2 < raw@.len() && #[trigger] raw@[j] == ':' && raw@[j + 1]
                            == '/' && raw@[j + 2] == '/';
                }
            }
        }
    }
    if scheme || crate::xml::starts_with_lit(&raw, 0, "http:") || crate::xml::starts_with_lit(
        &raw,
        0,
        "https:",
    ) || crate::xml::starts_with_lit(&raw, 0, "ftp:") {
        proof {
            assert(crate::trusted::rfc3339_parse_of(raw@) is None);
            if scheme {
                assert(has_scheme(raw@));
            }
            assert(classify_spec(raw@, strict_uuid) == classify_rest(raw@));
            assert(classify_rest(raw@) == ValueView::URI(raw@));
        }
        return LLSDValue::URI(rs);
    }
    LLSDValue::String(rs)
}

/// Read a JSON string body starting after the opening quote.
#[verifier::loop_isolation(false)]
fn lex_json_string(c: &Vec<char>, pos: usize) -> (r: Result<(Vec<char>, usize), LLSDError>)
    requires
        pos <= c@.len(),
    ensures
        r matches Ok(p) ==> pos < p.1 <= c@.len() && jstr_dec(c@, pos as int, Seq::empty())
            == Some((p.0@, p.1 as int)),
        r is Err ==> jstr_dec(c@, pos as int, Seq::empty()) is None,
        r matches Err(e) ==> e is JsonError,
{
    let mut out: Vec<char> = Vec::new();
    let mut i: usize = pos;
    while i < c.len()
        invariant
            pos <= i <= c@.len(),
            jstr_dec(c@, pos as int, Seq::empty()) == jstr_dec(c@, i as int, out@),
        decreases c@.len() - i,
    {
        let ch = c[i];
        if ch == '"' {
            return Ok((out, i + 1));
        }
        if (ch as u32) < 0x20 {
            return Err(LLSDError::JsonError {
                message: ("a control character inside a string").to_owned(),
            });
        }
        if ch == '\\' {
            if c.len() - i < 2 {
                return Err(LLSDError::JsonError {
                    message: ("unterminated escape").to_owned(),
                });
            }
            let e = c[i + 1];
            if e == '"' {
                out.push('"');
                i = i + 2;
            } else if e == '\\' {
                out.push('\\');
                i = i + 2;
            } else if e == '/' {
                out.push('/');
                i = i + 2;
            } else if e == 'b' {
                out.push('\u{8}');
                i = i + 2;
            } else if e == 'f' {
                out.push('\u{c}');
                i = i + 2;
            } else if e == 'n' {
                out.push('\n');
                i = i + 2;
            } else if e == 'r' {
                out.push('\r');
                i = i + 2;
            } else if e == 't' {
                out.push('\t');
                i = i + 2;
            } else if e == 'u' {
                let u1 = match lex_hex4(c, i + 2) {
                    Ok(v) => v,
                    Err(er) => {
                        return Err(er);
                    },
                };
                if 0xD800 <= u1 && u1 <= 0xDBFF {
                    // a high surrogate must pair with a low one
                    if c.len() - i >= 12 && c[i + 6] == '\\' && c[i + 7] == 'u' {
                        let u2 = match lex_hex4(c, i + 8) {
                            Ok(v) => v,
                            Err(er) => {
                                return Err(er);
                            },
                        };
                        if 0xDC00 <= u2 && u2 <= 0xDFFF {
                            let combined: u32 = 0x10000 + (u1 - 0xD800) * 0x400 + (u2 - 0xDC00);
                            match char_from_u32(combined) {
                                Some(ch2) => {
                                    proof {
                                        vstd::utf8::char_u32_cast(ch2, combined);
                                        assert(ch2 == (combined as char));
                                    }
                                    out.push(ch2);
                                    i = i + 12;
                                },
                                None => {
                                    return Err(LLSDError::JsonError {
                                        message: ("an invalid surrogate pair").to_owned(),
                                    });
                                },
                            }
                        } else {
                            return Err(LLSDError::JsonError {
                                message: ("an unpaired surrogate").to_owned(),
                            });
                        }
                    } else {
                        return Err(LLSDError::JsonError {
                            message: ("an unpaired surrogate").to_owned(),
                        });
                    }
                } else {
                    match char_from_u32(u1) {
                        Some(ch2) => {
                            proof {
                                vstd::utf8::char_u32_cast(ch2, u1);
                                assert(ch2 == (u1 as char));
                            }
                            out.push(ch2);
                            i = i + 6;
                        },
                        None => {
                            return Err(LLSDError::JsonError {
                                message: ("an invalid escaped character").to_owned(),
                            });
                        },
                    }
                }
            } else {
                return Err(LLSDError::JsonError {
                    message: ("an unknown escape").to_owned(),
                });
            }
        } else {
            out.push(ch);
            i = i + 1;
        }
    }
    proof {
        assert(jstr_dec(c@, i as int, out@) is None);
    }
    Err(LLSDError::JsonError { message: ("unterminated string").to_owned() })
}

/// Read four hex digits as a value.
fn lex_hex4(c: &Vec<char>, pos: usize) -> (r: Result<u32, LLSDError>)
    requires
        pos <= c@.len(),
    ensures
        r matches Ok(v) ==> v < 0x1_0000 && hex4_at(c@, pos as int) == Some(v),
        r is Ok ==> pos + 4 <= c@.len(),
        r is Err ==> hex4_at(c@, pos as int) is None,
        r matches Err(e) ==> e is JsonError,
{
    if c.len() - pos < 4 {
        return Err(LLSDError::JsonError { message: ("a short unicode escape").to_owned() });
    }
    let d0 = match crate::uuid_text::hex_char_val(c[pos]) {
        Some(d) => d,
        None => {
            return Err(LLSDError::JsonError {
                message: ("a malformed unicode escape").to_owned(),
            });
        },
    };
    let d1 = match crate::uuid_text::hex_char_val(c[pos + 1]) {
        Some(d) => d,
        None => {
            return Err(LLSDError::JsonError {
                message: ("a malformed unicode escape").to_owned(),
            });
        },
    };
    let d2 = match crate::uuid_text::hex_char_val(c[pos + 2]) {
        Some(d) => d,
        None => {
            return Err(LLSDError::JsonError {
                message: ("a malformed unicode escape").to_owned(),
            });
        },
    };
    let d3 = match crate::uuid_text::hex_char_val(c[pos + 3]) {
        Some(d) => d,
        None => {
            return Err(LLSDError::JsonError {
                message: ("a malformed unicode escape").to_owned(),
            });
        },
    };
    Ok((d0 as u32) * 4096 + (d1 as u32) * 256 + (d2 as u32) * 16 + (d3 as u32))
}

/// Parse one JSON value at `pos` (leading whitespace allowed).
#[verifier::loop_isolation(false)]
fn parse_json_value(c: &Vec<char>, pos: usize, strict_uuid: bool) -> (r: Result<
    (LLSDValue, usize),
    LLSDError,
>)
    requires
        pos <= c@.len(),
    ensures
        r matches Ok(p) ==> p.0@.wf() && pos < p.1 <= c@.len() && json_dec_value(
            c@,
            pos as int,
            strict_uuid,
        ) == Some((p.0@, p.1 as int)),
        r is Err ==> json_dec_value(c@, pos as int, strict_uuid) is None,
        r matches Err(e) ==> (e is JsonError || e is InvalidNumber),
    decreases c@.len() - pos, 0int,
{
    proof {
        reveal_strlit("null");
        reveal_strlit("true");
        reveal_strlit("false");
    }
    let i = crate::xml::skip_ws(c, pos);
    if i >= c.len() {
        return Err(LLSDError::JsonError { message: ("unexpected end of text").to_owned() });
    }
    let ch = c[i];
    if ch == 'n' {
        if crate::xml::starts_with_lit(c, i, "null") {
            Ok((LLSDValue::Undefined, i + 4))
        } else {
            Err(LLSDError::JsonError { message: ("an unknown literal").to_owned() })
        }
    } else if ch == 't' {
        if crate::xml::starts_with_lit(c, i, "true") {
            Ok((LLSDValue::Boolean(true), i + 4))
        } else {
            Err(LLSDError::JsonError { message: ("an unknown literal").to_owned() })
        }
    } else if ch == 'f' {
        if crate::xml::starts_with_lit(c, i, "false") {
            Ok((LLSDValue::Boolean(false), i + 5))
        } else {
            Err(LLSDError::JsonError { message: ("an unknown literal").to_owned() })
        }
    } else if ch == '"' {
        let s = match lex_json_string(c, i + 1) {
            Ok(p) => p,
            Err(e) => {
                return Err(e);
            },
        };
        Ok((classify_string(s.0, strict_uuid), s.1))
    } else if ch == '[' {
        parse_json_array(c, i + 1, strict_uuid)
    } else if ch == '{' {
        parse_json_object(c, i + 1, strict_uuid)
    } else if ch == '-' || ('0' <= ch && ch <= '9') {
        parse_json_number(c, i)
    } else {
        Err(LLSDError::JsonError { message: ("an unexpected character").to_owned() })
    }
}

/// A digit run never moves backward.
proof fn lemma_digits_end_ge(c: Seq<char>, i: int)
    ensures
        digits_end(c, i) >= i,
    decreases c.len() - i,
{
    if 0 <= i && i < c.len() && '0' <= c[i] <= '9' {
        lemma_digits_end_ge(c, i + 1);
    }
}

/// The end of a digit run, executable.
#[verifier::loop_isolation(false)]
fn digits_to(c: &Vec<char>, i: usize) -> (r: usize)
    requires
        i <= c@.len(),
    ensures
        i <= r <= c@.len(),
        r == digits_end(c@, i as int),
{
    let mut j: usize = i;
    while j < c.len()
        invariant
            i <= j <= c@.len(),
            digits_end(c@, i as int) == digits_end(c@, j as int),
        decreases c@.len() - j,
    {
        let d = c[j];
        if d < '0' || d > '9' {
            return j;
        }
        j = j + 1;
    }
    j
}

/// Parse a JSON number: in-range integer literals read as integers, all
/// other numbers as reals; non-finite results are refused.  Agrees exactly
/// with [`jnum_dec`].
#[verifier::loop_isolation(false)]
fn parse_json_number(c: &Vec<char>, pos: usize) -> (r: Result<(LLSDValue, usize), LLSDError>)
    requires
        pos < c@.len(),
    ensures
        r matches Ok(p) ==> p.0@.wf() && pos < p.1 <= c@.len() && jnum_dec(c@, pos as int)
            == Some((p.0@, p.1 as int)),
        r is Err ==> jnum_dec(c@, pos as int) is None,
        r matches Err(e) ==> (e is JsonError || e is InvalidNumber),
{
    let n = c.len();
    let d0: usize = if c[pos] == '-' {
        pos + 1
    } else {
        pos
    };
    if d0 >= c.len() || c[d0] < '0' || c[d0] > '9' {
        return Err(LLSDError::JsonError { message: ("a malformed number").to_owned() });
    }
    let int_end: usize = if c[d0] == '0' {
        d0 + 1
    } else {
        digits_to(c, d0)
    };
    proof {
        if c@[d0 as int] != '0' {
            lemma_digits_end_ge(c@, d0 + 1);
            assert(digits_end(c@, d0 as int) == digits_end(c@, d0 + 1));
        }
        assert(int_end > d0);
    }
    let mut end: usize = int_end;
    if end < c.len() && c[end] == '.' {
        if end + 1 >= c.len() || c[end + 1] < '0' || c[end + 1] > '9' {
            return Err(LLSDError::JsonError { message: ("a malformed number").to_owned() });
        }
        end = digits_to(c, end + 1);
    }
    if end < c.len() && (c[end] == 'e' || c[end] == 'E') {
        let sp: usize = if end + 1 < c.len() && (c[end + 1] == '+' || c[end + 1] == '-') {
            end + 2
        } else {
            end + 1
        };
        if sp >= c.len() || c[sp] < '0' || c[sp] > '9' {
            return Err(LLSDError::JsonError { message: ("a malformed number").to_owned() });
        }
        end = digits_to(c, sp);
    }
    let text = crate::types::copy_char_range(c, pos, end);
    proof {
        assert(text@ == c@.subrange(pos as int, end as int));
    }
    let is_integer: bool = end == int_end;
    if is_integer {
        match parse_i32_chars(&text) {
            Some(v) => {
                proof {
                    assert(jnum_dec(c@, pos as int) == Some((
                        ValueView::Integer(v as int),
                        end as int,
                    )));
                }
                return Ok((LLSDValue::Integer(v), end));
            },
            None => {
            },
        }
    }
    let ts = chars_string(&text);
    match text_to_real(ts.as_str()) {
        Some(bits) => {
            if (bits >> 52u64) & 0x7FFu64 != 0x7FFu64 {
                proof {
                    assert(real_is_finite(bits));
                    assert(jnum_dec(c@, pos as int) == Some((ValueView::Real(bits), end as int)));
                }
                Ok((LLSDValue::Real(bits), end))
            } else {
                proof {
                    assert(!real_is_finite(bits));
                    assert(jnum_dec(c@, pos as int) is None);
                }
                Err(LLSDError::InvalidNumber)
            }
        },
        None => {
            proof {
                assert(crate::trusted::real_parse_of(text@) is None);
                assert(jnum_dec(c@, pos as int) is None);
            }
            Err(LLSDError::JsonError { message: ("a malformed number").to_owned() })
        },
    }
}

/// Parse array elements until the closing bracket.
#[verifier::loop_isolation(false)]
fn parse_json_array(c: &Vec<char>, pos: usize, strict_uuid: bool) -> (r: Result<
    (LLSDValue, usize),
    LLSDError,
>)
    requires
        pos <= c@.len(),
    ensures
        r matches Ok(p) ==> p.0@.wf() && pos <= p.1 <= c@.len() && json_dec_array(
            c@,
            pos as int,
            strict_uuid,
            Seq::empty(),
            true,
        ) == Some((p.0@, p.1 as int)),
        r is Err ==> json_dec_array(c@, pos as int, strict_uuid, Seq::empty(), true) is None,
        r matches Err(e) ==> (e is JsonError || e is InvalidNumber),
    decreases c@.len() - pos, 1int,
{
    let mut out: Vec<LLSDValue> = Vec::new();
    let mut cur: usize = pos;
    let mut first: bool = true;
    loop
        invariant
            pos <= cur <= c@.len(),
            wf_seq(views_of(out@)),
            first ==> out@.len() == 0,
            json_dec_array(c@, pos as int, strict_uuid, Seq::empty(), true) == json_dec_array(
                c@,
                cur as int,
                strict_uuid,
                views_of(out@),
                first,
            ),
        decreases c@.len() - cur,
    {
        proof {
            lemma_views_of(out@);
        }
        let i = crate::xml::skip_ws(c, cur);
        if i >= c.len() {
            return Err(LLSDError::JsonError { message: ("unterminated array").to_owned() });
        }
        if c[i] == ']' {
            if out.len() > 0 && first {
                return Err(LLSDError::JsonError { message: ("a trailing comma").to_owned() });
            }
            proof {
                assert(json_dec_array(c@, cur as int, strict_uuid, views_of(out@), first)
                    == Some((ValueView::Array(views_of(out@)), i + 1)));
            }
            return Ok((LLSDValue::Array(out), i + 1));
        }
        if !first {
            if c[i] != ',' {
                return Err(LLSDError::JsonError {
                    message: ("expected a comma or a closing bracket").to_owned(),
                });
            }
            let child = match parse_json_value(c, i + 1, strict_uuid) {
                Ok(p) => p,
                Err(e) => {
                    proof {
                        assert(json_dec_value(c@, i + 1, strict_uuid) is None);
                    }
                    return Err(e);
                },
            };
            let ghost pre = out@;
            out.push(child.0);
            proof {
                lemma_views_of(out@);
                lemma_views_of(pre);
                lemma_wf_seq(views_of(out@));
                lemma_wf_seq(views_of(pre));
                assert(views_of(out@) =~= views_of(pre).push(child.0@));
            }
            cur = child.1;
        } else {
            let child = match parse_json_value(c, i, strict_uuid) {
                Ok(p) => p,
                Err(e) => {
                    proof {
                        assert(json_dec_value(c@, i as int, strict_uuid) is None);
                    }
                    return Err(e);
                },
            };
            let ghost pre = out@;
            out.push(child.0);
            proof {
                lemma_views_of(out@);
                lemma_views_of(pre);
                lemma_wf_seq(views_of(out@));
                lemma_wf_seq(views_of(pre));
                assert(views_of(out@) =~= views_of(pre).push(child.0@));
            }
            cur = child.1;
            first = false;
        }
    }
}

/// Parse object members until the closing brace; duplicate keys overwrite
/// in place.  A two-member object carrying the tunnel keys decodes to the
/// tunnelled kind; a malformed tunnel falls back to a plain map.
#[verifier::loop_isolation(false)]
#[verifier::rlimit(100)]
fn parse_json_object(c: &Vec<char>, pos: usize, strict_uuid: bool) -> (r: Result<
    (LLSDValue, usize),
    LLSDError,
>)
    requires
        pos <= c@.len(),
    ensures
        r matches Ok(p) ==> p.0@.wf() && pos <= p.1 <= c@.len() && json_dec_object(
            c@,
            pos as int,
            strict_uuid,
            Seq::empty(),
            true,
            None,
            None,
        ) == Some((p.0@, p.1 as int)),
        r is Err ==> json_dec_object(
            c@,
            pos as int,
            strict_uuid,
            Seq::empty(),
            true,
            None,
            None,
        ) is None,
        r matches Err(e) ==> (e is JsonError || e is InvalidNumber),
    decreases c@.len() - pos, 1int,
{
    let mut out: Vec<(String, LLSDValue)> = Vec::new();
    let mut cur: usize = pos;
    let mut first: bool = true;
    let mut raw_type: Option<String> = None;
    let mut raw_value: Option<String> = None;
    loop
        invariant
            pos <= cur <= c@.len(),
            wf_entries(entry_views_of(out@)),
            first ==> out@.len() == 0,
            json_dec_object(c@, pos as int, strict_uuid, Seq::empty(), true, None, None)
                == json_dec_object(
                c@,
                cur as int,
                strict_uuid,
                entry_views_of(out@),
                first,
                opt_view(raw_type),
                opt_view(raw_value),
            ),
        decreases c@.len() - cur,
    {
        let i0 = crate::xml::skip_ws(c, cur);
        if i0 >= c.len() {
            return Err(LLSDError::JsonError { message: ("unterminated object").to_owned() });
        }
        if c[i0] == '}' {
            let end = i0 + 1;
            if out.len() > 0 && first {
                return Err(LLSDError::JsonError { message: ("a trailing comma").to_owned() });
            }
            proof {
                crate::xml::lemma_tag_names();
                lemma_entry_views_of(out@);
            }
            let ghost fin = json_dec_finish_object(
                entry_views_of(out@),
                opt_view(raw_type),
                opt_view(raw_value),
                end as int,
            );
            if out.len() == 2 {
                match (&raw_type, &raw_value) {
                    (Some(t), Some(rv)) => {
                        let tc = str_chars(t.as_str());
                        if crate::xml::chars_eq_lit(&tc, "uuid") {
                            match uuid_parse_any(rv.as_str()) {
                                Some(u) => {
                                    proof {
                                        assert(fin == Some((ValueView::UUID(u@), end as int)));
                                    }
                                    return Ok((LLSDValue::UUID(u), end));
                                },
                                None => {
                                },
                            }
                        } else if crate::xml::chars_eq_lit(&tc, "date") {
                            match parse_rfc3339(rv.as_str()) {
                                Some(p) => {
                                    proof {
                                        assert(fin == Some((
                                            ValueView::Date(p.0 as int, p.1 as int),
                                            end as int,
                                        )));
                                    }
                                    return Ok((
                                        LLSDValue::Date(LLSDDate { secs: p.0, nanos: p.1 }),
                                        end,
                                    ));
                                },
                                None => {
                                },
                            }
                        } else if crate::xml::chars_eq_lit(&tc, "uri") {
                            proof {
                                assert(fin == Some((ValueView::URI(rv@), end as int)));
                            }
                            return Ok((LLSDValue::URI(rv.clone()), end));
                        } else if crate::xml::chars_eq_lit(&tc, "binary") {
                            match base64_decode(rv.as_str()) {
                                Some(b) => {
                                    proof {
                                        assert(fin == Some((
                                            ValueView::Binary(b@),
                                            end as int,
                                        )));
                                    }
                                    return Ok((LLSDValue::Binary(b), end));
                                },
                                None => {
                                },
                            }
                        }
                    },
                    _ => {
                    },
                }
            }
            proof {
                assert(fin == Some((ValueView::Dict(entry_views_of(out@)), end as int)));
            }
            return Ok((LLSDValue::Dict(out), end));
        }
        let i = if !first {
            if c[i0] != ',' {
                return Err(LLSDError::JsonError {
                    message: ("expected a comma or a closing brace").to_owned(),
                });
            }
            crate::xml::skip_ws(c, i0 + 1)
        } else {
            i0
        };
        if i >= c.len() || c[i] != '"' {
            return Err(LLSDError::JsonError { message: ("expected a member name").to_owned() });
        }
        let kt = match lex_json_string(c, i + 1) {
            Ok(p) => p,
            Err(e) => {
                return Err(e);
            },
        };
        let key = chars_string(&kt.0);
        let j = crate::xml::skip_ws(c, kt.1);
        if j >= c.len() || c[j] != ':' {
            return Err(LLSDError::JsonError { message: ("expected a colon").to_owned() });
        }
        let k = crate::xml::skip_ws(c, j + 1);
        let child: (LLSDValue, usize);
        if k < c.len() && c[k] == '"' {
            let sv = match lex_json_string(c, k + 1) {
                Ok(p) => p,
                Err(e) => {
                    return Err(e);
                },
            };
            let raw = chars_string(&sv.0);
            let kc = str_chars(key.as_str());
            if crate::xml::chars_eq_lit(&kc, "__type") {
                raw_type = Some(raw.clone());
            }
            if crate::xml::chars_eq_lit(&kc, "value") {
                raw_value = Some(raw.clone());
            }
            child = (classify_string(sv.0, strict_uuid), sv.1);
        } else {
            child = match parse_json_value(c, k, strict_uuid) {
                Ok(p) => p,
                Err(e) => {
                    return Err(e);
                },
            };
            // a non-string binding clears the tunnel texts for that key
            let kc = str_chars(key.as_str());
            if crate::xml::chars_eq_lit(&kc, "__type") {
                raw_type = None;
            }
            if crate::xml::chars_eq_lit(&kc, "value") {
                raw_value = None;
            }
        }
        proof {
            lemma_entry_views_of(out@);
        }
        let ghost pre = entry_views_of(out@);
        match crate::types::dict_position(&out, &key) {
            Some(at) => {
                let removed = out.remove(at);
                out.insert(at, (key, child.0));
                proof {
                    lemma_entry_views_of(out@);
                    assert(entry_views_of(out@) =~= pre.update(at as int, (key@, child.0@)));
                    assert(pre[at as int].0 == key@);
                    lemma_dict_set_update(pre, at as int, child.0@);
                    assert(entry_views_of(out@) == dict_set(pre, key@, child.0@));
                    lemma_wf_entries_vals(pre);
                    lemma_wf_entries_vals(entry_views_of(out@));
                    assert forall|x: int, y: int|
                        0 <= x < y < entry_views_of(out@).len() implies entry_views_of(
                        out@)[x].0 != entry_views_of(out@)[y].0 by {
                        assert(entry_views_of(out@)[x].0 == pre[x].0);
                        assert(entry_views_of(out@)[y].0 == pre[y].0);
                    }
                    assert(wf_entries(entry_views_of(out@)));
                }
            },
            None => {
                out.push((key, child.0));
                proof {
                    lemma_entry_views_of(out@);
                    assert(entry_views_of(out@) =~= pre.push((key@, child.0@)));
                    lemma_wf_entries_vals(pre);
                    lemma_wf_entries_vals(entry_views_of(out@));
                    crate::utils::lemma_dict_get_absent(pre, key@);
                    lemma_dict_set_new(pre, key@, child.0@);
                    assert(entry_views_of(out@) == dict_set(pre, key@, child.0@));
                    assert forall|x: int, y: int|
                        0 <= x < y < entry_views_of(out@).len() implies entry_views_of(
                        out@)[x].0 != entry_views_of(out@)[y].0 by {
                        if y < pre.len() {
                            assert(entry_views_of(out@)[x].0 == pre[x].0);
                            assert(entry_views_of(out@)[y].0 == pre[y].0);
                        } else {
                            assert(entry_views_of(out@)[x].0 == pre[x].0);
                            assert(entry_views_of(out@)[y].0 == key@);
                        }
                    }
                    assert(wf_entries(entry_views_of(out@)));
                }
            },
        }
        cur = child.1;
        first = false;
    }
}

} // verus!
