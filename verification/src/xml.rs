//! The XML codec: every primitive kind has a dedicated element, a map is a
//! flat run of `<key>…</key>` / value pairs, and binary payloads travel as
//! base64 text.  The serializer's compact output is specified exactly by
//! [`xml_enc`]; the parser is a recursive descent that accepts the
//! predefined entities and CDATA sections and always yields a well-formed
//! value.

use vstd::prelude::*;
use crate::types::{LLSDValue, LLSDDocument, LLSDDate, ValueView, views_of, entry_views_of,
    view_of, lemma_views_of, lemma_entry_views_of, wf_seq, wf_entries, dict_set,
    lemma_dict_set_new, lemma_dict_set_update, lemma_wf_seq, lemma_wf_entries_vals};
use crate::text::{int_text, int_of_text, i32_text_chars, parse_i32_chars};
use crate::uuid_text::{uuid_text, format_uuid, parse_uuid_chars};
use crate::base64_text::base64_of;
use crate::trusted::{real_text_of, rfc3339_of, chrono_range_of, real_to_text, text_to_real,
    format_rfc3339_opt, parse_rfc3339, base64_encode, base64_decode, chars_string, str_chars};
use crate::error::LLSDError;

verus! {

broadcast use vstd::string::group_string_axioms;

/// The escaped form of one text character: `&`, `<` and `>` become their
/// predefined entities.
pub open spec fn esc_char(c: char) -> Seq<char> {
    if c == '&' {
        "&amp;"@
    } else if c == '<' {
        "&lt;"@
    } else if c == '>' {
        "&gt;"@
    } else {
        seq![c]
    }
}

/// The escaped form of a text.
pub open spec fn xml_escape(s: Seq<char>) -> Seq<char>
    decreases s.len(),
{
    if s.len() == 0 {
        Seq::empty()
    } else {
        esc_char(s[0]) + xml_escape(s.drop_first())
    }
}

/// Escaping distributes over appending one character.
proof fn lemma_escape_snoc(s: Seq<char>, c: char)
    ensures
        xml_escape(s.push(c)) == xml_escape(s) + esc_char(c),
    decreases s.len(),
{
    let p = s.push(c);
    if s.len() == 0 {
        assert(p[0] == c);
        assert(p.drop_first() =~= Seq::<char>::empty());
        assert(xml_escape(p.drop_first()) =~= Seq::<char>::empty());
        assert(xml_escape(p) == esc_char(c) + xml_escape(p.drop_first()));
        assert(xml_escape(p) =~= xml_escape(s) + esc_char(c));
    } else {
        lemma_escape_snoc(s.drop_first(), c);
        assert(p[0] == s[0]);
        assert(p.drop_first() =~= s.drop_first().push(c));
        assert(xml_escape(p) == esc_char(s[0]) + xml_escape(p.drop_first()));
        assert(xml_escape(s) == esc_char(s[0]) + xml_escape(s.drop_first()));
        assert(xml_escape(p) =~= xml_escape(s) + esc_char(c));
    }
}

/// Append the escaped form of `s` to `out`.
#[verifier::loop_isolation(false)]
fn push_escaped(out: &mut Vec<char>, s: &Vec<char>)
    ensures
        final(out)@ == old(out)@ + xml_escape(s@),
{
    let mut i: usize = 0;
    while i < s.len()
        invariant
            i <= s@.len(),
            out@ == old(out)@ + xml_escape(s@.take(i as int)),
        decreases s@.len() - i,
    {
        let c = s[i];
        proof {
            lemma_escape_snoc(s@.take(i as int), c);
            assert(s@.take(i + 1 as int) =~= s@.take(i as int).push(c));
        }
        if c == '&' {
            out.push('&');
            out.push('a');
            out.push('m');
            out.push('p');
            out.push(';');
        } else if c == '<' {
            out.push('&');
            out.push('l');
            out.push('t');
            out.push(';');
        } else if c == '>' {
            out.push('&');
            out.push('g');
            out.push('t');
            out.push(';');
        } else {
            out.push(c);
        }
        proof {
            if c == '&' {
                reveal_strlit("&amp;");
            } else if c == '<' {
                reveal_strlit("&lt;");
            } else if c == '>' {
                reveal_strlit("&gt;");
            }
            assert(out@ =~= old(out)@ + xml_escape(s@.take(i + 1 as int)));
        }
        i = i + 1;
    }
    proof {
        assert(s@.take(s@.len() as int) =~= s@);
    }
}

/// The compact XML image of one value.
pub open spec fn xml_enc(v: ValueView) -> Seq<char>
    decreases v, 1int, 0int,
{
    match v {
        ValueView::Undefined => "<undef/>"@,
        ValueView::Boolean(b) => if b {
            "<boolean>1</boolean>"@
        } else {
            "<boolean>0</boolean>"@
        },
        ValueView::Integer(i) => "<integer>"@ + int_text(i) + "</integer>"@,
        ValueView::Real(bits) => "<real>"@ + real_text_of(bits) + "</real>"@,
        ValueView::String(s) => "<string>"@ + xml_escape(s) + "</string>"@,
        ValueView::UUID(b) => "<uuid>"@ + uuid_text(b) + "</uuid>"@,
        ValueView::Date(se, na) => "<date>"@ + rfc3339_of(se, na) + "</date>"@,
        ValueView::URI(s) => "<uri>"@ + xml_escape(s) + "</uri>"@,
        ValueView::Binary(b) => "<binary>"@ + base64_of(b) + "</binary>"@,
        ValueView::Array(a) => "<array>"@ + xml_enc_seq(a) + "</array>"@,
        ValueView::Dict(m) => "<map>"@ + xml_enc_entries(m) + "</map>"@,
    }
}

/// The concatenated images of a sequence of values.
pub open spec fn xml_enc_seq(a: Seq<ValueView>) -> Seq<char>
    decreases a, 0int, a.len(),
{
    if a.len() == 0 {
        Seq::empty()
    } else {
        xml_enc(a[0]) + xml_enc_seq(a.drop_first())
    }
}

/// The concatenated images of map entries.
pub open spec fn xml_enc_entries(m: Seq<(Seq<char>, ValueView)>) -> Seq<char>
    decreases m, 0int, m.len(),
{
    if m.len() == 0 {
        Seq::empty()
    } else {
        "<key>"@ + xml_escape(m[0].0) + "</key>"@ + xml_enc(m[0].1) + xml_enc_entries(
            m.drop_first())
    }
}

/// Whether a value can be written: every date must lie in chrono's range
/// with a normalized nanosecond part.
pub open spec fn xml_encodable(v: ValueView) -> bool
    decreases v, 1int, 0int,
{
    match v {
        ValueView::Date(se, na) => 0 <= na < 1_000_000_000 && i64::MIN <= se <= i64::MAX
            && chrono_range_of(se, na),
        ValueView::Array(a) => xml_encodable_seq(a),
        ValueView::Dict(m) => xml_encodable_entries(m),
        _ => true,
    }
}

/// Encodability of each element of a sequence.
pub open spec fn xml_encodable_seq(a: Seq<ValueView>) -> bool
    decreases a, 0int, a.len(),
{
    if a.len() == 0 {
        true
    } else {
        xml_encodable(a[0]) && xml_encodable_seq(a.drop_first())
    }
}

/// Encodability of map entry values.
pub open spec fn xml_encodable_entries(m: Seq<(Seq<char>, ValueView)>) -> bool
    decreases m, 0int, m.len(),
{
    if m.len() == 0 {
        true
    } else {
        xml_encodable(m[0].1) && xml_encodable_entries(m.drop_first())
    }
}

/// The document header the serializer writes before the root value.
pub open spec fn xml_header() -> Seq<char> {
    "<?xml version=\"1.0\" encoding=\"UTF-8\"?>"@ + "<llsd>"@
}

/// The spaces of `depth` pretty-printing levels of `unit` spaces each,
/// clamped where the product would overflow a machine word, as the writer
/// clamps it.
pub open spec fn xml_pad(depth: int, unit: int) -> int {
    if depth * unit <= usize::MAX as int {
        depth * unit
    } else {
        usize::MAX as int
    }
}

/// A pretty-printing line break: a newline and the indentation of `depth`
/// levels.
pub open spec fn nl_indent(depth: int, unit: int) -> Seq<char> {
    seq!['\n'] + crate::utils::spaces(xml_pad(depth, unit))
}

/// One level deeper, saturating as the writer's depth counter does.
pub open spec fn bump_depth(depth: int) -> int {
    if depth + 1 <= usize::MAX as int {
        depth + 1
    } else {
        usize::MAX as int
    }
}

/// One level shallower, floored at zero.
pub open spec fn drop_depth(depth: int) -> int {
    if depth >= 1 {
        depth - 1
    } else {
        0
    }
}

/// The pretty XML image of one value at an indent depth: leaves print as
/// in [`xml_enc`]; containers put each member (and each map key) on a line
/// of its own, indented `depth` levels of `unit` spaces, and close one
/// level shallower.  The parameters change only the whitespace between
/// elements, never the elements themselves.
pub open spec fn xml_enc_p(v: ValueView, depth: int, unit: int) -> Seq<char>
    decreases v, 1int, 0int,
{
    match v {
        ValueView::Array(a) => "<array>"@ + xml_enc_seq_p(a, depth, unit) + nl_indent(
            drop_depth(depth),
            unit,
        ) + "</array>"@,
        ValueView::Dict(m) => "<map>"@ + xml_enc_entries_p(m, depth, unit) + nl_indent(
            drop_depth(depth),
            unit,
        ) + "</map>"@,
        _ => xml_enc(v),
    }
}

/// The pretty images of a sequence of values, one line each.
pub open spec fn xml_enc_seq_p(a: Seq<ValueView>, depth: int, unit: int) -> Seq<char>
    decreases a, 0int, a.len(),
{
    if a.len() == 0 {
        Seq::empty()
    } else {
        nl_indent(depth, unit) + xml_enc_p(a[0], bump_depth(depth), unit) + xml_enc_seq_p(
            a.drop_first(),
            depth,
            unit,
        )
    }
}

/// The pretty images of map entries: each key and each value on a line of
/// its own.
pub open spec fn xml_enc_entries_p(m: Seq<(Seq<char>, ValueView)>, depth: int, unit: int) -> Seq<
    char,
>
    decreases m, 0int, m.len(),
{
    if m.len() == 0 {
        Seq::empty()
    } else {
        nl_indent(depth, unit) + "<key>"@ + xml_escape(m[0].0) + "</key>"@ + nl_indent(depth, unit)
            + xml_enc_p(m[0].1, bump_depth(depth), unit) + xml_enc_entries_p(
            m.drop_first(),
            depth,
            unit,
        )
    }
}

/// Appending one value appends its pretty image on its own line.
pub proof fn lemma_xml_enc_seq_p_snoc(a: Seq<ValueView>, x: ValueView, depth: int, unit: int)
    ensures
        xml_enc_seq_p(a.push(x), depth, unit) == xml_enc_seq_p(a, depth, unit) + nl_indent(
            depth,
            unit,
        ) + xml_enc_p(x, bump_depth(depth), unit),
    decreases a.len(),
{
    let p = a.push(x);
    if a.len() == 0 {
        assert(p[0] == x);
        assert(p.drop_first() =~= Seq::<ValueView>::empty());
        assert(xml_enc_seq_p(p.drop_first(), depth, unit) =~= Seq::<char>::empty());
        assert(xml_enc_seq_p(p, depth, unit) =~= xml_enc_seq_p(a, depth, unit) + nl_indent(
            depth,
            unit,
        ) + xml_enc_p(x, bump_depth(depth), unit));
    } else {
        lemma_xml_enc_seq_p_snoc(a.drop_first(), x, depth, unit);
        assert(p[0] == a[0]);
        assert(p.drop_first() =~= a.drop_first().push(x));
        assert(xml_enc_seq_p(p, depth, unit) =~= xml_enc_seq_p(a, depth, unit) + nl_indent(
            depth,
            unit,
        ) + xml_enc_p(x, bump_depth(depth), unit));
    }
}

/// Appending one entry appends its pretty key and value lines.
pub proof fn lemma_xml_enc_entries_p_snoc(
    m: Seq<(Seq<char>, ValueView)>,
    e: (Seq<char>, ValueView),
    depth: int,
    unit: int,
)
    ensures
        xml_enc_entries_p(m.push(e), depth, unit) == xml_enc_entries_p(m, depth, unit) + nl_indent(
            depth,
            unit,
        ) + "<key>"@ + xml_escape(e.0) + "</key>"@ + nl_indent(depth, unit) + xml_enc_p(
            e.1,
            bump_depth(depth),
            unit,
        ),
    decreases m.len(),
{
    let p = m.push(e);
    if m.len() == 0 {
        assert(p[0] == e);
        assert(p.drop_first() =~= Seq::<(Seq<char>, ValueView)>::empty());
        assert(xml_enc_entries_p(p.drop_first(), depth, unit) =~= Seq::<char>::empty());
        assert(xml_enc_entries_p(p, depth, unit) =~= xml_enc_entries_p(m, depth, unit)
            + nl_indent(depth, unit) + "<key>"@ + xml_escape(e.0) + "</key>"@ + nl_indent(
            depth,
            unit,
        ) + xml_enc_p(e.1, bump_depth(depth), unit));
    } else {
        lemma_xml_enc_entries_p_snoc(m.drop_first(), e, depth, unit);
        assert(p[0] == m[0]);
        assert(p.drop_first() =~= m.drop_first().push(e));
        assert(xml_enc_entries_p(p, depth, unit) =~= xml_enc_entries_p(m, depth, unit)
            + nl_indent(depth, unit) + "<key>"@ + xml_escape(e.0) + "</key>"@ + nl_indent(
            depth,
            unit,
        ) + xml_enc_p(e.1, bump_depth(depth), unit));
    }
}

/// The XML serializer; pretty printing inserts newlines and indentation
/// between elements without changing what they say.
pub struct LLSDXmlSerializer {
    pub pretty_print: bool,
    pub indent_size: usize,
}

impl LLSDXmlSerializer {
    /// A compact serializer.
    pub fn new() -> (r: LLSDXmlSerializer)
        ensures
            !r.pretty_print,
            r.indent_size == 2,
    {
        LLSDXmlSerializer { pretty_print: false, indent_size: 2 }
    }

    /// The same serializer with pretty printing on or off.  Pretty output
    /// is exactly [`xml_enc_p`] of the root: the same elements as compact
    /// output, with line breaks and indentation between them.
    pub fn with_pretty_print(self, pretty: bool) -> (r: LLSDXmlSerializer)
        ensures
            r.pretty_print == pretty,
            r.indent_size == self.indent_size,
    {
        LLSDXmlSerializer { pretty_print: pretty, ..self }
    }

    /// The same serializer with the given indent width.  The width feeds
    /// only the runs of spaces [`nl_indent`] writes in pretty mode, never
    /// the elements themselves.
    pub fn with_indent_size(self, size: usize) -> (r: LLSDXmlSerializer)
        ensures
            r.pretty_print == self.pretty_print,
            r.indent_size == size,
    {
        LLSDXmlSerializer { indent_size: size, ..self }
    }

    /// The XML text of a document: the declaration, the `llsd` root, and
    /// the image of the root value.  In compact mode the output is exactly
    /// the header, [`xml_enc`] of the root, and the closing tag; in pretty
    /// mode exactly the same elements with [`xml_enc_p`]'s line breaks and
    /// indentation between them.  Fails exactly when a date cannot be
    /// rendered.
    pub fn serialize(&self, document: &LLSDDocument) -> (r: Result<String, LLSDError>)
        ensures
            r is Ok <==> xml_encodable(document@),
            !self.pretty_print && r is Ok ==> r->Ok_0@ == xml_header() + xml_enc(document@)
                + "</llsd>"@,
            self.pretty_print && r is Ok ==> r->Ok_0@ == xml_header() + "\n"@ + xml_enc_p(
                document@,
                1,
                self.indent_size as int,
            ) + "\n"@ + "</llsd>"@,
    {
        let mut out: String = String::new();
        out.append("<?xml version=\"1.0\" encoding=\"UTF-8\"?>");
        out.append("<llsd>");
        if self.pretty_print {
            proof {
                reveal_strlit("\n");
            }
            out.append("\n");
        }
        let ok = write_xml_value(&mut out, document.content(), self.pretty_print, 1,
            self.indent_size);
        match ok {
            Ok(u) => {
                if self.pretty_print {
                    proof {
                        reveal_strlit("\n");
                    }
                    out.append("\n");
                }
                out.append("</llsd>");
                proof {
                    if self.pretty_print {
                        assert(out@ =~= xml_header() + "\n"@ + xml_enc_p(
                            document@,
                            1,
                            self.indent_size as int,
                        ) + "\n"@ + "</llsd>"@);
                    }
                }
                Ok(out)
            },
            Err(e) => Err(e),
        }
    }
}

impl Default for LLSDXmlSerializer {
    /// The default serializer is compact with a two-space indent unit.
    fn default() -> (r: Self)
        ensures
            !r.pretty_print,
            r.indent_size == 2,
    {
        LLSDXmlSerializer::new()
    }
}

/// Append the spaces of `depth` pretty-printing levels of `unit` spaces.
#[verifier::loop_isolation(false)]
fn push_indent(out: &mut String, depth: usize, unit: usize)
    ensures
        final(out)@ == old(out)@ + crate::utils::spaces(xml_pad(depth as int, unit as int)),
{
    let mut i: usize = 0;
    let total: usize = match depth.checked_mul(unit) {
        Some(t) => t,
        None => usize::MAX,
    };
    proof {
        assert(total as int == xml_pad(depth as int, unit as int));
        assert(out@ =~= old(out)@ + crate::utils::spaces(0));
    }
    while i < total
        invariant
            i <= total,
            out@ == old(out)@ + crate::utils::spaces(i as int),
        decreases total - i,
    {
        proof {
            reveal_strlit(" ");
            crate::utils::lemma_spaces_snoc(i as int);
        }
        out.append(" ");
        proof {
            assert(out@ =~= old(out)@ + crate::utils::spaces(i + 1 as int));
        }
        i = i + 1;
    }
}

/// Append the XML image of one value.  In compact mode the appended text
/// is exactly [`xml_enc`]; in pretty mode it is exactly [`xml_enc_p`],
/// which differs only in the whitespace between elements.
#[verifier::rlimit(100)]
fn write_xml_value(out: &mut String, v: &LLSDValue, pretty: bool, depth: usize, unit: usize) -> (r:
    Result<(), LLSDError>)
    ensures
        r is Ok <==> xml_encodable(v@),
        r is Ok && !pretty ==> final(out)@ == old(out)@ + xml_enc(v@),
        r is Ok && pretty ==> final(out)@ == old(out)@ + xml_enc_p(
            v@,
            depth as int,
            unit as int,
        ),
    decreases *v, 1int, 0int,
{
    match v {
        LLSDValue::Undefined => {
            out.append("<undef/>");
            Ok(())
        },
        LLSDValue::Boolean(b) => {
            if *b {
                out.append("<boolean>1</boolean>");
            } else {
                out.append("<boolean>0</boolean>");
            }
            Ok(())
        },
        LLSDValue::Integer(i) => {
            out.append("<integer>");
            let digits = i32_text_chars(*i);
            let ds = chars_string(&digits);
            out.append(ds.as_str());
            out.append("</integer>");
            proof {
                if !pretty {
                    assert(final(out)@ =~= old(out)@ + xml_enc(v@));
                }
            }
            Ok(())
        },
        LLSDValue::Real(bits) => {
            out.append("<real>");
            let t = real_to_text(*bits);
            out.append(t.as_str());
            out.append("</real>");
            proof {
                if !pretty {
                    assert(final(out)@ =~= old(out)@ + xml_enc(v@));
                }
            }
            Ok(())
        },
        LLSDValue::String(s) => {
            out.append("<string>");
            let raw = str_chars(s.as_str());
            let mut esc: Vec<char> = Vec::new();
            push_escaped(&mut esc, &raw);
            let es = chars_string(&esc);
            out.append(es.as_str());
            out.append("</string>");
            proof {
                if !pretty {
                    assert(final(out)@ =~= old(out)@ + xml_enc(v@));
                }
            }
            Ok(())
        },
        LLSDValue::UUID(u) => {
            out.append("<uuid>");
            let t = format_uuid(u);
            let ts = chars_string(&t);
            out.append(ts.as_str());
            out.append("</uuid>");
            proof {
                if !pretty {
                    assert(final(out)@ =~= old(out)@ + xml_enc(v@));
                }
            }
            Ok(())
        },
        LLSDValue::Date(d) => {
            if d.nanos >= 1_000_000_000 {
                return Err(LLSDError::InvalidDate { date: ("unnormalized instant").to_owned() });
            }
            match format_rfc3339_opt(d.secs, d.nanos) {
                Some(t) => {
                    out.append("<date>");
                    out.append(t.as_str());
                    out.append("</date>");
                    proof {
                        if !pretty {
                            assert(final(out)@ =~= old(out)@ + xml_enc(v@));
                        }
                    }
                    Ok(())
                },
                None => Err(LLSDError::InvalidDate { date: ("instant out of range").to_owned() }),
            }
        },
        LLSDValue::URI(s) => {
            out.append("<uri>");
            let raw = str_chars(s.as_str());
            let mut esc: Vec<char> = Vec::new();
            push_escaped(&mut esc, &raw);
            let es = chars_string(&esc);
            out.append(es.as_str());
            out.append("</uri>");
            proof {
                if !pretty {
                    assert(final(out)@ =~= old(out)@ + xml_enc(v@));
                }
            }
            Ok(())
        },
        LLSDValue::Binary(b) => {
            out.append("<binary>");
            let t = base64_encode(b);
            out.append(t.as_str());
            out.append("</binary>");
            proof {
                if !pretty {
                    assert(final(out)@ =~= old(out)@ + xml_enc(v@));
                }
            }
            Ok(())
        },
        LLSDValue::Array(a) => {
            out.append("<array>");
            let r = write_xml_values(out, a, pretty, depth, unit);
            match r {
                Ok(u) => {
                    if pretty {
                        proof {
                            reveal_strlit("\n");
                        }
                        out.append("\n");
                        push_indent(
                            out,
                            if depth >= 1 {
                                depth - 1
                            } else {
                                0
                            },
                            unit,
                        );
                    }
                    out.append("</array>");
                    proof {
                        if !pretty {
                            assert(final(out)@ =~= old(out)@ + xml_enc(v@));
                        } else {
                            assert(final(out)@ =~= old(out)@ + xml_enc_p(
                                v@,
                                depth as int,
                                unit as int,
                            ));
                        }
                    }
                    Ok(())
                },
                Err(e) => Err(e),
            }
        },
        LLSDValue::Dict(m) => {
            out.append("<map>");
            let r = write_xml_entries(out, m, pretty, depth, unit);
            match r {
                Ok(u) => {
                    if pretty {
                        proof {
                            reveal_strlit("\n");
                        }
                        out.append("\n");
                        push_indent(
                            out,
                            if depth >= 1 {
                                depth - 1
                            } else {
                                0
                            },
                            unit,
                        );
                    }
                    out.append("</map>");
                    proof {
                        if !pretty {
                            assert(final(out)@ =~= old(out)@ + xml_enc(v@));
                        } else {
                            assert(final(out)@ =~= old(out)@ + xml_enc_p(
                                v@,
                                depth as int,
                                unit as int,
                            ));
                        }
                    }
                    Ok(())
                },
                Err(e) => Err(e),
            }
        },
    }
}

/// Images of a sequence of values appended one by one.
#[verifier::rlimit(100)]
fn write_xml_values(
    out: &mut String,
    a: &Vec<LLSDValue>,
    pretty: bool,
    depth: usize,
    unit: usize,
) -> (r: Result<(), LLSDError>)
    ensures
        r is Ok <==> xml_encodable_seq(views_of(a@)),
        r is Ok && !pretty ==> final(out)@ == old(out)@ + xml_enc_seq(views_of(a@)),
        r is Ok && pretty ==> final(out)@ == old(out)@ + xml_enc_seq_p(
            views_of(a@),
            depth as int,
            unit as int,
        ),
    decreases a@, 0int, a@.len(),
{
    proof {
        lemma_views_of(a@);
    }
    let ghost vs = views_of(a@);
    let ghost base = out@;
    let mut i: usize = 0;
    let mut failed: bool = false;
    let mut err: LLSDError = LLSDError::InvalidNumber;
    while i < a.len()
        invariant
            i <= a@.len(),
            vs == views_of(a@),
            vs.len() == a@.len(),
            forall|j: int| 0 <= j < a@.len() ==> vs[j] == view_of(#[trigger] a@[j]),
            base == old(out)@,
            !failed ==> xml_encodable_seq(vs.take(i as int)),
            !failed && !pretty ==> out@ == base + xml_enc_seq(vs.take(i as int)),
            !failed && pretty ==> out@ == base + xml_enc_seq_p(
                vs.take(i as int),
                depth as int,
                unit as int,
            ),
            failed ==> !xml_encodable_seq(vs),
        decreases a@.len() - i,
    {
        if !failed {
            if pretty {
                proof {
                    reveal_strlit("\n");
                }
                out.append("\n");
                push_indent(out, depth, unit);
            }
            let w = write_xml_value(out, &a[i], pretty, depth.saturating_add(1), unit);
            proof {
                lemma_xml_enc_seq_snoc(vs.take(i as int), vs[i as int]);
                lemma_xml_enc_seq_p_snoc(
                    vs.take(i as int),
                    vs[i as int],
                    depth as int,
                    unit as int,
                );
                assert(vs.take(i + 1 as int) =~= vs.take(i as int).push(vs[i as int]));
                if w is Ok && pretty {
                    assert(out@ =~= base + xml_enc_seq_p(
                        vs.take(i + 1 as int),
                        depth as int,
                        unit as int,
                    ));
                }
                if w is Err {
                    lemma_xml_encodable_seq_member(vs, i as int);
                }
            }
            match w {
                Ok(u) => {
                },
                Err(e) => {
                    failed = true;
                    err = e;
                },
            }
        }
        i = i + 1;
    }
    if failed {
        Err(err)
    } else {
        proof {
            assert(vs.take(vs.len() as int) =~= vs);
        }
        Ok(())
    }
}

/// Images of map entries appended one by one.
#[verifier::rlimit(100)]
fn write_xml_entries(
    out: &mut String,
    m: &Vec<(String, LLSDValue)>,
    pretty: bool,
    depth: usize,
    unit: usize,
) -> (r: Result<(), LLSDError>)
    ensures
        r is Ok <==> xml_encodable_entries(entry_views_of(m@)),
        r is Ok && !pretty ==> final(out)@ == old(out)@ + xml_enc_entries(entry_views_of(m@)),
        r is Ok && pretty ==> final(out)@ == old(out)@ + xml_enc_entries_p(
            entry_views_of(m@),
            depth as int,
            unit as int,
        ),
    decreases m@, 0int, m@.len(),
{
    proof {
        lemma_entry_views_of(m@);
    }
    let ghost es = entry_views_of(m@);
    let ghost base = out@;
    let mut i: usize = 0;
    let mut failed: bool = false;
    let mut err: LLSDError = LLSDError::InvalidNumber;
    while i < m.len()
        invariant
            i <= m@.len(),
            es == entry_views_of(m@),
            es.len() == m@.len(),
            forall|j: int| 0 <= j < m@.len() ==> es[j] == ((#[trigger] m@[j]).0@, view_of(
                m@[j].1)),
            base == old(out)@,
            !failed ==> xml_encodable_entries(es.take(i as int)),
            !failed && !pretty ==> out@ == base + xml_enc_entries(es.take(i as int)),
            !failed && pretty ==> out@ == base + xml_enc_entries_p(
                es.take(i as int),
                depth as int,
                unit as int,
            ),
            failed ==> !xml_encodable_entries(es),
        decreases m@.len() - i,
    {
        if !failed {
            if pretty {
                proof {
                    reveal_strlit("\n");
                }
                out.append("\n");
                push_indent(out, depth, unit);
            }
            out.append("<key>");
            let raw = str_chars(m[i].0.as_str());
            let mut esc: Vec<char> = Vec::new();
            push_escaped(&mut esc, &raw);
            let ks = chars_string(&esc);
            out.append(ks.as_str());
            out.append("</key>");
            if pretty {
                proof {
                    reveal_strlit("\n");
                }
                out.append("\n");
                push_indent(out, depth, unit);
            }
            proof {
                assert(decreases_to!(m@ => m@[i as int]));
                assert(decreases_to!(m@[i as int] => m@[i as int].1));
            }
            let w = write_xml_value(out, &m[i].1, pretty, depth.saturating_add(1), unit);
            proof {
                lemma_xml_enc_entries_snoc(es.take(i as int), es[i as int]);
                lemma_xml_enc_entries_p_snoc(
                    es.take(i as int),
                    es[i as int],
                    depth as int,
                    unit as int,
                );
                assert(es.take(i + 1 as int) =~= es.take(i as int).push(es[i as int]));
                if w is Ok && pretty {
                    assert(out@ =~= base + xml_enc_entries_p(
                        es.take(i + 1 as int),
                        depth as int,
                        unit as int,
                    ));
                }
                if w is Err {
                    lemma_xml_encodable_entries_member(es, i as int);
                }
            }
            match w {
                Ok(u) => {
                },
                Err(e) => {
                    failed = true;
                    err = e;
                },
            }
        }
        i = i + 1;
    }
    if failed {
        Err(err)
    } else {
        proof {
            assert(es.take(es.len() as int) =~= es);
        }
        Ok(())
    }
}

/// Appending one value appends its image.
proof fn lemma_xml_enc_seq_snoc(a: Seq<ValueView>, x: ValueView)
    ensures
        xml_enc_seq(a.push(x)) == xml_enc_seq(a) + xml_enc(x),
        xml_encodable_seq(a.push(x)) == (xml_encodable_seq(a) && xml_encodable(x)),
    decreases a.len(),
{
    let p = a.push(x);
    if a.len() == 0 {
        assert(p[0] == x);
        assert(p.drop_first() =~= Seq::<ValueView>::empty());
        assert(xml_enc_seq(p.drop_first()) =~= Seq::<char>::empty());
        assert(xml_enc_seq(p) == xml_enc(x) + xml_enc_seq(p.drop_first()));
        assert(xml_enc_seq(p) =~= xml_enc_seq(a) + xml_enc(x));
        assert(xml_encodable_seq(p.drop_first()));
        assert(xml_encodable_seq(p) == (xml_encodable(p[0]) && xml_encodable_seq(
            p.drop_first())));
        assert(xml_encodable_seq(p) == xml_encodable(x));
    } else {
        lemma_xml_enc_seq_snoc(a.drop_first(), x);
        assert(p[0] == a[0]);
        assert(p.drop_first() =~= a.drop_first().push(x));
        assert(xml_enc_seq(p) == xml_enc(a[0]) + xml_enc_seq(p.drop_first()));
        assert(xml_enc_seq(a) == xml_enc(a[0]) + xml_enc_seq(a.drop_first()));
        assert(xml_enc_seq(p) =~= xml_enc_seq(a) + xml_enc(x));
    }
}

/// Appending one entry appends its image.
proof fn lemma_xml_enc_entries_snoc(m: Seq<(Seq<char>, ValueView)>, e: (Seq<char>, ValueView))
    ensures
        xml_enc_entries(m.push(e)) == xml_enc_entries(m) + "<key>"@ + xml_escape(e.0) + "</key>"@
            + xml_enc(e.1),
        xml_encodable_entries(m.push(e)) == (xml_encodable_entries(m) && xml_encodable(e.1)),
    decreases m.len(),
{
    let p = m.push(e);
    if m.len() == 0 {
        assert(p[0] == e);
        assert(p.drop_first() =~= Seq::<(Seq<char>, ValueView)>::empty());
        assert(xml_enc_entries(p.drop_first()) =~= Seq::<char>::empty());
        assert(xml_enc_entries(p) == "<key>"@ + xml_escape(e.0) + "</key>"@ + xml_enc(e.1)
            + xml_enc_entries(p.drop_first()));
        assert(xml_enc_entries(p) =~= xml_enc_entries(m) + "<key>"@ + xml_escape(e.0) + "</key>"@
            + xml_enc(e.1));
        assert(xml_encodable_entries(p.drop_first()));
        assert(xml_encodable_entries(p) == (xml_encodable(p[0].1) && xml_encodable_entries(
            p.drop_first())));
        assert(xml_encodable_entries(p) == xml_encodable(e.1));
    } else {
        lemma_xml_enc_entries_snoc(m.drop_first(), e);
        assert(p[0] == m[0]);
        assert(p.drop_first() =~= m.drop_first().push(e));
        assert(xml_enc_entries(p) == "<key>"@ + xml_escape(m[0].0) + "</key>"@ + xml_enc(m[0].1)
            + xml_enc_entries(p.drop_first()));
        assert(xml_enc_entries(m) == "<key>"@ + xml_escape(m[0].0) + "</key>"@ + xml_enc(m[0].1)
            + xml_enc_entries(m.drop_first()));
        assert(xml_enc_entries(p) =~= xml_enc_entries(m) + "<key>"@ + xml_escape(e.0) + "</key>"@
            + xml_enc(e.1));
    }
}

/// One element failing makes the whole sequence unencodable.
proof fn lemma_xml_encodable_seq_member(s: Seq<ValueView>, i: int)
    requires
        0 <= i < s.len(),
        !xml_encodable(s[i]),
    ensures
        !xml_encodable_seq(s),
    decreases i,
{
    if i > 0 {
        lemma_xml_encodable_seq_member(s.drop_first(), i - 1);
        assert(s.drop_first()[i - 1] == s[i]);
    }
}

/// One entry failing makes the whole map unencodable.
proof fn lemma_xml_encodable_entries_member(m: Seq<(Seq<char>, ValueView)>, i: int)
    requires
        0 <= i < m.len(),
        !xml_encodable(m[i].1),
    ensures
        !xml_encodable_entries(m),
    decreases i,
{
    if i > 0 {
        lemma_xml_encodable_entries_member(m.drop_first(), i - 1);
        assert(m.drop_first()[i - 1] == m[i]);
    }
}

/// Whether a character is XML whitespace.
pub open spec fn is_ws(c: char) -> bool {
    c == ' ' || c == '\t' || c == '\r' || c == '\n'
}

/// The first position at or after `pos` holding a non-whitespace
/// character (or the end of the text).
pub open spec fn ws_end(c: Seq<char>, pos: int) -> int
    decreases c.len() - pos,
{
    if pos < 0 || pos >= c.len() {
        pos
    } else if is_ws(c[pos]) {
        ws_end(c, pos + 1)
    } else {
        pos
    }
}

/// Whether the literal stands at `pos`.
pub open spec fn lit_at(c: Seq<char>, pos: int, lit: Seq<char>) -> bool {
    0 <= pos && pos + lit.len() <= c.len() && c.subrange(pos, pos + lit.len() as int) == lit
}

/// The first position at or after `pos` holding a non-whitespace
/// character.
#[verifier::loop_isolation(false)]
pub(crate) fn skip_ws(c: &Vec<char>, pos: usize) -> (r: usize)
    requires
        pos <= c@.len(),
    ensures
        pos <= r <= c@.len(),
        r < c@.len() ==> !is_ws(c@[r as int]),
        r == ws_end(c@, pos as int),
{
    let mut i: usize = pos;
    while i < c.len()
        invariant
            pos <= i <= c@.len(),
            ws_end(c@, pos as int) == ws_end(c@, i as int),
        decreases c@.len() - i,
    {
        let ch = c[i];
        if !(ch == ' ' || ch == '\t' || ch == '\r' || ch == '\n') {
            return i;
        }
        i = i + 1;
    }
    i
}

/// Whether the characters at `pos` start with the literal.
#[verifier::loop_isolation(false)]
pub(crate) fn starts_with_lit(c: &Vec<char>, pos: usize, lit: &str) -> (r: bool)
    requires
        pos <= c@.len(),
    ensures
        r ==> pos + lit@.len() <= c@.len(),
        r == lit_at(c@, pos as int, lit@),
{
    let l = str_chars(lit);
    if l.len() > c.len() - pos {
        return false;
    }
    let mut i: usize = 0;
    while i < l.len()
        invariant
            i <= l@.len(),
            l@ == lit@,
            pos + l@.len() <= c@.len(),
            forall|j: int| 0 <= j < i ==> c@[pos + j] == l@[j],
        decreases l@.len() - i,
    {
        if c[pos + i] != l[i] {
            proof {
                if lit_at(c@, pos as int, lit@) {
                    assert(c@.subrange(pos as int, pos + lit@.len() as int)[i as int]
                        == lit@[i as int]);
                }
            }
            return false;
        }
        i = i + 1;
    }
    proof {
        assert(c@.subrange(pos as int, pos + lit@.len() as int) =~= lit@);
    }
    true
}

/// Whether two character vectors hold the same text as the literal.
#[verifier::loop_isolation(false)]
pub(crate) fn chars_eq_lit(name: &Vec<char>, lit: &str) -> (r: bool)
    ensures
        r == (name@ == lit@),
{
    let l = str_chars(lit);
    if name.len() != l.len() {
        proof {
            assert(name@.len() != lit@.len());
        }
        return false;
    }
    let mut i: usize = 0;
    while i < l.len()
        invariant
            i <= l@.len(),
            name@.len() == l@.len(),
            l@ == lit@,
            forall|j: int| 0 <= j < i ==> name@[j] == l@[j],
        decreases l@.len() - i,
    {
        if name[i] != l[i] {
            return false;
        }
        i = i + 1;
    }
    proof {
        assert(name@ =~= lit@);
    }
    true
}

/// The end of a text once trailing whitespace before `end` (but not
/// before `start`) is dropped.
pub open spec fn rstrip_end(s: Seq<char>, start: int, end: int) -> int
    decreases end,
{
    if end <= start || end <= 0 || end > s.len() {
        end
    } else if is_ws(s[end - 1]) {
        rstrip_end(s, start, end - 1)
    } else {
        end
    }
}

/// A text with XML whitespace trimmed from both ends.
pub open spec fn trim_spec(s: Seq<char>) -> Seq<char> {
    let a = ws_end(s, 0);
    let b = rstrip_end(s, a, s.len() as int);
    if 0 <= a <= b <= s.len() {
        s.subrange(a, b)
    } else {
        s
    }
}

/// Trim XML whitespace from both ends of a text.
#[verifier::loop_isolation(false)]
fn trim_chars(v: &Vec<char>) -> (r: Vec<char>)
    ensures
        r@ == trim_spec(v@),
{
    let mut start: usize = 0;
    while start < v.len()
        invariant
            start <= v@.len(),
            ws_end(v@, 0) == ws_end(v@, start as int),
        decreases v@.len() - start,
    {
        let c = v[start];
        if !(c == ' ' || c == '\t' || c == '\r' || c == '\n') {
            break ;
        }
        start = start + 1;
    }
    proof {
        assert(ws_end(v@, 0) == start);
    }
    let mut end: usize = v.len();
    while end > start
        invariant
            start <= end <= v@.len(),
            rstrip_end(v@, start as int, v@.len() as int) == rstrip_end(
                v@,
                start as int,
                end as int,
            ),
        decreases end,
    {
        let c = v[end - 1];
        if !(c == ' ' || c == '\t' || c == '\r' || c == '\n') {
            break ;
        }
        end = end - 1;
    }
    proof {
        assert(rstrip_end(v@, start as int, v@.len() as int) == end);
    }
    let mut out: Vec<char> = Vec::new();
    let mut i: usize = start;
    while i < end
        invariant
            start <= i <= end <= v@.len(),
            out@ =~= v@.subrange(start as int, i as int),
        decreases end - i,
    {
        out.push(v[i]);
        i = i + 1;
        proof {
            assert(out@ =~= v@.subrange(start as int, i as int));
        }
    }
    proof {
        assert(out@ =~= trim_spec(v@));
    }
    out
}


/// Character data read inside a CDATA section: everything up to `]]>`.
pub open spec fn cdata_dec(c: Seq<char>, i: int, acc: Seq<char>) -> Option<(Seq<char>, int)>
    decreases c.len() - i,
{
    if i < 0 || i >= c.len() {
        None
    } else if lit_at(c, i, "]]>"@) {
        Some((acc, i + 3))
    } else {
        cdata_dec(c, i + 1, acc.push(c[i]))
    }
}

/// Text content read up to the next markup: the predefined entities and
/// CDATA sections decode; an unknown entity or an unterminated CDATA
/// section reads as nothing.
pub open spec fn text_dec(c: Seq<char>, i: int, acc: Seq<char>) -> Option<(Seq<char>, int)>
    decreases c.len() - i,
{
    if i < 0 || i >= c.len() {
        Some((acc, i))
    } else if c[i] == '<' {
        if i + 9 <= c.len() && lit_at(c, i, "<![CDATA["@) {
            match cdata_dec(c, i + 9, acc) {
                Some(p) => if i < p.1 <= c.len() {
                    text_dec(c, p.1, p.0)
                } else {
                    None
                },
                None => None,
            }
        } else {
            Some((acc, i))
        }
    } else if c[i] == '&' {
        if i + 5 <= c.len() && lit_at(c, i, "&amp;"@) {
            text_dec(c, i + 5, acc.push('&'))
        } else if i + 4 <= c.len() && lit_at(c, i, "&lt;"@) {
            text_dec(c, i + 4, acc.push('<'))
        } else if i + 4 <= c.len() && lit_at(c, i, "&gt;"@) {
            text_dec(c, i + 4, acc.push('>'))
        } else if i + 6 <= c.len() && lit_at(c, i, "&quot;"@) {
            text_dec(c, i + 6, acc.push('"'))
        } else if i + 6 <= c.len() && lit_at(c, i, "&apos;"@) {
            text_dec(c, i + 6, acc.push('\''))
        } else {
            None
        }
    } else {
        text_dec(c, i + 1, acc.push(c[i]))
    }
}

/// The position just past the closing tag of `name` at `pos`, when one
/// stands there.
pub open spec fn close_end(c: Seq<char>, pos: int, name: Seq<char>) -> Option<int> {
    if 0 <= pos && pos + 2 + name.len() + 1 <= c.len() && c[pos] == '<' && c[pos + 1] == '/'
        && c.subrange(pos + 2, pos + 2 + name.len() as int) == name && c[pos + 2
        + name.len() as int] == '>' {
        Some(pos + 2 + name.len() + 1)
    } else {
        None
    }
}

/// The end of an element name started at `i`: the first `>`, `/` or
/// whitespace.
pub open spec fn name_end(c: Seq<char>, i: int) -> int
    decreases c.len() - i,
{
    if i < 0 || i >= c.len() {
        i
    } else if c[i] == '>' || c[i] == '/' || is_ws(c[i]) {
        i
    } else {
        name_end(c, i + 1)
    }
}


/// The decoder the element parser is held to: the value element at `pos`
/// (leading whitespace allowed) and the position just past it, or `None`
/// when none stands there.  Leaf texts convert through the same exact
/// specifications the parser uses: decimal integers, the named real and
/// date readers, the UUID grammar and base64.
pub open spec fn xml_dec_element(c: Seq<char>, pos: int) -> Option<(ValueView, int)>
    decreases c.len() - pos, 0int,
{
    let i0 = ws_end(c, pos);
    if !(pos <= i0 <= c.len()) {
        None
    } else if i0 >= c.len() {
        None
    } else if c[i0] != '<' {
        None
    } else {
        let ne = name_end(c, i0 + 1);
        if !(i0 + 1 <= ne <= c.len()) {
            None
        } else if ne >= c.len() {
            None
        } else if is_ws(c[ne]) {
            None
        } else if ne == i0 + 1 {
            None
        } else {
            let name = c.subrange(i0 + 1, ne);
            if c[ne] == '/' {
                if ne + 1 >= c.len() || c[ne + 1] != '>' {
                    None
                } else {
                    xml_dec_empty(name, ne + 2)
                }
            } else {
                xml_dec_body(c, name, ne + 1)
            }
        }
    }
}

/// A self-closing element: the kinds that may be empty, with their empty
/// values.
pub open spec fn xml_dec_empty(name: Seq<char>, after: int) -> Option<(ValueView, int)> {
    if name == "undef"@ {
        Some((ValueView::Undefined, after))
    } else if name == "string"@ {
        Some((ValueView::String(Seq::empty()), after))
    } else if name == "binary"@ {
        Some((ValueView::Binary(Seq::empty()), after))
    } else if name == "array"@ {
        Some((ValueView::Array(Seq::empty()), after))
    } else if name == "map"@ {
        Some((ValueView::Dict(Seq::empty()), after))
    } else if name == "uuid"@ {
        Some((ValueView::UUID(Seq::new(16, |i: int| 0u8)), after))
    } else if name == "real"@ {
        match crate::trusted::real_parse_of("0"@) {
            Some(bits) => Some((ValueView::Real(bits), after)),
            None => None,
        }
    } else if name == "integer"@ {
        Some((ValueView::Integer(0), after))
    } else if name == "boolean"@ {
        Some((ValueView::Boolean(false), after))
    } else {
        None
    }
}

/// An open element: its text or children up to the matching closing tag.
pub open spec fn xml_dec_body(c: Seq<char>, name: Seq<char>, body: int) -> Option<
    (ValueView, int),
>
    decreases c.len() - body, 2int,
{
    if !(0 <= body <= c.len()) {
        None
    } else if name == "array"@ {
        xml_dec_items(c, body, Seq::empty())
    } else if name == "map"@ {
        xml_dec_entries(c, body, Seq::empty())
    } else {
        match text_dec(c, body, Seq::empty()) {
            Some(t) => match close_end(c, t.1, name) {
                Some(p2) => xml_dec_leaf(name, t.0, p2),
                None => None,
            },
            None => None,
        }
    }
}

/// A leaf element's value from its decoded text.
pub open spec fn xml_dec_leaf(name: Seq<char>, t: Seq<char>, p2: int) -> Option<
    (ValueView, int),
> {
    if name == "undef"@ {
        Some((ValueView::Undefined, p2))
    } else if name == "boolean"@ {
        let low = crate::secondlife::lower_text(trim_spec(t));
        Some((ValueView::Boolean(low == "1"@ || low == "true"@), p2))
    } else if name == "integer"@ {
        match int_of_text(trim_spec(t)) {
            Some(n) => if -0x8000_0000 <= n <= 0x7FFF_FFFF {
                Some((ValueView::Integer(n), p2))
            } else {
                None
            },
            None => None,
        }
    } else if name == "real"@ {
        match crate::trusted::real_parse_of(trim_spec(t)) {
            Some(bits) => Some((ValueView::Real(bits), p2)),
            None => None,
        }
    } else if name == "string"@ {
        Some((ValueView::String(t), p2))
    } else if name == "uuid"@ {
        if trim_spec(t).len() == 0 {
            Some((ValueView::UUID(Seq::new(16, |i: int| 0u8)), p2))
        } else {
            match crate::uuid_text::uuid_parse(trim_spec(t)) {
                Some(b) => Some((ValueView::UUID(b), p2)),
                None => None,
            }
        }
    } else if name == "date"@ {
        match crate::trusted::rfc3339_parse_of(trim_spec(t)) {
            Some(p) => Some((ValueView::Date(p.0 as int, p.1 as int), p2)),
            None => None,
        }
    } else if name == "uri"@ {
        Some((ValueView::URI(t), p2))
    } else if name == "binary"@ {
        match crate::trusted::base64_decode_of(trim_spec(t)) {
            Some(b) => Some((ValueView::Binary(b), p2)),
            None => None,
        }
    } else {
        None
    }
}

/// Array children up to the closing tag, folded onto those read so far.
pub open spec fn xml_dec_items(c: Seq<char>, cur: int, acc: Seq<ValueView>) -> Option<
    (ValueView, int),
>
    decreases c.len() - cur, 1int,
{
    let i = ws_end(c, cur);
    if !(cur <= i <= c.len()) {
        None
    } else if i >= c.len() {
        None
    } else if lit_at(c, i, "</array>"@) {
        Some((ValueView::Array(acc), i + 8))
    } else {
        match xml_dec_element(c, i) {
            Some(p) => if cur < p.1 <= c.len() {
                xml_dec_items(c, p.1, acc.push(p.0))
            } else {
                None
            },
            None => None,
        }
    }
}

/// Map members up to the closing tag, folded onto those read so far; a
/// repeated key overwrites its earlier binding in place.
pub open spec fn xml_dec_entries(
    c: Seq<char>,
    cur: int,
    acc: Seq<(Seq<char>, ValueView)>,
) -> Option<(ValueView, int)>
    decreases c.len() - cur, 1int,
{
    let i = ws_end(c, cur);
    if !(cur <= i <= c.len()) {
        None
    } else if i >= c.len() {
        None
    } else if lit_at(c, i, "</map>"@) {
        Some((ValueView::Dict(acc), i + 6))
    } else if !lit_at(c, i, "<key>"@) {
        None
    } else {
        match text_dec(c, i + 5, Seq::empty()) {
            Some(kt) => match close_end(c, kt.1, "key"@) {
                Some(ak) => {
                    let jj = ws_end(c, ak);
                    if !(cur <= jj <= c.len()) {
                        None
                    } else if lit_at(c, jj, "</map>"@) || lit_at(c, jj, "<key>"@) {
                        None
                    } else {
                        match xml_dec_element(c, jj) {
                            Some(p) => if cur < p.1 <= c.len() {
                                xml_dec_entries(c, p.1, dict_set(acc, kt.0, p.0))
                            } else {
                                None
                            },
                            None => None,
                        }
                    }
                },
                None => None,
            },
            None => None,
        }
    }
}

/// The position just past the first `<llsd>` at or after `pos`.
pub open spec fn find_llsd(c: Seq<char>, pos: int) -> Option<int>
    decreases c.len() - pos,
{
    if pos < 0 || pos >= c.len() {
        None
    } else if lit_at(c, pos, "<llsd>"@) {
        Some(pos + 6)
    } else {
        find_llsd(c, pos + 1)
    }
}

/// The decoder the document parser is held to: anything before the `llsd`
/// root is skipped, a childless root reads as undefined, and the first
/// child element is the root value.
pub open spec fn xml_dec_document(s: Seq<char>) -> Option<ValueView> {
    match find_llsd(s, 0) {
        Some(p) => {
            let i = ws_end(s, p);
            if lit_at(s, i, "</llsd>"@) {
                Some(ValueView::Undefined)
            } else {
                match xml_dec_element(s, i) {
                    Some(q) => Some(q.0),
                    None => None,
                }
            }
        },
        None => None,
    }
}


/// The sixteen zero bytes of the nil UUID.
fn nil_uuid() -> (r: [u8; 16])
    ensures
        r@ == Seq::new(16, |k: int| 0u8),
{
    let u: [u8; 16] = [0u8; 16];
    let mut out: [u8; 16] = u;
    let mut k: usize = 0;
    while k < 16
        invariant
            k <= 16,
            out@.len() == 16,
            forall|j: int| 0 <= j < k ==> out@[j] == 0u8,
        decreases 16 - k,
    {
        vstd::array::ArrayAdditionalExecFns::set(&mut out, k, 0u8);
        k = k + 1;
    }
    proof {
        assert(out@ =~= Seq::new(16, |j: int| 0u8));
    }
    out
}


/// The element names are pairwise distinct.
#[verifier::rlimit(100)]
pub(crate) proof fn lemma_tag_names()
    ensures
        "undef"@ != "boolean"@,
        "undef"@ != "integer"@,
        "undef"@ != "real"@,
        "undef"@ != "string"@,
        "undef"@ != "uuid"@,
        "undef"@ != "date"@,
        "undef"@ != "uri"@,
        "undef"@ != "binary"@,
        "undef"@ != "array"@,
        "undef"@ != "map"@,
        "boolean"@ != "integer"@,
        "boolean"@ != "real"@,
        "boolean"@ != "string"@,
        "boolean"@ != "uuid"@,
        "boolean"@ != "date"@,
        "boolean"@ != "uri"@,
        "boolean"@ != "binary"@,
        "boolean"@ != "array"@,
        "boolean"@ != "map"@,
        "integer"@ != "real"@,
        "integer"@ != "string"@,
        "integer"@ != "uuid"@,
        "integer"@ != "date"@,
        "integer"@ != "uri"@,
        "integer"@ != "binary"@,
        "integer"@ != "array"@,
        "integer"@ != "map"@,
        "real"@ != "string"@,
        "real"@ != "uuid"@,
        "real"@ != "date"@,
        "real"@ != "uri"@,
        "real"@ != "binary"@,
        "real"@ != "array"@,
        "real"@ != "map"@,
        "string"@ != "uuid"@,
        "string"@ != "date"@,
        "string"@ != "uri"@,
        "string"@ != "binary"@,
        "string"@ != "array"@,
        "string"@ != "map"@,
        "uuid"@ != "date"@,
        "uuid"@ != "uri"@,
        "uuid"@ != "binary"@,
        "uuid"@ != "array"@,
        "uuid"@ != "map"@,
        "date"@ != "uri"@,
        "date"@ != "binary"@,
        "date"@ != "array"@,
        "date"@ != "map"@,
        "uri"@ != "binary"@,
        "uri"@ != "array"@,
        "uri"@ != "map"@,
        "binary"@ != "array"@,
        "binary"@ != "map"@,
        "array"@ != "map"@,
{
    reveal_strlit("undef");
    reveal_strlit("boolean");
    reveal_strlit("integer");
    reveal_strlit("real");
    reveal_strlit("string");
    reveal_strlit("uuid");
    reveal_strlit("date");
    reveal_strlit("uri");
    reveal_strlit("binary");
    reveal_strlit("array");
    reveal_strlit("map");
    assert("undef"@ != "boolean"@) by {
        assert(("undef")@.len() == 5);
        assert(("boolean")@.len() == 7);
    }
    assert("undef"@ != "integer"@) by {
        assert(("undef")@.len() == 5);
        assert(("integer")@.len() == 7);
    }
    assert("undef"@ != "real"@) by {
        assert(("undef")@.len() == 5);
        assert(("real")@.len() == 4);
    }
    assert("undef"@ != "string"@) by {
        assert(("undef")@.len() == 5);
        assert(("string")@.len() == 6);
    }
    assert("undef"@ != "uuid"@) by {
        assert(("undef")@.len() == 5);
        assert(("uuid")@.len() == 4);
    }
    assert("undef"@ != "date"@) by {
        assert(("undef")@.len() == 5);
        assert(("date")@.len() == 4);
    }
    assert("undef"@ != "uri"@) by {
        assert(("undef")@.len() == 5);
        assert(("uri")@.len() == 3);
    }
    assert("undef"@ != "binary"@) by {
        assert(("undef")@.len() == 5);
        assert(("binary")@.len() == 6);
    }
    assert("undef"@ != "array"@) by {
        assert(("undef")@[0] == 'u');
        assert(("array")@[0] == 'a');
    }
    assert("undef"@ != "map"@) by {
        assert(("undef")@.len() == 5);
        assert(("map")@.len() == 3);
    }
    assert("boolean"@ != "integer"@) by {
        assert(("boolean")@[0] == 'b');
        assert(("integer")@[0] == 'i');
    }
    assert("boolean"@ != "real"@) by {
        assert(("boolean")@.len() == 7);
        assert(("real")@.len() == 4);
    }
    assert("boolean"@ != "string"@) by {
        assert(("boolean")@.len() == 7);
        assert(("string")@.len() == 6);
    }
    assert("boolean"@ != "uuid"@) by {
        assert(("boolean")@.len() == 7);
        assert(("uuid")@.len() == 4);
    }
    assert("boolean"@ != "date"@) by {
        assert(("boolean")@.len() == 7);
        assert(("date")@.len() == 4);
    }
    assert("boolean"@ != "uri"@) by {
        assert(("boolean")@.len() == 7);
        assert(("uri")@.len() == 3);
    }
    assert("boolean"@ != "binary"@) by {
        assert(("boolean")@.len() == 7);
        assert(("binary")@.len() == 6);
    }
    assert("boolean"@ != "array"@) by {
        assert(("boolean")@.len() == 7);
        assert(("array")@.len() == 5);
    }
    assert("boolean"@ != "map"@) by {
        assert(("boolean")@.len() == 7);
        assert(("map")@.len() == 3);
    }
    assert("integer"@ != "real"@) by {
        assert(("integer")@.len() == 7);
        assert(("real")@.len() == 4);
    }
    assert("integer"@ != "string"@) by {
        assert(("integer")@.len() == 7);
        assert(("string")@.len() == 6);
    }
    assert("integer"@ != "uuid"@) by {
        assert(("integer")@.len() == 7);
        assert(("uuid")@.len() == 4);
    }
    assert("integer"@ != "date"@) by {
        assert(("integer")@.len() == 7);
        assert(("date")@.len() == 4);
    }
    assert("integer"@ != "uri"@) by {
        assert(("integer")@.len() == 7);
        assert(("uri")@.len() == 3);
    }
    assert("integer"@ != "binary"@) by {
        assert(("integer")@.len() == 7);
        assert(("binary")@.len() == 6);
    }
    assert("integer"@ != "array"@) by {
        assert(("integer")@.len() == 7);
        assert(("array")@.len() == 5);
    }
    assert("integer"@ != "map"@) by {
        assert(("integer")@.len() == 7);
        assert(("map")@.len() == 3);
    }
    assert("real"@ != "string"@) by {
        assert(("real")@.len() == 4);
        assert(("string")@.len() == 6);
    }
    assert("real"@ != "uuid"@) by {
        assert(("real")@[0] == 'r');
        assert(("uuid")@[0] == 'u');
    }
    assert("real"@ != "date"@) by {
        assert(("real")@[0] == 'r');
        assert(("date")@[0] == 'd');
    }
    assert("real"@ != "uri"@) by {
        assert(("real")@.len() == 4);
        assert(("uri")@.len() == 3);
    }
    assert("real"@ != "binary"@) by {
        assert(("real")@.len() == 4);
        assert(("binary")@.len() == 6);
    }
    assert("real"@ != "array"@) by {
        assert(("real")@.len() == 4);
        assert(("array")@.len() == 5);
    }
    assert("real"@ != "map"@) by {
        assert(("real")@.len() == 4);
        assert(("map")@.len() == 3);
    }
    assert("string"@ != "uuid"@) by {
        assert(("string")@.len() == 6);
        assert(("uuid")@.len() == 4);
    }
    assert("string"@ != "date"@) by {
        assert(("string")@.len() == 6);
        assert(("date")@.len() == 4);
    }
    assert("string"@ != "uri"@) by {
        assert(("string")@.len() == 6);
        assert(("uri")@.len() == 3);
    }
    assert("string"@ != "binary"@) by {
        assert(("string")@[0] == 's');
        assert(("binary")@[0] == 'b');
    }
    assert("string"@ != "array"@) by {
        assert(("string")@.len() == 6);
        assert(("array")@.len() == 5);
    }
    assert("string"@ != "map"@) by {
        assert(("string")@.len() == 6);
        assert(("map")@.len() == 3);
    }
    assert("uuid"@ != "date"@) by {
        assert(("uuid")@[0] == 'u');
        assert(("date")@[0] == 'd');
    }
    assert("uuid"@ != "uri"@) by {
        assert(("uuid")@.len() == 4);
        assert(("uri")@.len() == 3);
    }
    assert("uuid"@ != "binary"@) by {
        assert(("uuid")@.len() == 4);
        assert(("binary")@.len() == 6);
    }
    assert("uuid"@ != "array"@) by {
        assert(("uuid")@.len() == 4);
        assert(("array")@.len() == 5);
    }
    assert("uuid"@ != "map"@) by {
        assert(("uuid")@.len() == 4);
        assert(("map")@.len() == 3);
    }
    assert("date"@ != "uri"@) by {
        assert(("date")@.len() == 4);
        assert(("uri")@.len() == 3);
    }
    assert("date"@ != "binary"@) by {
        assert(("date")@.len() == 4);
        assert(("binary")@.len() == 6);
    }
    assert("date"@ != "array"@) by {
        assert(("date")@.len() == 4);
        assert(("array")@.len() == 5);
    }
    assert("date"@ != "map"@) by {
        assert(("date")@.len() == 4);
        assert(("map")@.len() == 3);
    }
    assert("uri"@ != "binary"@) by {
        assert(("uri")@.len() == 3);
        assert(("binary")@.len() == 6);
    }
    assert("uri"@ != "array"@) by {
        assert(("uri")@.len() == 3);
        assert(("array")@.len() == 5);
    }
    assert("uri"@ != "map"@) by {
        assert(("uri")@[0] == 'u');
        assert(("map")@[0] == 'm');
    }
    assert("binary"@ != "array"@) by {
        assert(("binary")@.len() == 6);
        assert(("array")@.len() == 5);
    }
    assert("binary"@ != "map"@) by {
        assert(("binary")@.len() == 6);
        assert(("map")@.len() == 3);
    }
    assert("array"@ != "map"@) by {
        assert(("array")@.len() == 5);
        assert(("map")@.len() == 3);
    }
}

/// The XML parser.
pub struct LLSDXmlParser {
    pub validate_structure: bool,
}

impl LLSDXmlParser {
    /// A parser with structure validation off, as the wire needs none.
    pub fn new() -> (r: LLSDXmlParser)
        ensures
            !r.validate_structure,
    {
        LLSDXmlParser { validate_structure: false }
    }

    /// The same parser with validation set as given.
    pub fn with_validation(self, validate: bool) -> (r: LLSDXmlParser)
        ensures
            r.validate_structure == validate,
    {
        LLSDXmlParser { validate_structure: validate }
    }

    /// Parse an LLSD document from XML text, exactly as the decoder
    /// [`xml_dec_document`] reads it: anything before the `llsd` root is
    /// skipped, its first child element is the root value, and a childless
    /// root reads as undefined.  Every parsed value is well formed: map
    /// keys are unique (later duplicates overwrite) and every date is a
    /// normalized instant.
    #[verifier::loop_isolation(false)]
    pub fn parse(&self, xml: &str) -> (r: Result<LLSDDocument, LLSDError>)
        ensures
            r is Ok <==> xml_dec_document(xml@) is Some,
            r matches Ok(doc) ==> Some(doc@) == xml_dec_document(xml@) && doc@.wf(),
            r matches Err(e) ==> (e is MissingRoot || e is XmlError || e is CustomError
                || e is InvalidUuid || e is InvalidDate || e is Base64Error),
            (r matches Err(e) && e is MissingRoot) <==> find_llsd(xml@, 0) is None,
    {
        let c = str_chars(xml);
        proof {
            reveal_strlit("<llsd>");
            reveal_strlit("</llsd>");
        }
        let mut pos: usize = 0;
        let mut found: bool = false;
        while pos < c.len()
            invariant
                pos <= c@.len(),
                !found,
                find_llsd(c@, 0) == find_llsd(c@, pos as int),
            decreases c@.len() - pos,
        {
            if starts_with_lit(&c, pos, "<llsd>") {
                found = true;
                pos = pos + 6;
                break ;
            }
            pos = pos + 1;
        }
        if !found {
            proof {
                assert(find_llsd(c@, pos as int) is None);
            }
            return Err(LLSDError::MissingRoot);
        }
        proof {
            assert(find_llsd(c@, 0) == Some(pos as int));
        }
        let i = skip_ws(&c, pos);
        if starts_with_lit(&c, i, "</llsd>") {
            return Ok(LLSDDocument::new(LLSDValue::Undefined));
        }
        match parse_xml_element(&c, i) {
            Ok(p) => Ok(LLSDDocument::new(p.0)),
            Err(e) => Err(e),
        }
    }
}

impl Default for LLSDXmlParser {
    /// The default parser does not validate structure.
    fn default() -> (r: Self)
        ensures
            !r.validate_structure,
    {
        LLSDXmlParser::new()
    }
}

/// Read text content up to the next markup, decoding the predefined
/// entities and CDATA sections.
#[verifier::loop_isolation(false)]
fn read_text(c: &Vec<char>, pos: usize) -> (r: Result<(Vec<char>, usize), LLSDError>)
    requires
        pos <= c@.len(),
    ensures
        r matches Ok(p) ==> pos <= p.1 <= c@.len() && text_dec(c@, pos as int, Seq::empty())
            == Some((p.0@, p.1 as int)),
        r is Err ==> text_dec(c@, pos as int, Seq::empty()) is None,
        r matches Err(e) ==> e is XmlError,
    decreases c@.len() - pos,
{
    proof {
        reveal_strlit("<![CDATA[");
        reveal_strlit("]]>");
        reveal_strlit("&amp;");
        reveal_strlit("&lt;");
        reveal_strlit("&gt;");
        reveal_strlit("&quot;");
        reveal_strlit("&apos;");
    }
    let mut out: Vec<char> = Vec::new();
    let mut i: usize = pos;
    while i < c.len()
        invariant
            pos <= i <= c@.len(),
            text_dec(c@, pos as int, Seq::empty()) == text_dec(c@, i as int, out@),
        decreases c@.len() - i,
    {
        let ch = c[i];
        if ch == '<' {
            if starts_with_lit(c, i, "<![CDATA[") {
                proof {
                    assert(("<![CDATA[")@.len() == 9);
                }
                let ghost cd0 = i as int;
                let ghost acc0 = out@;
                i = i + 9;
                let mut closed: bool = false;
                while i < c.len()
                    invariant
                        cd0 + 9 <= i <= c@.len(),
                        !closed,
                        cdata_dec(c@, cd0 + 9, acc0) == cdata_dec(c@, i as int, out@),
                    decreases c@.len() - i,
                {
                    if starts_with_lit(c, i, "]]>") {
                        proof {
                            assert(("]]>")@.len() == 3);
                            assert(cdata_dec(c@, i as int, out@) == Some((out@, i + 3)));
                        }
                        i = i + 3;
                        closed = true;
                        break ;
                    }
                    out.push(c[i]);
                    i = i + 1;
                }
                if !closed {
                    proof {
                        assert(cdata_dec(c@, i as int, out@) is None);
                        assert(cdata_dec(c@, cd0 + 9, acc0) is None);
                        assert(text_dec(c@, cd0, acc0) is None);
                    }
                    return Err(LLSDError::XmlError {
                        message: ("unterminated character data section").to_owned(),
                    });
                }
                proof {
                    assert(cdata_dec(c@, cd0 + 9, acc0) == Some((out@, i as int)));
                    assert(text_dec(c@, cd0, acc0) == text_dec(c@, i as int, out@));
                }
            } else {
                proof {
                    assert(text_dec(c@, i as int, out@) == Some((out@, i as int)));
                }
                return Ok((out, i));
            }
        } else if ch == '&' {
            if starts_with_lit(c, i, "&amp;") {
                out.push('&');
                i = i + 5;
            } else if starts_with_lit(c, i, "&lt;") {
                out.push('<');
                i = i + 4;
            } else if starts_with_lit(c, i, "&gt;") {
                out.push('>');
                i = i + 4;
            } else if starts_with_lit(c, i, "&quot;") {
                out.push('"');
                i = i + 6;
            } else if starts_with_lit(c, i, "&apos;") {
                out.push('\'');
                i = i + 6;
            } else {
                proof {
                    assert(text_dec(c@, i as int, out@) is None);
                }
                return Err(LLSDError::XmlError {
                    message: ("unknown entity reference").to_owned(),
                });
            }
        } else {
            out.push(ch);
            i = i + 1;
        }
    }
    proof {
        assert(text_dec(c@, i as int, out@) == Some((out@, i as int)));
    }
    Ok((out, i))
}

/// Expect the closing tag of `name` at `pos` (whitespace before it is
/// already consumed by the text reader).
#[verifier::loop_isolation(false)]
fn expect_close(c: &Vec<char>, pos: usize, name: &str) -> (r: Result<usize, LLSDError>)
    requires
        pos <= c@.len(),
    ensures
        r matches Ok(p) ==> pos < p <= c@.len() && close_end(c@, pos as int, name@) == Some(
            p as int,
        ),
        r is Err ==> close_end(c@, pos as int, name@) is None,
        r matches Err(e) ==> e is XmlError,
{
    proof {
        reveal_strlit("</");
        assert(("</")@.len() == 2);
    }
    if !starts_with_lit(c, pos, "</") {
        proof {
            if close_end(c@, pos as int, name@) is Some {
                assert(("</")@ =~= seq!['<', '/']);
                assert(c@.subrange(pos as int, pos + 2) =~= ("</")@);
            }
        }
        return Err(LLSDError::XmlError { message: ("expected a closing tag").to_owned() });
    }
    proof {
        assert(("</")@ =~= seq!['<', '/']);
        assert(c@[pos as int] == '<' && c@[pos + 1] == '/') by {
            assert(c@.subrange(pos as int, pos + 2)[0] == '<');
            assert(c@.subrange(pos as int, pos + 2)[1] == '/');
        }
    }
    let limit = c.len();
    proof {
        assert(pos + 2 <= limit);
    }
    let l = str_chars(name);
    let mut i: usize = pos + 2;
    let mut k: usize = 0;
    while k < l.len()
        invariant
            pos + 2 <= i <= c@.len(),
            k <= l@.len(),
            i == pos + 2 + k,
            l@ == name@,
            forall|j: int| 0 <= j < k ==> c@[pos + 2 + j] == name@[j],
        decreases l@.len() - k,
    {
        if i >= c.len() || c[i] != l[k] {
            proof {
                if close_end(c@, pos as int, name@) is Some {
                    assert(c@.subrange(pos + 2, pos + 2 + name@.len() as int)[k as int]
                        == name@[k as int]);
                }
            }
            return Err(LLSDError::XmlError { message: ("mismatched closing tag").to_owned() });
        }
        i = i + 1;
        k = k + 1;
    }
    if i >= c.len() || c[i] != '>' {
        proof {
            if close_end(c@, pos as int, name@) is Some {
                assert(c@[pos + 2 + name@.len() as int] == '>');
            }
        }
        return Err(LLSDError::XmlError { message: ("malformed closing tag").to_owned() });
    }
    proof {
        assert(c@.subrange(pos + 2, pos + 2 + name@.len() as int) =~= name@);
        assert(close_end(c@, pos as int, name@) == Some(pos + 2 + name@.len() + 1));
    }
    Ok(i + 1)
}

/// Parse one value element at `pos` (leading whitespace allowed).
#[verifier::loop_isolation(false)]
fn parse_xml_element(c: &Vec<char>, pos: usize) -> (r: Result<(LLSDValue, usize), LLSDError>)
    requires
        pos <= c@.len(),
    ensures
        r matches Ok(p) ==> p.0@.wf() && pos < p.1 <= c@.len() && xml_dec_element(
            c@,
            pos as int,
        ) == Some((p.0@, p.1 as int)),
        r is Err ==> xml_dec_element(c@, pos as int) is None,
        r matches Err(e) ==> (e is XmlError || e is CustomError || e is InvalidUuid
            || e is InvalidDate || e is Base64Error),
    decreases c@.len() - pos, 0int,
{
    proof {
        lemma_tag_names();
    }
    let i0 = skip_ws(c, pos);
    if i0 >= c.len() {
        return Err(LLSDError::XmlError { message: ("unexpected end of document").to_owned() });
    }
    if c[i0] != '<' {
        return Err(LLSDError::XmlError { message: ("expected an element").to_owned() });
    }
    let mut i: usize = i0 + 1;
    let mut name: Vec<char> = Vec::new();
    while i < c.len()
        invariant
            i0 + 1 <= i <= c@.len(),
            name_end(c@, i0 + 1) == name_end(c@, i as int),
            name@ == c@.subrange(i0 + 1, i as int),
        decreases c@.len() - i,
    {
        let ch = c[i];
        if ch == '>' || ch == '/' {
            break ;
        }
        if ch == ' ' || ch == '\t' || ch == '\r' || ch == '\n' {
            proof {
                assert(name_end(c@, i0 + 1) == i);
                assert(is_ws(c@[i as int]));
            }
            return Err(LLSDError::XmlError { message: ("attributes are not accepted").to_owned() });
        }
        name.push(ch);
        i = i + 1;
        proof {
            assert(name@ =~= c@.subrange(i0 + 1, i as int));
        }
    }
    let ghost ne = name_end(c@, i0 + 1);
    proof {
        assert(ne == i);
        assert(name@ == c@.subrange(i0 + 1, ne));
    }
    if i >= c.len() {
        return Err(LLSDError::XmlError { message: ("unterminated tag").to_owned() });
    }
    if name.len() == 0 {
        return Err(LLSDError::XmlError { message: ("empty element name").to_owned() });
    }
    let self_closing: bool = c[i] == '/';
    if self_closing {
        if i + 1 >= c.len() || c[i + 1] != '>' {
            return Err(LLSDError::XmlError { message: ("malformed empty element").to_owned() });
        }
        let after = i + 2;
        proof {
            assert(xml_dec_element(c@, pos as int) == xml_dec_empty(name@, after as int));
        }
        if chars_eq_lit(&name, "undef") {
            return Ok((LLSDValue::Undefined, after));
        }
        if chars_eq_lit(&name, "string") {
            return Ok((LLSDValue::String(String::new()), after));
        }
        if chars_eq_lit(&name, "binary") {
            return Ok((LLSDValue::Binary(Vec::new()), after));
        }
        if chars_eq_lit(&name, "array") {
            proof {
                assert(views_of(Seq::<LLSDValue>::empty()) =~= Seq::<ValueView>::empty());
                assert(wf_seq(Seq::<ValueView>::empty()));
            }
            return Ok((LLSDValue::Array(Vec::new()), after));
        }
        if chars_eq_lit(&name, "map") {
            proof {
                assert(entry_views_of(Seq::<(String, LLSDValue)>::empty()) =~= Seq::<
                    (Seq<char>, ValueView),
                >::empty());
                assert(wf_entries(Seq::<(Seq<char>, ValueView)>::empty()));
            }
            return Ok((LLSDValue::Dict(Vec::new()), after));
        }
        if chars_eq_lit(&name, "uuid") {
            return Ok((LLSDValue::UUID(nil_uuid()), after));
        }
        if chars_eq_lit(&name, "real") {
            match text_to_real("0") {
                Some(bits) => {
                    return Ok((LLSDValue::Real(bits), after));
                },
                None => {
                    return Err(LLSDError::XmlError {
                        message: ("empty real element").to_owned(),
                    });
                },
            }
        }
        if chars_eq_lit(&name, "integer") {
            return Ok((LLSDValue::Integer(0), after));
        }
        if chars_eq_lit(&name, "boolean") {
            return Ok((LLSDValue::Boolean(false), after));
        }
        return Err(LLSDError::CustomError {
            message: ("this element cannot be empty").to_owned(),
        });
    }
    // an open tag: move past '>'
    let body = i + 1;
    proof {
        assert(c@[ne] == '>');
        assert(xml_dec_element(c@, pos as int) == xml_dec_body(c@, name@, body as int));
    }
    if chars_eq_lit(&name, "undef") {
        let t = match read_text(c, body) {
            Ok(p) => p,
            Err(e) => {
                proof {
                    assert(text_dec(c@, body as int, Seq::empty()) is None);
                    assert(name@ != "array"@);
                    assert(name@ != "map"@);
                    assert(xml_dec_body(c@, name@, body as int) is None);
                }
                return Err(e);
            },
        };
        match expect_close(c, t.1, "undef") {
            Ok(p2) => {
                proof {
                    assert(close_end(c@, t.1 as int, name@) == Some(p2 as int));
                    assert(xml_dec_leaf(name@, t.0@, p2 as int) == Some((
                        ValueView::Undefined,
                        p2 as int,
                    )));
                    assert(xml_dec_body(c@, name@, body as int) == Some((
                        ValueView::Undefined,
                        p2 as int,
                    )));
                }
                Ok((LLSDValue::Undefined, p2))
            },
            Err(e) => {
                proof {
                    assert(close_end(c@, t.1 as int, name@) is None);
                    assert(xml_dec_body(c@, name@, body as int) is None);
                }
                Err(e)
            },
        }
    } else if chars_eq_lit(&name, "boolean") {
        let t = match read_text(c, body) {
            Ok(p) => p,
            Err(e) => {
                proof {
                    assert(text_dec(c@, body as int, Seq::empty()) is None);
                    assert(xml_dec_body(c@, name@, body as int) is None);
                }
                return Err(e);
            },
        };
        let low = crate::secondlife::lower_ascii_chars(&trim_chars(&t.0));
        let val: bool = chars_eq_lit(&low, "1") || chars_eq_lit(&low, "true");
        match expect_close(c, t.1, "boolean") {
            Ok(p2) => {
                proof {
                    assert(xml_dec_body(c@, name@, body as int) == Some((ValueView::Boolean(val), p2 as int)));
                }
                Ok((LLSDValue::Boolean(val), p2))
            },
            Err(e) => {
                proof {
                    assert(close_end(c@, t.1 as int, name@) is None);
                    assert(xml_dec_body(c@, name@, body as int) is None);
                }
                Err(e)
            },
        }
    } else if chars_eq_lit(&name, "integer") {
        let t = match read_text(c, body) {
            Ok(p) => p,
            Err(e) => {
                proof {
                    assert(text_dec(c@, body as int, Seq::empty()) is None);
                    assert(xml_dec_body(c@, name@, body as int) is None);
                }
                return Err(e);
            },
        };
        let trimmed = trim_chars(&t.0);
        let val = match parse_i32_chars(&trimmed) {
            Some(v) => v,
            None => {
                proof {
                    assert(int_of_text(trim_spec(t.0@)) is None || !(-0x8000_0000
                        <= int_of_text(trim_spec(t.0@))->0 <= 0x7FFF_FFFF));
                    assert(xml_dec_body(c@, name@, body as int) is None);
                }
                return Err(LLSDError::CustomError { message: ("invalid integer").to_owned() });
            },
        };
        match expect_close(c, t.1, "integer") {
            Ok(p2) => {
                proof {
                    assert(xml_dec_body(c@, name@, body as int) == Some((ValueView::Integer(val as int), p2 as int)));
                }
                Ok((LLSDValue::Integer(val), p2))
            },
            Err(e) => {
                proof {
                    assert(close_end(c@, t.1 as int, name@) is None);
                    assert(xml_dec_body(c@, name@, body as int) is None);
                }
                Err(e)
            },
        }
    } else if chars_eq_lit(&name, "real") {
        let t = match read_text(c, body) {
            Ok(p) => p,
            Err(e) => {
                proof {
                    assert(text_dec(c@, body as int, Seq::empty()) is None);
                    assert(xml_dec_body(c@, name@, body as int) is None);
                }
                return Err(e);
            },
        };
        let trimmed = trim_chars(&t.0);
        let ts = chars_string(&trimmed);
        let bits = match text_to_real(ts.as_str()) {
            Some(b) => b,
            None => {
                proof {
                    assert(crate::trusted::real_parse_of(trim_spec(t.0@)) is None);
                    assert(xml_dec_body(c@, name@, body as int) is None);
                }
                return Err(LLSDError::CustomError { message: ("invalid real").to_owned() });
            },
        };
        match expect_close(c, t.1, "real") {
            Ok(p2) => {
                proof {
                    assert(xml_dec_body(c@, name@, body as int) == Some((ValueView::Real(bits), p2 as int)));
                }
                Ok((LLSDValue::Real(bits), p2))
            },
            Err(e) => {
                proof {
                    assert(close_end(c@, t.1 as int, name@) is None);
                    assert(xml_dec_body(c@, name@, body as int) is None);
                }
                Err(e)
            },
        }
    } else if chars_eq_lit(&name, "string") {
        let t = match read_text(c, body) {
            Ok(p) => p,
            Err(e) => {
                proof {
                    assert(text_dec(c@, body as int, Seq::empty()) is None);
                    assert(xml_dec_body(c@, name@, body as int) is None);
                }
                return Err(e);
            },
        };
        let s = chars_string(&t.0);
        match expect_close(c, t.1, "string") {
            Ok(p2) => {
                proof {
                    assert(xml_dec_body(c@, name@, body as int) == Some((ValueView::String(t.0@), p2 as int)));
                }
                Ok((LLSDValue::String(s), p2))
            },
            Err(e) => {
                proof {
                    assert(close_end(c@, t.1 as int, name@) is None);
                    assert(xml_dec_body(c@, name@, body as int) is None);
                }
                Err(e)
            },
        }
    } else if chars_eq_lit(&name, "uuid") {
        let t = match read_text(c, body) {
            Ok(p) => p,
            Err(e) => {
                proof {
                    assert(text_dec(c@, body as int, Seq::empty()) is None);
                    assert(xml_dec_body(c@, name@, body as int) is None);
                }
                return Err(e);
            },
        };
        let trimmed = trim_chars(&t.0);
        let u = if trimmed.len() == 0 {
            nil_uuid()
        } else {
            match parse_uuid_chars(&trimmed) {
                Some(u) => u,
                None => {
                    proof {
                        assert(crate::uuid_text::uuid_parse(trim_spec(t.0@)) is None);
                        assert(xml_dec_body(c@, name@, body as int) is None);
                    }
                    let lex = chars_string(&trimmed);
                    return Err(LLSDError::InvalidUuid { uuid: lex });
                },
            }
        };
        match expect_close(c, t.1, "uuid") {
            Ok(p2) => {
                proof {
                    assert(xml_dec_body(c@, name@, body as int) == Some((ValueView::UUID(u@), p2 as int)));
                }
                Ok((LLSDValue::UUID(u), p2))
            },
            Err(e) => {
                proof {
                    assert(close_end(c@, t.1 as int, name@) is None);
                    assert(xml_dec_body(c@, name@, body as int) is None);
                }
                Err(e)
            },
        }
    } else if chars_eq_lit(&name, "date") {
        let t = match read_text(c, body) {
            Ok(p) => p,
            Err(e) => {
                proof {
                    assert(text_dec(c@, body as int, Seq::empty()) is None);
                    assert(xml_dec_body(c@, name@, body as int) is None);
                }
                return Err(e);
            },
        };
        let trimmed = trim_chars(&t.0);
        let ts = chars_string(&trimmed);
        let d = match parse_rfc3339(ts.as_str()) {
            Some(p) => LLSDDate { secs: p.0, nanos: p.1 },
            None => {
                proof {
                    assert(crate::trusted::rfc3339_parse_of(trim_spec(t.0@)) is None);
                    assert(xml_dec_body(c@, name@, body as int) is None);
                }
                return Err(LLSDError::InvalidDate { date: ts });
            },
        };
        match expect_close(c, t.1, "date") {
            Ok(p2) => {
                proof {
                    assert(xml_dec_body(c@, name@, body as int) == Some((ValueView::Date(d.secs as int, d.nanos as int), p2 as int)));
                }
                Ok((LLSDValue::Date(d), p2))
            },
            Err(e) => {
                proof {
                    assert(close_end(c@, t.1 as int, name@) is None);
                    assert(xml_dec_body(c@, name@, body as int) is None);
                }
                Err(e)
            },
        }
    } else if chars_eq_lit(&name, "uri") {
        let t = match read_text(c, body) {
            Ok(p) => p,
            Err(e) => {
                proof {
                    assert(text_dec(c@, body as int, Seq::empty()) is None);
                    assert(xml_dec_body(c@, name@, body as int) is None);
                }
                return Err(e);
            },
        };
        let s = chars_string(&t.0);
        match expect_close(c, t.1, "uri") {
            Ok(p2) => {
                proof {
                    assert(xml_dec_body(c@, name@, body as int) == Some((ValueView::URI(t.0@), p2 as int)));
                }
                Ok((LLSDValue::URI(s), p2))
            },
            Err(e) => {
                proof {
                    assert(close_end(c@, t.1 as int, name@) is None);
                    assert(xml_dec_body(c@, name@, body as int) is None);
                }
                Err(e)
            },
        }
    } else if chars_eq_lit(&name, "binary") {
        let t = match read_text(c, body) {
            Ok(p) => p,
            Err(e) => {
                proof {
                    assert(text_dec(c@, body as int, Seq::empty()) is None);
                    assert(xml_dec_body(c@, name@, body as int) is None);
                }
                return Err(e);
            },
        };
        let trimmed = trim_chars(&t.0);
        let ts = chars_string(&trimmed);
        let bytes = match base64_decode(ts.as_str()) {
            Some(b) => b,
            None => {
                proof {
                    assert(crate::trusted::base64_decode_of(trim_spec(t.0@)) is None);
                    assert(xml_dec_body(c@, name@, body as int) is None);
                }
                return Err(LLSDError::Base64Error);
            },
        };
        match expect_close(c, t.1, "binary") {
            Ok(p2) => {
                proof {
                    assert(xml_dec_body(c@, name@, body as int) == Some((ValueView::Binary(bytes@), p2 as int)));
                }
                Ok((LLSDValue::Binary(bytes), p2))
            },
            Err(e) => {
                proof {
                    assert(close_end(c@, t.1 as int, name@) is None);
                    assert(xml_dec_body(c@, name@, body as int) is None);
                }
                Err(e)
            },
        }
    } else if chars_eq_lit(&name, "array") {
        parse_xml_array(c, body)
    } else if chars_eq_lit(&name, "map") {
        parse_xml_map(c, body)
    } else {
        Err(LLSDError::CustomError { message: ("unknown element").to_owned() })
    }
}

/// Parse array children until the closing tag.
#[verifier::loop_isolation(false)]
fn parse_xml_array(c: &Vec<char>, pos: usize) -> (r: Result<(LLSDValue, usize), LLSDError>)
    requires
        pos <= c@.len(),
    ensures
        r matches Ok(p) ==> p.0@.wf() && pos <= p.1 <= c@.len() && xml_dec_items(
            c@,
            pos as int,
            Seq::empty(),
        ) == Some((p.0@, p.1 as int)),
        r is Err ==> xml_dec_items(c@, pos as int, Seq::empty()) is None,
        r matches Err(e) ==> (e is XmlError || e is CustomError || e is InvalidUuid
            || e is InvalidDate || e is Base64Error),
    decreases c@.len() - pos, 1int,
{
    proof {
        reveal_strlit("</array>");
    }
    let mut out: Vec<LLSDValue> = Vec::new();
    let mut cur: usize = pos;
    loop
        invariant
            pos <= cur <= c@.len(),
            wf_seq(views_of(out@)),
            xml_dec_items(c@, pos as int, Seq::empty()) == xml_dec_items(
                c@,
                cur as int,
                views_of(out@),
            ),
        decreases c@.len() - cur,
    {
        proof {
            lemma_views_of(out@);
        }
        let i = skip_ws(c, cur);
        if i >= c.len() {
            return Err(LLSDError::XmlError { message: ("unterminated array").to_owned() });
        }
        if starts_with_lit(c, i, "</array>") {
            proof {
                assert(xml_dec_items(c@, cur as int, views_of(out@)) == Some((
                    ValueView::Array(views_of(out@)),
                    i + 8,
                )));
            }
            return Ok((LLSDValue::Array(out), i + 8));
        }
        let child = match parse_xml_element(c, i) {
            Ok(p) => p,
            Err(e) => {
                proof {
                    assert(xml_dec_items(c@, cur as int, views_of(out@)) is None);
                }
                return Err(e);
            },
        };
        let ghost pre = out@;
        proof {
            assert(xml_dec_items(c@, cur as int, views_of(pre)) == xml_dec_items(
                c@,
                child.1 as int,
                views_of(pre).push(child.0@),
            ));
        }
        out.push(child.0);
        proof {
            lemma_views_of(out@);
            lemma_views_of(pre);
            lemma_wf_seq(views_of(out@));
            lemma_wf_seq(views_of(pre));
            assert(views_of(out@) =~= views_of(pre).push(child.0@));
        }
        cur = child.1;
    }
}

/// Parse map keys and values until the closing tag; duplicate keys
/// overwrite in place, so the keys stay unique.
#[verifier::loop_isolation(false)]
fn parse_xml_map(c: &Vec<char>, pos: usize) -> (r: Result<(LLSDValue, usize), LLSDError>)
    requires
        pos <= c@.len(),
    ensures
        r matches Ok(p) ==> p.0@.wf() && pos <= p.1 <= c@.len() && xml_dec_entries(
            c@,
            pos as int,
            Seq::empty(),
        ) == Some((p.0@, p.1 as int)),
        r is Err ==> xml_dec_entries(c@, pos as int, Seq::empty()) is None,
        r matches Err(e) ==> (e is XmlError || e is CustomError || e is InvalidUuid
            || e is InvalidDate || e is Base64Error),
    decreases c@.len() - pos, 1int,
{
    proof {
        reveal_strlit("</map>");
        reveal_strlit("<key>");
        reveal_strlit("key");
    }
    let mut out: Vec<(String, LLSDValue)> = Vec::new();
    let mut cur: usize = pos;
    loop
        invariant
            pos <= cur <= c@.len(),
            wf_entries(entry_views_of(out@)),
            xml_dec_entries(c@, pos as int, Seq::empty()) == xml_dec_entries(
                c@,
                cur as int,
                entry_views_of(out@),
            ),
        decreases c@.len() - cur,
    {
        proof {
            lemma_entry_views_of(out@);
        }
        let i = skip_ws(c, cur);
        if i >= c.len() {
            return Err(LLSDError::XmlError { message: ("unterminated map").to_owned() });
        }
        if starts_with_lit(c, i, "</map>") {
            proof {
                assert(xml_dec_entries(c@, cur as int, entry_views_of(out@)) == Some((
                    ValueView::Dict(entry_views_of(out@)),
                    i + 6,
                )));
            }
            return Ok((LLSDValue::Dict(out), i + 6));
        }
        if !starts_with_lit(c, i, "<key>") {
            proof {
                assert(xml_dec_entries(c@, cur as int, entry_views_of(out@)) is None);
            }
            return Err(LLSDError::XmlError {
                message: ("a map value without a key").to_owned(),
            });
        }
        let kt = match read_text(c, i + 5) {
            Ok(p) => p,
            Err(e) => {
                proof {
                    assert(text_dec(c@, i + 5, Seq::empty()) is None);
                    assert(xml_dec_entries(c@, cur as int, entry_views_of(out@)) is None);
                }
                return Err(e);
            },
        };
        let after_key = match expect_close(c, kt.1, "key") {
            Ok(p) => p,
            Err(e) => {
                proof {
                    assert(close_end(c@, kt.1 as int, "key"@) is None);
                    assert(xml_dec_entries(c@, cur as int, entry_views_of(out@)) is None);
                }
                return Err(e);
            },
        };
        let key = chars_string(&kt.0);
        let j = skip_ws(c, after_key);
        if starts_with_lit(c, j, "</map>") || starts_with_lit(c, j, "<key>") {
            proof {
                assert(xml_dec_entries(c@, cur as int, entry_views_of(out@)) is None);
            }
            return Err(LLSDError::XmlError {
                message: ("a key without a value").to_owned(),
            });
        }
        let child = match parse_xml_element(c, j) {
            Ok(p) => p,
            Err(e) => {
                proof {
                    assert(xml_dec_element(c@, j as int) is None);
                    assert(xml_dec_entries(c@, cur as int, entry_views_of(out@)) is None);
                }
                return Err(e);
            },
        };
        proof {
            lemma_entry_views_of(out@);
        }
        let ghost pre = entry_views_of(out@);
        proof {
            assert(xml_dec_entries(c@, cur as int, pre) == xml_dec_entries(
                c@,
                child.1 as int,
                dict_set(pre, kt.0@, child.0@),
            ));
        }
        match crate::types::dict_position(&out, &key) {
            Some(at) => {
                let removed = out.remove(at);
                out.insert(at, (key, child.0));
                proof {
                    lemma_entry_views_of(out@);
                    assert(entry_views_of(out@) =~= pre.update(at as int, (key@, child.0@)));
                    assert(pre[at as int].0 == key@);
                    lemma_dict_set_update(pre, at as int, child.0@);
                    assert(entry_views_of(out@) == dict_set(pre, kt.0@, child.0@));
                    lemma_wf_entries_vals(pre);
                    lemma_wf_entries_vals(entry_views_of(out@));
                    assert forall|x: int, y: int|
                        0 <= x < y < entry_views_of(out@).len() implies entry_views_of(
                        out@)[x].0 != entry_views_of(out@)[y].0 by {
                        assert(entry_views_of(out@)[x].0 == pre[x].0);
                        assert(entry_views_of(out@)[y].0 == pre[y].0);
                    }
                    assert(wf_entries(entry_views_of(out@)));
                }
            },
            None => {
                out.push((key, child.0));
                proof {
                    lemma_entry_views_of(out@);
                    assert(entry_views_of(out@) =~= pre.push((key@, child.0@)));
                    lemma_wf_entries_vals(pre);
                    lemma_wf_entries_vals(entry_views_of(out@));
                    crate::utils::lemma_dict_get_absent(pre, key@);
                    lemma_dict_set_new(pre, key@, child.0@);
                    assert(entry_views_of(out@) == dict_set(pre, kt.0@, child.0@));
                    assert forall|x: int, y: int|
                        0 <= x < y < entry_views_of(out@).len() implies entry_views_of(
                        out@)[x].0 != entry_views_of(out@)[y].0 by {
                        if y < pre.len() {
                            assert(entry_views_of(out@)[x].0 == pre[x].0);
                            assert(entry_views_of(out@)[y].0 == pre[y].0);
                        } else {
                            assert(entry_views_of(out@)[x].0 == pre[x].0);
                            assert(entry_views_of(out@)[y].0 == key@);
                        }
                    }
                    assert(wf_entries(entry_views_of(out@)));
                }
            },
        }
        cur = child.1;
    }
}

} // verus!
