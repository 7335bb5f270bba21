//! A self-describing structured-data format with three interoperable wire
//! encodings — tagged binary, XML and JSON — over one navigable in-memory
//! value model, together with a dotted-path navigator, a recursive map
//! merge, a constraint validator and a bounded TTL cache.

pub mod base64_text;
pub mod binary;
pub mod error;
pub mod firestorm;
pub mod json;
pub mod secondlife;
pub mod text;
pub mod trusted;
pub mod types;
pub mod utils;
pub mod uuid_text;
pub mod xml;

pub use crate::types::{LLSDValue, LLSDType, LLSDFormat, LLSDDocument, LLSDDate, ValueView};
pub use crate::error::{LLSDError, LLSDResult, QuotaKind};
pub use crate::utils::LLSDUtils;
pub use crate::xml::{LLSDXmlParser, LLSDXmlSerializer};
pub use crate::binary::{LLSDBinaryParser, LLSDBinarySerializer};
pub use crate::json::{LLSDJsonParser, LLSDJsonSerializer};
pub use crate::secondlife::{SecondLifeLLSDUtils, SLValidationRules, ValidationResult,
    validate_sl_structure};
pub use crate::firestorm::{FirestormLLSDUtils, FSValidationRules, FSValidationResult,
    FSLLSDCache, validate_fs_structure};

use vstd::prelude::*;

verus! {

/// One-call entry points over the default-configured parsers and
/// serializers.
pub struct LLSDFactory {
}

impl LLSDFactory {
    /// Parse a document from XML text with the default parser.
    pub fn parse_xml(xml: &str) -> (r: LLSDResult<LLSDDocument>)
        ensures
            r is Ok <==> crate::xml::xml_dec_document(xml@) is Some,
            r matches Ok(doc) ==> Some(doc@) == crate::xml::xml_dec_document(xml@) && doc@.wf(),
    {
        let parser = LLSDXmlParser::new();
        parser.parse(xml)
    }

    /// Parse a document from binary data with the default parser: magic
    /// validation on, a depth quota of 1000 and an element quota of one
    /// million.
    pub fn parse_binary(data: &[u8]) -> (r: LLSDResult<LLSDDocument>)
        ensures
            r is Ok <==> (data@.len() >= 4 && data@.subrange(0, 4) == crate::binary::magic_bytes()
                && crate::binary::bin_dec(data@, 4, 1000, 1_000_000) is Some),
            r matches Ok(doc) ==> Some(doc@) == (match crate::binary::bin_dec(
                data@,
                4,
                1000,
                1_000_000,
            ) {
                Some(p) => Some(p.0),
                None => None,
            }) && doc@.wf(),
            (r is Err && r->Err_0 is InvalidMagic) <==> !(data@.len() >= 4 && data@.subrange(0, 4)
                == crate::binary::magic_bytes()),
            r is Err && !(r->Err_0 is InvalidMagic) ==> crate::binary::bin_err_matches(
                crate::binary::bin_err(data@, 4, 1000, 1_000_000),
                r->Err_0,
            ),
    {
        let parser = LLSDBinaryParser::new();
        parser.parse(data)
    }

    /// Parse a document from JSON text with the default parser (strict
    /// UUID mode off).
    pub fn parse_json(json: &str) -> (r: LLSDResult<LLSDDocument>)
        ensures
            r is Ok <==> crate::json::json_dec_document(json@, false) is Some,
            r matches Ok(doc) ==> Some(doc@) == crate::json::json_dec_document(json@, false)
                && doc@.wf(),
    {
        let parser = LLSDJsonParser::new();
        parser.parse(json)
    }

    /// Serialize a document to XML text.
    pub fn serialize_xml(document: &LLSDDocument, pretty: bool) -> (r: LLSDResult<String>)
        ensures
            r is Ok <==> crate::xml::xml_encodable(document@),
            !pretty && r is Ok ==> r->Ok_0@ == crate::xml::xml_header() + crate::xml::xml_enc(
                document@,
            ) + "</llsd>"@,
            pretty && r is Ok ==> r->Ok_0@ == crate::xml::xml_header() + "\n"@
                + crate::xml::xml_enc_p(document@, 1, 2) + "\n"@ + "</llsd>"@,
    {
        let serializer = LLSDXmlSerializer::new().with_pretty_print(pretty);
        serializer.serialize(document)
    }

    /// Serialize a document to binary data, with the magic header.
    pub fn serialize_binary(document: &LLSDDocument) -> (r: LLSDResult<Vec<u8>>)
        ensures
            r is Ok <==> crate::binary::bin_encodable(document@),
            r matches Ok(out) ==> out@ == crate::binary::magic_bytes() + crate::binary::bin_enc(
                document@,
            ),
    {
        let serializer = LLSDBinarySerializer::new();
        serializer.serialize(document)
    }

    /// Serialize a document to JSON text, without type preservation.
    pub fn serialize_json(document: &LLSDDocument, pretty: bool) -> (r: LLSDResult<String>)
        ensures
            r is Ok <==> crate::json::json_encodable(document@),
            !pretty && r is Ok ==> r->Ok_0@ == crate::json::json_enc(document@, false),
            pretty && r is Ok ==> r->Ok_0@ == crate::json::json_enc_p(document@, false, 1),
            r is Err ==> (r->Err_0 is InvalidNumber || r->Err_0 is InvalidDate),
            r is Err ==> (r->Err_0 is InvalidNumber <==> crate::json::json_fail_real(document@)),
    {
        let serializer = LLSDJsonSerializer::new().with_pretty_print(pretty);
        serializer.serialize(document)
    }

    /// Wrap a value in a document.
    pub fn create(content: LLSDValue) -> (r: LLSDDocument)
        ensures
            r@ == content@,
    {
        LLSDDocument::new(content)
    }

    /// A document whose root is an empty map.
    pub fn create_map() -> (r: LLSDDocument)
        ensures
            r@ == ValueView::Dict(Seq::<(Seq<char>, ValueView)>::empty()),
    {
        proof {
            assert(crate::types::entry_views_of(Seq::<(String, LLSDValue)>::empty()) =~= Seq::<
                (Seq<char>, ValueView),
            >::empty());
        }
        LLSDDocument::new(LLSDValue::Dict(Vec::new()))
    }

    /// A document whose root is an empty array.
    pub fn create_array() -> (r: LLSDDocument)
        ensures
            r@ == ValueView::Array(Seq::<ValueView>::empty()),
    {
        proof {
            assert(crate::types::views_of(Seq::<LLSDValue>::empty()) =~= Seq::<
                ValueView,
            >::empty());
        }
        LLSDDocument::new(LLSDValue::Array(Vec::new()))
    }
}

} // verus!
