//! Validation rules for structured records, a rule-driven validator, and a
//! few record builders used by Second Life style consumers of the codecs.

use vstd::prelude::*;
use crate::types::{LLSDValue, ValueView, LLSDDate, entry_views_of, lemma_entry_views_of,
    dict_get, str_views};
use crate::trusted::{clock_millis, generate_uuid_bytes};


verus! {

broadcast use vstd::utf8::char_u32_cast;

/// Record builders for Second Life style structures.
pub struct SecondLifeLLSDUtils {
}

impl SecondLifeLLSDUtils {
    /// A response record: success flag, message, and optional data.
    pub fn create_sl_response(success: bool, message: &str, data: Option<LLSDValue>) -> (r: Vec<
        (String, LLSDValue),
    >)
        ensures
            entry_views_of(r@) == (match data {
                Some(d) => seq![
                    ("success"@, ValueView::Boolean(success)),
                    ("message"@, ValueView::String(message@)),
                    ("data"@, d@),
                ],
                None => seq![
                    ("success"@, ValueView::Boolean(success)),
                    ("message"@, ValueView::String(message@)),
                ],
            }),
    {
        let mut out: Vec<(String, LLSDValue)> = Vec::new();
        out.push((("success").to_owned(), LLSDValue::Boolean(success)));
        out.push((("message").to_owned(), LLSDValue::String(message.to_owned())));
        match data {
            Some(d) => {
                out.push((("data").to_owned(), d));
                proof {
                    lemma_entry_views_of(out@);
                    assert(entry_views_of(out@) =~= seq![
                        ("success"@, ValueView::Boolean(success)),
                        ("message"@, ValueView::String(message@)),
                        ("data"@, out@[2].1@),
                    ]);
                }
            },
            None => {
                proof {
                    lemma_entry_views_of(out@);
                    assert(entry_views_of(out@) =~= seq![
                        ("success"@, ValueView::Boolean(success)),
                        ("message"@, ValueView::String(message@)),
                    ]);
                }
            },
        }
        out
    }

    /// Whether a UUID is valid by Second Life's standard: not the nil UUID.
    pub fn is_valid_sl_uuid(uuid: &[u8; 16]) -> (r: bool)
        ensures
            r == exists|i: int| 0 <= i < 16 && uuid@[i] != 0,
    {
        let mut i: usize = 0;
        while i < 16
            invariant
                i <= 16,
                uuid@.len() == 16,
                forall|j: int| 0 <= j < i ==> uuid@[j] == 0,
            decreases 16 - i,
        {
            if uuid[i] != 0 {
                return true;
            }
            i = i + 1;
        }
        false
    }

    /// An agent appearance record.
    pub fn create_agent_appearance(
        agent_id: [u8; 16],
        serial_number: u32,
        is_trial: bool,
        attachments: Vec<LLSDValue>,
        visual_params: Vec<u8>,
        texture_hashes: Vec<LLSDValue>,
    ) -> (r: Vec<(String, LLSDValue)>)
        ensures
            entry_views_of(r@) == seq![
                ("agent_id"@, ValueView::UUID(agent_id@)),
                ("serial_number"@, ValueView::Integer(serial_number as i32 as int)),
                ("is_trial_account"@, ValueView::Boolean(is_trial)),
                ("attachments"@, ValueView::Array(crate::types::views_of(attachments@))),
                ("visual_params"@, ValueView::Binary(visual_params@)),
                ("texture_hashes"@, ValueView::Array(crate::types::views_of(texture_hashes@))),
                ("appearance_version"@, ValueView::Integer(1)),
                ("cof_version"@, ValueView::Integer(1)),
            ],
    {
        let mut out: Vec<(String, LLSDValue)> = Vec::new();
        out.push((("agent_id").to_owned(), LLSDValue::UUID(agent_id)));
        out.push((("serial_number").to_owned(), LLSDValue::Integer(
            #[verifier::truncate] (serial_number as i32),
        )));
        out.push((("is_trial_account").to_owned(), LLSDValue::Boolean(is_trial)));
        out.push((("attachments").to_owned(), LLSDValue::Array(attachments)));
        out.push((("visual_params").to_owned(), LLSDValue::Binary(visual_params)));
        out.push((("texture_hashes").to_owned(), LLSDValue::Array(texture_hashes)));
        out.push((("appearance_version").to_owned(), LLSDValue::Integer(1)));
        out.push((("cof_version").to_owned(), LLSDValue::Integer(1)));
        proof {
            lemma_entry_views_of(out@);
            assert(entry_views_of(out@) =~= seq![
                ("agent_id"@, ValueView::UUID(agent_id@)),
                ("serial_number"@, ValueView::Integer(serial_number as i32 as int)),
                ("is_trial_account"@, ValueView::Boolean(is_trial)),
                ("attachments"@, ValueView::Array(crate::types::views_of(attachments@))),
                ("visual_params"@, ValueView::Binary(visual_params@)),
                ("texture_hashes"@, ValueView::Array(crate::types::views_of(texture_hashes@))),
                ("appearance_version"@, ValueView::Integer(1)),
                ("cof_version"@, ValueView::Integer(1)),
            ]);
        }
        out
    }

    /// An object properties record; the creation date is read from the
    /// wall clock.
    pub fn create_object_properties(
        object_id: [u8; 16],
        owner_id: [u8; 16],
        group_id: [u8; 16],
        name: &str,
        description: &str,
        permissions: Vec<(String, LLSDValue)>,
    ) -> (r: Vec<(String, LLSDValue)>)
        ensures
            entry_views_of(r@).len() == 8,
            entry_views_of(r@).take(7) == seq![
                ("object_id"@, ValueView::UUID(object_id@)),
                ("owner_id"@, ValueView::UUID(owner_id@)),
                ("group_id"@, ValueView::UUID(group_id@)),
                ("name"@, ValueView::String(name@)),
                ("description"@, ValueView::String(description@)),
                ("permissions"@, ValueView::Dict(entry_views_of(permissions@))),
                ("sale_info"@, ValueView::Dict(seq![
                    ("sale_price"@, ValueView::Integer(0)),
                    ("sale_type"@, ValueView::Integer(0)),
                ])),
            ],
            entry_views_of(r@)[7].0 == "creation_date"@ && entry_views_of(r@)[7].1 is Date,
    {
        let mut out: Vec<(String, LLSDValue)> = Vec::new();
        out.push((("object_id").to_owned(), LLSDValue::UUID(object_id)));
        out.push((("owner_id").to_owned(), LLSDValue::UUID(owner_id)));
        out.push((("group_id").to_owned(), LLSDValue::UUID(group_id)));
        out.push((("name").to_owned(), LLSDValue::String(name.to_owned())));
        out.push((("description").to_owned(), LLSDValue::String(description.to_owned())));
        out.push((("permissions").to_owned(), LLSDValue::Dict(permissions)));
        let mut sale_info: Vec<(String, LLSDValue)> = Vec::new();
        sale_info.push((("sale_price").to_owned(), LLSDValue::Integer(0)));
        sale_info.push((("sale_type").to_owned(), LLSDValue::Integer(0)));
        out.push((("sale_info").to_owned(), LLSDValue::Dict(sale_info)));
        let now = clock_millis();
        let secs: i64 = (now / 1000) as i64;
        out.push((("creation_date").to_owned(), LLSDValue::Date(
            LLSDDate { secs, nanos: 0 },
        )));
        proof {
            lemma_entry_views_of(out@);
            lemma_entry_views_of(sale_info@);
            assert(entry_views_of(sale_info@) =~= seq![
                ("sale_price"@, ValueView::Integer(0)),
                ("sale_type"@, ValueView::Integer(0)),
            ]);
            assert(entry_views_of(out@).len() == 8);
            assert(entry_views_of(out@).take(7) =~= seq![
                ("object_id"@, ValueView::UUID(object_id@)),
                ("owner_id"@, ValueView::UUID(owner_id@)),
                ("group_id"@, ValueView::UUID(group_id@)),
                ("name"@, ValueView::String(name@)),
                ("description"@, ValueView::String(description@)),
                ("permissions"@, ValueView::Dict(entry_views_of(permissions@))),
                ("sale_info"@, ValueView::Dict(entry_views_of(sale_info@))),
            ]);
        }
        out
    }

    /// An asset upload request; the folder is a fresh random UUID.
    pub fn create_asset_upload_request(
        asset_type: &str,
        name: &str,
        description: &str,
        data: Vec<u8>,
        expected_upload_cost: i32,
    ) -> (r: Vec<(String, LLSDValue)>)
        ensures
            entry_views_of(r@).len() == 9,
            entry_views_of(r@).take(4) == seq![
                ("asset_type"@, ValueView::String(asset_type@)),
                ("name"@, ValueView::String(name@)),
                ("description"@, ValueView::String(description@)),
                ("asset_resources"@, ValueView::Dict(seq![
                    ("asset_data"@, ValueView::Binary(data@)),
                ])),
            ],
            entry_views_of(r@)[4].0 == "folder_id"@ && entry_views_of(r@)[4].1 is UUID,
            entry_views_of(r@).skip(5) == seq![
                ("inventory_type"@, ValueView::Integer(inventory_type_of(asset_type@) as int)),
                ("expected_upload_cost"@, ValueView::Integer(expected_upload_cost as int)),
                ("everyone_mask"@, ValueView::Integer(0)),
                ("group_mask"@, ValueView::Integer(0)),
            ],
    {
        let mut out: Vec<(String, LLSDValue)> = Vec::new();
        out.push((("asset_type").to_owned(), LLSDValue::String(asset_type.to_owned())));
        out.push((("name").to_owned(), LLSDValue::String(name.to_owned())));
        out.push((("description").to_owned(), LLSDValue::String(description.to_owned())));
        let mut resources: Vec<(String, LLSDValue)> = Vec::new();
        resources.push((("asset_data").to_owned(), LLSDValue::Binary(data)));
        out.push((("asset_resources").to_owned(), LLSDValue::Dict(resources)));
        out.push((("folder_id").to_owned(), LLSDValue::UUID(generate_uuid_bytes())));
        out.push((("inventory_type").to_owned(), LLSDValue::Integer(
            Self::asset_type_to_inventory_type(asset_type),
        )));
        out.push((("expected_upload_cost").to_owned(), LLSDValue::Integer(
            expected_upload_cost,
        )));
        out.push((("everyone_mask").to_owned(), LLSDValue::Integer(0)));
        out.push((("group_mask").to_owned(), LLSDValue::Integer(0)));
        proof {
            lemma_entry_views_of(out@);
            lemma_entry_views_of(resources@);
            assert(entry_views_of(resources@) =~= seq![("asset_data"@, ValueView::Binary(
                data@))]);
            assert(entry_views_of(out@).len() == 9);
            assert(entry_views_of(out@).take(4) =~= seq![
                ("asset_type"@, ValueView::String(asset_type@)),
                ("name"@, ValueView::String(name@)),
                ("description"@, ValueView::String(description@)),
                ("asset_resources"@, ValueView::Dict(entry_views_of(resources@))),
            ]);
            assert(entry_views_of(out@).skip(5) =~= seq![
                ("inventory_type"@, ValueView::Integer(inventory_type_of(asset_type@) as int)),
                ("expected_upload_cost"@, ValueView::Integer(expected_upload_cost as int)),
                ("everyone_mask"@, ValueView::Integer(0)),
                ("group_mask"@, ValueView::Integer(0)),
            ]);
        }
        out
    }

    /// The inventory type code an asset type name maps to; unknown names
    /// map to -1.
    pub fn asset_type_to_inventory_type(asset_type: &str) -> (r: i32)
        ensures
            r == inventory_type_of(asset_type@),
    {
        let chars = crate::trusted::str_chars(asset_type);
        let low = lower_ascii_chars(&chars);
        if crate::xml::chars_eq_lit(&low, "texture") {
            0
        } else if crate::xml::chars_eq_lit(&low, "sound") {
            1
        } else if crate::xml::chars_eq_lit(&low, "callingcard") {
            2
        } else if crate::xml::chars_eq_lit(&low, "landmark") {
            3
        } else if crate::xml::chars_eq_lit(&low, "script") {
            10
        } else if crate::xml::chars_eq_lit(&low, "clothing") {
            5
        } else if crate::xml::chars_eq_lit(&low, "object") {
            6
        } else if crate::xml::chars_eq_lit(&low, "notecard") {
            7
        } else if crate::xml::chars_eq_lit(&low, "category") {
            8
        } else if crate::xml::chars_eq_lit(&low, "folder") {
            8
        } else if crate::xml::chars_eq_lit(&low, "rootcategory") {
            9
        } else if crate::xml::chars_eq_lit(&low, "lsltext") {
            10
        } else if crate::xml::chars_eq_lit(&low, "lslbyte") {
            11
        } else if crate::xml::chars_eq_lit(&low, "txtr_tga") {
            12
        } else if crate::xml::chars_eq_lit(&low, "bodypart") {
            13
        } else if crate::xml::chars_eq_lit(&low, "trash") {
            14
        } else if crate::xml::chars_eq_lit(&low, "snapshot") {
            15
        } else if crate::xml::chars_eq_lit(&low, "lostandfound") {
            16
        } else if crate::xml::chars_eq_lit(&low, "attachment") {
            17
        } else if crate::xml::chars_eq_lit(&low, "wearable") {
            18
        } else if crate::xml::chars_eq_lit(&low, "animation") {
            19
        } else if crate::xml::chars_eq_lit(&low, "gesture") {
            20
        } else if crate::xml::chars_eq_lit(&low, "mesh") {
            22
        } else {
            -1
        }
    }
}

/// ASCII lowercasing of one character.
pub open spec fn lower_char(c: char) -> char {
    if 'A' <= c <= 'Z' {
        (((c as u32) + 32) as u32) as char
    } else {
        c
    }
}

/// ASCII lowercasing of a text.
pub open spec fn lower_text(s: Seq<char>) -> Seq<char> {
    Seq::new(s.len(), |i: int| lower_char(s[i]))
}

/// The exec form of ASCII lowercasing.
#[verifier::loop_isolation(false)]
pub fn lower_ascii_chars(v: &Vec<char>) -> (r: Vec<char>)
    ensures
        r@ == lower_text(v@),
{
    let mut out: Vec<char> = Vec::new();
    let mut i: usize = 0;
    while i < v.len()
        invariant
            i <= v@.len(),
            out@.len() == i,
            forall|j: int| 0 <= j < i ==> out@[j] == lower_char(#[trigger] v@[j]),
        decreases v@.len() - i,
    {
        let c = v[i];
        if 'A' <= c && c <= 'Z' {
            let d: u32 = c as u32 + 32;
            proof {
                assert(c as u32 <= 'Z' as u32);
                assert(d < 0xD800);
            }
            let lc = match crate::trusted::char_from_u32(d) {
                Some(x) => x,
                None => c,
            };
            proof {
                vstd::utf8::char_u32_cast(lc, d);
                assert(lc == (d as char));
                assert(lower_char(c) == (d as char));
                assert(lc == lower_char(c));
            }
            out.push(lc);
        } else {
            out.push(c);
        }
        i = i + 1;
    }
    proof {
        assert(out@ =~= lower_text(v@));
    }
    out
}

/// The inventory type table over lowercased names.
pub open spec fn inventory_type_of(s: Seq<char>) -> i32 {
    let low = lower_text(s);
    if low == "texture"@ { 0 }
    else if low == "sound"@ { 1 }
    else if low == "callingcard"@ { 2 }
    else if low == "landmark"@ { 3 }
    else if low == "script"@ { 10 }
    else if low == "clothing"@ { 5 }
    else if low == "object"@ { 6 }
    else if low == "notecard"@ { 7 }
    else if low == "category"@ { 8 }
    else if low == "folder"@ { 8 }
    else if low == "rootcategory"@ { 9 }
    else if low == "lsltext"@ { 10 }
    else if low == "lslbyte"@ { 11 }
    else if low == "txtr_tga"@ { 12 }
    else if low == "bodypart"@ { 13 }
    else if low == "trash"@ { 14 }
    else if low == "snapshot"@ { 15 }
    else if low == "lostandfound"@ { 16 }
    else if low == "attachment"@ { 17 }
    else if low == "wearable"@ { 18 }
    else if low == "animation"@ { 19 }
    else if low == "gesture"@ { 20 }
    else if low == "mesh"@ { 22 }
    else { (-1) as i32 }
}

/// The views of a sequence of name/type pairs.
pub open spec fn pair_views(s: Seq<(String, String)>) -> Seq<(Seq<char>, Seq<char>)> {
    Seq::new(s.len(), |i: int| (s[i].0@, s[i].1@))
}

/// What a rule set demands of a record.
#[derive(Debug, Clone)]
pub struct SLValidationRules {
    pub requires_map: bool,
    pub requires_array: bool,
    pub required_fields: Vec<String>,
    pub field_types: Vec<(String, String)>,
}

impl SLValidationRules {
    /// Rules that demand nothing.
    pub fn new() -> (r: SLValidationRules)
        ensures
            !r.requires_map,
            !r.requires_array,
            r.required_fields@.len() == 0,
            r.field_types@.len() == 0,
    {
        SLValidationRules {
            requires_map: false,
            requires_array: false,
            required_fields: Vec::new(),
            field_types: Vec::new(),
        }
    }

    /// Also demand that the root is a map.
    pub fn require_map(self) -> (r: SLValidationRules)
        ensures
            r.requires_map,
            r.requires_array == self.requires_array,
            r.required_fields@ == self.required_fields@,
            r.field_types@ == self.field_types@,
    {
        SLValidationRules { requires_map: true, ..self }
    }

    /// Also demand that the root is an array.
    pub fn require_array(self) -> (r: SLValidationRules)
        ensures
            r.requires_array,
            r.requires_map == self.requires_map,
            r.required_fields@ == self.required_fields@,
            r.field_types@ == self.field_types@,
    {
        SLValidationRules { requires_array: true, ..self }
    }

    /// Also demand a field, optionally of a named type.
    pub fn require_field(self, name: &str, field_type: Option<&str>) -> (r: SLValidationRules)
        ensures
            r.requires_map == self.requires_map,
            r.requires_array == self.requires_array,
            str_views(r.required_fields@) == str_views(self.required_fields@).push(name@),
            (match field_type {
                Some(t) => pair_views(r.field_types@) == pair_views(self.field_types@).push(
                    (name@, t@),
                ),
                None => r.field_types@ == self.field_types@,
            }),
    {
        let mut s = self;
        s.required_fields.push(name.to_owned());
        proof {
            assert(str_views(s.required_fields@) =~= str_views(self.required_fields@).push(
                name@));
        }
        match field_type {
            Some(t) => {
                s.field_types.push((name.to_owned(), t.to_owned()));
                proof {
                    assert(pair_views(s.field_types@) =~= pair_views(self.field_types@).push(
                        (name@, t@)));
                }
            },
            None => {
            },
        }
        s
    }
}

impl Default for SLValidationRules {
    /// The default rules demand nothing.
    fn default() -> (r: Self)
        ensures
            !r.requires_map,
            !r.requires_array,
            r.required_fields@.len() == 0,
            r.field_types@.len() == 0,
    {
        SLValidationRules::new()
    }
}

/// What a validation pass found: hard errors and soft warnings.
#[derive(Debug, Clone)]
pub struct ValidationResult {
    errors: Vec<String>,
    warnings: Vec<String>,
}

impl ValidationResult {
    /// The view: the error texts and the warning texts, in order.
    pub closed spec fn view(&self) -> (Seq<Seq<char>>, Seq<Seq<char>>) {
        (str_views(self.errors@), str_views(self.warnings@))
    }

    /// A result with nothing found.
    pub fn new() -> (r: ValidationResult)
        ensures
            r@.0.len() == 0,
            r@.1.len() == 0,
    {
        ValidationResult { errors: Vec::new(), warnings: Vec::new() }
    }

    /// Record an error.
    pub fn add_error(&mut self, error: String)
        ensures
            final(self)@.0 == old(self)@.0.push(error@),
            final(self)@.1 == old(self)@.1,
    {
        self.errors.push(error);
        proof {
            assert(final(self)@.0 =~= old(self)@.0.push(error@));
            assert(final(self)@.1 =~= old(self)@.1);
        }
    }

    /// Record a warning.
    pub fn add_warning(&mut self, warning: String)
        ensures
            final(self)@.1 == old(self)@.1.push(warning@),
            final(self)@.0 == old(self)@.0,
    {
        self.warnings.push(warning);
        proof {
            assert(final(self)@.1 =~= old(self)@.1.push(warning@));
            assert(final(self)@.0 =~= old(self)@.0);
        }
    }

    /// Whether validation passed: no errors were found.
    pub fn is_valid(&self) -> (r: bool)
        ensures
            r == (self@.0.len() == 0),
    {
        self.errors.len() == 0
    }

    /// The errors found.
    pub fn errors(&self) -> (r: &Vec<String>)
        ensures
            str_views(r@) == self@.0,
    {
        &self.errors
    }

    /// The warnings found.
    pub fn warnings(&self) -> (r: &Vec<String>)
        ensures
            str_views(r@) == self@.1,
    {
        &self.warnings
    }

    /// Append errors found elsewhere.
    pub fn add_errors(&mut self, errors: &Vec<String>)
        ensures
            final(self)@.0.len() == old(self)@.0.len() + errors@.len(),
            final(self)@.1 == old(self)@.1,
    {
        let mut i: usize = 0;
        while i < errors.len()
            invariant
                i <= errors@.len(),
                self@.0.len() == old(self)@.0.len() + i,
                self@.1 == old(self)@.1,
            decreases errors@.len() - i,
        {
            let e = errors[i].clone();
            self.errors.push(e);
            proof {
                assert(self@.0 =~= str_views(self.errors@));
            }
            i = i + 1;
        }
    }

    /// Append warnings found elsewhere.
    pub fn add_warnings(&mut self, warnings: &Vec<String>)
        ensures
            final(self)@.1.len() == old(self)@.1.len() + warnings@.len(),
            final(self)@.0 == old(self)@.0,
    {
        let mut i: usize = 0;
        while i < warnings.len()
            invariant
                i <= warnings@.len(),
                self@.1.len() == old(self)@.1.len() + i,
                self@.0 == old(self)@.0,
            decreases warnings@.len() - i,
        {
            let w = warnings[i].clone();
            self.warnings.push(w);
            i = i + 1;
        }
    }
}

impl Default for ValidationResult {
    /// The default result has nothing recorded.
    fn default() -> (r: Self)
        ensures
            r@.0.len() == 0,
            r@.1.len() == 0,
    {
        ValidationResult::new()
    }
}

/// Whether a record satisfies a rule set's hard demands: the root kind and
/// the presence of every required field.
pub open spec fn sl_ok(v: ValueView, rules: SLValidationRules) -> bool {
    &&& (rules.requires_map ==> v is Dict)
    &&& (rules.requires_array ==> v is Array)
    &&& (v is Dict ==> forall|i: int| 0 <= i < rules.required_fields@.len() ==> dict_get(
        v->Dict_0,
        (#[trigger] rules.required_fields@[i])@,
    ) is Some)
}

/// Validate a record against a rule set: errors mark exactly the violated
/// hard demands; type mismatches only warn.
#[verifier::loop_isolation(false)]
pub fn validate_sl_structure(llsd_data: &LLSDValue, rules: &SLValidationRules) -> (r:
    ValidationResult)
    ensures
        (r@.0.len() == 0) == sl_ok(llsd_data@, *rules),
{
    let mut result = ValidationResult::new();
    if rules.requires_map && !matches!(llsd_data, LLSDValue::Dict(_)) {
        result.add_error(("the root must be a map").to_owned());
        return result;
    }
    if rules.requires_array && !matches!(llsd_data, LLSDValue::Array(_)) {
        result.add_error(("the root must be an array").to_owned());
        return result;
    }
    match llsd_data {
        LLSDValue::Dict(map) => {
            let mut i: usize = 0;
            while i < rules.required_fields.len()
                invariant
                    i <= rules.required_fields@.len(),
                    result@.1.len() == 0,
                    (result@.0.len() == 0) == (forall|k: int| 0 <= k < i ==> dict_get(
                        llsd_data@->Dict_0,
                        (#[trigger] rules.required_fields@[k])@,
                    ) is Some),
                decreases rules.required_fields@.len() - i,
            {
                let field = &rules.required_fields[i];
                match crate::types::dict_find(map, field) {
                    Some(found) => {
                    },
                    None => {
                        result.add_error(("a required field is missing").to_owned());
                    },
                }
                i = i + 1;
            }
            let mut j: usize = 0;
            while j < rules.field_types.len()
                invariant
                    j <= rules.field_types@.len(),
                    (result@.0.len() == 0) == sl_ok(llsd_data@, *rules),
                decreases rules.field_types@.len() - j,
            {
                let fname = &rules.field_types[j].0;
                match crate::types::dict_find(map, fname) {
                    Some(found) => {
                        let expected = &rules.field_types[j].1;
                        let actual = kind_name(found);
                        let ec = crate::trusted::str_chars(expected.as_str());
                        let ac = crate::trusted::str_chars(actual);
                        if !vecs_eq(&ec, &ac) {
                            result.add_warning(("a field has an unexpected type").to_owned());
                        }
                    },
                    None => {
                    },
                }
                j = j + 1;
            }
            result
        },
        _ => {
            result
        },
    }
}

/// Character-for-character equality of two texts.
pub(crate) fn vecs_eq(a: &Vec<char>, b: &Vec<char>) -> (r: bool)
    ensures
        r == (a@ == b@),
{
    if a.len() != b.len() {
        return false;
    }
    let mut i: usize = 0;
    while i < a.len()
        invariant
            i <= a@.len(),
            a@.len() == b@.len(),
            forall|j: int| 0 <= j < i ==> a@[j] == b@[j],
        decreases a@.len() - i,
    {
        if a[i] != b[i] {
            return false;
        }
        i = i + 1;
    }
    proof {
        assert(a@ =~= b@);
    }
    true
}

/// The lowercase name of a value's kind.
pub fn kind_name(v: &LLSDValue) -> (r: &'static str)
    ensures
        r@ == kind_name_of(v@),
{
    match v {
        LLSDValue::Undefined => "undefined",
        LLSDValue::Boolean(_) => "boolean",
        LLSDValue::Integer(_) => "integer",
        LLSDValue::Real(_) => "real",
        LLSDValue::String(_) => "string",
        LLSDValue::UUID(_) => "uuid",
        LLSDValue::Date(_) => "date",
        LLSDValue::URI(_) => "uri",
        LLSDValue::Binary(_) => "binary",
        LLSDValue::Dict(_) => "map",
        LLSDValue::Array(_) => "array",
    }
}

/// The lowercase kind names as the rule tables use them.
pub open spec fn kind_name_of(v: ValueView) -> Seq<char> {
    match v {
        ValueView::Undefined => "undefined"@,
        ValueView::Boolean(_) => "boolean"@,
        ValueView::Integer(_) => "integer"@,
        ValueView::Real(_) => "real"@,
        ValueView::String(_) => "string"@,
        ValueView::UUID(_) => "uuid"@,
        ValueView::Date(_, _) => "date"@,
        ValueView::URI(_) => "uri"@,
        ValueView::Binary(_) => "binary"@,
        ValueView::Dict(_) => "map"@,
        ValueView::Array(_) => "array"@,
    }
}

} // verus!
