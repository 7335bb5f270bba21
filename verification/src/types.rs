//! The LLSD value model: a tagged sum over the eleven primitive kinds,
//! together with the document wrapper that owns a single root value.
//!
//! Reals are carried as the bit pattern of an IEEE-754 double (`u64`), so
//! that equality is bitwise, as the data model demands.  Dates are carried
//! as a UTC instant split into whole seconds since the Unix epoch and a
//! sub-second nanosecond part.

use vstd::prelude::*;

verus! {

/// Mathematical model of an LLSD value.  Maps are modelled as ordered
/// association sequences whose keys are unique; the order is the insertion
/// order that the owning `LLSDValue` exposes.
pub enum ValueView {
    Undefined,
    Boolean(bool),
    Integer(int),
    Real(u64),
    String(Seq<char>),
    UUID(Seq<u8>),
    Date(int, int),
    URI(Seq<char>),
    Binary(Seq<u8>),
    Array(Seq<ValueView>),
    Dict(Seq<(Seq<char>, ValueView)>),
}

/// The eleven LLSD type identities.
#[derive(Debug, Clone, Copy, PartialEq, Eq, Structural, Hash)]
pub enum LLSDType {
    Unknown,
    Boolean,
    Integer,
    Real,
    String,
    UUID,
    Date,
    URI,
    Binary,
    Dict,
    Array,
}

/// The wire encodings this library speaks.
#[derive(Debug, Clone, Copy, PartialEq, Eq, Structural, Hash)]
pub enum LLSDFormat {
    XML,
    JSON,
    Binary,
    Notation,
}

/// An instant in UTC: whole seconds since the Unix epoch plus a nanosecond
/// part in `[0, 1_000_000_000)`.  `secs` may be negative for instants before
/// the epoch; `nanos` always counts forward from `secs`.
#[derive(Debug, Clone, Copy)]
pub struct LLSDDate {
    pub secs: i64,
    pub nanos: u32,
}

impl LLSDDate {
    /// A well-formed date has a normalized nanosecond part.
    pub open spec fn wf(self) -> bool {
        0 <= self.nanos < 1_000_000_000
    }

    pub fn new(secs: i64, nanos: u32) -> (r: Option<LLSDDate>)
        ensures
            r is Some <==> nanos < 1_000_000_000,
            r is Some ==> (r->0.secs == secs && r->0.nanos == nanos && r->0.wf()),
    {
        if nanos < 1_000_000_000 {
            Some(LLSDDate { secs, nanos })
        } else {
            None
        }
    }
}

/// An LLSD value: the in-memory form of every wire encoding.
#[derive(Debug)]
pub enum LLSDValue {
    Undefined,
    Boolean(bool),
    Integer(i32),
    Real(u64),
    String(String),
    UUID([u8; 16]),
    Date(LLSDDate),
    URI(String),
    Binary(Vec<u8>),
    Array(Vec<LLSDValue>),
    Dict(Vec<(String, LLSDValue)>),
}

/// The model of one value.
pub open spec fn view_of(v: LLSDValue) -> ValueView
    decreases v, 1int, 0int,
{
    match v {
        LLSDValue::Undefined => ValueView::Undefined,
        LLSDValue::Boolean(b) => ValueView::Boolean(b),
        LLSDValue::Integer(i) => ValueView::Integer(i as int),
        LLSDValue::Real(bits) => ValueView::Real(bits),
        LLSDValue::String(s) => ValueView::String(s@),
        LLSDValue::UUID(u) => ValueView::UUID(u@),
        LLSDValue::Date(d) => ValueView::Date(d.secs as int, d.nanos as int),
        LLSDValue::URI(s) => ValueView::URI(s@),
        LLSDValue::Binary(b) => ValueView::Binary(b@),
        LLSDValue::Array(a) => ValueView::Array(views_of(a@)),
        LLSDValue::Dict(m) => ValueView::Dict(entry_views_of(m@)),
    }
}

/// The models of a sequence of values, in order.
pub open spec fn views_of(s: Seq<LLSDValue>) -> Seq<ValueView>
    decreases s, 0int, s.len(),
{
    if s.len() == 0 {
        Seq::empty()
    } else {
        seq![view_of(s[0])] + views_of(s.drop_first())
    }
}

/// The models of a sequence of map entries, in order.
pub open spec fn entry_views_of(s: Seq<(String, LLSDValue)>) -> Seq<(Seq<char>, ValueView)>
    decreases s, 0int, s.len(),
{
    if s.len() == 0 {
        Seq::empty()
    } else {
        seq![(s[0].0@, view_of(s[0].1))] + entry_views_of(s.drop_first())
    }
}

impl View for LLSDValue {
    type V = ValueView;

    open spec fn view(&self) -> ValueView {
        view_of(*self)
    }
}

/// `views_of` maps the sequence pointwise.
pub proof fn lemma_views_of(s: Seq<LLSDValue>)
    ensures
        views_of(s).len() == s.len(),
        forall|i: int| 0 <= i < s.len() ==> views_of(s)[i] == view_of(s[i]),
    decreases s.len(),
{
    if s.len() > 0 {
        lemma_views_of(s.drop_first());
    }
}

/// `entry_views_of` maps the sequence pointwise.
pub proof fn lemma_entry_views_of(s: Seq<(String, LLSDValue)>)
    ensures
        entry_views_of(s).len() == s.len(),
        forall|i: int| 0 <= i < s.len() ==> entry_views_of(s)[i] == (s[i].0@, view_of(s[i].1)),
    decreases s.len(),
{
    if s.len() > 0 {
        lemma_entry_views_of(s.drop_first());
    }
}

impl ValueView {
    /// The type identity of a modelled value.
    pub open spec fn kind(self) -> LLSDType {
        match self {
            ValueView::Undefined => LLSDType::Unknown,
            ValueView::Boolean(_) => LLSDType::Boolean,
            ValueView::Integer(_) => LLSDType::Integer,
            ValueView::Real(_) => LLSDType::Real,
            ValueView::String(_) => LLSDType::String,
            ValueView::UUID(_) => LLSDType::UUID,
            ValueView::Date(_, _) => LLSDType::Date,
            ValueView::URI(_) => LLSDType::URI,
            ValueView::Binary(_) => LLSDType::Binary,
            ValueView::Array(_) => LLSDType::Array,
            ValueView::Dict(_) => LLSDType::Dict,
        }
    }

    /// A well-formed value: integers fit 32 bits, UUIDs have 16 bytes,
    /// dates are normalized instants, and map keys are unique.
    pub open spec fn wf(self) -> bool
        decreases self, 1int, 0int,
    {
        match self {
            ValueView::Integer(i) => -0x8000_0000 <= i < 0x8000_0000,
            ValueView::UUID(b) => b.len() == 16,
            ValueView::Date(secs, nanos) => {
                &&& i64::MIN <= secs <= i64::MAX
                &&& 0 <= nanos < 1_000_000_000
            },
            ValueView::Array(a) => wf_seq(a),
            ValueView::Dict(m) => wf_entries(m),
            _ => true,
        }
    }
}

/// Well-formedness of each element of a sequence.
pub open spec fn wf_seq(s: Seq<ValueView>) -> bool
    decreases s, 0int, s.len(),
{
    if s.len() == 0 {
        true
    } else {
        s[0].wf() && wf_seq(s.drop_first())
    }
}

/// Well-formedness of map entries: every value is well formed and the keys
/// are pairwise distinct.
pub open spec fn wf_entries(m: Seq<(Seq<char>, ValueView)>) -> bool
    decreases m, 1int, 0int,
{
    &&& (forall|i: int, j: int|
        0 <= i < j < m.len() ==> m[i].0 != m[j].0)
    &&& wf_entries_vals(m)
}

/// Well-formedness of the values of map entries.
pub open spec fn wf_entries_vals(m: Seq<(Seq<char>, ValueView)>) -> bool
    decreases m, 0int, m.len(),
{
    if m.len() == 0 {
        true
    } else {
        m[0].1.wf() && wf_entries_vals(m.drop_first())
    }
}

/// Pointwise reading of `wf_seq`.
pub proof fn lemma_wf_seq(s: Seq<ValueView>)
    ensures
        wf_seq(s) <==> (forall|i: int| 0 <= i < s.len() ==> #[trigger] s[i].wf()),
    decreases s.len(),
{
    if s.len() > 0 {
        let d = s.drop_first();
        lemma_wf_seq(d);
        if forall|i: int| 0 <= i < s.len() ==> #[trigger] s[i].wf() {
            assert forall|i: int| 0 <= i < d.len() implies #[trigger] d[i].wf() by {
                assert(d[i] == s[i + 1]);
                assert(s[i + 1].wf());
            }
            assert(s[0].wf());
            assert(wf_seq(s));
        }
        if wf_seq(s) {
            assert forall|i: int| 0 <= i < s.len() implies #[trigger] s[i].wf() by {
                if i > 0 {
                    assert(s[i] == d[i - 1]);
                    assert(d[i - 1].wf());
                }
            }
        }
    }
}

impl LLSDValue {
    /// The type of this LLSD value.
    pub fn get_type(&self) -> (r: LLSDType)
        ensures
            r == self@.kind(),
    {
        match self {
            LLSDValue::Undefined => LLSDType::Unknown,
            LLSDValue::Boolean(_) => LLSDType::Boolean,
            LLSDValue::Integer(_) => LLSDType::Integer,
            LLSDValue::Real(_) => LLSDType::Real,
            LLSDValue::String(_) => LLSDType::String,
            LLSDValue::UUID(_) => LLSDType::UUID,
            LLSDValue::Date(_) => LLSDType::Date,
            LLSDValue::URI(_) => LLSDType::URI,
            LLSDValue::Binary(_) => LLSDType::Binary,
            LLSDValue::Dict(_) => LLSDType::Dict,
            LLSDValue::Array(_) => LLSDType::Array,
        }
    }

    /// Whether this value is the undefined marker.
    pub fn is_undefined(&self) -> (r: bool)
        ensures
            r == (self@ is Undefined),
    {
        matches!(self, LLSDValue::Undefined)
    }

    /// The boolean payload, if this value is a boolean.
    pub fn as_boolean(&self) -> (r: Option<bool>)
        ensures
            r == (match self@ {
                ValueView::Boolean(b) => Some(b),
                _ => None::<bool>,
            }),
    {
        match self {
            LLSDValue::Boolean(b) => Some(*b),
            _ => None,
        }
    }

    /// The integer payload, if this value is an integer.
    pub fn as_integer(&self) -> (r: Option<i32>)
        ensures
            r == (match self@ {
                ValueView::Integer(i) => Some(i as i32),
                _ => None::<i32>,
            }),
    {
        match self {
            LLSDValue::Integer(i) => Some(*i),
            _ => None,
        }
    }

    /// The real payload as IEEE-754 bits; an integer widens to its exact
    /// double.
    pub fn as_real(&self) -> (r: Option<u64>)
        ensures
            r == (match self@ {
                ValueView::Real(bits) => Some(bits),
                ValueView::Integer(i) => Some(crate::trusted::real_bits_of_i32(i as i32)),
                _ => None::<u64>,
            }),
    {
        match self {
            LLSDValue::Real(bits) => Some(*bits),
            LLSDValue::Integer(i) => Some(crate::trusted::i32_to_real_bits(*i)),
            _ => None,
        }
    }

    /// The string payload; a URI also reads as its text.
    pub fn as_string(&self) -> (r: Option<&str>)
        ensures
            r is Some <==> (self@ is String || self@ is URI),
            self@ is String ==> r->0@ == self@->String_0,
            self@ is URI ==> r->0@ == self@->URI_0,
    {
        match self {
            LLSDValue::String(s) => Some(s.as_str()),
            LLSDValue::URI(s) => Some(s.as_str()),
            _ => None,
        }
    }

    /// The UUID payload, if this value is a UUID.
    pub fn as_uuid(&self) -> (r: Option<[u8; 16]>)
        ensures
            r is Some <==> self@ is UUID,
            r is Some ==> r->0@ == self@->UUID_0,
    {
        match self {
            LLSDValue::UUID(u) => Some(*u),
            _ => None,
        }
    }

    /// The date payload, if this value is a date.
    pub fn as_date(&self) -> (r: Option<LLSDDate>)
        ensures
            r is Some <==> self@ is Date,
            r is Some ==> self@ == ValueView::Date(r->0.secs as int, r->0.nanos as int),
    {
        match self {
            LLSDValue::Date(d) => Some(*d),
            _ => None,
        }
    }

    /// The URI payload, if this value is a URI.
    pub fn as_uri(&self) -> (r: Option<&str>)
        ensures
            r is Some <==> self@ is URI,
            r is Some ==> r->0@ == self@->URI_0,
    {
        match self {
            LLSDValue::URI(u) => Some(u.as_str()),
            _ => None,
        }
    }

    /// The binary payload, if this value is an octet sequence.
    pub fn as_binary(&self) -> (r: Option<&[u8]>)
        ensures
            r is Some <==> self@ is Binary,
            r is Some ==> r->0@ == self@->Binary_0,
    {
        match self {
            LLSDValue::Binary(b) => Some(b.as_slice()),
            _ => None,
        }
    }

    /// The entries of a map value.
    pub fn as_map(&self) -> (r: Option<&Vec<(String, LLSDValue)>>)
        ensures
            r is Some <==> self@ is Dict,
            r is Some ==> entry_views_of(r->0@) == self@->Dict_0,
    {
        match self {
            LLSDValue::Dict(m) => Some(m),
            _ => None,
        }
    }

    /// Exclusive access to the entries of a map value.
    pub fn as_map_mut(&mut self) -> (r: Option<&mut Vec<(String, LLSDValue)>>)
        ensures
            r is Some <==> old(self)@ is Dict,
            r is None ==> *final(self) == *old(self),
    {
        match self {
            LLSDValue::Dict(m) => Some(m),
            _ => None,
        }
    }

    /// The elements of an array value.
    pub fn as_array(&self) -> (r: Option<&[LLSDValue]>)
        ensures
            r is Some <==> self@ is Array,
            r is Some ==> views_of(r->0@) == self@->Array_0,
    {
        match self {
            LLSDValue::Array(a) => Some(a.as_slice()),
            _ => None,
        }
    }

    /// Exclusive access to the elements of an array value.
    pub fn as_array_mut(&mut self) -> (r: Option<&mut Vec<LLSDValue>>)
        ensures
            r is Some <==> old(self)@ is Array,
            r is None ==> *final(self) == *old(self),
    {
        match self {
            LLSDValue::Array(a) => Some(a),
            _ => None,
        }
    }
}

/// Pointwise reading of `wf_entries_vals`.
pub proof fn lemma_wf_entries_vals(m: Seq<(Seq<char>, ValueView)>)
    ensures
        wf_entries_vals(m) <==> (forall|i: int|
            0 <= i < m.len() ==> (#[trigger] m[i].1).wf()),
    decreases m.len(),
{
    if m.len() > 0 {
        lemma_wf_entries_vals(m.drop_first());
        assert(forall|i: int|
            0 <= i < m.drop_first().len() ==> #[trigger] m.drop_first()[i] == m[i + 1]);
        if forall|i: int| 0 <= i < m.len() ==> (#[trigger] m[i].1).wf() {
            assert forall|i: int|
                0 <= i < m.drop_first().len() implies (#[trigger] m.drop_first()[i].1).wf() by {
                assert(m.drop_first()[i] == m[i + 1]);
            }
        }
        if wf_entries_vals(m) {
            assert forall|i: int| 0 <= i < m.len() implies (#[trigger] m[i].1).wf() by {
                if i > 0 {
                    assert(m[i] == m.drop_first()[i - 1]);
                }
            }
        }
    }
}

impl Clone for LLSDValue {
    /// A deep clone: the copy models the same value and shares no mutable
    /// structure with the source.
    fn clone(&self) -> (r: Self)
        ensures
            r@ == self@,
        decreases *self, 1int, 0int,
    {
        match self {
            LLSDValue::Undefined => LLSDValue::Undefined,
            LLSDValue::Boolean(b) => LLSDValue::Boolean(*b),
            LLSDValue::Integer(i) => LLSDValue::Integer(*i),
            LLSDValue::Real(bits) => LLSDValue::Real(*bits),
            LLSDValue::String(s) => LLSDValue::String(s.clone()),
            LLSDValue::UUID(u) => LLSDValue::UUID(*u),
            LLSDValue::Date(d) => LLSDValue::Date(*d),
            LLSDValue::URI(s) => LLSDValue::URI(s.clone()),
            LLSDValue::Binary(b) => LLSDValue::Binary(clone_bytes(b)),
            LLSDValue::Array(a) => LLSDValue::Array(clone_values(a)),
            LLSDValue::Dict(m) => LLSDValue::Dict(clone_entries(m)),
        }
    }
}

/// A copy of an octet sequence.
pub fn clone_bytes(b: &Vec<u8>) -> (r: Vec<u8>)
    ensures
        r@ == b@,
{
    let mut out: Vec<u8> = Vec::new();
    let mut i: usize = 0;
    while i < b.len()
        invariant
            i <= b.len(),
            out@ =~= b@.subrange(0, i as int),
        decreases b.len() - i,
    {
        out.push(b[i]);
        i = i + 1;
    }
    proof {
        assert(out@ =~= b@);
    }
    out
}

/// A deep copy of a sequence of values.
pub fn clone_values(a: &Vec<LLSDValue>) -> (r: Vec<LLSDValue>)
    ensures
        views_of(r@) == views_of(a@),
        r@.len() == a@.len(),
    decreases a@, 0int, a@.len(),
{
    let mut out: Vec<LLSDValue> = Vec::new();
    let mut i: usize = 0;
    while i < a.len()
        invariant
            i <= a.len(),
            out@.len() == i,
            forall|j: int| 0 <= j < i ==> view_of(#[trigger] out@[j]) == view_of(a@[j]),
        decreases a.len() - i,
    {
        let c = a[i].clone();
        out.push(c);
        i = i + 1;
    }
    proof {
        lemma_views_of(out@);
        lemma_views_of(a@);
        assert(views_of(out@) =~= views_of(a@));
    }
    out
}

/// A deep copy of a sequence of map entries.
pub fn clone_entries(m: &Vec<(String, LLSDValue)>) -> (r: Vec<(String, LLSDValue)>)
    ensures
        entry_views_of(r@) == entry_views_of(m@),
        r@.len() == m@.len(),
    decreases m@, 0int, m@.len(),
{
    let mut out: Vec<(String, LLSDValue)> = Vec::new();
    let mut i: usize = 0;
    while i < m.len()
        invariant
            i <= m.len(),
            out@.len() == i,
            forall|j: int| 0 <= j < i ==> (#[trigger] out@[j]).0@ == m@[j].0@
                && view_of(out@[j].1) == view_of(m@[j].1),
        decreases m.len() - i,
    {
        let entry = &m[i];
        let k = entry.0.clone();
        let v = entry.1.clone();
        out.push((k, v));
        i = i + 1;
    }
    proof {
        lemma_entry_views_of(out@);
        lemma_entry_views_of(m@);
        assert(entry_views_of(out@) =~= entry_views_of(m@));
    }
    out
}

/// Structural equality of two values, decided against the model.
pub fn eq_value(x: &LLSDValue, y: &LLSDValue) -> (r: bool)
    ensures
        r == (x@ == y@),
    decreases *x, 1int, 0int,
{
    match x {
        LLSDValue::Undefined => matches!(y, LLSDValue::Undefined),
        LLSDValue::Boolean(a) => match y {
            LLSDValue::Boolean(b) => a == b,
            _ => false,
        },
        LLSDValue::Integer(a) => match y {
            LLSDValue::Integer(b) => a == b,
            _ => false,
        },
        LLSDValue::Real(a) => match y {
            LLSDValue::Real(b) => a == b,
            _ => false,
        },
        LLSDValue::String(a) => match y {
            LLSDValue::String(b) => a.eq(b),
            _ => false,
        },
        LLSDValue::UUID(a) => match y {
            LLSDValue::UUID(b) => eq_bytes_16(a, b),
            _ => false,
        },
        LLSDValue::Date(a) => match y {
            LLSDValue::Date(b) => a.secs == b.secs && a.nanos == b.nanos,
            _ => false,
        },
        LLSDValue::URI(a) => match y {
            LLSDValue::URI(b) => a.eq(b),
            _ => false,
        },
        LLSDValue::Binary(a) => match y {
            LLSDValue::Binary(b) => eq_byte_vecs(a, b),
            _ => false,
        },
        LLSDValue::Array(a) => match y {
            LLSDValue::Array(b) => eq_values(a, b),
            _ => false,
        },
        LLSDValue::Dict(a) => match y {
            LLSDValue::Dict(b) => eq_entries(a, b),
            _ => false,
        },
    }
}

/// Pointwise structural equality of two value sequences.
pub fn eq_values(a: &Vec<LLSDValue>, b: &Vec<LLSDValue>) -> (r: bool)
    ensures
        r == (views_of(a@) == views_of(b@)),
    decreases a@, 0int, a@.len(),
{
    proof {
        lemma_views_of(a@);
        lemma_views_of(b@);
    }
    if a.len() != b.len() {
        proof {
            assert(views_of(a@).len() != views_of(b@).len());
        }
        return false;
    }
    let mut i: usize = 0;
    let mut same: bool = true;
    while i < a.len()
        invariant
            i <= a.len(),
            a@.len() == b@.len(),
            same == (forall|j: int| 0 <= j < i ==> view_of(#[trigger] a@[j]) == view_of(b@[j])),
        decreases a.len() - i,
    {
        if same {
            let e = eq_value(&a[i], &b[i]);
            same = e;
        }
        i = i + 1;
    }
    proof {
        if same {
            assert(views_of(a@) =~= views_of(b@));
        } else {
            let j = choose|j: int| 0 <= j < a@.len() && view_of(a@[j]) != view_of(b@[j]);
            assert(views_of(a@)[j] != views_of(b@)[j]);
        }
    }
    same
}

/// Pointwise structural equality of two entry sequences.
pub fn eq_entries(a: &Vec<(String, LLSDValue)>, b: &Vec<(String, LLSDValue)>) -> (r: bool)
    ensures
        r == (entry_views_of(a@) == entry_views_of(b@)),
    decreases a@, 0int, a@.len(),
{
    proof {
        lemma_entry_views_of(a@);
        lemma_entry_views_of(b@);
    }
    if a.len() != b.len() {
        proof {
            assert(entry_views_of(a@).len() != entry_views_of(b@).len());
        }
        return false;
    }
    let mut i: usize = 0;
    let mut same: bool = true;
    while i < a.len()
        invariant
            i <= a.len(),
            a@.len() == b@.len(),
            same == (forall|j: int| 0 <= j < i ==> (#[trigger] a@[j]).0@ == b@[j].0@
                && view_of(a@[j].1) == view_of(b@[j].1)),
        decreases a.len() - i,
    {
        if same {
            let ke: bool = a[i].0.eq(&b[i].0);
            let ve = eq_value(&a[i].1, &b[i].1);
            same = ke && ve;
        }
        i = i + 1;
    }
    proof {
        if same {
            assert(entry_views_of(a@) =~= entry_views_of(b@));
        } else {
            let j = choose|j: int| 0 <= j < a@.len()
                && !(a@[j].0@ == b@[j].0@ && view_of(a@[j].1) == view_of(b@[j].1));
            assert(entry_views_of(a@)[j] != entry_views_of(b@)[j]);
        }
    }
    same
}

/// Byte-for-byte equality of two UUID payloads.
fn eq_bytes_16(a: &[u8; 16], b: &[u8; 16]) -> (r: bool)
    ensures
        r == (a@ == b@),
{
    let mut i: usize = 0;
    let mut same: bool = true;
    while i < 16
        invariant
            i <= 16,
            a@.len() == 16,
            b@.len() == 16,
            same == (forall|j: int| 0 <= j < i ==> a@[j] == b@[j]),
        decreases 16 - i,
    {
        if same && a[i] != b[i] {
            same = false;
        }
        i = i + 1;
    }
    proof {
        if same {
            assert(a@ =~= b@);
        }
    }
    same
}

/// Byte-for-byte equality of two octet sequences.
fn eq_byte_vecs(a: &Vec<u8>, b: &Vec<u8>) -> (r: bool)
    ensures
        r == (a@ == b@),
{
    if a.len() != b.len() {
        return false;
    }
    let mut i: usize = 0;
    let mut same: bool = true;
    while i < a.len()
        invariant
            i <= a.len(),
            a@.len() == b@.len(),
            same == (forall|j: int| 0 <= j < i ==> a@[j] == b@[j]),
        decreases a.len() - i,
    {
        if same && a[i] != b[i] {
            same = false;
        }
        i = i + 1;
    }
    proof {
        if same {
            assert(a@ =~= b@);
        }
    }
    same
}

impl vstd::std_specs::cmp::PartialEqSpecImpl for LLSDValue {
    open spec fn obeys_eq_spec() -> bool {
        true
    }

    open spec fn eq_spec(&self, other: &LLSDValue) -> bool {
        self@ == other@
    }
}

impl PartialEq for LLSDValue {
    /// Structural equality over the value model; reals compare bitwise.
    fn eq(&self, other: &LLSDValue) -> (r: bool) {
        eq_value(self, other)
    }
}

/// Look a key up in an association sequence: the value at the first
/// (and, for well-formed maps, only) entry holding the key.
pub open spec fn dict_get(m: Seq<(Seq<char>, ValueView)>, k: Seq<char>) -> Option<ValueView>
    decreases m.len(),
{
    if m.len() == 0 {
        None
    } else if m[0].0 == k {
        Some(m[0].1)
    } else {
        dict_get(m.drop_first(), k)
    }
}

/// Bind a key in an association sequence: replace the value in place when
/// the key exists, append a new entry otherwise.
pub open spec fn dict_set(m: Seq<(Seq<char>, ValueView)>, k: Seq<char>, v: ValueView)
    -> Seq<(Seq<char>, ValueView)>
    decreases m.len(),
{
    if m.len() == 0 {
        seq![(k, v)]
    } else if m[0].0 == k {
        seq![(k, v)] + m.drop_first()
    } else {
        seq![m[0]] + dict_set(m.drop_first(), k, v)
    }
}

/// Binding a key makes it readable, leaves every other key alone, and
/// keeps the keys unique.
pub proof fn lemma_dict_set(m: Seq<(Seq<char>, ValueView)>, k: Seq<char>, v: ValueView)
    ensures
        dict_get(dict_set(m, k, v), k) == Some(v),
        forall|k2: Seq<char>| k2 != k ==> dict_get(dict_set(m, k, v), k2) == dict_get(m, k2),
        forall|i: int| 0 <= i < dict_set(m, k, v).len() ==> (#[trigger] dict_set(m, k, v)[i].0) == k
            || (exists|j: int| 0 <= j < m.len() && #[trigger] m[j].0 == dict_set(m, k, v)[i].0),
        (forall|i: int, j: int| 0 <= i < j < m.len() ==> m[i].0 != m[j].0) ==> (forall|i: int, j: int|
            0 <= i < j < dict_set(m, k, v).len() ==> dict_set(m, k, v)[i].0 != dict_set(m, k, v)[j].0),
    decreases m.len(),
{
    let out = dict_set(m, k, v);
    if m.len() == 0 {
        assert(out =~= seq![(k, v)]);
        assert(out[0] == (k, v));
        assert(out.drop_first() =~= Seq::<(Seq<char>, ValueView)>::empty());
        assert forall|k2: Seq<char>| k2 != k implies dict_get(out, k2) == dict_get(m, k2) by {
            assert(dict_get(out, k2) == dict_get(out.drop_first(), k2));
            assert(dict_get(out.drop_first(), k2) == None::<ValueView>);
            assert(dict_get(m, k2) == None::<ValueView>);
        }
    } else if m[0].0 == k {
        assert(out[0] == (k, v));
        assert(out.drop_first() =~= m.drop_first());
        assert forall|k2: Seq<char>| k2 != k implies dict_get(out, k2) == dict_get(m, k2) by {
            assert(dict_get(out, k2) == dict_get(out.drop_first(), k2));
        }
        assert forall|i: int|
            0 <= i < out.len() && (#[trigger] out[i].0) != k implies (exists|j: int|
                0 <= j < m.len() && #[trigger] m[j].0 == out[i].0) by {
            assert(out[i] == m[i]);
        }
        if forall|i: int, j: int| 0 <= i < j < m.len() ==> m[i].0 != m[j].0 {
            assert forall|i: int, j: int|
                0 <= i < j < out.len() implies out[i].0 != out[j].0 by {
                assert(out[j] == m[j]);
                if i > 0 {
                    assert(out[i] == m[i]);
                } else {
                    assert(m[0].0 != m[j].0);
                }
            }
        }
    } else {
        lemma_dict_set(m.drop_first(), k, v);
        let d = m.drop_first();
        let od = dict_set(d, k, v);
        assert(out[0] == m[0]);
        assert(out.drop_first() =~= od);
        assert(forall|i: int| 0 <= i < d.len() ==> #[trigger] d[i] == m[i + 1]);
        assert forall|k2: Seq<char>| k2 != k implies dict_get(out, k2) == dict_get(m, k2) by {
            if k2 == m[0].0 {
                assert(dict_get(out, k2) == Some(out[0].1));
            } else {
                assert(dict_get(out, k2) == dict_get(od, k2));
                assert(dict_get(m, k2) == dict_get(d, k2));
            }
        }
        assert forall|i: int|
            0 <= i < out.len() && (#[trigger] out[i].0) != k implies (exists|j: int|
                0 <= j < m.len() && #[trigger] m[j].0 == out[i].0) by {
            if i == 0 {
                assert(m[0].0 == out[0].0);
            } else {
                assert(out[i] == od[i - 1]);
                let j = choose|j: int| 0 <= j < d.len() && #[trigger] d[j].0 == od[i - 1].0;
                assert(m[j + 1].0 == out[i].0);
            }
        }
        if forall|i: int, j: int| 0 <= i < j < m.len() ==> m[i].0 != m[j].0 {
            assert(forall|i: int, j: int| 0 <= i < j < d.len() ==> d[i].0 != d[j].0);
            assert forall|i: int, j: int|
                0 <= i < j < out.len() implies out[i].0 != out[j].0 by {
                if i == 0 {
                    // the head key is neither k nor any tail key
                    assert(out[j] == od[j - 1]);
                    if od[j - 1].0 != k {
                        let jj = choose|jj: int|
                            0 <= jj < d.len() && #[trigger] d[jj].0 == od[j - 1].0;
                        assert(m[jj + 1].0 == od[j - 1].0);
                        assert(m[0].0 != m[jj + 1].0);
                    }
                } else {
                    assert(out[i] == od[i - 1]);
                    assert(out[j] == od[j - 1]);
                }
            }
        }
    }
}

/// The index of the first `.` in `p`, or `p.len()` when there is none.
pub open spec fn first_dot(p: Seq<char>) -> int
    decreases p.len(),
{
    if p.len() == 0 {
        0
    } else if p[0] == '.' {
        0
    } else {
        1 + first_dot(p.drop_first())
    }
}

/// `first_dot` points at the first dot.
pub proof fn lemma_first_dot(p: Seq<char>)
    ensures
        0 <= first_dot(p) <= p.len(),
        first_dot(p) < p.len() ==> p[first_dot(p)] == '.',
        forall|i: int| 0 <= i < first_dot(p) ==> p[i] != '.',
    decreases p.len(),
{
    if p.len() > 0 && p[0] != '.' {
        lemma_first_dot(p.drop_first());
        let d = p.drop_first();
        assert(forall|i: int| 0 <= i < d.len() ==> #[trigger] d[i] == p[i + 1]);
        assert forall|i: int| 0 <= i < first_dot(p) implies p[i] != '.' by {
            if i > 0 {
                assert(d[i - 1] == p[i]);
                assert(d[i - 1] != '.');
            }
        }
    }
}

/// A dotted path split into its segments: `"a.b"` has segments `"a"` and
/// `"b"`; the empty path has one empty segment.
pub open spec fn path_segments(p: Seq<char>) -> Seq<Seq<char>>
    decreases p.len(),
{
    let d = first_dot(p);
    if 0 <= d < p.len() {
        seq![p.subrange(0, d)] + path_segments(p.subrange(d + 1, p.len() as int))
    } else {
        seq![p]
    }
}

/// Whether a segment is all decimal digits (and so can address an array).
pub open spec fn is_digits(s: Seq<char>) -> bool {
    s.len() > 0 && (forall|i: int| 0 <= i < s.len() ==> '0' <= #[trigger] s[i] <= '9')
}

/// The number a digit string denotes.
pub open spec fn dec_val(s: Seq<char>) -> int
    decreases s.len(),
{
    if s.len() == 0 {
        0
    } else {
        dec_val(s.drop_last()) * 10 + (s.last() as int - '0' as int)
    }
}

/// The array index a segment denotes, when it is all digits.
pub open spec fn seg_index(s: Seq<char>) -> Option<int> {
    if is_digits(s) {
        Some(dec_val(s))
    } else {
        None
    }
}

/// Reading along a dotted path: a segment selects a key in a map or a
/// zero-based index in an array; anything else is a miss.
pub open spec fn nav(v: ValueView, segs: Seq<Seq<char>>) -> Option<ValueView>
    decreases segs.len(),
{
    if segs.len() == 0 {
        Some(v)
    } else {
        match v {
            ValueView::Dict(m) => match dict_get(m, segs[0]) {
                Some(c) => nav(c, segs.drop_first()),
                None => None,
            },
            ValueView::Array(a) => match seg_index(segs[0]) {
                Some(n) => if 0 <= n < a.len() {
                    nav(a[n], segs.drop_first())
                } else {
                    None
                },
                None => None,
            },
            _ => None,
        }
    }
}

/// Writing along a dotted path: all but the last segment navigate without
/// creating anything; the last segment binds a map key or replaces an
/// existing array slot.  `None` means the write did not happen.
pub open spec fn set_nav(v: ValueView, segs: Seq<Seq<char>>, nv: ValueView) -> Option<ValueView>
    decreases segs.len(),
{
    if segs.len() == 0 {
        None
    } else if segs.len() == 1 {
        match v {
            ValueView::Dict(m) => Some(ValueView::Dict(dict_set(m, segs[0], nv))),
            ValueView::Array(a) => match seg_index(segs[0]) {
                Some(n) => if 0 <= n < a.len() {
                    Some(ValueView::Array(a.update(n, nv)))
                } else {
                    None
                },
                None => None,
            },
            _ => None,
        }
    } else {
        match v {
            ValueView::Dict(m) => match dict_get(m, segs[0]) {
                Some(c) => match set_nav(c, segs.drop_first(), nv) {
                    Some(c2) => Some(ValueView::Dict(dict_set(m, segs[0], c2))),
                    None => None,
                },
                None => None,
            },
            ValueView::Array(a) => match seg_index(segs[0]) {
                Some(n) => if 0 <= n < a.len() {
                    match set_nav(a[n], segs.drop_first(), nv) {
                        Some(c2) => Some(ValueView::Array(a.update(n, nv2_or(c2)))),
                        None => None,
                    }
                } else {
                    None
                },
                None => None,
            },
            _ => None,
        }
    }
}

/// Identity helper so the recursive case above reads uniformly.
pub open spec fn nv2_or(v: ValueView) -> ValueView {
    v
}

/// A digit string denotes a non-negative number.
pub proof fn lemma_dec_val_nonneg(s: Seq<char>)
    requires
        forall|i: int| 0 <= i < s.len() ==> '0' <= #[trigger] s[i] <= '9',
    ensures
        dec_val(s) >= 0,
    decreases s.len(),
{
    if s.len() > 0 {
        lemma_dec_val_nonneg(s.drop_last());
    }
}

/// Extending a digit string on the right cannot shrink its value.
pub proof fn lemma_dec_val_prefix(s: Seq<char>, n: int)
    requires
        forall|i: int| 0 <= i < s.len() ==> '0' <= #[trigger] s[i] <= '9',
        0 <= n <= s.len(),
    ensures
        dec_val(s.subrange(0, n)) <= dec_val(s),
    decreases s.len() - n,
{
    if n == s.len() {
        assert(s.subrange(0, n) =~= s);
    } else {
        lemma_dec_val_prefix(s, n + 1);
        let a = s.subrange(0, n);
        let b = s.subrange(0, n + 1);
        assert(b.drop_last() =~= a);
        lemma_dec_val_nonneg(a);
        assert(dec_val(b) == dec_val(a) * 10 + (b.last() as int - '0' as int));
        assert(dec_val(a) * 10 >= dec_val(a));
    }
}

/// `first_dot` is the only index with the first-dot property.
pub proof fn lemma_first_dot_at(p: Seq<char>, c: int)
    requires
        0 <= c <= p.len(),
        forall|i: int| 0 <= i < c ==> p[i] != '.',
        c < p.len() ==> p[c] == '.',
    ensures
        first_dot(p) == c,
    decreases p.len(),
{
    if p.len() == 0 {
    } else if p[0] == '.' {
        assert(c == 0);
    } else {
        assert(c >= 1);
        let d = p.drop_first();
        assert(forall|i: int| 0 <= i < d.len() ==> #[trigger] d[i] == p[i + 1]);
        lemma_first_dot_at(d, c - 1);
    }
}

/// The characters of `p` from `from` to `to`, as a fresh vector.
pub fn copy_char_range(p: &Vec<char>, from: usize, to: usize) -> (r: Vec<char>)
    requires
        from <= to <= p@.len(),
    ensures
        r@ == p@.subrange(from as int, to as int),
{
    let mut out: Vec<char> = Vec::new();
    let mut i: usize = from;
    while i < to
        invariant
            from <= i <= to <= p@.len(),
            out@ =~= p@.subrange(from as int, i as int),
        decreases to - i,
    {
        out.push(p[i]);
        i = i + 1;
    }
    proof {
        assert(out@ =~= p@.subrange(from as int, to as int));
    }
    out
}

/// The dotted-path segments of `p` from position `start` on, as strings.
pub fn split_from(p: &Vec<char>, start: usize) -> (r: Vec<String>)
    requires
        start <= p@.len(),
    ensures
        r@.len() == path_segments(p@.subrange(start as int, p@.len() as int)).len(),
        forall|i: int| 0 <= i < r@.len()
            ==> (#[trigger] r@[i])@ == path_segments(p@.subrange(start as int, p@.len() as int))[i],
    decreases p@.len() - start,
{
    let ghost q = p@.subrange(start as int, p@.len() as int);
    let mut j: usize = start;
    while j < p.len() && p[j] != '.'
        invariant
            start <= j <= p@.len(),
            forall|i: int| start <= i < j ==> p@[i] != '.',
        decreases p@.len() - j,
    {
        j = j + 1;
    }
    proof {
        assert(forall|i: int| 0 <= i < q.len() ==> #[trigger] q[i] == p@[start + i]);
        lemma_first_dot_at(q, j - start);
    }
    let seg_chars = copy_char_range(p, start, j);
    let seg = crate::trusted::chars_string(&seg_chars);
    let mut out: Vec<String> = Vec::new();
    if j == p.len() {
        out.push(seg);
        proof {
            assert(path_segments(q) =~= seq![q]);
            assert(seg@ =~= q);
        }
    } else {
        out.push(seg);
        let mut rest = split_from(p, j + 1);
        out.append(&mut rest);
        proof {
            let d = (j - start) as int;
            let tail = q.subrange(d + 1, q.len() as int);
            assert(path_segments(q) =~= seq![q.subrange(0, d)] + path_segments(tail));
            assert(seg@ =~= q.subrange(0, d));
            assert(tail =~= p@.subrange(j + 1 as int, p@.len() as int));
        }
    }
    out
}

/// The array index a segment string denotes, when it fits the machine.
pub fn parse_seg_index(s: &String) -> (r: Option<usize>)
    ensures
        seg_index(s@) is None ==> r is None,
        seg_index(s@) is Some ==> seg_index(s@)->0 >= 0,
        seg_index(s@) is Some && seg_index(s@)->0 <= usize::MAX
            ==> r == Some(seg_index(s@)->0 as usize),
        seg_index(s@) is Some && seg_index(s@)->0 > usize::MAX ==> r is None,
{
    let chars = crate::trusted::str_chars(s.as_str());
    proof {
        if is_digits(s@) {
            lemma_dec_val_nonneg(s@);
        }
    }
    if chars.len() == 0 {
        return None;
    }
    let mut i: usize = 0;
    let mut acc: usize = 0;
    while i < chars.len()
        invariant
            0 <= i <= chars@.len(),
            chars@ == s@,
            chars@.len() > 0,
            forall|k: int| 0 <= k < i ==> '0' <= #[trigger] chars@[k] <= '9',
            acc == dec_val(chars@.subrange(0, i as int)),
        decreases chars@.len() - i,
    {
        let c = chars[i];
        if c < '0' || c > '9' {
            return None;
        }
        let d: u32 = c as u32 - 48;
        proof {
            let pre = chars@.subrange(0, i as int);
            let ext = chars@.subrange(0, i + 1 as int);
            assert(ext.drop_last() =~= pre);
            assert(ext.last() == chars@[i as int]);
            assert(dec_val(ext) == acc * 10 + (c as int - '0' as int));
        }
        let m10 = acc.checked_mul(10);
        match m10 {
            Some(x) => {
                match x.checked_add(d as usize) {
                    Some(next) => {
                        acc = next;
                        i = i + 1;
                    },
                    None => {
                        proof {
                            overflow_means_none(chars@, s@, i as int, acc as int, c);
                        }
                        return None;
                    },
                }
            },
            None => {
                proof {
                    overflow_means_none(chars@, s@, i as int, acc as int, c);
                }
                return None;
            },
        }
    }
    proof {
        assert(chars@.subrange(0, chars@.len() as int) =~= chars@);
        assert(is_digits(s@));
    }
    Some(acc)
}

/// When a digit prefix already exceeds the machine word, the whole segment
/// denotes a number beyond it.
proof fn overflow_means_none(chars: Seq<char>, s: Seq<char>, i: int, acc: int, c: char)
    requires
        chars == s,
        0 <= i < chars.len(),
        forall|k: int| 0 <= k < i ==> '0' <= #[trigger] chars[k] <= '9',
        '0' <= c <= '9',
        c == chars[i],
        acc == dec_val(chars.subrange(0, i)),
        acc * 10 + (c as int - '0' as int) > usize::MAX,
    ensures
        seg_index(s) matches Some(n) ==> n > usize::MAX,
{
    if is_digits(s) {
        lemma_dec_val_prefix(s, i + 1);
        let ext = chars.subrange(0, i + 1);
        assert(ext.drop_last() =~= chars.subrange(0, i));
        assert(ext.last() == c);
        assert(dec_val(ext) == acc * 10 + (c as int - '0' as int));
    }
}

/// The value bound to `key`, when `m` holds the key.
pub fn dict_find<'a>(m: &'a Vec<(String, LLSDValue)>, key: &String) -> (r: Option<
    &'a LLSDValue,
>)
    ensures
        r is Some <==> dict_get(entry_views_of(m@), key@) is Some,
        r is Some ==> Some(r->0@) == dict_get(entry_views_of(m@), key@),
{
    proof {
        lemma_entry_views_of(m@);
    }
    let ghost e = entry_views_of(m@);
    proof {
        assert(e.skip(0) =~= e);
    }
    let mut i: usize = 0;
    while i < m.len()
        invariant
            0 <= i <= m@.len(),
            e == entry_views_of(m@),
            e.len() == m@.len(),
            forall|k: int| 0 <= k < m@.len() ==> #[trigger] e[k] == (m@[k].0@, view_of(m@[k].1)),
            dict_get(e, key@) == dict_get(e.skip(i as int), key@),
        decreases m@.len() - i,
    {
        if m[i].0.eq(key) {
            proof {
                assert(e.skip(i as int)[0] == e[i as int]);
                assert(dict_get(e.skip(i as int), key@) == Some(e[i as int].1));
            }
            return Some(&m[i].1);
        }
        proof {
            assert(e.skip(i as int)[0] == e[i as int]);
            assert(e.skip(i as int).drop_first() =~= e.skip(i + 1 as int));
        }
        i = i + 1;
    }
    proof {
        assert(e.skip(i as int) =~= Seq::<(Seq<char>, ValueView)>::empty());
    }
    None
}

/// The position of `key` among the entries, when present.
pub fn dict_position(m: &Vec<(String, LLSDValue)>, key: &String) -> (r: Option<usize>)
    ensures
        r is Some <==> dict_get(entry_views_of(m@), key@) is Some,
        r matches Some(j) ==> 0 <= j < m@.len() && m@[j as int].0@ == key@
            && Some(view_of(m@[j as int].1)) == dict_get(entry_views_of(m@), key@)
            && (forall|k: int| 0 <= k < j ==> m@[k].0@ != key@),
{
    proof {
        lemma_entry_views_of(m@);
    }
    let ghost e = entry_views_of(m@);
    proof {
        assert(e.skip(0) =~= e);
    }
    let mut i: usize = 0;
    while i < m.len()
        invariant
            0 <= i <= m@.len(),
            e == entry_views_of(m@),
            e.len() == m@.len(),
            forall|k: int| 0 <= k < m@.len() ==> #[trigger] e[k] == (m@[k].0@, view_of(m@[k].1)),
            dict_get(e, key@) == dict_get(e.skip(i as int), key@),
            forall|k: int| 0 <= k < i ==> m@[k].0@ != key@,
        decreases m@.len() - i,
    {
        if m[i].0.eq(key) {
            proof {
                assert(e.skip(i as int)[0] == e[i as int]);
                assert(dict_get(e.skip(i as int), key@) == Some(e[i as int].1));
            }
            return Some(i);
        }
        proof {
            assert(e.skip(i as int)[0] == e[i as int]);
            assert(e.skip(i as int).drop_first() =~= e.skip(i + 1 as int));
        }
        i = i + 1;
    }
    proof {
        assert(e.skip(i as int) =~= Seq::<(Seq<char>, ValueView)>::empty());
    }
    None
}

/// The views of a sequence of strings.
pub open spec fn str_views(s: Seq<String>) -> Seq<Seq<char>> {
    Seq::new(s.len(), |i: int| s[i]@)
}

/// Binding the key at position `j` rewrites that position in place.
pub proof fn lemma_dict_set_update(e: Seq<(Seq<char>, ValueView)>, j: int, v: ValueView)
    requires
        0 <= j < e.len(),
        forall|i: int| 0 <= i < j ==> e[i].0 != e[j].0,
    ensures
        dict_set(e, e[j].0, v) =~= e.update(j, (e[j].0, v)),
    decreases j,
{
    let k = e[j].0;
    if j == 0 {
        assert(dict_set(e, k, v) =~= seq![(k, v)] + e.drop_first());
        assert(dict_set(e, k, v) =~= e.update(0, (k, v)));
    } else {
        let d = e.drop_first();
        assert(forall|i: int| 0 <= i < d.len() ==> #[trigger] d[i] == e[i + 1]);
        assert(e[0].0 != k);
        lemma_dict_set_update(d, j - 1, v);
        assert(dict_set(e, k, v) =~= seq![e[0]] + dict_set(d, k, v));
        assert(dict_set(e, k, v) =~= e.update(j, (k, v)));
    }
}

/// Binding a fresh key appends it.
pub proof fn lemma_dict_set_new(e: Seq<(Seq<char>, ValueView)>, k: Seq<char>, v: ValueView)
    requires
        forall|i: int| 0 <= i < e.len() ==> (#[trigger] e[i]).0 != k,
    ensures
        dict_set(e, k, v) =~= e.push((k, v)),
    decreases e.len(),
{
    if e.len() == 0 {
        assert(dict_set(e, k, v) =~= e.push((k, v)));
    } else {
        let d = e.drop_first();
        assert(forall|i: int| 0 <= i < d.len() ==> #[trigger] d[i] == e[i + 1]);
        lemma_dict_set_new(d, k, v);
        assert(dict_set(e, k, v) =~= seq![e[0]] + dict_set(d, k, v));
        assert(dict_set(e, k, v) =~= e.push((k, v)));
    }
}

impl LLSDValue {
    /// The value a dotted path addresses, read through shared references.
    pub fn get_path(&self, path: &str) -> (r: Option<&LLSDValue>)
        ensures
            r is Some <==> nav(self@, path_segments(path@)) is Some,
            r matches Some(found) ==> Some(found@) == nav(self@, path_segments(path@)),
    {
        let chars = crate::trusted::str_chars(path);
        let segs = split_from(&chars, 0);
        proof {
            assert(chars@.subrange(0, chars@.len() as int) =~= path@);
        }
        let ghost sv = path_segments(path@);
        let mut cur: &LLSDValue = self;
        let mut k: usize = 0;
        proof {
            assert(sv.skip(0) =~= sv);
        }
        while k < segs.len()
            invariant
                0 <= k <= segs@.len(),
                sv == path_segments(path@),
                segs@.len() == sv.len(),
                forall|i: int| 0 <= i < segs@.len() ==> (#[trigger] segs@[i])@ == sv[i],
                nav(self@, sv) == nav(cur@, sv.skip(k as int)),
            decreases segs@.len() - k,
        {
            proof {
                assert(sv.skip(k as int)[0] == sv[k as int]);
                assert(sv.skip(k as int).drop_first() =~= sv.skip(k + 1 as int));
            }
            match cur {
                LLSDValue::Dict(m) => {
                    proof {
                        assert(cur@ == ValueView::Dict(entry_views_of(m@)));
                        assert(segs@[k as int]@ == sv[k as int]);
                    }
                    match dict_find(m, &segs[k]) {
                        Some(c) => {
                            proof {
                                assert(Some(c@) == dict_get(entry_views_of(m@), sv[k as int]));
                                assert(nav(cur@, sv.skip(k as int))
                                    == nav(c@, sv.skip(k + 1 as int)));
                            }
                            cur = c;
                        },
                        None => {
                            proof {
                                assert(nav(cur@, sv.skip(k as int)) is None);
                            }
                            return None;
                        },
                    }
                },
                LLSDValue::Array(a) => {
                    proof {
                        lemma_views_of(a@);
                        assert(cur@ == ValueView::Array(views_of(a@)));
                        assert(segs@[k as int]@ == sv[k as int]);
                    }
                    let alen = a.len();
                    match parse_seg_index(&segs[k]) {
                        Some(n) => {
                            if n < alen {
                                proof {
                                    assert(views_of(a@)[n as int] == view_of(a@[n as int]));
                                    assert(nav(cur@, sv.skip(k as int))
                                        == nav(view_of(a@[n as int]), sv.skip(k + 1 as int)));
                                }
                                cur = &a[n];
                            } else {
                                proof {
                                    assert(seg_index(sv[k as int])->0 >= a@.len());
                                    assert(nav(cur@, sv.skip(k as int)) is None);
                                }
                                return None;
                            }
                        },
                        None => {
                            proof {
                                if seg_index(sv[k as int]) is Some {
                                    assert(seg_index(sv[k as int])->0 > usize::MAX);
                                    assert(a@.len() <= usize::MAX);
                                }
                                assert(nav(cur@, sv.skip(k as int)) is None);
                            }
                            return None;
                        },
                    }
                },
                _ => {
                    return None;
                },
            }
            k = k + 1;
        }
        proof {
            assert(sv.skip(k as int) =~= Seq::<Seq<char>>::empty());
        }
        Some(cur)
    }

    /// Write `value` at a dotted path.  All but the last segment must
    /// already lead somewhere; the last binds a map key or replaces an
    /// existing array slot.  Returns whether the write happened; on a miss
    /// the value is unchanged.
    pub fn set_path(&mut self, path: &str, value: LLSDValue) -> (r: bool)
        ensures
            r == (set_nav(old(self)@, path_segments(path@), value@) is Some),
            r ==> Some(final(self)@) == set_nav(old(self)@, path_segments(path@), value@),
            !r ==> final(self)@ == old(self)@,
    {
        let chars = crate::trusted::str_chars(path);
        let segs = split_from(&chars, 0);
        proof {
            assert(chars@.subrange(0, chars@.len() as int) =~= path@);
            assert(str_views(segs@) =~= path_segments(path@));
            assert(str_views(segs@).skip(0) =~= str_views(segs@));
        }
        set_path_rec(self, &segs, 0, value)
    }
}

/// The recursive worker behind `set_path`, acting from segment `at` on.
fn set_path_rec(v: &mut LLSDValue, segs: &Vec<String>, at: usize, value: LLSDValue) -> (r: bool)
    requires
        at < segs@.len(),
    ensures
        r == (set_nav(old(v)@, str_views(segs@).skip(at as int), value@) is Some),
        r ==> Some(final(v)@) == set_nav(old(v)@, str_views(segs@).skip(at as int), value@),
        !r ==> final(v)@ == old(v)@,
    decreases segs@.len() - at,
{
    let ghost sv = str_views(segs@).skip(at as int);
    let ghost v0 = old(v)@;
    proof {
        assert(sv[0] == segs@[at as int]@);
    }
    let last: bool = at == segs.len() - 1;
    match v {
        LLSDValue::Dict(m) => {
            proof {
                lemma_entry_views_of(m@);
            }
            let ghost e0 = entry_views_of(m@);
            let pos = dict_position(m, &segs[at]);
            if last {
                let key = segs[at].clone();
                match pos {
                    Some(j) => {
                        let removed = m.remove(j);
                        m.insert(j, (key, value));
                        proof {
                            lemma_entry_views_of(m@);
                            assert(entry_views_of(m@) =~= e0.update(j as int, (segs@[at as int]@, value@)));
                            assert(e0[j as int].0 == segs@[at as int]@);
                            assert forall|i: int| 0 <= i < j implies e0[i].0 != e0[j as int].0 by {
                                assert(e0[i].0 == old(v)->Dict_0@[i].0@);
                            }
                            lemma_dict_set_update(e0, j as int, value@);
                            assert(sv.len() == 1);
                            assert(v0 == ValueView::Dict(e0));
                            assert(set_nav(v0, sv, value@)
                                == Some(ValueView::Dict(dict_set(e0, sv[0], value@))));
                        }
                    },
                    None => {
                        m.push((key, value));
                        proof {
                            lemma_entry_views_of(m@);
                            assert(entry_views_of(m@) =~= e0.push((segs@[at as int]@, value@)));
                            assert forall|i: int| 0 <= i < e0.len()
                                implies (#[trigger] e0[i]).0 != segs@[at as int]@ by {
                                if e0[i].0 == segs@[at as int]@ {
                                    lemma_dict_get_present(e0, i);
                                }
                            }
                            lemma_dict_set_new(e0, segs@[at as int]@, value@);
                            assert(sv.len() == 1);
                            assert(v0 == ValueView::Dict(e0));
                            assert(set_nav(v0, sv, value@)
                                == Some(ValueView::Dict(dict_set(e0, sv[0], value@))));
                        }
                    },
                }
                true
            } else {
                match pos {
                    Some(j) => {
                        let entry = m.remove(j);
                        let key = entry.0;
                        let mut child = entry.1;
                        let ghost child0 = child@;
                        let ok = set_path_rec(&mut child, segs, at + 1, value);
                        m.insert(j, (key, child));
                        proof {
                            lemma_entry_views_of(m@);
                            assert(sv.drop_first() =~= str_views(segs@).skip(at + 1 as int));
                            assert(dict_get(e0, sv[0]) == Some(child0));
                            if ok {
                                assert(entry_views_of(m@)
                                    =~= e0.update(j as int, (segs@[at as int]@, child@)));
                                assert(e0[j as int].0 == segs@[at as int]@);
                                assert forall|i: int| 0 <= i < j implies e0[i].0 != e0[j as int].0 by {
                                    assert(e0[i].0 == old(v)->Dict_0@[i].0@);
                                }
                                lemma_dict_set_update(e0, j as int, child@);
                                assert(v0 == ValueView::Dict(e0));
                                assert(set_nav(v0, sv, value@)
                                    == Some(ValueView::Dict(dict_set(e0, sv[0], child@))));
                            } else {
                                assert(entry_views_of(m@) =~= e0);
                                assert(v0 == ValueView::Dict(e0));
                                assert(set_nav(v0, sv, value@) is None);
                            }
                        }
                        ok
                    },
                    None => {
                        proof {
                            assert(v0 == ValueView::Dict(e0));
                            assert(set_nav(v0, sv, value@) is None);
                        }
                        false
                    },
                }
            }
        },
        LLSDValue::Array(a) => {
            proof {
                lemma_views_of(a@);
            }
            let ghost a0 = views_of(a@);
            let alen = a.len();
            match parse_seg_index(&segs[at]) {
                Some(n) => {
                    if n < alen {
                        if last {
                            let removed = a.remove(n);
                            a.insert(n, value);
                            proof {
                                lemma_views_of(a@);
                                assert(views_of(a@) =~= a0.update(n as int, value@));
                                assert(sv.len() == 1);
                                assert(v0 == ValueView::Array(a0));
                                assert(set_nav(v0, sv, value@)
                                    == Some(ValueView::Array(a0.update(n as int, value@))));
                            }
                            true
                        } else {
                            let mut child = a.remove(n);
                            let ghost child0 = child@;
                            let ok = set_path_rec(&mut child, segs, at + 1, value);
                            a.insert(n, child);
                            proof {
                                lemma_views_of(a@);
                                assert(sv.drop_first() =~= str_views(segs@).skip(at + 1 as int));
                                assert(v0 == ValueView::Array(a0));
                                assert(a0[n as int] == child0);
                                if ok {
                                    assert(views_of(a@) =~= a0.update(n as int, child@));
                                    assert(set_nav(v0, sv, value@)
                                        == Some(ValueView::Array(a0.update(n as int, child@))));
                                } else {
                                    assert(views_of(a@) =~= a0);
                                    assert(set_nav(v0, sv, value@) is None);
                                }
                            }
                            ok
                        }
                    } else {
                        proof {
                            assert(v0 == ValueView::Array(a0));
                            assert(set_nav(v0, sv, value@) is None);
                        }
                        false
                    }
                },
                None => {
                    proof {
                        assert(v0 == ValueView::Array(a0));
                        if seg_index(sv[0]) is Some {
                            assert(seg_index(sv[0])->0 > usize::MAX);
                            assert(a0.len() <= usize::MAX);
                        }
                        assert(set_nav(v0, sv, value@) is None);
                    }
                    false
                },
            }
        },
        _ => {
            proof {
                assert(set_nav(v0, sv, value@) is None);
            }
            false
        },
    }
}

/// An entry that stands in the sequence is found by `dict_get`.
pub proof fn lemma_dict_get_present(e: Seq<(Seq<char>, ValueView)>, i: int)
    requires
        0 <= i < e.len(),
    ensures
        dict_get(e, e[i].0) is Some,
    decreases i,
{
    if e[0].0 != e[i].0 {
        let d = e.drop_first();
        assert(d[i - 1] == e[i]);
        lemma_dict_get_present(d, i - 1);
    }
}

/// A document: the owner of a single root value.
#[derive(Debug, Clone, PartialEq)]
pub struct LLSDDocument {
    content: LLSDValue,
}

impl View for LLSDDocument {
    type V = ValueView;

    closed spec fn view(&self) -> ValueView {
        self.content@
    }
}

impl LLSDDocument {
    /// Wrap a root value.
    pub fn new(content: LLSDValue) -> (r: LLSDDocument)
        ensures
            r@ == content@,
    {
        LLSDDocument { content }
    }

    /// A document whose root is the undefined marker.
    pub fn empty() -> (r: LLSDDocument)
        ensures
            r@ == ValueView::Undefined,
    {
        LLSDDocument { content: LLSDValue::Undefined }
    }

    /// Shared access to the root value.
    pub fn content(&self) -> (r: &LLSDValue)
        ensures
            r@ == self@,
    {
        &self.content
    }

    /// Exclusive access to the root value.
    pub fn content_mut(&mut self) -> (r: &mut LLSDValue)
        ensures
            r@ == old(self)@,
            final(self)@ == final(r)@,
    {
        &mut self.content
    }

    /// Replace the root value.
    pub fn set_content(&mut self, content: LLSDValue)
        ensures
            final(self)@ == content@,
    {
        self.content = content;
    }

    /// The type of the root value.
    pub fn get_type(&self) -> (r: LLSDType)
        ensures
            r == self@.kind(),
    {
        self.content.get_type()
    }

    /// Whether the root is the undefined marker.
    pub fn is_empty(&self) -> (r: bool)
        ensures
            r == (self@ is Undefined),
    {
        self.content.is_undefined()
    }
}

impl Default for LLSDValue {
    /// The default value is the undefined marker.
    fn default() -> (r: Self)
        ensures
            r@ == ValueView::Undefined,
    {
        LLSDValue::Undefined
    }
}

impl Default for LLSDDocument {
    /// The default document is empty.
    fn default() -> (r: Self)
        ensures
            r@ == ValueView::Undefined,
    {
        LLSDDocument::empty()
    }
}

/// Law: a write that `set_nav` reports as done is read back by `nav`: the
/// value now found at the path is exactly the value written.  Through the
/// contracts of `set_path` and `get_path` this says that after a successful
/// `set_path(root, p, v)`, `get_path(root, p)` returns `v`.
pub proof fn lemma_set_then_get(v: ValueView, segs: Seq<Seq<char>>, nv: ValueView)
    requires
        set_nav(v, segs, nv) is Some,
    ensures
        nav(set_nav(v, segs, nv)->0, segs) == Some(nv),
    decreases segs.len(),
{
    let out = set_nav(v, segs, nv)->0;
    if segs.len() == 1 {
        match v {
            ValueView::Dict(m) => {
                lemma_dict_set(m, segs[0], nv);
                assert(segs.drop_first() =~= Seq::<Seq<char>>::empty());
            },
            ValueView::Array(a) => {
                let n = seg_index(segs[0])->0;
                assert(a.update(n, nv)[n] == nv);
                assert(out == ValueView::Array(a.update(n, nv)));
                assert(segs.drop_first() =~= Seq::<Seq<char>>::empty());
                assert(nav(out, segs) == Some(nv));
            },
            _ => {
                assert(false);
            },
        }
    } else {
        match v {
            ValueView::Dict(m) => {
                let c = dict_get(m, segs[0])->0;
                let c2 = set_nav(c, segs.drop_first(), nv)->0;
                lemma_dict_set(m, segs[0], c2);
                lemma_set_then_get(c, segs.drop_first(), nv);
                assert(out == ValueView::Dict(dict_set(m, segs[0], c2)));
            },
            ValueView::Array(a) => {
                let n = seg_index(segs[0])->0;
                let c2 = set_nav(a[n], segs.drop_first(), nv)->0;
                lemma_set_then_get(a[n], segs.drop_first(), nv);
                assert(a.update(n, c2)[n] == c2);
                assert(out == ValueView::Array(a.update(n, c2)));
                assert(nav(out, segs) == nav(c2, segs.drop_first()));
            },
            _ => {
                assert(false);
            },
        }
    }
}

/// The same law phrased over a whole dotted path.
pub proof fn lemma_set_path_then_get_path(root: ValueView, path: Seq<char>, nv: ValueView)
    requires
        set_nav(root, path_segments(path), nv) is Some,
    ensures
        nav(set_nav(root, path_segments(path), nv)->0, path_segments(path)) == Some(nv),
{
    lemma_set_then_get(root, path_segments(path), nv);
}

} // verus!
