//! Firestorm-flavoured helpers: numeric version compatibility, validation
//! rules layered over the base rules, and a bounded TTL cache of
//! deep-cloned values.

use vstd::prelude::*;
use crate::types::{LLSDValue, ValueView, dec_val, path_segments, split_from, lemma_dec_val_prefix,
    lemma_dec_val_nonneg};
use crate::secondlife::{SLValidationRules, ValidationResult, validate_sl_structure, sl_ok};
use crate::trusted::{instant_now, instant_elapsed, duration_millis, str_chars};


verus! {

/// The digits of a text, in order, everything else dropped.
pub open spec fn digit_filter(s: Seq<char>) -> Seq<char>
    decreases s.len(),
{
    if s.len() == 0 {
        Seq::empty()
    } else if '0' <= s[0] <= '9' {
        seq![s[0]] + digit_filter(s.drop_first())
    } else {
        digit_filter(s.drop_first())
    }
}

/// The number a version segment denotes: its digits read as a decimal,
/// zero when there are none or the value overflows 32 bits.
pub open spec fn seg_num(s: Seq<char>) -> int {
    let d = digit_filter(s);
    if d.len() > 0 && dec_val(d) <= u32::MAX as int {
        dec_val(d)
    } else {
        0
    }
}

/// Component `i` of a split version, zero past its end.
pub open spec fn version_part(segs: Seq<Seq<char>>, i: int) -> int {
    if 0 <= i < segs.len() {
        seg_num(segs[i])
    } else {
        0
    }
}

/// Whether version `v` is at least `m`, comparing components from `i` on.
pub open spec fn ver_ge_from(v: Seq<Seq<char>>, m: Seq<Seq<char>>, i: int) -> bool
    decreases v.len() + m.len() - i,
{
    if i >= v.len() && i >= m.len() {
        true
    } else if version_part(v, i) > version_part(m, i) {
        true
    } else if version_part(v, i) < version_part(m, i) {
        false
    } else {
        ver_ge_from(v, m, i + 1)
    }
}

/// Whether a version text satisfies a minimum: both non-empty, and the
/// dotted numeric components compare at least, missing components reading
/// as zero.
pub open spec fn version_compatible(v: Seq<char>, m: Seq<char>) -> bool {
    v.len() > 0 && m.len() > 0 && ver_ge_from(path_segments(v), path_segments(m), 0)
}

/// Filtering distributes over appending one character.
proof fn lemma_digit_filter_snoc(s: Seq<char>, c: char)
    ensures
        digit_filter(s.push(c)) == (if '0' <= c <= '9' {
            digit_filter(s).push(c)
        } else {
            digit_filter(s)
        }),
    decreases s.len(),
{
    let p = s.push(c);
    if s.len() == 0 {
        assert(p[0] == c);
        assert(p.drop_first() =~= Seq::<char>::empty());
        assert(digit_filter(p.drop_first()) =~= Seq::<char>::empty());
        if '0' <= c <= '9' {
            assert(digit_filter(p) =~= digit_filter(s).push(c));
        }
    } else {
        lemma_digit_filter_snoc(s.drop_first(), c);
        assert(p[0] == s[0]);
        assert(p.drop_first() =~= s.drop_first().push(c));
        if '0' <= c <= '9' {
            assert(digit_filter(p) =~= digit_filter(s).push(c));
        } else {
            assert(digit_filter(p) =~= digit_filter(s));
        }
    }
}

/// The number a version segment denotes, executable.
#[verifier::loop_isolation(false)]
fn segment_number(s: &String) -> (r: u32)
    ensures
        r as int == seg_num(s@),
{
    let chars = str_chars(s.as_str());
    let mut digits: Vec<char> = Vec::new();
    let mut i: usize = 0;
    while i < chars.len()
        invariant
            i <= chars@.len(),
            digits@ == digit_filter(chars@.take(i as int)),
        decreases chars@.len() - i,
    {
        let c = chars[i];
        proof {
            lemma_digit_filter_snoc(chars@.take(i as int), c);
            assert(chars@.take(i + 1 as int) =~= chars@.take(i as int).push(c));
        }
        if '0' <= c && c <= '9' {
            digits.push(c);
        }
        i = i + 1;
    }
    proof {
        assert(chars@.take(chars@.len() as int) =~= chars@);
    }
    if digits.len() == 0 {
        return 0;
    }
    let ghost dv = digits@;
    proof {
        lemma_digit_filter_digits(chars@, dv);
        lemma_dec_val_nonneg(dv);
    }
    let mut acc: u64 = 0;
    let mut over: bool = false;
    let mut k: usize = 0;
    while k < digits.len()
        invariant
            k <= digits@.len(),
            digits@ == dv,
            forall|j: int| 0 <= j < dv.len() ==> '0' <= #[trigger] dv[j] <= '9',
            !over ==> acc == dec_val(dv.take(k as int)) && acc <= u32::MAX,
            over ==> dec_val(dv.take(k as int)) > u32::MAX,
        decreases digits@.len() - k,
    {
        let c = digits[k];
        let d: u64 = (c as u32 - 48) as u64;
        proof {
            let pre = dv.take(k as int);
            let ext = dv.take(k + 1 as int);
            assert(ext.drop_last() =~= pre);
            assert(ext.last() == dv[k as int]);
            lemma_dec_val_nonneg(pre);
        }
        if over {
            proof {
                let ext = dv.take(k + 1 as int);
                assert(forall|j: int| 0 <= j < ext.len() ==> '0' <= #[trigger] ext[j] <= '9');
                lemma_dec_val_prefix(ext, k as int);
                assert(ext.take(k as int) =~= dv.take(k as int));
            }
        } else if acc > 0x1999_9999u64 || acc * 10 + d > u32::MAX as u64 {
            proof {
                assert(dec_val(dv.take(k + 1 as int)) == acc * 10 + d);
            }
            over = true;
        } else {
            acc = acc * 10 + d;
        }
        k = k + 1;
    }
    proof {
        assert(dv.take(dv.len() as int) =~= dv);
    }
    if over {
        0
    } else {
        acc as u32
    }
}

/// Everything the digit filter keeps is a digit.
proof fn lemma_digit_filter_digits(s: Seq<char>, d: Seq<char>)
    requires
        d == digit_filter(s),
    ensures
        forall|k: int| 0 <= k < d.len() ==> '0' <= #[trigger] d[k] <= '9',
    decreases s.len(),
{
    if s.len() > 0 {
        lemma_digit_filter_digits(s.drop_first(), digit_filter(s.drop_first()));
        if '0' <= s[0] <= '9' {
            assert forall|k: int| 0 <= k < d.len() implies '0' <= #[trigger] d[k] <= '9' by {
                if k > 0 {
                    assert(d[k] == digit_filter(s.drop_first())[k - 1]);
                }
            }
        }
    }
}

/// Firestorm-style helpers over the value model.
pub struct FirestormLLSDUtils {
}

impl FirestormLLSDUtils {
    /// Whether a version text meets a minimum: components compare
    /// numerically, missing components read as zero, and empty texts are
    /// never compatible.
    #[verifier::loop_isolation(false)]
    pub fn is_compatible_version(version: &str, min_version: &str) -> (r: bool)
        ensures
            r == version_compatible(version@, min_version@),
    {
        let vc = str_chars(version);
        let mc = str_chars(min_version);
        if vc.len() == 0 || mc.len() == 0 {
            return false;
        }
        let vparts = split_from(&vc, 0);
        let mparts = split_from(&mc, 0);
        proof {
            assert(vc@.subrange(0, vc@.len() as int) =~= version@);
            assert(mc@.subrange(0, mc@.len() as int) =~= min_version@);
        }
        let ghost vp = path_segments(version@);
        let ghost mp = path_segments(min_version@);
        let max_len: usize = if vparts.len() >= mparts.len() {
            vparts.len()
        } else {
            mparts.len()
        };
        let mut i: usize = 0;
        while i < max_len
            invariant
                i <= max_len,
                max_len == (if vp.len() >= mp.len() {
                    vp.len()
                } else {
                    mp.len()
                }),
                vparts@.len() == vp.len(),
                mparts@.len() == mp.len(),
                forall|j: int| 0 <= j < vp.len() ==> (#[trigger] vparts@[j])@ == vp[j],
                forall|j: int| 0 <= j < mp.len() ==> (#[trigger] mparts@[j])@ == mp[j],
                ver_ge_from(vp, mp, 0) == ver_ge_from(vp, mp, i as int),
            decreases max_len - i,
        {
            let v: u32 = if i < vparts.len() {
                segment_number(&vparts[i])
            } else {
                0
            };
            let m: u32 = if i < mparts.len() {
                segment_number(&mparts[i])
            } else {
                0
            };
            proof {
                assert(v as int == version_part(vp, i as int));
                assert(m as int == version_part(mp, i as int));
            }
            if v > m {
                return true;
            }
            if v < m {
                return false;
            }
            i = i + 1;
        }
        proof {
            assert(ver_ge_from(vp, mp, i as int));
        }
        true
    }

    /// A deep copy of a value.
    pub fn deep_copy(data: &LLSDValue) -> (r: LLSDValue)
        ensures
            r@ == data@,
    {
        crate::utils::LLSDUtils::deep_clone(data)
    }
}

/// Firestorm validation rules: the base rules plus version, RLV and bridge
/// demands.
#[derive(Debug, Clone)]
pub struct FSValidationRules {
    pub base_rules: SLValidationRules,
    pub requires_fs_version: bool,
    pub min_fs_version: String,
    pub requires_rlv: bool,
    pub requires_bridge: bool,
}

impl FSValidationRules {
    /// Rules that demand nothing.
    pub fn new() -> (r: FSValidationRules)
        ensures
            !r.base_rules.requires_map,
            !r.base_rules.requires_array,
            r.base_rules.required_fields@.len() == 0,
            r.base_rules.field_types@.len() == 0,
            !r.requires_fs_version,
            r.min_fs_version@ == Seq::<char>::empty(),
            !r.requires_rlv,
            !r.requires_bridge,
    {
        FSValidationRules {
            base_rules: SLValidationRules::new(),
            requires_fs_version: false,
            min_fs_version: String::new(),
            requires_rlv: false,
            requires_bridge: false,
        }
    }

    /// Also demand that the root is a map.
    pub fn require_map(self) -> (r: FSValidationRules)
        ensures
            r.base_rules.requires_map,
            r.base_rules.requires_array == self.base_rules.requires_array,
            r.base_rules.required_fields@ == self.base_rules.required_fields@,
            r.base_rules.field_types@ == self.base_rules.field_types@,
            r.requires_fs_version == self.requires_fs_version,
            r.min_fs_version@ == self.min_fs_version@,
            r.requires_rlv == self.requires_rlv,
            r.requires_bridge == self.requires_bridge,
    {
        FSValidationRules { base_rules: self.base_rules.require_map(), ..self }
    }

    /// Also demand that the root is an array.
    pub fn require_array(self) -> (r: FSValidationRules)
        ensures
            r.base_rules.requires_array,
            r.base_rules.requires_map == self.base_rules.requires_map,
            r.base_rules.required_fields@ == self.base_rules.required_fields@,
            r.base_rules.field_types@ == self.base_rules.field_types@,
            r.requires_fs_version == self.requires_fs_version,
            r.min_fs_version@ == self.min_fs_version@,
            r.requires_rlv == self.requires_rlv,
            r.requires_bridge == self.requires_bridge,
    {
        FSValidationRules { base_rules: self.base_rules.require_array(), ..self }
    }

    /// Also demand a field, optionally of a named type.
    pub fn require_field(self, name: &str, field_type: Option<&str>) -> (r: FSValidationRules)
        ensures
            crate::types::str_views(r.base_rules.required_fields@)
                == crate::types::str_views(self.base_rules.required_fields@).push(name@),
            (match field_type {
                Some(t) => crate::secondlife::pair_views(r.base_rules.field_types@)
                    == crate::secondlife::pair_views(self.base_rules.field_types@).push(
                    (name@, t@),
                ),
                None => r.base_rules.field_types@ == self.base_rules.field_types@,
            }),
            r.requires_fs_version == self.requires_fs_version,
            r.min_fs_version@ == self.min_fs_version@,
            r.base_rules.requires_map == self.base_rules.requires_map,
            r.base_rules.requires_array == self.base_rules.requires_array,
            r.requires_rlv == self.requires_rlv,
            r.requires_bridge == self.requires_bridge,
    {
        FSValidationRules { base_rules: self.base_rules.require_field(name, field_type), ..self }
    }

    /// Also demand a minimum viewer version.
    pub fn require_fs_version(self, min_version: &str) -> (r: FSValidationRules)
        ensures
            r.requires_fs_version,
            r.min_fs_version@ == min_version@,
            r.base_rules == self.base_rules,
            r.requires_rlv == self.requires_rlv,
            r.requires_bridge == self.requires_bridge,
    {
        FSValidationRules {
            requires_fs_version: true,
            min_fs_version: min_version.to_owned(),
            ..self
        }
    }

    /// Also demand RLV support.
    pub fn require_rlv(self) -> (r: FSValidationRules)
        ensures
            r.requires_rlv,
            r.base_rules == self.base_rules,
            r.requires_fs_version == self.requires_fs_version,
            r.min_fs_version@ == self.min_fs_version@,
            r.requires_bridge == self.requires_bridge,
    {
        FSValidationRules { requires_rlv: true, ..self }
    }

    /// Also demand a bridge connection.
    pub fn require_bridge(self) -> (r: FSValidationRules)
        ensures
            r.requires_bridge,
            r.base_rules == self.base_rules,
            r.requires_fs_version == self.requires_fs_version,
            r.min_fs_version@ == self.min_fs_version@,
            r.requires_rlv == self.requires_rlv,
    {
        FSValidationRules { requires_bridge: true, ..self }
    }

    /// The base rules.
    pub fn base_rules(&self) -> (r: &SLValidationRules)
        ensures
            *r == self.base_rules,
    {
        &self.base_rules
    }

    /// Whether a viewer version is demanded.
    pub fn requires_fs_version(&self) -> (r: bool)
        ensures
            r == self.requires_fs_version,
    {
        self.requires_fs_version
    }

    /// The minimum viewer version demanded.
    pub fn min_fs_version(&self) -> (r: &str)
        ensures
            r@ == self.min_fs_version@,
    {
        self.min_fs_version.as_str()
    }

    /// Whether RLV support is demanded.
    pub fn requires_rlv(&self) -> (r: bool)
        ensures
            r == self.requires_rlv,
    {
        self.requires_rlv
    }

    /// Whether a bridge connection is demanded.
    pub fn requires_bridge(&self) -> (r: bool)
        ensures
            r == self.requires_bridge,
    {
        self.requires_bridge
    }
}

impl Default for FSValidationRules {
    /// The default rules demand nothing.
    fn default() -> (r: Self)
        ensures
            !r.requires_fs_version,
    {
        FSValidationRules::new()
    }
}

/// The result a Firestorm validation pass returns.
pub type FSValidationResult = ValidationResult;

/// The version text a record offers, if any: the first of the three
/// version keys that holds a string.
pub open spec fn offered_version(m: Seq<(Seq<char>, ValueView)>) -> Option<ValueView> {
    match crate::types::dict_get(m, "firestorm_version"@) {
        Some(x) => Some(x),
        None => match crate::types::dict_get(m, "viewer_version"@) {
            Some(x) => Some(x),
            None => crate::types::dict_get(m, "ViewerVersion"@),
        },
    }
}

/// Whether a record satisfies the Firestorm rules' hard demands: the base
/// demands, and — when a version is demanded — an offered, compatible
/// version text.
pub open spec fn fs_ok(v: ValueView, rules: FSValidationRules) -> bool {
    &&& sl_ok(v, rules.base_rules)
    &&& (sl_ok(v, rules.base_rules) && rules.requires_fs_version && v is Dict
        ==> (offered_version(v->Dict_0) matches Some(t) && t is String && version_compatible(
        t->String_0,
        rules.min_fs_version@,
    )))
}

/// Validate a record against Firestorm rules: hard errors for the base
/// demands and the version demand; RLV and bridge demands only warn.
pub fn validate_fs_structure(llsd_data: &LLSDValue, rules: &FSValidationRules) -> (r:
    ValidationResult)
    ensures
        (r@.0.len() == 0) == fs_ok(llsd_data@, *rules),
{
    let mut result = validate_sl_structure(llsd_data, rules.base_rules());
    if !result.is_valid() {
        return result;
    }
    match llsd_data {
        LLSDValue::Dict(map) => {
            if rules.requires_fs_version() {
                let v1 = crate::types::dict_find(map, &("firestorm_version").to_owned());
                let version: Option<&LLSDValue> = match v1 {
                    Some(x) => Some(x),
                    None => {
                        match crate::types::dict_find(map, &("viewer_version").to_owned()) {
                            Some(x) => Some(x),
                            None => crate::types::dict_find(map, &("ViewerVersion").to_owned()),
                        }
                    },
                };
                proof {
                    reveal_strlit("firestorm_version");
                    reveal_strlit("viewer_version");
                    reveal_strlit("ViewerVersion");
                }
                match version {
                    Some(LLSDValue::String(v)) => {
                        if !FirestormLLSDUtils::is_compatible_version(
                            v.as_str(),
                            rules.min_fs_version(),
                        ) {
                            result.add_error(("an incompatible viewer version").to_owned());
                        }
                    },
                    _ => {
                        result.add_error(("missing viewer version information").to_owned());
                    },
                }
            }
            if rules.requires_rlv() {
                let rlv = crate::types::dict_find(map, &("rlv_enabled").to_owned());
                let on: bool = match rlv {
                    Some(LLSDValue::Boolean(b)) => *b,
                    _ => {
                        match crate::types::dict_find(map, &("RLVEnabled").to_owned()) {
                            Some(LLSDValue::Boolean(b)) => *b,
                            _ => false,
                        }
                    },
                };
                if !on {
                    result.add_warning(("RLV support is demanded but not on").to_owned());
                }
            }
            if rules.requires_bridge() {
                let bridge = crate::types::dict_find(map, &("bridge_connected").to_owned());
                let on: bool = match bridge {
                    Some(LLSDValue::Boolean(b)) => *b,
                    _ => {
                        match crate::types::dict_find(map, &("BridgeConnected").to_owned()) {
                            Some(LLSDValue::Boolean(b)) => *b,
                            _ => false,
                        }
                    },
                };
                if !on {
                    result.add_warning(("no bridge connection is established").to_owned());
                }
            }
            result
        },
        _ => {
            result
        },
    }
}

/// Key uniqueness of the cache's entries.
pub open spec fn cache_wf(s: Seq<(String, u64, LLSDValue)>) -> bool {
    forall|i: int, j: int| 0 <= i < j < s.len() ==> (#[trigger] s[i]).0@ != (#[trigger] s[j]).0@
}

/// The entries that survive a sweep at instant `now`: exactly those whose
/// age is below the time-to-live, in order.
pub open spec fn cache_sweep(s: Seq<(String, u64, LLSDValue)>, now: u64, ttl: u64) -> Seq<
    (String, u64, LLSDValue),
>
    decreases s.len(),
{
    if s.len() == 0 {
        s
    } else {
        let rest = cache_sweep(s.drop_first(), now, ttl);
        if s[0].1 <= now && now - s[0].1 < ttl {
            seq![s[0]] + rest
        } else {
            rest
        }
    }
}

/// Sweeping distributes over appending one entry.
proof fn lemma_sweep_snoc(s: Seq<(String, u64, LLSDValue)>, e: (String, u64, LLSDValue),
    now: u64, ttl: u64)
    ensures
        cache_sweep(s.push(e), now, ttl) == (if e.1 <= now && now - e.1 < ttl {
            cache_sweep(s, now, ttl).push(e)
        } else {
            cache_sweep(s, now, ttl)
        }),
    decreases s.len(),
{
    let p = s.push(e);
    if s.len() == 0 {
        assert(p[0] == e);
        assert(p.drop_first() =~= Seq::<(String, u64, LLSDValue)>::empty());
        assert(cache_sweep(p.drop_first(), now, ttl) =~= Seq::<(String, u64, LLSDValue)>::empty());
        if e.1 <= now && now - e.1 < ttl {
            assert(cache_sweep(p, now, ttl) =~= cache_sweep(s, now, ttl).push(e));
        }
    } else {
        lemma_sweep_snoc(s.drop_first(), e, now, ttl);
        assert(p[0] == s[0]);
        assert(p.drop_first() =~= s.drop_first().push(e));
        if e.1 <= now && now - e.1 < ttl {
            assert(cache_sweep(p, now, ttl) =~= cache_sweep(s, now, ttl).push(e));
        } else {
            assert(cache_sweep(p, now, ttl) =~= cache_sweep(s, now, ttl));
        }
    }
}

/// A sweep never grows.
proof fn lemma_sweep_len(s: Seq<(String, u64, LLSDValue)>, now: u64, ttl: u64)
    ensures
        cache_sweep(s, now, ttl).len() <= s.len(),
    decreases s.len(),
{
    if s.len() > 0 {
        lemma_sweep_len(s.drop_first(), now, ttl);
    }
}

/// A sweep of unique keys keeps them unique.
proof fn lemma_sweep_wf(s: Seq<(String, u64, LLSDValue)>, now: u64, ttl: u64)
    requires
        cache_wf(s),
    ensures
        cache_wf(cache_sweep(s, now, ttl)),
    decreases s.len(),
{
    if s.len() > 0 {
        let d = s.drop_first();
        assert(forall|i: int| 0 <= i < d.len() ==> #[trigger] d[i] == s[i + 1]);
        lemma_sweep_wf(d, now, ttl);
        let rest = cache_sweep(d, now, ttl);
        if s[0].1 <= now && now - s[0].1 < ttl {
            let w = cache_sweep(s, now, ttl);
            assert(w == seq![s[0]] + rest);
            assert forall|x: int, y: int|
                0 <= x < y < w.len() implies (#[trigger] w[x]).0@ != (#[trigger] w[y]).0@ by {
                if x == 0 {
                    assert(w[y] == rest[y - 1]);
                    lemma_sweep_member(d, now, ttl, y - 1);
                    let i = choose|i: int| 0 <= i < d.len() && #[trigger] d[i] == rest[y - 1];
                    assert(s[i + 1] == rest[y - 1]);
                    assert(s[0].0@ != s[i + 1].0@);
                } else {
                    assert(w[x] == rest[x - 1]);
                    assert(w[y] == rest[y - 1]);
                }
            }
        }
    }
}

/// Every swept entry stands in the source.
proof fn lemma_sweep_member(s: Seq<(String, u64, LLSDValue)>, now: u64, ttl: u64, j: int)
    requires
        0 <= j < cache_sweep(s, now, ttl).len(),
    ensures
        exists|i: int| 0 <= i < s.len() && #[trigger] s[i] == cache_sweep(s, now, ttl)[j],
    decreases s.len(),
{
    if s.len() > 0 {
        let rest = cache_sweep(s.drop_first(), now, ttl);
        if s[0].1 <= now && now - s[0].1 < ttl {
            if j == 0 {
                assert(s[0] == cache_sweep(s, now, ttl)[0]);
            } else {
                lemma_sweep_member(s.drop_first(), now, ttl, j - 1);
                let i = choose|i: int|
                    0 <= i < s.drop_first().len() && #[trigger] s.drop_first()[i] == rest[j - 1];
                assert(s[i + 1] == cache_sweep(s, now, ttl)[j]);
            }
        } else {
            lemma_sweep_member(s.drop_first(), now, ttl, j);
            let i = choose|i: int|
                0 <= i < s.drop_first().len() && #[trigger] s.drop_first()[i] == rest[j];
            assert(s[i + 1] == cache_sweep(s, now, ttl)[j]);
        }
    }
}

/// A cache entry: its key, the instant it was stored (milliseconds), and
/// the stored value.
pub open spec fn cache_lookup(s: Seq<(String, u64, LLSDValue)>, k: Seq<char>) -> Option<
    (u64, LLSDValue),
>
    decreases s.len(),
{
    if s.len() == 0 {
        None
    } else if s[0].0@ == k {
        Some((s[0].1, s[0].2))
    } else {
        cache_lookup(s.drop_first(), k)
    }
}

/// A bounded TTL cache: string keys, one time-to-live for all entries,
/// deep clones on the way in and out.  Ages are measured on the monotonic
/// clock, as milliseconds since the cache was created.  All operations
/// take exclusive access; callers that share a cache wrap it in a lock.
pub struct FSLLSDCache {
    entries: Vec<(String, u64, LLSDValue)>,
    ttl_ms: u64,
    origin: std::time::Instant,
}

impl FSLLSDCache {
    /// The entries, as the contracts speak of them.
    pub closed spec fn entries_view(&self) -> Seq<(String, u64, LLSDValue)> {
        self.entries@
    }

    /// The time-to-live, in milliseconds.
    pub closed spec fn ttl_spec(&self) -> u64 {
        self.ttl_ms
    }

    /// A fresh, empty cache with the given time-to-live in milliseconds.
    pub fn new(ttl_ms: u64) -> (r: FSLLSDCache)
        ensures
            r.entries_view().len() == 0,
            cache_wf(r.entries_view()),
            r.ttl_spec() == ttl_ms,
    {
        FSLLSDCache { entries: Vec::new(), ttl_ms, origin: instant_now() }
    }

    /// The monotonic clock, read as milliseconds since this cache was
    /// created.
    fn now_millis(&self) -> u64 {
        let el = instant_elapsed(&self.origin);
        let ms = duration_millis(&el);
        #[verifier::truncate] (ms as u64)
    }

    /// Store a deep clone of `data` under `key` as of instant `now`: a
    /// later `get_at` within the time-to-live returns it.
    #[verifier::loop_isolation(false)]
    pub fn put_at(&mut self, key: &str, data: &LLSDValue, now: u64)
        requires
            cache_wf(old(self).entries_view()),
        ensures
            final(self).ttl_spec() == old(self).ttl_spec(),
            cache_wf(final(self).entries_view()),
            cache_lookup(final(self).entries_view(), key@) matches Some(e) && e.0 == now && e.1@
                == data@,
            forall|k2: Seq<char>| k2 != key@ ==> cache_lookup(final(self).entries_view(), k2)
                == cache_lookup(old(self).entries_view(), k2),
            final(self).entries_view().len() == (if cache_lookup(
                old(self).entries_view(),
                key@,
            ) is Some {
                old(self).entries_view().len()
            } else {
                old(self).entries_view().len() + 1
            }),
    {
        let mut i: usize = 0;
        let n = self.entries.len();
        while i < n
            invariant
                i <= n,
                n == self.entries@.len(),
                *self == *old(self),
                forall|j: int| 0 <= j < i ==> (#[trigger] self.entries@[j]).0@ != key@,
            decreases n - i,
        {
            let ks = str_chars(self.entries[i].0.as_str());
            let kk = str_chars(key);
            if crate::secondlife::vecs_eq(&ks, &kk) {
                proof {
                    assert(self.entries@[i as int].0@ == key@);
                    lemma_cache_lookup_at(self.entries@, i as int, key@);
                }
                let removed = self.entries.remove(i);
                self.entries.insert(i, (key.to_owned(), now, data.clone()));
                proof {
                    lemma_cache_lookup_update(old(self).entries@, self.entries@, i as int, key@);
                    assert forall|x: int, y: int|
                        0 <= x < y < self.entries@.len() implies (#[trigger] self.entries@[
                        x]).0@ != (#[trigger] self.entries@[y]).0@ by {
                        if x != i as int && y != i as int {
                            assert(self.entries@[x] == old(self).entries@[x]);
                            assert(self.entries@[y] == old(self).entries@[y]);
                            assert((old(self).entries@[x]).0@ != (old(self).entries@[y]).0@);
                        } else if x == i as int {
                            assert(self.entries@[y] == old(self).entries@[y]);
                            assert((old(self).entries@[i as int]).0@ != (old(
                                self,
                            ).entries@[y]).0@);
                            assert(old(self).entries@[i as int].0@ == key@);
                        } else {
                            assert(self.entries@[x] == old(self).entries@[x]);
                            assert((old(self).entries@[x]).0@ != (old(
                                self,
                            ).entries@[i as int]).0@);
                            assert(old(self).entries@[i as int].0@ == key@);
                        }
                    }
                }
                return ;
            }
            i = i + 1;
        }
        self.entries.push((key.to_owned(), now, data.clone()));
        proof {
            lemma_cache_lookup_absent(old(self).entries@, key@);
            lemma_cache_lookup_push(old(self).entries@, self.entries@, key@);
            assert forall|x: int, y: int|
                0 <= x < y < self.entries@.len() implies (#[trigger] self.entries@[x]).0@
                != (#[trigger] self.entries@[y]).0@ by {
                if y < old(self).entries@.len() {
                    assert(self.entries@[x] == old(self).entries@[x]);
                    assert(self.entries@[y] == old(self).entries@[y]);
                    assert((old(self).entries@[x]).0@ != (old(self).entries@[y]).0@);
                } else {
                    assert(self.entries@[x] == old(self).entries@[x]);
                    assert(self.entries@[y].0@ == key@);
                    assert(old(self).entries@[x].0@ != key@);
                }
            }
        }
    }

    /// Read the value under `key` as of instant `now`: a hit within the
    /// time-to-live returns a deep clone; an expired entry is evicted and
    /// reads as a miss.
    #[verifier::loop_isolation(false)]
    pub fn get_at(&mut self, key: &str, now: u64) -> (r: Option<LLSDValue>)
        requires
            cache_wf(old(self).entries_view()),
        ensures
            final(self).ttl_spec() == old(self).ttl_spec(),
            cache_wf(final(self).entries_view()),
            (match cache_lookup(old(self).entries_view(), key@) {
                Some(e) => {
                    if e.0 <= now && now - e.0 < old(self).ttl_spec() {
                        r matches Some(v) && v@ == e.1@ && final(self).entries_view() == old(
                            self,
                        ).entries_view()
                    } else {
                        r is None && final(self).entries_view().len() == old(
                            self,
                        ).entries_view().len() - 1 && cache_lookup(
                            final(self).entries_view(),
                            key@,
                        ) is None && (forall|k2: Seq<char>|
                            k2 != key@ ==> cache_lookup(final(self).entries_view(), k2)
                                == cache_lookup(old(self).entries_view(), k2))
                    }
                },
                None => r is None && final(self).entries_view() == old(self).entries_view(),
            }),
    {
        let mut i: usize = 0;
        let n = self.entries.len();
        while i < n
            invariant
                i <= n,
                n == self.entries@.len(),
                *self == *old(self),
                forall|j: int| 0 <= j < i ==> (#[trigger] self.entries@[j]).0@ != key@,
            decreases n - i,
        {
            let ks = str_chars(self.entries[i].0.as_str());
            let kk = str_chars(key);
            if crate::secondlife::vecs_eq(&ks, &kk) {
                proof {
                    lemma_cache_lookup_at(self.entries@, i as int, key@);
                }
                let stamp = self.entries[i].1;
                if stamp <= now && now - stamp < self.ttl_ms {
                    let v = self.entries[i].2.clone();
                    proof {
                        assert(cache_wf(self.entries@));
                    }
                    return Some(v);
                }
                let removed = self.entries.remove(i);
                proof {
                    lemma_cache_remove_others(old(self).entries@, i as int, key@);
                    assert forall|j: int|
                        0 <= j < self.entries@.len() implies (#[trigger] self.entries@[j]).0@
                        != key@ by {
                        if j < i as int {
                            assert(self.entries@[j] == old(self).entries@[j]);
                        } else {
                            assert(self.entries@[j] == old(self).entries@[j + 1]);
                            assert((old(self).entries@[i as int]).0@ != (old(
                                self,
                            ).entries@[j + 1]).0@);
                            assert(old(self).entries@[i as int].0@ == key@);
                        }
                    }
                    lemma_cache_lookup_absent(self.entries@, key@);
                    assert forall|x: int, y: int|
                        0 <= x < y < self.entries@.len() implies (#[trigger] self.entries@[
                        x]).0@ != (#[trigger] self.entries@[y]).0@ by {
                        let xo: int = if x < i as int { x } else { x + 1 };
                        let yo: int = if y < i as int { y } else { y + 1 };
                        assert(self.entries@[x] == old(self).entries@[xo]);
                        assert(self.entries@[y] == old(self).entries@[yo]);
                        assert((old(self).entries@[xo]).0@ != (old(self).entries@[yo]).0@);
                    }
                }
                return None;
            }
            i = i + 1;
        }
        proof {
            lemma_cache_lookup_absent(self.entries@, key@);
        }
        None
    }

    /// Store a deep clone of `data` under `key`, stamped with the wall
    /// clock.
    pub fn put(&mut self, key: &str, data: LLSDValue)
        requires
            cache_wf(old(self).entries_view()),
        ensures
            final(self).ttl_spec() == old(self).ttl_spec(),
            cache_wf(final(self).entries_view()),
            cache_lookup(final(self).entries_view(), key@) matches Some(e) && e.1@ == data@,
            forall|k2: Seq<char>| k2 != key@ ==> cache_lookup(final(self).entries_view(), k2)
                == cache_lookup(old(self).entries_view(), k2),
            final(self).entries_view().len() == (if cache_lookup(
                old(self).entries_view(),
                key@,
            ) is Some {
                old(self).entries_view().len()
            } else {
                old(self).entries_view().len() + 1
            }),
    {
        let now = self.now_millis();
        self.put_at(key, &data, now);
    }

    /// Read the value under `key` as of the wall clock.  Whatever the
    /// clock read: entries under other keys are untouched, and the entry
    /// under `key` is either kept as it was or evicted.
    pub fn get(&mut self, key: &str) -> (r: Option<LLSDValue>)
        requires
            cache_wf(old(self).entries_view()),
        ensures
            final(self).ttl_spec() == old(self).ttl_spec(),
            cache_wf(final(self).entries_view()),
            r matches Some(v) ==> (cache_lookup(old(self).entries_view(), key@) matches Some(e)
                && v@ == e.1@),
            cache_lookup(old(self).entries_view(), key@) is None ==> r is None,
            r is Some ==> final(self).entries_view() == old(self).entries_view(),
            forall|k2: Seq<char>| k2 != key@ ==> cache_lookup(final(self).entries_view(), k2)
                == cache_lookup(old(self).entries_view(), k2),
            cache_lookup(final(self).entries_view(), key@) == cache_lookup(
                old(self).entries_view(),
                key@,
            ) || cache_lookup(final(self).entries_view(), key@) is None,
    {
        let now = self.now_millis();
        self.get_at(key, now)
    }

    /// Drop every entry.
    pub fn clear(&mut self)
        ensures
            final(self).entries_view().len() == 0,
            cache_wf(final(self).entries_view()),
            final(self).ttl_spec() == old(self).ttl_spec(),
    {
        self.entries.clear();
    }

    /// The number of entries now held.
    pub fn size(&self) -> (r: usize)
        ensures
            r == self.entries_view().len(),
    {
        self.entries.len()
    }

    /// Evict every entry whose age at instant `now` has reached the
    /// time-to-live.
    #[verifier::loop_isolation(false)]
    pub fn cleanup_at(&mut self, now: u64)
        requires
            cache_wf(old(self).entries_view()),
        ensures
            final(self).ttl_spec() == old(self).ttl_spec(),
            cache_wf(final(self).entries_view()),
            final(self).entries_view().len() <= old(self).entries_view().len(),
            final(self).entries_view() =~= cache_sweep(
                old(self).entries_view(),
                now,
                old(self).ttl_spec(),
            ),
            forall|j: int| 0 <= j < final(self).entries_view().len() ==> {
                let e = #[trigger] final(self).entries_view()[j];
                e.1 <= now && now - e.1 < old(self).ttl_spec()
            },
    {
        let ghost pre = self.entries@;
        let ttl = self.ttl_ms;
        let mut src: Vec<(String, u64, LLSDValue)> = Vec::new();
        std::mem::swap(&mut src, &mut self.entries);
        let mut out: Vec<(String, u64, LLSDValue)> = Vec::new();
        while src.len() > 0
            invariant
                self.ttl_ms == ttl,
                self.entries@.len() == 0,
                cache_sweep(pre, now, ttl) == out@ + cache_sweep(src@, now, ttl),
                forall|j: int| 0 <= j < out@.len() ==> {
                    let e = #[trigger] out@[j];
                    e.1 <= now && now - e.1 < ttl
                },
            decreases src@.len(),
        {
            let ghost s0 = src@;
            let e = src.remove(0);
            proof {
                assert(src@ =~= s0.drop_first());
            }
            if e.1 <= now && now - e.1 < ttl {
                out.push(e);
                proof {
                    assert(cache_sweep(s0, now, ttl) =~= seq![s0[0]] + cache_sweep(
                        s0.drop_first(), now, ttl));
                    assert(cache_sweep(pre, now, ttl) =~= out@ + cache_sweep(src@, now, ttl));
                }
            } else {
                proof {
                    assert(cache_sweep(s0, now, ttl) == cache_sweep(s0.drop_first(), now, ttl));
                }
            }
        }
        proof {
            assert(cache_sweep(src@, now, ttl) =~= Seq::<(String, u64, LLSDValue)>::empty());
            assert(out@ =~= cache_sweep(pre, now, ttl));
        }
        self.entries = out;
        proof {
            let swept = cache_sweep(pre, now, ttl);
            lemma_sweep_len(pre, now, ttl);
            lemma_sweep_wf(pre, now, ttl);
        }
    }

    /// Evict every entry that has expired as of the wall clock: whatever
    /// the clock read, the entries that remain are exactly the sweep of
    /// the old entries at that instant.
    pub fn cleanup(&mut self)
        requires
            cache_wf(old(self).entries_view()),
        ensures
            final(self).ttl_spec() == old(self).ttl_spec(),
            cache_wf(final(self).entries_view()),
            final(self).entries_view().len() <= old(self).entries_view().len(),
            exists|t: u64| final(self).entries_view() =~= cache_sweep(
                old(self).entries_view(),
                t,
                old(self).ttl_spec(),
            ),
    {
        let now = self.now_millis();
        self.cleanup_at(now);
        proof {
            assert(self.entries_view() =~= cache_sweep(
                old(self).entries_view(),
                now,
                old(self).ttl_spec(),
            ));
        }
    }
}

/// Replacing the matching entry rewrites the lookup for that key alone.
proof fn lemma_cache_lookup_update(
    pre: Seq<(String, u64, LLSDValue)>,
    post: Seq<(String, u64, LLSDValue)>,
    at: int,
    k: Seq<char>,
)
    requires
        0 <= at < pre.len(),
        post.len() == pre.len(),
        post[at].0@ == k,
        pre[at].0@ == k,
        forall|j: int| 0 <= j < pre.len() && j != at ==> post[j] == pre[j],
        forall|j: int| 0 <= j < at ==> (#[trigger] pre[j]).0@ != k,
    ensures
        cache_lookup(post, k) == Some((post[at].1, post[at].2)),
        forall|k2: Seq<char>| k2 != k ==> cache_lookup(post, k2) == cache_lookup(pre, k2),
    decreases at,
{
    if at == 0 {
        assert(cache_lookup(post, k) == Some((post[0].1, post[0].2)));
        assert forall|k2: Seq<char>| k2 != k implies cache_lookup(post, k2) == cache_lookup(
            pre,
            k2,
        ) by {
            assert(post.drop_first() =~= pre.drop_first());
            assert(pre[0].0@ == k);
            assert(cache_lookup(post, k2) == cache_lookup(post.drop_first(), k2));
            assert(cache_lookup(pre, k2) == cache_lookup(pre.drop_first(), k2));
        }
    } else {
        assert(pre[0] == post[0]);
        assert(pre.drop_first().len() == post.drop_first().len());
        assert(forall|j: int| 0 <= j < pre.drop_first().len() && j != at - 1
            ==> #[trigger] post.drop_first()[j] == pre.drop_first()[j]);
        assert(forall|j: int| 0 <= j < at - 1 ==> (#[trigger] pre.drop_first()[j]).0@ != k);
        assert(post.drop_first()[at - 1] == post[at]);
        assert(pre.drop_first()[at - 1] == pre[at]);
        lemma_cache_lookup_update(pre.drop_first(), post.drop_first(), at - 1, k);
        assert(pre[0].0@ != k);
        assert(cache_lookup(post, k) == cache_lookup(post.drop_first(), k));
        assert forall|k2: Seq<char>| k2 != k implies cache_lookup(post, k2) == cache_lookup(
            pre,
            k2,
        ) by {
            if pre[0].0@ == k2 {
                assert(cache_lookup(post, k2) == Some((post[0].1, post[0].2)));
                assert(cache_lookup(pre, k2) == Some((pre[0].1, pre[0].2)));
            } else {
                assert(cache_lookup(post, k2) == cache_lookup(post.drop_first(), k2));
                assert(cache_lookup(pre, k2) == cache_lookup(pre.drop_first(), k2));
            }
        }
    }
}

/// Appending a fresh entry adds its key and changes nothing else.
proof fn lemma_cache_lookup_push(
    pre: Seq<(String, u64, LLSDValue)>,
    post: Seq<(String, u64, LLSDValue)>,
    k: Seq<char>,
)
    requires
        post.len() == pre.len() + 1,
        post[post.len() - 1].0@ == k,
        forall|j: int| 0 <= j < pre.len() ==> post[j] == pre[j],
        forall|j: int| 0 <= j < pre.len() ==> (#[trigger] pre[j]).0@ != k,
    ensures
        cache_lookup(post, k) == Some((post[post.len() - 1].1, post[post.len() - 1].2)),
        forall|k2: Seq<char>| k2 != k ==> cache_lookup(post, k2) == cache_lookup(pre, k2),
    decreases pre.len(),
{
    if pre.len() == 0 {
        assert(cache_lookup(post, k) == Some((post[0].1, post[0].2)));
        assert forall|k2: Seq<char>| k2 != k implies cache_lookup(post, k2) == cache_lookup(
            pre,
            k2,
        ) by {
            let e = Seq::<(String, u64, LLSDValue)>::empty();
            assert(cache_lookup(e, k2) is None);
            assert(post.drop_first() =~= e);
            assert(cache_lookup(post, k2) == cache_lookup(post.drop_first(), k2));
            assert(cache_lookup(pre, k2) is None);
        }
    } else {
        assert(post[0] == pre[0]);
        assert(forall|j: int| 0 <= j < pre.drop_first().len() ==> #[trigger] post.drop_first()[j]
            == pre.drop_first()[j]);
        assert(post.drop_first()[post.drop_first().len() - 1] == post[post.len() - 1]);
        assert(forall|j: int| 0 <= j < pre.drop_first().len()
            ==> (#[trigger] pre.drop_first()[j]).0@ != k);
        lemma_cache_lookup_push(pre.drop_first(), post.drop_first(), k);
        assert(pre[0].0@ != k);
        assert(cache_lookup(post, k) == cache_lookup(post.drop_first(), k));
        assert forall|k2: Seq<char>| k2 != k implies cache_lookup(post, k2) == cache_lookup(
            pre,
            k2,
        ) by {
            if pre[0].0@ == k2 {
                assert(cache_lookup(post, k2) == Some((post[0].1, post[0].2)));
                assert(cache_lookup(pre, k2) == Some((pre[0].1, pre[0].2)));
            } else {
                assert(cache_lookup(post, k2) == cache_lookup(post.drop_first(), k2));
                assert(cache_lookup(pre, k2) == cache_lookup(pre.drop_first(), k2));
            }
        }
    }
}

/// The first match determines the lookup.
proof fn lemma_cache_lookup_at(s: Seq<(String, u64, LLSDValue)>, at: int, k: Seq<char>)
    requires
        0 <= at < s.len(),
        s[at].0@ == k,
        forall|j: int| 0 <= j < at ==> (#[trigger] s[j]).0@ != k,
    ensures
        cache_lookup(s, k) == Some((s[at].1, s[at].2)),
    decreases at,
{
    if at > 0 {
        assert(s.drop_first()[at - 1] == s[at]);
        assert(forall|j: int| 0 <= j < at - 1 ==> (#[trigger] s.drop_first()[j]).0@ != k);
        lemma_cache_lookup_at(s.drop_first(), at - 1, k);
    }
}

/// No matching entry means a miss.
proof fn lemma_cache_lookup_absent(s: Seq<(String, u64, LLSDValue)>, k: Seq<char>)
    requires
        forall|j: int| 0 <= j < s.len() ==> (#[trigger] s[j]).0@ != k,
    ensures
        cache_lookup(s, k) is None,
    decreases s.len(),
{
    if s.len() > 0 {
        assert(forall|j: int| 0 <= j < s.drop_first().len() ==> #[trigger] s.drop_first()[j]
            == s[j + 1]);
        lemma_cache_lookup_absent(s.drop_first(), k);
    }
}

/// Removing one entry leaves the lookup of every other key alone.
proof fn lemma_cache_remove_others(s: Seq<(String, u64, LLSDValue)>, at: int, k: Seq<char>)
    requires
        0 <= at < s.len(),
        s[at].0@ == k,
    ensures
        forall|k2: Seq<char>| k2 != k ==> cache_lookup(s.remove(at), k2) == cache_lookup(s, k2),
    decreases at,
{
    if at == 0 {
        assert forall|k2: Seq<char>| k2 != k implies cache_lookup(s.remove(0), k2)
            == cache_lookup(s, k2) by {
            assert(s.remove(0) =~= s.drop_first());
            assert(s[0].0@ != k2);
        }
    } else {
        lemma_cache_remove_others(s.drop_first(), at - 1, k);
        assert(s.drop_first()[at - 1] == s[at]);
        assert forall|k2: Seq<char>| k2 != k implies cache_lookup(s.remove(at), k2)
            == cache_lookup(s, k2) by {
            assert(s.remove(at)[0] == s[0]);
            assert(s.remove(at).drop_first() =~= s.drop_first().remove(at - 1));
            if s[0].0@ != k2 {
                assert(cache_lookup(s.remove(at), k2) == cache_lookup(
                    s.remove(at).drop_first(), k2));
                assert(cache_lookup(s, k2) == cache_lookup(s.drop_first(), k2));
            }
        }
    }
}

} // verus!
