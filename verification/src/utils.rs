//! Helpers over the value model: typed reads with defaults, recursive map
//! merge, filtering, structure metrics and the constraint validator.

use vstd::prelude::*;
use crate::types::{LLSDValue, ValueView, LLSDDate, view_of, views_of, entry_views_of,
    lemma_views_of, lemma_entry_views_of, nav, path_segments, dict_get, dict_set,
    lemma_dict_set};
use crate::trusted::{real_trunc_i32_of, real_bits_of_i32, real_close_of, real_bits_to_i32,
    i32_to_real_bits, real_close, generate_uuid_bytes};
use crate::error::{LLSDError, LLSDResult};

verus! {

/// The recursive merge of `overlay` into `base`: each overlay binding
/// lands in the base, except that where both sides bind a map the two maps
/// merge recursively.
pub open spec fn merge_entries(
    base: Seq<(Seq<char>, ValueView)>,
    overlay: Seq<(Seq<char>, ValueView)>,
) -> Seq<(Seq<char>, ValueView)>
    decreases overlay, 0int, overlay.len(),
{
    if overlay.len() == 0 {
        base
    } else {
        merge_entries(merge_one(base, overlay[0].0, overlay[0].1), overlay.drop_first())
    }
}

/// One overlay binding folded into the base.
pub open spec fn merge_one(
    base: Seq<(Seq<char>, ValueView)>,
    k: Seq<char>,
    v: ValueView,
) -> Seq<(Seq<char>, ValueView)>
    decreases v, 2int, 0int,
{
    match dict_get(base, k) {
        Some(bv) => if bv is Dict && v is Dict {
            dict_set(base, k, ValueView::Dict(merge_entries(bv->Dict_0, v->Dict_0)))
        } else {
            dict_set(base, k, v)
        },
        None => dict_set(base, k, v),
    }
}

/// Utility functions over LLSD values.
pub struct LLSDUtils {
}

impl LLSDUtils {
    /// A fresh random version-4 UUID, as sixteen bytes: the high nibble of
    /// byte 6 carries the version number 4.
    pub fn generate_uuid() -> (r: [u8; 16])
        ensures
            r@.len() == 16,
            r@[6] >> 4 == 4,
    {
        generate_uuid_bytes()
    }

    /// Whether a text is a UUID in any form the UUID grammar accepts.
    pub fn is_valid_uuid(s: &str) -> (r: bool)
        ensures
            r == (crate::trusted::uuid_any_parse_of(s@) is Some),
    {
        crate::trusted::uuid_parse_any(s).is_some()
    }

    /// A deep clone of a value: same model, no shared mutable structure.
    pub fn deep_clone(value: &LLSDValue) -> (r: LLSDValue)
        ensures
            r@ == value@,
    {
        value.clone()
    }

    /// The value at a dotted path, or the given default on a miss.
    pub fn get_value<'a>(root: &'a LLSDValue, path: &str, default: &'a LLSDValue) -> (r:
        &'a LLSDValue)
        ensures
            r@ == (match nav(root@, path_segments(path@)) {
                Some(v) => v,
                None => default@,
            }),
    {
        match root.get_path(path) {
            Some(v) => v,
            None => default,
        }
    }

    /// The string at a dotted path; a URI also reads as its text; anything
    /// else gives the default.
    pub fn get_string(root: &LLSDValue, path: &str, default: &str) -> (r: String)
        ensures
            r@ == (match nav(root@, path_segments(path@)) {
                Some(ValueView::String(s)) => s,
                Some(ValueView::URI(s)) => s,
                _ => default@,
            }),
    {
        match root.get_path(path) {
            Some(LLSDValue::String(s)) => s.clone(),
            Some(LLSDValue::URI(s)) => s.clone(),
            _ => default.to_owned(),
        }
    }

    /// The integer at a dotted path; a real truncates; anything else gives
    /// the default.
    pub fn get_integer(root: &LLSDValue, path: &str, default: i32) -> (r: i32)
        ensures
            r == (match nav(root@, path_segments(path@)) {
                Some(ValueView::Integer(i)) => i as i32,
                Some(ValueView::Real(bits)) => real_trunc_i32_of(bits),
                _ => default,
            }),
    {
        match root.get_path(path) {
            Some(LLSDValue::Integer(i)) => *i,
            Some(LLSDValue::Real(bits)) => real_bits_to_i32(*bits),
            _ => default,
        }
    }

    /// The real (as IEEE-754 bits) at a dotted path; an integer widens;
    /// anything else gives the default.
    pub fn get_real(root: &LLSDValue, path: &str, default: u64) -> (r: u64)
        ensures
            r == (match nav(root@, path_segments(path@)) {
                Some(ValueView::Real(bits)) => bits,
                Some(ValueView::Integer(i)) => real_bits_of_i32(i as i32),
                _ => default,
            }),
    {
        match root.get_path(path) {
            Some(LLSDValue::Real(bits)) => *bits,
            Some(LLSDValue::Integer(i)) => i32_to_real_bits(*i),
            _ => default,
        }
    }

    /// The boolean at a dotted path, or the default.
    pub fn get_boolean(root: &LLSDValue, path: &str, default: bool) -> (r: bool)
        ensures
            r == (match nav(root@, path_segments(path@)) {
                Some(ValueView::Boolean(b)) => b,
                _ => default,
            }),
    {
        match root.get_path(path) {
            Some(LLSDValue::Boolean(b)) => *b,
            _ => default,
        }
    }

    /// The UUID at a dotted path, or the default.
    pub fn get_uuid(root: &LLSDValue, path: &str, default: [u8; 16]) -> (r: [u8; 16])
        ensures
            r@ == (match nav(root@, path_segments(path@)) {
                Some(ValueView::UUID(u)) => u,
                _ => default@,
            }),
    {
        match root.get_path(path) {
            Some(LLSDValue::UUID(u)) => *u,
            _ => default,
        }
    }

    /// The date at a dotted path, or the default.
    pub fn get_date(root: &LLSDValue, path: &str, default: LLSDDate) -> (r: LLSDDate)
        ensures
            ValueView::Date(r.secs as int, r.nanos as int) == (match nav(
                root@,
                path_segments(path@),
            ) {
                Some(ValueView::Date(se, na)) => ValueView::Date(se, na),
                _ => ValueView::Date(default.secs as int, default.nanos as int),
            }),
    {
        match root.get_path(path) {
            Some(LLSDValue::Date(d)) => *d,
            _ => default,
        }
    }

    /// The entries of a map value, cloned; an empty map for anything else.
    pub fn as_map(value: &LLSDValue) -> (r: Vec<(String, LLSDValue)>)
        ensures
            entry_views_of(r@) == (match value@ {
                ValueView::Dict(m) => m,
                _ => Seq::<(Seq<char>, ValueView)>::empty(),
            }),
    {
        match value {
            LLSDValue::Dict(m) => crate::types::clone_entries(m),
            _ => Vec::new(),
        }
    }

    /// The elements of an array value, cloned; an empty array for anything
    /// else.
    pub fn as_array(value: &LLSDValue) -> (r: Vec<LLSDValue>)
        ensures
            views_of(r@) == (match value@ {
                ValueView::Array(a) => a,
                _ => Seq::<ValueView>::empty(),
            }),
    {
        match value {
            LLSDValue::Array(a) => crate::types::clone_values(a),
            _ => Vec::new(),
        }
    }

    /// Merge `overlay` into `base` recursively, per [`merge_entries`].
    pub fn merge_maps(base: &mut Vec<(String, LLSDValue)>, overlay: &Vec<(String, LLSDValue)>)
        ensures
            entry_views_of(final(base)@) == merge_entries(
                entry_views_of(old(base)@),
                entry_views_of(overlay@),
            ),
    {
        merge_into(base, overlay, 0);
        proof {
            assert(entry_views_of(overlay@).skip(0) =~= entry_views_of(overlay@));
        }
    }

    /// Structural equality up to an absolute tolerance on numeric leaves:
    /// real/real and integer/real pairs compare within `tol_bits` (an
    /// IEEE-754 double); everything else compares structurally.
    pub fn equals_with_tolerance(a: &LLSDValue, b: &LLSDValue, tol_bits: u64) -> (r: bool)
        ensures
            r == tol_eq(a@, b@, tol_bits),
    {
        match (a, b) {
            (LLSDValue::Real(x), LLSDValue::Real(y)) => real_close(*x, *y, tol_bits),
            (LLSDValue::Integer(x), LLSDValue::Real(y)) => real_close(
                i32_to_real_bits(*x),
                *y,
                tol_bits,
            ),
            (LLSDValue::Real(x), LLSDValue::Integer(y)) => real_close(
                *x,
                i32_to_real_bits(*y),
                tol_bits,
            ),
            _ => crate::types::eq_value(a, b),
        }
    }

    /// The entries of `map` whose keys stand in `keep_keys`, in order.
    pub fn filter_map(map: &Vec<(String, LLSDValue)>, keep_keys: &Vec<String>) -> (r: Vec<
        (String, LLSDValue),
    >)
        ensures
            entry_views_of(r@) == filter_entries(
                entry_views_of(map@),
                crate::types::str_views(keep_keys@),
            ),
    {
        proof {
            lemma_entry_views_of(map@);
        }
        let ghost es = entry_views_of(map@);
        let ghost kv = crate::types::str_views(keep_keys@);
        let mut out: Vec<(String, LLSDValue)> = Vec::new();
        let mut i: usize = 0;
        while i < map.len()
            invariant
                i <= map@.len(),
                es == entry_views_of(map@),
                kv == crate::types::str_views(keep_keys@),
                es.len() == map@.len(),
                forall|j: int| 0 <= j < map@.len() ==> es[j] == ((#[trigger] map@[j]).0@,
                    view_of(map@[j].1)),
                entry_views_of(out@) == filter_entries(es.take(i as int), kv),
            decreases map@.len() - i,
        {
            let hit = keys_contain(keep_keys, &map[i].0);
            proof {
                lemma_filter_snoc(es.take(i as int), es[i as int], kv);
                assert(es.take(i + 1 as int) =~= es.take(i as int).push(es[i as int]));
            }
            if hit {
                let ghost pre = out@;
                let k2 = map[i].0.clone();
                let v2 = map[i].1.clone();
                out.push((k2, v2));
                proof {
                    lemma_entry_views_of(out@);
                    lemma_entry_views_of(pre);
                    assert(entry_views_of(out@) =~= entry_views_of(pre).push(es[i as int]));
                }
            }
            i = i + 1;
        }
        proof {
            assert(es.take(es.len() as int) =~= es);
        }
        out
    }

    /// Remove undefined bindings from a map, recursing into nested maps.
    pub fn remove_nulls(map: &mut Vec<(String, LLSDValue)>)
        ensures
            entry_views_of(final(map)@) == scrub_entries(entry_views_of(old(map)@)),
    {
        let out = scrub_vec(map);
        *map = out;
    }

    /// The total number of nodes in a value, each container counting as
    /// one node (saturating at the machine word).
    pub fn count_elements(value: &LLSDValue) -> (r: usize)
        ensures
            r as int == (if count_of(value@) <= usize::MAX as int {
                count_of(value@)
            } else {
                usize::MAX as int
            }),
    {
        count_value(value)
    }

    /// The nesting depth of a value (saturating at the machine word).
    pub fn max_depth(value: &LLSDValue) -> (r: usize)
        ensures
            r as int == (if depth1_of(value@) <= usize::MAX as int {
                depth1_of(value@)
            } else {
                usize::MAX as int
            }),
    {
        depth_value(value)
    }

    /// Check a value against depth and element-count quotas: fails exactly
    /// when one of them is exceeded.
    pub fn validate_constraints(value: &LLSDValue, max_depth: usize, max_elements: usize) -> (r:
        LLSDResult<()>)
        ensures
            r is Ok <==> ((depth1_of(value@) <= max_depth as int || max_depth == usize::MAX)
                && (count_of(value@) <= max_elements as int || max_elements == usize::MAX)),
            r matches Err(e) ==> e is ValidationError,
    {
        let d = depth_value(value);
        if d > max_depth {
            return Err(LLSDError::validation_error("structure depth exceeds the quota"));
        }
        let c = count_value(value);
        if c > max_elements {
            return Err(LLSDError::validation_error("structure size exceeds the quota"));
        }
        Ok(())
    }
}


/// Tolerance equality at the model level.
pub open spec fn tol_eq(a: ValueView, b: ValueView, tol: u64) -> bool {
    if a is Real && b is Real {
        real_close_of(a->Real_0, b->Real_0, tol)
    } else if a is Integer && b is Real {
        real_close_of(real_bits_of_i32(a->Integer_0 as i32), b->Real_0, tol)
    } else if a is Real && b is Integer {
        real_close_of(a->Real_0, real_bits_of_i32(b->Integer_0 as i32), tol)
    } else {
        a == b
    }
}

/// Fold overlay entries from `at` on into `base`.
fn merge_into(base: &mut Vec<(String, LLSDValue)>, overlay: &Vec<(String, LLSDValue)>, at: usize)
    requires
        at <= overlay@.len(),
    ensures
        entry_views_of(final(base)@) == merge_entries(
            entry_views_of(old(base)@),
            entry_views_of(overlay@).skip(at as int),
        ),
    decreases overlay@.len() - at,
{
    proof {
        lemma_entry_views_of(overlay@);
    }
    let ghost ov = entry_views_of(overlay@);
    if at == overlay.len() {
        proof {
            assert(ov.skip(at as int) =~= Seq::<(Seq<char>, ValueView)>::empty());
        }
        return ;
    }
    let key = &overlay[at].0;
    let val = &overlay[at].1;
    merge_entry(base, key, val);
    merge_into(base, overlay, at + 1);
    proof {
        assert(ov.skip(at as int)[0] == ov[at as int]);
        assert(ov.skip(at as int).drop_first() =~= ov.skip(at + 1 as int));
    }
}

/// Fold one binding into `base`, recursing when both sides hold maps.
fn merge_entry(base: &mut Vec<(String, LLSDValue)>, key: &String, val: &LLSDValue)
    ensures
        entry_views_of(final(base)@) == merge_one(entry_views_of(old(base)@), key@, val@),
    decreases *val, 3int, 0int,
{
    proof {
        lemma_entry_views_of(base@);
    }
    let ghost b0 = entry_views_of(base@);
    let pos = crate::types::dict_position(base, key);
    match pos {
        Some(j) => {
            let both_maps: bool = matches!(&base[j].1, LLSDValue::Dict(_)) && matches!(
                val,
                LLSDValue::Dict(_),
            );
            if both_maps {
                let entry = base.remove(j);
                let k2 = entry.0;
                let mut inner = entry.1;
                proof {
                    assert(view_of(inner) == b0[j as int].1);
                }
                match (&mut inner, val) {
                    (LLSDValue::Dict(bm), LLSDValue::Dict(om)) => {
                        proof {
                            assert(decreases_to!(*val => val->Dict_0));
                            assert(decreases_to!(val->Dict_0 => val->Dict_0@));
                            assert(val->Dict_0 == *om);
                        }
                        merge_dicts(bm, om);
                    },
                    _ => {
                        proof {
                            assert(false);
                        }
                    },
                }
                base.insert(j, (k2, inner));
                proof {
                    lemma_entry_views_of(base@);
                    assert(entry_views_of(base@) =~= b0.update(
                        j as int,
                        (key@, view_of(base@[j as int].1)),
                    ));
                    assert(b0[j as int].0 == key@);
                    assert forall|i: int| 0 <= i < j implies b0[i].0 != b0[j as int].0 by {
                        assert(b0[i].0 == old(base)@[i].0@);
                    }
                    crate::types::lemma_dict_set_update(b0, j as int, view_of(base@[j as int].1));
                    assert(dict_get(b0, key@) == Some(b0[j as int].1));
                }
            } else {
                let entry = base.remove(j);
                let k2 = entry.0;
                let nv = val.clone();
                base.insert(j, (k2, nv));
                proof {
                    lemma_entry_views_of(base@);
                    assert(entry_views_of(base@) =~= b0.update(j as int, (key@, val@)));
                    assert(b0[j as int].0 == key@);
                    assert forall|i: int| 0 <= i < j implies b0[i].0 != b0[j as int].0 by {
                        assert(b0[i].0 == old(base)@[i].0@);
                    }
                    crate::types::lemma_dict_set_update(b0, j as int, val@);
                    assert(dict_get(b0, key@) == Some(b0[j as int].1));
                    assert(!(b0[j as int].1 is Dict && val@ is Dict));
                }
            }
        },
        None => {
            let k2 = key.clone();
            let nv = val.clone();
            base.push((k2, nv));
            proof {
                lemma_entry_views_of(base@);
                assert(entry_views_of(base@) =~= b0.push((key@, val@)));
                lemma_dict_get_absent(b0, key@);
                crate::types::lemma_dict_set_new(b0, key@, val@);
            }
        },
    }
}

/// Merge two map payloads entry-wise.
fn merge_dicts(bm: &mut Vec<(String, LLSDValue)>, om: &Vec<(String, LLSDValue)>)
    ensures
        entry_views_of(final(bm)@) == merge_entries(
            entry_views_of(old(bm)@),
            entry_views_of(om@),
        ),
    decreases om@, 6int, 0int,
{
    proof {
        lemma_entry_views_of(om@);
    }
    merge_from(bm, om, 0);
    proof {
        assert(entry_views_of(om@).skip(0) =~= entry_views_of(om@));
    }
}

/// Fold overlay entries from `at` on, used under `merge_dicts`.
fn merge_from(bm: &mut Vec<(String, LLSDValue)>, om: &Vec<(String, LLSDValue)>, at: usize)
    requires
        at <= om@.len(),
    ensures
        entry_views_of(final(bm)@) == merge_entries(
            entry_views_of(old(bm)@),
            entry_views_of(om@).skip(at as int),
        ),
    decreases om@, 5int, om@.len() - at,
{
    proof {
        lemma_entry_views_of(om@);
    }
    let ghost ov = entry_views_of(om@);
    if at == om.len() {
        proof {
            assert(ov.skip(at as int) =~= Seq::<(Seq<char>, ValueView)>::empty());
        }
        return ;
    }
    proof {
        assert(decreases_to!(om@ => om@[at as int]));
        assert(decreases_to!(om@[at as int] => om@[at as int].1));
    }
    let key = &om[at].0;
    let val = &om[at].1;
    merge_entry(bm, key, val);
    merge_from(bm, om, at + 1);
    proof {
        assert(ov.skip(at as int)[0] == ov[at as int]);
        assert(ov.skip(at as int).drop_first() =~= ov.skip(at + 1 as int));
    }
}

/// A key that `dict_get` misses matches no entry.
pub proof fn lemma_dict_get_absent(e: Seq<(Seq<char>, ValueView)>, k: Seq<char>)
    requires
        dict_get(e, k) is None,
    ensures
        forall|i: int| 0 <= i < e.len() ==> (#[trigger] e[i]).0 != k,
    decreases e.len(),
{
    if e.len() > 0 {
        lemma_dict_get_absent(e.drop_first(), k);
        assert forall|i: int| 0 <= i < e.len() implies (#[trigger] e[i]).0 != k by {
            if i > 0 {
                assert(e[i] == e.drop_first()[i - 1]);
            }
        }
    }
}

/// When no entry holds the key, `dict_get` misses.
pub proof fn lemma_dict_get_none(e: Seq<(Seq<char>, ValueView)>, k: Seq<char>)
    requires
        forall|i: int| 0 <= i < e.len() ==> (#[trigger] e[i]).0 != k,
    ensures
        dict_get(e, k) is None,
    decreases e.len(),
{
    if e.len() > 0 {
        assert(forall|i: int| 0 <= i < e.drop_first().len() ==> #[trigger] e.drop_first()[i]
            == e[i + 1]);
        lemma_dict_get_none(e.drop_first(), k);
    }
}

/// Law: the recursive merge agrees with its key-wise reading.  For every
/// key, the merged map binds the overlay's value, except that where both
/// sides bind maps the binding is their recursive merge, and keys the
/// overlay does not bind keep the base's value.  Stated for overlays with
/// unique keys, as every well-formed map has.
pub proof fn lemma_merge_keywise(
    b: Seq<(Seq<char>, ValueView)>,
    o: Seq<(Seq<char>, ValueView)>,
    k: Seq<char>,
)
    requires
        forall|i: int, j: int| 0 <= i < j < o.len() ==> o[i].0 != o[j].0,
    ensures
        dict_get(merge_entries(b, o), k) == (match dict_get(o, k) {
            Some(ov) => match dict_get(b, k) {
                Some(bv) => if bv is Dict && ov is Dict {
                    Some(ValueView::Dict(merge_entries(bv->Dict_0, ov->Dict_0)))
                } else {
                    Some(ov)
                },
                None => Some(ov),
            },
            None => dict_get(b, k),
        }),
    decreases o.len(),
{
    if o.len() > 0 {
        let e0 = o[0];
        let d = o.drop_first();
        let b2 = merge_one(b, e0.0, e0.1);
        assert(forall|i: int| 0 <= i < d.len() ==> #[trigger] d[i] == o[i + 1]);
        lemma_merge_keywise(b2, d, k);
        lemma_dict_set(b, e0.0, (match dict_get(b, e0.0) {
            Some(bv) => if bv is Dict && e0.1 is Dict {
                ValueView::Dict(merge_entries(bv->Dict_0, e0.1->Dict_0))
            } else {
                e0.1
            },
            None => e0.1,
        }));
        if k == e0.0 {
            assert(dict_get(o, k) == Some(e0.1));
            assert forall|i: int| 0 <= i < d.len() implies (#[trigger] d[i]).0 != k by {
                assert(d[i] == o[i + 1]);
            }
            lemma_dict_get_none(d, k);
            assert(dict_get(merge_entries(b, o), k) == dict_get(b2, k));
        } else {
            assert(dict_get(o, k) == dict_get(d, k));
            assert(dict_get(b2, k) == dict_get(b, k));
        }
    }
}

/// The entries whose keys stand in `keys`, in order.
pub open spec fn filter_entries(
    m: Seq<(Seq<char>, ValueView)>,
    keys: Seq<Seq<char>>,
) -> Seq<(Seq<char>, ValueView)>
    decreases m.len(),
{
    if m.len() == 0 {
        Seq::empty()
    } else if keys.contains(m[0].0) {
        seq![m[0]] + filter_entries(m.drop_first(), keys)
    } else {
        filter_entries(m.drop_first(), keys)
    }
}

/// Filtering distributes over appending one entry.
proof fn lemma_filter_snoc(
    m: Seq<(Seq<char>, ValueView)>,
    e: (Seq<char>, ValueView),
    keys: Seq<Seq<char>>,
)
    ensures
        filter_entries(m.push(e), keys) == (if keys.contains(e.0) {
            filter_entries(m, keys).push(e)
        } else {
            filter_entries(m, keys)
        }),
    decreases m.len(),
{
    let p = m.push(e);
    if m.len() == 0 {
        assert(p[0] == e);
        assert(p.drop_first() =~= Seq::<(Seq<char>, ValueView)>::empty());
        assert(filter_entries(p.drop_first(), keys) =~= Seq::<(Seq<char>, ValueView)>::empty());
        assert(filter_entries(m, keys) =~= Seq::<(Seq<char>, ValueView)>::empty());
        if keys.contains(e.0) {
            assert(filter_entries(p, keys) == seq![e] + filter_entries(p.drop_first(), keys));
            assert(filter_entries(p, keys) =~= filter_entries(m, keys).push(e));
        }
    } else {
        lemma_filter_snoc(m.drop_first(), e, keys);
        assert(p[0] == m[0]);
        assert(p.drop_first() =~= m.drop_first().push(e));
        if keys.contains(m[0].0) {
            assert(filter_entries(p, keys) == seq![m[0]] + filter_entries(p.drop_first(), keys));
            assert(filter_entries(m, keys) == seq![m[0]] + filter_entries(m.drop_first(), keys));
        } else {
            assert(filter_entries(p, keys) == filter_entries(p.drop_first(), keys));
            assert(filter_entries(m, keys) == filter_entries(m.drop_first(), keys));
        }
        if keys.contains(e.0) {
            assert(filter_entries(p, keys) =~= filter_entries(m, keys).push(e));
        } else {
            assert(filter_entries(p, keys) =~= filter_entries(m, keys));
        }
    }
}

/// The number of nodes in a value, counting each container as one node.
pub open spec fn count_of(v: ValueView) -> int
    decreases v, 1int, 0int,
{
    match v {
        ValueView::Array(a) => 1 + count_of_seq(a),
        ValueView::Dict(m) => 1 + count_of_entries(m),
        _ => 1,
    }
}

/// The node count of a sequence of values.
pub open spec fn count_of_seq(a: Seq<ValueView>) -> int
    decreases a, 0int, a.len(),
{
    if a.len() == 0 {
        0
    } else {
        count_of(a[0]) + count_of_seq(a.drop_first())
    }
}

/// The node count of map entry values.
pub open spec fn count_of_entries(m: Seq<(Seq<char>, ValueView)>) -> int
    decreases m, 0int, m.len(),
{
    if m.len() == 0 {
        0
    } else {
        count_of(m[0].1) + count_of_entries(m.drop_first())
    }
}

/// The nesting depth of a value: leaves count one level, containers one
/// more than their deepest member.
pub open spec fn depth1_of(v: ValueView) -> int
    decreases v, 1int, 0int,
{
    match v {
        ValueView::Array(a) => 1 + depth1_of_seq(a),
        ValueView::Dict(m) => 1 + depth1_of_entries(m),
        _ => 1,
    }
}

/// The deepest member of a sequence of values (zero when empty).
pub open spec fn depth1_of_seq(a: Seq<ValueView>) -> int
    decreases a, 0int, a.len(),
{
    if a.len() == 0 {
        0
    } else {
        let rest = depth1_of_seq(a.drop_first());
        if depth1_of(a[0]) >= rest {
            depth1_of(a[0])
        } else {
            rest
        }
    }
}

/// The deepest entry value of a map (zero when empty).
pub open spec fn depth1_of_entries(m: Seq<(Seq<char>, ValueView)>) -> int
    decreases m, 0int, m.len(),
{
    if m.len() == 0 {
        0
    } else {
        let rest = depth1_of_entries(m.drop_first());
        if depth1_of(m[0].1) >= rest {
            depth1_of(m[0].1)
        } else {
            rest
        }
    }
}

/// Count snoc: appending one element adds its count.
proof fn lemma_count_seq_snoc(a: Seq<ValueView>, x: ValueView)
    ensures
        count_of_seq(a.push(x)) == count_of_seq(a) + count_of(x),
    decreases a.len(),
{
    let p = a.push(x);
    if a.len() == 0 {
        assert(p[0] == x);
        assert(p.drop_first() =~= Seq::<ValueView>::empty());
        assert(count_of_seq(p.drop_first()) == 0);
        assert(count_of_seq(p) == count_of(x) + count_of_seq(p.drop_first()));
        assert(count_of_seq(a) == 0);
    } else {
        lemma_count_seq_snoc(a.drop_first(), x);
        assert(p[0] == a[0]);
        assert(p.drop_first() =~= a.drop_first().push(x));
        assert(count_of_seq(p) == count_of(a[0]) + count_of_seq(p.drop_first()));
        assert(count_of_seq(a) == count_of(a[0]) + count_of_seq(a.drop_first()));
    }
}

/// Count snoc for entries.
proof fn lemma_count_entries_snoc(m: Seq<(Seq<char>, ValueView)>, e: (Seq<char>, ValueView))
    ensures
        count_of_entries(m.push(e)) == count_of_entries(m) + count_of(e.1),
    decreases m.len(),
{
    let p = m.push(e);
    if m.len() == 0 {
        assert(p[0] == e);
        assert(p.drop_first() =~= Seq::<(Seq<char>, ValueView)>::empty());
        assert(count_of_entries(p.drop_first()) == 0);
        assert(count_of_entries(p) == count_of(e.1) + count_of_entries(p.drop_first()));
        assert(count_of_entries(m) == 0);
    } else {
        lemma_count_entries_snoc(m.drop_first(), e);
        assert(p[0] == m[0]);
        assert(p.drop_first() =~= m.drop_first().push(e));
        assert(count_of_entries(p) == count_of(m[0].1) + count_of_entries(p.drop_first()));
        assert(count_of_entries(m) == count_of(m[0].1) + count_of_entries(m.drop_first()));
    }
}

/// Depth snoc.
proof fn lemma_depth_seq_snoc(a: Seq<ValueView>, x: ValueView)
    ensures
        depth1_of_seq(a.push(x)) == (if depth1_of_seq(a) >= depth1_of(x) {
            depth1_of_seq(a)
        } else {
            depth1_of(x)
        }),
    decreases a.len(),
{
    let p = a.push(x);
    if a.len() == 0 {
        assert(p[0] == x);
        assert(p.drop_first() =~= Seq::<ValueView>::empty());
        assert(depth1_of_seq(p.drop_first()) == 0);
    } else {
        lemma_depth_seq_snoc(a.drop_first(), x);
        assert(p[0] == a[0]);
        assert(p.drop_first() =~= a.drop_first().push(x));
    }
}

/// Depth snoc for entries.
proof fn lemma_depth_entries_snoc(m: Seq<(Seq<char>, ValueView)>, e: (Seq<char>, ValueView))
    ensures
        depth1_of_entries(m.push(e)) == (if depth1_of_entries(m) >= depth1_of(e.1) {
            depth1_of_entries(m)
        } else {
            depth1_of(e.1)
        }),
    decreases m.len(),
{
    let p = m.push(e);
    if m.len() == 0 {
        assert(p[0] == e);
        assert(p.drop_first() =~= Seq::<(Seq<char>, ValueView)>::empty());
        assert(depth1_of_entries(p.drop_first()) == 0);
    } else {
        lemma_depth_entries_snoc(m.drop_first(), e);
        assert(p[0] == m[0]);
        assert(p.drop_first() =~= m.drop_first().push(e));
    }
}

/// Counts are never negative.
pub proof fn lemma_count_nonneg(v: ValueView)
    ensures
        count_of(v) >= 1,
    decreases v, 1int, 0int,
{
    match v {
        ValueView::Array(a) => {
            lemma_count_seq_nonneg(a);
        },
        ValueView::Dict(m) => {
            lemma_count_entries_nonneg(m);
        },
        _ => {
        },
    }
}

/// Sequence counts are never negative.
pub proof fn lemma_count_seq_nonneg(a: Seq<ValueView>)
    ensures
        count_of_seq(a) >= 0,
    decreases a, 0int, a.len(),
{
    if a.len() > 0 {
        lemma_count_nonneg(a[0]);
        lemma_count_seq_nonneg(a.drop_first());
    }
}

/// Entry counts are never negative.
pub proof fn lemma_count_entries_nonneg(m: Seq<(Seq<char>, ValueView)>)
    ensures
        count_of_entries(m) >= 0,
    decreases m, 0int, m.len(),
{
    if m.len() > 0 {
        lemma_count_nonneg(m[0].1);
        lemma_count_entries_nonneg(m.drop_first());
    }
}

/// The saturated count of a value.
pub fn count_value(v: &LLSDValue) -> (r: usize)
    ensures
        r as int == (if count_of(v@) <= usize::MAX as int {
            count_of(v@)
        } else {
            usize::MAX as int
        }),
    decreases *v, 1int, 0int,
{
    match v {
        LLSDValue::Array(a) => {
            let inner = count_values(a);
            inner.saturating_add(1)
        },
        LLSDValue::Dict(m) => {
            let inner = count_entries_vec(m);
            inner.saturating_add(1)
        },
        _ => 1,
    }
}

/// The saturated count of a sequence of values.
fn count_values(a: &Vec<LLSDValue>) -> (r: usize)
    ensures
        r as int == (if count_of_seq(views_of(a@)) <= usize::MAX as int {
            count_of_seq(views_of(a@))
        } else {
            usize::MAX as int
        }),
    decreases a@, 0int, a@.len(),
{
    proof {
        lemma_views_of(a@);
    }
    let ghost vs = views_of(a@);
    let mut i: usize = 0;
    let mut acc: usize = 0;
    while i < a.len()
        invariant
            i <= a@.len(),
            vs == views_of(a@),
            vs.len() == a@.len(),
            forall|j: int| 0 <= j < a@.len() ==> vs[j] == view_of(#[trigger] a@[j]),
            acc as int == (if count_of_seq(vs.take(i as int)) <= usize::MAX as int {
                count_of_seq(vs.take(i as int))
            } else {
                usize::MAX as int
            }),
            count_of_seq(vs.take(i as int)) >= 0,
        decreases a@.len() - i,
    {
        let c = count_value(&a[i]);
        proof {
            lemma_count_seq_snoc(vs.take(i as int), vs[i as int]);
            assert(vs.take(i + 1 as int) =~= vs.take(i as int).push(vs[i as int]));
            lemma_count_nonneg(vs[i as int]);
        }
        acc = acc.saturating_add(c);
        i = i + 1;
    }
    proof {
        assert(vs.take(vs.len() as int) =~= vs);
    }
    acc
}

/// The saturated count of map entry values.
fn count_entries_vec(m: &Vec<(String, LLSDValue)>) -> (r: usize)
    ensures
        r as int == (if count_of_entries(entry_views_of(m@)) <= usize::MAX as int {
            count_of_entries(entry_views_of(m@))
        } else {
            usize::MAX as int
        }),
    decreases m@, 0int, m@.len(),
{
    proof {
        lemma_entry_views_of(m@);
    }
    let ghost es = entry_views_of(m@);
    let mut i: usize = 0;
    let mut acc: usize = 0;
    while i < m.len()
        invariant
            i <= m@.len(),
            es == entry_views_of(m@),
            es.len() == m@.len(),
            forall|j: int| 0 <= j < m@.len() ==> es[j] == ((#[trigger] m@[j]).0@, view_of(
                m@[j].1)),
            acc as int == (if count_of_entries(es.take(i as int)) <= usize::MAX as int {
                count_of_entries(es.take(i as int))
            } else {
                usize::MAX as int
            }),
            count_of_entries(es.take(i as int)) >= 0,
        decreases m@.len() - i,
    {
        proof {
            assert(decreases_to!(m@ => m@[i as int]));
            assert(decreases_to!(m@[i as int] => m@[i as int].1));
        }
        let c = count_value(&m[i].1);
        proof {
            lemma_count_entries_snoc(es.take(i as int), es[i as int]);
            assert(es.take(i + 1 as int) =~= es.take(i as int).push(es[i as int]));
            lemma_count_nonneg(es[i as int].1);
        }
        acc = acc.saturating_add(c);
        i = i + 1;
    }
    proof {
        assert(es.take(es.len() as int) =~= es);
    }
    acc
}

/// The saturated nesting depth of a value.
pub fn depth_value(v: &LLSDValue) -> (r: usize)
    ensures
        r as int == (if depth1_of(v@) <= usize::MAX as int {
            depth1_of(v@)
        } else {
            usize::MAX as int
        }),
        r >= 1,
    decreases *v, 1int, 0int,
{
    match v {
        LLSDValue::Array(a) => {
            let inner = depth_values(a);
            inner.saturating_add(1)
        },
        LLSDValue::Dict(m) => {
            let inner = depth_entries_vec(m);
            inner.saturating_add(1)
        },
        _ => 1,
    }
}

/// The saturated deepest member of a sequence.
fn depth_values(a: &Vec<LLSDValue>) -> (r: usize)
    ensures
        r as int == (if depth1_of_seq(views_of(a@)) <= usize::MAX as int {
            depth1_of_seq(views_of(a@))
        } else {
            usize::MAX as int
        }),
        depth1_of_seq(views_of(a@)) >= 0,
    decreases a@, 0int, a@.len(),
{
    proof {
        lemma_views_of(a@);
    }
    let ghost vs = views_of(a@);
    let mut i: usize = 0;
    let mut acc: usize = 0;
    while i < a.len()
        invariant
            i <= a@.len(),
            vs == views_of(a@),
            vs.len() == a@.len(),
            forall|j: int| 0 <= j < a@.len() ==> vs[j] == view_of(#[trigger] a@[j]),
            acc as int == (if depth1_of_seq(vs.take(i as int)) <= usize::MAX as int {
                depth1_of_seq(vs.take(i as int))
            } else {
                usize::MAX as int
            }),
            depth1_of_seq(vs.take(i as int)) >= 0,
        decreases a@.len() - i,
    {
        let c = depth_value(&a[i]);
        proof {
            lemma_depth_seq_snoc(vs.take(i as int), vs[i as int]);
            assert(vs.take(i + 1 as int) =~= vs.take(i as int).push(vs[i as int]));
        }
        if c > acc {
            acc = c;
        }
        i = i + 1;
    }
    proof {
        assert(vs.take(vs.len() as int) =~= vs);
    }
    acc
}

/// The saturated deepest entry value of a map.
fn depth_entries_vec(m: &Vec<(String, LLSDValue)>) -> (r: usize)
    ensures
        r as int == (if depth1_of_entries(entry_views_of(m@)) <= usize::MAX as int {
            depth1_of_entries(entry_views_of(m@))
        } else {
            usize::MAX as int
        }),
        depth1_of_entries(entry_views_of(m@)) >= 0,
    decreases m@, 0int, m@.len(),
{
    proof {
        lemma_entry_views_of(m@);
    }
    let ghost es = entry_views_of(m@);
    let mut i: usize = 0;
    let mut acc: usize = 0;
    while i < m.len()
        invariant
            i <= m@.len(),
            es == entry_views_of(m@),
            es.len() == m@.len(),
            forall|j: int| 0 <= j < m@.len() ==> es[j] == ((#[trigger] m@[j]).0@, view_of(
                m@[j].1)),
            acc as int == (if depth1_of_entries(es.take(i as int)) <= usize::MAX as int {
                depth1_of_entries(es.take(i as int))
            } else {
                usize::MAX as int
            }),
            depth1_of_entries(es.take(i as int)) >= 0,
        decreases m@.len() - i,
    {
        proof {
            assert(decreases_to!(m@ => m@[i as int]));
            assert(decreases_to!(m@[i as int] => m@[i as int].1));
        }
        let c = depth_value(&m[i].1);
        proof {
            lemma_depth_entries_snoc(es.take(i as int), es[i as int]);
            assert(es.take(i + 1 as int) =~= es.take(i as int).push(es[i as int]));
        }
        if c > acc {
            acc = c;
        }
        i = i + 1;
    }
    proof {
        assert(es.take(es.len() as int) =~= es);
    }
    acc
}

/// Whether a key stands among the kept keys.
fn keys_contain(keys: &Vec<String>, k: &String) -> (r: bool)
    ensures
        r == crate::types::str_views(keys@).contains(k@),
{
    let ghost kv = crate::types::str_views(keys@);
    let mut i: usize = 0;
    while i < keys.len()
        invariant
            i <= keys@.len(),
            kv == crate::types::str_views(keys@),
            kv.len() == keys@.len(),
            forall|j: int| 0 <= j < keys@.len() ==> kv[j] == (#[trigger] keys@[j])@,
            forall|j: int| 0 <= j < i ==> kv[j] != k@,
        decreases keys@.len() - i,
    {
        if keys[i].eq(k) {
            proof {
                assert(kv[i as int] == k@);
            }
            return true;
        }
        i = i + 1;
    }
    proof {
        if kv.contains(k@) {
            let j = choose|j: int| 0 <= j < kv.len() && kv[j] == k@;
            assert(false);
        }
    }
    false
}

/// A map with its undefined bindings removed, nested maps scrubbed too.
pub open spec fn scrub_entries(m: Seq<(Seq<char>, ValueView)>) -> Seq<(Seq<char>, ValueView)>
    decreases m, 1int, m.len(),
{
    if m.len() == 0 {
        Seq::empty()
    } else {
        scrub_one(m[0]) + scrub_entries(m.drop_first())
    }
}

/// The zero- or one-entry scrub of a single binding.
pub open spec fn scrub_one(e: (Seq<char>, ValueView)) -> Seq<(Seq<char>, ValueView)>
    decreases e, 2int, 0int,
{
    if e.1 is Undefined {
        Seq::empty()
    } else if e.1 is Dict {
        seq![(e.0, ValueView::Dict(scrub_entries(e.1->Dict_0)))]
    } else {
        seq![e]
    }
}

/// Scrubbing distributes over appending one entry.
proof fn lemma_scrub_snoc(m: Seq<(Seq<char>, ValueView)>, e: (Seq<char>, ValueView))
    ensures
        scrub_entries(m.push(e)) == scrub_entries(m) + scrub_one(e),
    decreases m.len(),
{
    let p = m.push(e);
    if m.len() == 0 {
        assert(p[0] == e);
        assert(p.drop_first() =~= Seq::<(Seq<char>, ValueView)>::empty());
        assert(scrub_entries(p.drop_first()) =~= Seq::<(Seq<char>, ValueView)>::empty());
        assert(scrub_entries(p) == scrub_one(e) + scrub_entries(p.drop_first()));
        assert(scrub_entries(p) =~= scrub_entries(m) + scrub_one(e));
    } else {
        lemma_scrub_snoc(m.drop_first(), e);
        assert(p[0] == m[0]);
        assert(p.drop_first() =~= m.drop_first().push(e));
        assert(scrub_entries(p) == scrub_one(m[0]) + scrub_entries(p.drop_first()));
        assert(scrub_entries(m) == scrub_one(m[0]) + scrub_entries(m.drop_first()));
        assert(scrub_entries(p) =~= scrub_entries(m) + scrub_one(e));
    }
}

/// The scrubbed copy of one value: maps lose their undefined bindings.
fn scrub_value(v: &LLSDValue) -> (r: LLSDValue)
    ensures
        r@ == (if v@ is Dict {
            ValueView::Dict(scrub_entries(v@->Dict_0))
        } else {
            v@
        }),
    decreases *v, 1int, 0int,
{
    match v {
        LLSDValue::Dict(m) => LLSDValue::Dict(scrub_vec(m)),
        _ => v.clone(),
    }
}

/// The scrubbed copy of a map payload.
fn scrub_vec(m: &Vec<(String, LLSDValue)>) -> (r: Vec<(String, LLSDValue)>)
    ensures
        entry_views_of(r@) == scrub_entries(entry_views_of(m@)),
    decreases m@, 0int, m@.len(),
{
    proof {
        lemma_entry_views_of(m@);
    }
    let ghost es = entry_views_of(m@);
    let mut out: Vec<(String, LLSDValue)> = Vec::new();
    let mut i: usize = 0;
    while i < m.len()
        invariant
            i <= m@.len(),
            es == entry_views_of(m@),
            es.len() == m@.len(),
            forall|j: int| 0 <= j < m@.len() ==> es[j] == ((#[trigger] m@[j]).0@, view_of(
                m@[j].1)),
            entry_views_of(out@) == scrub_entries(es.take(i as int)),
        decreases m@.len() - i,
    {
        proof {
            lemma_scrub_snoc(es.take(i as int), es[i as int]);
            assert(es.take(i + 1 as int) =~= es.take(i as int).push(es[i as int]));
            assert(decreases_to!(m@ => m@[i as int]));
            assert(decreases_to!(m@[i as int] => m@[i as int].1));
        }
        let keep: bool = !matches!(&m[i].1, LLSDValue::Undefined);
        if keep {
            let ghost pre = out@;
            let k2 = m[i].0.clone();
            let v2 = scrub_value(&m[i].1);
            out.push((k2, v2));
            proof {
                lemma_entry_views_of(out@);
                lemma_entry_views_of(pre);
                assert(entry_views_of(out@) =~= entry_views_of(pre).push(
                    (es[i as int].0, v2@)));
                assert(entry_views_of(pre).push((es[i as int].0, v2@)) =~= entry_views_of(pre)
                    + scrub_one(es[i as int]));
            }
        }
        i = i + 1;
        proof {
            assert(entry_views_of(out@) =~= scrub_entries(es.take(i as int)));
        }
    }
    proof {
        assert(es.take(es.len() as int) =~= es);
    }
    out
}

/// The next indent level: two deeper, capped at the machine word.
pub open spec fn bump(i: int) -> int {
    if i + 2 <= usize::MAX {
        i + 2
    } else {
        i
    }
}

/// A run of spaces.
pub open spec fn spaces(n: int) -> Seq<char>
    decreases n,
{
    if n <= 0 {
        Seq::empty()
    } else {
        seq![' '] + spaces(n - 1)
    }
}

/// The debug text of one value at an indent level: leaves print their
/// lexical forms, containers open a brace or bracket and indent their
/// members two spaces deeper.
pub open spec fn debug_text_of(v: ValueView, indent: int) -> Seq<char>
    decreases v, 1int, 0int,
{
    match v {
        ValueView::Undefined => "undefined"@,
        ValueView::Boolean(b) => if b {
            "true"@
        } else {
            "false"@
        },
        ValueView::Integer(i) => crate::text::int_text(i),
        ValueView::Real(bits) => crate::trusted::real_text_of(bits),
        ValueView::String(s) => seq!['"'] + s + seq!['"'],
        ValueView::UUID(b) => crate::uuid_text::uuid_text(b),
        ValueView::Date(se, na) => if 0 <= na < 1_000_000_000 && i64::MIN <= se <= i64::MAX
            && crate::trusted::chrono_range_of(se, na) {
            crate::trusted::rfc3339_of(se, na)
        } else {
            "date(out of range)"@
        },
        ValueView::URI(s) => "uri(\""@ + s + "\")"@,
        ValueView::Binary(b) => "binary("@ + crate::text::nat_text(b.len() as int) + " bytes)"@,
        ValueView::Dict(m) => if m.len() == 0 {
            "{}"@
        } else {
            "{\n"@ + debug_entries_of(m, indent) + spaces(indent) + "}"@
        },
        ValueView::Array(a) => if a.len() == 0 {
            "[]"@
        } else {
            "[\n"@ + debug_elems_of(a, indent) + spaces(indent) + "]"@
        },
    }
}

/// The member lines of a map's debug text.
pub open spec fn debug_entries_of(m: Seq<(Seq<char>, ValueView)>, indent: int) -> Seq<char>
    decreases m, 0int, m.len(),
{
    if m.len() == 0 {
        Seq::empty()
    } else {
        spaces(indent) + "  \""@ + m[0].0 + "\": "@ + debug_text_of(m[0].1, bump(indent))
            + ",\n"@ + debug_entries_of(m.drop_first(), indent)
    }
}

/// The member lines of an array's debug text.
pub open spec fn debug_elems_of(a: Seq<ValueView>, indent: int) -> Seq<char>
    decreases a, 0int, a.len(),
{
    if a.len() == 0 {
        Seq::empty()
    } else {
        spaces(indent) + "  "@ + debug_text_of(a[0], bump(indent)) + ",\n"@ + debug_elems_of(
            a.drop_first(),
            indent,
        )
    }
}

/// Appending one entry appends its line.
proof fn lemma_debug_entries_snoc(m: Seq<(Seq<char>, ValueView)>, e: (Seq<char>, ValueView),
    indent: int)
    ensures
        debug_entries_of(m.push(e), indent) == debug_entries_of(m, indent) + spaces(indent)
            + "  \""@ + e.0 + "\": "@ + debug_text_of(e.1, bump(indent)) + ",\n"@,
    decreases m.len(),
{
    let p = m.push(e);
    if m.len() == 0 {
        assert(p[0] == e);
        assert(p.drop_first() =~= Seq::<(Seq<char>, ValueView)>::empty());
        assert(debug_entries_of(p.drop_first(), indent) =~= Seq::<char>::empty());
        assert(debug_entries_of(p, indent) =~= debug_entries_of(m, indent) + spaces(indent)
            + "  \""@ + e.0 + "\": "@ + debug_text_of(e.1, bump(indent)) + ",\n"@);
    } else {
        lemma_debug_entries_snoc(m.drop_first(), e, indent);
        assert(p[0] == m[0]);
        assert(p.drop_first() =~= m.drop_first().push(e));
        assert(debug_entries_of(p, indent) =~= debug_entries_of(m, indent) + spaces(indent)
            + "  \""@ + e.0 + "\": "@ + debug_text_of(e.1, bump(indent)) + ",\n"@);
    }
}

/// Appending one element appends its line.
proof fn lemma_debug_elems_snoc(a: Seq<ValueView>, x: ValueView, indent: int)
    ensures
        debug_elems_of(a.push(x), indent) == debug_elems_of(a, indent) + spaces(indent) + "  "@
            + debug_text_of(x, bump(indent)) + ",\n"@,
    decreases a.len(),
{
    let p = a.push(x);
    if a.len() == 0 {
        assert(p[0] == x);
        assert(p.drop_first() =~= Seq::<ValueView>::empty());
        assert(debug_elems_of(p.drop_first(), indent) =~= Seq::<char>::empty());
        assert(debug_elems_of(p, indent) =~= debug_elems_of(a, indent) + spaces(indent) + "  "@
            + debug_text_of(x, bump(indent)) + ",\n"@);
    } else {
        lemma_debug_elems_snoc(a.drop_first(), x, indent);
        assert(p[0] == a[0]);
        assert(p.drop_first() =~= a.drop_first().push(x));
        assert(debug_elems_of(p, indent) =~= debug_elems_of(a, indent) + spaces(indent) + "  "@
            + debug_text_of(x, bump(indent)) + ",\n"@);
    }
}

/// Append `n` spaces.
#[verifier::loop_isolation(false)]
fn push_spaces(out: &mut String, n: usize)
    ensures
        final(out)@ == old(out)@ + spaces(n as int),
{
    let mut i: usize = 0;
    while i < n
        invariant
            i <= n,
            out@ == old(out)@ + spaces(i as int),
        decreases n - i,
    {
        out.append(" ");
        proof {
            reveal_strlit(" ");
            lemma_spaces_snoc(i as int);
        }
        i = i + 1;
    }
}

/// One more space extends the run.
pub(crate) proof fn lemma_spaces_snoc(n: int)
    requires
        n >= 0,
    ensures
        spaces(n + 1) == spaces(n) + seq![' '],
    decreases n,
{
    if n > 0 {
        lemma_spaces_snoc(n - 1);
        assert(spaces(n + 1) =~= spaces(n) + seq![' ']);
    } else {
        assert(spaces(1) =~= spaces(0) + seq![' ']);
    }
}

impl LLSDUtils {
    /// The pretty debug text of a value: exactly [`debug_text_of`] at the
    /// given indent level.
    pub fn to_debug_string(value: &LLSDValue, indent: usize) -> (r: String)
        ensures
            r@ == debug_text_of(value@, indent as int),
    {
        let mut out = String::new();
        push_debug_text(&mut out, value, indent);
        out
    }
}

/// Append the debug text of one value.
#[verifier::loop_isolation(false)]
#[verifier::rlimit(80)]
fn push_debug_text(out: &mut String, v: &LLSDValue, indent: usize)
    ensures
        final(out)@ == old(out)@ + debug_text_of(v@, indent as int),
    decreases *v, 1int, 0int,
{
    match v {
        LLSDValue::Undefined => {
            out.append("undefined");
        },
        LLSDValue::Boolean(b) => {
            if *b {
                out.append("true");
            } else {
                out.append("false");
            }
        },
        LLSDValue::Integer(i) => {
            let digits = crate::text::i32_text_chars(*i);
            let ds = crate::trusted::chars_string(&digits);
            out.append(ds.as_str());
        },
        LLSDValue::Real(bits) => {
            let t = crate::trusted::real_to_text(*bits);
            out.append(t.as_str());
        },
        LLSDValue::String(s) => {
            out.append("\"");
            out.append(s.as_str());
            out.append("\"");
            proof {
                reveal_strlit("\"");
                assert(final(out)@ =~= old(out)@ + debug_text_of(v@, indent as int));
            }
        },
        LLSDValue::UUID(u) => {
            let t = crate::uuid_text::format_uuid(u);
            let ts = crate::trusted::chars_string(&t);
            out.append(ts.as_str());
        },
        LLSDValue::Date(d) => {
            if d.nanos >= 1_000_000_000 {
                out.append("date(out of range)");
            } else {
                match crate::trusted::format_rfc3339_opt(d.secs, d.nanos) {
                    Some(t) => {
                        out.append(t.as_str());
                    },
                    None => {
                        out.append("date(out of range)");
                    },
                }
            }
        },
        LLSDValue::URI(s) => {
            out.append("uri(\"");
            out.append(s.as_str());
            out.append("\")");
            proof {
                assert(final(out)@ =~= old(out)@ + debug_text_of(v@, indent as int));
            }
        },
        LLSDValue::Binary(b) => {
            out.append("binary(");
            let mut digits: Vec<char> = Vec::new();
            proof {
                assert(b@.len() <= u32::MAX || b@.len() > u32::MAX);
            }
            push_len_digits(&mut digits, b.len());
            let ds = crate::trusted::chars_string(&digits);
            out.append(ds.as_str());
            out.append(" bytes)");
            proof {
                assert(final(out)@ =~= old(out)@ + debug_text_of(v@, indent as int));
            }
        },
        LLSDValue::Dict(m) => {
            proof {
                lemma_entry_views_of(m@);
            }
            if m.len() == 0 {
                out.append("{}");
                proof {
                    assert(final(out)@ =~= old(out)@ + debug_text_of(v@, indent as int));
                }
            } else {
                out.append("{\n");
                let ghost es = entry_views_of(m@);
                let ghost base = out@;
                let mut i: usize = 0;
                while i < m.len()
                    invariant
                        i <= m@.len(),
                        es == entry_views_of(m@),
                        es.len() == m@.len(),
                        forall|j: int| 0 <= j < m@.len() ==> es[j] == ((#[trigger] m@[j]).0@,
                            view_of(m@[j].1)),
                        out@ == base + debug_entries_of(es.take(i as int), indent as int),
                    decreases m@.len() - i,
                {
                    proof {
                        assert(decreases_to!(m@ => m@[i as int]));
                        assert(decreases_to!(m@[i as int] => m@[i as int].1));
                        lemma_debug_entries_snoc(es.take(i as int), es[i as int], indent as int);
                        assert(es.take(i + 1 as int) =~= es.take(i as int).push(es[i as int]));
                    }
                    push_spaces(out, indent);
                    out.append("  \"");
                    out.append(m[i].0.as_str());
                    out.append("\": ");
                    let deeper: usize = if indent <= usize::MAX - 2 {
                        indent + 2
                    } else {
                        indent
                    };
                    push_debug_text(out, &m[i].1, deeper);
                    out.append(",\n");
                    proof {
                        reveal_strlit("  \"");
                        reveal_strlit("\": ");
                        reveal_strlit(",\n");
                        assert(out@ =~= base + debug_entries_of(es.take(i + 1 as int),
                            indent as int));
                    }
                    i = i + 1;
                }
                push_spaces(out, indent);
                out.append("}");
                proof {
                    reveal_strlit("{\n");
                    reveal_strlit("}");
                    assert(es.take(es.len() as int) =~= es);
                    assert(final(out)@ =~= old(out)@ + debug_text_of(v@, indent as int));
                }
            }
        },
        LLSDValue::Array(a) => {
            proof {
                lemma_views_of(a@);
            }
            if a.len() == 0 {
                out.append("[]");
                proof {
                    assert(final(out)@ =~= old(out)@ + debug_text_of(v@, indent as int));
                }
            } else {
                out.append("[\n");
                let ghost vs = views_of(a@);
                let ghost base = out@;
                let mut i: usize = 0;
                while i < a.len()
                    invariant
                        i <= a@.len(),
                        vs == views_of(a@),
                        vs.len() == a@.len(),
                        forall|j: int| 0 <= j < a@.len() ==> vs[j] == view_of(#[trigger] a@[j]),
                        out@ == base + debug_elems_of(vs.take(i as int), indent as int),
                    decreases a@.len() - i,
                {
                    proof {
                        lemma_debug_elems_snoc(vs.take(i as int), vs[i as int], indent as int);
                        assert(vs.take(i + 1 as int) =~= vs.take(i as int).push(vs[i as int]));
                    }
                    push_spaces(out, indent);
                    out.append("  ");
                    let deeper: usize = if indent <= usize::MAX - 2 {
                        indent + 2
                    } else {
                        indent
                    };
                    push_debug_text(out, &a[i], deeper);
                    out.append(",\n");
                    proof {
                        reveal_strlit("  ");
                        reveal_strlit(",\n");
                        assert(out@ =~= base + debug_elems_of(vs.take(i + 1 as int),
                            indent as int));
                    }
                    i = i + 1;
                }
                push_spaces(out, indent);
                out.append("]");
                proof {
                    reveal_strlit("[\n");
                    reveal_strlit("]");
                    assert(vs.take(vs.len() as int) =~= vs);
                    assert(final(out)@ =~= old(out)@ + debug_text_of(v@, indent as int));
                }
            }
        },
    }
}

/// Append the decimal digits of a length.
#[verifier::loop_isolation(false)]
fn push_len_digits(out: &mut Vec<char>, n: usize)
    ensures
        final(out)@ == old(out)@ + crate::text::nat_text(n as int),
    decreases n,
{
    if n < 10 {
        let c = crate::text::digit_char((n % 10) as u32);
        out.push(c);
        proof {
            assert(final(out)@ =~= old(out)@ + crate::text::nat_text(n as int));
        }
    } else {
        push_len_digits(out, n / 10);
        let c = crate::text::digit_char((n % 10) as u32);
        out.push(c);
        proof {
            assert(final(out)@ =~= old(out)@ + crate::text::nat_text(n as int));
        }
    }
}

} // verus!
