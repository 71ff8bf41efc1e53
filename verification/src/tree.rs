//! The path tree: one owned JSON value, read and mutated at dot-paths.

use vstd::prelude::*;

use crate::path::{seg_to_index, spec_index_of, spec_split, split_path};
use crate::value::{val_view, JsonVal, UpdErr, UpdateError, JsonValue};

verus! {

/// The first position at or after `i` whose key is the string `key`, if any.
pub open spec fn find_key(ps: Seq<(JsonVal, JsonVal)>, key: Seq<char>, i: int) -> Option<int>
    decreases ps.len() - i,
{
    if i < 0 || i >= ps.len() {
        None
    } else if ps[i].0 == JsonVal::Text(key) {
        Some(i)
    } else {
        find_key(ps, key, i + 1)
    }
}

/// The value stored under the string key `key`, if any: the first match wins.
pub open spec fn obj_lookup(ps: Seq<(JsonVal, JsonVal)>, key: Seq<char>) -> Option<JsonVal> {
    match find_key(ps, key, 0) {
        Some(k) => Some(ps[k].1),
        None => None,
    }
}

/// The entries after storing `v` under the string key `key`: the first
/// entry with that key is replaced, or a new entry is appended.
pub open spec fn obj_upsert(ps: Seq<(JsonVal, JsonVal)>, key: Seq<char>, v: JsonVal) -> Seq<
    (JsonVal, JsonVal),
> {
    match find_key(ps, key, 0) {
        Some(k) => ps.update(k, (JsonVal::Text(key), v)),
        None => ps.push((JsonVal::Text(key), v)),
    }
}

pub proof fn lemma_find_key_props(ps: Seq<(JsonVal, JsonVal)>, key: Seq<char>, i: int)
    requires
        0 <= i,
    ensures
        match find_key(ps, key, i) {
            Some(k) => i <= k < ps.len() && ps[k].0 == JsonVal::Text(key) && forall|m: int|
                i <= m < k ==> ps[m].0 != JsonVal::Text(key),
            None => forall|m: int| i <= m < ps.len() ==> ps[m].0 != JsonVal::Text(key),
        },
    decreases ps.len() - i,
{
    if i < ps.len() && ps[i].0 != JsonVal::Text(key) {
        lemma_find_key_props(ps, key, i + 1);
    }
}

/// The first match pins `find_key` down.
pub proof fn lemma_find_key_at(ps: Seq<(JsonVal, JsonVal)>, key: Seq<char>, i: int, k: int)
    requires
        0 <= i <= k < ps.len(),
        ps[k].0 == JsonVal::Text(key),
        forall|m: int| i <= m < k ==> ps[m].0 != JsonVal::Text(key),
    ensures
        find_key(ps, key, i) == Some(k),
    decreases k - i,
{
    if i < k {
        lemma_find_key_at(ps, key, i + 1, k);
    }
}

/// What a read of path segments `segs`, from segment `i` on, finds under
/// `j`: the node itself once no segment is left; under an object, the
/// field named by the segment; under a list, the element the segment
/// indexes; absence anywhere the walk cannot step.
pub open spec fn spec_get(j: JsonVal, segs: Seq<Seq<char>>, i: int) -> Option<JsonVal>
    decreases segs.len() - i,
{
    if i < 0 || i >= segs.len() {
        Some(j)
    } else {
        match j {
            JsonVal::Object(ps) => match obj_lookup(ps, segs[i]) {
                Some(c) => spec_get(c, segs, i + 1),
                None => None,
            },
            JsonVal::List(xs) => match spec_index_of(segs[i]) {
                Some(ix) => if ix < xs.len() {
                    spec_get(xs[ix], segs, i + 1)
                } else {
                    None
                },
                None => None,
            },
            _ => None,
        }
    }
}

/// What a write of `v` at segments `segs`, from segment `i` on, makes of
/// `j`, and the error it stops with, if any. On an object, the last
/// segment upserts the field; an earlier segment descends into the field,
/// creating it as an empty object where absent. On a list, the segment
/// must be an index below the length; the last segment overwrites that
/// element, an earlier one descends into it. A scalar met with segments
/// left is a structure mismatch. The tree reflects every step taken
/// before a failure: created entries are not rolled back.
pub open spec fn spec_update(j: JsonVal, segs: Seq<Seq<char>>, i: int, v: JsonVal) -> (
    JsonVal,
    Option<UpdErr>,
)
    decreases segs.len() - i,
{
    if i < 0 || i >= segs.len() {
        (j, None)
    } else {
        let seg = segs[i];
        match j {
            JsonVal::Object(ps) => {
                if i == segs.len() - 1 {
                    (JsonVal::Object(obj_upsert(ps, seg, v)), None)
                } else {
                    let child = match obj_lookup(ps, seg) {
                        Some(c) => c,
                        None => JsonVal::Object(Seq::empty()),
                    };
                    let rec = spec_update(child, segs, i + 1, v);
                    (JsonVal::Object(obj_upsert(ps, seg, rec.0)), rec.1)
                }
            },
            JsonVal::List(xs) => match spec_index_of(seg) {
                None => (j, Some(UpdErr::InvalidIndex(seg))),
                Some(ix) => if ix >= xs.len() {
                    (j, Some(UpdErr::IndexOutOfBounds(seg)))
                } else if i == segs.len() - 1 {
                    (JsonVal::List(xs.update(ix, v)), None)
                } else {
                    let rec = spec_update(xs[ix], segs, i + 1, v);
                    (JsonVal::List(xs.update(ix, rec.0)), rec.1)
                },
            },
            _ => (j, Some(UpdErr::StructureMismatch(seg))),
        }
    }
}

/// Storing under a key makes that key's first match hold the stored value.
pub proof fn lemma_upsert_lookup(ps: Seq<(JsonVal, JsonVal)>, key: Seq<char>, v: JsonVal)
    ensures
        obj_lookup(obj_upsert(ps, key, v), key) == Some(v),
{
    lemma_find_key_props(ps, key, 0);
    match find_key(ps, key, 0) {
        Some(k) => {
            let ps2 = ps.update(k, (JsonVal::Text(key), v));
            lemma_find_key_at(ps2, key, 0, k);
        },
        None => {
            let ps2 = ps.push((JsonVal::Text(key), v));
            lemma_find_key_at(ps2, key, 0, ps.len() as int);
        },
    }
}

proof fn lemma_update_get_from(j: JsonVal, segs: Seq<Seq<char>>, i: int, v: JsonVal)
    requires
        0 <= i < segs.len(),
        spec_update(j, segs, i, v).1 is None,
    ensures
        spec_get(spec_update(j, segs, i, v).0, segs, i) == Some(v),
    decreases segs.len() - i,
{
    let seg = segs[i];
    match j {
        JsonVal::Object(ps) => {
            if i == segs.len() - 1 {
                lemma_upsert_lookup(ps, seg, v);
                assert(spec_get(v, segs, i + 1) == Some(v));
                assert(spec_get(spec_update(j, segs, i, v).0, segs, i) == Some(v));
            } else {
                let child = match obj_lookup(ps, seg) {
                    Some(c) => c,
                    None => JsonVal::Object(Seq::empty()),
                };
                let rec = spec_update(child, segs, i + 1, v);
                lemma_upsert_lookup(ps, seg, rec.0);
                lemma_update_get_from(child, segs, i + 1, v);
            }
        },
        JsonVal::List(xs) => {
            let ix = spec_index_of(seg)->Some_0;
            crate::path::lemma_digits_nonneg(seg);
            if i < segs.len() - 1 {
                lemma_update_get_from(xs[ix], segs, i + 1, v);
            }
        },
        _ => {},
    }
}

/// Law: a successful write makes the written value what a read of the
/// same path finds.
pub proof fn lemma_update_then_get(j: JsonVal, segs: Seq<Seq<char>>, v: JsonVal)
    requires
        segs.len() >= 1,
        spec_update(j, segs, 0, v).1 is None,
    ensures
        spec_get(spec_update(j, segs, 0, v).0, segs, 0) == Some(v),
{
    lemma_update_get_from(j, segs, 0, v);
}

/// Whether a write along `segs[i..]` under `j` meets only objects: each
/// segment before the last lands on an object entry that either exists
/// and is itself fit for the rest, or is absent and will be created.
pub open spec fn creatable(j: JsonVal, segs: Seq<Seq<char>>, i: int) -> bool
    decreases segs.len() - i,
{
    if i < 0 || i >= segs.len() {
        true
    } else {
        match j {
            JsonVal::Object(ps) => i == segs.len() - 1 || (match obj_lookup(ps, segs[i]) {
                Some(c) => creatable(c, segs, i + 1),
                None => creatable(JsonVal::Object(Seq::empty()), segs, i + 1),
            }),
            _ => false,
        }
    }
}

proof fn lemma_creatable_ok_from(j: JsonVal, segs: Seq<Seq<char>>, i: int, v: JsonVal)
    requires
        0 <= i < segs.len(),
        creatable(j, segs, i),
    ensures
        spec_update(j, segs, i, v).1 is None,
    decreases segs.len() - i,
{
    if i < segs.len() - 1 {
        match j {
            JsonVal::Object(ps) => match obj_lookup(ps, segs[i]) {
                Some(c) => lemma_creatable_ok_from(c, segs, i + 1, v),
                None => lemma_creatable_ok_from(
                    JsonVal::Object(Seq::empty()),
                    segs,
                    i + 1,
                    v,
                ),
            },
            _ => {},
        }
    }
}

/// Law: a write under an object root whose traversal meets only objects,
/// with present or absent entries, never fails: absent entries are
/// created as empty objects on the way, and the written value is then
/// readable at the path.
pub proof fn lemma_map_upsert(j: JsonVal, segs: Seq<Seq<char>>, v: JsonVal)
    requires
        segs.len() >= 1,
        creatable(j, segs, 0),
    ensures
        spec_update(j, segs, 0, v).1 is None,
        spec_get(spec_update(j, segs, 0, v).0, segs, 0) == Some(v),
{
    lemma_creatable_ok_from(j, segs, 0, v);
    lemma_update_get_from(j, segs, 0, v);
}

/// The position of the first entry keyed by the string `key`, if any.
fn obj_find_idx(ps: &Vec<(JsonValue, JsonValue)>, key: &String) -> (r: Option<usize>)
    ensures
        match r {
            Some(k) => find_key(crate::value::pair_views_of(ps@), key@, 0) == Some(k as int),
            None => find_key(crate::value::pair_views_of(ps@), key@, 0) is None,
        },
{
    let ghost psv = crate::value::pair_views_of(ps@);
    let mut k: usize = 0;
    while k < ps.len()
        invariant
            0 <= k <= ps.len(),
            psv == crate::value::pair_views_of(ps@),
            find_key(psv, key@, 0) == find_key(psv, key@, k as int),
        decreases ps.len() - k,
    {
        let matched = match &ps[k].0 {
            JsonValue::Text(s) => s.eq(key),
            _ => false,
        };
        if matched {
            assert(psv[k as int].0 == JsonVal::Text(key@));
            return Some(k);
        }
        assert(psv[k as int].0 != JsonVal::Text(key@));
        k += 1;
    }
    None
}

/// A JSON document: the owner of one parsed value, addressed by dot-paths.
#[derive(Debug, PartialEq)]
pub struct JSON {
    root: JsonValue,
}

impl View for JSON {
    type V = JsonVal;

    closed spec fn view(&self) -> JsonVal {
        self.root@
    }
}

impl JSON {
    /// Wraps an already built value as a document root.
    pub fn from_value(root: JsonValue) -> (r: JSON)
        ensures
            r@ == root@,
    {
        JSON { root }
    }

    /// A structurally equal copy of the document.
    pub fn duplicate(&self) -> (r: JSON)
        ensures
            r@ == self@,
    {
        JSON { root: self.root.duplicate() }
    }

    /// The document root.
    pub fn root(&self) -> (r: &JsonValue)
        ensures
            r@ == self@,
    {
        &self.root
    }

    /// The node at the dot-path `key`, or absence where the path does not
    /// lead to one. The empty path names the root. A read never errors:
    /// absence and unreadable shapes both come back as `None`.
    pub fn get<'a>(&'a self, key: &str) -> (r: Option<&'a JsonValue>)
        ensures
            match r {
                Some(v) => spec_get(self@, spec_split(key@), 0) == Some(v@),
                None => spec_get(self@, spec_split(key@), 0) is None,
            },
    {
        let segs = split_path(key);
        get_nested(&self.root, &segs, 0)
    }
}

impl JSON {
    /// Replaces the node at the dot-path `key` with `value`, in place.
    /// The empty path addresses no node and is rejected as an invalid
    /// index. On failure the tree keeps every step taken before the
    /// failing segment: object entries created on the way persist.
    pub fn update(&mut self, key: &str, value: JsonValue) -> (r: Result<(), UpdateError>)
        ensures
            ({
                let segs = spec_split(key@);
                if segs.len() == 0 {
                    &&& final(self)@ == old(self)@
                    &&& r matches Err(e) && e@ == UpdErr::InvalidIndex(Seq::<char>::empty())
                } else {
                    let su = spec_update(old(self)@, segs, 0, value@);
                    &&& final(self)@ == su.0
                    &&& match r {
                        Ok(()) => su.1 is None,
                        Err(e) => su.1 == Some(e@),
                    }
                }
            }),
    {
        let segs = split_path(key);
        if segs.len() == 0 {
            return Err(UpdateError::InvalidIndex(String::new()));
        }
        let mut root = JsonValue::Null;
        core::mem::swap(&mut self.root, &mut root);
        let (root2, e) = update_nested(root, &segs, 0, value);
        self.root = root2;
        match e {
            None => Ok(()),
            Some(err) => Err(err),
        }
    }
}

/// Rewrites `json` along `segs[i..]`, returning the tree after the walk
/// and the error the walk stopped with, if any.
fn update_nested(json: JsonValue, segs: &Vec<String>, i: usize, value: JsonValue) -> (r: (
    JsonValue,
    Option<UpdateError>,
))
    requires
        i < segs.len(),
    ensures
        ({
            let su = spec_update(json@, segs.deep_view(), i as int, value@);
            &&& r.0@ == su.0
            &&& match r.1 {
                None => su.1 is None,
                Some(err) => su.1 == Some(err@),
            }
        }),
    decreases segs.len() - i,
{
    let ghost sv = spec_update(json@, segs.deep_view(), i as int, value@);
    match json {
        JsonValue::Object(mut ps) => {
            let ghost psv = crate::value::pair_views_of(ps@);
            let ghost keyv = segs@[i as int]@;
            let found = obj_find_idx(&ps, &segs[i]);
            proof {
                lemma_find_key_props(psv, keyv, 0);
            }
            if i + 1 == segs.len() {
                match found {
                    Some(k) => {
                        let entry = (JsonValue::Text(segs[i].clone()), value);
                        proof {
                            crate::value::lemma_pair_views_update(ps@, k as int, entry);
                        }
                        ps[k] = entry;
                        (JsonValue::Object(ps), None)
                    },
                    None => {
                        let entry = (JsonValue::Text(segs[i].clone()), value);
                        proof {
                            crate::value::lemma_pair_views_push(ps@, entry);
                        }
                        ps.push(entry);
                        assert(val_view(JsonValue::Object(ps)) == sv.0);
                        assert(sv.1 is None);
                        (JsonValue::Object(ps), None)
                    },
                }
            } else {
                match found {
                    Some(k) => {
                        let ghost ps0 = ps@;
                        let (kv, child) = ps.remove(k);
                        let (child2, e) = update_nested(child, segs, i + 1, value);
                        let entry = (kv, child2);
                        ps.insert(k, entry);
                        proof {
                            crate::value::lemma_remove_insert(ps0, k as int, entry);
                            crate::value::lemma_pair_views_update(ps0, k as int, entry);
                        }
                        assert(val_view(JsonValue::Object(ps)) == sv.0);
                        assert(match e {
                            None => sv.1 is None,
                            Some(err) => sv.1 == Some(err@),
                        });
                        (JsonValue::Object(ps), e)
                    },
                    None => {
                        let empty_obj = JsonValue::Object(Vec::new());
                        assert(crate::value::pair_views_of(Seq::<(JsonValue, JsonValue)>::empty())
                            =~= Seq::<(JsonVal, JsonVal)>::empty());
                        assert(empty_obj@ == JsonVal::Object(Seq::<(JsonVal, JsonVal)>::empty()));
                        let (child2, e) = update_nested(empty_obj, segs, i + 1, value);
                        let entry = (JsonValue::Text(segs[i].clone()), child2);
                        proof {
                            crate::value::lemma_pair_views_push(ps@, entry);
                        }
                        ps.push(entry);
                        assert(val_view(JsonValue::Object(ps)) == sv.0);
                        assert(match e {
                            None => sv.1 is None,
                            Some(err) => sv.1 == Some(err@),
                        });
                        (JsonValue::Object(ps), e)
                    },
                }
            }
        },
        JsonValue::List(mut xs) => match seg_to_index(segs[i].as_str()) {
            None => {
                let e = UpdateError::InvalidIndex(segs[i].clone());
                (JsonValue::List(xs), Some(e))
            },
            Some(ix) => {
                if ix >= xs.len() {
                    let e = UpdateError::IndexOutOfBounds(segs[i].clone());
                    (JsonValue::List(xs), Some(e))
                } else if i + 1 == segs.len() {
                    proof {
                        crate::value::lemma_views_update(xs@, ix as int, value);
                    }
                    xs[ix] = value;
                    assert(sv.0 == val_view(JsonValue::List(xs)));
                    assert(sv.1 is None);
                    (JsonValue::List(xs), None)
                } else {
                    let ghost xs0 = xs@;
                    let child = xs.remove(ix);
                    let (child2, e) = update_nested(child, segs, i + 1, value);
                    xs.insert(ix, child2);
                    proof {
                        crate::value::lemma_remove_insert(xs0, ix as int, child2);
                        crate::value::lemma_views_update(xs0, ix as int, child2);
                    }
                    assert(sv.0 == val_view(JsonValue::List(xs)));
                    assert(match e {
                        None => sv.1 is None,
                        Some(err) => sv.1 == Some(err@),
                    });
                    (JsonValue::List(xs), e)
                }
            },
        },
        other => {
            let e = UpdateError::StructureMismatch(segs[i].clone());
            (other, Some(e))
        },
    }
}

/// Walks `json` along `segs[i..]`, returning the node reached, if any.
fn get_nested<'a>(json: &'a JsonValue, segs: &Vec<String>, i: usize) -> (r: Option<&'a JsonValue>)
    requires
        i <= segs.len(),
    ensures
        match r {
            Some(v) => spec_get(json@, segs.deep_view(), i as int) == Some(v@),
            None => spec_get(json@, segs.deep_view(), i as int) is None,
        },
    decreases segs.len() - i,
{
    if i == segs.len() {
        return Some(json);
    }
    match json {
        JsonValue::Object(ps) => match obj_find_idx(ps, &segs[i]) {
            Some(k) => {
                proof {
                    lemma_find_key_props(crate::value::pair_views_of(ps@), segs@[i as int]@, 0);
                }
                get_nested(&ps[k].1, segs, i + 1)
            },
            None => None,
        },
        JsonValue::List(xs) => match seg_to_index(segs[i].as_str()) {
            Some(ix) => if ix < xs.len() {
                get_nested(&xs[ix], segs, i + 1)
            } else {
                None
            },
            None => None,
        },
        _ => None,
    }
}

} // verus!
