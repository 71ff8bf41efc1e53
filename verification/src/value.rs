use vstd::prelude::*;

verus! {

/// Mathematical model of a JSON document: the view type of `JsonValue`.
///
/// An object is modelled as the sequence of its key/value pairs, in the
/// order the executable tree stores them; keys are themselves values.
#[verifier::ext_equal]
pub enum JsonVal {
    Null,
    Bool(bool),
    UInt(u64),
    Int(i64),
    Text(Seq<char>),
    List(Seq<JsonVal>),
    Object(Seq<(JsonVal, JsonVal)>),
}

/// A parsed JSON value: the tagged union the path tree owns and walks.
///
/// Non-negative integers and negative integers keep separate variants, as
/// the text codec distinguishes them; an object holds its entries as an
/// ordered list of key/value pairs.
#[derive(Debug, PartialEq)]
pub enum JsonValue {
    Null,
    Bool(bool),
    UInt(u64),
    Int(i64),
    Text(String),
    List(Vec<JsonValue>),
    Object(Vec<(JsonValue, JsonValue)>),
}

/// The model a `JsonValue` denotes: its fully mathematical image.
pub open spec fn val_view(v: JsonValue) -> JsonVal
    decreases v,
    via val_view_decreases
{
    match v {
        JsonValue::Null => JsonVal::Null,
        JsonValue::Bool(b) => JsonVal::Bool(b),
        JsonValue::UInt(n) => JsonVal::UInt(n),
        JsonValue::Int(n) => JsonVal::Int(n),
        JsonValue::Text(s) => JsonVal::Text(s@),
        JsonValue::List(xs) => JsonVal::List(views_of(xs@)),
        JsonValue::Object(ps) => JsonVal::Object(pair_views_of(ps@)),
    }
}

/// Elementwise model of a sequence of values.
pub open spec fn views_of(s: Seq<JsonValue>) -> Seq<JsonVal>
    decreases s,
{
    Seq::new(
        s.len(),
        |i: int| if 0 <= i < s.len() {
            val_view(s[i])
        } else {
            JsonVal::Null
        },
    )
}

/// Elementwise model of a sequence of key/value pairs.
pub open spec fn pair_views_of(s: Seq<(JsonValue, JsonValue)>) -> Seq<(JsonVal, JsonVal)>
    decreases s,
{
    Seq::new(
        s.len(),
        |i: int| if 0 <= i < s.len() {
            (val_view(s[i].0), val_view(s[i].1))
        } else {
            (JsonVal::Null, JsonVal::Null)
        },
    )
}

#[via_fn]
proof fn val_view_decreases(v: JsonValue) {
    broadcast use vstd::std_specs::vec::group_vec_axioms;

    match v {
        JsonValue::List(xs) => {
            assert(decreases_to!(v => xs));
            assert(decreases_to!(xs => xs@));
        },
        JsonValue::Object(ps) => {
            assert(decreases_to!(v => ps));
            assert(decreases_to!(ps => ps@));
        },
        _ => {},
    }
}

impl View for JsonValue {
    type V = JsonVal;

    open spec fn view(&self) -> JsonVal {
        val_view(*self)
    }
}

pub proof fn lemma_views_update(s: Seq<JsonValue>, k: int, x: JsonValue)
    requires
        0 <= k < s.len(),
    ensures
        views_of(s.update(k, x)) =~= views_of(s).update(k, x@),
{
}

pub proof fn lemma_pair_views_update(s: Seq<(JsonValue, JsonValue)>, k: int, p: (JsonValue, JsonValue))
    requires
        0 <= k < s.len(),
    ensures
        pair_views_of(s.update(k, p)) =~= pair_views_of(s).update(k, (p.0@, p.1@)),
{
}

pub proof fn lemma_views_push(s: Seq<JsonValue>, x: JsonValue)
    ensures
        views_of(s.push(x)) =~= views_of(s).push(x@),
{
}

pub proof fn lemma_pair_views_push(s: Seq<(JsonValue, JsonValue)>, p: (JsonValue, JsonValue))
    ensures
        pair_views_of(s.push(p)) =~= pair_views_of(s).push((p.0@, p.1@)),
{
}

/// Taking an element out and putting one back at the same place is an
/// in-place replacement.
pub proof fn lemma_remove_insert<T>(s: Seq<T>, k: int, x: T)
    requires
        0 <= k < s.len(),
    ensures
        s.remove(k).insert(k, x) =~= s.update(k, x),
{
}

impl JsonValue {
    /// A structurally equal copy of the value.
    pub fn duplicate(&self) -> (r: JsonValue)
        ensures
            r@ == self@,
        decreases self,
    {
        match self {
            JsonValue::Null => JsonValue::Null,
            JsonValue::Bool(b) => JsonValue::Bool(*b),
            JsonValue::UInt(n) => JsonValue::UInt(*n),
            JsonValue::Int(n) => JsonValue::Int(*n),
            JsonValue::Text(s) => JsonValue::Text(s.clone()),
            JsonValue::List(xs) => {
                let mut out: Vec<JsonValue> = Vec::new();
                let mut k: usize = 0;
                while k < xs.len()
                    invariant
                        *self == JsonValue::List(*xs),
                        k <= xs.len(),
                        views_of(out@) =~= views_of(xs@).take(k as int),
                    decreases xs.len() - k,
                {
                    proof {
                        broadcast use vstd::std_specs::vec::group_vec_axioms;

                        let sv = *self;
                        match sv {
                            JsonValue::List(gxs) => {
                                assert(decreases_to!(sv => gxs));
                                assert(decreases_to!(gxs => gxs@));
                                assert(decreases_to!(gxs@ => gxs@[k as int]));
                                assert(decreases_to!(*self => xs@[k as int]));
                            },
                            _ => {},
                        }
                        lemma_views_push(out@, xs@[k as int]);
                    }
                    out.push(xs[k].duplicate());
                    assert(views_of(out@) =~= views_of(xs@).take(k + 1 as int));
                    k += 1;
                }
                assert(views_of(xs@).take(xs@.len() as int) =~= views_of(xs@));
                JsonValue::List(out)
            },
            JsonValue::Object(ps) => {
                let mut out: Vec<(JsonValue, JsonValue)> = Vec::new();
                let mut k: usize = 0;
                while k < ps.len()
                    invariant
                        *self == JsonValue::Object(*ps),
                        k <= ps.len(),
                        pair_views_of(out@) =~= pair_views_of(ps@).take(k as int),
                    decreases ps.len() - k,
                {
                    proof {
                        broadcast use vstd::std_specs::vec::group_vec_axioms;

                        let sv = *self;
                        match sv {
                            JsonValue::Object(gps) => {
                                assert(decreases_to!(sv => gps));
                                assert(decreases_to!(gps => gps@));
                                assert(decreases_to!(gps@ => gps@[k as int]));
                                assert(decreases_to!(gps@[k as int] => gps@[k as int].0));
                                assert(decreases_to!(gps@[k as int] => gps@[k as int].1));
                                assert(decreases_to!(*self => ps@[k as int].0));
                                assert(decreases_to!(*self => ps@[k as int].1));
                            },
                            _ => {},
                        }
                    }
                    let entry = (ps[k].0.duplicate(), ps[k].1.duplicate());
                    proof {
                        lemma_pair_views_push(out@, entry);
                    }
                    out.push(entry);
                    assert(pair_views_of(out@) =~= pair_views_of(ps@).take(k + 1 as int));
                    k += 1;
                }
                assert(pair_views_of(ps@).take(ps@.len() as int) =~= pair_views_of(ps@));
                JsonValue::Object(out)
            },
        }
    }
}

/// Construction from malformed text or bytes fails with this error.
#[derive(Debug, Clone, PartialEq, Eq, Structural)]
pub struct ParseError {}

/// Model of an `update` failure: each variant carries the offending path
/// segment.
#[verifier::ext_equal]
pub enum UpdErr {
    InvalidIndex(Seq<char>),
    IndexOutOfBounds(Seq<char>),
    StructureMismatch(Seq<char>),
}

/// An `update` failure. `InvalidIndex`: a segment addressed a sequence but
/// is not a base-10 index. `IndexOutOfBounds`: the index is not below the
/// sequence's length. `StructureMismatch`: a segment tried to descend
/// through a scalar. Each carries the offending segment.
#[derive(Debug, Clone, PartialEq)]
pub enum UpdateError {
    InvalidIndex(String),
    IndexOutOfBounds(String),
    StructureMismatch(String),
}

impl View for UpdateError {
    type V = UpdErr;

    open spec fn view(&self) -> UpdErr {
        match self {
            UpdateError::InvalidIndex(s) => UpdErr::InvalidIndex(s@),
            UpdateError::IndexOutOfBounds(s) => UpdErr::IndexOutOfBounds(s@),
            UpdateError::StructureMismatch(s) => UpdErr::StructureMismatch(s@),
        }
    }
}

} // verus!
