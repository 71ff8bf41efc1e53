//! The text codec boundary: building a document from JSON text or bytes,
//! and emitting JSON text, through the outside codec.

use vstd::prelude::*;

use crate::tree::JSON;
use crate::value::{JsonVal, ParseError};

verus! {

#[verifier::external_type_specification]
#[verifier::external_body]
pub struct ExCwValue(serde_cw_value::Value);

/// The model of the value that parsing a piece of JSON text yields, where
/// parsing succeeds.
pub uninterp spec fn parsed_text(s: Seq<char>) -> Option<JsonVal>;

/// The model of the value that parsing a JSON byte string yields, where
/// parsing succeeds.
pub uninterp spec fn parsed_bytes(b: Seq<u8>) -> Option<JsonVal>;

/// The JSON text emitted for a value.
pub uninterp spec fn text_of(j: JsonVal) -> Seq<char>;

/// Whether every object key throughout `j` is a string.
pub open spec fn string_keyed(j: JsonVal) -> bool
    decreases j,
{
    match j {
        JsonVal::List(xs) => forall|i: int| #![trigger xs[i]]
            0 <= i < xs.len() ==> string_keyed(xs[i]),
        JsonVal::Object(ps) => forall|i: int| #![trigger ps[i]]
            0 <= i < ps.len() ==> ps[i].0 is Text && string_keyed(ps[i].1),
        _ => true,
    }
}

/// Storing a string-keyed value under a string key keeps the entries
/// string-keyed.
proof fn lemma_upsert_string_keyed(ps: Seq<(JsonVal, JsonVal)>, key: Seq<char>, v: JsonVal)
    requires
        string_keyed(JsonVal::Object(ps)),
        string_keyed(v),
    ensures
        string_keyed(JsonVal::Object(crate::tree::obj_upsert(ps, key, v))),
{
    crate::tree::lemma_find_key_props(ps, key, 0);
    let u = crate::tree::obj_upsert(ps, key, v);
    assert forall|i: int| 0 <= i < u.len() implies #[trigger] u[i].0 is Text && string_keyed(
        u[i].1,
    ) by {
        match crate::tree::find_key(ps, key, 0) {
            Some(k) => {
                if i != k {
                    assert(u[i] == ps[i]);
                }
            },
            None => {
                if i < ps.len() {
                    assert(u[i] == ps[i]);
                }
            },
        }
    }
}

proof fn lemma_update_string_keyed_from(j: JsonVal, segs: Seq<Seq<char>>, i: int, v: JsonVal)
    requires
        string_keyed(j),
        string_keyed(v),
    ensures
        string_keyed(crate::tree::spec_update(j, segs, i, v).0),
    decreases segs.len() - i,
{
    if 0 <= i < segs.len() {
        let seg = segs[i];
        match j {
            JsonVal::Object(ps) => {
                if i == segs.len() - 1 {
                    lemma_upsert_string_keyed(ps, seg, v);
                } else {
                    crate::tree::lemma_find_key_props(ps, seg, 0);
                    let child = match crate::tree::obj_lookup(ps, seg) {
                        Some(c) => c,
                        None => JsonVal::Object(Seq::empty()),
                    };
                    assert(string_keyed(child));
                    lemma_update_string_keyed_from(child, segs, i + 1, v);
                    lemma_upsert_string_keyed(
                        ps,
                        seg,
                        crate::tree::spec_update(child, segs, i + 1, v).0,
                    );
                }
            },
            JsonVal::List(xs) => {
                if crate::path::spec_index_of(seg) is Some {
                    let ix = crate::path::spec_index_of(seg)->Some_0;
                    crate::path::lemma_digits_nonneg(seg);
                    if 0 <= ix < xs.len() {
                        let w = if i == segs.len() - 1 {
                            v
                        } else {
                            crate::tree::spec_update(xs[ix], segs, i + 1, v).0
                        };
                        if i < segs.len() - 1 {
                            lemma_update_string_keyed_from(xs[ix], segs, i + 1, v);
                        }
                        let u = xs.update(ix, w);
                        assert forall|m: int| 0 <= m < u.len() implies string_keyed(
                            #[trigger] u[m],
                        ) by {
                            if m != ix {
                                assert(u[m] == xs[m]);
                            }
                        }
                    }
                }
            },
            _ => {},
        }
    }
}

/// Law: a write keeps a string-keyed document string-keyed, wherever the
/// written value is itself string-keyed; serialization to text therefore
/// stays available after any such write.
pub proof fn lemma_update_keeps_string_keys(j: JsonVal, segs: Seq<Seq<char>>, v: JsonVal)
    requires
        string_keyed(j),
        string_keyed(v),
    ensures
        string_keyed(crate::tree::spec_update(j, segs, 0, v).0),
{
    lemma_update_string_keyed_from(j, segs, 0, v);
}

/// Relies on serde_cw_value::Value: brings a parsed value into the model.
/// The text codec's parser yields only the variants matched here; the
/// others never reach this function.
#[verifier::external_body]
fn lift(v: serde_cw_value::Value) -> crate::value::JsonValue {
    match v {
        serde_cw_value::Value::Unit => crate::value::JsonValue::Null,
        serde_cw_value::Value::Bool(b) => crate::value::JsonValue::Bool(b),
        serde_cw_value::Value::U64(n) => crate::value::JsonValue::UInt(n),
        serde_cw_value::Value::I64(n) => crate::value::JsonValue::Int(n),
        serde_cw_value::Value::String(s) => crate::value::JsonValue::Text(s),
        serde_cw_value::Value::Seq(xs) => crate::value::JsonValue::List(xs.into_iter().map(lift).collect()),
        serde_cw_value::Value::Map(ps) => crate::value::JsonValue::Object(
            ps.into_iter().map(|(k, w)| (lift(k), lift(w))).collect(),
        ),
        _ => crate::value::JsonValue::Null,
    }
}

/// Relies on serde_cw_value::Value: rebuilds the outside value that a
/// model value stands for; object entries become ordered map entries.
#[verifier::external_body]
fn lower(v: &crate::value::JsonValue) -> serde_cw_value::Value {
    match v {
        crate::value::JsonValue::Null => serde_cw_value::Value::Unit,
        crate::value::JsonValue::Bool(b) => serde_cw_value::Value::Bool(*b),
        crate::value::JsonValue::UInt(n) => serde_cw_value::Value::U64(*n),
        crate::value::JsonValue::Int(n) => serde_cw_value::Value::I64(*n),
        crate::value::JsonValue::Text(s) => serde_cw_value::Value::String(s.clone()),
        crate::value::JsonValue::List(xs) => serde_cw_value::Value::Seq(xs.iter().map(lower).collect()),
        crate::value::JsonValue::Object(ps) => serde_cw_value::Value::Map(
            ps.iter().map(|p| (lower(&p.0), lower(&p.1))).collect(),
        ),
    }
}

/// Relies on serde_json_wasm::from_str: parses JSON text, whose result is
/// a function of the text alone; `None` exactly where the text is not
/// well-formed JSON. JSON object keys are string tokens, so the parsed
/// value is string-keyed.
#[verifier::external_body]
fn parse_text(s: &str) -> (r: Option<crate::value::JsonValue>)
    ensures
        match r {
            Some(v) => parsed_text(s@) == Some(v@) && string_keyed(v@),
            None => parsed_text(s@) is None,
        },
{
    match serde_json_wasm::from_str::<serde_cw_value::Value>(s) {
        Ok(v) => Some(lift(v)),
        Err(_) => None,
    }
}

/// Relies on serde_json_wasm::from_slice: parses a JSON byte string,
/// whose result is a function of the bytes alone; `None` exactly where
/// the bytes are not well-formed JSON. JSON object keys are string
/// tokens, so the parsed value is string-keyed.
#[verifier::external_body]
fn parse_bytes(b: &[u8]) -> (r: Option<crate::value::JsonValue>)
    ensures
        match r {
            Some(v) => parsed_bytes(b@) == Some(v@) && string_keyed(v@),
            None => parsed_bytes(b@) is None,
        },
{
    match serde_json_wasm::from_slice::<serde_cw_value::Value>(b) {
        Ok(v) => Some(lift(v)),
        Err(_) => None,
    }
}

/// Relies on serde_json_wasm::to_string: emits JSON text, a function of
/// the value alone; it fails only where an object key is not a string,
/// so it succeeds on every string-keyed value.
#[verifier::external_body]
fn emit_text(v: &crate::value::JsonValue) -> (r: Option<String>)
    ensures
        match r {
            Some(s) => s@ == text_of(v@),
            None => !string_keyed(v@),
        },
{
    match serde_json_wasm::to_string(&lower(v)) {
        Ok(s) => Some(s),
        Err(_) => None,
    }
}

impl JSON {
    /// Parses JSON text into a document; a text that is not well-formed
    /// JSON is rejected, and nothing else is.
    pub fn from_text(s: &str) -> (r: Result<JSON, ParseError>)
        ensures
            match r {
                Ok(doc) => parsed_text(s@) == Some(doc@) && string_keyed(doc@),
                Err(_) => parsed_text(s@) is None,
            },
    {
        match parse_text(s) {
            Some(v) => Ok(JSON::from_value(v)),
            None => Err(ParseError {}),
        }
    }

    /// Decodes a JSON byte string into a document; bytes that are not
    /// well-formed JSON are rejected, and nothing else is.
    pub fn from_binary(b: &[u8]) -> (r: Result<JSON, ParseError>)
        ensures
            match r {
                Ok(doc) => parsed_bytes(b@) == Some(doc@) && string_keyed(doc@),
                Err(_) => parsed_bytes(b@) is None,
            },
    {
        match parse_bytes(b) {
            Some(v) => Ok(JSON::from_value(v)),
            None => Err(ParseError {}),
        }
    }

    /// Serializes the document to JSON text. Every string-keyed document
    /// serializes; only an object key that is not a string is refused,
    /// and such a key cannot arise from parsing or from `update`.
    pub fn to_text(&self) -> (r: Option<String>)
        ensures
            match r {
                Some(s) => s@ == text_of(self@),
                None => !string_keyed(self@),
            },
    {
        emit_text(self.root())
    }
}

} // verus!
