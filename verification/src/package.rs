//! KRPC packages: the message model and the top-level codec between packages
//! and generic values.

use vstd::prelude::*;

verus! {

use crate::error::DecodeError;
use crate::node::{
    decode_node, encode_node, lemma_node_round_trip, spec_decode_node, spec_node_bytes,
    CompactNode,
};
use crate::text::utf8_from_bytes;
use crate::value::{
    copy_bytes, lemma_insert_then_remove, lemma_lex_trichotomy, model_get, model_insert,
    model_remove, sorted_keys, Dict, Value,
};
use vstd::slice::slice_to_vec;
use vstd::utf8::{decode_utf8, encode_utf8, valid_utf8};

/// The one-byte type tag of a query.
pub const QUERY_TAG: u8 = 113;

/// The one-byte type tag of a response.
pub const RESPONSE_TAG: u8 = 114;

/// The one-byte type tag of an error.
pub const ERROR_TAG: u8 = 101;

/// The key under which the type tag lies: `"y"`.
pub open spec fn type_key() -> Seq<u8> {
    seq![121u8]
}

/// The key under which the transaction id lies: `"tt"`.
pub open spec fn tr_id_key() -> Seq<u8> {
    seq![116u8, 116u8]
}

/// The key under which a query or response body carries its sender: `"id"`.
pub open spec fn sender_key() -> Seq<u8> {
    seq![105u8, 100u8]
}

/// The tag of a query as a byte string.
pub open spec fn query_tag() -> Seq<u8> {
    seq![QUERY_TAG]
}

/// The tag of a response as a byte string.
pub open spec fn response_tag() -> Seq<u8> {
    seq![RESPONSE_TAG]
}

/// The tag of an error as a byte string.
pub open spec fn error_tag() -> Seq<u8> {
    seq![ERROR_TAG]
}

/// The text put in place of an error message whose bytes are not UTF-8,
/// the one non-fatal fallback while decoding.
pub open spec fn placeholder_message() -> Seq<char> {
    "Unknown error"@
}

/// A package payload: a query, a response, or an error with code and
/// message.
#[derive(Debug, PartialEq)]
pub enum Payload {
    /// A request to a node: named fields, excluding the reserved sender key.
    Query(Dict),
    /// A response to a request, shaped like a query.
    Response(Dict),
    /// An error: code and message.
    Error(i64, String),
}

/// A KRPC package: a transaction id chosen by the requester and echoed by
/// the responder, a payload, and the sender where one is known. Per the wire
/// format the sender travels inside a query or response body, so a decoded
/// error package never carries one.
#[derive(Debug, PartialEq)]
pub struct Package {
    pub transaction_id: Vec<u8>,
    pub payload: Payload,
    pub sender: Option<CompactNode>,
}

/// Spec-level model of a payload: field mappings as ordered entry sequences,
/// the message as its characters.
pub enum PayloadModel {
    Query(Seq<(Seq<u8>, Value)>),
    Response(Seq<(Seq<u8>, Value)>),
    Error(int, Seq<char>),
}

/// Spec-level model of a package.
pub struct PackageModel {
    pub transaction_id: Seq<u8>,
    pub payload: PayloadModel,
    pub sender: Option<CompactNode>,
}

impl Payload {
    /// The model of this payload.
    pub open spec fn model(self) -> PayloadModel {
        match self {
            Payload::Query(d) => PayloadModel::Query(d.model()),
            Payload::Response(d) => PayloadModel::Response(d.model()),
            Payload::Error(code, message) => PayloadModel::Error(code as int, message@),
        }
    }
}

impl Package {
    /// The model of this package.
    pub open spec fn model(self) -> PackageModel {
        PackageModel {
            transaction_id: self.transaction_id@,
            payload: self.payload.model(),
            sender: self.sender,
        }
    }

    /// A well-formed in-memory package: its field mappings stand in
    /// canonical order. Outbound packages are built so; encoding assumes it.
    pub open spec fn wf(self) -> bool {
        match self.payload {
            Payload::Query(d) => d.wf(),
            Payload::Response(d) => d.wf(),
            Payload::Error(_, _) => true,
        }
    }
}

/// The type tag a payload is stored under.
pub open spec fn spec_tag(p: PayloadModel) -> Seq<u8> {
    match p {
        PayloadModel::Query(_) => query_tag(),
        PayloadModel::Response(_) => response_tag(),
        PayloadModel::Error(_, _) => error_tag(),
    }
}

/// How a query or response body relates to its field mapping: with a sender,
/// the sender's compact form is bound under the sender key; without one, the
/// body is the mapping itself.
pub open spec fn spec_body_entries(
    fields: Seq<(Seq<u8>, Value)>,
    sender: Option<CompactNode>,
    body: Seq<(Seq<u8>, Value)>,
) -> bool {
    match sender {
        None => body == fields,
        Some(n) => exists|b: Vec<u8>|
            (#[trigger] b@) == spec_node_bytes(n) && body == model_insert(
                fields,
                sender_key(),
                Value::Bytes(b),
            ),
    }
}

/// How the value stored under the type tag relates to the payload.
pub open spec fn spec_payload_value(p: PayloadModel, sender: Option<CompactNode>, v: Value) -> bool {
    match p {
        PayloadModel::Query(fields) => v matches Value::Dict(d) && d.wf() && spec_body_entries(
            fields,
            sender,
            d.model(),
        ),
        PayloadModel::Response(fields) => v matches Value::Dict(d) && d.wf() && spec_body_entries(
            fields,
            sender,
            d.model(),
        ),
        PayloadModel::Error(code, message) => v matches Value::List(items) && items@.len() == 2 && (
        items@[0] matches Value::Int(c) && c == code) && (items@[1] matches Value::Bytes(mb)
            && mb@ == encode_utf8(message)),
    }
}

/// What encoding a package yields: a dictionary of exactly the payload
/// entry, the transaction id and the type tag, in canonical key order.
pub open spec fn spec_encodes(p: PackageModel, r: Value) -> bool {
    &&& r matches Value::Dict(top)
    &&& top.wf()
    &&& top.model().len() == 3
    &&& top.model()[0].0 == spec_tag(p.payload)
    &&& spec_payload_value(p.payload, p.sender, top.model()[0].1)
    &&& top.model()[1].0 == tr_id_key()
    &&& (top.model()[1].1 matches Value::Bytes(t) && t@ == p.transaction_id)
    &&& top.model()[2].0 == type_key()
    &&& (top.model()[2].1 matches Value::Bytes(y) && y@ == spec_tag(p.payload))
}

/// What decoding an error payload value yields.
pub open spec fn spec_decode_error_payload(pv: Value) -> Result<PayloadModel, DecodeError> {
    match pv {
        Value::List(items) => {
            if items@.len() == 2 {
                match items@[0] {
                    Value::Int(code) => match items@[1] {
                        Value::Bytes(mb) => Ok(
                            PayloadModel::Error(
                                code as int,
                                if valid_utf8(mb@) {
                                    decode_utf8(mb@)
                                } else {
                                    placeholder_message()
                                },
                            ),
                        ),
                        _ => Err(DecodeError::BadErrorShape),
                    },
                    _ => Err(DecodeError::BadErrorShape),
                }
            } else {
                Err(DecodeError::BadErrorShape)
            }
        },
        _ => Err(DecodeError::BadErrorShape),
    }
}

/// The last step of decoding: the transaction id must be a byte string
/// under its key.
pub open spec fn spec_finish(
    es: Seq<(Seq<u8>, Value)>,
    pl: PayloadModel,
    sender: Option<CompactNode>,
) -> Result<PackageModel, DecodeError> {
    match model_get(es, tr_id_key()) {
        Some(Value::Bytes(t)) => Ok(
            PackageModel { transaction_id: t@, payload: pl, sender },
        ),
        _ => Err(DecodeError::MissingTransactionId),
    }
}

/// Decoding once the payload value is found, branching on the type tag.
pub open spec fn spec_decode_with_payload(
    es: Seq<(Seq<u8>, Value)>,
    tag: Seq<u8>,
    pv: Value,
) -> Result<PackageModel, DecodeError> {
    if tag == error_tag() {
        match spec_decode_error_payload(pv) {
            Ok(pl) => spec_finish(es, pl, None),
            Err(e) => Err(e),
        }
    } else if tag == query_tag() || tag == response_tag() {
        match pv {
            Value::Dict(body) => match model_get(body.model(), sender_key()) {
                None => Err(DecodeError::MissingSender),
                Some(sv) => match sv {
                    Value::Bytes(nb) => match spec_decode_node(nb@) {
                        Ok(n) => {
                            let fields = model_remove(body.model(), sender_key());
                            let pl = if tag == query_tag() {
                                PayloadModel::Query(fields)
                            } else {
                                PayloadModel::Response(fields)
                            };
                            spec_finish(es, pl, Some(n))
                        },
                        Err(_) => Err(DecodeError::InvalidNode),
                    },
                    _ => Err(DecodeError::InvalidNode),
                },
            },
            _ => Err(DecodeError::BadBodyShape),
        }
    } else {
        Err(DecodeError::UnknownType)
    }
}

/// What decoding an arbitrary value yields: a package model, or the first
/// failure in the fixed order of checks.
pub open spec fn spec_decode(v: Value) -> Result<PackageModel, DecodeError> {
    match v {
        Value::Dict(top) => {
            let es = top.model();
            match model_get(es, type_key()) {
                Some(tv) => match tv {
                    Value::Bytes(tagv) => match model_get(es, tagv@) {
                        Some(pv) => spec_decode_with_payload(es, tagv@, pv),
                        None => Err(DecodeError::MissingPayload),
                    },
                    _ => Err(DecodeError::MissingType),
                },
                None => Err(DecodeError::MissingType),
            }
        },
        _ => Err(DecodeError::NotADict),
    }
}

/// What decoding a generic value as a compact node yields: only a byte
/// string can hold one; its bytes then decode as the compact form does.
pub open spec fn spec_decode_node_value(v: Value) -> Result<CompactNode, DecodeError> {
    match v {
        Value::Bytes(b) => spec_decode_node(b@),
        _ => Err(DecodeError::InvalidNode),
    }
}

/// Decodes a generic value as a compact node, as the sender entry of a
/// query or response body is read.
pub fn decode_node_value(v: &Value) -> (r: Result<CompactNode, DecodeError>)
    ensures
        r == spec_decode_node_value(*v),
{
    match v {
        Value::Bytes(b) => decode_node(b.as_slice()),
        _ => Err(DecodeError::InvalidNode),
    }
}

/// The byte string a text key denotes on the wire: its UTF-8 bytes.
pub fn key(s: &str) -> (r: Vec<u8>)
    ensures
        r@ == encode_utf8(s@),
{
    slice_to_vec(s.as_bytes())
}

/// The UTF-8 bytes of a message.
fn string_bytes(s: &String) -> (r: Vec<u8>)
    ensures
        r@ == encode_utf8(s@),
{
    slice_to_vec(s.as_str().as_bytes())
}

/// The fixed text put in place of a non-UTF-8 error message.
fn placeholder() -> (r: String)
    ensures
        r@ == placeholder_message(),
{
    "Unknown error".to_owned()
}

/// A one-byte string.
fn tag_vec(t: u8) -> (r: Vec<u8>)
    ensures
        r@ == seq![t],
{
    let mut v: Vec<u8> = Vec::new();
    v.push(t);
    proof {
        assert(v@ =~= seq![t]);
    }
    v
}

/// The type key as a byte string.
fn type_key_vec() -> (r: Vec<u8>)
    ensures
        r@ == type_key(),
{
    let mut v: Vec<u8> = Vec::new();
    v.push(121);
    proof {
        assert(v@ =~= type_key());
    }
    v
}

/// The transaction-id key as a byte string.
fn tr_id_key_vec() -> (r: Vec<u8>)
    ensures
        r@ == tr_id_key(),
{
    let mut v: Vec<u8> = Vec::new();
    v.push(116);
    v.push(116);
    proof {
        assert(v@ =~= tr_id_key());
    }
    v
}

/// The sender key as a byte string.
fn sender_key_vec() -> (r: Vec<u8>)
    ensures
        r@ == sender_key(),
{
    let mut v: Vec<u8> = Vec::new();
    v.push(105);
    v.push(100);
    proof {
        assert(v@ =~= sender_key());
    }
    v
}

/// Whether a byte string is the given one-byte tag.
fn is_tag(t: &Vec<u8>, b: u8) -> (r: bool)
    ensures
        r == (t@ == seq![b]),
{
    if t.len() == 1 && t[0] == b {
        proof {
            assert(t@ =~= seq![b]);
        }
        true
    } else {
        proof {
            if t@ == seq![b] {
                assert(t@.len() == 1 && t@[0] == b);
            }
        }
        false
    }
}

/// The three tags precede the transaction-id key, which precedes the type
/// key, and all five byte strings are distinct.
proof fn lemma_tag_order(t: Seq<u8>)
    requires
        t == query_tag() || t == response_tag() || t == error_tag(),
    ensures
        crate::value::lex_lt(t, tr_id_key()),
        crate::value::lex_lt(tr_id_key(), type_key()),
        crate::value::lex_lt(t, type_key()),
        t != tr_id_key(),
        t != type_key(),
        tr_id_key() != type_key(),
{
    lemma_lex_trichotomy(t, tr_id_key());
    lemma_lex_trichotomy(tr_id_key(), type_key());
    lemma_lex_trichotomy(t, type_key());
}

/// Looking a key up in three entries tries them in order.
proof fn lemma_get3(es: Seq<(Seq<u8>, Value)>, k: Seq<u8>)
    requires
        es.len() == 3,
    ensures
        model_get(es, k) == (if es[0].0 == k {
            Some(es[0].1)
        } else if es[1].0 == k {
            Some(es[1].1)
        } else if es[2].0 == k {
            Some(es[2].1)
        } else {
            None
        }),
{
    let t1 = es.drop_first();
    let t2 = t1.drop_first();
    assert(t1[0] == es[1]);
    assert(t2[0] == es[2]);
    assert(t2.drop_first() =~= Seq::<(Seq<u8>, Value)>::empty());
    assert(model_get(t2.drop_first(), k) is None);
    assert(model_get(t2, k) == (if t2[0].0 == k {
        Some(t2[0].1)
    } else {
        model_get(t2.drop_first(), k)
    }));
    assert(model_get(t1, k) == (if t1[0].0 == k {
        Some(t1[0].1)
    } else {
        model_get(t2, k)
    }));
    assert(model_get(es, k) == (if es[0].0 == k {
        Some(es[0].1)
    } else {
        model_get(t1, k)
    }));
}

/// Law: package round trip. A query or response package that carries a
/// sender, whose field mapping stands in canonical order and does not use
/// the reserved sender key, decodes from its encoded form back to itself
/// exactly: transaction id, field mapping and sender all preserved.
pub proof fn lemma_package_round_trip(p: PackageModel, v: Value)
    requires
        p.sender is Some,
        match p.payload {
            PayloadModel::Query(f) => sorted_keys(f) && model_get(f, sender_key()) is None,
            PayloadModel::Response(f) => sorted_keys(f) && model_get(f, sender_key()) is None,
            PayloadModel::Error(_, _) => false,
        },
        spec_encodes(p, v),
    ensures
        spec_decode(v) == Ok::<PackageModel, DecodeError>(p),
{
    let top = v->Dict_0;
    let es = top.model();
    let tag = spec_tag(p.payload);
    lemma_tag_order(tag);
    lemma_get3(es, type_key());
    lemma_get3(es, tag);
    lemma_get3(es, tr_id_key());
    assert(model_get(es, type_key()) == Some(es[2].1));
    assert(model_get(es, tag) == Some(es[0].1));
    assert(model_get(es, tr_id_key()) == Some(es[1].1));
    assert(tag != error_tag()) by {
        if tag == error_tag() {
            assert(tag[0] == error_tag()[0]);
        }
    }
    let n = p.sender->0;
    let pv = es[0].1;
    let body = pv->Dict_0;
    let f = match p.payload {
        PayloadModel::Query(ff) => ff,
        PayloadModel::Response(ff) => ff,
        PayloadModel::Error(_, _) => Seq::empty(),
    };
    let b = choose|b: Vec<u8>|
        (#[trigger] b@) == spec_node_bytes(n) && body.model() == model_insert(
            f,
            sender_key(),
            Value::Bytes(b),
        );
    lemma_insert_then_remove(f, sender_key(), Value::Bytes(b));
    assert(model_get(body.model(), sender_key()) == Some(Value::Bytes(b)));
    assert(model_remove(body.model(), sender_key()) == f);
    lemma_node_round_trip(n);
    assert(spec_decode_node(b@) == Ok::<CompactNode, DecodeError>(n));
    assert(spec_decode(v) == Ok::<PackageModel, DecodeError>(p));
}

/// Law: a query whose body dictionary has no entry under the sender key is
/// rejected with `MissingSender`.
pub proof fn lemma_missing_sender(v: Value, top: Dict, tagv: Vec<u8>, body: Dict)
    requires
        v == Value::Dict(top),
        model_get(top.model(), type_key()) == Some(Value::Bytes(tagv)),
        tagv@ == query_tag(),
        model_get(top.model(), tagv@) == Some(Value::Dict(body)),
        model_get(body.model(), sender_key()) is None,
    ensures
        spec_decode(v) == Err::<PackageModel, DecodeError>(DecodeError::MissingSender),
{
    assert(query_tag() != error_tag()) by {
        if query_tag() == error_tag() {
            assert(query_tag()[0] == error_tag()[0]);
        }
    }
}

/// Law: a dictionary whose type tag names none of the three known kinds,
/// while a payload entry lies under it, is rejected with `UnknownType`.
pub proof fn lemma_unknown_type(v: Value, top: Dict, tagv: Vec<u8>)
    requires
        v == Value::Dict(top),
        model_get(top.model(), type_key()) == Some(Value::Bytes(tagv)),
        model_get(top.model(), tagv@) is Some,
        tagv@ != query_tag(),
        tagv@ != response_tag(),
        tagv@ != error_tag(),
    ensures
        spec_decode(v) == Err::<PackageModel, DecodeError>(DecodeError::UnknownType),
{
}

/// The body dictionary for a query or response: the field mapping, with the
/// sender's compact form bound under the sender key where one is supplied.
fn dict_with_sender(d: Dict, sender: &Option<CompactNode>) -> (r: Dict)
    requires
        d.wf(),
    ensures
        r.wf(),
        spec_body_entries(d.model(), *sender, r.model()),
{
    match sender {
        None => d,
        Some(n) => {
            let ghost dm = d.model();
            let nb = encode_node(n);
            let mut body = d;
            body.insert(sender_key_vec(), Value::Bytes(nb));
            proof {
                assert(exists|b: Vec<u8>|
                    (#[trigger] b@) == spec_node_bytes(*n) && body.model() == model_insert(
                        dm,
                        sender_key(),
                        Value::Bytes(b),
                    ));
            }
            body
        },
    }
}

/// Packs a package into the generic dictionary the wire format asks for:
/// the payload under its one-byte tag, the transaction id under its key,
/// and the tag itself under the type key. Encoding never fails.
pub fn encode_package(p: Package) -> (r: Value)
    requires
        p.wf(),
    ensures
        spec_encodes(p.model(), r),
{
    let Package { transaction_id, payload, sender } = p;
    let ghost tid = transaction_id@;
    let (tag_byte, payload_value): (u8, Value) = match payload {
        Payload::Query(d) => {
            let body = dict_with_sender(d, &sender);
            (QUERY_TAG, Value::Dict(body))
        },
        Payload::Response(d) => {
            let body = dict_with_sender(d, &sender);
            (RESPONSE_TAG, Value::Dict(body))
        },
        Payload::Error(code, message) => {
            let mut items: Vec<Value> = Vec::new();
            items.push(Value::Int(code));
            items.push(Value::Bytes(string_bytes(&message)));
            proof {
                assert(items@.len() == 2);
            }
            (ERROR_TAG, Value::List(items))
        },
    };
    let ghost pv = payload_value;
    let ghost tg = seq![tag_byte];
    proof {
        assert(tg == spec_tag(p.model().payload));
        assert(spec_payload_value(p.model().payload, p.model().sender, pv));
        lemma_tag_order(tg);
    }
    let mut top = Dict::new();
    top.insert(tag_vec(tag_byte), payload_value);
    proof {
        assert(top.model() =~= seq![(tg, pv)]);
    }
    let ghost tv = Value::Bytes(transaction_id);
    top.insert(tr_id_key_vec(), Value::Bytes(transaction_id));
    proof {
        assert(seq![(tg, pv)].drop_first() =~= Seq::<(Seq<u8>, Value)>::empty());
        assert(model_insert(Seq::<(Seq<u8>, Value)>::empty(), tr_id_key(), tv) =~= seq![
            (tr_id_key(), tv),
        ]);
        assert(top.model() =~= seq![(tg, pv), (tr_id_key(), tv)]);
    }
    let y_bytes = tag_vec(tag_byte);
    let ghost yvv = Value::Bytes(y_bytes);
    top.insert(type_key_vec(), Value::Bytes(y_bytes));
    proof {
        let two = seq![(tg, pv), (tr_id_key(), tv)];
        let one = seq![(tr_id_key(), tv)];
        assert(two.drop_first() =~= one);
        assert(one.drop_first() =~= Seq::<(Seq<u8>, Value)>::empty());
        assert(model_insert(Seq::<(Seq<u8>, Value)>::empty(), type_key(), yvv) =~= seq![
            (type_key(), yvv),
        ]);
        assert(model_insert(one, type_key(), yvv) =~= seq![(tr_id_key(), tv), (type_key(), yvv)]);
        assert(top.model() =~= seq![(tg, pv), (tr_id_key(), tv), (type_key(), yvv)]);
    }
    let r = Value::Dict(top);
    proof {
        assert(spec_encodes(p.model(), r));
    }
    r
}

/// Unpacks a generic value into a package, validating the envelope in a
/// fixed order and rejecting the whole message at the first malformed part.
/// The one non-fatal fallback: an error message whose bytes are not UTF-8
/// becomes the fixed placeholder text.
pub fn decode_package(v: Value) -> (r: Result<Package, DecodeError>)
    ensures
        spec_decode(v) matches Ok(pm) ==> (r matches Ok(p) && p.model() == pm),
        spec_decode(v) matches Err(e) ==> r == Err::<Package, DecodeError>(e),
{
    let mut top = match v {
        Value::Dict(d) => d,
        _ => {
            return Err(DecodeError::NotADict);
        },
    };
    let ghost es = top.model();
    // The type tag.
    let tag: Vec<u8> = match top.get(&type_key_vec()) {
        Some(Value::Bytes(tv)) => copy_bytes(tv),
        _ => {
            return Err(DecodeError::MissingType);
        },
    };
    // The transaction id, read before the dictionary is taken apart; whether
    // its absence matters is decided only after the payload is validated.
    let tid_opt: Option<Vec<u8>> = match top.get(&tr_id_key_vec()) {
        Some(Value::Bytes(t)) => Some(copy_bytes(t)),
        _ => None,
    };
    // The payload, under the key the tag names.
    if !top.contains_key(&tag) {
        return Err(DecodeError::MissingPayload);
    }
    let (payload, sender): (Payload, Option<CompactNode>) = if is_tag(&tag, ERROR_TAG) {
        match top.get(&tag) {
            Some(Value::List(items)) => {
                if items.len() != 2 {
                    return Err(DecodeError::BadErrorShape);
                }
                match &items[0] {
                    Value::Int(code) => match &items[1] {
                        Value::Bytes(mb) => {
                            let message: String = match utf8_from_bytes(mb) {
                                Some(s) => s,
                                None => placeholder(),
                            };
                            (Payload::Error(*code, message), None)
                        },
                        _ => {
                            return Err(DecodeError::BadErrorShape);
                        },
                    },
                    _ => {
                        return Err(DecodeError::BadErrorShape);
                    },
                }
            },
            Some(_) => {
                return Err(DecodeError::BadErrorShape);
            },
            None => {
                proof {
                    assert(false);
                }
                return Err(DecodeError::BadErrorShape);
            },
        }
    } else if is_tag(&tag, QUERY_TAG) || is_tag(&tag, RESPONSE_TAG) {
        let mut body = match top.remove(&tag) {
            Some(Value::Dict(b)) => b,
            Some(_) => {
                return Err(DecodeError::BadBodyShape);
            },
            None => {
                proof {
                    assert(false);
                }
                return Err(DecodeError::BadBodyShape);
            },
        };
        let node = match body.remove(&sender_key_vec()) {
            None => {
                return Err(DecodeError::MissingSender);
            },
            Some(Value::Bytes(nb)) => {
                match decode_node(nb.as_slice()) {
                    Ok(n) => n,
                    Err(_) => {
                        return Err(DecodeError::InvalidNode);
                    },
                }
            },
            Some(_) => {
                return Err(DecodeError::InvalidNode);
            },
        };
        if is_tag(&tag, QUERY_TAG) {
            (Payload::Query(body), Some(node))
        } else {
            (Payload::Response(body), Some(node))
        }
    } else {
        return Err(DecodeError::UnknownType);
    };
    let transaction_id = match tid_opt {
        Some(t) => t,
        None => {
            return Err(DecodeError::MissingTransactionId);
        },
    };
    Ok(Package { transaction_id, payload, sender })
}

} // verus!
