//! Edge contracts: a schema is a JSON object whose keys are the fields that a
//! payload crossing the edge must carry; the payload must be a JSON object.
//! An edge without a contract admits any bytes.
use vstd::prelude::*;
use vstd::utf8::encode_utf8;
use crate::order::views_of;
use crate::model::{Edge, Fault};

verus! {

/// The keys of the JSON object that `b` encodes, or none when `b` is not a JSON object.
pub uninterp spec fn json_object_keys(b: Seq<u8>) -> Option<Seq<Seq<char>>>;

/// Relies on `serde_json::from_slice` into a `serde_json::Value`: the object's
/// keys when the bytes parse to an object, nothing otherwise.
#[verifier::external_body]
fn object_keys(bytes: &[u8]) -> (r: Option<Vec<String>>)
    ensures
        r is Some == json_object_keys(bytes@) is Some,
        r matches Some(k) ==> views_of(k@) == json_object_keys(bytes@)->Some_0,
{
    match serde_json::from_slice::<serde_json::Value>(bytes) {
        Ok(serde_json::Value::Object(m)) => Some(m.keys().cloned().collect()),
        _ => None,
    }
}

/// Every required field is among the present ones.
pub open spec fn fields_cover(required: Seq<Seq<char>>, present: Seq<Seq<char>>) -> bool {
    forall|i: int| 0 <= i < required.len() ==> present.contains(#[trigger] required[i])
}

/// A payload conforms when schema and payload are both objects and the
/// payload carries every field that the schema names.
pub open spec fn conforms(schema: Option<Seq<Seq<char>>>, payload: Option<Seq<Seq<char>>>) -> bool {
    match (schema, payload) {
        (Some(req), Some(present)) => fields_cover(req, present),
        _ => false,
    }
}

/// Whether the bytes may cross an edge with this contract.
pub open spec fn admits_payload(contract: Option<Seq<char>>, bytes: Seq<u8>) -> bool {
    match contract {
        None => true,
        Some(c) => conforms(json_object_keys(encode_utf8(c)), json_object_keys(bytes)),
    }
}

fn has_field(present: &Vec<String>, field: &String) -> (r: bool)
    ensures
        r == views_of(present@).contains(field@),
{
    let mut i: usize = 0;
    while i < present.len()
        invariant
            i <= present@.len(),
            forall|k: int| 0 <= k < i ==> present@[k]@ != field@,
        decreases present@.len() - i,
    {
        if present[i] == *field {
            proof {
                assert(views_of(present@)[i as int] == field@);
            }
            return true;
        }
        i = i + 1;
    }
    proof {
        if views_of(present@).contains(field@) {
            let k = choose|k: int| 0 <= k < present@.len() && views_of(present@)[k] == field@;
        }
    }
    false
}

pub open spec fn opt_views(o: Option<Vec<String>>) -> Option<Seq<Seq<char>>> {
    match o {
        Some(v) => Some(views_of(v@)),
        None => None,
    }
}

/// Decides conformance from the fields that the schema names and the fields
/// that the payload carries, each absent when its text is not a JSON object.
pub fn fields_conform(schema: &Option<Vec<String>>, payload: &Option<Vec<String>>) -> (r: bool)
    ensures
        r == conforms(opt_views(*schema), opt_views(*payload)),
{
    let req = match schema {
        Some(req) => req,
        None => return false,
    };
    let present = match payload {
        Some(present) => present,
        None => return false,
    };
    let mut i: usize = 0;
    while i < req.len()
        invariant
            i <= req@.len(),
            opt_views(*schema) == Some(views_of(req@)),
            opt_views(*payload) == Some(views_of(present@)),
            forall|k: int| 0 <= k < i ==> views_of(present@).contains(#[trigger] views_of(req@)[k]),
        decreases req@.len() - i,
    {
        if !has_field(present, &req[i]) {
            assert(!views_of(present@).contains(views_of(req@)[i as int]));
            assert(views_of(req@).len() == req@.len());
            assert(!fields_cover(views_of(req@), views_of(present@)));
            return false;
        }
        i = i + 1;
    }
    true
}

/// Checks the bytes that `edge.from_id` produced against the edge's contract.
pub fn validate(edge: &Edge, bytes: &[u8]) -> (r: Result<(), Fault>)
    ensures
        r is Ok == admits_payload(
            match edge.contract {
                Some(c) => Some(c@),
                None => None,
            },
            bytes@,
        ),
        r matches Err(f) ==> f matches Fault::ContractViolation { from, to, .. } && from@ == edge.from_id@
            && to@ == edge.to_id@,
{
    match &edge.contract {
        None => Ok(()),
        Some(c) => {
            let schema = object_keys(c.as_str().as_bytes());
            let payload = object_keys(bytes);
            if fields_conform(&schema, &payload) {
                Ok(())
            } else {
                Err(
                    Fault::ContractViolation {
                        from: edge.from_id.clone(),
                        to: edge.to_id.clone(),
                        detail: "payload does not carry the fields that the contract requires".to_owned(),
                    },
                )
            }
        },
    }
}

/// An edge without a contract never blocks a payload.
pub proof fn lemma_no_contract_admits_all(bytes: Seq<u8>)
    ensures
        admits_payload(None, bytes),
{
}

} // verus!
