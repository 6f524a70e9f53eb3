//! Mapping the inference collaborator's reply. The transport itself lives
//! outside this crate; what is verified here is the mapping from a reply's
//! status and body to the caller-visible outcome: a structured value when
//! the body parses as JSON, the raw text when it does not, and an error
//! carrying status and description on any non-success reply.

use vstd::prelude::*;

verus! {

/// Whether a text parses as one JSON value. The JSON grammar is decided by
/// `serde_json` and depends on the text alone.
pub uninterp spec fn json_ok(s: Seq<char>) -> bool;

#[verifier::external_type_specification]
#[verifier::external_body]
pub struct ExValue(serde_json::Value);

/// Relies on serde_json::from_str::<Value>: it returns `Ok` exactly when
/// the input text is one well-formed JSON value, a function of the text
/// alone.
#[verifier::external_body]
fn parse_json_value(s: &str) -> (r: Option<serde_json::Value>)
    ensures
        r is Some <==> json_ok(s@),
{
    serde_json::from_str::<serde_json::Value>(s).ok()
}

/// A successful inference reply: the parsed value when the body is JSON,
/// otherwise the body as plain text. Both are success outcomes.
pub enum InferenceOutcome {
    Structured(serde_json::Value),
    Raw(String),
}

/// A failed forwarding call: the status of the reply (zero when the
/// transport itself failed) and its description.
pub struct ForwardError {
    pub status: u16,
    pub detail: String,
}

/// Maps an inference reply to the caller-visible outcome: on success, the
/// body parsed as JSON when possible and the raw text otherwise; on a
/// non-success reply, the error with its status and body.
pub fn classify_response(success: bool, status: u16, body: String) -> (r: Result<
    InferenceOutcome,
    ForwardError,
>)
    ensures
        (success && json_ok(body@)) <==> (r matches Ok(o) && o is Structured),
        (success && !json_ok(body@)) <==> (r matches Ok(o) && o matches InferenceOutcome::Raw(t)
            && t@ == body@),
        !success <==> (r matches Err(e) && e.status == status && e.detail@ == body@),
{
    if !success {
        return Err(ForwardError { status, detail: body });
    }
    match parse_json_value(body.as_str()) {
        Some(v) => Ok(InferenceOutcome::Structured(v)),
        None => Ok(InferenceOutcome::Raw(body)),
    }
}

} // verus!
