//! Session data and its stored text form.
use std::collections::HashMap;
use vstd::prelude::*;

verus! {

/// The data of one session: string keys mapped to string values.
pub type SessionState = HashMap<String, String>;

#[verifier::external_type_specification]
#[verifier::external_body]
pub struct ExJsonError(serde_json::Error);

/// The session mapping that serde_json reads from the JSON text `text`, if
/// the text holds an object of strings.
pub uninterp spec fn state_of_json(text: Seq<char>) -> Option<Map<String, String>>;

/// Relies on `serde_json::to_string`: it fails only where a `Serialize` impl
/// fails or a map key is not a string, neither of which can happen for a map
/// of strings; the JSON object it writes reads back, through
/// `serde_json::from_str`, as the same map.
#[verifier::external_body]
pub(crate) fn encode_state(state: &SessionState) -> (r: Result<String, serde_json::Error>)
    ensures
        r is Ok,
        r matches Ok(text) ==> state_of_json(text@) == Some(state@),
{
    serde_json::to_string(state)
}

/// Relies on `serde_json::from_str`: it reads a JSON object of strings into a
/// map, or fails, depending on the text alone.
#[verifier::external_body]
pub(crate) fn decode_state(text: &str) -> (r: Result<SessionState, serde_json::Error>)
    ensures
        match r {
            Ok(m) => state_of_json(text@) == Some(m@),
            Err(_) => state_of_json(text@) is None,
        },
{
    serde_json::from_str(text)
}

} // verus!
