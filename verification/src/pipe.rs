//! Planning the handling of one message arriving on the named channel.
//!
//! A message on any other channel, or one without a payload, is ignored
//! without a response. A payload that does not decode is answered with
//! the decode error; a decoded request is handed to the dispatcher.

use vstd::prelude::*;
use crate::codec::decode_request;
use crate::codec::matches_request;
use crate::codec::payload_decodable;
use crate::dispatch::is_err_with;
use crate::json::sp_doc;
use crate::msg::Request;
use crate::msg::Response;
use crate::strutil::str_eq;

verus! {

/// The channel name this bridge answers on.
pub fn channel_name() -> (r: &'static str)
    ensures
        r@ == "peakypanes"@,
{
    "peakypanes"
}

/// What one inbound message calls for.
pub enum PipePlan {
    /// Wrong channel or no payload: no response at all.
    Ignore,
    /// The response is already determined (a decode failure).
    Reply(Response),
    /// A decoded request, to be handed to the dispatcher.
    Dispatch(Request),
}

/// Decides what an inbound message calls for: messages on another channel
/// or without a payload are ignored; a payload that does not decode is
/// answered with the decode error; otherwise the decoded request is
/// dispatched.
pub fn plan_pipe_message(name: &str, payload: Option<&str>) -> (r: PipePlan)
    ensures
        name@ != "peakypanes"@ ==> r is Ignore,
        name@ == "peakypanes"@ && payload is None ==> r is Ignore,
        name@ == "peakypanes"@ ==> match payload {
            None => r is Ignore,
            Some(p) => {
                &&& payload_decodable(p@) ==> (sp_doc(p@) matches Some(j) && r
                    matches PipePlan::Dispatch(req) && matches_request(j, req))
                &&& !payload_decodable(p@) ==> (r matches PipePlan::Reply(resp) && is_err_with(
                    resp,
                    "invalid request"@,
                ))
            },
        },
{
    if !str_eq(name, "peakypanes") {
        return PipePlan::Ignore;
    }
    match payload {
        None => PipePlan::Ignore,
        Some(p) => match decode_request(p) {
            Ok(req) => PipePlan::Dispatch(req),
            Err(e) => PipePlan::Reply(Response::err(e)),
        },
    }
}

} // verus!
