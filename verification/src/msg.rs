//! Request and response values of the bridge protocol.

use vstd::prelude::*;

verus! {

/// One known multiplexer session, reduced to the identity the bridge
/// reads and reports: its name.
#[derive(Debug)]
pub struct SessionInfo {
    pub name: String,
}

impl Clone for SessionInfo {
    fn clone(&self) -> (r: Self)
        ensures
            r == *self,
    {
        SessionInfo { name: self.name.clone() }
    }
}

/// A decoded command request: a tagged action name plus the optional,
/// action-dependent fields. Fields irrelevant to an action are ignored;
/// fields an action requires but that are absent make the request invalid
/// for that action.
#[derive(Debug)]
pub struct Request {
    pub action: String,
    pub session: Option<String>,
    pub tab_position: Option<usize>,
    pub pane_id: Option<u32>,
    pub lines: Option<usize>,
    pub text: Option<String>,
    pub new_name: Option<String>,
}

/// The uniform result of handling one request: a success flag, and on
/// success at most one payload (a session list or a list of text lines);
/// on failure a single error message and no payload.
#[derive(Debug)]
pub struct Response {
    pub ok: bool,
    pub error: Option<String>,
    pub sessions: Option<Vec<SessionInfo>>,
    pub lines: Option<Vec<String>>,
}

impl Response {
    /// The shape every response of this library has: success carries no
    /// error and at most one payload; failure carries exactly an error.
    pub open spec fn wf(self) -> bool {
        &&& self.ok ==> self.error is None && !(self.sessions is Some
            && self.lines is Some)
        &&& !self.ok ==> self.error is Some && self.sessions is None
            && self.lines is None
    }

    /// A successful response carrying the session list.
    pub fn ok_sessions(sessions: Vec<SessionInfo>) -> (r: Response)
        ensures
            r == (Response {
                ok: true,
                error: None,
                sessions: Some(sessions),
                lines: None,
            }),
            r.wf(),
    {
        Response { ok: true, error: None, sessions: Some(sessions), lines: None }
    }

    /// A successful response carrying scrollback lines.
    pub fn ok_lines(lines: Vec<String>) -> (r: Response)
        ensures
            r == (Response { ok: true, error: None, sessions: None, lines: Some(lines) }),
            r.wf(),
    {
        Response { ok: true, error: None, sessions: None, lines: Some(lines) }
    }

    /// A successful response with no payload.
    pub fn ok_empty() -> (r: Response)
        ensures
            r == (Response { ok: true, error: None, sessions: None, lines: None }),
            r.wf(),
    {
        Response { ok: true, error: None, sessions: None, lines: None }
    }

    /// A failure response carrying the given message.
    pub fn err(msg: String) -> (r: Response)
        ensures
            r == (Response { ok: false, error: Some(msg), sessions: None, lines: None }),
            r.wf(),
    {
        Response { ok: false, error: Some(msg), sessions: None, lines: None }
    }
}

} // verus!
