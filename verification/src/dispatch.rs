//! The command dispatcher: validating a decoded request and deciding which
//! host capability to invoke.
//!
//! The dispatcher itself performs no host call. It either answers at once
//! (snapshot, a validation failure, an unknown action) or names the one
//! host call the embedding plugin must perform. Each action checks its own
//! required fields in declared order; the first missing field short-circuits
//! with an error naming that field, and no host call is requested unless
//! every required field is present.

use vstd::prelude::*;
use vstd::string::StringExecFns;
use crate::cache::SessionCache;
use crate::msg::Request;
use crate::msg::Response;
use crate::strutil::str_eq;

verus! {

/// The one host capability a valid request maps to.
pub enum HostCall {
    /// Read the scrollback of the named pane; `limit` of zero means no
    /// truncation was requested.
    FetchScrollback { pane_id: u32, limit: usize },
    /// Write the literal text as keystrokes into the named pane.
    SendKeys { pane_id: u32, text: String },
    /// Rename the current session.
    RenameSession { new_name: String },
    /// Rename the tab at the given position.
    RenameTab { tab_position: usize, new_name: String },
    /// Switch focus to the named session, optionally also to a tab in it.
    SwitchSession { session: String, tab_position: Option<usize> },
}

/// What dispatching a request decided: either the response is already
/// known, or exactly one host call is owed and its result determines it.
pub enum Outcome {
    Reply(Response),
    Call(HostCall),
}

/// A failure response carrying exactly the given message.
pub open spec fn is_err_with(r: Response, msg: Seq<char>) -> bool {
    &&& !r.ok
    &&& r.error matches Some(e) && e@ == msg
    &&& r.sessions is None
    &&& r.lines is None
}

/// The actions the dispatcher knows.
pub open spec fn known_action(a: Seq<char>) -> bool {
    ||| a == "snapshot"@
    ||| a == "pane_scrollback"@
    ||| a == "send_keys"@
    ||| a == "rename_session"@
    ||| a == "rename_tab"@
    ||| a == "switch_session"@
}

/// Validates the request and maps it to an immediate reply or to the one
/// host call it requires. Reads the cache only for `snapshot` and never
/// mutates it.
pub fn dispatch(req: Request, cache: &SessionCache) -> (r: Outcome)
    ensures
        r matches Outcome::Reply(resp) ==> resp.wf(),
        req.action@ == "snapshot"@ ==> (r matches Outcome::Reply(resp)
            && resp.ok
            && resp.error is None
            && resp.lines is None
            && (resp.sessions matches Some(v) && v@ == cache.sessions@)),
        req.action@ == "pane_scrollback"@ ==> match req.pane_id {
            None => (r matches Outcome::Reply(resp)
                && is_err_with(resp, "pane_id is required"@)),
            Some(p) => r == Outcome::Call(HostCall::FetchScrollback {
                pane_id: p,
                limit: req.lines.unwrap_or(0),
            }),
        },
        req.action@ == "send_keys"@ ==> match (req.pane_id, req.text) {
            (None, _) => (r matches Outcome::Reply(resp)
                && is_err_with(resp, "pane_id is required"@)),
            (Some(_), None) => (r matches Outcome::Reply(resp)
                && is_err_with(resp, "text is required"@)),
            (Some(p), Some(t)) => r == Outcome::Call(HostCall::SendKeys {
                pane_id: p,
                text: t,
            }),
        },
        req.action@ == "rename_session"@ ==> match req.new_name {
            None => (r matches Outcome::Reply(resp)
                && is_err_with(resp, "new_name is required"@)),
            Some(n) => r == Outcome::Call(HostCall::RenameSession { new_name: n }),
        },
        req.action@ == "rename_tab"@ ==> match (req.tab_position, req.new_name) {
            (None, _) => (r matches Outcome::Reply(resp)
                && is_err_with(resp, "tab_position is required"@)),
            (Some(_), None) => (r matches Outcome::Reply(resp)
                && is_err_with(resp, "new_name is required"@)),
            (Some(p), Some(n)) => r == Outcome::Call(HostCall::RenameTab {
                tab_position: p,
                new_name: n,
            }),
        },
        req.action@ == "switch_session"@ ==> match req.session {
            None => (r matches Outcome::Reply(resp)
                && is_err_with(resp, "session is required"@)),
            Some(s) => r == Outcome::Call(HostCall::SwitchSession {
                session: s,
                tab_position: req.tab_position,
            }),
        },
        !known_action(req.action@) ==> (r matches Outcome::Reply(resp)
            && is_err_with(resp, "unknown action"@)),
{
    let action = req.action.as_str();
    let is_snapshot = str_eq(action, "snapshot");
    let is_scrollback = str_eq(action, "pane_scrollback");
    let is_send_keys = str_eq(action, "send_keys");
    let is_rename_session = str_eq(action, "rename_session");
    let is_rename_tab = str_eq(action, "rename_tab");
    let is_switch_session = str_eq(action, "switch_session");
    proof {
        reveal_strlit("snapshot");
        reveal_strlit("pane_scrollback");
        reveal_strlit("send_keys");
        reveal_strlit("rename_session");
        reveal_strlit("rename_tab");
        reveal_strlit("switch_session");
        assert("snapshot"@.len() == 8);
        assert("pane_scrollback"@.len() == 15);
        assert("send_keys"@.len() == 9);
        assert("rename_session"@.len() == 14);
        assert("rename_tab"@.len() == 10);
        assert("switch_session"@.len() == 14);
        assert("rename_session"@[0] == 'r' && "switch_session"@[0] == 's');
    }
    if is_snapshot {
        Outcome::Reply(Response::ok_sessions(cache.snapshot()))
    } else if is_scrollback {
        let pane_id = match req.pane_id {
            Some(id) => id,
            None => {
                return Outcome::Reply(Response::err(String::from_str("pane_id is required")));
            },
        };
        let limit = match req.lines {
            Some(n) => n,
            None => 0,
        };
        Outcome::Call(HostCall::FetchScrollback { pane_id, limit })
    } else if is_send_keys {
        let pane_id = match req.pane_id {
            Some(id) => id,
            None => {
                return Outcome::Reply(Response::err(String::from_str("pane_id is required")));
            },
        };
        let text = match req.text {
            Some(text) => text,
            None => {
                return Outcome::Reply(Response::err(String::from_str("text is required")));
            },
        };
        Outcome::Call(HostCall::SendKeys { pane_id, text })
    } else if is_rename_session {
        let new_name = match req.new_name {
            Some(name) => name,
            None => {
                return Outcome::Reply(Response::err(String::from_str("new_name is required")));
            },
        };
        Outcome::Call(HostCall::RenameSession { new_name })
    } else if is_rename_tab {
        let tab_position = match req.tab_position {
            Some(position) => position,
            None => {
                return Outcome::Reply(Response::err(String::from_str("tab_position is required")));
            },
        };
        let new_name = match req.new_name {
            Some(name) => name,
            None => {
                return Outcome::Reply(Response::err(String::from_str("new_name is required")));
            },
        };
        Outcome::Call(HostCall::RenameTab { tab_position, new_name })
    } else if is_switch_session {
        let session = match req.session {
            Some(session) => session,
            None => {
                return Outcome::Reply(Response::err(String::from_str("session is required")));
            },
        };
        Outcome::Call(HostCall::SwitchSession { session, tab_position: req.tab_position })
    } else {
        Outcome::Reply(Response::err(String::from_str("unknown action")))
    }
}

/// The three scrollback sections the host hands back for a pane, in their
/// on-screen order.
pub struct PaneScrollback {
    pub lines_above_viewport: Vec<String>,
    pub viewport: Vec<String>,
    pub lines_below_viewport: Vec<String>,
}

/// The concatenation of the three sections, in order.
pub open spec fn full_lines(c: PaneScrollback) -> Seq<String> {
    c.lines_above_viewport@ + c.viewport@ + c.lines_below_viewport@
}

/// What truncation keeps: the last `limit` lines when a positive limit is
/// given and the buffer is longer, everything otherwise.
pub open spec fn truncated(full: Seq<String>, limit: int) -> Seq<String> {
    if limit > 0 && full.len() > limit {
        full.subrange(full.len() - limit, full.len() as int)
    } else {
        full
    }
}

/// Keeps only the last `limit` lines when `limit` is positive and the
/// vector is longer; keeps everything when `limit` is zero or not smaller
/// than the length. The result is always a suffix of the input, in the
/// input's order, of length `min(len, limit)` when `limit` is positive.
pub fn keep_last(lines: Vec<String>, limit: usize) -> (r: Vec<String>)
    ensures
        r@ == truncated(lines@, limit as int),
        r@.len() == if limit > 0 && lines@.len() > limit {
            limit as int
        } else {
            lines@.len() as int
        },
        r@ == lines@.subrange(lines@.len() - r@.len(), lines@.len() as int),
{
    let mut lines = lines;
    let ghost orig = lines@;
    if limit > 0 && lines.len() > limit {
        let start = lines.len() - limit;
        let tail = lines.split_off(start);
        proof {
            assert(tail@ == truncated(orig, limit as int));
        }
        tail
    } else {
        proof {
            assert(lines@ == lines@.subrange(0, lines@.len() as int)) by {
                assert(lines@ =~= lines@.subrange(0, lines@.len() as int));
            }
        }
        lines
    }
}

/// Turns the host's answer to a scrollback fetch into the response: an
/// error message is surfaced verbatim; a fetched buffer is concatenated
/// (above-viewport, viewport, below-viewport) and truncated to the last
/// `limit` lines when a positive limit was requested.
pub fn scrollback_reply(fetched: Result<PaneScrollback, String>, limit: usize) -> (r: Response)
    ensures
        r.wf(),
        fetched matches Err(e) ==> is_err_with(r, e@),
        fetched matches Ok(c) ==> (r.ok
            && r.error is None
            && r.sessions is None
            && (r.lines matches Some(v) && v@ == truncated(full_lines(c), limit as int))),
{
    match fetched {
        Err(e) => Response::err(e),
        Ok(c) => {
            let ghost full = full_lines(c);
            let mut all_lines = c.lines_above_viewport;
            let mut viewport = c.viewport;
            let mut below = c.lines_below_viewport;
            all_lines.append(&mut viewport);
            all_lines.append(&mut below);
            proof {
                assert(all_lines@ == full);
            }
            Response::ok_lines(keep_last(all_lines, limit))
        },
    }
}

} // verus!
