//! Encoding responses to, and decoding requests (and responses) from,
//! the bridge's JSON wire format.
//!
//! A request is a single JSON object; unknown keys are ignored, a known
//! key of the wrong type or out of range makes the whole payload invalid.
//! A response object carries `ok` first, then only the slots that are
//! populated: `error`, `sessions` (objects with a `name` each), `lines`.

use vstd::prelude::*;
use vstd::string::StringExecFns;
use crate::json::JMember;
use crate::json::Json;
use crate::json::JsonV;
use crate::json::enc_json;
use crate::json::jv_members;
use crate::json::jv_seq;
use crate::json::lemma_jv_members_push;
use crate::json::lemma_num_free_seq_all;
use crate::json::lemma_sp_doc_enc;
use crate::json::num_free;
use crate::json::num_free_members;
use crate::json::num_free_seq;
use crate::json::lemma_jv_seq_push;
use crate::json::parse_json;
use crate::json::encode_json;
use crate::json::sp_doc;
use crate::msg::Request;
use crate::msg::Response;
use crate::msg::SessionInfo;
use crate::strutil::str_eq;

verus! {

/// The value under the first occurrence of `key`, if any.
pub open spec fn jv_lookup(ms: Seq<(Seq<char>, JsonV)>, key: Seq<char>) -> Option<JsonV>
    decreases ms,
{
    if ms.len() == 0 {
        None
    } else if ms[0].0 == key {
        Some(ms[0].1)
    } else {
        jv_lookup(ms.skip(1), key)
    }
}

/// Looking one member further when the head does not match.
proof fn lemma_jv_lookup_step(ms: Seq<(Seq<char>, JsonV)>, k: int, key: Seq<char>)
    requires
        0 <= k < ms.len(),
        ms[k].0 != key,
        jv_lookup(ms, key) == jv_lookup(ms.skip(k), key),
    ensures
        jv_lookup(ms, key) == jv_lookup(ms.skip(k + 1), key),
{
    assert(ms.skip(k)[0] == ms[k]);
    assert(ms.skip(k).skip(1) =~= ms.skip(k + 1));
}

/// Finds the first member with the given key.
#[verifier::loop_isolation(false)]
pub fn obj_lookup<'a>(members: &'a Vec<JMember>, key: &str) -> (r: Option<&'a Json>)
    ensures
        r matches Some(v) ==> jv_lookup(jv_members(members@), key@) == Some(v.jv()),
        r is None ==> jv_lookup(jv_members(members@), key@) is None,
{
    proof {
        crate::json::lemma_jv_members(members@);
    }
    let ghost all = jv_members(members@);
    proof {
        assert(all.skip(0) =~= all);
    }
    let mut k: usize = 0;
    while k < members.len()
        invariant
            k <= members@.len(),
            jv_lookup(all, key@) == jv_lookup(all.skip(k as int), key@),
        decreases members@.len() - k,
    {
        if str_eq(members[k].key.as_str(), key) {
            proof {
                assert(all.skip(k as int)[0] == all[k as int]);
            }
            return Some(&members[k].value);
        }
        proof {
            lemma_jv_lookup_step(all, k as int, key@);
        }
        k += 1;
    }
    proof {
        assert(all.skip(members@.len() as int) =~= Seq::<(Seq<char>, JsonV)>::empty());
    }
    None
}

// ---------------------------------------------------------------------------
// Requests
// ---------------------------------------------------------------------------

/// An optional string field: absent, or a JSON string.
pub open spec fn str_field_fits(ms: Seq<(Seq<char>, JsonV)>, key: Seq<char>) -> bool {
    match jv_lookup(ms, key) {
        None => true,
        Some(v) => v is Str,
    }
}

/// An optional integer field: absent, or a JSON integer at most `bound`.
pub open spec fn uint_field_fits(ms: Seq<(Seq<char>, JsonV)>, key: Seq<char>, bound: u64) -> bool {
    match jv_lookup(ms, key) {
        None => true,
        Some(v) => v matches JsonV::UInt(n) && n <= bound,
    }
}

/// An optional string field agrees with a decoded `Option<String>`.
pub open spec fn str_field_is(
    ms: Seq<(Seq<char>, JsonV)>,
    key: Seq<char>,
    field: Option<String>,
) -> bool {
    match jv_lookup(ms, key) {
        None => field is None,
        Some(v) => v matches JsonV::Str(t) && (field matches Some(f) && f@ == t),
    }
}

/// A document that decodes to a request: an object whose known keys have
/// the right types and ranges, with a string `action`.
pub open spec fn req_decodable(j: JsonV) -> bool {
    &&& j matches JsonV::Obj(ms)
    &&& jv_lookup(ms, "action"@) matches Some(v) && v is Str
    &&& str_field_fits(ms, "session"@)
    &&& uint_field_fits(ms, "tab_position"@, usize::MAX as u64)
    &&& uint_field_fits(ms, "pane_id"@, u32::MAX as u64)
    &&& uint_field_fits(ms, "lines"@, usize::MAX as u64)
    &&& str_field_fits(ms, "text"@)
    &&& str_field_fits(ms, "new_name"@)
}

/// A payload that decodes to a request at all.
pub open spec fn payload_decodable(s: Seq<char>) -> bool {
    sp_doc(s) matches Some(j) && req_decodable(j)
}

/// The request a document decodes to, field by field.
pub open spec fn matches_request(j: JsonV, req: Request) -> bool {
    &&& j matches JsonV::Obj(ms)
    &&& jv_lookup(ms, "action"@) matches Some(JsonV::Str(a)) && req.action@ == a
    &&& str_field_is(ms, "session"@, req.session)
    &&& match jv_lookup(ms, "tab_position"@) {
        None => req.tab_position is None,
        Some(v) => v matches JsonV::UInt(n) && n <= usize::MAX as u64 && (req.tab_position
            matches Some(t) && t == n as usize),
    }
    &&& match jv_lookup(ms, "pane_id"@) {
        None => req.pane_id is None,
        Some(v) => v matches JsonV::UInt(n) && n <= u32::MAX as u64 && (req.pane_id matches Some(p)
            && p == n as u32),
    }
    &&& match jv_lookup(ms, "lines"@) {
        None => req.lines is None,
        Some(v) => v matches JsonV::UInt(n) && n <= usize::MAX as u64 && (req.lines matches Some(l)
            && l == n as usize),
    }
    &&& str_field_is(ms, "text"@, req.text)
    &&& str_field_is(ms, "new_name"@, req.new_name)
}

/// An optional string field of a decoded object.
fn get_str_field(members: &Vec<JMember>, key: &str) -> (r: Result<Option<String>, ()>)
    ensures
        r matches Ok(f) ==> str_field_is(jv_members(members@), key@, f),
        r is Ok ==> str_field_fits(jv_members(members@), key@),
        r is Err ==> !str_field_fits(jv_members(members@), key@),
{
    match obj_lookup(members, key) {
        None => Ok(None),
        Some(Json::Str(t)) => Ok(Some(t.clone())),
        Some(_) => Err(()),
    }
}

/// An optional integer field of a decoded object, bounded by `bound`.
fn get_uint_field(members: &Vec<JMember>, key: &str, bound: u64) -> (r: Result<Option<u64>, ()>)
    ensures
        r matches Ok(f) ==> match jv_lookup(jv_members(members@), key@) {
            None => f is None,
            Some(v) => v matches JsonV::UInt(n) && n <= bound && f == Some(n),
        },
        r is Ok ==> uint_field_fits(jv_members(members@), key@, bound),
        r is Err ==> !uint_field_fits(jv_members(members@), key@, bound),
{
    match obj_lookup(members, key) {
        None => Ok(None),
        Some(Json::UInt(n)) => {
            if *n <= bound {
                Ok(Some(*n))
            } else {
                Err(())
            }
        },
        Some(_) => Err(()),
    }
}

/// Decodes one inbound payload into a request. Exactly the payloads whose
/// document form satisfies [`req_decodable`] are accepted; anything else
/// is refused with the decode error.
pub fn decode_request(payload: &str) -> (r: Result<Request, String>)
    ensures
        r is Ok <==> (sp_doc(payload@) matches Some(j) && req_decodable(j)),
        r matches Ok(req) ==> (sp_doc(payload@) matches Some(j) && matches_request(j, req)),
        r matches Err(e) ==> e@ == "invalid request"@,
{
    let err_msg = "invalid request";
    let doc = match parse_json(payload) {
        None => {
            return Err(String::from_str(err_msg));
        },
        Some(doc) => doc,
    };
    let members = match doc {
        Json::Obj(members) => members,
        _ => {
            return Err(String::from_str(err_msg));
        },
    };
    let action = match obj_lookup(&members, "action") {
        Some(Json::Str(a)) => a.clone(),
        _ => {
            return Err(String::from_str(err_msg));
        },
    };
    let session = match get_str_field(&members, "session") {
        Ok(f) => f,
        Err(()) => {
            return Err(String::from_str(err_msg));
        },
    };
    let tab_position = match get_uint_field(&members, "tab_position", usize::MAX as u64) {
        Ok(Some(n)) => Some(n as usize),
        Ok(None) => None,
        Err(()) => {
            return Err(String::from_str(err_msg));
        },
    };
    let pane_id = match get_uint_field(&members, "pane_id", u32::MAX as u64) {
        Ok(Some(n)) => Some(n as u32),
        Ok(None) => None,
        Err(()) => {
            return Err(String::from_str(err_msg));
        },
    };
    let lines = match get_uint_field(&members, "lines", usize::MAX as u64) {
        Ok(Some(n)) => Some(n as usize),
        Ok(None) => None,
        Err(()) => {
            return Err(String::from_str(err_msg));
        },
    };
    let text = match get_str_field(&members, "text") {
        Ok(f) => f,
        Err(()) => {
            return Err(String::from_str(err_msg));
        },
    };
    let new_name = match get_str_field(&members, "new_name") {
        Ok(f) => f,
        Err(()) => {
            return Err(String::from_str(err_msg));
        },
    };
    Ok(Request { action, session, tab_position, pane_id, lines, text, new_name })
}

// ---------------------------------------------------------------------------
// Responses
// ---------------------------------------------------------------------------

/// The document form of one session entry: an object with its name.
pub open spec fn session_jv(s: SessionInfo) -> JsonV {
    JsonV::Obj(seq![("name"@, JsonV::Str(s.name@))])
}

/// The document form of a session list.
pub open spec fn sessions_jv(ss: Seq<SessionInfo>) -> Seq<JsonV> {
    Seq::new(ss.len(), |k: int| session_jv(ss[k]))
}

/// The document form of a line list.
pub open spec fn lines_jv(ls: Seq<String>) -> Seq<JsonV> {
    Seq::new(ls.len(), |k: int| JsonV::Str(ls[k]@))
}

/// The document form of a response: `ok` first, then exactly the
/// populated slots, in the order error, sessions, lines.
pub open spec fn response_jv(r: Response) -> JsonV {
    let base = seq![("ok"@, JsonV::Bool(r.ok))];
    let with_error = match r.error {
        Some(e) => base.push(("error"@, JsonV::Str(e@))),
        None => base,
    };
    let with_sessions = match r.sessions {
        Some(ss) => with_error.push(("sessions"@, JsonV::Arr(sessions_jv(ss@)))),
        None => with_error,
    };
    let with_lines = match r.lines {
        Some(ls) => with_sessions.push(("lines"@, JsonV::Arr(lines_jv(ls@)))),
        None => with_sessions,
    };
    JsonV::Obj(with_lines)
}

/// Encodes a response for the wire: exactly the canonical encoding of
/// its document form.
#[verifier::loop_isolation(false)]
pub fn encode_response(r: &Response) -> (s: String)
    ensures
        s@ == enc_json(response_jv(*r)),
{
    let ghost spec_base = seq![("ok"@, JsonV::Bool(r.ok))];
    let ghost spec_with_error = match &r.error {
        Some(e) => spec_base.push(("error"@, JsonV::Str(e@))),
        None => spec_base,
    };
    let ghost spec_with_sessions = match &r.sessions {
        Some(ss) => spec_with_error.push(("sessions"@, JsonV::Arr(sessions_jv(ss@)))),
        None => spec_with_error,
    };
    let ghost spec_with_lines = match &r.lines {
        Some(ls) => spec_with_sessions.push(("lines"@, JsonV::Arr(lines_jv(ls@)))),
        None => spec_with_sessions,
    };
    let mut members: Vec<JMember> = Vec::new();
    let first = JMember { key: String::from_str("ok"), value: Json::Bool(r.ok) };
    let ghost fv = first;
    members.push(first);
    proof {
        lemma_jv_members_push(Seq::empty(), fv);
        assert(jv_members(members@) =~= spec_base);
    }
    match &r.error {
        Some(e) => {
            let ghost prev = members@;
            let member = JMember { key: String::from_str("error"), value: Json::Str(e.clone()) };
            let ghost mv = member;
            members.push(member);
            proof {
                lemma_jv_members_push(prev, mv);
                assert(jv_members(members@) == spec_with_error);
            }
        },
        None => {},
    }
    match &r.sessions {
        Some(ss) => {
            let mut arr: Vec<Json> = Vec::new();
            let mut k: usize = 0;
            proof {
                assert(jv_seq(arr@) =~= sessions_jv(ss@).take(0));
            }
            while k < ss.len()
                invariant
                    k <= ss@.len(),
                    jv_seq(arr@) == sessions_jv(ss@).take(k as int),
                decreases ss@.len() - k,
            {
                let mut inner: Vec<JMember> = Vec::new();
                let name_member = JMember {
                    key: String::from_str("name"),
                    value: Json::Str(ss[k].name.clone()),
                };
                let ghost nv = name_member;
                inner.push(name_member);
                proof {
                    lemma_jv_members_push(Seq::empty(), nv);
                    assert(jv_members(inner@) =~= seq![("name"@, JsonV::Str(ss@[k as int].name@))]);
                }
                let ghost arr0 = arr@;
                let entry = Json::Obj(inner);
                let ghost ev = entry;
                arr.push(entry);
                proof {
                    lemma_jv_seq_push(arr0, ev);
                    assert(ev.jv() == session_jv(ss@[k as int]));
                    assert(jv_seq(arr@) =~= sessions_jv(ss@).take(k + 1 as int));
                }
                k += 1;
            }
            proof {
                assert(sessions_jv(ss@).take(ss@.len() as int) =~= sessions_jv(ss@));
            }
            let ghost prev = members@;
            let member = JMember { key: String::from_str("sessions"), value: Json::Arr(arr) };
            let ghost mv = member;
            members.push(member);
            proof {
                lemma_jv_members_push(prev, mv);
                assert(jv_members(members@) == spec_with_sessions);
            }
        },
        None => {},
    }
    match &r.lines {
        Some(ls) => {
            let mut arr: Vec<Json> = Vec::new();
            let mut k: usize = 0;
            proof {
                assert(jv_seq(arr@) =~= lines_jv(ls@).take(0));
            }
            while k < ls.len()
                invariant
                    k <= ls@.len(),
                    jv_seq(arr@) == lines_jv(ls@).take(k as int),
                decreases ls@.len() - k,
            {
                let ghost arr0 = arr@;
                let entry = Json::Str(ls[k].clone());
                let ghost ev = entry;
                arr.push(entry);
                proof {
                    lemma_jv_seq_push(arr0, ev);
                    assert(jv_seq(arr@) =~= lines_jv(ls@).take(k + 1 as int));
                }
                k += 1;
            }
            proof {
                assert(lines_jv(ls@).take(ls@.len() as int) =~= lines_jv(ls@));
            }
            let ghost prev = members@;
            let member = JMember { key: String::from_str("lines"), value: Json::Arr(arr) };
            let ghost mv = member;
            members.push(member);
            proof {
                lemma_jv_members_push(prev, mv);
                assert(jv_members(members@) == spec_with_lines);
            }
        },
        None => {},
    }
    let doc = Json::Obj(members);
    proof {
        assert(doc.jv() == response_jv(*r));
    }
    encode_json(&doc)
}



/// A session-list document: each element an object with a string `name`.
pub open spec fn sessions_decodable(es: Seq<JsonV>) -> bool {
    forall|k: int|
        0 <= k < es.len() ==> (#[trigger] es[k] matches JsonV::Obj(m2) && jv_lookup(m2, "name"@)
            matches Some(w) && w is Str)
}

/// A document that decodes to a response: an object with a boolean `ok`
/// and well-shaped optional `error`, `sessions` and `lines` slots.
pub open spec fn resp_decodable(j: JsonV) -> bool {
    &&& j matches JsonV::Obj(ms)
    &&& jv_lookup(ms, "ok"@) matches Some(v) && v is Bool
    &&& match jv_lookup(ms, "error"@) {
        None => true,
        Some(v) => v is Str,
    }
    &&& match jv_lookup(ms, "sessions"@) {
        None => true,
        Some(v) => v matches JsonV::Arr(es) && sessions_decodable(es),
    }
    &&& match jv_lookup(ms, "lines"@) {
        None => true,
        Some(v) => v matches JsonV::Arr(es) && (forall|k: int|
            0 <= k < es.len() ==> #[trigger] es[k] is Str),
    }
}

/// The response a document decodes to, slot by slot.
pub open spec fn matches_response(j: JsonV, r: Response) -> bool {
    &&& j matches JsonV::Obj(ms)
    &&& jv_lookup(ms, "ok"@) == Some(JsonV::Bool(r.ok))
    &&& match jv_lookup(ms, "error"@) {
        None => r.error is None,
        Some(v) => v matches JsonV::Str(t) && (r.error matches Some(e) && e@ == t),
    }
    &&& match jv_lookup(ms, "sessions"@) {
        None => r.sessions is None,
        Some(v) => v matches JsonV::Arr(es) && (r.sessions matches Some(ss) && ss@.len() == es.len()
            && (forall|k: int|
            0 <= k < es.len() ==> (#[trigger] es[k] matches JsonV::Obj(m2) && jv_lookup(m2, "name"@)
                matches Some(JsonV::Str(nm)) && ss@[k].name@ == nm))),
    }
    &&& match jv_lookup(ms, "lines"@) {
        None => r.lines is None,
        Some(v) => v matches JsonV::Arr(es) && (r.lines matches Some(ls) && ls@.len() == es.len()
            && (forall|k: int|
            0 <= k < es.len() ==> (#[trigger] es[k] matches JsonV::Str(t) && ls@[k]@ == t))),
    }
}

/// Decodes a wire response. Exactly the payloads whose document form
/// satisfies [`resp_decodable`] are accepted.
#[verifier::loop_isolation(false)]
pub fn decode_response(payload: &str) -> (r: Result<Response, String>)
    ensures
        r is Ok <==> (sp_doc(payload@) matches Some(j) && resp_decodable(j)),
        r matches Ok(resp) ==> (sp_doc(payload@) matches Some(j) && matches_response(j, resp)),
        r matches Err(e) ==> e@ == "invalid response"@,
{
    let err_msg = "invalid response";
    let doc = match parse_json(payload) {
        None => {
            return Err(String::from_str(err_msg));
        },
        Some(doc) => doc,
    };
    let members = match doc {
        Json::Obj(members) => members,
        _ => {
            return Err(String::from_str(err_msg));
        },
    };
    let ok = match obj_lookup(&members, "ok") {
        Some(Json::Bool(b)) => *b,
        _ => {
            return Err(String::from_str(err_msg));
        },
    };
    let error = match get_str_field(&members, "error") {
        Ok(f) => f,
        Err(()) => {
            return Err(String::from_str(err_msg));
        },
    };
    let sessions = match obj_lookup(&members, "sessions") {
        None => None,
        Some(Json::Arr(es)) => {
            let mut ss: Vec<SessionInfo> = Vec::new();
            let ghost esv = jv_seq(es@);
            proof {
                crate::json::lemma_jv_seq(es@);
            }
            let mut k: usize = 0;
            while k < es.len()
                invariant
                    k <= es@.len(),
                    ss@.len() == k,
                    forall|t: int|
                        0 <= t < k ==> (#[trigger] esv[t] matches JsonV::Obj(m2) && jv_lookup(
                            m2,
                            "name"@,
                        ) matches Some(JsonV::Str(nm)) && ss@[t].name@ == nm),
                decreases es@.len() - k,
            {
                match &es[k] {
                    Json::Obj(m2) => {
                        match obj_lookup(m2, "name") {
                            Some(Json::Str(nm)) => {
                                ss.push(SessionInfo { name: nm.clone() });
                            },
                            _ => {
                                proof {
                                    assert(esv[k as int] == es@[k as int].jv());
                                    assert(!(esv[k as int] matches JsonV::Obj(w2) && jv_lookup(
                                        w2,
                                        "name"@,
                                    ) matches Some(w) && w is Str));
                                    assert(!sessions_decodable(esv));
                                }
                                return Err(String::from_str(err_msg));
                            },
                        }
                    },
                    _ => {
                        proof {
                            assert(esv[k as int] == es@[k as int].jv());
                            assert(!(esv[k as int] matches JsonV::Obj(w2) && jv_lookup(
                                w2,
                                "name"@,
                            ) matches Some(w) && w is Str));
                            assert(!sessions_decodable(esv));
                        }
                        return Err(String::from_str(err_msg));
                    },
                }
                k += 1;
            }
            Some(ss)
        },
        Some(_) => {
            return Err(String::from_str(err_msg));
        },
    };
    let lines = match obj_lookup(&members, "lines") {
        None => None,
        Some(Json::Arr(es)) => {
            let mut ls: Vec<String> = Vec::new();
            let ghost esv = jv_seq(es@);
            proof {
                crate::json::lemma_jv_seq(es@);
            }
            let mut k: usize = 0;
            while k < es.len()
                invariant
                    k <= es@.len(),
                    ls@.len() == k,
                    forall|t: int|
                        0 <= t < k ==> (#[trigger] esv[t] matches JsonV::Str(x) && ls@[t]@ == x),
                decreases es@.len() - k,
            {
                match &es[k] {
                    Json::Str(x) => {
                        ls.push(x.clone());
                    },
                    _ => {
                        proof {
                            assert(esv[k as int] == es@[k as int].jv());
                            assert(!(esv[k as int] is Str));
                        }
                        return Err(String::from_str(err_msg));
                    },
                }
                k += 1;
            }
            Some(ls)
        },
        Some(_) => {
            return Err(String::from_str(err_msg));
        },
    };
    Ok(Response { ok, error, sessions, lines })
}



/// The round trip law: a successful response carrying a session list,
/// once encoded and decoded again, comes back with `error` absent and
/// `lines` absent (indeed it comes back slot for slot). Together with the
/// contracts of [`encode_response`] and [`decode_response`], this says
/// that `decode_response(&encode_response(&r))` yields `Ok` of exactly
/// such a response.
pub proof fn lemma_response_round_trip(r: Response)
    requires
        r.wf(),
        r.ok,
        r.sessions is Some,
    ensures
        sp_doc(enc_json(response_jv(r))) == Some(response_jv(r)),
        resp_decodable(response_jv(r)),
        forall|r2: Response|
            matches_response(response_jv(r), r2) ==> (r2.ok == r.ok && r2.error is None
                && r2.lines is None),
{
    reveal_strlit("ok");
    reveal_strlit("error");
    reveal_strlit("sessions");
    reveal_strlit("lines");
    reveal_strlit("name");
    assert("ok"@.len() == 2 && "error"@.len() == 5 && "sessions"@.len() == 8 && "lines"@.len() == 5
        && "name"@.len() == 4);
    assert("error"@[0] == 'e' && "lines"@[0] == 'l');
    match r.sessions {
        Some(ss) => {
            let m0 = ("ok"@, JsonV::Bool(r.ok));
            let m1 = ("sessions"@, JsonV::Arr(sessions_jv(ss@)));
            let ms = seq![m0].push(m1);
            assert(response_jv(r) == JsonV::Obj(ms));
            assert(ms.skip(1) =~= seq![m1]);
            assert(seq![m1].skip(1) =~= Seq::<(Seq<char>, JsonV)>::empty());
            assert forall|k: int| 0 <= k < sessions_jv(ss@).len() implies num_free(
                #[trigger] sessions_jv(ss@)[k],
            ) by {
                reveal_with_fuel(num_free, 4);
                reveal_with_fuel(num_free_members, 4);
                reveal_with_fuel(num_free_seq, 4);
                assert(sessions_jv(ss@)[k] == session_jv(ss@[k]));
                assert(seq![("name"@, JsonV::Str(ss@[k].name@))].skip(1) =~= Seq::<
                    (Seq<char>, JsonV),
                >::empty());
            }
            lemma_num_free_seq_all(sessions_jv(ss@));
            assert(num_free(response_jv(r))) by {
                reveal_with_fuel(num_free, 4);
                reveal_with_fuel(num_free_members, 4);
                reveal_with_fuel(num_free_seq, 4);
                assert(ms.skip(1) =~= seq![m1]);
                assert(seq![m1].skip(1) =~= Seq::<(Seq<char>, JsonV)>::empty());
            }
            lemma_sp_doc_enc(response_jv(r));
            assert(jv_lookup(Seq::<(Seq<char>, JsonV)>::empty(), "error"@) is None);
            assert(jv_lookup(Seq::<(Seq<char>, JsonV)>::empty(), "lines"@) is None);
            assert(jv_lookup(seq![m1], "error"@) is None);
            assert(jv_lookup(seq![m1], "lines"@) is None);
            assert(jv_lookup(seq![m1], "sessions"@) == Some(JsonV::Arr(sessions_jv(ss@))));
            assert(jv_lookup(ms, "ok"@) == Some(JsonV::Bool(r.ok)));
            assert(jv_lookup(ms, "error"@) is None);
            assert(jv_lookup(ms, "sessions"@) == Some(JsonV::Arr(sessions_jv(ss@))));
            assert(jv_lookup(ms, "lines"@) is None);
            assert forall|k: int| 0 <= k < sessions_jv(ss@).len() implies (
            #[trigger] sessions_jv(ss@)[k] matches JsonV::Obj(m2) && jv_lookup(m2, "name"@)
                matches Some(w) && w is Str) by {
                assert(sessions_jv(ss@)[k] == session_jv(ss@[k]));
                let inner = seq![("name"@, JsonV::Str(ss@[k].name@))];
                assert(jv_lookup(inner, "name"@) == Some(JsonV::Str(ss@[k].name@)));
            }
            assert(resp_decodable(response_jv(r)));
        },
        None => {},
    }
}

} // verus!
