//! The signaling server's answer: a JSON object holding the session
//! description and one ICE candidate, decoded with tinyjson.

use tinyjson::{JsonParseError, JsonValue};
use vstd::prelude::*;
use vstd::std_specs::iter::IteratorSpec;

verus! {

#[verifier::external_type_specification]
#[verifier::external_body]
pub struct ExJsonValue(JsonValue);

#[verifier::external_type_specification]
#[verifier::external_body]
pub struct ExJsonParseError(JsonParseError);

/// What a JSON value holds. A number is held as the `u16` that an `as`
/// conversion of it gives (fraction dropped, saturated at both ends).
pub enum JsonTree {
    Null,
    Bool(bool),
    Number(u16),
    Str(Seq<char>),
    Array(Seq<JsonTree>),
    Object(Map<Seq<char>, JsonTree>),
}

/// What a tinyjson value holds.
pub uninterp spec fn json_tree(v: JsonValue) -> JsonTree;

/// The value that tinyjson parses from a text, if the text is JSON.
pub uninterp spec fn parsed_json(text: Seq<char>) -> Option<JsonTree>;

/// Deepest nesting of arrays and objects a body may have. tinyjson's parser
/// recurses once per nesting level without a limit of its own.
pub const MAX_NESTING: usize = 128;

/// Where a left-to-right scan of JSON text stands: inside a string or not,
/// just after a backslash in a string or not, how many arrays and objects
/// are open, and the most that were open at once.
pub struct ScanState {
    pub in_string: bool,
    pub escaped: bool,
    pub depth: nat,
    pub deepest: nat,
}

pub open spec fn scan_step(st: ScanState, c: char) -> ScanState {
    if st.in_string {
        if st.escaped {
            ScanState { escaped: false, ..st }
        } else if c == '\\' {
            ScanState { escaped: true, ..st }
        } else if c == '"' {
            ScanState { in_string: false, ..st }
        } else {
            st
        }
    } else if c == '"' {
        ScanState { in_string: true, ..st }
    } else if c == '[' || c == '{' {
        ScanState {
            depth: st.depth + 1,
            deepest: if st.depth + 1 > st.deepest {
                st.depth + 1
            } else {
                st.deepest
            },
            ..st
        }
    } else if c == ']' || c == '}' {
        ScanState { depth: if st.depth > 0 { (st.depth - 1) as nat } else { 0 }, ..st }
    } else {
        st
    }
}

pub open spec fn scan(s: Seq<char>) -> ScanState
    decreases s.len(),
{
    if s.len() == 0 {
        ScanState { in_string: false, escaped: false, depth: 0, deepest: 0 }
    } else {
        scan_step(scan(s.drop_last()), s.last())
    }
}

/// The deepest nesting of arrays and objects in the text; brackets inside
/// strings, escaped quotes included, do not count.
pub open spec fn nesting_depth(s: Seq<char>) -> nat {
    scan(s).deepest
}

/// The scan never lowers the deepest nesting seen, and the open count never
/// exceeds it.
pub proof fn lemma_scan_grows(s: Seq<char>, i: int, j: int)
    requires
        0 <= i <= j <= s.len(),
    ensures
        scan(s.subrange(0, i)).deepest <= scan(s.subrange(0, j)).deepest,
        scan(s.subrange(0, j)).depth <= scan(s.subrange(0, j)).deepest,
    decreases j - i + j,
{
    if j > 0 {
        let p = s.subrange(0, j);
        assert(p.drop_last() =~= s.subrange(0, j - 1));
        if i < j {
            lemma_scan_grows(s, i, j - 1);
        } else {
            lemma_scan_grows(s, j - 1, j - 1);
        }
    } else {
        assert(s.subrange(0, 0) =~= Seq::<char>::empty());
    }
}

/// The nesting depth of `text` (see `nesting_depth`), or `MAX_NESTING + 1`
/// once it is deeper than `MAX_NESTING`.
pub fn count_nesting(text: &str) -> (r: usize)
    ensures
        r == if nesting_depth(text@) <= MAX_NESTING {
            nesting_depth(text@) as usize
        } else {
            (MAX_NESTING + 1) as usize
        },
{
    broadcast use vstd::string::axiom_spec_iter, vstd::string::next_postcondition;

    let mut it = text.chars();
    let ghost n = text@.len();
    let ghost mut i: int = 0;
    let mut in_string = false;
    let mut escaped = false;
    let mut depth: usize = 0;
    let mut deepest: usize = 0;
    assert(text@.subrange(0, 0) =~= Seq::<char>::empty());
    loop
        invariant
            n == text@.len(),
            0 <= i <= n,
            it.obeys_prophetic_iter_laws(),
            it.remaining() == text@.subrange(i, n as int),
            scan(text@.subrange(0, i)) == (ScanState {
                in_string,
                escaped,
                depth: depth as nat,
                deepest: deepest as nat,
            }),
            depth <= deepest <= MAX_NESTING,
        decreases n - i,
    {
        let ghost pre = text@.subrange(0, i as int);
        let ghost before = it;
        let r = it.next();
        proof {
            vstd::string::next_postcondition(&before, &it, r);
        }
        match r {
            Some(c) => {
                assert(before.remaining().len() > 0);
                assert(r == Some(before.remaining()[0]));
                assert(before.remaining()[0] == text@[i]);
                let ghost next = text@.subrange(0, i + 1);
                assert(next.drop_last() =~= pre);
                assert(next.last() == c);
                if in_string {
                    if escaped {
                        escaped = false;
                    } else if c == '\\' {
                        escaped = true;
                    } else if c == '"' {
                        in_string = false;
                    }
                } else if c == '"' {
                    in_string = true;
                } else if c == '[' || c == '{' {
                    if depth == MAX_NESTING {
                        proof {
                            lemma_scan_grows(text@, i + 1, n as int);
                            assert(text@.subrange(0, n as int) =~= text@);
                        }
                        return MAX_NESTING + 1;
                    }
                    depth = depth + 1;
                    if depth > deepest {
                        deepest = depth;
                    }
                } else if c == ']' || c == '}' {
                    if depth > 0 {
                        depth = depth - 1;
                    }
                }
                proof {
                    i = i + 1;
                }
            },
            None => {
                assert(before.remaining().len() == 0);
                assert(pre =~= text@);
                return deepest;
            },
        }
    }
}

/// Relies on tinyjson's `FromStr` for `JsonValue`: the value of the text,
/// or an error when it is not JSON. Its parser recurses once per nesting
/// level, so deeper text is left out.
#[verifier::external_body]
fn parse_json(text: &str) -> (r: Result<JsonValue, JsonParseError>)
    requires
        nesting_depth(text@) <= MAX_NESTING,
    ensures
        match r {
            Ok(v) => parsed_json(text@) == Some(json_tree(v)),
            Err(_) => parsed_json(text@) is None,
        },
{
    text.parse::<JsonValue>()
}

/// Relies on tinyjson's `JsonValue::Object` holding a `HashMap` of the
/// members: the member under `key`, when `v` is an object that has one.
#[verifier::external_body]
fn member<'a>(v: &'a JsonValue, key: &str) -> (r: Option<&'a JsonValue>)
    ensures
        match json_tree(*v) {
            JsonTree::Object(m) => if m.contains_key(key@) {
                r is Some && json_tree(*r.unwrap()) == m[key@]
            } else {
                r is None
            },
            _ => r is None,
        },
{
    match v {
        JsonValue::Object(m) => m.get(key),
        _ => None,
    }
}

/// Relies on tinyjson's `JsonValue::get`: the string, when `v` is one.
#[verifier::external_body]
fn string_value(v: &JsonValue) -> (r: Option<String>)
    ensures
        match json_tree(*v) {
            JsonTree::Str(s) => r is Some && r.unwrap()@ == s,
            _ => r is None,
        },
{
    v.get::<String>().cloned()
}

/// Relies on tinyjson's `JsonValue::Number`: the number converted by `as`,
/// when `v` is one.
#[verifier::external_body]
fn number_value(v: &JsonValue) -> (r: Option<u16>)
    ensures
        match json_tree(*v) {
            JsonTree::Number(n) => r == Some(n),
            _ => r is None,
        },
{
    match v {
        JsonValue::Number(n) => Some(*n as u16),
        _ => None,
    }
}

/// The member `outer.inner` of an object of objects.
pub open spec fn member_at(t: JsonTree, outer: Seq<char>, inner: Seq<char>) -> Option<JsonTree> {
    match t {
        JsonTree::Object(m) => if m.contains_key(outer) {
            match m[outer] {
                JsonTree::Object(m2) => if m2.contains_key(inner) {
                    Some(m2[inner])
                } else {
                    None
                },
                _ => None,
            }
        } else {
            None
        },
        _ => None,
    }
}

pub open spec fn str_at(t: JsonTree, outer: Seq<char>, inner: Seq<char>) -> Option<Seq<char>> {
    match member_at(t, outer, inner) {
        Some(JsonTree::Str(s)) => Some(s),
        _ => None,
    }
}

pub open spec fn number_at(t: JsonTree, outer: Seq<char>, inner: Seq<char>) -> Option<u16> {
    match member_at(t, outer, inner) {
        Some(JsonTree::Number(n)) => Some(n),
        _ => None,
    }
}

/// A member that the answer must hold.
#[derive(Clone, Copy, Debug, PartialEq, Eq, Structural)]
pub enum SessionField {
    /// `answer.sdp`, a string.
    AnswerSdp,
    /// `answer.type`, a string.
    AnswerType,
    /// `candidate.candidate`, a string.
    Candidate,
    /// `candidate.sdpMLineIndex`, a number.
    SdpMLineIndex,
    /// `candidate.sdpMid`, a string.
    SdpMid,
}

/// Why the signaling answer could not be decoded.
#[derive(Clone, Copy, Debug, PartialEq, Eq, Structural)]
pub enum DecodeError {
    /// The body is not JSON.
    Syntax,
    /// The body nests arrays and objects more than `MAX_NESTING` deep.
    TooDeep,
    /// The member is absent or of another kind.
    Missing(SessionField),
}

/// The first required member, in the order of `SessionField`, that `t`
/// lacks or holds with the wrong kind.
pub open spec fn missing_field(t: JsonTree) -> Option<SessionField> {
    if str_at(t, "answer"@, "sdp"@) is None {
        Some(SessionField::AnswerSdp)
    } else if str_at(t, "answer"@, "type"@) is None {
        Some(SessionField::AnswerType)
    } else if str_at(t, "candidate"@, "candidate"@) is None {
        Some(SessionField::Candidate)
    } else if number_at(t, "candidate"@, "sdpMLineIndex"@) is None {
        Some(SessionField::SdpMLineIndex)
    } else if str_at(t, "candidate"@, "sdpMid"@) is None {
        Some(SessionField::SdpMid)
    } else {
        None
    }
}

#[derive(Clone, Debug)]
pub struct SessionAnswer {
    pub sdp: String,
    pub type_str: String,
}

#[derive(Debug)]
pub struct SessionCandidate {
    pub candidate: String,
    pub sdp_m_line_index: u16,
    pub sdp_mid: String,
}

#[derive(Debug)]
pub struct JsSessionResponse {
    pub answer: SessionAnswer,
    pub candidate: SessionCandidate,
}

impl JsSessionResponse {
    /// The response holds exactly the required members of `t`.
    pub open spec fn holds(&self, t: JsonTree) -> bool {
        &&& Some(self.answer.sdp@) == str_at(t, "answer"@, "sdp"@)
        &&& Some(self.answer.type_str@) == str_at(t, "answer"@, "type"@)
        &&& Some(self.candidate.candidate@) == str_at(t, "candidate"@, "candidate"@)
        &&& Some(self.candidate.sdp_m_line_index) == number_at(t, "candidate"@, "sdpMLineIndex"@)
        &&& Some(self.candidate.sdp_mid@) == str_at(t, "candidate"@, "sdpMid"@)
    }
}

/// `r` is the decoding of the JSON value `t`.
pub open spec fn decoded_from(r: Result<JsSessionResponse, DecodeError>, t: JsonTree) -> bool {
    match r {
        Ok(s) => missing_field(t) is None && s.holds(t),
        Err(e) => missing_field(t) is Some && e == DecodeError::Missing(missing_field(t).unwrap()),
    }
}

/// Why a response body does not decode, if it does not.
pub open spec fn body_error(body: Seq<char>) -> Option<DecodeError> {
    if nesting_depth(body) > MAX_NESTING {
        Some(DecodeError::TooDeep)
    } else {
        match parsed_json(body) {
            None => Some(DecodeError::Syntax),
            Some(t) => match missing_field(t) {
                Some(f) => Some(DecodeError::Missing(f)),
                None => None,
            },
        }
    }
}

/// `r` is the decoding of the response body `body`.
pub open spec fn decoded_body(r: Result<JsSessionResponse, DecodeError>, body: Seq<char>) -> bool {
    match r {
        Ok(s) => body_error(body) is None && s.holds(parsed_json(body).unwrap()),
        Err(e) => body_error(body) == Some(e),
    }
}

fn string_at(v: &JsonValue, outer: &str, inner: &str) -> (r: Option<String>)
    ensures
        match str_at(json_tree(*v), outer@, inner@) {
            Some(s) => r is Some && r.unwrap()@ == s,
            None => r is None,
        },
{
    match member(v, outer) {
        Some(o) => match member(o, inner) {
            Some(x) => string_value(x),
            None => None,
        },
        None => None,
    }
}

fn u16_at(v: &JsonValue, outer: &str, inner: &str) -> (r: Option<u16>)
    ensures
        r == number_at(json_tree(*v), outer@, inner@),
{
    match member(v, outer) {
        Some(o) => match member(o, inner) {
            Some(x) => number_value(x),
            None => None,
        },
        None => None,
    }
}

/// Reads the required members out of a parsed answer.
pub fn session_response_from_json(v: &JsonValue) -> (r: Result<JsSessionResponse, DecodeError>)
    ensures
        decoded_from(r, json_tree(*v)),
{
    let sdp = match string_at(v, "answer", "sdp") {
        Some(s) => s,
        None => return Err(DecodeError::Missing(SessionField::AnswerSdp)),
    };
    let type_str = match string_at(v, "answer", "type") {
        Some(s) => s,
        None => return Err(DecodeError::Missing(SessionField::AnswerType)),
    };
    let candidate = match string_at(v, "candidate", "candidate") {
        Some(s) => s,
        None => return Err(DecodeError::Missing(SessionField::Candidate)),
    };
    let sdp_m_line_index = match u16_at(v, "candidate", "sdpMLineIndex") {
        Some(n) => n,
        None => return Err(DecodeError::Missing(SessionField::SdpMLineIndex)),
    };
    let sdp_mid = match string_at(v, "candidate", "sdpMid") {
        Some(s) => s,
        None => return Err(DecodeError::Missing(SessionField::SdpMid)),
    };
    Ok(
        JsSessionResponse {
            answer: SessionAnswer { sdp, type_str },
            candidate: SessionCandidate { candidate, sdp_m_line_index, sdp_mid },
        },
    )
}

/// Decodes the signaling server's response body.
pub fn get_session_response(input: &str) -> (r: Result<JsSessionResponse, DecodeError>)
    ensures
        decoded_body(r, input@),
{
    if count_nesting(input) > MAX_NESTING {
        return Err(DecodeError::TooDeep);
    }
    match parse_json(input) {
        Ok(v) => session_response_from_json(&v),
        Err(_) => Err(DecodeError::Syntax),
    }
}

} // verus!
