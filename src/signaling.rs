//! The signaling exchange as a state machine: the caller performs each
//! action it returns and hands back what came of it as the next event.

use vstd::prelude::*;
use vstd::utf8::encode_utf8;
use crate::addr_cell::ServerAddr;
use crate::session::{
    body_error, get_session_response, number_at, parsed_json, str_at, DecodeError,
    JsSessionResponse, JsonTree,
};

verus! {

/// Where the answer to the offer is asked for.
pub const SIGNALING_URL: &'static str = "http://127.0.0.1:14191/rtc_session";

/// Label of the data channel.
pub const CHANNEL_LABEL: &'static str = "data";

/// Options of the data channel: unordered, never retransmitted.
#[derive(Clone, Copy, Debug, PartialEq, Eq, Structural)]
pub struct ChannelOptions {
    pub ordered: bool,
    pub max_retransmits: u16,
    pub id: Option<u16>,
}

/// The one channel the exchange sets up: loss is accepted and order is not
/// required.
pub fn channel_options() -> (r: ChannelOptions)
    ensures
        !r.ordered,
        r.max_retransmits == 0,
        r.id == Some(0u16),
{
    ChannelOptions { ordered: false, max_retransmits: 0, id: Some(0) }
}

#[derive(Clone, Copy, Debug, PartialEq, Eq, Structural)]
pub enum Phase {
    CreatingOffer,
    AwaitingHttpResponse,
    ApplyingRemoteDescription,
    ApplyingCandidate,
    Ready,
    Aborted,
}

/// What came of the last action.
#[derive(Debug)]
pub enum SignalingEvent {
    /// The local offer was created and set; `sdp` is its text.
    OfferCreated { sdp: String },
    OfferFailed,
    /// The signaling server answered with `body`.
    ResponseReceived { body: String },
    TransportFailed,
    RemoteDescriptionApplied,
    RemoteDescriptionRejected,
    CandidateApplied,
    CandidateRejected,
}

/// Why the exchange was given up.
#[derive(Clone, Copy, Debug, PartialEq, Eq, Structural)]
pub enum Failure {
    Offer,
    Transport,
    Decode(DecodeError),
    RemoteDescription,
    Candidate,
}

/// What the caller is to do next.
#[derive(Debug)]
pub enum SignalingAction {
    /// POST `body` to `url` with a `Content-Length` of `content_length`.
    Post { url: String, content_length: usize, body: String },
    /// Apply an answer with this text as the remote description.
    ApplyRemoteDescription { sdp: String },
    /// Add this ICE candidate to the connection.
    ApplyCandidate { candidate: String, sdp_mid: String, sdp_m_line_index: u16 },
    /// The exchange is complete.
    Done,
    /// The exchange failed; nothing is retried.
    Abort(Failure),
    /// The event does not belong to the current phase and changed nothing.
    Ignore,
}

/// A response body decodes with every required member present.
pub open spec fn body_decodes(body: Seq<char>) -> bool {
    body_error(body) is None
}

/// The phase that follows `p` on event `e`.
pub open spec fn next_phase(p: Phase, e: SignalingEvent) -> Phase {
    match p {
        Phase::CreatingOffer => match e {
            SignalingEvent::OfferCreated { .. } => Phase::AwaitingHttpResponse,
            SignalingEvent::OfferFailed => Phase::Aborted,
            _ => p,
        },
        Phase::AwaitingHttpResponse => match e {
            SignalingEvent::ResponseReceived { body } => if body_decodes(body@) {
                Phase::ApplyingRemoteDescription
            } else {
                Phase::Aborted
            },
            SignalingEvent::TransportFailed => Phase::Aborted,
            _ => p,
        },
        Phase::ApplyingRemoteDescription => match e {
            SignalingEvent::RemoteDescriptionApplied => Phase::ApplyingCandidate,
            SignalingEvent::RemoteDescriptionRejected => Phase::Aborted,
            _ => p,
        },
        Phase::ApplyingCandidate => match e {
            SignalingEvent::CandidateApplied => Phase::Ready,
            SignalingEvent::CandidateRejected => Phase::Aborted,
            _ => p,
        },
        _ => p,
    }
}

/// The phase after each of `events`, in order, starting from `p`.
pub open spec fn run(p: Phase, events: Seq<SignalingEvent>) -> Phase
    decreases events.len(),
{
    if events.len() == 0 {
        p
    } else {
        next_phase(run(p, events.drop_last()), events.last())
    }
}

pub struct SignalingExchange {
    phase: Phase,
    response: Option<JsSessionResponse>,
    body: Ghost<Seq<char>>,
}

impl SignalingExchange {
    pub closed spec fn phase_spec(&self) -> Phase {
        self.phase
    }

    /// The response body that was accepted, once one was.
    pub closed spec fn body_spec(&self) -> Seq<char> {
        self.body@
    }

    /// The decoded answer, once a body was accepted.
    pub open spec fn answer_tree(&self) -> JsonTree {
        parsed_json(self.body_spec()).unwrap()
    }

    pub closed spec fn wf(&self) -> bool {
        match self.phase {
            Phase::ApplyingRemoteDescription | Phase::ApplyingCandidate | Phase::Ready => {
                &&& self.response is Some
                &&& body_decodes(self.body@)
                &&& self.response.unwrap().holds(parsed_json(self.body@).unwrap())
            },
            _ => true,
        }
    }

    pub fn new() -> (r: SignalingExchange)
        ensures
            r.wf(),
            r.phase_spec() == Phase::CreatingOffer,
    {
        SignalingExchange { phase: Phase::CreatingOffer, response: None, body: Ghost(Seq::empty()) }
    }

    pub fn phase(&self) -> (r: Phase)
        ensures
            r == self.phase_spec(),
    {
        self.phase
    }

    /// Takes the outcome of the last action and returns the next one. When
    /// the remote description has been applied, the candidate's line is fed
    /// to `addr` before the candidate itself is handed out, whether or not
    /// the candidate is then accepted.
    pub fn handle(&mut self, event: SignalingEvent, addr: &mut ServerAddr) -> (action: SignalingAction)
        requires
            old(self).wf(),
        ensures
            final(self).wf(),
            final(self).phase_spec() == next_phase(old(self).phase_spec(), event),
            final(self).phase_spec() == old(self).phase_spec() ==> action is Ignore,
            !(event is ResponseReceived) ==> final(self).body_spec() == old(self).body_spec(),
            !(action is ApplyCandidate) ==> *final(addr) == *old(addr),
            match action {
                SignalingAction::Post { url, content_length, body } => {
                    &&& event matches SignalingEvent::OfferCreated { sdp } && body@ == sdp@
                    &&& url@ == SIGNALING_URL@
                    &&& content_length == encode_utf8(body@).len() as usize
                },
                SignalingAction::ApplyRemoteDescription { sdp } => {
                    &&& event matches SignalingEvent::ResponseReceived { body }
                        && final(self).body_spec() == body@
                    &&& Some(sdp@) == str_at(final(self).answer_tree(), "answer"@, "sdp"@)
                },
                SignalingAction::ApplyCandidate { candidate, sdp_mid, sdp_m_line_index } => {
                    let t = final(self).answer_tree();
                    &&& event is RemoteDescriptionApplied
                    &&& *final(addr) == old(addr).after(candidate@)
                    &&& Some(candidate@) == str_at(t, "candidate"@, "candidate"@)
                    &&& Some(sdp_mid@) == str_at(t, "candidate"@, "sdpMid"@)
                    &&& Some(sdp_m_line_index) == number_at(t, "candidate"@, "sdpMLineIndex"@)
                },
                SignalingAction::Done => event is CandidateApplied && final(self).phase_spec()
                    == Phase::Ready,
                SignalingAction::Abort(f) => {
                    &&& final(self).phase_spec() == Phase::Aborted
                    &&& match f {
                        Failure::Offer => event is OfferFailed,
                        Failure::Transport => event is TransportFailed,
                        Failure::Decode(e) => event matches SignalingEvent::ResponseReceived { body }
                            && body_error(body@) == Some(e),
                        Failure::RemoteDescription => event is RemoteDescriptionRejected,
                        Failure::Candidate => event is CandidateRejected,
                    }
                },
                SignalingAction::Ignore => final(self).phase_spec() == old(self).phase_spec(),
            },
    {
        match self.phase {
            Phase::CreatingOffer => match event {
                SignalingEvent::OfferCreated { sdp } => {
                    self.phase = Phase::AwaitingHttpResponse;
                    let content_length = sdp.as_str().len();
                    let mut url = String::new();
                    url.append(SIGNALING_URL);
                    assert(url@ =~= SIGNALING_URL@);
                    SignalingAction::Post { url, content_length, body: sdp }
                },
                SignalingEvent::OfferFailed => {
                    self.phase = Phase::Aborted;
                    SignalingAction::Abort(Failure::Offer)
                },
                _ => SignalingAction::Ignore,
            },
            Phase::AwaitingHttpResponse => match event {
                SignalingEvent::ResponseReceived { body } => {
                    match get_session_response(body.as_str()) {
                        Ok(resp) => {
                            let sdp = resp.answer.sdp.clone();
                            self.phase = Phase::ApplyingRemoteDescription;
                            self.response = Some(resp);
                            self.body = Ghost(body@);
                            SignalingAction::ApplyRemoteDescription { sdp }
                        },
                        Err(e) => {
                            self.phase = Phase::Aborted;
                            SignalingAction::Abort(Failure::Decode(e))
                        },
                    }
                },
                SignalingEvent::TransportFailed => {
                    self.phase = Phase::Aborted;
                    SignalingAction::Abort(Failure::Transport)
                },
                _ => SignalingAction::Ignore,
            },
            Phase::ApplyingRemoteDescription => match event {
                SignalingEvent::RemoteDescriptionApplied => {
                    self.phase = Phase::ApplyingCandidate;
                    match &self.response {
                        Some(resp) => {
                            addr.receive_candidate(resp.candidate.candidate.as_str());
                            SignalingAction::ApplyCandidate {
                                candidate: resp.candidate.candidate.clone(),
                                sdp_mid: resp.candidate.sdp_mid.clone(),
                                sdp_m_line_index: resp.candidate.sdp_m_line_index,
                            }
                        },
                        None => unreached(),
                    }
                },
                SignalingEvent::RemoteDescriptionRejected => {
                    self.phase = Phase::Aborted;
                    SignalingAction::Abort(Failure::RemoteDescription)
                },
                _ => SignalingAction::Ignore,
            },
            Phase::ApplyingCandidate => match event {
                SignalingEvent::CandidateApplied => {
                    self.phase = Phase::Ready;
                    SignalingAction::Done
                },
                SignalingEvent::CandidateRejected => {
                    self.phase = Phase::Aborted;
                    SignalingAction::Abort(Failure::Candidate)
                },
                _ => SignalingAction::Ignore,
            },
            _ => SignalingAction::Ignore,
        }
    }
}

/// Running events one list after another is running them all at once.
pub proof fn lemma_run_concat(p: Phase, a: Seq<SignalingEvent>, b: Seq<SignalingEvent>)
    ensures
        run(p, a + b) == run(run(p, a), b),
    decreases b.len(),
{
    if b.len() == 0 {
        assert(a + b =~= a);
    } else {
        lemma_run_concat(p, a, b.drop_last());
        assert((a + b).drop_last() =~= a + b.drop_last());
        assert((a + b).last() == b.last());
    }
}

/// An aborted exchange stays aborted, whatever comes after.
pub proof fn lemma_aborted_stays(events: Seq<SignalingEvent>)
    ensures
        run(Phase::Aborted, events) == Phase::Aborted,
    decreases events.len(),
{
    if events.len() > 0 {
        lemma_aborted_stays(events.drop_last());
    }
}

/// With every required member in the answer, an exchange whose steps all
/// succeed ends ready; with one of them missing it aborts on the answer and
/// never gets ready, whatever follows.
pub proof fn lemma_answer_decides_ready(sdp: String, body: String, rest: Seq<SignalingEvent>)
    ensures
        body_decodes(body@) ==> run(
            Phase::CreatingOffer,
            seq![
                SignalingEvent::OfferCreated { sdp },
                SignalingEvent::ResponseReceived { body },
                SignalingEvent::RemoteDescriptionApplied,
                SignalingEvent::CandidateApplied,
            ],
        ) == Phase::Ready,
        body_error(body@) is Some ==> run(
            Phase::CreatingOffer,
            seq![SignalingEvent::OfferCreated { sdp }, SignalingEvent::ResponseReceived { body }] + rest,
        ) == Phase::Aborted,
{
    let first = seq![SignalingEvent::OfferCreated { sdp }, SignalingEvent::ResponseReceived { body }];
    reveal_with_fuel(run, 5);
    if !body_decodes(body@) {
        assert(run(Phase::CreatingOffer, first) == Phase::Aborted);
        lemma_run_concat(Phase::CreatingOffer, first, rest);
        lemma_aborted_stays(rest);
    }
}

} // verus!
