use rtc_keepalive::address::{IpAddress, Ipv4, Ipv6, SocketAddress};
use rtc_keepalive::addr_cell::ServerAddr;
use rtc_keepalive::session::{get_session_response, session_response_from_json, DecodeError, SessionField};
use rtc_keepalive::signaling::{
    channel_options, Failure, Phase, SignalingAction, SignalingEvent, SignalingExchange, SIGNALING_URL,
};

const FULL: &str = r#"{"answer": {"sdp": "v=0 answer", "type": "answer"}, "candidate": {"candidate": "candidate:1 1 UDP 2122260223 192.0.2.5 54321 typ host", "sdpMLineIndex": 0, "sdpMid": "0"}}"#;

fn body_without(outer: &str, inner: &str) -> String {
    let mut members = vec![
        ("answer", "sdp", "\"v=0 answer\""),
        ("answer", "type", "\"answer\""),
        ("candidate", "candidate", "\"candidate:1 1 UDP 2122260223 192.0.2.5 54321 typ host\""),
        ("candidate", "sdpMLineIndex", "0"),
        ("candidate", "sdpMid", "\"0\""),
    ];
    members.retain(|m| !(m.0 == outer && m.1 == inner));
    let part = |o: &str| {
        members
            .iter()
            .filter(|m| m.0 == o)
            .map(|m| format!("\"{}\": {}", m.1, m.2))
            .collect::<Vec<_>>()
            .join(", ")
    };
    format!("{{\"answer\": {{{}}}, \"candidate\": {{{}}}}}", part("answer"), part("candidate"))
}

#[test]
fn decodes_full_response() {
    let r = get_session_response(FULL).unwrap();
    assert_eq!(r.answer.sdp, "v=0 answer");
    assert_eq!(r.answer.type_str, "answer");
    assert_eq!(r.candidate.candidate, "candidate:1 1 UDP 2122260223 192.0.2.5 54321 typ host");
    assert_eq!(r.candidate.sdp_m_line_index, 0);
    assert_eq!(r.candidate.sdp_mid, "0");
}

#[test]
fn decodes_from_parsed_value() {
    let v: tinyjson::JsonValue = FULL.parse().unwrap();
    let r = session_response_from_json(&v).unwrap();
    assert_eq!(r.answer.sdp, "v=0 answer");
    assert_eq!(r.candidate.sdp_mid, "0");
}

#[test]
fn not_json_is_syntax_error() {
    assert_eq!(get_session_response("not json").unwrap_err(), DecodeError::Syntax);
    assert_eq!(get_session_response("").unwrap_err(), DecodeError::Syntax);
    assert_eq!(get_session_response("{\"answer\": ").unwrap_err(), DecodeError::Syntax);
}

#[test]
fn each_missing_field_is_named() {
    let cases = [
        ("answer", "sdp", SessionField::AnswerSdp),
        ("answer", "type", SessionField::AnswerType),
        ("candidate", "candidate", SessionField::Candidate),
        ("candidate", "sdpMLineIndex", SessionField::SdpMLineIndex),
        ("candidate", "sdpMid", SessionField::SdpMid),
    ];
    for (outer, inner, field) in cases {
        let body = body_without(outer, inner);
        assert_eq!(get_session_response(&body).unwrap_err(), DecodeError::Missing(field), "{}", body);
    }
    assert!(get_session_response(&body_without("", "")).is_ok());
}

#[test]
fn mistyped_fields_are_missing() {
    let body = FULL.replace("\"sdpMLineIndex\": 0", "\"sdpMLineIndex\": \"0\"");
    assert_eq!(get_session_response(&body).unwrap_err(), DecodeError::Missing(SessionField::SdpMLineIndex));
    let body = FULL.replace("\"type\": \"answer\"", "\"type\": 1");
    assert_eq!(get_session_response(&body).unwrap_err(), DecodeError::Missing(SessionField::AnswerType));
    assert_eq!(get_session_response("[1, 2]").unwrap_err(), DecodeError::Missing(SessionField::AnswerSdp));
    assert_eq!(get_session_response("{\"answer\": 3}").unwrap_err(), DecodeError::Missing(SessionField::AnswerSdp));
}

#[test]
fn line_index_is_converted_like_as() {
    let body = FULL.replace("\"sdpMLineIndex\": 0", "\"sdpMLineIndex\": 1.7");
    assert_eq!(get_session_response(&body).unwrap().candidate.sdp_m_line_index, 1);
    let body = FULL.replace("\"sdpMLineIndex\": 0", "\"sdpMLineIndex\": -4");
    assert_eq!(get_session_response(&body).unwrap().candidate.sdp_m_line_index, 0);
    let body = FULL.replace("\"sdpMLineIndex\": 0", "\"sdpMLineIndex\": 70000");
    assert_eq!(get_session_response(&body).unwrap().candidate.sdp_m_line_index, 65535);
}

#[test]
fn channel_is_unordered_without_retransmits() {
    let o = channel_options();
    assert!(!o.ordered);
    assert_eq!(o.max_retransmits, 0);
    assert_eq!(o.id, Some(0));
}

#[test]
fn complete_answer_reaches_ready() {
    let mut server = ServerAddr::Finding;
    let mut ex = SignalingExchange::new();
    assert_eq!(ex.phase(), Phase::CreatingOffer);

    match ex.handle(SignalingEvent::OfferCreated { sdp: "v=0 offer é".to_string() }, &mut server) {
        SignalingAction::Post { url, content_length, body } => {
            assert_eq!(url, SIGNALING_URL);
            assert_eq!(url, "http://127.0.0.1:14191/rtc_session");
            assert_eq!(body, "v=0 offer é");
            assert_eq!(content_length, 12);
        }
        other => panic!("unexpected {:?}", other),
    }
    assert_eq!(ex.phase(), Phase::AwaitingHttpResponse);

    match ex.handle(SignalingEvent::ResponseReceived { body: FULL.to_string() }, &mut server) {
        SignalingAction::ApplyRemoteDescription { sdp } => assert_eq!(sdp, "v=0 answer"),
        other => panic!("unexpected {:?}", other),
    }
    assert_eq!(ex.phase(), Phase::ApplyingRemoteDescription);
    assert_eq!(server, ServerAddr::Finding);

    match ex.handle(SignalingEvent::RemoteDescriptionApplied, &mut server) {
        SignalingAction::ApplyCandidate { candidate, sdp_mid, sdp_m_line_index } => {
            assert_eq!(candidate, "candidate:1 1 UDP 2122260223 192.0.2.5 54321 typ host");
            assert_eq!(sdp_mid, "0");
            assert_eq!(sdp_m_line_index, 0);
        }
        other => panic!("unexpected {:?}", other),
    }
    assert_eq!(ex.phase(), Phase::ApplyingCandidate);

    assert!(matches!(ex.handle(SignalingEvent::CandidateApplied, &mut server), SignalingAction::Done));
    assert_eq!(ex.phase(), Phase::Ready);
}

#[test]
fn response_candidate_resolves_address() {
    let mut server = ServerAddr::Finding;
    let mut ex = SignalingExchange::new();
    ex.handle(SignalingEvent::OfferCreated { sdp: "o".to_string() }, &mut server);
    ex.handle(SignalingEvent::ResponseReceived { body: FULL.to_string() }, &mut server);
    ex.handle(SignalingEvent::RemoteDescriptionApplied, &mut server);
    let expected = ServerAddr::Found(SocketAddress { ip: IpAddress::V4(Ipv4 { a: 192, b: 0, c: 2, d: 5 }), port: 54321 });
    assert_eq!(server, expected);
    // the server is fed whether or not the candidate is then accepted
    assert!(matches!(
        ex.handle(SignalingEvent::CandidateRejected, &mut server),
        SignalingAction::Abort(Failure::Candidate)
    ));
    assert_eq!(ex.phase(), Phase::Aborted);
    assert_eq!(server, expected);
}

#[test]
fn missing_field_aborts_before_ready() {
    let mut server = ServerAddr::Finding;
    let mut ex = SignalingExchange::new();
    ex.handle(SignalingEvent::OfferCreated { sdp: "o".to_string() }, &mut server);
    let body = body_without("candidate", "sdpMid");
    match ex.handle(SignalingEvent::ResponseReceived { body }, &mut server) {
        SignalingAction::Abort(Failure::Decode(e)) => {
            assert_eq!(e, DecodeError::Missing(SessionField::SdpMid))
        }
        other => panic!("unexpected {:?}", other),
    }
    assert_eq!(ex.phase(), Phase::Aborted);
    assert!(matches!(ex.handle(SignalingEvent::RemoteDescriptionApplied, &mut server), SignalingAction::Ignore));
    assert!(matches!(ex.handle(SignalingEvent::CandidateApplied, &mut server), SignalingAction::Ignore));
    assert_eq!(ex.phase(), Phase::Aborted);
    assert_eq!(server, ServerAddr::Finding);
}

#[test]
fn failures_abort() {
    let mut server = ServerAddr::Finding;
    let mut ex = SignalingExchange::new();
    assert!(matches!(ex.handle(SignalingEvent::OfferFailed, &mut server), SignalingAction::Abort(Failure::Offer)));
    assert_eq!(ex.phase(), Phase::Aborted);

    let mut ex = SignalingExchange::new();
    ex.handle(SignalingEvent::OfferCreated { sdp: "o".to_string() }, &mut server);
    assert!(matches!(ex.handle(SignalingEvent::TransportFailed, &mut server), SignalingAction::Abort(Failure::Transport)));

    let mut ex = SignalingExchange::new();
    ex.handle(SignalingEvent::OfferCreated { sdp: "o".to_string() }, &mut server);
    assert!(matches!(
        ex.handle(SignalingEvent::ResponseReceived { body: "oops".to_string() }, &mut server),
        SignalingAction::Abort(Failure::Decode(DecodeError::Syntax))
    ));

    let mut ex = SignalingExchange::new();
    ex.handle(SignalingEvent::OfferCreated { sdp: "o".to_string() }, &mut server);
    ex.handle(SignalingEvent::ResponseReceived { body: FULL.to_string() }, &mut server);
    assert!(matches!(
        ex.handle(SignalingEvent::RemoteDescriptionRejected, &mut server),
        SignalingAction::Abort(Failure::RemoteDescription)
    ));
    assert_eq!(ex.phase(), Phase::Aborted);
}

#[test]
fn out_of_order_events_are_ignored() {
    let mut server = ServerAddr::Finding;
    let mut ex = SignalingExchange::new();
    assert!(matches!(ex.handle(SignalingEvent::CandidateApplied, &mut server), SignalingAction::Ignore));
    assert!(matches!(
        ex.handle(SignalingEvent::ResponseReceived { body: FULL.to_string() }, &mut server),
        SignalingAction::Ignore
    ));
    assert_eq!(ex.phase(), Phase::CreatingOffer);
}

#[test]
fn deep_nesting_is_refused() {
    let deep = "[".repeat(100000);
    assert_eq!(get_session_response(&deep).unwrap_err(), DecodeError::TooDeep);
    let body = format!("{}{}", "[".repeat(129), "]".repeat(129));
    assert_eq!(get_session_response(&body).unwrap_err(), DecodeError::TooDeep);
    let body = format!("{}{}", "[".repeat(128), "]".repeat(128));
    assert_eq!(get_session_response(&body).unwrap_err(), DecodeError::Missing(SessionField::AnswerSdp));
}

#[test]
fn brackets_in_strings_do_not_nest() {
    let sdp = format!("v=0 {}{} \\\" {}", "{".repeat(200), "[".repeat(200), "]");
    let body = FULL.replace("\"v=0 answer\"", &format!("\"{}\"", sdp));
    let r = get_session_response(&body).unwrap();
    assert_eq!(r.answer.sdp, format!("v=0 {}{} \" ]", "{".repeat(200), "[".repeat(200)));
    assert_eq!(r.candidate.sdp_mid, "0");
}
