use conwayste::filter::{
    Filter, FilterCmd, FilterConfig, FilterError, FilterMode, FilterNotice, FilterStep,
    TransportCmd, TransportNotice,
};
use conwayste::protocol::{Endpoint, Packet, RequestAction, ResponseCode};
use conwayste::session::SessionPhase;

const CLIENT: Endpoint = Endpoint(1234);

fn server_config() -> FilterConfig {
    FilterConfig {
        retry_interval_ms: 1000,
        max_retries: 3,
        server_version: "1.2.3.4.5".to_owned(),
        supported_versions: vec!["0.3.2".to_owned()],
    }
}

fn deliver(filter: &mut Filter, endpoint: Endpoint, packet: Packet) -> FilterStep {
    filter.handle_transport_notice(TransportNotice::PacketDelivery { endpoint, packet })
}

/// Runs the server-side handshake: the client's `Connect` (sequence 1),
/// then the application's `LoggedIn` response.
/// Returns the tracking identifier the login packet was sent under.
fn setup_server(filter: &mut Filter) -> u64 {
    let connect = RequestAction::Connect {
        name: "Sheeana".to_owned(),
        client_version: "0.3.2".to_owned(),
    };
    let step = deliver(
        filter,
        CLIENT,
        Packet::Request { sequence: 1, response_ack: None, cookie: None, action: connect.clone() },
    );
    assert_eq!(step.app_notices.len(), 1);
    match &step.app_notices[0] {
        FilterNotice::NewRequestAction { endpoint, action } => {
            assert_eq!(*endpoint, CLIENT);
            assert_eq!(*action, connect);
        }
        other => panic!("unexpected filter notification {:?}", other),
    }
    assert_eq!(filter.session_phase(CLIENT), Some(SessionPhase::Connecting));

    let code = ResponseCode::LoggedIn {
        cookie: "fakecookie".to_owned(),
        server_version: "1.2.3.4.5".to_owned(),
    };
    let step = filter
        .handle_command(FilterCmd::SendResponseCode { endpoint: CLIENT, code: code.clone() }, 0)
        .expect("should successfully send a command from the app layer down to the filter");
    assert_eq!(step.transport_cmds.len(), 1);
    let logged_in_tid;
    match &step.transport_cmds[0] {
        TransportCmd::SendPackets { endpoint, packets, packet_infos } => {
            assert_eq!(*endpoint, CLIENT);
            assert_eq!(
                packet_infos.len(),
                1,
                "multiple packets sent when one was expected for the login response"
            );
            logged_in_tid = packet_infos[0].tid;
            match &packets[0] {
                Packet::Response { sequence, request_ack, code: sent } => {
                    assert_eq!(*sequence, 1);
                    assert_eq!(*request_ack, Some(1));
                    assert_eq!(*sent, code);
                }
                other => panic!("expected a response packet, got {:?}", other),
            }
        }
        other => panic!("unexpected transport command {:?}", other),
    }
    assert_eq!(filter.session_phase(CLIENT), Some(SessionPhase::Established));
    logged_in_tid
}

#[test]
fn basic_server_filter_flow() {
    let mut filter = Filter::new(FilterMode::Server, server_config());
    let logged_in_resp_pkt_tid = setup_server(&mut filter);

    // Once the client acknowledges the login response, the transport must
    // be told to drop exactly that packet.
    let action = RequestAction::KeepAlive { latest_response_ack: 1 };
    let packet = Packet::Request {
        sequence: 2,
        response_ack: Some(1),
        cookie: Some("fakecookie".to_owned()),
        action,
    };
    let step = deliver(&mut filter, CLIENT, packet);
    assert_eq!(step.transport_cmds.len(), 1);
    match &step.transport_cmds[0] {
        TransportCmd::DropPacket { endpoint, tid } => {
            assert_eq!(*endpoint, CLIENT);
            assert_eq!(*tid, logged_in_resp_pkt_tid);
        }
        other => panic!("unexpected transport command {:?}", other),
    }
    assert_eq!(step.app_notices.len(), 0);

    // Shut down.
    filter
        .handle_command(FilterCmd::Shutdown { graceful: false }, 0)
        .expect("shutdown should be accepted");
    assert!(filter.shutdown_complete());
}

#[test]
fn established_session_has_the_login_cookie() {
    let mut filter = Filter::new(FilterMode::Server, server_config());
    setup_server(&mut filter);
    let cookie = filter.session_cookie(CLIENT).expect("an established session holds a cookie");
    assert_eq!(cookie, "fakecookie");
    assert!(!cookie.is_empty());
}

#[test]
fn duplicate_request_is_not_delivered_twice() {
    let mut filter = Filter::new(FilterMode::Server, server_config());
    setup_server(&mut filter);
    let chat = |sequence: u64| Packet::Request {
        sequence,
        response_ack: None,
        cookie: Some("fakecookie".to_owned()),
        action: RequestAction::ChatMessage { message: "what a great game".to_owned() },
    };
    let step = deliver(&mut filter, CLIENT, chat(2));
    assert_eq!(step.app_notices.len(), 1);
    // The same sequence again: a retransmission, absorbed silently.
    let step = deliver(&mut filter, CLIENT, chat(2));
    assert_eq!(step.app_notices.len(), 0);
    assert_eq!(step.transport_cmds.len(), 0);
    // A genuinely new sequence is delivered.
    let step = deliver(&mut filter, CLIENT, chat(3));
    assert_eq!(step.app_notices.len(), 1);
}

#[test]
fn distinct_requests_fill_the_retry_set_contiguously() {
    let mut filter = Filter::new(FilterMode::Client, server_config());
    let server = Endpoint(9);
    for _ in 0..4 {
        filter
            .handle_command(
                FilterCmd::SendRequestAction {
                    endpoint: server,
                    action: RequestAction::KeepAlive { latest_response_ack: 0 },
                },
                0,
            )
            .expect("send should be accepted");
    }
    assert_eq!(filter.inflight_sequences(server), vec![1, 2, 3, 4]);
    let tids = filter.inflight_tids(server);
    for (i, a) in tids.iter().enumerate() {
        for (j, b) in tids.iter().enumerate() {
            if i != j {
                assert_ne!(a, b);
            }
        }
    }
}

#[test]
fn retransmission_keeps_sequence_and_takes_fresh_tid() {
    let mut filter = Filter::new(FilterMode::Server, server_config());
    let logged_in_tid = setup_server(&mut filter);

    // Past the retry interval the login response is resent: same packet,
    // same sequence, new tracking identifier.
    let step = filter.tick(2000);
    assert_eq!(step.app_notices.len(), 0);
    assert_eq!(step.transport_cmds.len(), 1);
    match &step.transport_cmds[0] {
        TransportCmd::SendPackets { endpoint, packets, packet_infos } => {
            assert_eq!(*endpoint, CLIENT);
            assert_eq!(packets.len(), 1);
            match &packets[0] {
                Packet::Response { sequence, .. } => assert_eq!(*sequence, 1),
                other => panic!("expected the login response again, got {:?}", other),
            }
            assert_ne!(packet_infos[0].tid, logged_in_tid);
        }
        other => panic!("unexpected transport command {:?}", other),
    }
    assert_eq!(filter.inflight_sequences(CLIENT), vec![1]);

    // Before the interval elapses again nothing is due.
    let step = filter.tick(2100);
    assert_eq!(step.transport_cmds.len(), 0);
}

#[test]
fn retry_exhaustion_reports_the_endpoint_exactly_once() {
    let mut filter = Filter::new(FilterMode::Server, server_config());
    setup_server(&mut filter);

    // max_retries is 3: three scans resend, the fourth gives up.
    let mut now = 0;
    for _ in 0..3 {
        now += 2000;
        let step = filter.tick(now);
        assert_eq!(step.transport_cmds.len(), 1);
        assert_eq!(step.app_notices.len(), 0);
    }
    now += 2000;
    let step = filter.tick(now);
    assert_eq!(step.transport_cmds.len(), 0);
    assert_eq!(step.app_notices.len(), 1);
    match &step.app_notices[0] {
        FilterNotice::EndpointFailed { endpoint, .. } => assert_eq!(*endpoint, CLIENT),
        other => panic!("unexpected filter notification {:?}", other),
    }
    // The session is gone, so the failure is never reported again.
    assert_eq!(filter.session_count(), 0);
    now += 2000;
    let step = filter.tick(now);
    assert_eq!(step.app_notices.len(), 0);
}

#[test]
fn incompatible_version_is_rejected_and_forgotten() {
    let mut filter = Filter::new(FilterMode::Server, server_config());
    let connect = RequestAction::Connect {
        name: "Sheeana".to_owned(),
        client_version: "9.9.9".to_owned(),
    };
    let step = deliver(
        &mut filter,
        CLIENT,
        Packet::Request { sequence: 1, response_ack: None, cookie: None, action: connect },
    );
    assert_eq!(step.app_notices.len(), 0);
    assert_eq!(step.transport_cmds.len(), 1);
    match &step.transport_cmds[0] {
        TransportCmd::SendPackets { endpoint, packets, .. } => {
            assert_eq!(*endpoint, CLIENT);
            match &packets[0] {
                Packet::Response { code, .. } => {
                    assert_eq!(*code, ResponseCode::IncompatibleVersion)
                }
                other => panic!("expected a rejection response, got {:?}", other),
            }
        }
        other => panic!("unexpected transport command {:?}", other),
    }
    assert_eq!(filter.session_count(), 0);
}

#[test]
fn request_with_wrong_cookie_is_rejected() {
    let mut filter = Filter::new(FilterMode::Server, server_config());
    setup_server(&mut filter);
    let packet = Packet::Request {
        sequence: 2,
        response_ack: None,
        cookie: Some("forged".to_owned()),
        action: RequestAction::KeepAlive { latest_response_ack: 1 },
    };
    let step = deliver(&mut filter, CLIENT, packet);
    assert_eq!(step.app_notices.len(), 0);
    assert_eq!(step.transport_cmds.len(), 1);
    match &step.transport_cmds[0] {
        TransportCmd::SendPackets { packets, .. } => match &packets[0] {
            Packet::Response { code, .. } => assert_eq!(*code, ResponseCode::Unauthorized),
            other => panic!("expected a rejection response, got {:?}", other),
        },
        other => panic!("unexpected transport command {:?}", other),
    }
    // The forged acknowledgment freed nothing.
    assert_eq!(filter.inflight_sequences(CLIENT), vec![1]);
}

#[test]
fn client_handshake_stores_the_cookie() {
    let mut filter = Filter::new(FilterMode::Client, server_config());
    let server = Endpoint(9);
    let connect = RequestAction::Connect {
        name: "Sheeana".to_owned(),
        client_version: "0.3.2".to_owned(),
    };
    let step = filter
        .handle_command(FilterCmd::SendRequestAction { endpoint: server, action: connect }, 0)
        .expect("connect should be accepted");
    let connect_tid = match &step.transport_cmds[0] {
        TransportCmd::SendPackets { packets, packet_infos, .. } => {
            match &packets[0] {
                Packet::Request { sequence, cookie, .. } => {
                    assert_eq!(*sequence, 1);
                    assert_eq!(*cookie, None);
                }
                other => panic!("expected a request packet, got {:?}", other),
            }
            packet_infos[0].tid
        }
        other => panic!("unexpected transport command {:?}", other),
    };
    assert_eq!(filter.session_phase(server), Some(SessionPhase::Connecting));

    let login = Packet::Response {
        sequence: 1,
        request_ack: Some(1),
        code: ResponseCode::LoggedIn {
            cookie: "fakecookie".to_owned(),
            server_version: "1.2.3.4.5".to_owned(),
        },
    };
    let step = deliver(&mut filter, server, login);
    assert_eq!(step.transport_cmds.len(), 1);
    match &step.transport_cmds[0] {
        TransportCmd::DropPacket { endpoint, tid } => {
            assert_eq!(*endpoint, server);
            assert_eq!(*tid, connect_tid);
        }
        other => panic!("unexpected transport command {:?}", other),
    }
    assert_eq!(step.app_notices.len(), 1);
    assert!(matches!(
        &step.app_notices[0],
        FilterNotice::NewResponseCode { .. }
    ));
    assert_eq!(filter.session_phase(server), Some(SessionPhase::Established));
    assert_eq!(filter.session_cookie(server), Some("fakecookie".to_owned()));
}

#[test]
fn graceful_shutdown_waits_for_inflight_packets() {
    let mut filter = Filter::new(FilterMode::Server, server_config());
    setup_server(&mut filter);
    // The login response is still unacknowledged.
    filter
        .handle_command(FilterCmd::Shutdown { graceful: true }, 0)
        .expect("shutdown should be accepted");
    assert!(!filter.shutdown_complete());
    // New work is refused while draining.
    let refused = filter.handle_command(
        FilterCmd::SendResponseCode { endpoint: CLIENT, code: ResponseCode::Accepted },
        0,
    );
    assert_eq!(refused.unwrap_err(), FilterError::ShutdownInProgress);
    // The acknowledgment arrives; the next scan finds everything drained.
    let packet = Packet::Request {
        sequence: 2,
        response_ack: Some(1),
        cookie: Some("fakecookie".to_owned()),
        action: RequestAction::KeepAlive { latest_response_ack: 1 },
    };
    let step = deliver(&mut filter, CLIENT, packet);
    assert_eq!(step.transport_cmds.len(), 1);
    assert!(!filter.shutdown_complete());
    filter.tick(100);
    assert!(filter.shutdown_complete());
}

#[test]
fn immediate_shutdown_completes_without_waiting() {
    let mut filter = Filter::new(FilterMode::Server, server_config());
    setup_server(&mut filter);
    assert!(!filter.shutdown_complete());
    filter
        .handle_command(FilterCmd::Shutdown { graceful: false }, 0)
        .expect("shutdown should be accepted");
    assert!(filter.shutdown_complete());
    assert_eq!(filter.session_count(), 0);
}

#[test]
fn misdirected_login_commands_are_refused() {
    let mut filter = Filter::new(FilterMode::Server, server_config());
    let login = |cookie: &str| FilterCmd::SendResponseCode {
        endpoint: CLIENT,
        code: ResponseCode::LoggedIn {
            cookie: cookie.to_owned(),
            server_version: "1.2.3.4.5".to_owned(),
        },
    };
    // No such endpoint yet.
    assert_eq!(
        filter.handle_command(login("fakecookie"), 0).unwrap_err(),
        FilterError::UnknownEndpoint
    );
    setup_server(&mut filter);
    // Already established: not mid-handshake any more.
    assert_eq!(
        filter.handle_command(login("fakecookie"), 0).unwrap_err(),
        FilterError::UnexpectedPhase
    );
}

#[test]
fn empty_login_cookie_is_refused() {
    let mut filter = Filter::new(FilterMode::Server, server_config());
    let connect = RequestAction::Connect {
        name: "Sheeana".to_owned(),
        client_version: "0.3.2".to_owned(),
    };
    deliver(
        &mut filter,
        CLIENT,
        Packet::Request { sequence: 1, response_ack: None, cookie: None, action: connect },
    );
    let login = FilterCmd::SendResponseCode {
        endpoint: CLIENT,
        code: ResponseCode::LoggedIn {
            cookie: String::new(),
            server_version: "1.2.3.4.5".to_owned(),
        },
    };
    assert_eq!(filter.handle_command(login, 0).unwrap_err(), FilterError::InvalidCookie);
    // The session is still waiting for a proper login.
    assert_eq!(filter.session_phase(CLIENT), Some(SessionPhase::Connecting));
}

#[test]
fn out_of_order_requests_deliver_immediately() {
    let mut filter = Filter::new(FilterMode::Server, server_config());
    setup_server(&mut filter);
    let chat = |sequence: u64, message: &str| Packet::Request {
        sequence,
        response_ack: None,
        cookie: Some("fakecookie".to_owned()),
        action: RequestAction::ChatMessage { message: message.to_owned() },
    };
    // Sequence 3 arrives ahead of sequence 2: delivered at once, the gap is
    // not buffered.
    let step = deliver(&mut filter, CLIENT, chat(3, "second line"));
    assert_eq!(step.app_notices.len(), 1);
    // The gap filler arrives late; the high-water mark already moved past
    // it, so it is treated as already seen and never reordered after the
    // fact.
    let step = deliver(&mut filter, CLIENT, chat(2, "first line"));
    assert_eq!(step.app_notices.len(), 0);
}

#[test]
fn exhausted_sequence_counter_is_an_error_not_a_panic() {
    let mut filter = Filter::new(FilterMode::Server, server_config());
    setup_server(&mut filter);
    // Wind the session's outbound counter to its ceiling.
    filter.sessions[0].session.next_send_seq = u64::MAX;
    let refused = filter.handle_command(
        FilterCmd::SendResponseCode { endpoint: CLIENT, code: ResponseCode::Accepted },
        0,
    );
    assert_eq!(refused.unwrap_err(), FilterError::SequenceExhausted);
}

#[test]
fn peer_disconnect_closes_the_session() {
    let mut filter = Filter::new(FilterMode::Server, server_config());
    setup_server(&mut filter);
    let bye = Packet::Request {
        sequence: 2,
        response_ack: Some(1),
        cookie: Some("fakecookie".to_owned()),
        action: RequestAction::Disconnect,
    };
    let step = deliver(&mut filter, CLIENT, bye);
    assert_eq!(step.app_notices.len(), 1);
    assert!(matches!(
        &step.app_notices[0],
        FilterNotice::NewRequestAction { action: RequestAction::Disconnect, .. }
    ));
    assert_eq!(filter.session_phase(CLIENT), Some(SessionPhase::Closing));
    // Everything is acknowledged, so the next scan reaps the session.
    filter.tick(10);
    assert_eq!(filter.session_count(), 0);
}
