//! The filter engine: the command/notification/event core of the
//! reliability layer.
//!
//! A [`Filter`] owns one [`Session`] per remote endpoint. Fed one transport
//! notification, one application command or one timer tick at a time, it
//! updates its sessions and returns the transport commands and application
//! notices that the input produced. The caller owns the channels and the
//! clock; the engine is a deterministic state machine over plain values,
//! which is what makes it verifiable end to end.

use vstd::prelude::*;

use crate::protocol::{packet_sequence, Endpoint, Packet, RequestAction, ResponseCode};
use crate::session::{
    observed_high, spec_classify, InflightEntry, SeqClassification, Session, SessionPhase,
};

verus! {

/// Which side of the protocol this engine drives. The two modes differ only
/// in handshake direction and in how many concurrent sessions are expected.
#[derive(Clone, Copy, Debug, PartialEq, Eq, Structural)]
pub enum FilterMode {
    Server,
    Client,
}

/// Whether the engine is accepting work, draining in-flight packets after a
/// graceful shutdown request, or fully stopped.
#[derive(Clone, Copy, Debug, PartialEq, Eq, Structural)]
pub enum RunState {
    Running,
    Draining,
    Stopped,
}

/// Timing and policy knobs; none of them is hardcoded in the engine.
pub struct FilterConfig {
    /// How long a sent packet may wait unacknowledged before it is resent.
    pub retry_interval_ms: u64,
    /// How many retransmissions a packet is allowed before its endpoint is
    /// declared failed.
    pub max_retries: u32,
    /// Version string stamped into login responses.
    pub server_version: String,
    /// Client versions the compatibility policy admits.
    pub supported_versions: Vec<String>,
}

/// Why an application command was refused. Refusals are explicit results;
/// nothing in the engine panics or tears the process down.
#[derive(Clone, Copy, Debug, PartialEq, Eq, Structural)]
pub enum FilterError {
    /// A send command arrived after shutdown was requested.
    ShutdownInProgress,
    /// A login response named an endpoint that was never observed.
    UnknownEndpoint,
    /// A login response was issued for a session that is not mid-handshake.
    UnexpectedPhase,
    /// A login response carried an empty cookie.
    InvalidCookie,
    /// The session's outbound sequence counter cannot advance further.
    SequenceExhausted,
}

/// Commands the application layer issues to the engine.
#[derive(Debug, PartialEq)]
pub enum FilterCmd {
    /// Stamp, track and send a request to the endpoint (client role).
    SendRequestAction { endpoint: Endpoint, action: RequestAction },
    /// Stamp, track and send a response to the endpoint (server role).
    SendResponseCode { endpoint: Endpoint, code: ResponseCode },
    /// Stop the engine: gracefully (drain in-flight packets first) or
    /// immediately.
    Shutdown { graceful: bool },
}

/// Why an endpoint was given up on.
#[derive(Clone, Copy, Debug, PartialEq, Eq, Structural)]
pub enum FailureReason {
    /// A packet stayed unacknowledged through every allowed retry.
    RetryLimitExceeded,
}

/// Notices the engine surfaces to the application layer.
#[derive(Debug, PartialEq)]
pub enum FilterNotice {
    /// A new (never before delivered) request arrived from the endpoint.
    NewRequestAction { endpoint: Endpoint, action: RequestAction },
    /// A new response arrived from the endpoint.
    NewResponseCode { endpoint: Endpoint, code: ResponseCode },
    /// The endpoint was declared dead and its session discarded.
    EndpointFailed { endpoint: Endpoint, reason: FailureReason },
}

/// Per-send bookkeeping that accompanies each packet handed to the
/// transport; one entry per packet, in the same order.
#[derive(Clone, Copy, Debug, PartialEq, Eq, Structural)]
pub struct PacketInfo {
    /// Tracking identifier for this send attempt.
    pub tid: u64,
}

/// Commands the engine issues to the transport layer.
#[derive(Debug, PartialEq)]
pub enum TransportCmd {
    /// Send these packets to the endpoint; `packet_infos` carries one
    /// tracking identifier per packet, in the same order.
    SendPackets { endpoint: Endpoint, packets: Vec<Packet>, packet_infos: Vec<PacketInfo> },
    /// The packet sent under `tid` is acknowledged; stop holding it.
    DropPacket { endpoint: Endpoint, tid: u64 },
}

/// Replies the transport layer sends back for engine commands.
#[derive(Clone, Copy, Debug, PartialEq, Eq, Structural)]
pub enum TransportRsp {
    Accepted,
}

/// Notifications the transport layer delivers to the engine.
#[derive(Debug, PartialEq)]
pub enum TransportNotice {
    /// A packet arrived from the endpoint.
    PacketDelivery { endpoint: Endpoint, packet: Packet },
}

/// Everything one engine step produced: commands for the transport and
/// notices for the application, each in the order they were generated.
#[derive(Debug)]
pub struct FilterStep {
    pub transport_cmds: Vec<TransportCmd>,
    pub app_notices: Vec<FilterNotice>,
}

/// One endpoint's slot in the engine: its identity and its session.
pub struct SessionEntry {
    pub endpoint: Endpoint,
    pub session: Session,
}

/// Index of the entry for `endpoint`, or -1 if the endpoint is unknown.
pub open spec fn find_session(ss: Seq<SessionEntry>, endpoint: Endpoint) -> int
    decreases ss.len(),
{
    if ss.len() == 0 {
        -1
    } else if ss[0].endpoint == endpoint {
        0
    } else {
        let r = find_session(ss.drop_first(), endpoint);
        if r == -1 {
            -1
        } else {
            r + 1
        }
    }
}

/// What [`find_session`] returns: -1 exactly when no entry matches, else
/// the first matching index.
pub proof fn lemma_find_session(ss: Seq<SessionEntry>, endpoint: Endpoint)
    ensures
        -1 <= find_session(ss, endpoint) < ss.len(),
        find_session(ss, endpoint) == -1 ==> forall|j: int|
            0 <= j < ss.len() ==> (#[trigger] ss[j]).endpoint != endpoint,
        find_session(ss, endpoint) >= 0 ==> ss[find_session(ss, endpoint)].endpoint == endpoint
            && forall|j: int|
            0 <= j < find_session(ss, endpoint) ==> (#[trigger] ss[j]).endpoint != endpoint,
    decreases ss.len(),
{
    if ss.len() > 0 && ss[0].endpoint != endpoint {
        let tail = ss.drop_first();
        lemma_find_session(tail, endpoint);
        let r = find_session(tail, endpoint);
        if r == -1 {
            assert forall|j: int| 0 <= j < ss.len() implies (#[trigger] ss[j]).endpoint
                != endpoint by {
                if j > 0 {
                    assert(tail[j - 1] == ss[j]);
                }
            }
        } else {
            assert(tail[r] == ss[r + 1]);
            assert forall|j: int| 0 <= j < r + 1 implies (#[trigger] ss[j]).endpoint != endpoint by {
                if j > 0 {
                    assert(tail[j - 1] == ss[j]);
                }
            }
        }
    }
}

/// Where the entry for `endpoint` stands once the engine has made sure one
/// exists: its old slot, or a new slot at the end.
pub open spec fn target_of(ss: Seq<SessionEntry>, endpoint: Endpoint) -> int {
    let i = find_session(ss, endpoint);
    if i >= 0 {
        i
    } else {
        ss.len() as int
    }
}

/// Frame of a step that touches only `endpoint`'s entry: every other entry
/// is untouched, and the target entry (old or newly appended) carries
/// `endpoint`.
pub open spec fn sessions_with_target(
    pre: Seq<SessionEntry>,
    post: Seq<SessionEntry>,
    endpoint: Endpoint,
) -> bool {
    let i = find_session(pre, endpoint);
    if i >= 0 {
        &&& post.len() == pre.len()
        &&& forall|j: int| 0 <= j < pre.len() && j != i ==> post[j] == pre[j]
        &&& post[i].endpoint == endpoint
    } else {
        &&& post.len() == pre.len() + 1
        &&& forall|j: int| 0 <= j < pre.len() ==> post[j] == pre[j]
        &&& post[pre.len() as int].endpoint == endpoint
    }
}

/// Frame of a step that discards `endpoint`'s entry (or never created one):
/// everything else survives in order.
pub open spec fn sessions_without_target(
    pre: Seq<SessionEntry>,
    post: Seq<SessionEntry>,
    endpoint: Endpoint,
) -> bool {
    let i = find_session(pre, endpoint);
    if i >= 0 {
        post == pre.remove(i)
    } else {
        post == pre
    }
}

/// The phase a session created by an outbound command starts in: a server
/// fans out to peers that have not authenticated; a client reaches out to a
/// server it is connecting to.
pub open spec fn outbound_default_phase(mode: FilterMode) -> SessionPhase {
    match mode {
        FilterMode::Server => SessionPhase::Unauthenticated,
        FilterMode::Client => SessionPhase::Connecting,
    }
}

/// Whether every session has an empty retransmission set, i.e. nothing the
/// engine accepted is still awaiting acknowledgment.
pub open spec fn all_drained(ss: Seq<SessionEntry>) -> bool {
    forall|i: int| 0 <= i < ss.len() ==> (#[trigger] ss[i]).session.inflight@.len() == 0
}

/// Whether the compatibility policy admits a client version.
pub open spec fn spec_version_supported(versions: Seq<String>, v: Seq<char>) -> bool {
    exists|i: int| 0 <= i < versions.len() && (#[trigger] versions[i])@ == v
}

/// Whether a request's cookie proves membership in the session: both sides
/// must hold one and they must agree.
pub open spec fn cookie_ok(presented: Option<String>, held: Option<String>) -> bool {
    match (presented, held) {
        (Option::Some(a), Option::Some(b)) => a@ == b@,
        _ => false,
    }
}

/// Full effect of stamping, tracking and sending one packet to `ep`: the
/// target session (found, or created fresh) stores the packet in its
/// retransmission set under the engine's next tracking identifier, its
/// sequence counter advances by one, its phase and cookie take the given
/// values, and exactly one `SendPackets` command carries the packet out.
pub open spec fn tracked_send_post(
    pre: Filter,
    post: Filter,
    ep: Endpoint,
    new_phase: SessionPhase,
    new_cookie: Option<String>,
    pkt: Packet,
    now_ms: u64,
    step: FilterStep,
) -> bool {
    let t = target_of(pre.sessions@, ep);
    &&& sessions_with_target(pre.sessions@, post.sessions@, ep)
    &&& t < post.sessions@.len()
    &&& {
        let s1 = post.sessions@[t].session;
        &&& s1.phase == new_phase
        &&& s1.cookie == new_cookie
        &&& s1.next_send_seq == pre.target_next_seq(ep) + 1
        &&& s1.peer_ack_seq == pre.target_peer_ack(ep)
        &&& s1.highest_recv_seq == pre.target_high_recv(ep)
        &&& s1.inflight@ == pre.target_inflight(ep).push(InflightEntry {
            tid: pre.next_tid,
            sequence: pre.target_next_seq(ep),
            send_time_ms: now_ms,
            retry_count: 0,
            packet: pkt,
        })
    }
    &&& post.next_tid == pre.next_tid + 1
    &&& post.mode == pre.mode
    &&& post.config == pre.config
    &&& post.run_state == pre.run_state
    &&& step.transport_cmds@.len() == 1
    &&& (step.transport_cmds@[0] matches TransportCmd::SendPackets { endpoint, packets, packet_infos }
        && endpoint == ep && packets@ == seq![pkt] && packet_infos@ == seq![PacketInfo {
        tid: pre.next_tid,
    }])
    &&& step.app_notices@.len() == 0
}

/// Full effect of `FilterCmd::SendResponseCode`, refusals included.
pub open spec fn send_response_post(
    pre: Filter,
    post: Filter,
    ep: Endpoint,
    code: ResponseCode,
    now_ms: u64,
    r: Result<FilterStep, FilterError>,
) -> bool {
    if pre.run_state != RunState::Running {
        &&& r == Err::<FilterStep, FilterError>(FilterError::ShutdownInProgress)
        &&& post == pre
    } else {
        let dflt = outbound_default_phase(pre.mode);
        match code {
            ResponseCode::LoggedIn { cookie, server_version } => {
                if find_session(pre.sessions@, ep) == -1 {
                    &&& r == Err::<FilterStep, FilterError>(FilterError::UnknownEndpoint)
                    &&& post == pre
                } else if pre.target_phase(ep, dflt) != SessionPhase::Connecting {
                    &&& r == Err::<FilterStep, FilterError>(FilterError::UnexpectedPhase)
                    &&& post == pre
                } else if cookie@.len() == 0 {
                    &&& r == Err::<FilterStep, FilterError>(FilterError::InvalidCookie)
                    &&& post == pre
                } else if pre.target_next_seq(ep) == u64::MAX {
                    &&& r == Err::<FilterStep, FilterError>(FilterError::SequenceExhausted)
                    &&& post == pre
                } else {
                    // Login accepted: the session is established and adopts
                    // the response's cookie as the one later requests must
                    // present.
                    &&& (r matches Ok(step) && tracked_send_post(
                        pre,
                        post,
                        ep,
                        SessionPhase::Established,
                        Option::Some(cookie),
                        Packet::Response {
                            sequence: pre.target_next_seq(ep),
                            request_ack: pre.target_high_recv(ep),
                            code: ResponseCode::LoggedIn { cookie, server_version },
                        },
                        now_ms,
                        step,
                    ))
                }
            },
            _ => {
                if pre.target_next_seq(ep) == u64::MAX {
                    &&& r == Err::<FilterStep, FilterError>(FilterError::SequenceExhausted)
                    &&& post == pre
                } else {
                    &&& (r matches Ok(step) && tracked_send_post(
                        pre,
                        post,
                        ep,
                        pre.target_phase(ep, dflt),
                        pre.target_cookie(ep),
                        Packet::Response {
                            sequence: pre.target_next_seq(ep),
                            request_ack: pre.target_high_recv(ep),
                            code,
                        },
                        now_ms,
                        step,
                    ))
                }
            },
        }
    }
}

/// Full effect of `FilterCmd::SendRequestAction`, refusals included. The
/// engine attaches the session's cookie to the outbound request.
pub open spec fn send_request_post(
    pre: Filter,
    post: Filter,
    ep: Endpoint,
    action: RequestAction,
    now_ms: u64,
    r: Result<FilterStep, FilterError>,
) -> bool {
    if pre.run_state != RunState::Running {
        &&& r == Err::<FilterStep, FilterError>(FilterError::ShutdownInProgress)
        &&& post == pre
    } else if pre.target_next_seq(ep) == u64::MAX {
        &&& r == Err::<FilterStep, FilterError>(FilterError::SequenceExhausted)
        &&& post == pre
    } else {
        let dflt = outbound_default_phase(pre.mode);
        &&& (r matches Ok(step) && tracked_send_post(
            pre,
            post,
            ep,
            pre.target_phase(ep, dflt),
            pre.target_cookie(ep),
            Packet::Request {
                sequence: pre.target_next_seq(ep),
                response_ack: pre.target_high_recv(ep),
                cookie: pre.target_cookie(ep),
                action,
            },
            now_ms,
            step,
        ))
    }
}

/// The acknowledgment a request carries beyond its envelope field: a
/// keep-alive's own high-water mark.
pub open spec fn request_second_ack(action: RequestAction) -> Option<u64> {
    match action {
        RequestAction::KeepAlive { latest_response_ack } => Option::Some(latest_response_ack),
        _ => Option::None,
    }
}

/// A retransmission set after folding in up to two acknowledgments, the
/// first from the packet envelope, the second from a keep-alive payload.
pub open spec fn inflight_after_acks(
    inf: Seq<InflightEntry>,
    a1: Option<u64>,
    a2: Option<u64>,
) -> Seq<InflightEntry> {
    let inf1 = match a1 {
        Option::Some(a) => crate::session::kept(inf, a),
        Option::None => inf,
    };
    match a2 {
        Option::Some(a) => crate::session::kept(inf1, a),
        Option::None => inf1,
    }
}

/// The tracking identifiers freed by up to two acknowledgments, in the
/// order they leave the retransmission set. An entry freed by the first
/// acknowledgment is gone before the second is folded in, so no identifier
/// appears twice.
pub open spec fn drops_after_acks(inf: Seq<InflightEntry>, a1: Option<u64>, a2: Option<u64>) -> Seq<
    u64,
> {
    let d1 = match a1 {
        Option::Some(a) => crate::session::dropped_tids(inf, a),
        Option::None => Seq::<u64>::empty(),
    };
    let inf1 = match a1 {
        Option::Some(a) => crate::session::kept(inf, a),
        Option::None => inf,
    };
    let d2 = match a2 {
        Option::Some(a) => crate::session::dropped_tids(inf1, a),
        Option::None => Seq::<u64>::empty(),
    };
    d1 + d2
}

/// The highest peer acknowledgment after folding in up to two of them.
pub open spec fn peer_ack_after(p: Option<u64>, a1: Option<u64>, a2: Option<u64>) -> Option<u64> {
    let p1 = match a1 {
        Option::Some(a) => crate::session::raised_ack(p, a),
        Option::None => p,
    };
    match a2 {
        Option::Some(a) => crate::session::raised_ack(p1, a),
        Option::None => p1,
    }
}

/// Whatever survives the acknowledgments was already in flight, and a valid
/// retransmission set stays valid.
pub proof fn lemma_acks_containment(
    inf: Seq<InflightEntry>,
    a1: Option<u64>,
    a2: Option<u64>,
    seq_bound: u64,
)
    ensures
        forall|k: int|
            0 <= k < inflight_after_acks(inf, a1, a2).len() ==> inf.contains(
                #[trigger] inflight_after_acks(inf, a1, a2)[k],
            ),
        crate::session::entries_wf(inf, seq_bound) ==> crate::session::entries_wf(
            inflight_after_acks(inf, a1, a2),
            seq_bound,
        ),
{
    let inf1 = match a1 {
        Option::Some(a) => crate::session::kept(inf, a),
        Option::None => inf,
    };
    let inf2 = inflight_after_acks(inf, a1, a2);
    match a1 {
        Option::Some(a) => crate::session::lemma_kept_entries(inf, a, seq_bound),
        Option::None => (),
    }
    match a2 {
        Option::Some(a) => crate::session::lemma_kept_entries(inf1, a, seq_bound),
        Option::None => (),
    }
    assert forall|k: int| 0 <= k < inf2.len() implies inf.contains(#[trigger] inf2[k]) by {
        if a2 is Some {
            assert(inf1.contains(inf2[k]));
            let m = choose|m: int| 0 <= m < inf1.len() && inf1[m] == inf2[k];
            if a1 is Some {
                assert(inf.contains(inf1[m]));
            } else {
                assert(inf[m] == inf2[k]);
            }
        } else {
            if a1 is Some {
                assert(inf.contains(inf2[k]));
            } else {
                assert(inf[k] == inf2[k]);
            }
        }
    }
}

/// Law: one `DropPacket` is emitted per removed entry and never two for the
/// same tracking identifier, also when one packet carries two
/// acknowledgments: whatever the first acknowledgment removes is gone
/// before the second is folded in.
pub proof fn lemma_drops_distinct(
    inf: Seq<InflightEntry>,
    a1: Option<u64>,
    a2: Option<u64>,
    seq_bound: u64,
)
    requires
        crate::session::entries_wf(inf, seq_bound),
    ensures
        forall|a: int, b: int|
            0 <= a < b < drops_after_acks(inf, a1, a2).len() ==> drops_after_acks(inf, a1, a2)[a]
                != drops_after_acks(inf, a1, a2)[b],
{
    let d = drops_after_acks(inf, a1, a2);
    match a1 {
        Option::None => {
            match a2 {
                Option::None => {},
                Option::Some(x2) => {
                    crate::session::lemma_dropped_tids_from_entries(inf, x2, seq_bound);
                    let d2 = crate::session::dropped_tids(inf, x2);
                    assert forall|a: int, b: int| 0 <= a < b < d.len() implies d[a] != d[b] by {
                        assert(d[a] == d2[a] && d[b] == d2[b]);
                    }
                },
            }
        },
        Option::Some(x1) => {
            let d1 = crate::session::dropped_tids(inf, x1);
            let inf1 = crate::session::kept(inf, x1);
            crate::session::lemma_dropped_tids_from_entries(inf, x1, seq_bound);
            crate::session::lemma_kept_entries(inf, x1, seq_bound);
            match a2 {
                Option::None => {
                    assert forall|a: int, b: int| 0 <= a < b < d.len() implies d[a] != d[b] by {
                        assert(d[a] == d1[a] && d[b] == d1[b]);
                    }
                },
                Option::Some(x2) => {
                    crate::session::lemma_dropped_tids_from_entries(inf1, x2, seq_bound);
                    let d2 = crate::session::dropped_tids(inf1, x2);
                    assert forall|a: int, b: int| 0 <= a < b < d.len() implies d[a] != d[b] by {
                        if b < d1.len() {
                            assert(d[a] == d1[a] && d[b] == d1[b]);
                        } else if a >= d1.len() {
                            assert(d[a] == d2[a - d1.len()] && d[b] == d2[b - d1.len()]);
                        } else {
                            // One identifier freed by each acknowledgment:
                            // the first came from an entry at or below `x1`,
                            // the second from one the first acknowledgment
                            // kept, i.e. above `x1`; distinct entries carry
                            // distinct identifiers.
                            assert(d[a] == d1[a] && d[b] == d2[b - d1.len()]);
                            assert(crate::session::holds_dropped_tid(inf, d1[a], x1));
                            let i = choose|i: int|
                                0 <= i < inf.len() && (#[trigger] inf[i]).tid == d1[a]
                                    && inf[i].sequence <= x1;
                            assert(crate::session::holds_dropped_tid(inf1, d2[b - d1.len()], x2));
                            let k = choose|k: int|
                                0 <= k < inf1.len() && (#[trigger] inf1[k]).tid == d2[b - d1.len()]
                                    && inf1[k].sequence <= x2;
                            assert(inf.contains(inf1[k]));
                            let m = choose|m: int| 0 <= m < inf.len() && inf[m] == inf1[k];
                            assert(inf1[k].sequence > x1);
                            assert(m != i);
                            assert(inf[i].tid != inf[m].tid);
                        }
                    }
                },
            }
        },
    }
}

/// Full effect of one inbound request on the engine. The packet is
/// classified against the session's receive history; acknowledgments evict
/// in-flight packets (each eviction paired with one `DropPacket`); the
/// handshake and cookie policy decide whether the action is surfaced to the
/// application, answered with a rejection, or silently absorbed.
pub open spec fn deliver_request_post(
    pre: Filter,
    post: Filter,
    ep: Endpoint,
    sequence: u64,
    response_ack: Option<u64>,
    cookie: Option<String>,
    action: RequestAction,
    step: FilterStep,
) -> bool {
    let t = target_of(pre.sessions@, ep);
    let phase0 = pre.target_phase(ep, SessionPhase::Unauthenticated);
    let c = spec_classify(pre.target_high_recv(ep), sequence);
    &&& post.mode == pre.mode
    &&& post.config == pre.config
    &&& post.run_state == pre.run_state
    &&& if pre.run_state == RunState::Stopped {
        &&& post == pre
        &&& step.transport_cmds@.len() == 0
        &&& step.app_notices@.len() == 0
    } else {
        match action {
            RequestAction::Connect { name, client_version } => {
                if c == SeqClassification::Duplicate {
                    // A retransmitted handshake: the response it is waiting
                    // for sits in the retransmission set and the timer will
                    // resend it.
                    &&& post == pre
                    &&& step.transport_cmds@.len() == 0
                    &&& step.app_notices@.len() == 0
                } else if phase0 == SessionPhase::Unauthenticated {
                    if spec_version_supported(pre.config.supported_versions@, client_version@) {
                        &&& sessions_with_target(pre.sessions@, post.sessions@, ep)
                        &&& t < post.sessions@.len()
                        &&& {
                            let s1 = post.sessions@[t].session;
                            &&& s1.phase == SessionPhase::Connecting
                            &&& s1.next_send_seq == pre.target_next_seq(ep)
                            &&& s1.peer_ack_seq == pre.target_peer_ack(ep)
                            &&& s1.highest_recv_seq == observed_high(
                                pre.target_high_recv(ep),
                                sequence,
                            )
                            &&& s1.cookie == pre.target_cookie(ep)
                            &&& s1.inflight@ == pre.target_inflight(ep)
                        }
                        &&& post.next_tid == pre.next_tid
                        &&& step.transport_cmds@.len() == 0
                        &&& step.app_notices@ == seq![
                            FilterNotice::NewRequestAction {
                                endpoint: ep,
                                action: RequestAction::Connect { name, client_version },
                            },
                        ]
                    } else {
                        // Version refused: reject the peer and forget it.
                        &&& sessions_without_target(pre.sessions@, post.sessions@, ep)
                        &&& step.app_notices@.len() == 0
                        &&& if pre.target_next_seq(ep) < u64::MAX {
                            &&& post.next_tid == pre.next_tid + 1
                            &&& step.transport_cmds@.len() == 1
                            &&& (step.transport_cmds@[0] matches TransportCmd::SendPackets {
                                endpoint,
                                packets,
                                packet_infos,
                            } && endpoint == ep && packets@ == seq![
                                Packet::Response {
                                    sequence: pre.target_next_seq(ep),
                                    request_ack: Option::Some(sequence),
                                    code: ResponseCode::IncompatibleVersion,
                                },
                            ] && packet_infos@ == seq![PacketInfo { tid: pre.next_tid }])
                        } else {
                            &&& post.next_tid == pre.next_tid
                            &&& step.transport_cmds@.len() == 0
                        }
                    }
                } else {
                    // A fresh Connect on a session already past the
                    // handshake: absorbed; only the high-water mark moves.
                    &&& sessions_with_target(pre.sessions@, post.sessions@, ep)
                    &&& t < post.sessions@.len()
                    &&& {
                        let s1 = post.sessions@[t].session;
                        &&& s1.phase == phase0
                        &&& s1.next_send_seq == pre.target_next_seq(ep)
                        &&& s1.peer_ack_seq == pre.target_peer_ack(ep)
                        &&& s1.highest_recv_seq == observed_high(pre.target_high_recv(ep), sequence)
                        &&& s1.cookie == pre.target_cookie(ep)
                        &&& s1.inflight@ == pre.target_inflight(ep)
                    }
                    &&& post.next_tid == pre.next_tid
                    &&& step.transport_cmds@.len() == 0
                    &&& step.app_notices@.len() == 0
                }
            },
            _ => {
                if phase0 == SessionPhase::Established && cookie_ok(cookie, pre.target_cookie(ep)) {
                    let a2 = request_second_ack(action);
                    let inf0 = pre.target_inflight(ep);
                    let drops = drops_after_acks(inf0, response_ack, a2);
                    &&& sessions_with_target(pre.sessions@, post.sessions@, ep)
                    &&& t < post.sessions@.len()
                    &&& {
                        let s1 = post.sessions@[t].session;
                        &&& s1.phase == (if action is Disconnect && c != SeqClassification::Duplicate {
                            SessionPhase::Closing
                        } else {
                            SessionPhase::Established
                        })
                        &&& s1.next_send_seq == pre.target_next_seq(ep)
                        &&& s1.peer_ack_seq == peer_ack_after(
                            pre.target_peer_ack(ep),
                            response_ack,
                            a2,
                        )
                        &&& s1.highest_recv_seq == observed_high(pre.target_high_recv(ep), sequence)
                        &&& s1.cookie == pre.target_cookie(ep)
                        &&& s1.inflight@ == inflight_after_acks(inf0, response_ack, a2)
                    }
                    &&& post.next_tid == pre.next_tid
                    &&& step.transport_cmds@.len() == drops.len()
                    &&& forall|j: int|
                        0 <= j < drops.len() ==> step.transport_cmds@[j] == (TransportCmd::DropPacket {
                            endpoint: ep,
                            tid: drops[j],
                        })
                    &&& step.app_notices@ == (if c == SeqClassification::Duplicate || action is KeepAlive {
                        Seq::<FilterNotice>::empty()
                    } else {
                        seq![FilterNotice::NewRequestAction { endpoint: ep, action }]
                    })
                } else {
                    // Not authenticated for this action: answer with a
                    // rejection; the session (created if need be) remains.
                    &&& sessions_with_target(pre.sessions@, post.sessions@, ep)
                    &&& t < post.sessions@.len()
                    &&& {
                        let s1 = post.sessions@[t].session;
                        &&& s1.phase == phase0
                        &&& s1.next_send_seq == (if pre.target_next_seq(ep) < u64::MAX {
                            (pre.target_next_seq(ep) + 1) as u64
                        } else {
                            pre.target_next_seq(ep)
                        })
                        &&& s1.peer_ack_seq == pre.target_peer_ack(ep)
                        &&& s1.highest_recv_seq == pre.target_high_recv(ep)
                        &&& s1.cookie == pre.target_cookie(ep)
                        &&& s1.inflight@ == pre.target_inflight(ep)
                    }
                    &&& step.app_notices@.len() == 0
                    &&& if pre.target_next_seq(ep) < u64::MAX {
                        &&& post.next_tid == pre.next_tid + 1
                        &&& step.transport_cmds@.len() == 1
                        &&& (step.transport_cmds@[0] matches TransportCmd::SendPackets {
                            endpoint,
                            packets,
                            packet_infos,
                        } && endpoint == ep && packets@ == seq![
                            Packet::Response {
                                sequence: pre.target_next_seq(ep),
                                request_ack: Option::None,
                                code: ResponseCode::Unauthorized,
                            },
                        ] && packet_infos@ == seq![PacketInfo { tid: pre.next_tid }])
                    } else {
                        &&& post.next_tid == pre.next_tid
                        &&& step.transport_cmds@.len() == 0
                    }
                }
            },
        }
    }
}

/// Full effect of one inbound response on the engine: acknowledgment
/// reconciliation, classification, the client side of the handshake, and
/// delivery of new responses to the application.
pub open spec fn deliver_response_post(
    pre: Filter,
    post: Filter,
    ep: Endpoint,
    sequence: u64,
    request_ack: Option<u64>,
    code: ResponseCode,
    step: FilterStep,
) -> bool {
    let t = target_of(pre.sessions@, ep);
    let phase0 = pre.target_phase(ep, SessionPhase::Unauthenticated);
    let c = spec_classify(pre.target_high_recv(ep), sequence);
    let inf0 = pre.target_inflight(ep);
    let drops = drops_after_acks(inf0, request_ack, Option::None);
    let logging_in = c != SeqClassification::Duplicate && phase0 == SessionPhase::Connecting
        && code is LoggedIn;
    &&& post.mode == pre.mode
    &&& post.config == pre.config
    &&& post.run_state == pre.run_state
    &&& post.next_tid == pre.next_tid
    &&& if pre.run_state == RunState::Stopped {
        &&& post == pre
        &&& step.transport_cmds@.len() == 0
        &&& step.app_notices@.len() == 0
    } else {
        &&& sessions_with_target(pre.sessions@, post.sessions@, ep)
        &&& t < post.sessions@.len()
        &&& {
            let s1 = post.sessions@[t].session;
            &&& s1.phase == (if logging_in {
                SessionPhase::Established
            } else {
                phase0
            })
            &&& s1.cookie == (if logging_in {
                match code {
                    ResponseCode::LoggedIn { cookie, .. } => Option::Some(cookie),
                    _ => pre.target_cookie(ep),
                }
            } else {
                pre.target_cookie(ep)
            })
            &&& s1.next_send_seq == pre.target_next_seq(ep)
            &&& s1.peer_ack_seq == peer_ack_after(pre.target_peer_ack(ep), request_ack, Option::None)
            &&& s1.highest_recv_seq == observed_high(pre.target_high_recv(ep), sequence)
            &&& s1.inflight@ == inflight_after_acks(inf0, request_ack, Option::None)
        }
        &&& step.transport_cmds@.len() == drops.len()
        &&& forall|j: int|
            0 <= j < drops.len() ==> step.transport_cmds@[j] == (TransportCmd::DropPacket {
                endpoint: ep,
                tid: drops[j],
            })
        &&& step.app_notices@ == (if c == SeqClassification::Duplicate {
            Seq::<FilterNotice>::empty()
        } else {
            seq![FilterNotice::NewResponseCode { endpoint: ep, code }]
        })
    }
}

/// Full effect of one transport notification.
pub open spec fn deliver_post(
    pre: Filter,
    post: Filter,
    ep: Endpoint,
    packet: Packet,
    step: FilterStep,
) -> bool {
    match packet {
        Packet::Request { sequence, response_ack, cookie, action } => deliver_request_post(
            pre,
            post,
            ep,
            sequence,
            response_ack,
            cookie,
            action,
            step,
        ),
        Packet::Response { sequence, request_ack, code } => deliver_response_post(
            pre,
            post,
            ep,
            sequence,
            request_ack,
            code,
            step,
        ),
    }
}

/// Whether some packet of this entry is due past its whole retry budget,
/// which marks the endpoint as failed.
pub open spec fn entry_exhausted(e: SessionEntry, now_ms: u64, itv: u64, max: u32) -> bool {
    crate::session::any_exhausted(e.session.inflight@, now_ms, itv, max)
}

/// A session that asked to close and has nothing left awaiting
/// acknowledgment: it is silently reaped.
pub open spec fn entry_drained_closing(e: SessionEntry) -> bool {
    e.session.phase == SessionPhase::Closing && e.session.inflight@.len() == 0
}

/// Whether a session outlives a retry scan.
pub open spec fn entry_survives(e: SessionEntry, now_ms: u64, itv: u64, max: u32) -> bool {
    !entry_exhausted(e, now_ms, itv, max) && !entry_drained_closing(e)
}

/// Total number of packets awaiting acknowledgment across a session table.
pub open spec fn total_inflight(ss: Seq<SessionEntry>) -> int
    decreases ss.len(),
{
    if ss.len() == 0 {
        0
    } else {
        ss[0].session.inflight@.len() + total_inflight(ss.drop_first())
    }
}

/// How many fresh tracking identifiers one retry scan consumes: one per due
/// packet of each surviving session, in table order.
pub open spec fn tick_spent(ss: Seq<SessionEntry>, now_ms: u64, itv: u64, max: u32) -> int
    decreases ss.len(),
{
    if ss.len() == 0 {
        0
    } else {
        tick_spent(ss.drop_last(), now_ms, itv, max) + if entry_survives(
            ss.last(),
            now_ms,
            itv,
            max,
        ) {
            crate::session::due_count(ss.last().session.inflight@, now_ms, itv)
        } else {
            0
        }
    }
}

/// How one retry scan transforms the session table: exhausted endpoints and
/// drained closing sessions disappear; every other session survives in
/// order with its retransmission set rewritten by [`retried`]
/// (fresh identifiers assigned consecutively across sessions) and every
/// other field untouched.
pub open spec fn tick_rel(
    pre: Seq<SessionEntry>,
    post: Seq<SessionEntry>,
    now_ms: u64,
    itv: u64,
    max: u32,
    tid0: u64,
) -> bool
    decreases pre.len(),
{
    if pre.len() == 0 {
        post.len() == 0
    } else {
        let e = pre.last();
        if entry_survives(e, now_ms, itv, max) {
            &&& post.len() >= 1
            &&& {
                let p = post.last();
                &&& p.endpoint == e.endpoint
                &&& p.session.phase == e.session.phase
                &&& p.session.next_send_seq == e.session.next_send_seq
                &&& p.session.peer_ack_seq == e.session.peer_ack_seq
                &&& p.session.highest_recv_seq == e.session.highest_recv_seq
                &&& p.session.cookie == e.session.cookie
                &&& p.session.inflight@ == crate::session::retried(
                    e.session.inflight@,
                    now_ms,
                    itv,
                    (tid0 + tick_spent(pre.drop_last(), now_ms, itv, max)) as u64,
                )
            }
            &&& tick_rel(pre.drop_last(), post.drop_last(), now_ms, itv, max, tid0)
        } else {
            tick_rel(pre.drop_last(), post, now_ms, itv, max, tid0)
        }
    }
}

/// Everything one retry scan resends: for each surviving session in table
/// order, each due packet under its fresh tracking identifier.
pub open spec fn tick_resends(
    ss: Seq<SessionEntry>,
    now_ms: u64,
    itv: u64,
    max: u32,
    tid0: u64,
) -> Seq<(Endpoint, u64, Packet)>
    decreases ss.len(),
{
    if ss.len() == 0 {
        Seq::empty()
    } else {
        let prefix = tick_resends(ss.drop_last(), now_ms, itv, max, tid0);
        let e = ss.last();
        if entry_survives(e, now_ms, itv, max) {
            prefix + crate::session::resends(
                e.session.inflight@,
                now_ms,
                itv,
                (tid0 + tick_spent(ss.drop_last(), now_ms, itv, max)) as u64,
            ).map_values(|p: (u64, Packet)| (e.endpoint, p.0, p.1))
        } else {
            prefix
        }
    }
}

/// The endpoints one retry scan gives up on, in table order; each is
/// reported exactly once, in the same scan that discards its session.
pub open spec fn tick_failures(ss: Seq<SessionEntry>, now_ms: u64, itv: u64, max: u32) -> Seq<
    Endpoint,
>
    decreases ss.len(),
{
    if ss.len() == 0 {
        Seq::empty()
    } else {
        let prefix = tick_failures(ss.drop_last(), now_ms, itv, max);
        if entry_exhausted(ss.last(), now_ms, itv, max) {
            prefix.push(ss.last().endpoint)
        } else {
            prefix
        }
    }
}

/// A retry scan consumes no more identifiers than there are packets in
/// flight.
pub proof fn lemma_tick_spent_bounds(ss: Seq<SessionEntry>, now_ms: u64, itv: u64, max: u32)
    ensures
        0 <= tick_spent(ss, now_ms, itv, max) <= total_inflight(ss),
    decreases ss.len(),
{
    if ss.len() > 0 {
        lemma_tick_spent_bounds(ss.drop_last(), now_ms, itv, max);
        crate::session::lemma_due_count_bounds(ss.last().session.inflight@, now_ms, itv);
        lemma_total_inflight_last(ss);
    }
}

/// Splitting off the last session splits the in-flight total.
pub proof fn lemma_total_inflight_last(ss: Seq<SessionEntry>)
    requires
        ss.len() > 0,
    ensures
        total_inflight(ss) == total_inflight(ss.drop_last()) + ss.last().session.inflight@.len(),
    decreases ss.len(),
{
    if ss.len() == 1 {
        assert(ss.drop_last() =~= Seq::<SessionEntry>::empty());
        assert(total_inflight(ss.drop_last()) == 0);
        assert(ss.drop_first() =~= Seq::<SessionEntry>::empty());
        assert(total_inflight(ss) == ss[0].session.inflight@.len() + total_inflight(
            ss.drop_first(),
        ));
        assert(ss.last() == ss[0]);
    } else {
        lemma_total_inflight_last(ss.drop_first());
        assert(ss.drop_first().drop_last() =~= ss.drop_last().drop_first());
        assert(ss.drop_first().last() == ss.last());
        assert(ss.drop_last()[0] == ss[0]);
        assert(ss.drop_last().len() > 0);
        assert(total_inflight(ss.drop_last()) == ss.drop_last()[0].session.inflight@.len()
            + total_inflight(ss.drop_last().drop_first()));
        assert(total_inflight(ss) == ss[0].session.inflight@.len() + total_inflight(
            ss.drop_first(),
        ));
        assert(total_inflight(ss.drop_first()) == total_inflight(ss.drop_first().drop_last())
            + ss.drop_first().last().session.inflight@.len());
    }
}

/// Full effect of one timer tick. A stopped engine ignores the clock.
/// Otherwise every session's retransmission set is scanned: due packets are
/// resent verbatim under fresh tracking identifiers, endpoints past their
/// retry budget are reported failed exactly once and dropped, drained
/// closing sessions are reaped, and a draining engine stops once nothing is
/// left in flight.
pub open spec fn tick_post(pre: Filter, post: Filter, now_ms: u64, step: FilterStep) -> bool {
    let itv = pre.config.retry_interval_ms;
    let max = pre.config.max_retries;
    let rs = tick_resends(pre.sessions@, now_ms, itv, max, pre.next_tid);
    let fs = tick_failures(pre.sessions@, now_ms, itv, max);
    &&& post.mode == pre.mode
    &&& post.config == pre.config
    &&& if pre.run_state == RunState::Stopped {
        &&& post == pre
        &&& step.transport_cmds@.len() == 0
        &&& step.app_notices@.len() == 0
    } else {
        &&& tick_rel(pre.sessions@, post.sessions@, now_ms, itv, max, pre.next_tid)
        &&& post.next_tid == pre.next_tid + tick_spent(pre.sessions@, now_ms, itv, max)
        &&& post.run_state == (if pre.run_state == RunState::Draining && all_drained(post.sessions@) {
            RunState::Stopped
        } else {
            pre.run_state
        })
        &&& step.transport_cmds@.len() == rs.len()
        &&& forall|q: int|
            0 <= q < rs.len() ==> (#[trigger] step.transport_cmds@[q] matches TransportCmd::SendPackets {
                endpoint,
                packets,
                packet_infos,
            } && endpoint == rs[q].0 && packets@ == seq![rs[q].2] && packet_infos@ == seq![
                PacketInfo { tid: rs[q].1 },
            ])
        &&& step.app_notices@.len() == fs.len()
        &&& forall|q: int|
            0 <= q < fs.len() ==> step.app_notices@[q] == (FilterNotice::EndpointFailed {
                endpoint: fs[q],
                reason: FailureReason::RetryLimitExceeded,
            })
    }
}

/// Full effect of `FilterCmd::Shutdown`. An immediate shutdown stops at
/// once and discards every session, waiting for nothing. A graceful one
/// stops only once every accepted packet has left the retransmission sets;
/// until then the engine drains. Repeating the command is safe.
pub open spec fn shutdown_post(
    pre: Filter,
    post: Filter,
    graceful: bool,
    r: Result<FilterStep, FilterError>,
) -> bool {
    &&& post.mode == pre.mode
    &&& post.config == pre.config
    &&& post.next_tid == pre.next_tid
    &&& if graceful {
        &&& post.sessions@ == pre.sessions@
        &&& post.run_state == (if all_drained(pre.sessions@) {
            RunState::Stopped
        } else {
            RunState::Draining
        })
    } else {
        &&& post.sessions@.len() == 0
        &&& post.run_state == RunState::Stopped
    }
    &&& (r matches Ok(step) && step.transport_cmds@.len() == 0 && step.app_notices@.len() == 0)
}

/// Internal consistency of an engine's session table against its
/// tracking-identifier counter: endpoints pairwise distinct, every session
/// internally valid, every identifier in flight below the counter.
pub open spec fn engine_wf(ss: Seq<SessionEntry>, next_tid: u64) -> bool {
    &&& forall|i: int, j: int|
        0 <= i < j < ss.len() ==> (#[trigger] ss[i]).endpoint != (#[trigger] ss[j]).endpoint
    &&& forall|i: int| 0 <= i < ss.len() ==> (#[trigger] ss[i]).session.wf()
    &&& forall|i: int, k: int|
        0 <= i < ss.len() && 0 <= k < ss[i].session.inflight@.len() ==> (#[trigger] ss[i].session.inflight@[k]).tid
            < next_tid
}

/// Replacing one entry with a valid session for the same endpoint, while
/// the counter does not shrink, keeps the table valid.
pub proof fn lemma_engine_wf_update(ss: Seq<SessionEntry>, e: SessionEntry, i: int, t0: u64, t1: u64)
    requires
        engine_wf(ss, t0),
        0 <= i < ss.len(),
        t0 <= t1,
        e.endpoint == ss[i].endpoint,
        e.session.wf(),
        forall|k: int|
            0 <= k < e.session.inflight@.len() ==> (#[trigger] e.session.inflight@[k]).tid < t1,
    ensures
        engine_wf(ss.update(i, e), t1),
{
    let post = ss.update(i, e);
    assert forall|a: int, b: int| 0 <= a < b < post.len() implies (#[trigger] post[a]).endpoint != (
    #[trigger] post[b]).endpoint by {
        assert(post[a].endpoint == ss[a].endpoint);
        assert(post[b].endpoint == ss[b].endpoint);
    }
    assert forall|a: int| 0 <= a < post.len() implies (#[trigger] post[a]).session.wf() by {
        if a != i {
            assert(post[a] == ss[a]);
        }
    }
    assert forall|a: int, k: int|
        0 <= a < post.len() && 0 <= k < post[a].session.inflight@.len() implies (
    #[trigger] post[a].session.inflight@[k]).tid < t1 by {
        if a != i {
            assert(post[a] == ss[a]);
            assert(ss[a].session.inflight@[k].tid < t0);
        }
    }
}

/// Discarding one entry keeps the table valid, also against a counter that
/// has moved on.
pub proof fn lemma_engine_wf_remove(ss: Seq<SessionEntry>, i: int, t: u64, t1: u64)
    requires
        engine_wf(ss, t),
        0 <= i < ss.len(),
        t <= t1,
    ensures
        engine_wf(ss.remove(i), t1),
{
    let post = ss.remove(i);
    assert forall|a: int, b: int| 0 <= a < b < post.len() implies (#[trigger] post[a]).endpoint != (
    #[trigger] post[b]).endpoint by {
        let a0 = if a < i { a } else { a + 1 };
        let b0 = if b < i { b } else { b + 1 };
        assert(post[a] == ss[a0] && post[b] == ss[b0]);
    }
    assert forall|a: int| 0 <= a < post.len() implies (#[trigger] post[a]).session.wf() by {
        let a0 = if a < i { a } else { a + 1 };
        assert(post[a] == ss[a0]);
    }
    assert forall|a: int, k: int|
        0 <= a < post.len() && 0 <= k < post[a].session.inflight@.len() implies (
    #[trigger] post[a].session.inflight@[k]).tid < t1 by {
        let a0 = if a < i { a } else { a + 1 };
        assert(post[a] == ss[a0]);
        assert(ss[a0].session.inflight@[k].tid < t);
    }
}

/// The reliability engine: every session, the tracking-identifier counter,
/// and the shutdown state.
pub struct Filter {
    pub mode: FilterMode,
    pub config: FilterConfig,
    /// One entry per live endpoint; endpoints pairwise distinct.
    pub sessions: Vec<SessionEntry>,
    /// Next fresh transport-tracking identifier; every identifier in flight
    /// lies below it.
    pub next_tid: u64,
    pub run_state: RunState,
}

impl Filter {
    /// The target session's phase before a step (`dflt` for an unseen
    /// endpoint).
    pub open spec fn target_phase(self, ep: Endpoint, dflt: SessionPhase) -> SessionPhase {
        let i = find_session(self.sessions@, ep);
        if i >= 0 {
            self.sessions@[i].session.phase
        } else {
            dflt
        }
    }

    /// The target session's next outbound sequence before a step (1 for an
    /// unseen endpoint).
    pub open spec fn target_next_seq(self, ep: Endpoint) -> u64 {
        let i = find_session(self.sessions@, ep);
        if i >= 0 {
            self.sessions@[i].session.next_send_seq
        } else {
            1
        }
    }

    /// The target session's highest peer acknowledgment before a step.
    pub open spec fn target_peer_ack(self, ep: Endpoint) -> Option<u64> {
        let i = find_session(self.sessions@, ep);
        if i >= 0 {
            self.sessions@[i].session.peer_ack_seq
        } else {
            Option::None
        }
    }

    /// The target session's highest received sequence before a step.
    pub open spec fn target_high_recv(self, ep: Endpoint) -> Option<u64> {
        let i = find_session(self.sessions@, ep);
        if i >= 0 {
            self.sessions@[i].session.highest_recv_seq
        } else {
            Option::None
        }
    }

    /// The target session's cookie before a step.
    pub open spec fn target_cookie(self, ep: Endpoint) -> Option<String> {
        let i = find_session(self.sessions@, ep);
        if i >= 0 {
            self.sessions@[i].session.cookie
        } else {
            Option::None
        }
    }

    /// The target session's retransmission set before a step.
    pub open spec fn target_inflight(self, ep: Endpoint) -> Seq<InflightEntry> {
        let i = find_session(self.sessions@, ep);
        if i >= 0 {
            self.sessions@[i].session.inflight@
        } else {
            Seq::empty()
        }
    }

    /// Internal consistency of the whole engine.
    pub open spec fn wf(self) -> bool {
        engine_wf(self.sessions@, self.next_tid)
    }

    /// A brand-new engine: no sessions, counter at 1, accepting work.
    pub fn new(mode: FilterMode, config: FilterConfig) -> (f: Filter)
        ensures
            f.wf(),
            f.mode == mode,
            f.config == config,
            f.sessions@.len() == 0,
            f.next_tid == 1,
            f.run_state == RunState::Running,
    {
        Filter { mode, config, sessions: Vec::new(), next_tid: 1, run_state: RunState::Running }
    }

    /// Whether the engine has fully stopped. Polling this is idempotent and
    /// it answers `true` exactly once the shutdown protocol has completed.
    pub fn shutdown_complete(&self) -> (b: bool)
        ensures
            b == (self.run_state == RunState::Stopped),
    {
        match self.run_state {
            RunState::Stopped => true,
            _ => false,
        }
    }

    /// Finds the entry for `endpoint`, creating a fresh session in
    /// `default_phase` if the endpoint was never observed, and returns its
    /// index.
    fn find_or_create(&mut self, endpoint: Endpoint, default_phase: SessionPhase) -> (i: usize)
        requires
            old(self).wf(),
        ensures
            final(self).wf(),
            *final(self) == (Filter { sessions: final(self).sessions, ..*old(self) }),
            sessions_with_target(old(self).sessions@, final(self).sessions@, endpoint),
            i as int == target_of(old(self).sessions@, endpoint),
            i < final(self).sessions@.len(),
            final(self).sessions@[i as int].endpoint == endpoint,
            find_session(old(self).sessions@, endpoint) >= 0 ==> final(self).sessions@[i as int]
                == old(self).sessions@[i as int],
            find_session(old(self).sessions@, endpoint) == -1 ==> final(self).sessions@[
                i as int
            ].session.is_fresh(default_phase),
    {
        proof {
            lemma_find_session(self.sessions@, endpoint);
        }
        let n = self.sessions.len();
        let mut i: usize = 0;
        while i < n
            invariant
                *self == *old(self),
                old(self).wf(),
                n == self.sessions@.len(),
                i <= n,
                forall|k: int| 0 <= k < i ==> (#[trigger] self.sessions@[k]).endpoint != endpoint,
            decreases n - i,
        {
            if self.sessions[i].endpoint == endpoint {
                proof {
                    lemma_find_session(self.sessions@, endpoint);
                    let f = find_session(self.sessions@, endpoint);
                    assert(f != -1);
                    if f < i as int {
                        assert(self.sessions@[f].endpoint != endpoint);
                    }
                    if f > i as int {
                        assert(self.sessions@[i as int].endpoint != endpoint);
                    }
                }
                return i;
            }
            i = i + 1;
        }
        proof {
            lemma_find_session(self.sessions@, endpoint);
            let f = find_session(self.sessions@, endpoint);
            if f >= 0 {
                assert(self.sessions@[f].endpoint != endpoint);
            }
        }
        let ghost pre = self.sessions@;
        self.sessions.push(SessionEntry { endpoint, session: Session::new(default_phase) });
        proof {
            let post = self.sessions@;
            assert forall|a: int, b: int| 0 <= a < b < post.len() implies (
            #[trigger] post[a]).endpoint != (#[trigger] post[b]).endpoint by {
                if b < pre.len() {
                    assert(post[a] == pre[a] && post[b] == pre[b]);
                } else {
                    assert(post[a] == pre[a]);
                }
            }
            assert forall|a: int| 0 <= a < post.len() implies (#[trigger] post[a]).session.wf() by {
                if a < pre.len() {
                    assert(post[a] == pre[a]);
                }
            }
            assert forall|a: int, k: int|
                0 <= a < post.len() && 0 <= k < post[a].session.inflight@.len() implies (
            #[trigger] post[a].session.inflight@[k]).tid < self.next_tid by {
                if a < pre.len() {
                    assert(post[a] == pre[a]);
                }
            }
        }
        n
    }

    /// Read-only lookup of `endpoint`'s slot.
    fn lookup(&self, endpoint: Endpoint) -> (r: Option<usize>)
        ensures
            match r {
                Option::Some(i) => i as int == find_session(self.sessions@, endpoint) && i
                    < self.sessions@.len() && self.sessions@[i as int].endpoint == endpoint,
                Option::None => find_session(self.sessions@, endpoint) == -1,
            },
    {
        let n = self.sessions.len();
        let mut i: usize = 0;
        while i < n
            invariant
                n == self.sessions@.len(),
                i <= n,
                forall|k: int| 0 <= k < i ==> (#[trigger] self.sessions@[k]).endpoint != endpoint,
            decreases n - i,
        {
            if self.sessions[i].endpoint == endpoint {
                proof {
                    lemma_find_session(self.sessions@, endpoint);
                    let f = find_session(self.sessions@, endpoint);
                    assert(f != -1);
                    if f < i as int {
                        assert(self.sessions@[f].endpoint != endpoint);
                    }
                    if f > i as int {
                        assert(self.sessions@[i as int].endpoint != endpoint);
                    }
                }
                return Some(i);
            }
            i = i + 1;
        }
        proof {
            lemma_find_session(self.sessions@, endpoint);
            let f = find_session(self.sessions@, endpoint);
            if f >= 0 {
                assert(self.sessions@[f].endpoint != endpoint);
            }
        }
        None
    }

    /// The phase a session created by an outbound command starts in.
    fn default_outbound_phase(&self) -> (p: SessionPhase)
        ensures
            p == outbound_default_phase(self.mode),
    {
        match self.mode {
            FilterMode::Server => SessionPhase::Unauthenticated,
            FilterMode::Client => SessionPhase::Connecting,
        }
    }

    /// Whether nothing anywhere is still awaiting acknowledgment.
    fn all_sessions_drained(&self) -> (b: bool)
        ensures
            b == all_drained(self.sessions@),
    {
        let n = self.sessions.len();
        let mut i: usize = 0;
        while i < n
            invariant
                n == self.sessions@.len(),
                i <= n,
                forall|k: int| 0 <= k < i ==> (#[trigger] self.sessions@[k]).session.inflight@.len() == 0,
            decreases n - i,
        {
            if self.sessions[i].session.inflight.len() > 0 {
                return false;
            }
            i = i + 1;
        }
        true
    }

    /// Stamps `packet` with the target session's next sequence, stores it
    /// for retransmission under a fresh tracking identifier, applies the
    /// session's new phase and cookie, and emits the send command.
    fn tracked_send(
        &mut self,
        endpoint: Endpoint,
        default_phase: SessionPhase,
        new_phase: SessionPhase,
        set_cookie: bool,
        new_cookie: Option<String>,
        packet: Packet,
        now_ms: u64,
    ) -> (step: FilterStep)
        requires
            old(self).wf(),
            old(self).next_tid < u64::MAX,
            old(self).target_next_seq(endpoint) < u64::MAX,
            packet_sequence(packet) == old(self).target_next_seq(endpoint),
        ensures
            final(self).wf(),
            tracked_send_post(
                *old(self),
                *final(self),
                endpoint,
                new_phase,
                if set_cookie {
                    new_cookie
                } else {
                    old(self).target_cookie(endpoint)
                },
                packet,
                now_ms,
                step,
            ),
    {
        let ghost pre = *old(self);
        let wire = packet.clone();
        let tid = self.next_tid;
        let i = self.find_or_create(endpoint, default_phase);
        let ghost mid_sessions = self.sessions@;
        let ghost s0 = self.sessions@[i as int].session;
        proof {
            lemma_find_session(pre.sessions@, endpoint);
            let f = find_session(pre.sessions@, endpoint);
            assert(i as int == target_of(pre.sessions@, endpoint));
            if f >= 0 {
                assert(self.sessions@[i as int] == pre.sessions@[i as int]);
            } else {
                assert(self.sessions@[i as int].session.is_fresh(default_phase));
            }
            assert(s0.next_send_seq == pre.target_next_seq(endpoint));
            assert(s0.phase == pre.target_phase(endpoint, default_phase));
            assert(s0.cookie == pre.target_cookie(endpoint));
            assert(s0.peer_ack_seq == pre.target_peer_ack(endpoint));
            assert(s0.highest_recv_seq == pre.target_high_recv(endpoint));
            assert(s0.inflight@ == pre.target_inflight(endpoint));
            assert(s0.wf());
            assert(forall|k: int|
                0 <= k < s0.inflight@.len() ==> (#[trigger] s0.inflight@[k]).tid < tid);
        }
        let entry = &mut self.sessions[i];
        entry.session.register_outbound(packet, tid, now_ms);
        entry.session.phase = new_phase;
        if set_cookie {
            entry.session.cookie = new_cookie;
        }
        proof {
            assert(self.sessions@[i as int].endpoint == mid_sessions[i as int].endpoint);
        }
        self.next_tid = tid + 1;
        let mut packets: Vec<Packet> = Vec::new();
        packets.push(wire);
        let mut packet_infos: Vec<PacketInfo> = Vec::new();
        packet_infos.push(PacketInfo { tid });
        let mut transport_cmds: Vec<TransportCmd> = Vec::new();
        transport_cmds.push(TransportCmd::SendPackets { endpoint, packets, packet_infos });
        let step = FilterStep { transport_cmds, app_notices: Vec::new() };
        proof {
            assert(self.sessions@ == mid_sessions.update(i as int, self.sessions@[i as int]));
            assert forall|a: int, b: int| 0 <= a < b < self.sessions@.len() implies (
            #[trigger] self.sessions@[a]).endpoint != (#[trigger] self.sessions@[b]).endpoint by {
                assert(self.sessions@[a].endpoint == mid_sessions[a].endpoint);
                assert(self.sessions@[b].endpoint == mid_sessions[b].endpoint);
            }
            assert forall|a: int| 0 <= a < self.sessions@.len() implies (
            #[trigger] self.sessions@[a]).session.wf() by {
                if a != i as int {
                    assert(self.sessions@[a] == mid_sessions[a]);
                }
            }
            assert forall|a: int, k: int|
                0 <= a < self.sessions@.len() && 0 <= k
                    < self.sessions@[a].session.inflight@.len() implies (
            #[trigger] self.sessions@[a].session.inflight@[k]).tid < self.next_tid by {
                if a != i as int {
                    assert(self.sessions@[a] == mid_sessions[a]);
                    assert(self.sessions@[a].session.inflight@[k].tid < tid);
                } else {
                    let inf = s0.inflight@;
                    if k < inf.len() {
                        assert(self.sessions@[a].session.inflight@[k] == inf[k]);
                    }
                }
            }
            assert(step.transport_cmds@[0] matches TransportCmd::SendPackets {
                endpoint: e2,
                packets: p2,
                packet_infos: i2,
            } && e2 == endpoint && p2@ =~= seq![packet] && i2@ =~= seq![PacketInfo { tid }]);
        }
        step
    }

    /// Carries out one application command: stamps and tracks an outbound
    /// packet, or runs the shutdown protocol. Refusals come back as
    /// explicit errors and leave the engine untouched.
    pub fn handle_command(&mut self, cmd: FilterCmd, now_ms: u64) -> (r: Result<
        FilterStep,
        FilterError,
    >)
        requires
            old(self).wf(),
            old(self).next_tid < u64::MAX,
        ensures
            final(self).wf(),
            (cmd matches FilterCmd::Shutdown { graceful } ==> shutdown_post(
                *old(self),
                *final(self),
                graceful,
                r,
            )),
            (cmd matches FilterCmd::SendResponseCode { endpoint, code } ==> send_response_post(
                *old(self),
                *final(self),
                endpoint,
                code,
                now_ms,
                r,
            )),
            (cmd matches FilterCmd::SendRequestAction { endpoint, action } ==> send_request_post(
                *old(self),
                *final(self),
                endpoint,
                action,
                now_ms,
                r,
            )),
    {
        match cmd {
            FilterCmd::Shutdown { graceful } => {
                if graceful {
                    let drained = self.all_sessions_drained();
                    self.run_state = if drained {
                        RunState::Stopped
                    } else {
                        RunState::Draining
                    };
                } else {
                    self.sessions = Vec::new();
                    self.run_state = RunState::Stopped;
                }
                Ok(FilterStep { transport_cmds: Vec::new(), app_notices: Vec::new() })
            },
            FilterCmd::SendResponseCode { endpoint, code } => {
                match self.run_state {
                    RunState::Running => {},
                    _ => {
                        return Err(FilterError::ShutdownInProgress);
                    },
                }
                let idx = self.lookup(endpoint);
                proof {
                    lemma_find_session(self.sessions@, endpoint);
                }
                let dflt = self.default_outbound_phase();
                let cur_phase = match idx {
                    Some(i) => self.sessions[i].session.phase,
                    None => dflt,
                };
                let next_seq = match idx {
                    Some(i) => self.sessions[i].session.next_send_seq,
                    None => 1,
                };
                let high_recv = match idx {
                    Some(i) => self.sessions[i].session.highest_recv_seq,
                    None => None,
                };
                match &code {
                    ResponseCode::LoggedIn { cookie, .. } => {
                        if idx.is_none() {
                            return Err(FilterError::UnknownEndpoint);
                        }
                        if !matches!(cur_phase, SessionPhase::Connecting) {
                            return Err(FilterError::UnexpectedPhase);
                        }
                        if cookie.as_str().is_empty() {
                            return Err(FilterError::InvalidCookie);
                        }
                    },
                    _ => {},
                }
                if next_seq == u64::MAX {
                    return Err(FilterError::SequenceExhausted);
                }
                let (set_cookie, new_cookie, new_phase) = match &code {
                    ResponseCode::LoggedIn { cookie, .. } => (
                        true,
                        Some(cookie.clone()),
                        SessionPhase::Established,
                    ),
                    _ => (false, None, cur_phase),
                };
                let packet = Packet::Response { sequence: next_seq, request_ack: high_recv, code };
                let step = self.tracked_send(
                    endpoint,
                    dflt,
                    new_phase,
                    set_cookie,
                    new_cookie,
                    packet,
                    now_ms,
                );
                Ok(step)
            },
            FilterCmd::SendRequestAction { endpoint, action } => {
                match self.run_state {
                    RunState::Running => {},
                    _ => {
                        return Err(FilterError::ShutdownInProgress);
                    },
                }
                let idx = self.lookup(endpoint);
                proof {
                    lemma_find_session(self.sessions@, endpoint);
                }
                let dflt = self.default_outbound_phase();
                let cur_phase = match idx {
                    Some(i) => self.sessions[i].session.phase,
                    None => dflt,
                };
                let next_seq = match idx {
                    Some(i) => self.sessions[i].session.next_send_seq,
                    None => 1,
                };
                let high_recv = match idx {
                    Some(i) => self.sessions[i].session.highest_recv_seq,
                    None => None,
                };
                if next_seq == u64::MAX {
                    return Err(FilterError::SequenceExhausted);
                }
                let sess_cookie = match idx {
                    Some(i) => clone_cookie(&self.sessions[i].session.cookie),
                    None => None,
                };
                let packet = Packet::Request {
                    sequence: next_seq,
                    response_ack: high_recv,
                    cookie: sess_cookie,
                    action,
                };
                let step = self.tracked_send(
                    endpoint,
                    dflt,
                    cur_phase,
                    false,
                    None,
                    packet,
                    now_ms,
                );
                Ok(step)
            },
        }
    }

    /// Processes one inbound request packet: classification, acknowledgment
    /// reconciliation, handshake and cookie policy, and delivery of new
    /// actions to the application.
    fn deliver_request(
        &mut self,
        endpoint: Endpoint,
        sequence: u64,
        response_ack: Option<u64>,
        cookie: Option<String>,
        action: RequestAction,
    ) -> (step: FilterStep)
        requires
            old(self).wf(),
            old(self).next_tid < u64::MAX,
        ensures
            final(self).wf(),
            deliver_request_post(
                *old(self),
                *final(self),
                endpoint,
                sequence,
                response_ack,
                cookie,
                action,
                step,
            ),
    {
        let ghost pre = *old(self);
        match self.run_state {
            RunState::Stopped => {
                return FilterStep { transport_cmds: Vec::new(), app_notices: Vec::new() };
            },
            _ => {},
        }
        let idx0 = self.lookup(endpoint);
        proof {
            lemma_find_session(pre.sessions@, endpoint);
        }
        let phase0 = match idx0 {
            Some(i) => self.sessions[i].session.phase,
            None => SessionPhase::Unauthenticated,
        };
        let high0 = match idx0 {
            Some(i) => self.sessions[i].session.highest_recv_seq,
            None => None,
        };
        let next_seq0 = match idx0 {
            Some(i) => self.sessions[i].session.next_send_seq,
            None => 1,
        };
        let c = classify_value(high0, sequence);
        match action {
            RequestAction::Connect { name, client_version } => {
                if matches!(c, SeqClassification::Duplicate) {
                    return FilterStep { transport_cmds: Vec::new(), app_notices: Vec::new() };
                }
                if matches!(phase0, SessionPhase::Unauthenticated) {
                    if version_supported(&self.config.supported_versions, &client_version) {
                        let i = self.find_or_create(endpoint, SessionPhase::Unauthenticated);
                        let ghost mid_sessions = self.sessions@;
                        let ghost s0 = self.sessions@[i as int].session;
                        let entry = &mut self.sessions[i];
                        let _c2 = entry.session.observe_inbound(sequence);
                        entry.session.phase = SessionPhase::Connecting;
                        proof {
                            let s1 = self.sessions@[i as int].session;
                            assert(self.sessions@ == mid_sessions.update(
                                i as int,
                                self.sessions@[i as int],
                            ));
                            assert(s1.wf());
                            lemma_engine_wf_update(
                                mid_sessions,
                                self.sessions@[i as int],
                                i as int,
                                self.next_tid,
                                self.next_tid,
                            );
                        }
                        let mut app_notices: Vec<FilterNotice> = Vec::new();
                        app_notices.push(
                            FilterNotice::NewRequestAction {
                                endpoint,
                                action: RequestAction::Connect { name, client_version },
                            },
                        );
                        proof {
                            assert(app_notices@ =~= seq![
                                FilterNotice::NewRequestAction {
                                    endpoint,
                                    action: RequestAction::Connect { name, client_version },
                                },
                            ]);
                        }
                        return FilterStep { transport_cmds: Vec::new(), app_notices };
                    } else {
                        let mut transport_cmds: Vec<TransportCmd> = Vec::new();
                        if next_seq0 < u64::MAX {
                            let tid = self.next_tid;
                            let mut packets: Vec<Packet> = Vec::new();
                            packets.push(
                                Packet::Response {
                                    sequence: next_seq0,
                                    request_ack: Some(sequence),
                                    code: ResponseCode::IncompatibleVersion,
                                },
                            );
                            let mut packet_infos: Vec<PacketInfo> = Vec::new();
                            packet_infos.push(PacketInfo { tid });
                            transport_cmds.push(
                                TransportCmd::SendPackets { endpoint, packets, packet_infos },
                            );
                            self.next_tid = tid + 1;
                            proof {
                                assert(transport_cmds@[0] matches TransportCmd::SendPackets {
                                    endpoint: e2,
                                    packets: p2,
                                    packet_infos: i2,
                                } && e2 == endpoint && p2@ =~= seq![
                                    Packet::Response {
                                        sequence: next_seq0,
                                        request_ack: Some(sequence),
                                        code: ResponseCode::IncompatibleVersion,
                                    },
                                ] && i2@ =~= seq![PacketInfo { tid }]);
                            }
                        }
                        match idx0 {
                            Some(i) => {
                                proof {
                                    lemma_engine_wf_remove(
                                        self.sessions@,
                                        i as int,
                                        pre.next_tid,
                                        self.next_tid,
                                    );
                                }
                                self.sessions.remove(i);
                            },
                            None => {},
                        }
                        return FilterStep { transport_cmds, app_notices: Vec::new() };
                    }
                } else {
                    let i = self.find_or_create(endpoint, SessionPhase::Unauthenticated);
                    let ghost mid_sessions = self.sessions@;
                    let entry = &mut self.sessions[i];
                    let _c2 = entry.session.observe_inbound(sequence);
                    proof {
                        assert(self.sessions@ == mid_sessions.update(
                            i as int,
                            self.sessions@[i as int],
                        ));
                        assert(self.sessions@[i as int].session.wf());
                        lemma_engine_wf_update(
                            mid_sessions,
                            self.sessions@[i as int],
                            i as int,
                            self.next_tid,
                            self.next_tid,
                        );
                    }
                    return FilterStep { transport_cmds: Vec::new(), app_notices: Vec::new() };
                }
            },
            _ => {
                let cookie_good = match idx0 {
                    Some(i) => cookie_matches(&cookie, &self.sessions[i].session.cookie),
                    None => false,
                };
                if matches!(phase0, SessionPhase::Established) && cookie_good {
                    let i = self.find_or_create(endpoint, SessionPhase::Unauthenticated);
                    let ghost mid_sessions = self.sessions@;
                    let ghost s0 = self.sessions@[i as int].session;
                    let entry = &mut self.sessions[i];
                    let d1 = match response_ack {
                        Some(a) => entry.session.acknowledge(a),
                        None => Vec::new(),
                    };
                    let (has_second, second_ack) = match &action {
                        RequestAction::KeepAlive { latest_response_ack } => (
                            true,
                            *latest_response_ack,
                        ),
                        _ => (false, 0u64),
                    };
                    let d2 = if has_second {
                        entry.session.acknowledge(second_ack)
                    } else {
                        Vec::new()
                    };
                    let c2 = entry.session.observe_inbound(sequence);
                    let is_disconnect = matches!(action, RequestAction::Disconnect);
                    if is_disconnect && !matches!(c2, SeqClassification::Duplicate) {
                        entry.session.phase = SessionPhase::Closing;
                    }
                    proof {
                        let ghost a2 = request_second_ack(action);
                        let s1 = self.sessions@[i as int].session;
                        assert(s1.inflight@ == inflight_after_acks(s0.inflight@, response_ack, a2));
                        assert(s1.peer_ack_seq == peer_ack_after(
                            s0.peer_ack_seq,
                            response_ack,
                            a2,
                        ));
                        assert(s1.wf());
                        lemma_acks_containment(s0.inflight@, response_ack, a2, s0.next_send_seq);
                        assert(self.sessions@ == mid_sessions.update(
                            i as int,
                            self.sessions@[i as int],
                        ));
                        assert forall|k: int| 0 <= k < s1.inflight@.len() implies (
                        #[trigger] s1.inflight@[k]).tid < self.next_tid by {
                            assert(s0.inflight@.contains(s1.inflight@[k]));
                            let m = choose|m: int|
                                0 <= m < s0.inflight@.len() && s0.inflight@[m] == s1.inflight@[k];
                            assert(s0.inflight@[m].tid < self.next_tid);
                        }
                        lemma_engine_wf_update(
                            mid_sessions,
                            self.sessions@[i as int],
                            i as int,
                            self.next_tid,
                            self.next_tid,
                        );
                    }
                    let transport_cmds = drop_cmds(endpoint, &d1, &d2);
                    let mut app_notices: Vec<FilterNotice> = Vec::new();
                    let is_keepalive = matches!(action, RequestAction::KeepAlive { .. });
                    if !matches!(c2, SeqClassification::Duplicate) && !is_keepalive {
                        app_notices.push(FilterNotice::NewRequestAction { endpoint, action });
                        proof {
                            assert(app_notices@ =~= seq![
                                FilterNotice::NewRequestAction { endpoint, action },
                            ]);
                        }
                    }
                    return FilterStep { transport_cmds, app_notices };
                } else {
                    let i = self.find_or_create(endpoint, SessionPhase::Unauthenticated);
                    let ghost mid_sessions = self.sessions@;
                    let ghost s0 = self.sessions@[i as int].session;
                    let mut transport_cmds: Vec<TransportCmd> = Vec::new();
                    if next_seq0 < u64::MAX {
                        let entry = &mut self.sessions[i];
                        entry.session.next_send_seq = next_seq0 + 1;
                        proof {
                            let s1 = self.sessions@[i as int].session;
                            assert(s1.wf()) by {
                                assert(crate::session::entries_wf(s0.inflight@, s0.next_send_seq));
                                assert(s1.inflight@ == s0.inflight@);
                                assert forall|k: int|
                                    0 <= k < s1.inflight@.len() implies 1 <= (
                                #[trigger] s1.inflight@[k]).sequence < s1.next_send_seq by {
                                    assert(s0.inflight@[k].sequence < s0.next_send_seq);
                                }
                            }
                            assert(self.sessions@ == mid_sessions.update(
                                i as int,
                                self.sessions@[i as int],
                            ));
                            lemma_engine_wf_update(
                                mid_sessions,
                                self.sessions@[i as int],
                                i as int,
                                self.next_tid,
                                self.next_tid,
                            );
                        }
                        let tid = self.next_tid;
                        let mut packets: Vec<Packet> = Vec::new();
                        packets.push(
                            Packet::Response {
                                sequence: next_seq0,
                                request_ack: None,
                                code: ResponseCode::Unauthorized,
                            },
                        );
                        let mut packet_infos: Vec<PacketInfo> = Vec::new();
                        packet_infos.push(PacketInfo { tid });
                        transport_cmds.push(
                            TransportCmd::SendPackets { endpoint, packets, packet_infos },
                        );
                        self.next_tid = tid + 1;
                        proof {
                            assert(transport_cmds@[0] matches TransportCmd::SendPackets {
                                endpoint: e2,
                                packets: p2,
                                packet_infos: i2,
                            } && e2 == endpoint && p2@ =~= seq![
                                Packet::Response {
                                    sequence: next_seq0,
                                    request_ack: None,
                                    code: ResponseCode::Unauthorized,
                                },
                            ] && i2@ =~= seq![PacketInfo { tid }]);
                        }
                    }
                    return FilterStep { transport_cmds, app_notices: Vec::new() };
                }
            },
        }
    }

    /// Processes one inbound response packet: acknowledgment reconciliation,
    /// classification, the client half of the handshake, and delivery of new
    /// responses to the application.
    fn deliver_response(
        &mut self,
        endpoint: Endpoint,
        sequence: u64,
        request_ack: Option<u64>,
        code: ResponseCode,
    ) -> (step: FilterStep)
        requires
            old(self).wf(),
        ensures
            final(self).wf(),
            deliver_response_post(
                *old(self),
                *final(self),
                endpoint,
                sequence,
                request_ack,
                code,
                step,
            ),
    {
        let ghost pre = *old(self);
        match self.run_state {
            RunState::Stopped => {
                return FilterStep { transport_cmds: Vec::new(), app_notices: Vec::new() };
            },
            _ => {},
        }
        let idx0 = self.lookup(endpoint);
        proof {
            lemma_find_session(pre.sessions@, endpoint);
        }
        let phase0 = match idx0 {
            Some(i) => self.sessions[i].session.phase,
            None => SessionPhase::Unauthenticated,
        };
        let high0 = match idx0 {
            Some(i) => self.sessions[i].session.highest_recv_seq,
            None => None,
        };
        let c = classify_value(high0, sequence);
        let i = self.find_or_create(endpoint, SessionPhase::Unauthenticated);
        let ghost mid_sessions = self.sessions@;
        let ghost s0 = self.sessions@[i as int].session;
        let entry = &mut self.sessions[i];
        let d1 = match request_ack {
            Some(a) => entry.session.acknowledge(a),
            None => Vec::new(),
        };
        let c2 = entry.session.observe_inbound(sequence);
        let logging_in = !matches!(c2, SeqClassification::Duplicate) && matches!(
            phase0,
            SessionPhase::Connecting,
        ) && matches!(&code, ResponseCode::LoggedIn { .. });
        if logging_in {
            match &code {
                ResponseCode::LoggedIn { cookie, .. } => {
                    entry.session.cookie = Some(cookie.clone());
                    entry.session.phase = SessionPhase::Established;
                },
                _ => {},
            }
        }
        proof {
            let s1 = self.sessions@[i as int].session;
            assert(s1.inflight@ == inflight_after_acks(s0.inflight@, request_ack, Option::None));
            assert(s1.wf());
            lemma_acks_containment(s0.inflight@, request_ack, Option::None, s0.next_send_seq);
            assert(self.sessions@ == mid_sessions.update(i as int, self.sessions@[i as int]));
            assert forall|k: int| 0 <= k < s1.inflight@.len() implies (
            #[trigger] s1.inflight@[k]).tid < self.next_tid by {
                assert(s0.inflight@.contains(s1.inflight@[k]));
                let m = choose|m: int|
                    0 <= m < s0.inflight@.len() && s0.inflight@[m] == s1.inflight@[k];
                assert(s0.inflight@[m].tid < self.next_tid);
            }
            lemma_engine_wf_update(
                mid_sessions,
                self.sessions@[i as int],
                i as int,
                self.next_tid,
                self.next_tid,
            );
        }
        let empty_second: Vec<u64> = Vec::new();
        let transport_cmds = drop_cmds(endpoint, &d1, &empty_second);
        let mut app_notices: Vec<FilterNotice> = Vec::new();
        if !matches!(c2, SeqClassification::Duplicate) {
            app_notices.push(FilterNotice::NewResponseCode { endpoint, code });
            proof {
                assert(app_notices@ =~= seq![FilterNotice::NewResponseCode { endpoint, code }]);
            }
        }
        FilterStep { transport_cmds, app_notices }
    }

    /// Runs one retry scan at time `now_ms`: resends every packet past the
    /// retry interval verbatim under a fresh tracking identifier, reports
    /// and drops endpoints whose retry budget is spent, reaps drained
    /// closing sessions, and completes a graceful shutdown once nothing is
    /// left in flight.
    #[verifier::rlimit(100)]
    #[verifier::spinoff_prover]
    pub fn tick(&mut self, now_ms: u64) -> (step: FilterStep)
        requires
            old(self).wf(),
            old(self).next_tid + total_inflight(old(self).sessions@) <= u64::MAX,
        ensures
            final(self).wf(),
            tick_post(*old(self), *final(self), now_ms, step),
    {
        let ghost pre = *old(self);
        match self.run_state {
            RunState::Stopped => {
                return FilterStep { transport_cmds: Vec::new(), app_notices: Vec::new() };
            },
            _ => {},
        }
        let itv = self.config.retry_interval_ms;
        let max = self.config.max_retries;
        let mut old_sessions: Vec<SessionEntry> = Vec::new();
        core::mem::swap(&mut old_sessions, &mut self.sessions);
        let mut transport_cmds: Vec<TransportCmd> = Vec::new();
        let mut app_notices: Vec<FilterNotice> = Vec::new();
        let n = old_sessions.len();
        let mut j: usize = 0;
        proof {
            assert(pre.sessions@.subrange(0, 0) =~= Seq::<SessionEntry>::empty());
            assert(pre.sessions@.subrange(0, n as int) =~= pre.sessions@);
        }
        while j < n
            invariant
                j <= n,
                n == old_sessions@.len(),
                n == pre.sessions@.len(),
                engine_wf(pre.sessions@, pre.next_tid),
                pre.next_tid + total_inflight(pre.sessions@) <= u64::MAX,
                pre.run_state != RunState::Stopped,
                itv == pre.config.retry_interval_ms,
                max == pre.config.max_retries,
                self.mode == pre.mode,
                self.config == pre.config,
                self.run_state == pre.run_state,
                forall|k: int| j <= k < n ==> old_sessions@[k] == pre.sessions@[k],
                self.next_tid == pre.next_tid + tick_spent(
                    pre.sessions@.subrange(0, j as int),
                    now_ms,
                    itv,
                    max,
                ),
                self.next_tid + total_inflight(pre.sessions@.subrange(j as int, n as int))
                    <= u64::MAX,
                tick_rel(
                    pre.sessions@.subrange(0, j as int),
                    self.sessions@,
                    now_ms,
                    itv,
                    max,
                    pre.next_tid,
                ),
                transport_cmds@.len() == tick_resends(
                    pre.sessions@.subrange(0, j as int),
                    now_ms,
                    itv,
                    max,
                    pre.next_tid,
                ).len(),
                forall|q: int|
                    0 <= q < transport_cmds@.len() ==> (#[trigger] transport_cmds@[q] matches TransportCmd::SendPackets {
                        endpoint,
                        packets,
                        packet_infos,
                    } && endpoint == tick_resends(
                        pre.sessions@.subrange(0, j as int),
                        now_ms,
                        itv,
                        max,
                        pre.next_tid,
                    )[q].0 && packets@ == seq![
                        tick_resends(
                            pre.sessions@.subrange(0, j as int),
                            now_ms,
                            itv,
                            max,
                            pre.next_tid,
                        )[q].2,
                    ] && packet_infos@ == seq![
                        PacketInfo {
                            tid: tick_resends(
                                pre.sessions@.subrange(0, j as int),
                                now_ms,
                                itv,
                                max,
                                pre.next_tid,
                            )[q].1,
                        },
                    ]),
                app_notices@.len() == tick_failures(
                    pre.sessions@.subrange(0, j as int),
                    now_ms,
                    itv,
                    max,
                ).len(),
                forall|q: int|
                    0 <= q < app_notices@.len() ==> app_notices@[q] == (FilterNotice::EndpointFailed {
                        endpoint: tick_failures(
                            pre.sessions@.subrange(0, j as int),
                            now_ms,
                            itv,
                            max,
                        )[q],
                        reason: FailureReason::RetryLimitExceeded,
                    }),
                forall|a: int, b: int|
                    0 <= a < b < self.sessions@.len() ==> (#[trigger] self.sessions@[a]).endpoint
                        != (#[trigger] self.sessions@[b]).endpoint,
                forall|k: int| 0 <= k < self.sessions@.len() ==> (#[trigger] self.sessions@[k]).session.wf(),
                forall|k: int, m: int|
                    0 <= k < self.sessions@.len() && 0 <= m
                        < self.sessions@[k].session.inflight@.len() ==> (#[trigger] self.sessions@[k].session.inflight@[m]).tid
                        < self.next_tid,
                forall|k: int|
                    0 <= k < self.sessions@.len() ==> exists|m: int|
                        0 <= m < j && (#[trigger] self.sessions@[k]).endpoint
                            == pre.sessions@[m].endpoint,
            decreases n - j,
        {
            let ghost prefix = pre.sessions@.subrange(0, j as int);
            let ghost prefix1 = pre.sessions@.subrange(0, j + 1 as int);
            let ghost e = pre.sessions@[j as int];
            proof {
                assert(prefix1.drop_last() =~= prefix);
                assert(prefix1.last() == e);
                assert(old_sessions@[j as int] == e);
                assert(pre.sessions@.subrange(j as int, n as int).drop_first()
                    =~= pre.sessions@.subrange(j + 1 as int, n as int));
                assert(pre.sessions@.subrange(j as int, n as int)[0] == e);
                assert(total_inflight(pre.sessions@.subrange(j as int, n as int))
                    == e.session.inflight@.len() + total_inflight(
                    pre.sessions@.subrange(j + 1 as int, n as int),
                ));
                lemma_tick_spent_bounds(prefix, now_ms, itv, max);
                lemma_tick_spent_bounds(
                    pre.sessions@.subrange(j + 1 as int, n as int),
                    now_ms,
                    itv,
                    max,
                );
                crate::session::lemma_due_count_bounds(e.session.inflight@, now_ms, itv);
            }
            let exhausted = old_sessions[j].session.has_exhausted_due(now_ms, itv, max);
            if exhausted {
                let failed_endpoint = old_sessions[j].endpoint;
                app_notices.push(
                    FilterNotice::EndpointFailed {
                        endpoint: failed_endpoint,
                        reason: FailureReason::RetryLimitExceeded,
                    },
                );
                proof {
                    assert(entry_exhausted(e, now_ms, itv, max));
                    assert(!entry_survives(e, now_ms, itv, max));
                    assert(tick_failures(prefix1, now_ms, itv, max) =~= tick_failures(
                        prefix,
                        now_ms,
                        itv,
                        max,
                    ).push(e.endpoint));
                    assert(tick_resends(prefix1, now_ms, itv, max, pre.next_tid) =~= tick_resends(
                        prefix,
                        now_ms,
                        itv,
                        max,
                        pre.next_tid,
                    ));
                    assert(tick_spent(prefix1, now_ms, itv, max) == tick_spent(
                        prefix,
                        now_ms,
                        itv,
                        max,
                    ));
                    assert(tick_rel(prefix1, self.sessions@, now_ms, itv, max, pre.next_tid));
                }
            } else if matches!(old_sessions[j].session.phase, SessionPhase::Closing)
                && old_sessions[j].session.inflight.len() == 0 {
                proof {
                    assert(entry_drained_closing(e));
                    assert(!entry_survives(e, now_ms, itv, max));
                    assert(tick_failures(prefix1, now_ms, itv, max) =~= tick_failures(
                        prefix,
                        now_ms,
                        itv,
                        max,
                    ));
                    assert(tick_resends(prefix1, now_ms, itv, max, pre.next_tid) =~= tick_resends(
                        prefix,
                        now_ms,
                        itv,
                        max,
                        pre.next_tid,
                    ));
                    assert(tick_spent(prefix1, now_ms, itv, max) == tick_spent(
                        prefix,
                        now_ms,
                        itv,
                        max,
                    ));
                    assert(tick_rel(prefix1, self.sessions@, now_ms, itv, max, pre.next_tid));
                }
            } else {
                let first_tid = self.next_tid;
                let entry = &mut old_sessions[j];
                proof {
                    assert(e.session.wf());
                    assert(first_tid + e.session.inflight@.len() <= u64::MAX);
                    assert(forall|m: int|
                        0 <= m < e.session.inflight@.len() ==> (
                        #[trigger] e.session.inflight@[m]).tid < first_tid);
                    assert forall|m: int|
                        0 <= m < e.session.inflight@.len() && crate::session::is_due(
                            #[trigger] e.session.inflight@[m],
                            now_ms,
                            itv,
                        ) implies e.session.inflight@[m].retry_count < u32::MAX by {
                        assert(!crate::session::any_exhausted(
                            e.session.inflight@,
                            now_ms,
                            itv,
                            max,
                        ));
                        if e.session.inflight@[m].retry_count >= max {
                            assert(crate::session::any_exhausted(
                                e.session.inflight@,
                                now_ms,
                                itv,
                                max,
                            ));
                        }
                    }
                }
                let mut resend_pairs = entry.session.collect_retries(now_ms, itv, first_tid);
                let moved_endpoint = entry.endpoint;
                let mut moved = Session::new(SessionPhase::Unauthenticated);
                core::mem::swap(&mut moved, &mut entry.session);
                proof {
                    crate::session::lemma_retried_props(e.session.inflight@, now_ms, itv, first_tid);
                    crate::session::lemma_retried_tid_bound(
                        e.session.inflight@,
                        now_ms,
                        itv,
                        first_tid,
                    );
                }
                let spent = resend_pairs.len() as u64;
                self.next_tid = first_tid + spent;
                let ghost base_cmds = transport_cmds@;
                let ghost pairs = resend_pairs@;
                let mut q: usize = 0;
                let total = resend_pairs.len();
                while q < total
                    invariant
                        total == pairs.len(),
                        q <= total,
                        resend_pairs@ == pairs.subrange(q as int, total as int),
                        transport_cmds@.len() == base_cmds.len() + q,
                        forall|w: int|
                            0 <= w < base_cmds.len() ==> transport_cmds@[w] == base_cmds[w],
                        forall|w: int|
                            0 <= w < q ==> (#[trigger] transport_cmds@[base_cmds.len() + w] matches TransportCmd::SendPackets {
                                endpoint,
                                packets,
                                packet_infos,
                            } && endpoint == moved_endpoint && packets@ == seq![pairs[w].1]
                                && packet_infos@ == seq![PacketInfo { tid: pairs[w].0 }]),
                    decreases total - q,
                {
                    proof {
                        assert(pairs.subrange(q as int, total as int).drop_first()
                            =~= pairs.subrange(q + 1 as int, total as int));
                        assert(pairs.subrange(q as int, total as int)[0] == pairs[q as int]);
                    }
                    let (tid, pkt) = resend_pairs.remove(0);
                    let mut packets: Vec<Packet> = Vec::new();
                    packets.push(pkt);
                    let mut packet_infos: Vec<PacketInfo> = Vec::new();
                    packet_infos.push(PacketInfo { tid });
                    transport_cmds.push(
                        TransportCmd::SendPackets { endpoint: moved_endpoint, packets, packet_infos },
                    );
                    q = q + 1;
                }
                let ghost table0 = self.sessions@;
                self.sessions.push(SessionEntry { endpoint: moved_endpoint, session: moved });
                proof {
                    let spec_first = (pre.next_tid + tick_spent(prefix, now_ms, itv, max)) as u64;
                    assert(spec_first == first_tid);
                    assert(moved_endpoint == e.endpoint);
                    assert(!entry_exhausted(e, now_ms, itv, max));
                    assert(!entry_drained_closing(e));
                    assert(entry_survives(e, now_ms, itv, max));
                    assert(pairs == crate::session::resends(
                        e.session.inflight@,
                        now_ms,
                        itv,
                        first_tid,
                    ));
                    assert(pairs.len() == crate::session::due_count(e.session.inflight@, now_ms, itv));
                    assert(tick_spent(prefix1, now_ms, itv, max) == tick_spent(
                        prefix,
                        now_ms,
                        itv,
                        max,
                    ) + crate::session::due_count(e.session.inflight@, now_ms, itv));
                    assert(self.next_tid == pre.next_tid + tick_spent(prefix1, now_ms, itv, max));
                    // the appended send commands line up with the spec's resends
                    let mapped = crate::session::resends(
                        e.session.inflight@,
                        now_ms,
                        itv,
                        first_tid,
                    ).map_values(|p: (u64, Packet)| (e.endpoint, p.0, p.1));
                    assert(tick_resends(prefix1, now_ms, itv, max, pre.next_tid) =~= tick_resends(
                        prefix,
                        now_ms,
                        itv,
                        max,
                        pre.next_tid,
                    ) + mapped);
                    let rs1 = tick_resends(prefix1, now_ms, itv, max, pre.next_tid);
                    assert(rs1.len() == base_cmds.len() + pairs.len());
                    assert forall|qq: int| 0 <= qq < transport_cmds@.len() implies (
                    #[trigger] transport_cmds@[qq] matches TransportCmd::SendPackets {
                        endpoint,
                        packets,
                        packet_infos,
                    } && endpoint == rs1[qq].0 && packets@ == seq![rs1[qq].2] && packet_infos@
                        == seq![PacketInfo { tid: rs1[qq].1 }]) by {
                        if qq < base_cmds.len() {
                            assert(transport_cmds@[qq] == base_cmds[qq]);
                            assert(rs1[qq] == tick_resends(
                                prefix,
                                now_ms,
                                itv,
                                max,
                                pre.next_tid,
                            )[qq]);
                        } else {
                            let w = qq - base_cmds.len();
                            assert(transport_cmds@[base_cmds.len() + w] == transport_cmds@[qq]);
                            assert(rs1[qq] == mapped[w]);
                            assert(mapped[w] == (e.endpoint, pairs[w].0, pairs[w].1));
                        }
                    }
                    assert(tick_failures(prefix1, now_ms, itv, max) =~= tick_failures(
                        prefix,
                        now_ms,
                        itv,
                        max,
                    ));
                    // the new table extends the old one by the survivor
                    assert(self.sessions@.drop_last() =~= table0);
                    assert(self.sessions@.last().endpoint == e.endpoint);
                    assert(self.sessions@.last().session == moved);
                    assert(moved.inflight@ == crate::session::retried(
                        e.session.inflight@,
                        now_ms,
                        itv,
                        first_tid,
                    ));
                    assert(tick_rel(prefix1, self.sessions@, now_ms, itv, max, pre.next_tid));
                    assert forall|k: int, m2: int|
                        0 <= k < self.sessions@.len() && 0 <= m2
                            < self.sessions@[k].session.inflight@.len() implies (
                    #[trigger] self.sessions@[k].session.inflight@[m2]).tid < self.next_tid by {
                        if k < table0.len() {
                            assert(self.sessions@[k] == table0[k]);
                            assert(table0[k].session.inflight@[m2].tid < first_tid);
                        } else {
                            assert(self.sessions@[k].session == moved);
                            assert(moved.inflight@[m2].tid < first_tid + crate::session::due_count(
                                e.session.inflight@,
                                now_ms,
                                itv,
                            ));
                        }
                    }
                    assert forall|k: int| 0 <= k < self.sessions@.len() implies exists|m: int|
                        0 <= m < j + 1 && (#[trigger] self.sessions@[k]).endpoint
                            == pre.sessions@[m].endpoint by {
                        if k < self.sessions@.len() - 1 {
                            let m = choose|m: int|
                                0 <= m < j && self.sessions@[k].endpoint
                                    == pre.sessions@[m].endpoint;
                            assert(0 <= m < j + 1 && self.sessions@[k].endpoint
                                == pre.sessions@[m].endpoint);
                        } else {
                            assert(self.sessions@[k].endpoint == pre.sessions@[j as int].endpoint);
                        }
                    }
                    assert forall|a: int, b: int| 0 <= a < b < self.sessions@.len() implies (
                    #[trigger] self.sessions@[a]).endpoint != (
                    #[trigger] self.sessions@[b]).endpoint by {
                        if b == self.sessions@.len() - 1 {
                            assert(self.sessions@[a] == table0[a]);
                            let m = choose|m: int|
                                0 <= m < j && self.sessions@[a].endpoint
                                    == pre.sessions@[m].endpoint;
                            assert(pre.sessions@[m].endpoint != pre.sessions@[j as int].endpoint);
                        } else {
                            assert(self.sessions@[a] == table0[a] && self.sessions@[b] == table0[b]);
                        }
                    }
                }
            }
            j = j + 1;
        }
        proof {
            assert(pre.sessions@.subrange(0, n as int) =~= pre.sessions@);
        }
        if matches!(self.run_state, RunState::Draining) && self.all_sessions_drained() {
            self.run_state = RunState::Stopped;
        }
        FilterStep { transport_cmds, app_notices }
    }

    /// How many endpoints currently have a session.
    pub fn session_count(&self) -> (n: usize)
        ensures
            n == self.sessions@.len(),
    {
        self.sessions.len()
    }

    /// The phase of `endpoint`'s session, or `None` for an unseen endpoint.
    pub fn session_phase(&self, endpoint: Endpoint) -> (p: Option<SessionPhase>)
        ensures
            find_session(self.sessions@, endpoint) >= 0 ==> p == Option::Some(
                self.sessions@[find_session(self.sessions@, endpoint)].session.phase,
            ),
            find_session(self.sessions@, endpoint) == -1 ==> p is None,
    {
        match self.lookup(endpoint) {
            Some(i) => Some(self.sessions[i].session.phase),
            None => None,
        }
    }

    /// The cookie `endpoint`'s session holds, or `None` for an unseen
    /// endpoint or a session with no cookie yet.
    pub fn session_cookie(&self, endpoint: Endpoint) -> (c: Option<String>)
        ensures
            find_session(self.sessions@, endpoint) >= 0 ==> c == self.sessions@[find_session(
                self.sessions@,
                endpoint,
            )].session.cookie,
            find_session(self.sessions@, endpoint) == -1 ==> c is None,
    {
        match self.lookup(endpoint) {
            Some(i) => clone_cookie(&self.sessions[i].session.cookie),
            None => None,
        }
    }

    /// The sequence numbers awaiting acknowledgment for `endpoint`, in
    /// increasing order; empty for an unseen endpoint.
    pub fn inflight_sequences(&self, endpoint: Endpoint) -> (v: Vec<u64>)
        ensures
            v@ == self.target_inflight(endpoint).map_values(|e: InflightEntry| e.sequence),
    {
        let ghost inf = self.target_inflight(endpoint);
        match self.lookup(endpoint) {
            Some(i) => {
                let session = &self.sessions[i].session;
                let n = session.inflight.len();
                let mut v: Vec<u64> = Vec::new();
                let mut k: usize = 0;
                while k < n
                    invariant
                        n == session.inflight@.len(),
                        k <= n,
                        v@ =~= session.inflight@.subrange(0, k as int).map_values(
                            |e: InflightEntry| e.sequence,
                        ),
                    decreases n - k,
                {
                    v.push(session.inflight[k].sequence);
                    proof {
                        let cur = session.inflight@.subrange(0, k + 1 as int);
                        assert(cur.drop_last() =~= session.inflight@.subrange(0, k as int));
                        assert(cur.map_values(|e: InflightEntry| e.sequence) =~= cur.drop_last().map_values(
                            |e: InflightEntry| e.sequence,
                        ).push(session.inflight@[k as int].sequence));
                    }
                    k = k + 1;
                }
                proof {
                    assert(session.inflight@.subrange(0, n as int) =~= session.inflight@);
                    assert(v@ =~= inf.map_values(|e: InflightEntry| e.sequence));
                }
                v
            },
            None => {
                proof {
                    assert(inf.map_values(|e: InflightEntry| e.sequence)
                        =~= Seq::<u64>::empty());
                }
                Vec::new()
            },
        }
    }

    /// The tracking identifiers awaiting acknowledgment for `endpoint`, in
    /// increasing sequence order; empty for an unseen endpoint.
    pub fn inflight_tids(&self, endpoint: Endpoint) -> (v: Vec<u64>)
        ensures
            v@ == self.target_inflight(endpoint).map_values(|e: InflightEntry| e.tid),
    {
        let ghost inf = self.target_inflight(endpoint);
        match self.lookup(endpoint) {
            Some(i) => {
                let session = &self.sessions[i].session;
                let n = session.inflight.len();
                let mut v: Vec<u64> = Vec::new();
                let mut k: usize = 0;
                while k < n
                    invariant
                        n == session.inflight@.len(),
                        k <= n,
                        v@ =~= session.inflight@.subrange(0, k as int).map_values(
                            |e: InflightEntry| e.tid,
                        ),
                    decreases n - k,
                {
                    v.push(session.inflight[k].tid);
                    proof {
                        let cur = session.inflight@.subrange(0, k + 1 as int);
                        assert(cur.drop_last() =~= session.inflight@.subrange(0, k as int));
                        assert(cur.map_values(|e: InflightEntry| e.tid) =~= cur.drop_last().map_values(
                            |e: InflightEntry| e.tid,
                        ).push(session.inflight@[k as int].tid));
                    }
                    k = k + 1;
                }
                proof {
                    assert(session.inflight@.subrange(0, n as int) =~= session.inflight@);
                    assert(v@ =~= inf.map_values(|e: InflightEntry| e.tid));
                }
                v
            },
            None => {
                proof {
                    assert(inf.map_values(|e: InflightEntry| e.tid) =~= Seq::<u64>::empty());
                }
                Vec::new()
            },
        }
    }

    /// Carries out one transport notification: decodes the delivered packet
    /// into the request or response path. Decode failures never reach the
    /// engine; the transport discards malformed datagrams.
    pub fn handle_transport_notice(&mut self, notice: TransportNotice) -> (step: FilterStep)
        requires
            old(self).wf(),
            old(self).next_tid < u64::MAX,
        ensures
            final(self).wf(),
            (notice matches TransportNotice::PacketDelivery { endpoint, packet } ==> deliver_post(
                *old(self),
                *final(self),
                endpoint,
                packet,
                step,
            )),
    {
        match notice {
            TransportNotice::PacketDelivery { endpoint, packet } => match packet {
                Packet::Request { sequence, response_ack, cookie, action } => self.deliver_request(
                    endpoint,
                    sequence,
                    response_ack,
                    cookie,
                    action,
                ),
                Packet::Response { sequence, request_ack, code } => self.deliver_response(
                    endpoint,
                    sequence,
                    request_ack,
                    code,
                ),
            },
        }
    }
}

/// After a step that touches only `endpoint`'s entry, that entry is the one
/// a lookup finds.
pub proof fn lemma_target_found(pre: Seq<SessionEntry>, post: Seq<SessionEntry>, ep: Endpoint)
    requires
        sessions_with_target(pre, post, ep),
        forall|a: int, b: int|
            0 <= a < b < pre.len() ==> (#[trigger] pre[a]).endpoint != (#[trigger] pre[b]).endpoint,
    ensures
        find_session(post, ep) == target_of(pre, ep),
        0 <= target_of(pre, ep) < post.len(),
{
    lemma_find_session(pre, ep);
    lemma_find_session(post, ep);
    let t = target_of(pre, ep);
    let f0 = find_session(pre, ep);
    let f = find_session(post, ep);
    assert(post[t].endpoint == ep);
    if f == -1 {
        assert(post[t].endpoint != ep);
    } else if f < t {
        assert(post[f] == pre[f]);
        assert(pre[f].endpoint != ep);
    } else if f > t {
        assert(post[t].endpoint != ep);
    }
}

/// Law: a duplicate inbound request — one whose sequence the session has
/// already received — never produces a `NewRequestAction` notice, whatever
/// its action, cookie or acknowledgments say.
pub proof fn lemma_duplicate_request_is_silent(
    pre: Filter,
    post: Filter,
    ep: Endpoint,
    sequence: u64,
    response_ack: Option<u64>,
    cookie: Option<String>,
    action: RequestAction,
    step: FilterStep,
)
    requires
        deliver_request_post(pre, post, ep, sequence, response_ack, cookie, action, step),
        (match pre.target_high_recv(ep) {
            Option::Some(h) => sequence <= h,
            Option::None => false,
        }),
    ensures
        forall|q: int|
            0 <= q < step.app_notices@.len() ==> !((#[trigger] step.app_notices@[q])
                is NewRequestAction),
{
    assert(spec_classify(pre.target_high_recv(ep), sequence) == SeqClassification::Duplicate);
}

/// Law (companion): whenever a request is surfaced to the application, the
/// session's receive high-water mark ends at or above the request's
/// sequence. Any later packet reusing that sequence therefore classifies as
/// a duplicate, and by [`lemma_duplicate_request_is_silent`] stays silent:
/// no sequence is ever delivered twice within a session's lifetime.
pub proof fn lemma_delivered_request_marks_duplicate(
    pre: Filter,
    post: Filter,
    ep: Endpoint,
    sequence: u64,
    response_ack: Option<u64>,
    cookie: Option<String>,
    action: RequestAction,
    step: FilterStep,
)
    requires
        deliver_request_post(pre, post, ep, sequence, response_ack, cookie, action, step),
        forall|a: int, b: int|
            0 <= a < b < pre.sessions@.len() ==> (#[trigger] pre.sessions@[a]).endpoint != (
            #[trigger] pre.sessions@[b]).endpoint,
        step.app_notices@.len() > 0,
    ensures
        0 <= find_session(post.sessions@, ep) < post.sessions@.len(),
        spec_classify(
            post.sessions@[find_session(post.sessions@, ep)].session.highest_recv_seq,
            sequence,
        ) == SeqClassification::Duplicate,
{
    lemma_target_found(pre.sessions@, post.sessions@, ep);
}

/// Every session that survives a retry scan keeps the endpoint of a
/// surviving session of the old table.
pub proof fn lemma_tick_rel_sources(
    pre: Seq<SessionEntry>,
    post: Seq<SessionEntry>,
    now_ms: u64,
    itv: u64,
    max: u32,
    tid0: u64,
)
    requires
        tick_rel(pre, post, now_ms, itv, max, tid0),
    ensures
        forall|k: int|
            0 <= k < post.len() ==> exists|m: int|
                0 <= m < pre.len() && (#[trigger] post[k]).endpoint == pre[m].endpoint
                    && entry_survives(pre[m], now_ms, itv, max),
    decreases pre.len(),
{
    if pre.len() > 0 {
        let bl = pre.drop_last();
        if entry_survives(pre.last(), now_ms, itv, max) {
            lemma_tick_rel_sources(bl, post.drop_last(), now_ms, itv, max, tid0);
            assert forall|k: int| 0 <= k < post.len() implies exists|m: int|
                0 <= m < pre.len() && (#[trigger] post[k]).endpoint == pre[m].endpoint
                    && entry_survives(pre[m], now_ms, itv, max) by {
                if k < post.len() - 1 {
                    assert(post.drop_last()[k] == post[k]);
                    let m = choose|m: int|
                        0 <= m < bl.len() && post.drop_last()[k].endpoint == bl[m].endpoint
                            && entry_survives(bl[m], now_ms, itv, max);
                    assert(bl[m] == pre[m]);
                } else {
                    assert(post[k].endpoint == pre[pre.len() - 1].endpoint);
                }
            }
        } else {
            lemma_tick_rel_sources(bl, post, now_ms, itv, max, tid0);
            assert forall|k: int| 0 <= k < post.len() implies exists|m: int|
                0 <= m < pre.len() && (#[trigger] post[k]).endpoint == pre[m].endpoint
                    && entry_survives(pre[m], now_ms, itv, max) by {
                let m = choose|m: int|
                    0 <= m < bl.len() && post[k].endpoint == bl[m].endpoint && entry_survives(
                        bl[m],
                        now_ms,
                        itv,
                        max,
                    );
                assert(bl[m] == pre[m]);
            }
        }
    }
}

/// Whether some session of the table is exhausted and owned by `ep`.
pub open spec fn has_exhausted_entry(
    ss: Seq<SessionEntry>,
    ep: Endpoint,
    now_ms: u64,
    itv: u64,
    max: u32,
) -> bool {
    exists|i: int|
        0 <= i < ss.len() && (#[trigger] ss[i]).endpoint == ep && entry_exhausted(
            ss[i],
            now_ms,
            itv,
            max,
        )
}

/// The endpoints a retry scan reports as failed are pairwise distinct, and
/// each belongs to an exhausted session of the old table.
pub proof fn lemma_tick_failures_distinct(
    ss: Seq<SessionEntry>,
    now_ms: u64,
    itv: u64,
    max: u32,
)
    requires
        forall|a: int, b: int|
            0 <= a < b < ss.len() ==> (#[trigger] ss[a]).endpoint != (#[trigger] ss[b]).endpoint,
    ensures
        forall|q: int|
            0 <= q < tick_failures(ss, now_ms, itv, max).len() ==> has_exhausted_entry(
                ss,
                #[trigger] tick_failures(ss, now_ms, itv, max)[q],
                now_ms,
                itv,
                max,
            ),
        forall|a: int, b: int|
            0 <= a < b < tick_failures(ss, now_ms, itv, max).len() ==> tick_failures(
                ss,
                now_ms,
                itv,
                max,
            )[a] != tick_failures(ss, now_ms, itv, max)[b],
    decreases ss.len(),
{
    if ss.len() > 0 {
        let bl = ss.drop_last();
        assert(forall|i: int| 0 <= i < bl.len() ==> bl[i] == ss[i]);
        lemma_tick_failures_distinct(bl, now_ms, itv, max);
        let fs = tick_failures(ss, now_ms, itv, max);
        let fsb = tick_failures(bl, now_ms, itv, max);
        assert forall|q: int| 0 <= q < fs.len() implies has_exhausted_entry(
            ss,
            #[trigger] fs[q],
            now_ms,
            itv,
            max,
        ) by {
            if q < fsb.len() {
                assert(has_exhausted_entry(bl, fsb[q], now_ms, itv, max));
                let i = choose|i: int|
                    0 <= i < bl.len() && (#[trigger] bl[i]).endpoint == fsb[q] && entry_exhausted(
                        bl[i],
                        now_ms,
                        itv,
                        max,
                    );
                assert(fs[q] == fsb[q]);
                assert((ss[i]).endpoint == fs[q] && entry_exhausted(ss[i], now_ms, itv, max));
            } else {
                assert(ss.last() == ss[ss.len() - 1]);
                assert(fs[q] == ss[ss.len() - 1].endpoint);
                assert((ss[ss.len() - 1]).endpoint == fs[q] && entry_exhausted(
                    ss[ss.len() - 1],
                    now_ms,
                    itv,
                    max,
                ));
            }
        }
        assert forall|a: int, b: int| 0 <= a < b < fs.len() implies fs[a] != fs[b] by {
            if b == fs.len() - 1 && fs.len() > fsb.len() {
                assert(has_exhausted_entry(bl, fsb[a], now_ms, itv, max));
                let i = choose|i: int|
                    0 <= i < bl.len() && (#[trigger] bl[i]).endpoint == fsb[a] && entry_exhausted(
                        bl[i],
                        now_ms,
                        itv,
                        max,
                    );
                assert(ss[i].endpoint != ss[ss.len() - 1].endpoint);
            }
        }
    }
}

/// Law: retry exhaustion is reported exactly once per endpoint. The scan
/// that reports an endpoint also discards its session, so the endpoint is
/// absent from the new table and no later scan can report it again (a
/// report requires a session). With [`lemma_tick_failures_distinct`], one
/// scan also never reports the same endpoint twice.
pub proof fn lemma_failed_endpoint_dropped(
    pre: Seq<SessionEntry>,
    post: Seq<SessionEntry>,
    now_ms: u64,
    itv: u64,
    max: u32,
    tid0: u64,
    i: int,
)
    requires
        tick_rel(pre, post, now_ms, itv, max, tid0),
        forall|a: int, b: int|
            0 <= a < b < pre.len() ==> (#[trigger] pre[a]).endpoint != (#[trigger] pre[b]).endpoint,
        0 <= i < pre.len(),
        entry_exhausted(pre[i], now_ms, itv, max),
    ensures
        find_session(post, pre[i].endpoint) == -1,
{
    lemma_tick_rel_sources(pre, post, now_ms, itv, max, tid0);
    lemma_find_session(post, pre[i].endpoint);
    let f = find_session(post, pre[i].endpoint);
    if f >= 0 {
        let m = choose|m: int|
            0 <= m < pre.len() && post[f].endpoint == pre[m].endpoint && entry_survives(
                pre[m],
                now_ms,
                itv,
                max,
            );
        if m < i {
            assert(pre[m].endpoint != pre[i].endpoint);
        }
        if m > i {
            assert(pre[i].endpoint != pre[m].endpoint);
        }
        assert(m == i);
        assert(!entry_survives(pre[i], now_ms, itv, max));
    }
}

/// Law: a `Connect` carrying a supported version from a fresh peer,
/// answered by the application with a `LoggedIn` response, leaves the
/// peer's session in the `Established` phase holding the (non-empty) login
/// cookie, which later requests must present.
pub proof fn lemma_handshake_establishes(
    s0: Filter,
    s1: Filter,
    s2: Filter,
    ep: Endpoint,
    sequence: u64,
    response_ack: Option<u64>,
    cookie0: Option<String>,
    name: String,
    client_version: String,
    step1: FilterStep,
    cookie: String,
    server_version: String,
    now_ms: u64,
    r: Result<FilterStep, FilterError>,
)
    requires
        forall|a: int, b: int|
            0 <= a < b < s0.sessions@.len() ==> (#[trigger] s0.sessions@[a]).endpoint != (
            #[trigger] s0.sessions@[b]).endpoint,
        s0.run_state == RunState::Running,
        deliver_request_post(
            s0,
            s1,
            ep,
            sequence,
            response_ack,
            cookie0,
            RequestAction::Connect { name, client_version },
            step1,
        ),
        spec_classify(s0.target_high_recv(ep), sequence) != SeqClassification::Duplicate,
        s0.target_phase(ep, SessionPhase::Unauthenticated) == SessionPhase::Unauthenticated,
        spec_version_supported(s0.config.supported_versions@, client_version@),
        s0.target_next_seq(ep) < u64::MAX,
        cookie@.len() > 0,
        send_response_post(
            s1,
            s2,
            ep,
            ResponseCode::LoggedIn { cookie, server_version },
            now_ms,
            r,
        ),
    ensures
        r is Ok,
        0 <= find_session(s2.sessions@, ep) < s2.sessions@.len(),
        s2.sessions@[find_session(s2.sessions@, ep)].session.phase == SessionPhase::Established,
        s2.sessions@[find_session(s2.sessions@, ep)].session.cookie == Option::Some(cookie),
        s2.sessions@[find_session(s2.sessions@, ep)].session.cookie.unwrap()@.len() > 0,
{
    lemma_target_found(s0.sessions@, s1.sessions@, ep);
    let t = target_of(s0.sessions@, ep);
    assert(find_session(s1.sessions@, ep) == t);
    assert(s1.sessions@[t].session.phase == SessionPhase::Connecting);
    assert(s1.target_phase(ep, outbound_default_phase(s1.mode)) == SessionPhase::Connecting);
    assert(s1.target_next_seq(ep) == s0.target_next_seq(ep));
    assert forall|a: int, b: int| 0 <= a < b < s1.sessions@.len() implies (
    #[trigger] s1.sessions@[a]).endpoint != (#[trigger] s1.sessions@[b]).endpoint by {
        lemma_find_session(s0.sessions@, ep);
        let f0 = find_session(s0.sessions@, ep);
        if f0 >= 0 {
            if a != f0 {
                assert(s1.sessions@[a] == s0.sessions@[a]);
            }
            if b != f0 {
                assert(s1.sessions@[b] == s0.sessions@[b]);
            }
        } else {
            if b < s0.sessions@.len() {
                assert(s1.sessions@[a] == s0.sessions@[a]);
                assert(s1.sessions@[b] == s0.sessions@[b]);
            } else {
                assert(s1.sessions@[a] == s0.sessions@[a]);
                assert(s0.sessions@[a].endpoint != ep);
            }
        }
    }
    lemma_target_found(s1.sessions@, s2.sessions@, ep);
}

/// Law: sending N distinct requests to one endpoint before any
/// acknowledgment leaves N in-flight entries carrying exactly the sequences
/// 1..=N, none duplicated. A fresh target satisfies the shape with N = 0
/// and every accepted send extends it by one, so the claim holds for every
/// N by induction over the run of send commands.
pub proof fn lemma_engine_sends_contiguous(
    pre: Filter,
    post: Filter,
    ep: Endpoint,
    action: RequestAction,
    now_ms: u64,
    r: Result<FilterStep, FilterError>,
    n: int,
)
    requires
        0 <= n,
        pre.run_state == RunState::Running,
        pre.target_next_seq(ep) == n + 1,
        n + 1 < u64::MAX,
        crate::session::contiguous_from_one(pre.target_inflight(ep), n),
        send_request_post(pre, post, ep, action, now_ms, r),
    ensures
        r is Ok,
        post.sessions@[target_of(pre.sessions@, ep)].session.next_send_seq == n + 2,
        crate::session::contiguous_from_one(
            post.sessions@[target_of(pre.sessions@, ep)].session.inflight@,
            n + 1,
        ),
        forall|i: int, j: int|
            0 <= i < j < n + 1 ==> (#[trigger] post.sessions@[target_of(
                pre.sessions@,
                ep,
            )].session.inflight@[i]).sequence != (#[trigger] post.sessions@[target_of(
                pre.sessions@,
                ep,
            )].session.inflight@[j]).sequence,
{
    let t = target_of(pre.sessions@, ep);
    let inf = post.sessions@[t].session.inflight@;
    assert forall|i: int| 0 <= i < n + 1 implies (#[trigger] inf[i]).sequence == i + 1 by {
        if i < n {
            assert(inf[i] == pre.target_inflight(ep)[i]);
        }
    }
}

/// Law (corollary at the wire): one delivery never tells the transport to
/// drop the same packet twice. Every `DropPacket` a step emits carries a
/// distinct tracking identifier.
pub proof fn lemma_no_double_drop(
    pre: Filter,
    post: Filter,
    ep: Endpoint,
    sequence: u64,
    response_ack: Option<u64>,
    cookie: Option<String>,
    action: RequestAction,
    step: FilterStep,
)
    requires
        pre.wf(),
        deliver_request_post(pre, post, ep, sequence, response_ack, cookie, action, step),
    ensures
        forall|a: int, b: int|
            0 <= a < b < step.transport_cmds@.len() && ((#[trigger] step.transport_cmds@[a])
                is DropPacket) && ((#[trigger] step.transport_cmds@[b]) is DropPacket)
                ==> step.transport_cmds@[a] != step.transport_cmds@[b],
{
    let inf0 = pre.target_inflight(ep);
    let bound = pre.target_next_seq(ep);
    lemma_find_session(pre.sessions@, ep);
    assert(crate::session::entries_wf(inf0, bound));
    let a2 = request_second_ack(action);
    lemma_drops_distinct(inf0, response_ack, a2, bound);
    let drops = drops_after_acks(inf0, response_ack, a2);
    assert forall|a: int, b: int|
        0 <= a < b < step.transport_cmds@.len() && ((#[trigger] step.transport_cmds@[a])
            is DropPacket) && ((#[trigger] step.transport_cmds@[b]) is DropPacket) implies
        step.transport_cmds@[a] != step.transport_cmds@[b] by {
        // Two commands exist, so this step came from the authenticated
        // path, whose commands are exactly one `DropPacket` per freed
        // identifier; the identifiers are pairwise distinct.
        assert(step.transport_cmds@.len() >= 2);
        assert(step.transport_cmds@[a] == (TransportCmd::DropPacket { endpoint: ep, tid: drops[a] }));
        assert(step.transport_cmds@[b] == (TransportCmd::DropPacket { endpoint: ep, tid: drops[b] }));
        assert(drops[a] != drops[b]);
    }
}

/// Law: an immediate shutdown completes at once, waiting on nothing that
/// is still in flight.
pub proof fn lemma_immediate_shutdown_completes(
    pre: Filter,
    post: Filter,
    r: Result<FilterStep, FilterError>,
)
    requires
        shutdown_post(pre, post, false, r),
    ensures
        post.run_state == RunState::Stopped,
        post.sessions@.len() == 0,
{
}

/// Law: a graceful shutdown does not complete while an accepted packet is
/// still awaiting acknowledgment; the engine only drains.
pub proof fn lemma_graceful_shutdown_waits(
    pre: Filter,
    post: Filter,
    r: Result<FilterStep, FilterError>,
)
    requires
        shutdown_post(pre, post, true, r),
        !all_drained(pre.sessions@),
    ensures
        post.run_state == RunState::Draining,
{
}

/// Law: when a draining engine finally stops, nothing it ever accepted is
/// left in its retransmission sets: graceful shutdown completes only after
/// every in-flight packet was acknowledged or its endpoint given up on.
pub proof fn lemma_graceful_completion_is_drained(
    pre: Filter,
    post: Filter,
    now_ms: u64,
    step: FilterStep,
)
    requires
        tick_post(pre, post, now_ms, step),
        pre.run_state == RunState::Draining,
        post.run_state == RunState::Stopped,
    ensures
        all_drained(post.sessions@),
{
}

/// Whether the compatibility policy admits `v`.
fn version_supported(versions: &Vec<String>, v: &String) -> (r: bool)
    ensures
        r == spec_version_supported(versions@, v@),
{
    let n = versions.len();
    let mut i: usize = 0;
    while i < n
        invariant
            n == versions@.len(),
            i <= n,
            forall|k: int| 0 <= k < i ==> (#[trigger] versions@[k])@ != v@,
        decreases n - i,
    {
        if versions[i].eq(v) {
            return true;
        }
        i = i + 1;
    }
    false
}

/// Whether a presented cookie matches the session's cookie.
fn cookie_matches(presented: &Option<String>, held: &Option<String>) -> (r: bool)
    ensures
        r == cookie_ok(*presented, *held),
{
    match (presented, held) {
        (Some(a), Some(b)) => a.eq(b),
        _ => false,
    }
}

/// A copy of an optional cookie, preserving its value exactly.
fn clone_cookie(c: &Option<String>) -> (r: Option<String>)
    ensures
        r == *c,
{
    match c {
        Some(s) => Some(s.clone()),
        None => None,
    }
}

/// Classifies a sequence number against a receive high-water mark.
fn classify_value(highest: Option<u64>, seq: u64) -> (c: SeqClassification)
    ensures
        c == spec_classify(highest, seq),
{
    match highest {
        None => SeqClassification::New,
        Some(h) => if seq <= h {
            SeqClassification::Duplicate
        } else if seq == h + 1 {
            SeqClassification::New
        } else {
            SeqClassification::OutOfOrder
        },
    }
}

/// One `DropPacket` command per freed tracking identifier, first the
/// envelope acknowledgment's batch, then the keep-alive's.
fn drop_cmds(endpoint: Endpoint, d1: &Vec<u64>, d2: &Vec<u64>) -> (cmds: Vec<TransportCmd>)
    ensures
        cmds@.len() == d1@.len() + d2@.len(),
        forall|j: int|
            0 <= j < cmds@.len() ==> cmds@[j] == (TransportCmd::DropPacket {
                endpoint,
                tid: (d1@ + d2@)[j],
            }),
{
    let mut cmds: Vec<TransportCmd> = Vec::new();
    let n1 = d1.len();
    let mut i: usize = 0;
    while i < n1
        invariant
            n1 == d1@.len(),
            i <= n1,
            cmds@.len() == i,
            forall|j: int|
                0 <= j < i ==> cmds@[j] == (TransportCmd::DropPacket { endpoint, tid: d1@[j] }),
        decreases n1 - i,
    {
        cmds.push(TransportCmd::DropPacket { endpoint, tid: d1[i] });
        i = i + 1;
    }
    let n2 = d2.len();
    let mut k: usize = 0;
    while k < n2
        invariant
            n1 == d1@.len(),
            n2 == d2@.len(),
            k <= n2,
            cmds@.len() == n1 + k,
            forall|j: int|
                0 <= j < n1 ==> cmds@[j] == (TransportCmd::DropPacket { endpoint, tid: d1@[j] }),
            forall|j: int|
                n1 <= j < n1 + k ==> cmds@[j] == (TransportCmd::DropPacket {
                    endpoint,
                    tid: d2@[j - n1],
                }),
        decreases n2 - k,
    {
        cmds.push(TransportCmd::DropPacket { endpoint, tid: d2[k] });
        k = k + 1;
    }
    proof {
        assert forall|j: int| 0 <= j < cmds@.len() implies cmds@[j] == (TransportCmd::DropPacket {
            endpoint,
            tid: (d1@ + d2@)[j],
        }) by {
            if j < n1 {
                assert((d1@ + d2@)[j] == d1@[j]);
            } else {
                assert((d1@ + d2@)[j] == d2@[j - n1]);
            }
        }
    }
    cmds
}

} // verus!
