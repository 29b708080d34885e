//! Per-endpoint reliability state: sequence tracking, acknowledgment
//! reconciliation and the retransmission set.
//!
//! A [`Session`] records everything the engine needs to know about one
//! remote peer: where both directions' sequence counters stand, which sent
//! packets are still awaiting acknowledgment, and how far the handshake has
//! progressed. Sessions are owned and mutated exclusively by the
//! [`crate::filter::Filter`] engine.

use vstd::prelude::*;

use crate::protocol::{packet_sequence, Packet};

verus! {

/// Where one endpoint stands in its connection lifecycle.
#[derive(Clone, Copy, Debug, PartialEq, Eq, Structural)]
pub enum SessionPhase {
    /// Observed, but no acceptable handshake yet.
    Unauthenticated,
    /// Handshake opened and accepted; waiting for the login response.
    Connecting,
    /// Steady state: requests flow and are surfaced to the application.
    Established,
    /// Terminal condition observed; the session drains and is removed.
    Closing,
}

/// How an inbound sequence number relates to what was already received.
#[derive(Clone, Copy, Debug, PartialEq, Eq, Structural)]
pub enum SeqClassification {
    /// The next expected sequence (or the first packet ever seen).
    New,
    /// At or below the highest sequence already received.
    Duplicate,
    /// Ahead of the next expected sequence: something in between was lost
    /// or reordered. Delivered immediately; gaps are not reconciled later.
    OutOfOrder,
}

/// One sent packet awaiting acknowledgment.
pub struct InflightEntry {
    /// Transport-tracking identifier of the most recent send attempt.
    pub tid: u64,
    /// The packet's sequence number; retransmissions keep it.
    pub sequence: u64,
    /// When the most recent send attempt was made.
    pub send_time_ms: u64,
    /// How many times the packet has been retransmitted.
    pub retry_count: u32,
    /// The packet itself, resent verbatim on retry.
    pub packet: Packet,
}

impl Clone for InflightEntry {
    fn clone(&self) -> (r: Self)
        ensures
            r == *self,
    {
        InflightEntry {
            tid: self.tid,
            sequence: self.sequence,
            send_time_ms: self.send_time_ms,
            retry_count: self.retry_count,
            packet: self.packet.clone(),
        }
    }
}

/// Reliability and authentication state for one remote endpoint.
pub struct Session {
    pub phase: SessionPhase,
    /// Sequence number the next newly sent packet will carry; starts at 1.
    pub next_send_seq: u64,
    /// Highest sequence the peer has acknowledged; anything at or below is
    /// safe to stop retransmitting.
    pub peer_ack_seq: Option<u64>,
    /// Highest sequence received from the peer, for duplicate and
    /// out-of-order detection.
    pub highest_recv_seq: Option<u64>,
    /// Session token assigned at login; required on all later requests.
    pub cookie: Option<String>,
    /// Sent packets not yet acknowledged, in increasing sequence order.
    pub inflight: Vec<InflightEntry>,
}

/// Validity of a retransmission set: sequences strictly increasing and below
/// `seq_bound`, each entry's packet stamped with the entry's own sequence,
/// and tracking identifiers pairwise distinct.
pub open spec fn entries_wf(inf: Seq<InflightEntry>, seq_bound: u64) -> bool {
    &&& forall|i: int, j: int|
        0 <= i < j < inf.len() ==> #[trigger] inf[i].sequence < #[trigger] inf[j].sequence
    &&& forall|i: int| 0 <= i < inf.len() ==> 1 <= #[trigger] inf[i].sequence < seq_bound
    &&& forall|i: int| 0 <= i < inf.len() ==> packet_sequence(#[trigger] inf[i].packet) == inf[i].sequence
    &&& forall|i: int, j: int| 0 <= i < j < inf.len() ==> #[trigger] inf[i].tid != #[trigger] inf[j].tid
}

/// How an inbound sequence is classified against the highest one received.
pub open spec fn spec_classify(highest: Option<u64>, seq: u64) -> SeqClassification {
    match highest {
        Option::None => SeqClassification::New,
        Option::Some(h) => if seq <= h {
            SeqClassification::Duplicate
        } else if seq == h + 1 {
            SeqClassification::New
        } else {
            SeqClassification::OutOfOrder
        },
    }
}

/// The highest received sequence after observing `seq`: it never decreases.
pub open spec fn observed_high(highest: Option<u64>, seq: u64) -> Option<u64> {
    match highest {
        Option::None => Option::Some(seq),
        Option::Some(h) => Option::Some(if seq > h { seq } else { h }),
    }
}

/// The highest peer acknowledgment after folding in `ack`: never decreases.
pub open spec fn raised_ack(peer_ack: Option<u64>, ack: u64) -> Option<u64> {
    match peer_ack {
        Option::None => Option::Some(ack),
        Option::Some(p) => Option::Some(if ack > p { ack } else { p }),
    }
}

/// The retransmission set after an acknowledgment of `ack`: exactly the
/// entries whose sequence lies above it, in their original order.
pub open spec fn kept(inf: Seq<InflightEntry>, ack: u64) -> Seq<InflightEntry>
    decreases inf.len(),
{
    if inf.len() == 0 {
        Seq::empty()
    } else {
        let prefix = kept(inf.drop_last(), ack);
        if inf.last().sequence > ack {
            prefix.push(inf.last())
        } else {
            prefix
        }
    }
}

/// The tracking identifiers freed by an acknowledgment of `ack`: one per
/// removed entry, in the entries' original order.
pub open spec fn dropped_tids(inf: Seq<InflightEntry>, ack: u64) -> Seq<u64>
    decreases inf.len(),
{
    if inf.len() == 0 {
        Seq::empty()
    } else {
        let prefix = dropped_tids(inf.drop_last(), ack);
        if inf.last().sequence <= ack {
            prefix.push(inf.last().tid)
        } else {
            prefix
        }
    }
}

/// Everything an acknowledgment keeps was already in flight and lies above
/// the acknowledgment, and a valid retransmission set stays valid when an
/// acknowledgment thins it.
pub proof fn lemma_kept_entries(inf: Seq<InflightEntry>, ack: u64, seq_bound: u64)
    ensures
        forall|k: int| 0 <= k < kept(inf, ack).len() ==> inf.contains(#[trigger] kept(inf, ack)[k]),
        forall|k: int| 0 <= k < kept(inf, ack).len() ==> (#[trigger] kept(inf, ack)[k]).sequence > ack,
        entries_wf(inf, seq_bound) ==> entries_wf(kept(inf, ack), seq_bound),
    decreases inf.len(),
{
    if inf.len() == 0 {
    } else {
        let bl = inf.drop_last();
        lemma_kept_entries(bl, ack, seq_bound);
        assert forall|k: int| 0 <= k < kept(inf, ack).len() implies inf.contains(
            #[trigger] kept(inf, ack)[k],
        ) by {
            if k < kept(bl, ack).len() {
                assert(bl.contains(kept(bl, ack)[k]));
                let m = choose|m: int| 0 <= m < bl.len() && bl[m] == kept(bl, ack)[k];
                assert(inf[m] == kept(inf, ack)[k]);
            } else {
                assert(kept(inf, ack)[k] == inf[inf.len() - 1]);
            }
        }
        if entries_wf(inf, seq_bound) {
            assert(entries_wf(bl, seq_bound)) by {
                assert(forall|i: int| 0 <= i < bl.len() ==> bl[i] == inf[i]);
            }
            let out = kept(inf, ack);
            let pre = kept(bl, ack);
            assert forall|i: int, j: int| 0 <= i < j < out.len() implies #[trigger] out[i].sequence
                < #[trigger] out[j].sequence && #[trigger] out[i].tid != #[trigger] out[j].tid by {
                if j < pre.len() {
                    assert(out[i] == pre[i] && out[j] == pre[j]);
                } else {
                    // `j` can only name the freshly pushed last element.
                    assert(out[j] == inf[inf.len() - 1]);
                    assert(bl.contains(pre[i]));
                    let m = choose|m: int| 0 <= m < bl.len() && bl[m] == pre[i];
                    assert(inf[m] == out[i]);
                }
            }
            assert forall|i: int| 0 <= i < out.len() implies 1 <= #[trigger] out[i].sequence
                < seq_bound && packet_sequence(out[i].packet) == out[i].sequence by {
                assert(inf.contains(out[i]));
                let m = choose|m: int| 0 <= m < inf.len() && inf[m] == out[i];
                assert(packet_sequence(inf[m].packet) == inf[m].sequence);
            }
        }
    }
}

/// Whether some entry at or below the acknowledgment carries this tracking
/// identifier.
pub open spec fn holds_dropped_tid(inf: Seq<InflightEntry>, tid: u64, ack: u64) -> bool {
    exists|i: int|
        0 <= i < inf.len() && (#[trigger] inf[i]).tid == tid && inf[i].sequence <= ack
}

/// Each freed tracking identifier belongs to a removed entry, and — in a
/// valid retransmission set — no identifier is freed twice by one
/// acknowledgment.
pub proof fn lemma_dropped_tids_from_entries(inf: Seq<InflightEntry>, ack: u64, seq_bound: u64)
    ensures
        forall|q: int|
            0 <= q < dropped_tids(inf, ack).len() ==> holds_dropped_tid(
                inf,
                #[trigger] dropped_tids(inf, ack)[q],
                ack,
            ),
        entries_wf(inf, seq_bound) ==> forall|a: int, b: int|
            0 <= a < b < dropped_tids(inf, ack).len() ==> dropped_tids(inf, ack)[a]
                != dropped_tids(inf, ack)[b],
    decreases inf.len(),
{
    if inf.len() > 0 {
        let bl = inf.drop_last();
        assert(forall|i: int| 0 <= i < bl.len() ==> bl[i] == inf[i]);
        lemma_dropped_tids_from_entries(bl, ack, seq_bound);
        let ds = dropped_tids(inf, ack);
        let dsb = dropped_tids(bl, ack);
        if entries_wf(inf, seq_bound) {
            assert(entries_wf(bl, seq_bound));
        }
        assert forall|q: int| 0 <= q < ds.len() implies holds_dropped_tid(
            inf,
            #[trigger] ds[q],
            ack,
        ) by {
            if q < dsb.len() {
                assert(holds_dropped_tid(bl, dsb[q], ack));
                let i = choose|i: int|
                    0 <= i < bl.len() && (#[trigger] bl[i]).tid == dsb[q] && bl[i].sequence <= ack;
                assert(ds[q] == dsb[q]);
                assert((inf[i]).tid == ds[q] && inf[i].sequence <= ack);
            } else {
                assert(inf.last() == inf[inf.len() - 1]);
                assert((inf[inf.len() - 1]).tid == ds[q] && inf[inf.len() - 1].sequence <= ack);
            }
        }
        if entries_wf(inf, seq_bound) {
            assert forall|a: int, b: int| 0 <= a < b < ds.len() implies ds[a] != ds[b] by {
                if b == ds.len() - 1 && ds.len() > dsb.len() {
                    assert(holds_dropped_tid(bl, dsb[a], ack));
                    let i = choose|i: int|
                        0 <= i < bl.len() && (#[trigger] bl[i]).tid == dsb[a] && bl[i].sequence
                            <= ack;
                    assert(inf[i].tid != inf[inf.len() - 1].tid);
                }
            }
        }
    }
}

/// Law: acknowledging `ack` removes exactly the in-flight entries with
/// `sequence <= ack` and frees exactly one tracking identifier per removed
/// entry, namely its own; everything above `ack` is kept in order.
pub proof fn lemma_acknowledge_exact(inf: Seq<InflightEntry>, ack: u64)
    ensures
        kept(inf, ack) == inf.filter(|e: InflightEntry| e.sequence > ack),
        dropped_tids(inf, ack) == inf.filter(|e: InflightEntry| e.sequence <= ack).map_values(
            |e: InflightEntry| e.tid,
        ),
        dropped_tids(inf, ack).len() + kept(inf, ack).len() == inf.len(),
    decreases inf.len(),
{
    reveal(Seq::filter);
    let above = |e: InflightEntry| e.sequence > ack;
    let below = |e: InflightEntry| e.sequence <= ack;
    let tid_of = |e: InflightEntry| e.tid;
    if inf.len() == 0 {
        assert(kept(inf, ack) =~= inf.filter(above));
        assert(dropped_tids(inf, ack) =~= inf.filter(below).map_values(tid_of));
    } else {
        let bl = inf.drop_last();
        lemma_acknowledge_exact(bl, ack);
        if inf.last().sequence <= ack {
            assert(bl.filter(below).push(inf.last()).map_values(tid_of) =~= bl.filter(
                below,
            ).map_values(tid_of).push(inf.last().tid));
        }
    }
}

/// Whether a sent packet has waited past the retry interval without being
/// acknowledged.
pub open spec fn is_due(e: InflightEntry, now_ms: u64, retry_interval_ms: u64) -> bool {
    e.send_time_ms + retry_interval_ms < now_ms
}

/// How many in-flight entries are due for retransmission.
pub open spec fn due_count(inf: Seq<InflightEntry>, now_ms: u64, retry_interval_ms: u64) -> int
    decreases inf.len(),
{
    if inf.len() == 0 {
        0
    } else {
        due_count(inf.drop_last(), now_ms, retry_interval_ms) + if is_due(
            inf.last(),
            now_ms,
            retry_interval_ms,
        ) {
            1int
        } else {
            0int
        }
    }
}

/// The tracking identifiers of the entries due for retransmission, in order.
pub open spec fn due_tids(inf: Seq<InflightEntry>, now_ms: u64, retry_interval_ms: u64) -> Seq<u64>
    decreases inf.len(),
{
    if inf.len() == 0 {
        Seq::empty()
    } else {
        let prefix = due_tids(inf.drop_last(), now_ms, retry_interval_ms);
        if is_due(inf.last(), now_ms, retry_interval_ms) {
            prefix.push(inf.last().tid)
        } else {
            prefix
        }
    }
}

/// Whether some entry is due for retransmission but has already spent its
/// whole retry budget, which marks the endpoint as failed.
pub open spec fn any_exhausted(
    inf: Seq<InflightEntry>,
    now_ms: u64,
    retry_interval_ms: u64,
    max_retries: u32,
) -> bool {
    exists|i: int|
        0 <= i < inf.len() && is_due(#[trigger] inf[i], now_ms, retry_interval_ms)
            && inf[i].retry_count >= max_retries
}

/// The retransmission set after a retry scan: due entries keep their
/// sequence and packet but take a fresh tracking identifier (consecutive
/// from `first_tid`, in entry order), the scan time and one more retry;
/// entries not yet due are untouched.
pub open spec fn retried(
    inf: Seq<InflightEntry>,
    now_ms: u64,
    retry_interval_ms: u64,
    first_tid: u64,
) -> Seq<InflightEntry>
    decreases inf.len(),
{
    if inf.len() == 0 {
        Seq::empty()
    } else {
        let prefix = retried(inf.drop_last(), now_ms, retry_interval_ms, first_tid);
        let e = inf.last();
        if is_due(e, now_ms, retry_interval_ms) {
            prefix.push(InflightEntry {
                tid: (first_tid + due_count(inf.drop_last(), now_ms, retry_interval_ms)) as u64,
                sequence: e.sequence,
                send_time_ms: now_ms,
                retry_count: (e.retry_count + 1) as u32,
                packet: e.packet,
            })
        } else {
            prefix.push(e)
        }
    }
}

/// What a retry scan hands back to the transport: each due entry's fresh
/// tracking identifier paired with its original packet, in entry order.
pub open spec fn resends(
    inf: Seq<InflightEntry>,
    now_ms: u64,
    retry_interval_ms: u64,
    first_tid: u64,
) -> Seq<(u64, Packet)>
    decreases inf.len(),
{
    if inf.len() == 0 {
        Seq::empty()
    } else {
        let prefix = resends(inf.drop_last(), now_ms, retry_interval_ms, first_tid);
        let e = inf.last();
        if is_due(e, now_ms, retry_interval_ms) {
            prefix.push(
                (((first_tid + due_count(inf.drop_last(), now_ms, retry_interval_ms)) as u64), e.packet),
            )
        } else {
            prefix
        }
    }
}

/// Scanning one more entry adds one to the due count exactly when that
/// entry is due.
pub proof fn lemma_due_count_prefix(
    inf: Seq<InflightEntry>,
    now_ms: u64,
    retry_interval_ms: u64,
    k: int,
)
    requires
        0 <= k < inf.len(),
    ensures
        due_count(inf.subrange(0, k + 1), now_ms, retry_interval_ms) == due_count(
            inf.subrange(0, k),
            now_ms,
            retry_interval_ms,
        ) + if is_due(inf[k], now_ms, retry_interval_ms) {
            1int
        } else {
            0int
        },
{
    let cur = inf.subrange(0, k + 1);
    assert(cur.drop_last() =~= inf.subrange(0, k));
    assert(cur.last() == inf[k]);
}

/// The due count of a prefix never exceeds the prefix length and never
/// shrinks as the prefix grows.
pub proof fn lemma_due_count_mono(
    inf: Seq<InflightEntry>,
    now_ms: u64,
    retry_interval_ms: u64,
    a: int,
    b: int,
)
    requires
        0 <= a <= b <= inf.len(),
    ensures
        due_count(inf.subrange(0, a), now_ms, retry_interval_ms) <= due_count(
            inf.subrange(0, b),
            now_ms,
            retry_interval_ms,
        ),
        b - a >= due_count(inf.subrange(0, b), now_ms, retry_interval_ms) - due_count(
            inf.subrange(0, a),
            now_ms,
            retry_interval_ms,
        ),
    decreases b - a,
{
    if a < b {
        lemma_due_count_prefix(inf, now_ms, retry_interval_ms, b - 1);
        lemma_due_count_mono(inf, now_ms, retry_interval_ms, a, b - 1);
    }
}

/// Pointwise shape of a retry scan: lengths are preserved, every entry
/// keeps its sequence and packet, due entries take consecutive fresh
/// tracking identifiers and one more retry, and the rest are untouched.
#[verifier::rlimit(50)]
pub proof fn lemma_retried_props(
    inf: Seq<InflightEntry>,
    now_ms: u64,
    retry_interval_ms: u64,
    first_tid: u64,
)
    ensures
        retried(inf, now_ms, retry_interval_ms, first_tid).len() == inf.len(),
        resends(inf, now_ms, retry_interval_ms, first_tid).len() == due_count(
            inf,
            now_ms,
            retry_interval_ms,
        ),
        0 <= due_count(inf, now_ms, retry_interval_ms) <= inf.len(),
        forall|k: int|
            0 <= k < inf.len() ==> (#[trigger] retried(inf, now_ms, retry_interval_ms, first_tid)[k]).sequence
                == inf[k].sequence && retried(inf, now_ms, retry_interval_ms, first_tid)[k].packet
                == inf[k].packet,
        forall|k: int|
            0 <= k < inf.len() && is_due(#[trigger] inf[k], now_ms, retry_interval_ms) ==> retried(
                inf,
                now_ms,
                retry_interval_ms,
                first_tid,
            )[k] == (InflightEntry {
                tid: (first_tid + due_count(inf.subrange(0, k), now_ms, retry_interval_ms)) as u64,
                sequence: inf[k].sequence,
                send_time_ms: now_ms,
                retry_count: (inf[k].retry_count + 1) as u32,
                packet: inf[k].packet,
            }),
        forall|k: int|
            0 <= k < inf.len() && !is_due(#[trigger] inf[k], now_ms, retry_interval_ms) ==> retried(
                inf,
                now_ms,
                retry_interval_ms,
                first_tid,
            )[k] == inf[k],
    decreases inf.len(),
{
    if inf.len() > 0 {
        let bl = inf.drop_last();
        lemma_retried_props(bl, now_ms, retry_interval_ms, first_tid);
        assert(bl =~= inf.subrange(0, inf.len() - 1));
        assert forall|k: int| 0 <= k < bl.len() implies bl.subrange(0, k) =~= inf.subrange(
            0,
            k,
        ) by {}
    }
}

/// A valid retransmission set stays valid across a retry scan, provided the
/// fresh identifiers start above every identifier already in flight.
pub proof fn lemma_retried_wf(
    inf: Seq<InflightEntry>,
    now_ms: u64,
    retry_interval_ms: u64,
    first_tid: u64,
    seq_bound: u64,
)
    requires
        entries_wf(inf, seq_bound),
        forall|i: int| 0 <= i < inf.len() ==> #[trigger] inf[i].tid < first_tid,
        first_tid + inf.len() <= u64::MAX,
    ensures
        entries_wf(retried(inf, now_ms, retry_interval_ms, first_tid), seq_bound),
{
    lemma_retried_props(inf, now_ms, retry_interval_ms, first_tid);
    let out = retried(inf, now_ms, retry_interval_ms, first_tid);
    assert forall|i: int| 0 <= i < out.len() implies (#[trigger] out[i]).tid == if is_due(
        inf[i],
        now_ms,
        retry_interval_ms,
    ) {
        (first_tid + due_count(inf.subrange(0, i), now_ms, retry_interval_ms)) as u64
    } else {
        inf[i].tid
    } by {}
    assert forall|i: int, j: int| 0 <= i < j < out.len() implies #[trigger] out[i].tid
        != #[trigger] out[j].tid by {
        lemma_due_count_mono(inf, now_ms, retry_interval_ms, 0, i);
        lemma_due_count_mono(inf, now_ms, retry_interval_ms, 0, j);
        lemma_due_count_mono(inf, now_ms, retry_interval_ms, i + 1, j);
        lemma_due_count_prefix(inf, now_ms, retry_interval_ms, i);
        assert(inf.subrange(0, 0) =~= Seq::<InflightEntry>::empty());
    }
}

/// A due count never exceeds the number of entries scanned.
pub proof fn lemma_due_count_bounds(inf: Seq<InflightEntry>, now_ms: u64, retry_interval_ms: u64)
    ensures
        0 <= due_count(inf, now_ms, retry_interval_ms) <= inf.len(),
    decreases inf.len(),
{
    if inf.len() > 0 {
        lemma_due_count_bounds(inf.drop_last(), now_ms, retry_interval_ms);
    }
}

/// After a retry scan whose fresh identifiers start above everything in
/// flight, every identifier stays below the scan's final counter position.
pub proof fn lemma_retried_tid_bound(
    inf: Seq<InflightEntry>,
    now_ms: u64,
    retry_interval_ms: u64,
    first_tid: u64,
)
    requires
        forall|i: int| 0 <= i < inf.len() ==> (#[trigger] inf[i]).tid < first_tid,
        first_tid + inf.len() <= u64::MAX,
    ensures
        forall|k: int|
            0 <= k < retried(inf, now_ms, retry_interval_ms, first_tid).len() ==> (
            #[trigger] retried(inf, now_ms, retry_interval_ms, first_tid)[k]).tid < first_tid
                + due_count(inf, now_ms, retry_interval_ms),
{
    lemma_retried_props(inf, now_ms, retry_interval_ms, first_tid);
    lemma_due_count_bounds(inf, now_ms, retry_interval_ms);
    let out = retried(inf, now_ms, retry_interval_ms, first_tid);
    assert forall|k: int| 0 <= k < out.len() implies (#[trigger] out[k]).tid < first_tid
        + due_count(inf, now_ms, retry_interval_ms) by {
        if is_due(inf[k], now_ms, retry_interval_ms) {
            lemma_due_count_prefix(inf, now_ms, retry_interval_ms, k);
            lemma_due_count_mono(inf, now_ms, retry_interval_ms, k + 1, inf.len() as int);
            lemma_due_count_mono(inf, now_ms, retry_interval_ms, 0, k);
            assert(inf.subrange(0, inf.len() as int) =~= inf);
            assert(inf.subrange(0, 0) =~= Seq::<InflightEntry>::empty());
        }
    }
}

/// Law: a retry scan resends every packet past the retry interval with the
/// same sequence number and the same packet bytes, under a tracking
/// identifier that was never used before (all prior identifiers lie below
/// `first_tid`; every fresh one lies at or above it), and leaves packets
/// not yet due completely untouched.
pub proof fn lemma_retransmission_verbatim(
    inf: Seq<InflightEntry>,
    now_ms: u64,
    retry_interval_ms: u64,
    first_tid: u64,
)
    requires
        forall|i: int| 0 <= i < inf.len() ==> (#[trigger] inf[i]).tid < first_tid,
        first_tid + inf.len() <= u64::MAX,
    ensures
        retried(inf, now_ms, retry_interval_ms, first_tid).len() == inf.len(),
        forall|k: int|
            0 <= k < inf.len() ==> (#[trigger] retried(inf, now_ms, retry_interval_ms, first_tid)[k]).sequence
                == inf[k].sequence && retried(inf, now_ms, retry_interval_ms, first_tid)[k].packet
                == inf[k].packet,
        forall|k: int|
            0 <= k < inf.len() && is_due(#[trigger] inf[k], now_ms, retry_interval_ms) ==> retried(
                inf,
                now_ms,
                retry_interval_ms,
                first_tid,
            )[k].tid >= first_tid,
        forall|k: int|
            0 <= k < inf.len() && !is_due(#[trigger] inf[k], now_ms, retry_interval_ms) ==> retried(
                inf,
                now_ms,
                retry_interval_ms,
                first_tid,
            )[k] == inf[k],
{
    lemma_retried_props(inf, now_ms, retry_interval_ms, first_tid);
    lemma_due_count_bounds(inf, now_ms, retry_interval_ms);
    assert forall|k: int|
        0 <= k < inf.len() && is_due(#[trigger] inf[k], now_ms, retry_interval_ms) implies retried(
        inf,
        now_ms,
        retry_interval_ms,
        first_tid,
    )[k].tid >= first_tid by {
        lemma_due_count_mono(inf, now_ms, retry_interval_ms, 0, k);
        lemma_due_count_mono(inf, now_ms, retry_interval_ms, k, inf.len() as int);
        assert(inf.subrange(0, 0) =~= Seq::<InflightEntry>::empty());
        assert(inf.subrange(0, inf.len() as int) =~= inf);
    }
}

/// Full effect of [`Session::register_outbound`]: the packet joins the end
/// of the retransmission set under the session's next sequence, which then
/// advances by exactly one; nothing else moves.
pub open spec fn register_post(
    pre: Session,
    post: Session,
    packet: Packet,
    tid: u64,
    now_ms: u64,
) -> bool {
    &&& post == (Session {
        next_send_seq: (pre.next_send_seq + 1) as u64,
        inflight: post.inflight,
        ..pre
    })
    &&& post.inflight@ == pre.inflight@.push(InflightEntry {
        tid,
        sequence: pre.next_send_seq,
        send_time_ms: now_ms,
        retry_count: 0,
        packet,
    })
}

/// A retransmission set holding exactly the sequences `1..=n`, one each, in
/// order: the shape of a session that has sent `n` requests and heard no
/// acknowledgment yet.
pub open spec fn contiguous_from_one(inf: Seq<InflightEntry>, n: int) -> bool {
    &&& inf.len() == n
    &&& forall|i: int| 0 <= i < n ==> (#[trigger] inf[i]).sequence == i + 1
}

/// Law: registering N distinct requests before any acknowledgment leaves N
/// in-flight entries carrying exactly the sequences 1..=N, none duplicated.
/// A fresh session satisfies the shape with N = 0 (see
/// [`lemma_fresh_sends_base`]) and every registration extends it by one, so
/// the claim holds for every N by induction over the run of sends.
pub proof fn lemma_unacked_sends_contiguous(
    pre: Session,
    post: Session,
    packet: Packet,
    tid: u64,
    now_ms: u64,
    n: int,
)
    requires
        0 <= n,
        pre.next_send_seq == n + 1,
        pre.next_send_seq < u64::MAX,
        contiguous_from_one(pre.inflight@, n),
        register_post(pre, post, packet, tid, now_ms),
    ensures
        post.next_send_seq == n + 2,
        contiguous_from_one(post.inflight@, n + 1),
        forall|i: int, j: int|
            0 <= i < j < post.inflight@.len() ==> (#[trigger] post.inflight@[i]).sequence != (
            #[trigger] post.inflight@[j]).sequence,
{
}

/// Base of the induction behind [`lemma_unacked_sends_contiguous`]: a fresh
/// session has sent nothing and its counter stands at 1.
pub proof fn lemma_fresh_sends_base(s: Session, phase: SessionPhase)
    requires
        s.is_fresh(phase),
    ensures
        contiguous_from_one(s.inflight@, 0),
        s.next_send_seq == 1,
{
}

impl Session {
    /// Internal consistency of one session.
    pub open spec fn wf(self) -> bool {
        &&& 1 <= self.next_send_seq
        &&& entries_wf(self.inflight@, self.next_send_seq)
    }

    /// A session that has exchanged nothing yet.
    pub open spec fn is_fresh(self, phase: SessionPhase) -> bool {
        &&& self.phase == phase
        &&& self.next_send_seq == 1
        &&& self.peer_ack_seq is None
        &&& self.highest_recv_seq is None
        &&& self.cookie is None
        &&& self.inflight@ =~= Seq::<InflightEntry>::empty()
    }

    /// Creates the record for a newly observed endpoint.
    pub fn new(phase: SessionPhase) -> (s: Session)
        ensures
            s.is_fresh(phase),
            s.wf(),
    {
        Session {
            phase,
            next_send_seq: 1,
            peer_ack_seq: None,
            highest_recv_seq: None,
            cookie: None,
            inflight: Vec::new(),
        }
    }

    /// Classifies an inbound sequence number as new, duplicate or out of
    /// order, and advances the high-water mark of received sequences.
    pub fn observe_inbound(&mut self, seq: u64) -> (c: SeqClassification)
        ensures
            c == spec_classify(old(self).highest_recv_seq, seq),
            *final(self) == (Session {
                highest_recv_seq: observed_high(old(self).highest_recv_seq, seq),
                ..*old(self)
            }),
    {
        let c = match self.highest_recv_seq {
            None => SeqClassification::New,
            Some(h) => if seq <= h {
                SeqClassification::Duplicate
            } else if seq == h + 1 {
                SeqClassification::New
            } else {
                SeqClassification::OutOfOrder
            },
        };
        match self.highest_recv_seq {
            None => {
                self.highest_recv_seq = Some(seq);
            },
            Some(h) => if seq > h {
                self.highest_recv_seq = Some(seq);
            },
        }
        c
    }

    /// Stores a freshly stamped outbound packet in the retransmission set.
    ///
    /// The caller stamps the packet with this session's next sequence and
    /// supplies a tracking identifier distinct from every one in flight.
    pub fn register_outbound(&mut self, packet: Packet, tid: u64, now_ms: u64)
        requires
            old(self).wf(),
            old(self).next_send_seq < u64::MAX,
            packet_sequence(packet) == old(self).next_send_seq,
            forall|i: int| 0 <= i < old(self).inflight@.len()
                ==> #[trigger] old(self).inflight@[i].tid != tid,
        ensures
            final(self).wf(),
            register_post(*old(self), *final(self), packet, tid, now_ms),
    {
        let sequence = self.next_send_seq;
        self.inflight.push(InflightEntry { tid, sequence, send_time_ms: now_ms, retry_count: 0, packet });
        self.next_send_seq = self.next_send_seq + 1;
    }

    /// Folds a peer acknowledgment into the session: every in-flight entry
    /// at or below `ack` leaves the retransmission set the instant the
    /// acknowledgment arrives, and its tracking identifier is returned so
    /// the transport can be told to drop the packet.
    pub fn acknowledge(&mut self, ack: u64) -> (dropped: Vec<u64>)
        ensures
            final(self).inflight@ == kept(old(self).inflight@, ack),
            dropped@ == dropped_tids(old(self).inflight@, ack),
            *final(self) == (Session {
                peer_ack_seq: raised_ack(old(self).peer_ack_seq, ack),
                inflight: final(self).inflight,
                ..*old(self)
            }),
            old(self).wf() ==> final(self).wf(),
    {
        let ghost orig = self.inflight@;
        let mut kept_entries: Vec<InflightEntry> = Vec::new();
        let mut dropped: Vec<u64> = Vec::new();
        let n = self.inflight.len();
        let mut i: usize = 0;
        while i < n
            invariant
                n == self.inflight@.len(),
                i <= n,
                self.inflight@ == orig,
                kept_entries@ == kept(orig.subrange(0, i as int), ack),
                dropped@ == dropped_tids(orig.subrange(0, i as int), ack),
            decreases n - i,
        {
            let entry = &self.inflight[i];
            if entry.sequence <= ack {
                dropped.push(entry.tid);
            } else {
                kept_entries.push(entry.clone());
            }
            proof {
                let pre = orig.subrange(0, i as int);
                let cur = orig.subrange(0, i + 1 as int);
                assert(cur.drop_last() =~= pre);
                assert(cur.last() == orig[i as int]);
            }
            i = i + 1;
        }
        proof {
            assert(orig.subrange(0, n as int) =~= orig);
        }
        self.inflight = kept_entries;
        match self.peer_ack_seq {
            None => {
                self.peer_ack_seq = Some(ack);
            },
            Some(p) => if ack > p {
                self.peer_ack_seq = Some(ack);
            },
        }
        proof {
            if old(self).wf() {
                lemma_kept_entries(orig, ack, old(self).next_send_seq);
            }
        }
        dropped
    }

    /// The tracking identifiers of every in-flight entry that has waited
    /// past the retry interval, in increasing sequence order.
    pub fn due_for_retry(&self, now_ms: u64, retry_interval_ms: u64) -> (tids: Vec<u64>)
        ensures
            tids@ == due_tids(self.inflight@, now_ms, retry_interval_ms),
    {
        let mut tids: Vec<u64> = Vec::new();
        let n = self.inflight.len();
        let mut i: usize = 0;
        while i < n
            invariant
                n == self.inflight@.len(),
                i <= n,
                tids@ == due_tids(self.inflight@.subrange(0, i as int), now_ms, retry_interval_ms),
            decreases n - i,
        {
            let entry = &self.inflight[i];
            if (entry.send_time_ms as u128) + (retry_interval_ms as u128) < (now_ms as u128) {
                tids.push(entry.tid);
            }
            proof {
                let cur = self.inflight@.subrange(0, i + 1 as int);
                assert(cur.drop_last() =~= self.inflight@.subrange(0, i as int));
                assert(cur.last() == self.inflight@[i as int]);
            }
            i = i + 1;
        }
        proof {
            assert(self.inflight@.subrange(0, n as int) =~= self.inflight@);
        }
        tids
    }

    /// Whether some entry is due for retransmission with its retry budget
    /// already spent, i.e. whether this endpoint has failed.
    pub fn has_exhausted_due(&self, now_ms: u64, retry_interval_ms: u64, max_retries: u32) -> (b:
        bool)
        ensures
            b == any_exhausted(self.inflight@, now_ms, retry_interval_ms, max_retries),
    {
        let n = self.inflight.len();
        let mut i: usize = 0;
        while i < n
            invariant
                n == self.inflight@.len(),
                i <= n,
                forall|k: int|
                    0 <= k < i ==> !(is_due(#[trigger] self.inflight@[k], now_ms, retry_interval_ms)
                        && self.inflight@[k].retry_count >= max_retries),
            decreases n - i,
        {
            let entry = &self.inflight[i];
            if (entry.send_time_ms as u128) + (retry_interval_ms as u128) < (now_ms as u128)
                && entry.retry_count >= max_retries {
                return true;
            }
            i = i + 1;
        }
        false
    }

    /// Retransmits every entry past the retry interval: each such entry is
    /// resent verbatim (same sequence, same packet) under a fresh tracking
    /// identifier, its retry count goes up by one and its send time becomes
    /// `now_ms`. Returns the `(tracking id, packet)` pairs to hand to the
    /// transport. The caller supplies `first_tid` above every identifier in
    /// flight; consecutive identifiers from it are consumed, one per resend.
    pub fn collect_retries(&mut self, now_ms: u64, retry_interval_ms: u64, first_tid: u64) -> (out:
        Vec<(u64, Packet)>)
        requires
            old(self).wf(),
            first_tid + old(self).inflight@.len() <= u64::MAX,
            forall|i: int|
                0 <= i < old(self).inflight@.len() ==> #[trigger] old(self).inflight@[i].tid
                    < first_tid,
            forall|i: int|
                0 <= i < old(self).inflight@.len() && is_due(
                    #[trigger] old(self).inflight@[i],
                    now_ms,
                    retry_interval_ms,
                ) ==> old(self).inflight@[i].retry_count < u32::MAX,
        ensures
            final(self).wf(),
            final(self).inflight@ == retried(
                old(self).inflight@,
                now_ms,
                retry_interval_ms,
                first_tid,
            ),
            out@ == resends(old(self).inflight@, now_ms, retry_interval_ms, first_tid),
            *final(self) == (Session { inflight: final(self).inflight, ..*old(self) }),
    {
        let ghost orig = self.inflight@;
        let mut updated: Vec<InflightEntry> = Vec::new();
        let mut out: Vec<(u64, Packet)> = Vec::new();
        let n = self.inflight.len();
        let mut i: usize = 0;
        while i < n
            invariant
                n == self.inflight@.len(),
                i <= n,
                self.inflight@ == orig,
                first_tid + orig.len() <= u64::MAX,
                forall|k: int|
                    0 <= k < orig.len() && is_due(#[trigger] orig[k], now_ms, retry_interval_ms)
                        ==> orig[k].retry_count < u32::MAX,
                updated@ == retried(orig.subrange(0, i as int), now_ms, retry_interval_ms, first_tid),
                out@ == resends(orig.subrange(0, i as int), now_ms, retry_interval_ms, first_tid),
                out@.len() == due_count(orig.subrange(0, i as int), now_ms, retry_interval_ms),
                out@.len() <= i,
            decreases n - i,
        {
            let entry = &self.inflight[i];
            if (entry.send_time_ms as u128) + (retry_interval_ms as u128) < (now_ms as u128) {
                let new_tid = first_tid + (out.len() as u64);
                updated.push(InflightEntry {
                    tid: new_tid,
                    sequence: entry.sequence,
                    send_time_ms: now_ms,
                    retry_count: entry.retry_count + 1,
                    packet: entry.packet.clone(),
                });
                out.push((new_tid, entry.packet.clone()));
            } else {
                updated.push(entry.clone());
            }
            proof {
                let cur = orig.subrange(0, i + 1 as int);
                assert(cur.drop_last() =~= orig.subrange(0, i as int));
                assert(cur.last() == orig[i as int]);
            }
            i = i + 1;
        }
        proof {
            assert(orig.subrange(0, n as int) =~= orig);
        }
        self.inflight = updated;
        proof {
            lemma_retried_wf(orig, now_ms, retry_interval_ms, first_tid, old(self).next_send_seq);
        }
        out
    }
}

} // verus!
