//! The liveness prober, as a verified decision machine. The embedding owns
//! the loop and the sockets: it asks `step` which peer to probe next, sends
//! the ping, and hands the reply to `record_reply`; the accumulated verdicts
//! are then applied to the pool in one stroke by `apply_probe_round`.

use vstd::prelude::*;
use vstd::string::*;
use crate::structs::{MessageKind, NodeDetails, NodeModel, NodeStatus};
use crate::table::models;

verus! {

/// The distance between two clock readings.
pub open spec fn abs_diff(a: u128, b: u128) -> int {
    if a >= b {
        a - b
    } else {
        b - a
    }
}

/// Whether a peer in the given state is probed this round: Online peers when
/// their last success is older than the current cadence, Offline peers every
/// ten seconds, Unknown peers always.
pub open spec fn spec_should_probe(
    st: NodeStatus,
    last: u128,
    now_ms: u128,
    now_s: u128,
    gate: u128,
) -> bool {
    match st {
        NodeStatus::Online => abs_diff(now_ms, last) > gate,
        NodeStatus::Offline => abs_diff(now_s, last) > 10,
        NodeStatus::Unknown => true,
    }
}

/// Whether considering this peer resets the next round's cadence to zero,
/// for a tight follow-up round.
pub open spec fn spec_gate_resets(st: NodeStatus, last: u128, now_s: u128) -> bool {
    match st {
        NodeStatus::Online => false,
        NodeStatus::Offline => abs_diff(now_s, last) > 10,
        NodeStatus::Unknown => true,
    }
}

/// Status deltas a probe may produce.
pub enum ProbeOutcome {
    /// A reply arrived from an already Online peer: refresh its access time.
    Refresh,
    /// A reply arrived from a peer not yet Online.
    CameOnline,
    /// The connection was refused for an Online or Unknown peer.
    WentOffline,
    /// The connection was refused for an already Offline peer: drop it.
    Drop,
    /// Any other transport error: no verdict.
    Ignored,
}

/// The verdict for a prior status and a probe reply. The reply kind `Okay`
/// means the peer answered; the stable id 5 means the connection was refused.
pub open spec fn spec_probe_outcome(st: NodeStatus, kind: MessageKind, id: u128) -> ProbeOutcome {
    if kind == MessageKind::Okay {
        if st == NodeStatus::Online {
            ProbeOutcome::Refresh
        } else {
            ProbeOutcome::CameOnline
        }
    } else if id == 5 {
        match st {
            NodeStatus::Online => ProbeOutcome::WentOffline,
            NodeStatus::Offline => ProbeOutcome::Drop,
            NodeStatus::Unknown => ProbeOutcome::WentOffline,
        }
    } else {
        ProbeOutcome::Ignored
    }
}

/// The status transitions the protocol allows a peer to take.
pub open spec fn status_transition_allowed(from: NodeStatus, to: NodeStatus) -> bool {
    ||| (from == NodeStatus::Unknown && to == NodeStatus::Online)
    ||| (from == NodeStatus::Unknown && to == NodeStatus::Offline)
    ||| (from == NodeStatus::Online && to == NodeStatus::Offline)
    ||| (from == NodeStatus::Offline && to == NodeStatus::Online)
}

/// Monotone status progression: a probe verdict moves a peer only along the
/// allowed edges, and only an Offline peer is ever dropped.
pub proof fn lemma_probe_status_monotone(st: NodeStatus, kind: MessageKind, id: u128)
    ensures
        match spec_probe_outcome(st, kind, id) {
            ProbeOutcome::CameOnline => status_transition_allowed(st, NodeStatus::Online),
            ProbeOutcome::WentOffline => status_transition_allowed(st, NodeStatus::Offline),
            ProbeOutcome::Drop => st == NodeStatus::Offline,
            ProbeOutcome::Refresh => st == NodeStatus::Online,
            ProbeOutcome::Ignored => true,
        },
{
}

/// What the embedding does after one `step`.
pub enum ProbeStep {
    /// Send the round's ping to this address and report the reply.
    Probe(String),
    /// Nothing for this peer; call `step` again.
    Skip,
    /// The round is over; apply it.
    Done,
}

/// One probing round over a snapshot of the peer table.
pub struct ProbeRound {
    pub snapshot: Vec<NodeDetails>,
    pub my_addr: String,
    pub gate_ms: u128,
    pub idx: usize,
    pub pending: Option<usize>,
    pub next_gate_zero: bool,
    pub remove_idx: Option<usize>,
    pub hash_dirty: bool,
    pub update_time: Vec<(String, u128)>,
    pub update_status: Vec<(String, NodeStatus)>,
    pub shared_events: Vec<(String, NodeStatus)>,
}

/// The models of timestamp updates.
pub open spec fn tviews(s: Seq<(String, u128)>) -> Seq<(Seq<char>, u128)> {
    s.map_values(|p: (String, u128)| (p.0@, p.1))
}

/// The models of status updates and status events.
pub open spec fn sviews(s: Seq<(String, NodeStatus)>) -> Seq<(Seq<char>, NodeStatus)> {
    s.map_values(|p: (String, NodeStatus)| (p.0@, p.1))
}

impl ProbeRound {
    /// Opens a round over a snapshot, with the cadence the previous round set.
    pub fn begin(snapshot: Vec<NodeDetails>, my_addr: String, gate_ms: u128) -> (r: ProbeRound)
        ensures
            models(r.snapshot@) == models(snapshot@),
            r.my_addr@ == my_addr@,
            r.gate_ms == gate_ms,
            r.idx == 0,
            r.pending is None,
            !r.next_gate_zero,
            r.remove_idx is None,
            !r.hash_dirty,
            r.update_time@.len() == 0,
            r.update_status@.len() == 0,
            r.shared_events@.len() == 0,
    {
        ProbeRound {
            snapshot,
            my_addr,
            gate_ms,
            idx: 0,
            pending: None,
            next_gate_zero: false,
            remove_idx: None,
            hash_dirty: false,
            update_time: Vec::new(),
            update_status: Vec::new(),
            shared_events: Vec::new(),
        }
    }

    /// Considers the next peer of the snapshot: the pool's own record is
    /// skipped, a pending removal ends the round early, and otherwise the
    /// probing rule for the peer's status decides.
    pub fn step(&mut self, now_ms: u128, now_s: u128) -> (r: ProbeStep)
        requires
            old(self).pending is None,
        ensures
            ({
                let o = *old(self);
                if o.remove_idx is Some || o.idx >= o.snapshot@.len() {
                    *final(self) == o && r == ProbeStep::Done
                } else {
                    let n = o.snapshot@[o.idx as int]@;
                    if n.addr == o.my_addr@ {
                        *final(self) == (ProbeRound { idx: (o.idx + 1) as usize, ..o }) && r
                            == ProbeStep::Skip
                    } else {
                        let gz = o.next_gate_zero || spec_gate_resets(
                            n.status,
                            n.last_access_time,
                            now_s,
                        );
                        if spec_should_probe(n.status, n.last_access_time, now_ms, now_s, o.gate_ms) {
                            &&& *final(self) == (ProbeRound {
                                idx: (o.idx + 1) as usize,
                                pending: Some(o.idx),
                                next_gate_zero: gz,
                                ..o
                            })
                            &&& (r matches ProbeStep::Probe(a) && a@ == n.addr)
                        } else {
                            &&& *final(self) == (ProbeRound {
                                idx: (o.idx + 1) as usize,
                                next_gate_zero: gz,
                                ..o
                            })
                            &&& r == ProbeStep::Skip
                        }
                    }
                }
            }),
    {
        if self.remove_idx.is_some() || self.idx >= self.snapshot.len() {
            return ProbeStep::Done;
        }
        let i = self.idx;
        self.idx = i + 1;
        if self.snapshot[i].addr.eq(&self.my_addr) {
            return ProbeStep::Skip;
        }
        let st = self.snapshot[i].status;
        let last = self.snapshot[i].last_access_time;
        let probe: bool;
        match st {
            NodeStatus::Online => {
                let diff = if now_ms >= last {
                    now_ms - last
                } else {
                    last - now_ms
                };
                probe = diff > self.gate_ms;
            },
            NodeStatus::Offline => {
                let diff = if now_s >= last {
                    now_s - last
                } else {
                    last - now_s
                };
                probe = diff > 10;
                if probe {
                    self.next_gate_zero = true;
                }
            },
            NodeStatus::Unknown => {
                probe = true;
                self.next_gate_zero = true;
            },
        }
        if probe {
            self.pending = Some(i);
            ProbeStep::Probe(self.snapshot[i].addr.clone())
        } else {
            ProbeStep::Skip
        }
    }

    /// Records the reply for the pending probe. Success refreshes the access
    /// time and brings the peer Online; a refused connection takes an Online
    /// or Unknown peer Offline — announcing an Online peer's fall to the
    /// other peers through the returned address — and marks an Offline peer
    /// for removal. Every delta obeys `status_transition_allowed`.
    pub fn record_reply(&mut self, reply_kind: MessageKind, reply_id: u128, now_ms: u128) -> (r:
        Option<String>)
        requires
            old(self).pending matches Some(i) && (i as int) < old(self).snapshot@.len(),
    ensures
            final(self).pending is None,
            ({
                let o = *old(self);
                let i = o.pending.unwrap() as int;
                let n = o.snapshot@[i]@;
                match spec_probe_outcome(n.status, reply_kind, reply_id) {
                    ProbeOutcome::Refresh => {
                        &&& *final(self) == (ProbeRound {
                            pending: None,
                            update_time: final(self).update_time,
                            ..o
                        })
                        &&& tviews(final(self).update_time@) == tviews(o.update_time@).push(
                            (n.addr, now_ms),
                        )
                        &&& r is None
                    },
                    ProbeOutcome::CameOnline => {
                        &&& *final(self) == (ProbeRound {
                            pending: None,
                            hash_dirty: true,
                            update_time: final(self).update_time,
                            update_status: final(self).update_status,
                            shared_events: final(self).shared_events,
                            ..o
                        })
                        &&& tviews(final(self).update_time@) == tviews(o.update_time@).push(
                            (n.addr, now_ms),
                        )
                        &&& sviews(final(self).update_status@) == sviews(
                            o.update_status@,
                        ).push((n.addr, NodeStatus::Online))
                        &&& sviews(final(self).shared_events@) == sviews(
                            o.shared_events@,
                        ).push((n.addr, NodeStatus::Online))
                        &&& r is None
                    },
                    ProbeOutcome::WentOffline => {
                        &&& *final(self) == (ProbeRound {
                            pending: None,
                            hash_dirty: true,
                            update_status: final(self).update_status,
                            shared_events: final(self).shared_events,
                            ..o
                        })
                        &&& sviews(final(self).update_status@) == sviews(
                            o.update_status@,
                        ).push((n.addr, NodeStatus::Offline))
                        &&& sviews(final(self).shared_events@) == sviews(
                            o.shared_events@,
                        ).push((n.addr, NodeStatus::Offline))
                        &&& (if n.status == NodeStatus::Online {
                            r matches Some(a) && a@ == n.addr
                        } else {
                            r is None
                        })
                    },
                    ProbeOutcome::Drop => {
                        &&& *final(self) == (ProbeRound {
                            pending: None,
                            hash_dirty: true,
                            remove_idx: Some(o.pending.unwrap()),
                            ..o
                        })
                        &&& r is None
                    },
                    ProbeOutcome::Ignored => {
                        &&& *final(self) == (ProbeRound { pending: None, ..o })
                        &&& r is None
                    },
                }
            }),
    {
        let i = match self.pending {
            Some(i) => i,
            None => {
                proof {
                    assert(false);
                }
                0
            },
        };
        self.pending = None;
        let st = self.snapshot[i].status;
        if matches!(reply_kind, MessageKind::Okay) {
            let ghost ut0 = self.update_time@;
            let a = self.snapshot[i].addr.clone();
            self.update_time.push((a, now_ms));
            proof {
                lemma_tviews_push(ut0, self.update_time@.last());
            }
            if !matches!(st, NodeStatus::Online) {
                let ghost us0 = self.update_status@;
                let a1 = self.snapshot[i].addr.clone();
                self.update_status.push((a1, NodeStatus::Online));
                proof {
                    lemma_sviews_push(us0, self.update_status@.last());
                }
                let ghost se0 = self.shared_events@;
                let a2 = self.snapshot[i].addr.clone();
                self.shared_events.push((a2, NodeStatus::Online));
                proof {
                    lemma_sviews_push(se0, self.shared_events@.last());
                }
                self.hash_dirty = true;
            }
            return None;
        }
        if reply_id == 5 {
            self.hash_dirty = true;
            match st {
                NodeStatus::Online => {
                    let ghost us0 = self.update_status@;
                    let a1 = self.snapshot[i].addr.clone();
                    self.update_status.push((a1, NodeStatus::Offline));
                    proof {
                        lemma_sviews_push(us0, self.update_status@.last());
                    }
                    let ghost se0 = self.shared_events@;
                    let a2 = self.snapshot[i].addr.clone();
                    self.shared_events.push((a2, NodeStatus::Offline));
                    proof {
                        lemma_sviews_push(se0, self.shared_events@.last());
                    }
                    return Some(self.snapshot[i].addr.clone());
                },
                NodeStatus::Offline => {
                    self.remove_idx = Some(i);
                },
                NodeStatus::Unknown => {
                    let ghost us0 = self.update_status@;
                    let a1 = self.snapshot[i].addr.clone();
                    self.update_status.push((a1, NodeStatus::Offline));
                    proof {
                        lemma_sviews_push(us0, self.update_status@.last());
                    }
                    let ghost se0 = self.shared_events@;
                    let a2 = self.snapshot[i].addr.clone();
                    self.shared_events.push((a2, NodeStatus::Offline));
                    proof {
                        lemma_sviews_push(se0, self.shared_events@.last());
                    }
                },
            }
            return None;
        }
        None
    }
}

/// `tviews` distributes over `push`.
proof fn lemma_tviews_push(s: Seq<(String, u128)>, p: (String, u128))
    ensures
        tviews(s.push(p)) == tviews(s).push((p.0@, p.1)),
{
    assert forall|t: int| 0 <= t < tviews(s.push(p)).len() implies tviews(s.push(p))[t]
        == tviews(s).push((p.0@, p.1))[t] by {
        if t < s.len() {
            assert(s.push(p)[t] == s[t]);
        } else {
            assert(s.push(p)[t] == p);
        }
    }
    assert(tviews(s.push(p)) =~= tviews(s).push((p.0@, p.1)));
}

/// `sviews` distributes over `push`.
proof fn lemma_sviews_push(s: Seq<(String, NodeStatus)>, p: (String, NodeStatus))
    ensures
        sviews(s.push(p)) == sviews(s).push((p.0@, p.1)),
{
    assert forall|t: int| 0 <= t < sviews(s.push(p)).len() implies sviews(s.push(p))[t]
        == sviews(s).push((p.0@, p.1))[t] by {
        if t < s.len() {
            assert(s.push(p)[t] == s[t]);
        } else {
            assert(s.push(p)[t] == p);
        }
    }
    assert(sviews(s.push(p)) =~= sviews(s).push((p.0@, p.1)));
}


} // verus!
