//! The event loop and the prober, driven over a simulated wire: frames built
//! by one pool are decoded and fed to another, with a logical clock.

use message_pool::codec::decode_message;
use message_pool::pool::MessagePool;
use message_pool::prober::{ProbeRound, ProbeStep};
use message_pool::structs::{EventType, MessageKind, NodeStatus};
use message_pool::table::NodeDetailsToHelper;

fn pool_at(addr: &str) -> MessagePool {
    let mut p = MessagePool::new();
    p.configure(addr.to_string(), false);
    p.add_node_to_list(addr.to_string());
    p.update_node_hash();
    p
}

const A: &str = "127.0.0.1:7001";
const B: &str = "127.0.0.1:7002";
const C: &str = "127.0.0.1:7003";

/// Runs one prober round on `who`; peers in `alive` answer, the rest refuse.
fn run_round(who: &mut MessagePool, alive: &mut Vec<&mut MessagePool>, now_ms: u128) -> bool {
    let me = {
        let snap = who.clone_records();
        let mut round = ProbeRound::begin(snap, who.my_addr.clone(), 0);
        let ping = who.make_ping_frame(now_ms);
        loop {
            match round.step(now_ms, now_ms / 1000) {
                ProbeStep::Done => break,
                ProbeStep::Skip => continue,
                ProbeStep::Probe(addr) => {
                    let mut answered = false;
                    for peer in alive.iter_mut() {
                        if peer.my_addr == addr {
                            // the peer ingests the ping and replies Ok
                            let m = decode_message(&ping);
                            peer.push_message(m);
                            let reply = decode_message(&peer.make_ok_frame());
                            round.record_reply(reply.kind, reply.id, now_ms);
                            answered = true;
                            break;
                        }
                    }
                    if !answered {
                        // connection refused: the stable code 5
                        round.record_reply(MessageKind::Error, 5, now_ms);
                    }
                },
            }
        }
        who.apply_probe_round(&round)
    };
    let changed = who.recompute_hash_after_round(true, true);
    who.update_synced_latch(changed);
    me
}

/// Lets a pool drain its own inbound State messages.
fn drain(p: &mut MessagePool) -> Vec<EventType> {
    let mut out = Vec::new();
    loop {
        let e = p.on_event();
        let done = e == EventType::OnWait() && p.message_count() == 0;
        out.push(e);
        if done {
            break;
        }
    }
    out
}

#[test]
fn two_nodes_come_online_and_sync() {
    let mut a = pool_at(A);
    let mut b = pool_at(B);
    b.add_node_to_lists(vec![A.to_string()]);

    // B probes A; A answers
    {
        let mut alive = vec![&mut a];
        run_round(&mut b, &mut alive, 1000);
    }
    let e = b.on_event();
    assert_eq!(e, EventType::OnNodeStatusChanged(A.to_string(), NodeStatus::Online));
    // the convergence latch raised a synced signal with B's fingerprint
    let h = b.current_hash();
    assert_eq!(b.on_event(), EventType::OnNodesSynced(h));

    // A ingests B's ping: it learns B
    drain(&mut a);
    let snap = a.clone_records();
    assert!(snap.iter().any(|n| n.addr == B));

    // B pings again with its settled fingerprint, so A sees agreement
    let ping2 = decode_message(&b.make_ping_frame(3));
    a.push_message(ping2);
    drain(&mut a);

    // A probes B back; both tables now hold {A, B} and the hashes agree
    {
        let mut alive = vec![&mut b];
        run_round(&mut a, &mut alive, 2000);
    }
    assert_eq!(
        a.on_event(),
        EventType::OnNodeStatusChanged(B.to_string(), NodeStatus::Online)
    );
    let ha = a.current_hash();
    assert_eq!(a.on_event(), EventType::OnNodesSynced(ha.clone()));
    assert_eq!(ha, b.current_hash());
}

#[test]
fn offline_peer_changes_status_half_of_hash_then_leaves() {
    let mut a = pool_at(A);
    a.add_node_to_lists(vec![B.to_string(), C.to_string()]);
    // bring B and C online
    {
        let mut b = pool_at(B);
        let mut c = pool_at(C);
        let mut alive = vec![&mut b, &mut c];
        run_round(&mut a, &mut alive, 1000);
    }
    while a.on_event() != EventType::OnWait() {}
    let h_all_online = a.current_hash();

    // C dies: the next round takes it Offline
    {
        let mut b = pool_at(B);
        let mut alive = vec![&mut b];
        run_round(&mut a, &mut alive, 2000);
    }
    let e = a.on_event();
    assert_eq!(e, EventType::OnNodeStatusChanged(C.to_string(), NodeStatus::Offline));
    let h_c_offline = a.current_hash();
    assert_ne!(h_all_online, h_c_offline);
    // the membership did not change, only a status: the list half is stable
    assert_eq!(h_all_online[..5], h_c_offline[..5]);
    assert_ne!(h_all_online[6..], h_c_offline[6..]);

    // ten seconds later the still-dead peer is removed
    {
        let mut b = pool_at(B);
        let mut alive = vec![&mut b];
        let removed = run_round(&mut a, &mut alive, 20_000);
        assert!(removed);
    }
    while a.on_event() != EventType::OnWait() {}
    let snap = a.clone_records();
    assert!(!snap.iter().any(|n| n.addr == C));
    let h_c_gone = a.current_hash();
    assert_ne!(h_c_gone[..5], h_c_offline[..5]);
}

#[test]
fn distribute_builds_one_frame_per_other_peer() {
    let mut a = pool_at(A);
    a.add_node_to_lists(vec![B.to_string(), C.to_string()]);
    let frames = a.distribute(b"hello".to_vec());
    assert_eq!(frames.len(), 2);
    let targets: Vec<&String> = frames.iter().map(|f| &f.0).collect();
    assert!(targets.contains(&&B.to_string()));
    assert!(targets.contains(&&C.to_string()));
    assert!(!targets.contains(&&A.to_string()));
    for (_, frame) in frames.iter() {
        let m = decode_message(frame);
        assert_eq!(m.kind, MessageKind::Distribute);
        assert_eq!(m.sender, A);
        assert_eq!(m.payload, b"hello".to_vec());
    }
    // the receiving side surfaces it as OnMessage
    let mut b = pool_at(B);
    let m = decode_message(&frames[0].1);
    b.push_message(m.clone());
    assert_eq!(b.on_event(), EventType::OnMessage(m));
    assert_eq!(b.message_count(), 0);
}

#[test]
fn send_to_builds_a_distribute_frame() {
    let mut a = pool_at(A);
    let (receiver, frame) = a.send_to(B.to_string(), b"pay".to_vec());
    assert_eq!(receiver, B);
    let m = decode_message(&frame);
    assert_eq!(m.kind, MessageKind::Distribute);
    assert_eq!(m.sender, A);
    assert_eq!(m.payload, b"pay".to_vec());
}

#[test]
fn malformed_frame_never_surfaces_and_queue_drains() {
    let mut a = pool_at(A);
    let bad = b"{\"id\":12,tru".to_vec();
    let m = decode_message(&bad);
    assert_eq!(m.kind, MessageKind::Error);
    a.push_message(m);
    assert_eq!(a.message_count(), 1);
    assert_eq!(a.on_event(), EventType::OnWait());
    assert_eq!(a.message_count(), 0);
}

#[test]
fn state_messages_act_but_return_wait() {
    let mut a = pool_at(A);
    let mut b = pool_at(B);
    b.add_node_to_lists(vec![A.to_string()]);
    let push = b.make_nodelist_frame(1);
    let m = decode_message(&push);
    assert_eq!(m.kind, MessageKind::State);
    a.push_message(m);
    assert_eq!(a.on_event(), EventType::OnWait());
    assert_eq!(a.message_count(), 0);
    // the push carried B's membership: A now knows B
    let snap = a.clone_records();
    assert!(snap.iter().any(|n| n.addr == B));
}

#[test]
fn ping_records_the_senders_reported_fingerprint() {
    let mut a = pool_at(A);
    let mut b = pool_at(B);
    b.add_node_to_lists(vec![A.to_string()]);
    let bh = b.current_hash();
    let ping = b.make_ping_frame(9);
    let m = decode_message(&ping);
    a.push_message(m);
    assert_eq!(a.on_event(), EventType::OnWait());
    let snap = a.clone_records();
    let rec = snap.iter().find(|n| n.addr == B).expect("B learned");
    assert_eq!(rec.node_hash, bh);
    assert_eq!(rec.status, NodeStatus::Unknown);
}

#[test]
fn three_node_tables_converge_to_equal_hashes() {
    let mut a = pool_at(A);
    let mut b = pool_at(B);
    let mut c = pool_at(C);
    let all = vec![A.to_string(), B.to_string(), C.to_string()];
    a.add_node_to_lists(all.clone());
    b.add_node_to_lists(all.clone());
    c.add_node_to_lists(all);
    a.update_node_hash();
    b.update_node_hash();
    c.update_node_hash();
    assert_eq!(a.current_hash()[..5], b.current_hash()[..5]);
    {
        let mut alive = vec![&mut b, &mut c];
        run_round(&mut a, &mut alive, 1000);
    }
    {
        let mut alive = vec![&mut a, &mut c];
        run_round(&mut b, &mut alive, 1000);
    }
    {
        let mut alive = vec![&mut a, &mut b];
        run_round(&mut c, &mut alive, 1000);
    }
    while a.on_event() != EventType::OnWait() {}
    while b.on_event() != EventType::OnWait() {}
    while c.on_event() != EventType::OnWait() {}
    let sa = a.clone_records();
    assert_eq!(sa.online_node_count(), 3);
    assert_eq!(a.current_hash(), b.current_hash());
    assert_eq!(b.current_hash(), c.current_hash());
}

#[test]
fn select_and_dispose_view_the_queue_head() {
    let mut a = pool_at(A);
    assert_eq!(a.select(), MessageKind::Error);
    let ok = decode_message(&a.make_ok_frame());
    a.push_message(ok);
    // an Ok frame is neither State nor Distribute
    assert_eq!(a.select(), MessageKind::Error);
    a.dispose_message();
    assert_eq!(a.message_count(), 0);
    let (_, frame) = a.send_to(B.to_string(), b"x".to_vec());
    let dm = decode_message(&frame);
    a.push_message(dm.clone());
    assert_eq!(a.select(), MessageKind::Distribute);
    let got = a.get_message();
    assert_eq!(got, dm);
    assert_eq!(a.message_count(), 0);
}

#[test]
fn status_changed_is_unknown_on_an_empty_queue() {
    let mut a = pool_at(A);
    let (addr, st) = a.status_changed();
    assert_eq!(addr, "");
    assert_eq!(st, NodeStatus::Unknown);
}

#[test]
fn control_node_status_zeroes_last_access() {
    let mut a = pool_at(A);
    a.add_node_to_lists(vec![B.to_string()]);
    {
        let mut b = pool_at(B);
        let mut alive = vec![&mut b];
        run_round(&mut a, &mut alive, 1000);
    }
    while a.on_event() != EventType::OnWait() {}
    let before = a.clone_records();
    let rec = before.iter().find(|n| n.addr == B).expect("B known");
    assert!(rec.last_access_time > 0);

    let b = pool_at(C);
    let ctl = decode_message(&b.make_control_frame(&B.to_string(), 7));
    a.push_message(ctl);
    assert_eq!(a.on_event(), EventType::OnWait());
    let after = a.clone_records();
    let rec = after.iter().find(|n| n.addr == B).expect("B still known");
    assert_eq!(rec.last_access_time, 0);
}
