//! The membership engine: the pool of peers, the inbound message queue, the
//! status-change queue, the synced-hash latch, and the event loop.

use vstd::prelude::*;
use vstd::string::*;
use crate::codec::{decode_state, encode_message, encode_state, ConvertVecToStruct};
use crate::helper::get_sys_time_in_nano;
use crate::structs::{
    EventType, Message, MessageKind, MessageModel, NodeDetails, NodeModel, NodeStatus, StateModel,
    StateType,
};
use crate::table::{models, spec_hash, NodeDetailsToHelper};
use crate::wire::{enc_message, enc_state, spec_decode_state};
use crate::prober::{sviews, tviews, ProbeRound};

verus! {

/// Fixed protocol timings.
pub struct MessageConfig {
    /// The probe cadence, in milliseconds.
    pub ping_time: u128,
}

/// The shared state of one node.
pub struct MessagePool {
    pub my_addr: String,
    pub hard_config: MessageConfig,
    pub(crate) store_node_list_active: bool,
    pub(crate) node_hash: String,
    pub(crate) node_list_synced: String,
    pub(crate) node_hash_updated: bool,
    pub(crate) node_status_change: Vec<(String, NodeStatus)>,
    pub(crate) node_list: Vec<NodeDetails>,
    pub(crate) msg_list: Vec<Message>,
    pub(crate) persist_pending: bool,
}

/// Mathematical model of a pool.
pub struct PoolModel {
    pub my_addr: Seq<char>,
    pub ping_time: u128,
    pub store_node_list_active: bool,
    pub node_hash: Seq<char>,
    pub node_list_synced: Seq<char>,
    pub node_hash_updated: bool,
    pub node_status_change: Seq<(Seq<char>, NodeStatus)>,
    pub node_list: Seq<NodeModel>,
    pub msg_list: Seq<MessageModel>,
    pub persist_pending: bool,
}

impl View for MessagePool {
    type V = PoolModel;

    closed spec fn view(&self) -> PoolModel {
        PoolModel {
            my_addr: self.my_addr@,
            ping_time: self.hard_config.ping_time,
            store_node_list_active: self.store_node_list_active,
            node_hash: self.node_hash@,
            node_list_synced: self.node_list_synced@,
            node_hash_updated: self.node_hash_updated,
            node_status_change: self.node_status_change@.map_values(
                |p: (String, NodeStatus)| (p.0@, p.1),
            ),
            node_list: models(self.node_list@),
            msg_list: self.msg_list@.map_values(|m: Message| m@),
            persist_pending: self.persist_pending,
        }
    }
}

// ---------------------------------------------------------------------------
// Model-level definitions
// ---------------------------------------------------------------------------

/// No two records share an address.
pub open spec fn addrs_unique(t: Seq<NodeModel>) -> bool {
    forall|i: int, j: int| 0 <= i < j < t.len() ==> t[i].addr != t[j].addr
}

/// Every record carrying the pool's own address is Online.
pub open spec fn self_records_online(t: Seq<NodeModel>, me: Seq<char>) -> bool {
    forall|i: int| 0 <= i < t.len() && #[trigger] t[i].addr == me ==> t[i].status
        == NodeStatus::Online
}

/// The table invariant: unique addresses, and the self record (wherever it
/// stands) is Online.
pub open spec fn table_wf(t: Seq<NodeModel>, me: Seq<char>) -> bool {
    addrs_unique(t) && self_records_online(t, me)
}

/// An address is present in the table.
pub open spec fn has_addr(t: Seq<NodeModel>, addr: Seq<char>) -> bool {
    exists|i: int| 0 <= i < t.len() && #[trigger] t[i].addr == addr
}

/// All sync timestamps set to zero.
pub open spec fn zero_synced(t: Seq<NodeModel>) -> Seq<NodeModel> {
    t.map_values(|n: NodeModel| NodeModel { synced_time_as_secs: 0, ..n })
}

/// A fresh record for a newly learned peer.
pub open spec fn new_record(addr: Seq<char>, me: Seq<char>) -> NodeModel {
    NodeModel {
        addr: addr,
        node_hash: Seq::empty(),
        last_access_time: 0,
        synced_time_as_secs: 0,
        status: if addr == me {
            NodeStatus::Online
        } else {
            NodeStatus::Unknown
        },
    }
}

/// One insertion: idempotent on present addresses, a no-op on the empty
/// address; a successful insertion appends the fresh record and resets every
/// sync timestamp.
pub open spec fn spec_add(t: Seq<NodeModel>, me: Seq<char>, addr: Seq<char>) -> (
    Seq<NodeModel>,
    bool,
) {
    if addr.len() == 0 || has_addr(t, addr) {
        (t, false)
    } else {
        (zero_synced(t.push(new_record(addr, me))), true)
    }
}

/// Folded insertion of a list of addresses, left to right.
pub open spec fn spec_add_many(t: Seq<NodeModel>, me: Seq<char>, addrs: Seq<Seq<char>>) -> (
    Seq<NodeModel>,
    bool,
)
    decreases addrs.len(),
{
    if addrs.len() == 0 {
        (t, false)
    } else {
        let first = spec_add(t, me, addrs[0]);
        let rest = spec_add_many(first.0, me, addrs.drop_first());
        (rest.0, first.1 || rest.1)
    }
}

/// The reported fingerprint of the record with the given address set to `h`.
pub open spec fn set_peer_hash(t: Seq<NodeModel>, addr: Seq<char>, h: Seq<char>) -> Seq<
    NodeModel,
> {
    t.map_values(
        |n: NodeModel| if n.addr == addr {
            NodeModel { node_hash: h, ..n }
        } else {
            n
        },
    )
}

/// The last access time of the record with the given address set to zero.
pub open spec fn zero_last_access(t: Seq<NodeModel>, addr: Seq<char>) -> Seq<NodeModel> {
    t.map_values(
        |n: NodeModel| if n.addr == addr {
            NodeModel { last_access_time: 0, ..n }
        } else {
            n
        },
    )
}

/// What one inbound State message does to the pool.
pub open spec fn spec_process_state(p: PoolModel, m: MessageModel) -> PoolModel {
    match spec_decode_state(m.payload) {
        StateModel::Unknown() => p,
        StateModel::Ping(h) => {
            let t1 = spec_add(p.node_list, p.my_addr, m.sender).0;
            let t2 = set_peer_hash(t1, m.sender, h);
            PoolModel {
                node_list: t2,
                node_hash: spec_hash(t2),
                persist_pending: p.persist_pending || p.store_node_list_active,
                ..p
            }
        },
        StateModel::ControlNodeStatus(a) => PoolModel {
            node_list: zero_last_access(p.node_list, a),
            ..p
        },
        StateModel::NodeList(addrs) => {
            let r = spec_add_many(p.node_list, p.my_addr, addrs);
            if r.1 {
                PoolModel {
                    node_list: r.0,
                    node_hash: spec_hash(r.0),
                    node_hash_updated: true,
                    persist_pending: p.persist_pending || p.store_node_list_active,
                    ..p
                }
            } else {
                PoolModel { node_list: r.0, ..p }
            }
        },
    }
}

/// What one inbound message does to the pool: only State messages act.
pub open spec fn spec_process_message(p: PoolModel, m: MessageModel) -> PoolModel {
    if m.kind == MessageKind::State {
        spec_process_state(p, m)
    } else {
        p
    }
}

/// Dequeue the head message, then let it act on the pool.
pub open spec fn spec_get_message(p: PoolModel) -> (PoolModel, MessageModel) {
    let m = p.msg_list[0];
    let p1 = PoolModel { msg_list: p.msg_list.drop_first(), ..p };
    (spec_process_message(p1, m), m)
}

/// The fingerprint of every record carrying the pool's own address set to `h`.
pub open spec fn set_self_hash(t: Seq<NodeModel>, me: Seq<char>, h: Seq<char>) -> Seq<
    NodeModel,
> {
    set_peer_hash(t, me, h)
}

/// Popping one status delta: recomputes and stores the own fingerprint, then
/// hands out the head delta when it is Online or Offline.
pub open spec fn spec_status_changed(p: PoolModel) -> (PoolModel, (Seq<char>, NodeStatus)) {
    if p.node_status_change.len() == 0 {
        (p, (Seq::empty(), NodeStatus::Unknown))
    } else {
        let h = spec_hash(p.node_list);
        let p1 = PoolModel {
            node_list: set_self_hash(p.node_list, p.my_addr, h),
            node_hash: h,
            node_status_change: p.node_status_change.drop_first(),
            ..p
        };
        let d = p.node_status_change[0];
        if d.1 == NodeStatus::Online || d.1 == NodeStatus::Offline {
            (p1, d)
        } else {
            (p1, (Seq::empty(), NodeStatus::Unknown))
        }
    }
}

/// Which kind the event loop should act on: the head's kind when it is
/// Distribute or State, and Error otherwise.
pub open spec fn spec_select(p: PoolModel) -> MessageKind {
    if p.msg_list.len() > 0 && (p.msg_list[0].kind == MessageKind::Distribute
        || p.msg_list[0].kind == MessageKind::State) {
        p.msg_list[0].kind
    } else {
        MessageKind::Error
    }
}

/// The addresses of all records other than the pool's own, in record order.
pub open spec fn other_addrs(t: Seq<NodeModel>, me: Seq<char>) -> Seq<Seq<char>>
    decreases t.len(),
{
    if t.len() == 0 {
        Seq::empty()
    } else {
        let rest = other_addrs(t.drop_last(), me);
        if t.last().addr == me {
            rest
        } else {
            rest.push(t.last().addr)
        }
    }
}

// ---------------------------------------------------------------------------
// The pool
// ---------------------------------------------------------------------------

impl MessagePool {
    /// The invariant every reachable pool keeps: unique addresses, and every
    /// record with the pool's own address Online.
    pub open spec fn wf(self) -> bool {
        table_wf(self@.node_list, self@.my_addr)
    }

    /// A fresh pool: no peers, no messages, the probe cadence at 250 ms, the
    /// latch empty and its flag raised, persistence on.
    pub fn new() -> (r: MessagePool)
        ensures
            r@.my_addr.len() == 0,
            r@.ping_time == 250,
            r@.store_node_list_active,
            r@.node_hash.len() == 0,
            r@.node_list_synced.len() == 0,
            r@.node_hash_updated,
            r@.node_status_change.len() == 0,
            r@.node_list.len() == 0,
            r@.msg_list.len() == 0,
            !r@.persist_pending,
            r.wf(),
    {
        let r = MessagePool {
            my_addr: String::new(),
            hard_config: MessageConfig { ping_time: 250 },
            store_node_list_active: true,
            node_hash: String::new(),
            node_list_synced: String::new(),
            node_hash_updated: true,
            node_status_change: Vec::new(),
            node_list: Vec::new(),
            msg_list: Vec::new(),
            persist_pending: false,
        };
        proof {
            assert(r@.node_status_change =~= Seq::<(Seq<char>, NodeStatus)>::empty());
            assert(r@.node_list =~= Seq::<NodeModel>::empty());
            assert(r@.msg_list =~= Seq::<MessageModel>::empty());
        }
        r
    }

    /// Names the pool's own bind address and switches persistence. Meant for
    /// startup, before any peer is added.
    pub fn configure(&mut self, addr: String, store: bool)
        requires
            old(self)@.node_list.len() == 0,
        ensures
            final(self)@ == (PoolModel {
                my_addr: addr@,
                store_node_list_active: store,
                ..old(self)@
            }),
            final(self).wf(),
    {
        self.my_addr = addr;
        self.store_node_list_active = store;
    }

    /// Switches persistence of the peer list.
    pub fn store_node_list_active(&mut self, status: bool)
        ensures
            final(self)@ == (PoolModel { store_node_list_active: status, ..old(self)@ }),
    {
        self.store_node_list_active = status;
    }

    /// Idempotent insert. Returns true exactly when a new record was created;
    /// the new peer starts Unknown, the pool's own address starts Online, and
    /// a successful insert resets every sync timestamp.
    pub fn add_node_to_list(&mut self, node_addr: String) -> (r: bool)
        requires
            old(self).wf(),
        ensures
            final(self)@ == (PoolModel {
                node_list: spec_add(old(self)@.node_list, old(self)@.my_addr, node_addr@).0,
                ..old(self)@
            }),
            r == spec_add(old(self)@.node_list, old(self)@.my_addr, node_addr@).1,
            final(self).wf(),
    {
        let ghost t0 = self@.node_list;
        let ghost me = self@.my_addr;
        if node_addr.as_str().is_empty() {
            return false;
        }
        let mut node_exist = false;
        let mut i: usize = 0;
        while i < self.node_list.len()
            invariant
                i <= self.node_list@.len(),
                t0 == models(self.node_list@),
                t0.len() == self.node_list@.len(),
                node_exist ==> has_addr(t0, node_addr@),
                !node_exist ==> forall|k: int|
                    #![trigger t0[k]]
                    0 <= k < i ==> t0[k].addr != node_addr@,
            decreases self.node_list@.len() - i,
        {
            let hit = self.node_list[i].addr.eq(&node_addr);
            proof {
                crate::table::lemma_models_index(self.node_list@, i as int);
                if hit {
                    assert(t0[i as int].addr == node_addr@);
                    assert(has_addr(t0, node_addr@));
                } else {
                    assert(t0[i as int].addr != node_addr@);
                }
            }
            if hit {
                node_exist = true;
            }
            i += 1;
        }
        if node_exist {
            return false;
        }
        proof {
            assert(!has_addr(t0, node_addr@)) by {
                if has_addr(t0, node_addr@) {
                    let w = choose|w: int| 0 <= w < t0.len() && t0[w].addr == node_addr@;
                    assert(t0[w].addr != node_addr@);
                }
            }
        }
        let status = if node_addr.eq(&self.my_addr) {
            NodeStatus::Online
        } else {
            NodeStatus::Unknown
        };
        let ghost nl0 = self.node_list@;
        self.node_list.push(
            NodeDetails {
                addr: node_addr,
                node_hash: String::new(),
                last_access_time: 0,
                synced_time_as_secs: 0,
                status,
            },
        );
        proof {
            crate::table::lemma_models_push(nl0, self.node_list@.last());
        }
        let ghost tp = models(self.node_list@);
        let ghost nrm = self.node_list@.last()@;
        let empty_names: Vec<String> = Vec::new();
        self.node_list.set_sync_time(empty_names, 0);
        proof {
            let addr_v = nrm.addr;
            assert(nrm == new_record(addr_v, me));
            assert(tp == t0.push(nrm));
            let t2 = models(self.node_list@);
            assert(t2 =~= zero_synced(tp)) by {
                assert forall|k: int| 0 <= k < t2.len() implies t2[k] == zero_synced(tp)[k] by {
                    crate::table::lemma_models_index(self.node_list@, k);
                    assert(self.node_list@[k]@ == (NodeModel { synced_time_as_secs: 0, ..tp[k] }));
                    assert(zero_synced(tp)[k] == (NodeModel { synced_time_as_secs: 0, ..tp[k] }));
                }
            }
            assert(spec_add(t0, me, addr_v) == (zero_synced(t0.push(new_record(addr_v, me))), true));
            assert(t2 == spec_add(t0, me, addr_v).0);
            // the invariant is kept: the new address was absent, the new
            // record is Online exactly when it is the pool's own address, and
            // zeroing sync timestamps changes neither addresses nor statuses
            assert(table_wf(t2, me)) by {
                assert forall|i: int, j: int| 0 <= i < j < t2.len() implies t2[i].addr
                    != t2[j].addr by {
                    assert(t2[i].addr == tp[i].addr);
                    assert(t2[j].addr == tp[j].addr);
                    if j < t0.len() {
                        assert(tp[i] == t0[i] && tp[j] == t0[j]);
                    } else {
                        assert(tp[j] == nrm);
                        assert(tp[i] == t0[i]);
                        assert(!has_addr(t0, addr_v));
                    }
                }
                assert forall|i: int| 0 <= i < t2.len() && #[trigger] t2[i].addr == me
                    implies t2[i].status == NodeStatus::Online by {
                    assert(t2[i].status == tp[i].status && t2[i].addr == tp[i].addr);
                    if i < t0.len() {
                        assert(tp[i] == t0[i]);
                    } else {
                        assert(tp[i] == nrm);
                    }
                }
            }
        }
        true
    }
}



// ---------------------------------------------------------------------------
// Record updates shared by the engine
// ---------------------------------------------------------------------------

/// Sets the reported fingerprint of every record with the given address.
fn set_record_hash(v: &mut Vec<NodeDetails>, addr: &String, h: &String)
    ensures
        models(final(v)@) == set_peer_hash(models(old(v)@), addr@, h@),
{
    let mut k: usize = 0;
    while k < v.len()
        invariant
            k <= v@.len(),
            v@.len() == old(v)@.len(),
            forall|t: int| k <= t < v@.len() ==> v@[t] == old(v)@[t],
            forall|t: int|
                0 <= t < k ==> #[trigger] v@[t]@ == (if old(v)@[t]@.addr == addr@ {
                    NodeModel { node_hash: h@, ..old(v)@[t]@ }
                } else {
                    old(v)@[t]@
                }),
        decreases v@.len() - k,
    {
        if v[k].addr.eq(addr) {
            let a2 = v[k].addr.clone();
            let lat = v[k].last_access_time;
            let syn = v[k].synced_time_as_secs;
            let st = v[k].status;
            v.set(
                k,
                NodeDetails {
                    addr: a2,
                    node_hash: h.clone(),
                    last_access_time: lat,
                    synced_time_as_secs: syn,
                    status: st,
                },
            );
        }
        k += 1;
    }
    proof {
        assert(models(v@) =~= set_peer_hash(models(old(v)@), addr@, h@)) by {
            assert forall|t: int| 0 <= t < v@.len() implies models(v@)[t] == set_peer_hash(
                models(old(v)@),
                addr@,
                h@,
            )[t] by {
                crate::table::lemma_models_index(v@, t);
                crate::table::lemma_models_index(old(v)@, t);
            }
        }
    }
}

/// Zeroes the last access time of every record with the given address.
fn zero_record_access(v: &mut Vec<NodeDetails>, addr: &String)
    ensures
        models(final(v)@) == zero_last_access(models(old(v)@), addr@),
{
    let mut k: usize = 0;
    while k < v.len()
        invariant
            k <= v@.len(),
            v@.len() == old(v)@.len(),
            forall|t: int| k <= t < v@.len() ==> v@[t] == old(v)@[t],
            forall|t: int|
                0 <= t < k ==> #[trigger] v@[t]@ == (if old(v)@[t]@.addr == addr@ {
                    NodeModel { last_access_time: 0, ..old(v)@[t]@ }
                } else {
                    old(v)@[t]@
                }),
        decreases v@.len() - k,
    {
        if v[k].addr.eq(addr) {
            let a2 = v[k].addr.clone();
            let nh = v[k].node_hash.clone();
            let syn = v[k].synced_time_as_secs;
            let st = v[k].status;
            v.set(
                k,
                NodeDetails {
                    addr: a2,
                    node_hash: nh,
                    last_access_time: 0,
                    synced_time_as_secs: syn,
                    status: st,
                },
            );
        }
        k += 1;
    }
    proof {
        assert(models(v@) =~= zero_last_access(models(old(v)@), addr@)) by {
            assert forall|t: int| 0 <= t < v@.len() implies models(v@)[t] == zero_last_access(
                models(old(v)@),
                addr@,
            )[t] by {
                crate::table::lemma_models_index(v@, t);
                crate::table::lemma_models_index(old(v)@, t);
            }
        }
    }
}

/// Field-changing maps that keep addresses and statuses keep the invariant.
pub proof fn lemma_wf_same_addrs_statuses(t1: Seq<NodeModel>, t2: Seq<NodeModel>, me: Seq<char>)
    requires
        table_wf(t1, me),
        t1.len() == t2.len(),
        forall|i: int|
            0 <= i < t1.len() ==> #[trigger] t2[i].addr == t1[i].addr && t2[i].status
                == t1[i].status,
    ensures
        table_wf(t2, me),
{
    assert forall|i: int, j: int| 0 <= i < j < t2.len() implies t2[i].addr != t2[j].addr by {
        assert(t1[i].addr != t1[j].addr);
    }
    assert forall|i: int| 0 <= i < t2.len() && #[trigger] t2[i].addr == me implies t2[i].status
        == NodeStatus::Online by {
        assert(t1[i].addr == me);
    }
}

/// `set_peer_hash` keeps the invariant.
pub proof fn lemma_wf_set_peer_hash(t: Seq<NodeModel>, me: Seq<char>, addr: Seq<char>, h: Seq<char>)
    requires
        table_wf(t, me),
    ensures
        table_wf(set_peer_hash(t, addr, h), me),
{
    lemma_wf_same_addrs_statuses(t, set_peer_hash(t, addr, h), me);
}

/// `zero_last_access` keeps the invariant.
pub proof fn lemma_wf_zero_last_access(t: Seq<NodeModel>, me: Seq<char>, addr: Seq<char>)
    requires
        table_wf(t, me),
    ensures
        table_wf(zero_last_access(t, addr), me),
{
    lemma_wf_same_addrs_statuses(t, zero_last_access(t, addr), me);
}

/// Appending an address keeps the fold shape of `spec_add_many`.
pub proof fn lemma_add_many_snoc(t: Seq<NodeModel>, me: Seq<char>, s: Seq<Seq<char>>, a: Seq<char>)
    ensures
        spec_add_many(t, me, s.push(a)) == ({
            let r = spec_add_many(t, me, s);
            let q = spec_add(r.0, me, a);
            (q.0, r.1 || q.1)
        }),
    decreases s.len(),
{
    if s.len() == 0 {
        assert(s.push(a)[0] == a);
        assert(s.push(a).drop_first() =~= Seq::<Seq<char>>::empty());
        assert(spec_add_many(spec_add(t, me, a).0, me, s.push(a).drop_first()) == (
            spec_add(t, me, a).0,
            false,
        ));
        assert(spec_add_many(t, me, s) == (t, false));
    } else {
        assert(s.push(a)[0] == s[0]);
        assert(s.push(a).drop_first() =~= s.drop_first().push(a));
        lemma_add_many_snoc(spec_add(t, me, s[0]).0, me, s.drop_first(), a);
    }
}

impl MessagePool {
    /// Inserts each address in turn; true when any insertion happened.
    pub fn add_node_to_lists(&mut self, node_list: Vec<String>) -> (r: bool)
        requires
            old(self).wf(),
        ensures
            final(self)@ == (PoolModel {
                node_list: spec_add_many(
                    old(self)@.node_list,
                    old(self)@.my_addr,
                    crate::order::views(node_list@),
                ).0,
                ..old(self)@
            }),
            r == spec_add_many(
                old(self)@.node_list,
                old(self)@.my_addr,
                crate::order::views(node_list@),
            ).1,
            final(self).wf(),
    {
        let ghost p0 = self@;
        let ghost vs = crate::order::views(node_list@);
        let mut updated = false;
        let mut i: usize = 0;
        proof {
            assert(vs.take(0) =~= Seq::<Seq<char>>::empty());
        }
        while i < node_list.len()
            invariant
                i <= node_list@.len(),
                vs == crate::order::views(node_list@),
                vs.len() == node_list@.len(),
                self.wf(),
                self@ == (PoolModel {
                    node_list: spec_add_many(p0.node_list, p0.my_addr, vs.take(i as int)).0,
                    ..p0
                }),
                updated == spec_add_many(p0.node_list, p0.my_addr, vs.take(i as int)).1,
                self@.my_addr == p0.my_addr,
            decreases node_list@.len() - i,
        {
            let a = node_list[i].clone();
            proof {
                assert(vs[i as int] == node_list@[i as int]@);
            }
            let one = self.add_node_to_list(a);
            if one {
                updated = true;
            }
            proof {
                assert(vs.take(i as int + 1) =~= vs.take(i as int).push(vs[i as int]));
                lemma_add_many_snoc(p0.node_list, p0.my_addr, vs.take(i as int), vs[i as int]);
            }
            i += 1;
        }
        proof {
            assert(vs.take(vs.len() as int) =~= vs);
        }
        updated
    }

    /// Recomputes the own fingerprint and writes it into the pool and into
    /// the pool's own record.
    pub fn update_node_hash(&mut self)
        requires
            old(self).wf(),
        ensures
            final(self)@ == (PoolModel {
                node_list: set_self_hash(
                    old(self)@.node_list,
                    old(self)@.my_addr,
                    spec_hash(old(self)@.node_list),
                ),
                node_hash: spec_hash(old(self)@.node_list),
                ..old(self)@
            }),
            final(self).wf(),
    {
        let h = self.node_list.calculate_hash();
        let me = self.my_addr.clone();
        set_record_hash(&mut self.node_list, &me, &h);
        self.node_hash = h;
        proof {
            lemma_wf_set_peer_hash(
                old(self)@.node_list,
                old(self)@.my_addr,
                old(self)@.my_addr,
                spec_hash(old(self)@.node_list),
            );
        }
    }

    /// Appends one inbound message; the ingress side calls this.
    pub fn push_message(&mut self, m: Message)
        ensures
            final(self)@ == (PoolModel { msg_list: old(self)@.msg_list.push(m@), ..old(self)@ }),
    {
        let ghost ml0 = self.msg_list@;
        self.msg_list.push(m);
        proof {
            let f = |mm: Message| mm@;
            assert(self.msg_list@.map_values(f) =~= ml0.map_values(f).push(
                self.msg_list@.last()@,
            )) by {
                assert forall|t: int| 0 <= t < self.msg_list@.len() implies
                    self.msg_list@.map_values(f)[t] == ml0.map_values(f).push(
                    self.msg_list@.last()@,
                )[t] by {
                    if t < ml0.len() {
                        assert(self.msg_list@[t] == ml0[t]);
                    }
                }
            }
        }
    }

    /// How many inbound messages wait in the queue.
    pub fn message_count(&self) -> (r: usize)
        ensures
            r == self@.msg_list.len(),
    {
        self.msg_list.len()
    }

    /// Drops the head of the message queue.
    pub fn dispose_message(&mut self)
        requires
            old(self)@.msg_list.len() > 0,
        ensures
            final(self)@ == (PoolModel {
                msg_list: old(self)@.msg_list.drop_first(),
                ..old(self)@
            }),
    {
        let ghost ml0 = self.msg_list@;
        let _ = self.msg_list.remove(0);
        proof {
            let f = |mm: Message| mm@;
            assert(self.msg_list@.map_values(f) =~= ml0.map_values(f).drop_first()) by {
                assert forall|t: int| 0 <= t < self.msg_list@.len() implies
                    self.msg_list@.map_values(f)[t] == ml0.map_values(f).drop_first()[t] by {
                    assert(self.msg_list@[t] == ml0[t + 1]);
                }
            }
        }
    }

    /// Which kind the event loop should act on next.
    pub fn select(&mut self) -> (r: MessageKind)
        ensures
            final(self)@ == old(self)@,
            r == spec_select(old(self)@),
    {
        if self.msg_list.len() > 0 {
            let k = self.msg_list[0].kind;
            proof {
                assert(self@.msg_list[0] == self.msg_list@[0]@);
            }
            if matches!(k, MessageKind::Distribute) || matches!(k, MessageKind::State) {
                return k;
            }
        }
        MessageKind::Error
    }

    fn process_state(&mut self, income_msg: &Message)
        requires
            old(self).wf(),
        ensures
            final(self)@ == spec_process_state(old(self)@, income_msg@),
            final(self).wf(),
    {
        let st = income_msg.payload.to_state_struct();
        match st {
            StateType::Unknown() => {},
            StateType::Ping(h) => {
                let sender = income_msg.sender.clone();
                let _ = self.add_node_to_list(sender);
                if self.store_node_list_active {
                    self.persist_pending = true;
                }
                set_record_hash(&mut self.node_list, &income_msg.sender, &h);
                proof {
                    lemma_wf_set_peer_hash(
                        self@.node_list,
                        self@.my_addr,
                        income_msg.sender@,
                        h@,
                    );
                    let p0 = old(self)@;
                    let t1 = spec_add(p0.node_list, p0.my_addr, income_msg@.sender).0;
                    assert(models(self.node_list@) == set_peer_hash(t1, income_msg@.sender, h@));
                }
                let nh = self.node_list.calculate_hash();
                self.node_hash = nh;
            },
            StateType::ControlNodeStatus(a) => {
                zero_record_access(&mut self.node_list, &a);
                proof {
                    lemma_wf_zero_last_access(old(self)@.node_list, old(self)@.my_addr, a@);
                }
            },
            StateType::NodeList(income_node_list) => {
                proof {
                    assert(crate::order::views(income_node_list@)
                        =~= income_node_list.deep_view()) by {
                        assert forall|t: int| 0 <= t < income_node_list@.len() implies
                            crate::order::views(income_node_list@)[t]
                            == income_node_list.deep_view()[t] by {
                            assert(crate::order::views(income_node_list@)[t]
                                == income_node_list@[t]@);
                        }
                    }
                }
                let added = self.add_node_to_lists(income_node_list);
                if added {
                    let nh = self.node_list.calculate_hash();
                    self.node_hash = nh;
                    self.node_hash_updated = true;
                    if self.store_node_list_active {
                        self.persist_pending = true;
                    }
                }
            },
        }
    }

    fn process_message(&mut self, income_msg: &Message)
        requires
            old(self).wf(),
        ensures
            final(self)@ == spec_process_message(old(self)@, income_msg@),
            final(self).wf(),
    {
        let is_state = matches!(income_msg.kind, MessageKind::State);
        if is_state {
            self.process_state(income_msg);
        }
    }

    /// Dequeues the head message and lets it act on the pool, so State
    /// messages always alter the peer table even when the caller only wants
    /// Distribute payloads.
    pub fn get_message(&mut self) -> (r: Message)
        requires
            old(self).wf(),
            old(self)@.msg_list.len() > 0,
        ensures
            final(self)@ == spec_get_message(old(self)@).0,
            r@ == spec_get_message(old(self)@).1,
            final(self).wf(),
    {
        let ghost ml0 = self.msg_list@;
        let income_msg = self.msg_list.remove(0);
        proof {
            let f = |mm: Message| mm@;
            assert(income_msg@ == old(self)@.msg_list[0]);
            assert(self.msg_list@.map_values(f) =~= ml0.map_values(f).drop_first()) by {
                assert forall|t: int| 0 <= t < self.msg_list@.len() implies
                    self.msg_list@.map_values(f)[t] == ml0.map_values(f).drop_first()[t] by {
                    assert(self.msg_list@[t] == ml0[t + 1]);
                }
            }
        }
        self.process_message(&income_msg);
        income_msg
    }

    /// Pops one status delta; before handing it out, recomputes the own
    /// fingerprint and stores it. Deltas other than Online and Offline
    /// collapse to an empty address and Unknown.
    pub fn status_changed(&mut self) -> (r: (String, NodeStatus))
        requires
            old(self).wf(),
        ensures
            final(self)@ == spec_status_changed(old(self)@).0,
            r.0@ == spec_status_changed(old(self)@).1.0,
            r.1 == spec_status_changed(old(self)@).1.1,
            final(self).wf(),
    {
        if self.node_status_change.len() == 0 {
            return (String::new(), NodeStatus::Unknown);
        }
        let h = self.node_list.calculate_hash();
        let me = self.my_addr.clone();
        set_record_hash(&mut self.node_list, &me, &h);
        self.node_hash = h;
        proof {
            lemma_wf_set_peer_hash(
                old(self)@.node_list,
                old(self)@.my_addr,
                old(self)@.my_addr,
                spec_hash(old(self)@.node_list),
            );
        }
        let ghost q0 = self.node_status_change@;
        let d = self.node_status_change.remove(0);
        proof {
            let f = |p: (String, NodeStatus)| (p.0@, p.1);
            assert(self.node_status_change@.map_values(f) =~= q0.map_values(f).drop_first())
                by {
                assert forall|t: int| 0 <= t < self.node_status_change@.len() implies
                    self.node_status_change@.map_values(f)[t] == q0.map_values(
                    f,
                ).drop_first()[t] by {
                    assert(self.node_status_change@[t] == q0[t + 1]);
                }
            }
            assert(old(self)@.node_status_change[0] == (q0[0].0@, q0[0].1));
        }
        if matches!(d.1, NodeStatus::Online) || matches!(d.1, NodeStatus::Offline) {
            return d;
        }
        (String::new(), NodeStatus::Unknown)
    }

    /// One turn of the event loop: one status delta, or one synced signal, or
    /// one inbound message, or nothing.
    pub fn on_event(&mut self) -> (r: EventType)
        requires
            old(self).wf(),
        ensures
            final(self).wf(),
            ({
                let p0 = old(self)@;
                let s = spec_status_changed(p0);
                if s.1.1 == NodeStatus::Online || s.1.1 == NodeStatus::Offline {
                    &&& final(self)@ == s.0
                    &&& (r matches EventType::OnNodeStatusChanged(a, st) && a@ == s.1.0 && st
                        == s.1.1)
                } else if s.0.node_hash_updated && s.0.node_list_synced.len() > 0 {
                    &&& final(self)@ == (PoolModel { node_hash_updated: false, ..s.0 })
                    &&& (r matches EventType::OnNodesSynced(h) && h@ == s.0.node_list_synced)
                } else if spec_select(s.0) == MessageKind::Distribute {
                    &&& final(self)@ == spec_get_message(s.0).0
                    &&& (r matches EventType::OnMessage(m) && m@ == spec_get_message(s.0).1)
                } else if spec_select(s.0) == MessageKind::State {
                    &&& final(self)@ == spec_get_message(s.0).0
                    &&& r == EventType::OnWait()
                } else if s.0.msg_list.len() > 0 {
                    &&& final(self)@ == (PoolModel {
                        msg_list: s.0.msg_list.drop_first(),
                        ..s.0
                    })
                    &&& r == EventType::OnWait()
                } else {
                    &&& final(self)@ == s.0
                    &&& r == EventType::OnWait()
                }
            }),
    {
        let d = self.status_changed();
        if matches!(d.1, NodeStatus::Online) || matches!(d.1, NodeStatus::Offline) {
            return EventType::OnNodeStatusChanged(d.0, d.1);
        }
        if self.node_hash_updated && !self.node_list_synced.as_str().is_empty() {
            self.node_hash_updated = false;
            let h = self.node_list_synced.clone();
            return EventType::OnNodesSynced(h);
        }
        let kind = self.select();
        if matches!(kind, MessageKind::Distribute) {
            let income_msg = self.get_message();
            return EventType::OnMessage(income_msg);
        }
        if matches!(kind, MessageKind::State) {
            let _income_msg = self.get_message();
            return EventType::OnWait();
        }
        // a malformed or plain-reply frame at the head is discarded so the
        // queue drains
        if self.msg_list.len() > 0 {
            self.dispose_message();
        }
        EventType::OnWait()
    }

    /// Clears and reports the pending persistence request. The embedding
    /// writes the peer list to disk when this returns true.
    pub fn take_persist_request(&mut self) -> (r: bool)
        ensures
            final(self)@ == (PoolModel { persist_pending: false, ..old(self)@ }),
            r == old(self)@.persist_pending,
    {
        let r = self.persist_pending;
        self.persist_pending = false;
        r
    }

    /// A snapshot of the record list.
    pub fn clone_records(&self) -> (r: Vec<NodeDetails>)
        ensures
            models(r@) == self@.node_list,
    {
        let mut out: Vec<NodeDetails> = Vec::new();
        let mut i: usize = 0;
        proof {
            assert(models(out@) =~= self@.node_list.take(0));
        }
        while i < self.node_list.len()
            invariant
                i <= self.node_list@.len(),
                models(out@) == self@.node_list.take(i as int),
                self@.node_list.len() == self.node_list@.len(),
            decreases self.node_list@.len() - i,
        {
            let ghost o0 = out@;
            let addr = self.node_list[i].addr.clone();
            let node_hash = self.node_list[i].node_hash.clone();
            let last_access_time = self.node_list[i].last_access_time;
            let synced_time_as_secs = self.node_list[i].synced_time_as_secs;
            let status = self.node_list[i].status;
            out.push(
                NodeDetails { addr, node_hash, last_access_time, synced_time_as_secs, status },
            );
            proof {
                crate::table::lemma_models_push(o0, out@.last());
                crate::table::lemma_models_index(self.node_list@, i as int);
                assert(self@.node_list.take(i as int + 1) =~= self@.node_list.take(
                    i as int,
                ).push(self@.node_list[i as int]));
            }
            i += 1;
        }
        proof {
            assert(self@.node_list.take(self@.node_list.len() as int) =~= self@.node_list);
        }
        out
    }

    /// The pool's current fingerprint.
    pub fn current_hash(&self) -> (r: String)
        ensures
            r@ == self@.node_hash,
    {
        self.node_hash.clone()
    }
}


// ---------------------------------------------------------------------------
// Outbound frames and broadcast
// ---------------------------------------------------------------------------

/// Every built frame addresses the matching target and encodes the same
/// Distribute message with the given id.
pub open spec fn distribute_frames_match(
    r: Seq<(String, Vec<u8>)>,
    targets: Seq<Seq<char>>,
    me: Seq<char>,
    payload: Seq<u8>,
    idv: u128,
) -> bool {
    forall|k: int|
        0 <= k < r.len() ==> #[trigger] r[k].0@ == targets[k] && r[k].1@ == enc_message(
            MessageModel { id: idv, sender: me, kind: MessageKind::Distribute, payload: payload },
        )
}


impl MessagePool {
    /// The fixed reply frame the ingress side returns for a handled frame.
    pub fn make_ok_frame(&self) -> (r: Vec<u8>)
        ensures
            r@ == enc_message(MessageModel {
                id: 0,
                sender: self@.my_addr,
                kind: MessageKind::Okay,
                payload: Seq::empty(),
            }),
    {
        let m = Message {
            id: 0,
            sender: self.my_addr.clone(),
            kind: MessageKind::Okay,
            payload: Vec::new(),
        };
        encode_message(&m)
    }

    /// The probe frame: a State message carrying `Ping` with the current
    /// fingerprint, stamped with the given id.
    pub fn make_ping_frame(&self, id: u128) -> (r: Vec<u8>)
        ensures
            r@ == enc_message(MessageModel {
                id: id,
                sender: self@.my_addr,
                kind: MessageKind::State,
                payload: enc_state(StateModel::Ping(self@.node_hash)),
            }),
    {
        let st = StateType::Ping(self.node_hash.clone());
        let payload = encode_state(&st);
        let m = Message {
            id,
            sender: self.my_addr.clone(),
            kind: MessageKind::State,
            payload,
        };
        encode_message(&m)
    }

    /// The announcement that a peer was observed failing.
    pub fn make_control_frame(&self, target: &String, id: u128) -> (r: Vec<u8>)
        ensures
            r@ == enc_message(MessageModel {
                id: id,
                sender: self@.my_addr,
                kind: MessageKind::State,
                payload: enc_state(StateModel::ControlNodeStatus(target@)),
            }),
    {
        let st = StateType::ControlNodeStatus(target.clone());
        let payload = encode_state(&st);
        let m = Message {
            id,
            sender: self.my_addr.clone(),
            kind: MessageKind::State,
            payload,
        };
        encode_message(&m)
    }

    /// The full membership push: a State message carrying the sorted address
    /// list.
    pub fn make_nodelist_frame(&self, id: u128) -> (r: Vec<u8>)
        ensures
            r@ == enc_message(MessageModel {
                id: id,
                sender: self@.my_addr,
                kind: MessageKind::State,
                payload: enc_state(StateModel::NodeList(
                    crate::table::addrs_of(self@.node_list).sort_by(crate::order::lex_leq()),
                )),
            }),
    {
        let list = self.node_list.to_node_list();
        proof {
            crate::order::lemma_lex_total_ordering();
            crate::table::addrs_of(self@.node_list).lemma_sort_by_ensures(
                crate::order::lex_leq(),
            );
            vstd::seq_lib::lemma_sorted_unique(
                crate::order::views(list@),
                crate::table::addrs_of(self@.node_list).sort_by(crate::order::lex_leq()),
                crate::order::lex_leq(),
            );
            assert(list.deep_view() =~= crate::order::views(list@));
        }
        let st = StateType::NodeList(list);
        let payload = encode_state(&st);
        let m = Message {
            id,
            sender: self.my_addr.clone(),
            kind: MessageKind::State,
            payload,
        };
        encode_message(&m)
    }

    /// Builds one Distribute frame per peer other than this node, with the
    /// given id; the embedding sends each frame to its address.
    pub fn distribute_with(&self, payload: Vec<u8>, id: u128) -> (r: Vec<(String, Vec<u8>)>)
        ensures
            ({
                let targets = other_addrs(self@.node_list, self@.my_addr);
                &&& r@.len() == targets.len()
                &&& forall|k: int|
                    0 <= k < r@.len() ==> #[trigger] r@[k].0@ == targets[k] && r@[k].1@
                        == enc_message(MessageModel {
                        id: id,
                        sender: self@.my_addr,
                        kind: MessageKind::Distribute,
                        payload: payload@,
                    })
            }),
    {
        let ghost t = self@.node_list;
        let ghost me = self@.my_addr;
        let ghost fm = MessageModel {
            id: id,
            sender: self@.my_addr,
            kind: MessageKind::Distribute,
            payload: payload@,
        };
        let mut r: Vec<(String, Vec<u8>)> = Vec::new();
        let mut i: usize = 0;
        proof {
            assert(other_addrs(t.take(0), me) =~= Seq::<Seq<char>>::empty());
        }
        while i < self.node_list.len()
            invariant
                i <= self.node_list@.len(),
                t == self@.node_list,
                me == self@.my_addr,
                fm == (MessageModel {
                    id: id,
                    sender: me,
                    kind: MessageKind::Distribute,
                    payload: payload@,
                }),
                t.len() == self.node_list@.len(),
                r@.len() == other_addrs(t.take(i as int), me).len(),
                forall|k: int|
                    0 <= k < r@.len() ==> #[trigger] r@[k].0@ == other_addrs(
                        t.take(i as int),
                        me,
                    )[k] && r@[k].1@ == enc_message(fm),
            decreases self.node_list@.len() - i,
        {
            proof {
                crate::table::lemma_models_index(self.node_list@, i as int);
                assert(t.take(i as int + 1).drop_last() =~= t.take(i as int));
                assert(t.take(i as int + 1).last() == t[i as int]);
                assert(other_addrs(t.take(i as int + 1), me) == (if t[i as int].addr == me {
                    other_addrs(t.take(i as int), me)
                } else {
                    other_addrs(t.take(i as int), me).push(t[i as int].addr)
                }));
            }
            let ghost r0 = r@;
            if !self.node_list[i].addr.eq(&self.my_addr) {
                let msg = Message {
                    id,
                    sender: self.my_addr.clone(),
                    kind: MessageKind::Distribute,
                    payload: clone_bytes(&payload),
                };
                let frame = encode_message(&msg);
                proof {
                    assert(msg@ == fm);
                }
                let a = self.node_list[i].addr.clone();
                r.push((a, frame));
                proof {
                    assert(t[i as int].addr != me);
                    assert(r@ == r0.push((a, frame)));
                    assert forall|k: int| 0 <= k < r@.len() implies #[trigger] r@[k].0@
                        == other_addrs(t.take(i as int + 1), me)[k] && r@[k].1@
                        == enc_message(fm) by {
                        if k < r0.len() {
                            assert(r@[k] == r0[k]);
                            assert(other_addrs(t.take(i as int + 1), me)[k] == other_addrs(
                                t.take(i as int),
                                me,
                            )[k]);
                        } else {
                            assert(r@[k] == (a, frame));
                        }
                    }
                }
            } else {
                proof {
                    assert(t[i as int].addr == me);
                }
            }
            i += 1;
        }
        proof {
            assert(t.take(t.len() as int) =~= t);
        }
        r
    }

    /// Broadcast: builds one Distribute frame per peer other than this node,
    /// stamped with the clock; the embedding performs the sends. Whatever the
    /// clock returned, all frames carry the same id and the same payload.
    pub fn distribute(&mut self, payload: Vec<u8>) -> (r: Vec<(String, Vec<u8>)>)
        ensures
            final(self)@ == old(self)@,
            ({
                let targets = other_addrs(old(self)@.node_list, old(self)@.my_addr);
                &&& r@.len() == targets.len()
                &&& exists|idv: u128|
                    #[trigger] distribute_frames_match(
                        r@,
                        targets,
                        old(self)@.my_addr,
                        payload@,
                        idv,
                    )
            }),
    {
        let ghost pv = payload@;
        let id = get_sys_time_in_nano();
        let r = self.distribute_with(payload, id);
        proof {
            let targets = other_addrs(self@.node_list, self@.my_addr);
            assert(distribute_frames_match(r@, targets, self@.my_addr, pv, id));
        }
        r
    }

    /// One-shot send: the frame for a single receiver, stamped with the
    /// clock; the embedding performs the send.
    pub fn send_to(&mut self, receiver: String, payload: Vec<u8>) -> (r: (String, Vec<u8>))
        ensures
            final(self)@ == old(self)@,
            r.0 == receiver,
            exists|idv: u128|
                r.1@ == enc_message(MessageModel {
                    id: idv,
                    sender: old(self)@.my_addr,
                    kind: MessageKind::Distribute,
                    payload: payload@,
                }),
    {
        let id = get_sys_time_in_nano();
        let m = Message {
            id,
            sender: self.my_addr.clone(),
            kind: MessageKind::Distribute,
            payload,
        };
        let frame = encode_message(&m);
        proof {
            assert(m@ == (MessageModel {
                id: id,
                sender: old(self)@.my_addr,
                kind: MessageKind::Distribute,
                payload: m@.payload,
            }));
        }
        (receiver, frame)
    }
}

/// Byte-for-byte copy of a payload.
fn clone_bytes(v: &Vec<u8>) -> (r: Vec<u8>)
    ensures
        r@ == v@,
{
    let mut out: Vec<u8> = Vec::new();
    let mut i: usize = 0;
    while i < v.len()
        invariant
            i <= v@.len(),
            out@ == v@.take(i as int),
        decreases v@.len() - i,
    {
        out.push(v[i]);
        proof {
            assert(v@.take(i as int + 1) =~= v@.take(i as int).push(v@[i as int]));
        }
        i += 1;
    }
    proof {
        assert(v@.take(v@.len() as int) =~= v@);
    }
    out
}

// ---------------------------------------------------------------------------
// Laws
// ---------------------------------------------------------------------------

/// In a well-formed table that holds the pool's own address at all, there is
/// exactly one record with that address, and it is Online: any two indices
/// carrying it coincide.
pub proof fn lemma_unique_self_record(t: Seq<NodeModel>, me: Seq<char>, i: int, j: int)
    requires
        table_wf(t, me),
        0 <= i < t.len(),
        0 <= j < t.len(),
        t[i].addr == me,
        t[j].addr == me,
    ensures
        i == j,
        t[i].status == NodeStatus::Online,
{
    if i < j {
        assert(t[i].addr != t[j].addr);
    }
    if j < i {
        assert(t[j].addr != t[i].addr);
    }
}

/// Inserting an address twice leaves the table unchanged the second time and
/// reports no insertion.
pub proof fn lemma_add_idempotent(t: Seq<NodeModel>, me: Seq<char>, addr: Seq<char>)
    ensures
        spec_add(spec_add(t, me, addr).0, me, addr) == (spec_add(t, me, addr).0, false),
{
    let t1 = spec_add(t, me, addr).0;
    if addr.len() == 0 {
    } else if has_addr(t, addr) {
    } else {
        let tp = t.push(new_record(addr, me));
        assert(zero_synced(tp)[t.len() as int].addr == addr) by {
            assert(tp[t.len() as int] == new_record(addr, me));
        }
        assert(has_addr(t1, addr));
    }
}


// ---------------------------------------------------------------------------
// Applying a round to the pool
// ---------------------------------------------------------------------------

/// One timestamp update applied to the table.
pub open spec fn set_access(t: Seq<NodeModel>, addr: Seq<char>, tm: u128) -> Seq<NodeModel> {
    t.map_values(
        |n: NodeModel| if n.addr == addr {
            NodeModel { last_access_time: tm, ..n }
        } else {
            n
        },
    )
}

/// One status update applied to the table; the pool's own record never
/// changes status here.
pub open spec fn set_status(
    t: Seq<NodeModel>,
    me: Seq<char>,
    addr: Seq<char>,
    st: NodeStatus,
) -> Seq<NodeModel> {
    t.map_values(
        |n: NodeModel| if n.addr == addr && addr != me {
            NodeModel { status: st, ..n }
        } else {
            n
        },
    )
}

/// All timestamp updates of a round, in order.
pub open spec fn apply_times(t: Seq<NodeModel>, us: Seq<(Seq<char>, u128)>) -> Seq<NodeModel>
    decreases us.len(),
{
    if us.len() == 0 {
        t
    } else {
        apply_times(set_access(t, us[0].0, us[0].1), us.drop_first())
    }
}

/// All status updates of a round, in order.
pub open spec fn apply_statuses(
    t: Seq<NodeModel>,
    me: Seq<char>,
    us: Seq<(Seq<char>, NodeStatus)>,
) -> Seq<NodeModel>
    decreases us.len(),
{
    if us.len() == 0 {
        t
    } else {
        apply_statuses(set_status(t, me, us[0].0, us[0].1), me, us.drop_first())
    }
}

proof fn lemma_apply_times_snoc(t: Seq<NodeModel>, us: Seq<(Seq<char>, u128)>, u: (Seq<char>, u128))
    ensures
        apply_times(t, us.push(u)) == set_access(apply_times(t, us), u.0, u.1),
    decreases us.len(),
{
    if us.len() == 0 {
        assert(us.push(u)[0] == u);
        assert(us.push(u).drop_first() =~= Seq::<(Seq<char>, u128)>::empty());
        assert(apply_times(set_access(t, u.0, u.1), us.push(u).drop_first()) == set_access(
            t,
            u.0,
            u.1,
        ));
        assert(apply_times(t, us) == t);
    } else {
        assert(us.push(u)[0] == us[0]);
        assert(us.push(u).drop_first() =~= us.drop_first().push(u));
        lemma_apply_times_snoc(set_access(t, us[0].0, us[0].1), us.drop_first(), u);
        assert(apply_times(t, us.push(u)) == apply_times(
            set_access(t, us[0].0, us[0].1),
            us.drop_first().push(u),
        ));
        assert(apply_times(t, us) == apply_times(set_access(t, us[0].0, us[0].1), us.drop_first()));
    }
}

proof fn lemma_apply_statuses_snoc(
    t: Seq<NodeModel>,
    me: Seq<char>,
    us: Seq<(Seq<char>, NodeStatus)>,
    u: (Seq<char>, NodeStatus),
)
    ensures
        apply_statuses(t, me, us.push(u)) == set_status(apply_statuses(t, me, us), me, u.0, u.1),
    decreases us.len(),
{
    if us.len() == 0 {
        assert(us.push(u)[0] == u);
        assert(us.push(u).drop_first() =~= Seq::<(Seq<char>, NodeStatus)>::empty());
        assert(apply_statuses(set_status(t, me, u.0, u.1), me, us.push(u).drop_first())
            == set_status(t, me, u.0, u.1));
        assert(apply_statuses(t, me, us) == t);
    } else {
        assert(us.push(u)[0] == us[0]);
        assert(us.push(u).drop_first() =~= us.drop_first().push(u));
        lemma_apply_statuses_snoc(set_status(t, me, us[0].0, us[0].1), me, us.drop_first(), u);
        assert(apply_statuses(t, me, us.push(u)) == apply_statuses(
            set_status(t, me, us[0].0, us[0].1),
            me,
            us.drop_first().push(u),
        ));
        assert(apply_statuses(t, me, us) == apply_statuses(
            set_status(t, me, us[0].0, us[0].1),
            me,
            us.drop_first(),
        ));
    }
}

/// Field maps that keep addresses and statuses keep the table invariant.
proof fn lemma_wf_set_access(t: Seq<NodeModel>, me: Seq<char>, addr: Seq<char>, tm: u128)
    requires
        table_wf(t, me),
    ensures
        table_wf(set_access(t, addr, tm), me),
{
    crate::pool::lemma_wf_same_addrs_statuses(t, set_access(t, addr, tm), me);
}

/// Status maps that skip the pool's own record keep the table invariant.
proof fn lemma_wf_set_status(
    t: Seq<NodeModel>,
    me: Seq<char>,
    addr: Seq<char>,
    st: NodeStatus,
)
    requires
        table_wf(t, me),
    ensures
        table_wf(set_status(t, me, addr, st), me),
{
    let t2 = set_status(t, me, addr, st);
    assert forall|i: int, j: int| 0 <= i < j < t2.len() implies t2[i].addr != t2[j].addr by {
        assert(t2[i].addr == t[i].addr && t2[j].addr == t[j].addr);
        assert(t[i].addr != t[j].addr);
    }
    assert forall|i: int| 0 <= i < t2.len() && #[trigger] t2[i].addr == me implies t2[i].status
        == NodeStatus::Online by {
        assert(t[i].addr == me);
    }
}

fn set_access_one(v: &mut Vec<NodeDetails>, addr: &String, tm: u128)
    ensures
        models(final(v)@) == set_access(models(old(v)@), addr@, tm),
{
    let mut k: usize = 0;
    while k < v.len()
        invariant
            k <= v@.len(),
            v@.len() == old(v)@.len(),
            forall|t: int| k <= t < v@.len() ==> v@[t] == old(v)@[t],
            forall|t: int|
                0 <= t < k ==> #[trigger] v@[t]@ == (if old(v)@[t]@.addr == addr@ {
                    NodeModel { last_access_time: tm, ..old(v)@[t]@ }
                } else {
                    old(v)@[t]@
                }),
        decreases v@.len() - k,
    {
        if v[k].addr.eq(addr) {
            let a2 = v[k].addr.clone();
            let nh = v[k].node_hash.clone();
            let syn = v[k].synced_time_as_secs;
            let st = v[k].status;
            v.set(
                k,
                NodeDetails {
                    addr: a2,
                    node_hash: nh,
                    last_access_time: tm,
                    synced_time_as_secs: syn,
                    status: st,
                },
            );
        }
        k += 1;
    }
    proof {
        assert(models(v@) =~= set_access(models(old(v)@), addr@, tm)) by {
            assert forall|t: int| 0 <= t < v@.len() implies models(v@)[t] == set_access(
                models(old(v)@),
                addr@,
                tm,
            )[t] by {
                crate::table::lemma_models_index(v@, t);
                crate::table::lemma_models_index(old(v)@, t);
            }
        }
    }
}

fn set_status_one(v: &mut Vec<NodeDetails>, me: &String, addr: &String, st: NodeStatus)
    ensures
        models(final(v)@) == set_status(models(old(v)@), me@, addr@, st),
{
    let skip = addr.eq(me);
    let mut k: usize = 0;
    while k < v.len()
        invariant
            skip == (addr@ == me@),
            k <= v@.len(),
            v@.len() == old(v)@.len(),
            forall|t: int| k <= t < v@.len() ==> v@[t] == old(v)@[t],
            forall|t: int|
                0 <= t < k ==> #[trigger] v@[t]@ == (if old(v)@[t]@.addr == addr@ && addr@
                    != me@ {
                    NodeModel { status: st, ..old(v)@[t]@ }
                } else {
                    old(v)@[t]@
                }),
        decreases v@.len() - k,
    {
        if !skip && v[k].addr.eq(addr) {
            let a2 = v[k].addr.clone();
            let nh = v[k].node_hash.clone();
            let lat = v[k].last_access_time;
            let syn = v[k].synced_time_as_secs;
            v.set(
                k,
                NodeDetails {
                    addr: a2,
                    node_hash: nh,
                    last_access_time: lat,
                    synced_time_as_secs: syn,
                    status: st,
                },
            );
        }
        k += 1;
    }
    proof {
        assert(models(v@) =~= set_status(models(old(v)@), me@, addr@, st)) by {
            assert forall|t: int| 0 <= t < v@.len() implies models(v@)[t] == set_status(
                models(old(v)@),
                me@,
                addr@,
                st,
            )[t] by {
                crate::table::lemma_models_index(v@, t);
                crate::table::lemma_models_index(old(v)@, t);
            }
        }
    }
}

impl MessagePool {
    /// Applies one finished probing round: either the single flagged removal
    /// — at most one per round, and never the pool's own record — or the
    /// collected access-time and status updates; the round's status events
    /// join the shared status-change queue either way.
    pub fn apply_probe_round(&mut self, round: &ProbeRound) -> (removed: bool)
        requires
            old(self).wf(),
        ensures
            final(self).wf(),
            final(self)@ == (PoolModel {
                node_list: final(self)@.node_list,
                node_status_change: final(self)@.node_status_change,
                ..old(self)@
            }),
            final(self)@.node_status_change == old(self)@.node_status_change + sviews(
                round.shared_events@,
            ),
            ({
                let p0 = old(self)@;
                match round.remove_idx {
                    Some(i) => if (i as int) < p0.node_list.len() && p0.node_list[i as int].addr
                        != p0.my_addr {
                        final(self)@.node_list == p0.node_list.remove(i as int) && removed
                    } else {
                        final(self)@.node_list == p0.node_list && !removed
                    },
                    None => final(self)@.node_list == apply_statuses(
                        apply_times(p0.node_list, tviews(round.update_time@)),
                        p0.my_addr,
                        sviews(round.update_status@),
                    ) && !removed,
                }
            }),
    {
        let ghost p0 = self@;
        let mut removed = false;
        match round.remove_idx {
            Some(i) => {
                if i < self.node_list.len() && !self.node_list[i].addr.eq(&self.my_addr) {
                    proof {
                        crate::table::lemma_models_index(self.node_list@, i as int);
                    }
                    let ghost nl0 = self.node_list@;
                    let _ = self.node_list.remove(i);
                    removed = true;
                    proof {
                        assert(models(self.node_list@) =~= p0.node_list.remove(i as int)) by {
                            assert forall|t: int| 0 <= t < self.node_list@.len() implies
                                models(self.node_list@)[t] == p0.node_list.remove(
                                i as int,
                            )[t] by {
                                crate::table::lemma_models_index(self.node_list@, t);
                                crate::table::lemma_models_index(nl0, t);
                                crate::table::lemma_models_index(nl0, t + 1);
                                if t < i as int {
                                    assert(self.node_list@[t] == nl0[t]);
                                } else {
                                    assert(self.node_list@[t] == nl0[t + 1]);
                                }
                            }
                        }
                        assert(table_wf(models(self.node_list@), p0.my_addr)) by {
                            let t2 = models(self.node_list@);
                            let t1 = p0.node_list;
                            assert forall|x: int, y: int| 0 <= x < y < t2.len() implies
                                t2[x].addr != t2[y].addr by {
                                let x1: int = if x < i as int { x } else { x + 1 };
                                let y1: int = if y < i as int { y } else { y + 1 };
                                assert(t2[x] == t1[x1] && t2[y] == t1[y1]);
                                assert(t1[x1].addr != t1[y1].addr);
                            }
                            assert forall|x: int| 0 <= x < t2.len() && #[trigger] t2[x].addr
                                == p0.my_addr implies t2[x].status == NodeStatus::Online by {
                                let x1: int = if x < i as int { x } else { x + 1 };
                                assert(t2[x] == t1[x1]);
                            }
                        }
                    }
                }
            },
            None => {
                let ghost tv = tviews(round.update_time@);
                let mut k: usize = 0;
                proof {
                    assert(tv.take(0) =~= Seq::<(Seq<char>, u128)>::empty());
                }
                while k < round.update_time.len()
                    invariant
                        k <= round.update_time@.len(),
                        tv == tviews(round.update_time@),
                        tv.len() == round.update_time@.len(),
                        models(self.node_list@) == apply_times(p0.node_list, tv.take(k as int)),
                        self.wf(),
                        self@ == (PoolModel { node_list: models(self.node_list@), ..p0 }),
                    decreases round.update_time@.len() - k,
                {
                    proof {
                        assert(tv[k as int] == (round.update_time@[k as int].0@,
                            round.update_time@[k as int].1));
                    }
                    set_access_one(
                        &mut self.node_list,
                        &round.update_time[k].0,
                        round.update_time[k].1,
                    );
                    proof {
                        assert(tv.take(k as int + 1) =~= tv.take(k as int).push(tv[k as int]));
                        lemma_apply_times_snoc(p0.node_list, tv.take(k as int), tv[k as int]);
                        lemma_wf_set_access(
                            apply_times(p0.node_list, tv.take(k as int)),
                            p0.my_addr,
                            tv[k as int].0,
                            tv[k as int].1,
                        );
                    }
                    k += 1;
                }
                proof {
                    assert(tv.take(tv.len() as int) =~= tv);
                }
                let ghost sv = sviews(round.update_status@);
                let ghost t_mid = models(self.node_list@);
                let mut q: usize = 0;
                proof {
                    assert(sv.take(0) =~= Seq::<(Seq<char>, NodeStatus)>::empty());
                }
                while q < round.update_status.len()
                    invariant
                        q <= round.update_status@.len(),
                        sv == sviews(round.update_status@),
                        sv.len() == round.update_status@.len(),
                        models(self.node_list@) == apply_statuses(t_mid, p0.my_addr, sv.take(
                            q as int,
                        )),
                        self.wf(),
                        self@ == (PoolModel { node_list: models(self.node_list@), ..p0 }),
                    decreases round.update_status@.len() - q,
                {
                    proof {
                        assert(sv[q as int] == (round.update_status@[q as int].0@,
                            round.update_status@[q as int].1));
                    }
                    let me = self.my_addr.clone();
                    set_status_one(
                        &mut self.node_list,
                        &me,
                        &round.update_status[q].0,
                        round.update_status[q].1,
                    );
                    proof {
                        assert(sv.take(q as int + 1) =~= sv.take(q as int).push(sv[q as int]));
                        lemma_apply_statuses_snoc(
                            t_mid,
                            p0.my_addr,
                            sv.take(q as int),
                            sv[q as int],
                        );
                        lemma_wf_set_status(
                            apply_statuses(t_mid, p0.my_addr, sv.take(q as int)),
                            p0.my_addr,
                            sv[q as int].0,
                            sv[q as int].1,
                        );
                    }
                    q += 1;
                }
                proof {
                    assert(sv.take(sv.len() as int) =~= sv);
                }
            },
        }
        // the round's status deltas join the shared queue in order
        let ghost q0 = self@.node_status_change;
        let ghost se = sviews(round.shared_events@);
        let ghost nl_after = self@.node_list;
        let mut w: usize = 0;
        proof {
            assert(se.take(0) =~= Seq::<(Seq<char>, NodeStatus)>::empty());
            assert(q0 + se.take(0) =~= q0);
        }
        while w < round.shared_events.len()
            invariant
                w <= round.shared_events@.len(),
                se == sviews(round.shared_events@),
                se.len() == round.shared_events@.len(),
                self@.node_status_change == q0 + se.take(w as int),
                self@.node_list == nl_after,
                self.wf(),
                self@ == (PoolModel {
                    node_status_change: self@.node_status_change,
                    node_list: self@.node_list,
                    ..old(self)@
                }),
            decreases round.shared_events@.len() - w,
        {
            let ghost c0 = self.node_status_change@;
            let a = round.shared_events[w].0.clone();
            let st = round.shared_events[w].1;
            self.node_status_change.push((a, st));
            proof {
                let f = |p: (String, NodeStatus)| (p.0@, p.1);
                assert(self.node_status_change@.map_values(f) =~= c0.map_values(f).push(
                    (self.node_status_change@.last().0@, self.node_status_change@.last().1),
                )) by {
                    assert forall|t: int| 0 <= t < self.node_status_change@.len() implies
                        self.node_status_change@.map_values(f)[t] == c0.map_values(f).push(
                        (self.node_status_change@.last().0@, self.node_status_change@.last().1),
                    )[t] by {
                        if t < c0.len() {
                            assert(self.node_status_change@[t] == c0[t]);
                        }
                    }
                }
                assert(se[w as int] == (round.shared_events@[w as int].0@,
                    round.shared_events@[w as int].1));
                assert(se.take(w as int + 1) =~= se.take(w as int).push(se[w as int]));
                assert(q0 + se.take(w as int + 1) =~= (q0 + se.take(w as int)).push(
                    se[w as int],
                ));
            }
            w += 1;
        }
        proof {
            assert(se.take(se.len() as int) =~= se);
        }
        removed
    }

    /// Sets the sync timestamp on the named peers, or on all when the list is
    /// empty.
    pub fn set_sync_time(&mut self, which_node: Vec<String>, new_sync_time: u128)
        requires
            old(self).wf(),
        ensures
            final(self).wf(),
            final(self)@ == (PoolModel { node_list: final(self)@.node_list, ..old(self)@ }),
            final(self)@.node_list.len() == old(self)@.node_list.len(),
            forall|k: int|
                0 <= k < old(self)@.node_list.len() ==> #[trigger] final(self)@.node_list[k]
                    == (NodeModel {
                    synced_time_as_secs: if which_node@.len() == 0 || crate::table::names_contain(
                        which_node@,
                        old(self)@.node_list[k].addr,
                    ) {
                        new_sync_time
                    } else {
                        old(self)@.node_list[k].synced_time_as_secs
                    },
                    ..old(self)@.node_list[k]
                }),
    {
        let ghost t0 = self@.node_list;
        let ghost nl0 = self.node_list@;
        self.node_list.set_sync_time(which_node, new_sync_time);
        proof {
            assert forall|k: int| 0 <= k < t0.len() implies #[trigger] models(
                self.node_list@,
            )[k] == (NodeModel {
                synced_time_as_secs: if which_node@.len() == 0 || crate::table::names_contain(
                    which_node@,
                    t0[k].addr,
                ) {
                    new_sync_time
                } else {
                    t0[k].synced_time_as_secs
                },
                ..t0[k]
            }) by {
                crate::table::lemma_models_index(self.node_list@, k);
                crate::table::lemma_models_index(nl0, k);
            }
            crate::pool::lemma_wf_same_addrs_statuses(t0, models(self.node_list@), self@.my_addr);
        }
    }
}



/// The peers a membership push goes to: not this node, Online, reporting a
/// fingerprint other than ours, and not pushed to within the last 100 ms.
pub open spec fn push_targets(
    t: Seq<NodeModel>,
    me: Seq<char>,
    myhash: Seq<char>,
    now_ms: u128,
) -> Seq<Seq<char>>
    decreases t.len(),
{
    if t.len() == 0 {
        Seq::empty()
    } else {
        let rest = push_targets(t.drop_last(), me, myhash, now_ms);
        let n = t.last();
        if n.addr != me && n.node_hash != myhash && n.status == NodeStatus::Online
            && n.synced_time_as_secs + 100 < now_ms {
            rest.push(n.addr)
        } else {
            rest
        }
    }
}

impl MessagePool {
    /// The peers whose view is stale enough to deserve a membership push now.
    pub fn nodelist_push_targets(&self, now_ms: u128) -> (r: Vec<String>)
        ensures
            crate::order::views(r@) == push_targets(
                self@.node_list,
                self@.my_addr,
                self@.node_hash,
                now_ms,
            ),
    {
        let ghost t = self@.node_list;
        let ghost me = self@.my_addr;
        let ghost mh = self@.node_hash;
        let mut r: Vec<String> = Vec::new();
        let mut i: usize = 0;
        proof {
            assert(push_targets(t.take(0), me, mh, now_ms) =~= Seq::<Seq<char>>::empty());
            assert(crate::order::views(r@) =~= Seq::<Seq<char>>::empty());
        }
        while i < self.node_list.len()
            invariant
                i <= self.node_list@.len(),
                t == self@.node_list,
                me == self@.my_addr,
                mh == self@.node_hash,
                t.len() == self.node_list@.len(),
                crate::order::views(r@) == push_targets(t.take(i as int), me, mh, now_ms),
            decreases self.node_list@.len() - i,
        {
            proof {
                crate::table::lemma_models_index(self.node_list@, i as int);
                assert(t.take(i as int + 1).drop_last() =~= t.take(i as int));
                assert(t.take(i as int + 1).last() == t[i as int]);
            }
            let ghost r0 = r@;
            let n_synced = self.node_list[i].synced_time_as_secs;
            if !self.node_list[i].addr.eq(&self.my_addr) && !self.node_list[i].node_hash.eq(
                &self.node_hash,
            ) && matches!(self.node_list[i].status, NodeStatus::Online) && n_synced < now_ms
                && now_ms - n_synced > 100 {
                let a = self.node_list[i].addr.clone();
                r.push(a);
                proof {
                    crate::table::lemma_views_push(r0, r@.last());
                }
            }
            i += 1;
        }
        proof {
            assert(t.take(t.len() as int) =~= t);
        }
        r
    }

    /// The convergence latch: when every Online peer reports our fingerprint
    /// family and the membership had changed, latch the fingerprint and raise
    /// the synced flag; when the Online peers disagree, ask for a recheck.
    pub fn update_synced_latch(&mut self, all_changed: bool) -> (r: bool)
        requires
            old(self).wf(),
        ensures
            final(self).wf(),
            ({
                let p0 = old(self)@;
                if crate::table::spec_all_online_agree(p0.node_list) {
                    &&& r == false
                    &&& (if all_changed && p0.node_list_synced != p0.node_hash {
                        final(self)@ == (PoolModel {
                            node_list_synced: p0.node_hash,
                            node_hash_updated: true,
                            ..p0
                        })
                    } else {
                        final(self)@ == p0
                    })
                } else {
                    r == true && final(self)@ == p0
                }
            }),
    {
        let snap = self.clone_records();
        if crate::table::control_nodes_hash(snap) {
            if all_changed {
                if !self.node_list_synced.eq(&self.node_hash) {
                    self.node_list_synced = self.node_hash.clone();
                    self.node_hash_updated = true;
                }
            }
            return false;
        }
        true
    }

    /// After a round that touched the membership: recompute the fingerprint,
    /// store it in the pool and in the own record, and report whether a
    /// convergence recheck is due.
    pub fn recompute_hash_after_round(&mut self, hash_dirty: bool, all_changed: bool) -> (r:
        bool)
        requires
            old(self).wf(),
        ensures
            final(self).wf(),
            ({
                let p0 = old(self)@;
                if !hash_dirty {
                    final(self)@ == p0 && r == all_changed
                } else {
                    let h = spec_hash(p0.node_list);
                    &&& final(self)@ == (PoolModel {
                        node_hash: h,
                        node_list: set_self_hash(p0.node_list, p0.my_addr, h),
                        ..p0
                    })
                    &&& r == (all_changed || p0.node_hash != h || exists|i: int|
                        0 <= i < p0.node_list.len() && #[trigger] p0.node_list[i].addr
                            == p0.my_addr && p0.node_list[i].node_hash != h)
                }
            }),
    {
        if !hash_dirty {
            return all_changed;
        }
        let ghost p0 = self@;
        let h = self.node_list.calculate_hash();
        let mut changed = all_changed;
        if !self.node_hash.eq(&h) {
            changed = true;
        }
        let mut selfdiff = false;
        let mut i: usize = 0;
        while i < self.node_list.len()
            invariant
                i <= self.node_list@.len(),
                p0 == self@,
                h@ == spec_hash(p0.node_list),
                p0.node_list.len() == self.node_list@.len(),
                selfdiff ==> exists|k: int|
                    0 <= k < p0.node_list.len() && #[trigger] p0.node_list[k].addr == p0.my_addr
                        && p0.node_list[k].node_hash != h@,
                !selfdiff ==> forall|k: int|
                    #![trigger p0.node_list[k]]
                    0 <= k < i ==> !(p0.node_list[k].addr == p0.my_addr
                        && p0.node_list[k].node_hash != h@),
            decreases self.node_list@.len() - i,
        {
            proof {
                crate::table::lemma_models_index(self.node_list@, i as int);
            }
            let hit = self.node_list[i].addr.eq(&self.my_addr) && !self.node_list[i]
                .node_hash.eq(&h);
            proof {
                if hit {
                    assert(p0.node_list[i as int].addr == p0.my_addr && p0.node_list[i as int]
                        .node_hash != h@);
                } else {
                    assert(!(p0.node_list[i as int].addr == p0.my_addr && p0.node_list[i as int]
                        .node_hash != h@));
                }
            }
            if hit {
                selfdiff = true;
            }
            i += 1;
        }
        if selfdiff {
            changed = true;
        }
        proof {
            if !selfdiff {
                if exists|k: int|
                    0 <= k < p0.node_list.len() && #[trigger] p0.node_list[k].addr == p0.my_addr
                        && p0.node_list[k].node_hash != h@ {
                    let w = choose|w: int|
                        0 <= w < p0.node_list.len() && #[trigger] p0.node_list[w].addr
                            == p0.my_addr && p0.node_list[w].node_hash != h@;
                    assert(!(p0.node_list[w].addr == p0.my_addr && p0.node_list[w].node_hash
                        != h@));
                }
            }
        }
        let me = self.my_addr.clone();
        set_record_hash(&mut self.node_list, &me, &h);
        self.node_hash = h;
        proof {
            lemma_wf_set_peer_hash(p0.node_list, p0.my_addr, p0.my_addr, spec_hash(p0.node_list));
        }
        changed
    }
}

} // verus!
