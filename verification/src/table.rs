//! Operations on the list of peer records: the membership fingerprint, sync
//! timestamps, snapshots and counts, and the proof that the fingerprint is
//! determined by the multiset of (address, status) pairs alone.

use vstd::prelude::*;
use vstd::relations::sorted_by;
use vstd::string::*;
use crate::structs::{NodeDetails, NodeModel, NodeStatus, spec_status_label, status_label};
use crate::order::{lex_leq, lemma_lex_total_ordering, lemma_map_multiset, sort_strings, views};
use crate::codec::encode_string_array;
use crate::sys::{md5_hex, md5_hex_of};
use crate::wire::enc_strs;

verus! {

/// The models of a list of records.
pub open spec fn models(v: Seq<NodeDetails>) -> Seq<NodeModel> {
    v.map_values(|n: NodeDetails| n@)
}

/// The "addr:Status" string a record contributes to the status fingerprint.
pub open spec fn pair_label(addr: Seq<char>, st: NodeStatus) -> Seq<char> {
    addr + seq![':'] + spec_status_label(st)
}

/// The addresses of a table, in record order.
pub open spec fn addrs_of(t: Seq<NodeModel>) -> Seq<Seq<char>> {
    t.map_values(|n: NodeModel| n.addr)
}

/// The "addr:Status" strings of a table, in record order.
pub open spec fn pair_labels_of(t: Seq<NodeModel>) -> Seq<Seq<char>> {
    t.map_values(|n: NodeModel| pair_label(n.addr, n.status))
}

/// The (address, status) pairs of a table, in record order.
pub open spec fn pairs_of(t: Seq<NodeModel>) -> Seq<(Seq<char>, NodeStatus)> {
    t.map_values(|n: NodeModel| (n.addr, n.status))
}

/// The membership fingerprint: the first five hex characters of the md5 of
/// the sorted address list, a colon, and the first five of the md5 of the
/// sorted "addr:Status" list, both lists in canonical JSON.
pub open spec fn spec_hash(t: Seq<NodeModel>) -> Seq<char> {
    let la = md5_hex_of(enc_strs(addrs_of(t).sort_by(lex_leq())));
    let ls = md5_hex_of(enc_strs(pair_labels_of(t).sort_by(lex_leq())));
    la.take(5) + seq![':'] + ls.take(5)
}

/// The number of Online records.
pub open spec fn online_count_of(t: Seq<NodeModel>) -> int
    decreases t.len(),
{
    if t.len() == 0 {
        0
    } else {
        online_count_of(t.drop_last()) + if t.last().status == NodeStatus::Online {
            1int
        } else {
            0int
        }
    }
}

/// All Online records whose reported fingerprints are non-empty agree.
pub open spec fn spec_all_online_agree(t: Seq<NodeModel>) -> bool {
    forall|i: int, j: int|
        0 <= i < t.len() && 0 <= j < t.len() && #[trigger] t[i].status == NodeStatus::Online
            && #[trigger] t[j].status == NodeStatus::Online && t[i].node_hash.len() > 0
            && t[j].node_hash.len() > 0 ==> t[i].node_hash == t[j].node_hash
}

/// An address list holds a given address.
pub open spec fn names_contain(which: Seq<String>, addr: Seq<char>) -> bool {
    exists|q: int| 0 <= q < which.len() && #[trigger] which[q]@ == addr
}


/// Indexing through `models`.
pub proof fn lemma_models_index(v: Seq<NodeDetails>, k: int)
    requires
        0 <= k < v.len(),
    ensures
        models(v)[k] == v[k]@,
{
}

/// `models` distributes over `push`.
pub proof fn lemma_models_push(v: Seq<NodeDetails>, n: NodeDetails)
    ensures
        models(v.push(n)) == models(v).push(n@),
{
    assert forall|t: int| 0 <= t < models(v.push(n)).len() implies models(v.push(n))[t]
        == models(v).push(n@)[t] by {
        assert(models(v.push(n))[t] == v.push(n)[t]@);
        if t < v.len() {
            assert(v.push(n)[t] == v[t]);
            assert(models(v)[t] == v[t]@);
        } else {
            assert(v.push(n)[t] == n);
        }
    }
    assert(models(v.push(n)) =~= models(v).push(n@));
}

/// `addrs_of` distributes over `push`.
pub proof fn lemma_addrs_push(t: Seq<NodeModel>, n: NodeModel)
    ensures
        addrs_of(t.push(n)) == addrs_of(t).push(n.addr),
{
    assert forall|k: int| 0 <= k < addrs_of(t.push(n)).len() implies addrs_of(t.push(n))[k]
        == addrs_of(t).push(n.addr)[k] by {
        assert(addrs_of(t.push(n))[k] == t.push(n)[k].addr);
        if k < t.len() {
            assert(t.push(n)[k] == t[k]);
            assert(addrs_of(t)[k] == t[k].addr);
        } else {
            assert(t.push(n)[k] == n);
        }
    }
    assert(addrs_of(t.push(n)) =~= addrs_of(t).push(n.addr));
}

/// `pair_labels_of` distributes over `push`.
pub proof fn lemma_pair_labels_push(t: Seq<NodeModel>, n: NodeModel)
    ensures
        pair_labels_of(t.push(n)) == pair_labels_of(t).push(pair_label(n.addr, n.status)),
{
    assert forall|k: int| 0 <= k < pair_labels_of(t.push(n)).len() implies pair_labels_of(
        t.push(n),
    )[k] == pair_labels_of(t).push(pair_label(n.addr, n.status))[k] by {
        assert(pair_labels_of(t.push(n))[k] == pair_label(t.push(n)[k].addr, t.push(n)[k].status));
        if k < t.len() {
            assert(t.push(n)[k] == t[k]);
            assert(pair_labels_of(t)[k] == pair_label(t[k].addr, t[k].status));
        } else {
            assert(t.push(n)[k] == n);
        }
    }
    assert(pair_labels_of(t.push(n)) =~= pair_labels_of(t).push(pair_label(n.addr, n.status)));
}

/// `views` distributes over `push`.
pub proof fn lemma_views_push(v: Seq<String>, s: String)
    ensures
        crate::order::views(v.push(s)) == crate::order::views(v).push(s@),
{
    assert forall|t: int| 0 <= t < crate::order::views(v.push(s)).len() implies
        crate::order::views(v.push(s))[t] == crate::order::views(v).push(s@)[t] by {
        assert(crate::order::views(v.push(s))[t] == v.push(s)[t]@);
        if t < v.len() {
            assert(v.push(s)[t] == v[t]);
            assert(crate::order::views(v)[t] == v[t]@);
        } else {
            assert(v.push(s)[t] == s);
        }
    }
    assert(crate::order::views(v.push(s)) =~= crate::order::views(v).push(s@));
}

/// Collects the addresses of the records, in record order.
fn addr_strings(v: &Vec<NodeDetails>) -> (r: Vec<String>)
    ensures
        views(r@) == addrs_of(models(v@)),
{
    let mut tmp: Vec<String> = Vec::new();
    proof {
        assert(views(tmp@) =~= addrs_of(models(v@.take(0))));
    }
    let mut i: usize = 0;
    while i < v.len()
        invariant
            i <= v@.len(),
            views(tmp@) == addrs_of(models(v@.take(i as int))),
        decreases v@.len() - i,
    {
        let ghost tl0 = tmp@;
        let a = v[i].addr.clone();
        let ghost av = a@;
        tmp.push(a);
        proof {
            let ti = i as int;
            assert(v@.take(ti + 1) =~= v@.take(ti).push(v@[ti]));
            lemma_models_push(v@.take(ti), v@[ti]);
            lemma_addrs_push(models(v@.take(ti)), v@[ti]@);
            lemma_views_push(tl0, tmp@[tmp@.len() - 1]);
            assert(tmp@ == tl0.push(tmp@[tmp@.len() - 1]));
            assert(av == v@[ti]@.addr);
        }
        i += 1;
    }
    proof {
        assert(v@.take(v@.len() as int) =~= v@);
    }
    tmp
}

/// Helpers of the membership engine over its record list.
pub trait NodeDetailsToHelper: View<V = Seq<NodeDetails>> {
    /// Computes the membership fingerprint of the records.
    fn calculate_hash(&self) -> (r: String)
        ensures
            r@ == spec_hash(models(self@)),
    ;

    /// Sets `synced_time_as_secs` on the named records, or on every record
    /// when the name list is empty; nothing else changes.
    fn set_sync_time(&mut self, which_node: Vec<String>, new_sync_time: u128)
        ensures
            final(self)@.len() == old(self)@.len(),
            forall|k: int|
                0 <= k < old(self)@.len() ==> #[trigger] final(self)@[k]@ == (NodeModel {
                    synced_time_as_secs: if which_node@.len() == 0 || names_contain(
                        which_node@,
                        old(self)@[k]@.addr,
                    ) {
                        new_sync_time
                    } else {
                        old(self)@[k]@.synced_time_as_secs
                    },
                    ..old(self)@[k]@
                }),
    ;

    /// The addresses of the records, sorted ascending.
    fn to_node_list(&self) -> (r: Vec<String>)
        ensures
            sorted_by(views(r@), lex_leq()),
            views(r@).to_multiset() == addrs_of(models(self@)).to_multiset(),
    ;

    /// How many records are Online.
    fn online_node_count(&self) -> (r: usize)
        ensures
            r as int == online_count_of(models(self@)),
    ;
}

impl NodeDetailsToHelper for Vec<NodeDetails> {
    fn calculate_hash(&self) -> (r: String) {
        let tmp_list = addr_strings(self);
        let mut tmp_status: Vec<String> = Vec::new();
        proof {
            assert(views(tmp_status@) =~= pair_labels_of(models(self@.take(0))));
        }
        let mut i: usize = 0;
        while i < self.len()
            invariant
                i <= self@.len(),
                views(tmp_status@) == pair_labels_of(models(self@.take(i as int))),
                views(tmp_list@) == addrs_of(models(self@)),
            decreases self@.len() - i,
        {
            let lab = status_label(self[i].status);
            let pair = self[i].addr.clone().concat(":").concat(lab);
            let ghost pv = pair@;
            let ghost ts0 = tmp_status@;
            proof {
                reveal_strlit(":");
                assert(":"@ =~= seq![':']);
                assert(pv =~= pair_label(self@[i as int]@.addr, self@[i as int]@.status));
            }
            tmp_status.push(pair);
            proof {
                let ti = i as int;
                assert(self@.take(ti + 1) =~= self@.take(ti).push(self@[ti]));
                lemma_models_push(self@.take(ti), self@[ti]);
                lemma_pair_labels_push(models(self@.take(ti)), self@[ti]@);
                lemma_views_push(ts0, tmp_status@[tmp_status@.len() - 1]);
                assert(tmp_status@ == ts0.push(tmp_status@[tmp_status@.len() - 1]));
            }
            i += 1;
        }
        proof {
            assert(self@.take(self@.len() as int) =~= self@);
        }
        let sorted_list = sort_strings(&tmp_list);
        let sorted_status = sort_strings(&tmp_status);
        proof {
            lemma_lex_total_ordering();
            addrs_of(models(self@)).lemma_sort_by_ensures(lex_leq());
            pair_labels_of(models(self@)).lemma_sort_by_ensures(lex_leq());
            vstd::seq_lib::lemma_sorted_unique(
                views(sorted_list@),
                addrs_of(models(self@)).sort_by(lex_leq()),
                lex_leq(),
            );
            vstd::seq_lib::lemma_sorted_unique(
                views(sorted_status@),
                pair_labels_of(models(self@)).sort_by(lex_leq()),
                lex_leq(),
            );
        }
        let jl = encode_string_array(&sorted_list);
        let js = encode_string_array(&sorted_status);
        proof {
            assert(sorted_list.deep_view() =~= views(sorted_list@));
            assert(sorted_status.deep_view() =~= views(sorted_status@));
        }
        let lh = md5_hex(&jl);
        let sh = md5_hex(&js);
        let l5 = lh.as_str().substring_char(0, 5);
        let s5 = sh.as_str().substring_char(0, 5);
        let r = String::from_str(l5).concat(":").concat(s5);
        proof {
            reveal_strlit(":");
            assert(":"@ =~= seq![':']);
            assert(l5@ =~= md5_hex_of(jl@).take(5));
            assert(s5@ =~= md5_hex_of(js@).take(5));
            assert(r@ =~= spec_hash(models(self@)));
        }
        r
    }

    fn set_sync_time(&mut self, which_node: Vec<String>, new_sync_time: u128) {
        let ghost v0 = self@;
        let mut k: usize = 0;
        while k < self.len()
            invariant
                k <= v0.len(),
                self@.len() == v0.len(),
                forall|t: int| k <= t < v0.len() ==> self@[t] == v0[t],
                forall|t: int|
                    0 <= t < k ==> #[trigger] self@[t]@ == (NodeModel {
                        synced_time_as_secs: if which_node@.len() == 0 || names_contain(
                            which_node@,
                            v0[t]@.addr,
                        ) {
                            new_sync_time
                        } else {
                            v0[t]@.synced_time_as_secs
                        },
                        ..v0[t]@
                    }),
            decreases v0.len() - k,
        {
            let mut hit = which_node.len() == 0;
            let mut q: usize = 0;
            while q < which_node.len()
                invariant
                    q <= which_node@.len(),
                    k < self@.len(),
                    self@[k as int] == v0[k as int],
                    hit == (which_node@.len() == 0 || exists|w: int|
                        0 <= w < q && #[trigger] which_node@[w]@ == v0[k as int]@.addr),
                decreases which_node@.len() - q,
            {
                if which_node[q].eq(&self[k].addr) {
                    hit = true;
                }
                q += 1;
            }
            proof {
                assert(hit == (which_node@.len() == 0 || names_contain(
                    which_node@,
                    v0[k as int]@.addr,
                )));
            }
            if hit {
                let addr = self[k].addr.clone();
                let node_hash = self[k].node_hash.clone();
                let last_access_time = self[k].last_access_time;
                let status = self[k].status;
                self.set(
                    k,
                    NodeDetails {
                        addr,
                        node_hash,
                        last_access_time,
                        synced_time_as_secs: new_sync_time,
                        status,
                    },
                );
            }
            k += 1;
        }
    }

    fn to_node_list(&self) -> (r: Vec<String>) {
        let tmp = addr_strings(self);
        sort_strings(&tmp)
    }

    fn online_node_count(&self) -> (r: usize) {
        let mut count: usize = 0;
        let mut i: usize = 0;
        while i < self.len()
            invariant
                i <= self@.len(),
                count as int == online_count_of(models(self@.take(i as int))),
                count <= i,
            decreases self@.len() - i,
        {
            proof {
                let ti = i as int;
                assert(models(self@.take(ti + 1)).drop_last() =~= models(self@.take(ti)));
                assert(models(self@.take(ti + 1)).last() == self@.take(ti + 1)[ti]@);
                assert(self@.take(ti + 1)[ti] == self@[ti]);
            }
            if matches!(self[i].status, NodeStatus::Online) {
                count += 1;
            }
            i += 1;
        }
        proof {
            assert(self@.take(self@.len() as int) =~= self@);
        }
        count
    }
}

/// True iff all Online records that report a non-empty fingerprint report
/// the same one.
pub fn control_nodes_hash(node_list: Vec<NodeDetails>) -> (r: bool)
    ensures
        r == spec_all_online_agree(models(node_list@)),
{
    let ghost t = models(node_list@);
    let mut witness: usize = node_list.len();
    let mut i: usize = 0;
    while i < node_list.len()
        invariant
            i <= node_list@.len(),
            t == models(node_list@),
            t.len() == node_list@.len(),
            witness <= node_list@.len(),
            witness == node_list@.len() ==> forall|k: int|
                0 <= k < i ==> !(#[trigger] t[k].status == NodeStatus::Online
                    && t[k].node_hash.len() > 0),
            witness < node_list@.len() ==> witness < i && t[witness as int].status
                == NodeStatus::Online && t[witness as int].node_hash.len() > 0,
            forall|k: int|
                0 <= k < i && #[trigger] t[k].status == NodeStatus::Online
                    && t[k].node_hash.len() > 0 ==> witness < node_list@.len()
                    && t[k].node_hash == t[witness as int].node_hash,
        decreases node_list@.len() - i,
    {
        proof {
            lemma_models_index(node_list@, i as int);
            assert(t[i as int] == node_list@[i as int]@);
        }
        if matches!(node_list[i].status, NodeStatus::Online)
            && !node_list[i].node_hash.as_str().is_empty() {
            if witness == node_list.len() {
                witness = i;
            } else {
                if !node_list[witness].node_hash.eq(&node_list[i].node_hash) {
                    proof {
                        lemma_models_index(node_list@, witness as int);
                        assert(t[witness as int] == node_list@[witness as int]@);
                        if spec_all_online_agree(t) {
                            assert(t[witness as int].status == NodeStatus::Online);
                            assert(t[i as int].status == NodeStatus::Online);
                            assert(t[witness as int].node_hash == t[i as int].node_hash);
                        }
                        assert(!spec_all_online_agree(t));
                    }
                    return false;
                }
            }
        }
        i += 1;
    }
    proof {
        assert(spec_all_online_agree(t)) by {
            assert forall|x: int, y: int|
                0 <= x < t.len() && 0 <= y < t.len() && #[trigger] t[x].status
                    == NodeStatus::Online && #[trigger] t[y].status == NodeStatus::Online
                    && t[x].node_hash.len() > 0 && t[y].node_hash.len() > 0 implies t[x].node_hash
                == t[y].node_hash by {}
        }
    }
    true
}

/// Hash determinism: two tables with equal multisets of (address, status)
/// pairs have byte-equal fingerprints, whatever the record order.
pub proof fn lemma_hash_deterministic(t1: Seq<NodeModel>, t2: Seq<NodeModel>)
    requires
        pairs_of(t1).to_multiset() == pairs_of(t2).to_multiset(),
    ensures
        spec_hash(t1) == spec_hash(t2),
{
    let fst = |p: (Seq<char>, NodeStatus)| p.0;
    let flab = |p: (Seq<char>, NodeStatus)| pair_label(p.0, p.1);
    lemma_map_multiset(pairs_of(t1), pairs_of(t2), fst);
    lemma_map_multiset(pairs_of(t1), pairs_of(t2), flab);
    assert(pairs_of(t1).map_values(fst) =~= addrs_of(t1));
    assert(pairs_of(t2).map_values(fst) =~= addrs_of(t2));
    assert(pairs_of(t1).map_values(flab) =~= pair_labels_of(t1));
    assert(pairs_of(t2).map_values(flab) =~= pair_labels_of(t2));
    lemma_lex_total_ordering();
    addrs_of(t1).lemma_sort_by_ensures(lex_leq());
    addrs_of(t2).lemma_sort_by_ensures(lex_leq());
    pair_labels_of(t1).lemma_sort_by_ensures(lex_leq());
    pair_labels_of(t2).lemma_sort_by_ensures(lex_leq());
    vstd::seq_lib::lemma_sorted_unique(
        addrs_of(t1).sort_by(lex_leq()),
        addrs_of(t2).sort_by(lex_leq()),
        lex_leq(),
    );
    vstd::seq_lib::lemma_sorted_unique(
        pair_labels_of(t1).sort_by(lex_leq()),
        pair_labels_of(t2).sort_by(lex_leq()),
        lex_leq(),
    );
}

} // verus!
