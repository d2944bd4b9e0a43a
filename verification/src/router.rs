//! The router: its AS number, its neighbor registry, and the decision
//! logic of the message dispatcher. Each handler mutates the routing
//! table as the message demands and says exactly which neighbors the
//! resulting announcements go to, under the valley-free export rule: an
//! announcement learned from a customer goes to every other neighbor,
//! one learned from a peer or provider goes to customers only.

use crate::ipv4::{digit_of, prefix_val, valid_mask};
use crate::routing_table::{
    best_candidate, copy_path, covers_addr, entry_covers, entry_wf, others, subsumes, Network,
    Table,
};
use vstd::pervasive::unreached;
use vstd::arithmetic::div_mod::{
    lemma_div_is_ordered, lemma_fundamental_div_mod, lemma_mod_bound,
};
use vstd::prelude::*;
use vstd::seq_lib::*;
use vstd::string::*;

verus! {

/// Commercial relationship with a neighbor.
#[derive(Clone, Copy, Debug, PartialEq, Eq, Structural)]
pub enum NeighborType {
    /// The neighbor is a peer: traffic is exchanged without payment.
    Peer,
    /// The neighbor is a customer: it pays this network for transit.
    Cust,
    /// The neighbor is a provider: this network pays it for transit.
    Prov,
}

/// One registered neighbor: its address, its UDP port, its relationship.
#[derive(Clone, Copy, Debug, PartialEq, Eq, Structural)]
pub struct Neighbor {
    pub addr: u32,
    pub port: u16,
    pub relation: NeighborType,
}

/// Errors of router configuration.
#[derive(Clone, Copy, Debug, PartialEq, Eq, Structural)]
pub enum RouterError {
    /// The relationship string of a neighbor is not one of the three
    /// recognized words.
    InvalidRelation,
}

/// Neighbor addresses are unique keys of the registry.
pub open spec fn registry_wf(s: Seq<Neighbor>) -> bool {
    forall|i: int, j: int|
        0 <= i < s.len() && 0 <= j < s.len() && i != j ==> (#[trigger] s[i]).addr != (
        #[trigger] s[j]).addr
}

/// Some registered neighbor has this address.
pub open spec fn has_neighbor(s: Seq<Neighbor>, addr: u32) -> bool {
    exists|i: int| 0 <= i < s.len() && (#[trigger] s[i]).addr == addr
}

/// The relationship that a well-formed relationship word denotes.
pub open spec fn rel_word(s: Seq<char>) -> NeighborType {
    if s == "cust"@ {
        NeighborType::Cust
    } else if s == "peer"@ {
        NeighborType::Peer
    } else {
        NeighborType::Prov
    }
}

/// The relationship of the registered neighbor with this address.
pub open spec fn rel_of(s: Seq<Neighbor>, addr: u32) -> NeighborType {
    let i = choose|i: int| 0 <= i < s.len() && (#[trigger] s[i]).addr == addr;
    s[i].relation
}

/// Whether an announcement from `sender`, whose relationship is
/// `sender_rel`, is exported to neighbor `n`.
pub open spec fn export_pred(sender_rel: NeighborType, sender: u32) -> spec_fn(Neighbor) -> bool {
    |n: Neighbor|
        n.addr != sender && (sender_rel == NeighborType::Cust || n.relation
            == NeighborType::Cust)
}

/// The neighbors an announcement from `sender` is exported to: everyone
/// else if the sender is a customer, and only customers otherwise. The
/// sender itself never receives its own announcement back.
pub open spec fn export_targets(s: Seq<Neighbor>, sender_rel: NeighborType, sender: u32) -> Seq<
    Neighbor,
> {
    s.filter(export_pred(sender_rel, sender))
}

/// Every neighbor an announcement is exported to is another neighbor
/// than the sender, and is either a customer or heard it via a customer:
/// the export set never leaks a non-customer route to a non-customer.
pub proof fn lemma_export_sound(s: Seq<Neighbor>, sender_rel: NeighborType, sender: u32, i: int)
    requires
        0 <= i < export_targets(s, sender_rel, sender).len(),
    ensures
        export_targets(s, sender_rel, sender)[i].addr != sender,
        sender_rel == NeighborType::Cust || export_targets(s, sender_rel, sender)[i].relation
            == NeighborType::Cust,
{
    s.lemma_filter_pred(export_pred(sender_rel, sender), i);
}

/// Every neighbor the export rule admits is in the export set: a
/// customer's announcement reaches every other neighbor, and any
/// announcement reaches every other customer.
pub proof fn lemma_export_complete(s: Seq<Neighbor>, sender_rel: NeighborType, sender: u32, i: int)
    requires
        0 <= i < s.len(),
        s[i].addr != sender,
        sender_rel == NeighborType::Cust || s[i].relation == NeighborType::Cust,
    ensures
        export_targets(s, sender_rel, sender).contains(s[i]),
{
    s.lemma_filter_contains(export_pred(sender_rel, sender), i);
}

/// The address `a` lies in one of the withdrawn blocks.
pub open spec fn in_withdrawn(pairs: Seq<(u32, u32)>, upto: int, a: u32) -> bool {
    exists|k: int|
        0 <= k < upto && prefix_val(a, digit_of((#[trigger] pairs[k]).1)) == prefix_val(
            pairs[k].0,
            digit_of(pairs[k].1),
        )
}

/// The router's own address toward a neighbor: the neighbor's address
/// with its final octet replaced by one.
pub open spec fn local_of(addr: u32) -> int {
    (addr as int / 256) * 256 + 1
}

/// Compute the router's own address toward a neighbor.
pub fn local_addr(addr: u32) -> (r: u32)
    ensures
        r == local_of(addr),
{
    proof {
        lemma_fundamental_div_mod(addr as int, 256);
        lemma_mod_bound(addr as int, 256);
        lemma_div_is_ordered(addr as int, 0xFFFF_FFFF, 256);
    }
    (addr / 256) * 256 + 1
}

/// Parse a relationship word from the command line.
pub fn relation_of(s: &str) -> (r: Option<NeighborType>)
    ensures
        s@ == "cust"@ ==> r == Some(NeighborType::Cust),
        s@ == "peer"@ ==> r == Some(NeighborType::Peer),
        s@ == "prov"@ ==> r == Some(NeighborType::Prov),
        (s@ != "cust"@ && s@ != "peer"@ && s@ != "prov"@) ==> r == None::<NeighborType>,
{
    proof {
        reveal_strlit("cust");
        reveal_strlit("peer");
        reveal_strlit("prov");
    }
    if s.unicode_len() != 4 {
        return None;
    }
    let c0 = s.get_char(0);
    let c1 = s.get_char(1);
    let c2 = s.get_char(2);
    let c3 = s.get_char(3);
    if c0 == 'c' && c1 == 'u' && c2 == 's' && c3 == 't' {
        proof {
            assert(s@ =~= "cust"@);
        }
        Some(NeighborType::Cust)
    } else if c0 == 'p' && c1 == 'e' && c2 == 'e' && c3 == 'r' {
        proof {
            assert(s@ =~= "peer"@);
        }
        Some(NeighborType::Peer)
    } else if c0 == 'p' && c1 == 'r' && c2 == 'o' && c3 == 'v' {
        proof {
            assert(s@ =~= "prov"@);
        }
        Some(NeighborType::Prov)
    } else {
        None
    }
}

/// One outbound route announcement: the neighbor it goes to, the
/// announced range, and the forwarded path with the local AS number
/// prepended.
pub struct UpdateOut {
    pub dst: Neighbor,
    pub network: u32,
    pub netmask: u32,
    pub as_path: Vec<u32>,
}

/// What to do with a data packet: forward it toward a neighbor, or
/// answer the sender that there is no route.
pub enum DataAction {
    Forward(Neighbor),
    NoRouteReply,
}

/// A router: its AS number and its neighbor registry.
pub struct Router {
    pub asn: u32,
    pub neighbors: Vec<Neighbor>,
}

impl Router {
    /// A router with no neighbors and AS number zero.
    pub fn new() -> (r: Router)
        ensures
            r.asn == 0,
            r.neighbors@.len() == 0,
            registry_wf(r.neighbors@),
    {
        let r = Router { asn: 0, neighbors: Vec::new() };
        r
    }

    /// Set the router's AS number.
    pub fn assign_asn(&mut self, asn: u32)
        ensures
            final(self).asn == asn,
            final(self).neighbors == old(self).neighbors,
    {
        self.asn = asn;
    }

    /// The index of the registered neighbor with this address.
    fn find_neighbor(&self, addr: u32) -> (r: Option<usize>)
        ensures
            match r {
                Some(i) => 0 <= i < self.neighbors@.len() && self.neighbors@[i as int].addr
                    == addr,
                None => !has_neighbor(self.neighbors@, addr),
            },
    {
        let n = self.neighbors.len();
        let mut i: usize = 0;
        while i < n
            invariant
                n == self.neighbors.len(),
                i <= n,
                forall|j: int| 0 <= j < i ==> (#[trigger] self.neighbors@[j]).addr != addr,
            decreases n - i,
        {
            if self.neighbors[i].addr == addr {
                return Some(i);
            }
            i = i + 1;
        }
        None
    }

    /// Register a neighbor under its address; a second registration of
    /// the same address replaces the old record. An unrecognized
    /// relationship word leaves the registry alone and is an error.
    pub fn add_neighbor(&mut self, addr: u32, port: u16, relation: &str) -> (r: Result<
        (),
        RouterError,
    >)
        requires
            registry_wf(old(self).neighbors@),
        ensures
            final(self).asn == old(self).asn,
            registry_wf(final(self).neighbors@),
            match r {
                Ok(()) => (relation@ == "cust"@ || relation@ == "peer"@ || relation@
                    == "prov"@) && (has_neighbor(old(self).neighbors@, addr) ==> exists|i: int|
                    0 <= i < old(self).neighbors@.len() && (#[trigger] old(
                        self,
                    ).neighbors@[i]).addr == addr && final(self).neighbors@ == old(
                        self,
                    ).neighbors@.update(
                        i,
                        Neighbor { addr, port, relation: rel_word(relation@) },
                    )) && (!has_neighbor(old(self).neighbors@, addr) ==> final(self).neighbors@
                    == old(self).neighbors@.push(
                    Neighbor { addr, port, relation: rel_word(relation@) },
                )),
                Err(e) => e == RouterError::InvalidRelation && final(self).neighbors@ == old(
                    self,
                ).neighbors@ && relation@ != "cust"@ && relation@ != "peer"@ && relation@
                    != "prov"@,
            },
    {
        let rel = match relation_of(relation) {
            Some(rel) => rel,
            None => {
                return Err(RouterError::InvalidRelation);
            },
        };
        proof {
            assert(relation@ == "cust"@ || relation@ == "peer"@ || relation@ == "prov"@);
            assert(rel == rel_word(relation@));
        }
        let nb = Neighbor { addr, port, relation: rel };
        match self.find_neighbor(addr) {
            Some(i) => {
                self.neighbors[i] = nb;
                proof {
                    assert(final(self).neighbors@ =~= old(self).neighbors@.update(
                        i as int,
                        nb,
                    ));
                }
            },
            None => {
                self.neighbors.push(nb);
            },
        }
        Ok(())
    }

    /// The neighbors to which an announcement from `sender`, whose
    /// relationship is `sender_rel`, is exported.
    fn recipients(&self, sender_rel: NeighborType, sender: u32) -> (r: Vec<Neighbor>)
        ensures
            r@ == export_targets(self.neighbors@, sender_rel, sender),
    {
        let n = self.neighbors.len();
        let mut r: Vec<Neighbor> = Vec::new();
        let mut i: usize = 0;
        proof {
            assert(self.neighbors@.take(0) =~= Seq::<Neighbor>::empty());
            reveal_with_fuel(Seq::filter, 1);
            assert(r@ == self.neighbors@.take(0).filter(export_pred(sender_rel, sender)));
        }
        while i < n
            invariant
                n == self.neighbors.len(),
                i <= n,
                r@ == self.neighbors@.take(i as int).filter(export_pred(sender_rel, sender)),
            decreases n - i,
        {
            let ghost pre = self.neighbors@.take(i as int);
            let ghost rpre = r@;
            let nb = self.neighbors[i];
            let cond = nb.addr != sender && (sender_rel == NeighborType::Cust || nb.relation
                == NeighborType::Cust);
            if cond {
                r.push(nb);
            }
            proof {
                let x = self.neighbors@[i as int];
                let spred = export_pred(sender_rel, sender);
                assert(cond == spred(x));
                reveal_with_fuel(Seq::filter, 2);
                assert(seq![x].drop_last() =~= Seq::<Neighbor>::empty());
                assert(seq![x].last() == x);
                Seq::filter_distributes_over_add(pre, seq![x], spred);
                assert(self.neighbors@.take(i as int + 1) =~= pre + seq![x]);
                if cond {
                    assert(seq![x].filter(spred) =~= seq![x]);
                    assert(r@ =~= rpre + seq![x]);
                } else {
                    assert(seq![x].filter(spred) =~= Seq::<Neighbor>::empty());
                    assert(r@ =~= rpre + Seq::<Neighbor>::empty());
                }
            }
            i = i + 1;
        }
        proof {
            assert(self.neighbors@.take(n as int) =~= self.neighbors@);
        }
        r
    }
}

impl Router {
    /// The relationship of a registered neighbor.
    fn sender_rel(&self, addr: u32) -> (r: NeighborType)
        requires
            registry_wf(self.neighbors@),
            has_neighbor(self.neighbors@, addr),
        ensures
            r == rel_of(self.neighbors@, addr),
    {
        match self.find_neighbor(addr) {
            Some(i) => {
                proof {
                    let j = choose|j: int|
                        0 <= j < self.neighbors@.len() && (#[trigger] self.neighbors@[j]).addr
                            == addr;
                    assert(j == i as int);
                }
                self.neighbors[i].relation
            },
            None => unreached(),
        }
    }

    /// Handle a route announcement from a neighbor: store the announced
    /// route in the table, aggregating as far as possible, and say which
    /// neighbors the announcement is exported to. Each outbound
    /// announcement carries the announced range and the received path
    /// with the local AS number prepended.
    pub fn handle_update(&self, table: &mut Table, ann: Network) -> (r: Vec<UpdateOut>)
        requires
            old(table).wf(),
            entry_wf(ann@),
            registry_wf(self.neighbors@),
            has_neighbor(self.neighbors@, ann@.peer),
        ensures
            final(table).wf(),
            others(final(table)@, ann@.peer) == others(old(table)@, ann@.peer),
            exists|i: int|
                0 <= i < final(table)@.len() && subsumes(#[trigger] final(table)@[i], ann@),
            forall|a: u32|
                #[trigger] covers_addr(final(table)@, ann@.peer, a) <==> covers_addr(
                    old(table)@,
                    ann@.peer,
                    a,
                ) || entry_covers(ann@, a),
            r@.len() == export_targets(
                self.neighbors@,
                rel_of(self.neighbors@, ann@.peer),
                ann@.peer,
            ).len(),
            forall|x: int|
                0 <= x < r@.len() ==> (#[trigger] r@[x]).dst == export_targets(
                    self.neighbors@,
                    rel_of(self.neighbors@, ann@.peer),
                    ann@.peer,
                )[x] && r@[x].network == ann@.network && r@[x].netmask == ann@.netmask
                    && r@[x].as_path@ == seq![self.asn] + ann@.as_path,
    {
        let peer = ann.peer;
        let network = ann.network;
        let netmask = ann.netmask;
        let ghost annv = ann@;
        // The forwarded path: the local AS number, then the received path.
        let mut fwd: Vec<u32> = Vec::new();
        fwd.push(self.asn);
        let m = ann.as_path.len();
        let mut i: usize = 0;
        proof {
            assert(fwd@ =~= seq![self.asn] + ann.as_path@.subrange(0, 0));
        }
        while i < m
            invariant
                m == ann.as_path.len(),
                i <= m,
                fwd@ == seq![self.asn] + ann.as_path@.subrange(0, i as int),
            decreases m - i,
        {
            fwd.push(ann.as_path[i]);
            proof {
                assert(fwd@ =~= seq![self.asn] + ann.as_path@.subrange(0, i as int + 1));
            }
            i = i + 1;
        }
        proof {
            assert(ann.as_path@.subrange(0, m as int) =~= ann.as_path@);
        }
        let rel = self.sender_rel(peer);
        let rcpt = self.recipients(rel, peer);
        table.update(ann);
        let mut r: Vec<UpdateOut> = Vec::new();
        let n = rcpt.len();
        let mut x: usize = 0;
        while x < n
            invariant
                n == rcpt.len(),
                x <= n,
                fwd@ == seq![self.asn] + annv.as_path,
                r@.len() == x,
                forall|y: int|
                    0 <= y < r@.len() ==> (#[trigger] r@[y]).dst == rcpt@[y] && r@[y].network
                        == annv.network && r@[y].netmask == annv.netmask && r@[y].as_path@
                        == seq![self.asn] + annv.as_path,
                network == annv.network,
                netmask == annv.netmask,
            decreases n - x,
        {
            let out = UpdateOut { dst: rcpt[x], network, netmask, as_path: copy_path(&fwd) };
            r.push(out);
            x = x + 1;
        }
        r
    }

    /// Handle a withdrawal message from a neighbor: withdraw each listed
    /// range from the table and say which neighbors the withdrawal is
    /// forwarded to, under the same export rule as announcements.
    pub fn handle_withdraw(&self, table: &mut Table, peer: u32, pairs: &Vec<(u32, u32)>) -> (r:
        Vec<Neighbor>)
        requires
            old(table).wf(),
            registry_wf(self.neighbors@),
            has_neighbor(self.neighbors@, peer),
            forall|i: int| 0 <= i < pairs@.len() ==> valid_mask((#[trigger] pairs@[i]).1),
        ensures
            final(table).wf(),
            others(final(table)@, peer) == others(old(table)@, peer),
            r@ == export_targets(self.neighbors@, rel_of(self.neighbors@, peer), peer),
            forall|k: int|
                0 <= k < pairs@.len() ==> !covers_addr(
                    final(table)@,
                    peer,
                    (#[trigger] pairs@[k]).0,
                ),
            forall|a: u32|
                #[trigger] covers_addr(final(table)@, peer, a) ==> covers_addr(
                    old(table)@,
                    peer,
                    a,
                ),
            forall|a: u32|
                #[trigger] covers_addr(old(table)@, peer, a) && !in_withdrawn(
                    pairs@,
                    pairs@.len() as int,
                    a,
                ) ==> covers_addr(final(table)@, peer, a),
    {
        let ghost t0 = table@;
        let n = pairs.len();
        let mut i: usize = 0;
        while i < n
            invariant
                n == pairs.len(),
                i <= n,
                table.wf(),
                forall|k: int| 0 <= k < pairs@.len() ==> valid_mask((#[trigger] pairs@[k]).1),
                others(table@, peer) == others(t0, peer),
                forall|k: int|
                    0 <= k < i ==> !covers_addr(table@, peer, (#[trigger] pairs@[k]).0),
                forall|a: u32|
                    #[trigger] covers_addr(table@, peer, a) ==> covers_addr(t0, peer, a),
                forall|a: u32|
                    #[trigger] covers_addr(t0, peer, a) && !in_withdrawn(pairs@, i as int, a)
                        ==> covers_addr(table@, peer, a),
            decreases n - i,
        {
            let ghost pre = table@;
            let pair = pairs[i];
            table.withdraw(pair.0, pair.1, peer);
            proof {
                assert forall|a: u32|
                    #[trigger] covers_addr(t0, peer, a) && !in_withdrawn(
                        pairs@,
                        i as int + 1,
                        a,
                    ) implies covers_addr(table@, peer, a) by {
                    assert(!in_withdrawn(pairs@, i as int, a));
                    assert(covers_addr(pre, peer, a));
                    assert(prefix_val(a, digit_of(pairs@[i as int].1)) != prefix_val(
                        pairs@[i as int].0,
                        digit_of(pairs@[i as int].1),
                    ));
                }
                assert forall|k: int| 0 <= k < i + 1 implies !covers_addr(
                    table@,
                    peer,
                    (#[trigger] pairs@[k]).0,
                ) by {
                    if covers_addr(table@, peer, pairs@[k].0) {
                        if k < i {
                            assert(covers_addr(pre, peer, pairs@[k].0));
                        } else {
                            let j = choose|j: int|
                                0 <= j < table@.len() && table@[j].peer == peer
                                    && entry_covers(#[trigger] table@[j], pairs@[k].0);
                        }
                    }
                }
            }
            i = i + 1;
        }
        self.recipients(self.sender_rel(peer), peer)
    }

    /// Decide what to do with a data packet from `peer` addressed to
    /// `dst`: forward it toward the best-route neighbor if the
    /// relationship policy allows — the packet came from a customer or
    /// goes to one — and otherwise, or when no route covers the
    /// destination, answer the sender that there is no route.
    pub fn handle_data(&self, table: &Table, peer: u32, dst: u32) -> (r: DataAction)
        requires
            table.wf(),
            registry_wf(self.neighbors@),
            has_neighbor(self.neighbors@, peer),
        ensures
            match r {
                DataAction::Forward(n) => (exists|x: int|
                    0 <= x < self.neighbors@.len() && #[trigger] self.neighbors@[x] == n) && (
                rel_of(self.neighbors@, peer) == NeighborType::Cust || n.relation
                    == NeighborType::Cust) && (exists|i: int|
                    #[trigger] best_candidate(table@, dst, i) && table@[i].peer == n.addr),
                DataAction::NoRouteReply => (forall|j: int|
                    0 <= j < table@.len() ==> !entry_covers(#[trigger] table@[j], dst)) || (
                exists|i: int|
                    #[trigger] best_candidate(table@, dst, i) && (forall|x: int|
                        0 <= x < self.neighbors@.len() && (#[trigger] self.neighbors@[x]).addr
                            == table@[i].peer ==> (rel_of(self.neighbors@, peer)
                            != NeighborType::Cust && self.neighbors@[x].relation
                            != NeighborType::Cust))),
            },
    {
        match table.best_route(dst) {
            Err(_) => DataAction::NoRouteReply,
            Ok(q) => {
                let rel = self.sender_rel(peer);
                match self.find_neighbor(q) {
                    None => {
                        proof {
                            let i = choose|i: int|
                                #[trigger] best_candidate(table@, dst, i) && table@[i].peer
                                    == q;
                            assert forall|x: int|
                                0 <= x < self.neighbors@.len() && (#[trigger] self
                                    .neighbors@[x]).addr == table@[i].peer implies (rel_of(
                                self.neighbors@,
                                peer,
                            ) != NeighborType::Cust && self.neighbors@[x].relation
                                != NeighborType::Cust) by {
                                assert(has_neighbor(self.neighbors@, q));
                            }
                        }
                        DataAction::NoRouteReply
                    },
                    Some(x) => {
                        let nb = self.neighbors[x];
                        if rel == NeighborType::Cust || nb.relation == NeighborType::Cust {
                            DataAction::Forward(nb)
                        } else {
                            proof {
                                let i = choose|i: int|
                                    #[trigger] best_candidate(table@, dst, i) && table@[i].peer
                                        == q;
                                assert forall|y: int|
                                    0 <= y < self.neighbors@.len() && (#[trigger] self
                                        .neighbors@[y]).addr == table@[i].peer implies (rel_of(
                                    self.neighbors@,
                                    peer,
                                ) != NeighborType::Cust && self.neighbors@[y].relation
                                    != NeighborType::Cust) by {
                                    assert(y == x as int);
                                }
                            }
                            DataAction::NoRouteReply
                        }
                    },
                }
            },
        }
    }
}

} // verus!
