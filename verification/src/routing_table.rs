//! The routing table: an unordered collection of route entries kept fully
//! aggregated. Inserting a route merges numerically adjacent entries with
//! equal attributes into covering prefixes; withdrawing a route splits any
//! covering entry back apart so that exactly the withdrawn range leaves the
//! table; route selection scans for the best match under the standard
//! decision cascade.

use crate::ipv4::{
    aligned, apply_mask, apply_mask_prefix, block, check_match, digit_of, divide_prefix,
    lemma_aligned_iff_masked, lemma_and_mask, lemma_block_bounds, lemma_block_halves,
    lemma_digit_of_mask, lemma_match_iff_same_block, mask_of, mask_val, netmask_digit,
    netnask_increase, prefix_val, valid_mask,
};
use vstd::arithmetic::div_mod::*;
use vstd::arithmetic::mul::*;
use vstd::arithmetic::power2::{lemma_pow2_adds, lemma_pow2_pos, pow2};
use vstd::prelude::*;
use vstd::seq_lib::*;

verus! {

/// How a route entered the routing system, ordered `IGP > EGP > UNK`.
#[derive(Clone, Copy, Debug, PartialEq, Eq, Structural)]
pub enum Origin {
    IGP,
    EGP,
    UNK,
}

/// The preference rank of an origin attribute; higher is preferred.
pub open spec fn origin_rank(o: Origin) -> int {
    match o {
        Origin::IGP => 3,
        Origin::EGP => 2,
        Origin::UNK => 1,
    }
}

/// One route entry: a network prefix learned from a neighbor, with the
/// attributes that drive aggregation and route selection.
pub struct Network {
    pub peer: u32,
    pub network: u32,
    pub netmask: u32,
    pub localpref: u32,
    pub self_origin: bool,
    pub as_path: Vec<u32>,
    pub origin: Origin,
}

/// The mathematical value of a route entry.
#[verifier::ext_equal]
pub ghost struct NetworkV {
    pub peer: u32,
    pub network: u32,
    pub netmask: u32,
    pub localpref: u32,
    pub self_origin: bool,
    pub as_path: Seq<u32>,
    pub origin: Origin,
}

impl View for Network {
    type V = NetworkV;

    open spec fn view(&self) -> NetworkV {
        NetworkV {
            peer: self.peer,
            network: self.network,
            netmask: self.netmask,
            localpref: self.localpref,
            self_origin: self.self_origin,
            as_path: self.as_path@,
            origin: self.origin,
        }
    }
}

impl Network {
    /// Build a route entry from its parts.
    pub fn new(
        peer: u32,
        network: u32,
        netmask: u32,
        localpref: u32,
        self_origin: bool,
        as_path: Vec<u32>,
        origin: Origin,
    ) -> (r: Network)
        ensures
            r@ == (NetworkV {
                peer,
                network,
                netmask,
                localpref,
                self_origin,
                as_path: as_path@,
                origin,
            }),
    {
        Network { peer, network, netmask, localpref, self_origin, as_path, origin }
    }

    /// Whether this entry is well formed: a left-contiguous netmask and
    /// no host bits in the network address. Callers that receive routes
    /// off the wire test this before handing the entry to the table.
    pub fn is_wf(&self) -> (r: bool)
        ensures
            r == entry_wf(self@),
    {
        let v = crate::ipv4::is_valid_mask(self.netmask);
        if !v {
            return false;
        }
        let d = netmask_digit(self.netmask);
        proof {
            lemma_aligned_iff_masked(self.network, d as int);
        }
        apply_mask(self.network, self.netmask) == self.network
    }
}

/// The prefix length of an entry's netmask.
pub open spec fn entry_digit(e: NetworkV) -> int {
    digit_of(e.netmask)
}

/// A well-formed entry: its netmask is left-contiguous and its network
/// address has no host bits set below the netmask.
pub open spec fn entry_wf(e: NetworkV) -> bool {
    valid_mask(e.netmask) && aligned(e.network, entry_digit(e))
}

/// Whether two entries agree on every attribute except the network
/// address itself: same neighbor, netmask and path attributes.
pub open spec fn same_attrs(a: NetworkV, b: NetworkV) -> bool {
    a.peer == b.peer && a.netmask == b.netmask && a.localpref == b.localpref
        && a.self_origin == b.self_origin && a.as_path == b.as_path && a.origin == b.origin
}

/// Two entries can be merged into one covering prefix exactly when they
/// carry the same attributes and occupy the two halves of a common block
/// one bit up.
pub open spec fn aggregable(a: NetworkV, b: NetworkV) -> bool {
    let k = entry_digit(a);
    same_attrs(a, b) && 1 <= k && prefix_val(a.network, k) != prefix_val(b.network, k)
        && prefix_val(a.network, k) / 2 == prefix_val(b.network, k) / 2
}

/// Whether entry `e` covers the address `d`: the address lies in the
/// entry's block.
pub open spec fn entry_covers(e: NetworkV, d: u32) -> bool {
    prefix_val(d, entry_digit(e)) == prefix_val(e.network, entry_digit(e))
}

/// A well-formed table: every entry is well formed and no two entries can
/// be aggregated.
pub open spec fn table_wf(s: Seq<NetworkV>) -> bool {
    (forall|i: int| 0 <= i < s.len() ==> entry_wf(#[trigger] s[i])) && (forall|i: int, j: int|
        0 <= i < s.len() && 0 <= j < s.len() && i != j ==> !aggregable(
            #[trigger] s[i],
            #[trigger] s[j],
        ))
}

/// The number of addresses an entry covers; the termination measure of
/// the aggregation and disaggregation loops.
pub open spec fn weight(e: NetworkV) -> nat {
    block(entry_digit(e))
}

/// Total number of addresses covered by the entries of a table, counted
/// with multiplicity.
pub open spec fn phi(s: Seq<NetworkV>) -> nat
    decreases s.len(),
{
    if s.len() == 0 {
        0
    } else {
        phi(s.drop_last()) + weight(s.last())
    }
}

/// Appending an entry adds its weight to the measure.
pub proof fn lemma_phi_push(s: Seq<NetworkV>, e: NetworkV)
    ensures
        phi(s.push(e)) == phi(s) + weight(e),
{
    assert(s.push(e).drop_last() =~= s);
    assert(s.push(e).last() == e);
}

/// Removing an entry subtracts its weight from the measure.
pub proof fn lemma_phi_remove(s: Seq<NetworkV>, i: int)
    requires
        0 <= i < s.len(),
    ensures
        phi(s.remove(i)) + weight(s[i]) == phi(s),
    decreases s.len(),
{
    if i == s.len() - 1 {
        assert(s.remove(i) =~= s.drop_last());
    } else {
        let t = s.drop_last();
        assert(s.remove(i).drop_last() =~= t.remove(i));
        assert(s.remove(i).last() == s.last());
        lemma_phi_remove(t, i);
    }
}

/// A well-formed entry covers at least one address.
pub proof fn lemma_weight_pos(e: NetworkV)
    requires
        entry_wf(e),
    ensures
        1 <= weight(e),
        weight(e) <= 0x1_0000_0000,
{
    lemma_block_bounds(entry_digit(e));
}

/// The entries of a table that were learned from neighbors other than
/// `peer`. Table operations on behalf of one neighbor leave them alone.
pub open spec fn others(s: Seq<NetworkV>, peer: u32) -> Seq<NetworkV> {
    s.filter(|e: NetworkV| e.peer != peer)
}

/// Removing an entry belonging to `peer` does not change the entries of
/// the other neighbors.
pub proof fn lemma_others_remove(s: Seq<NetworkV>, peer: u32, i: int)
    requires
        0 <= i < s.len(),
        s[i].peer == peer,
    ensures
        others(s.remove(i), peer) == others(s, peer),
{
    let pred = |e: NetworkV| e.peer != peer;
    let a = s.subrange(0, i);
    let b = s.subrange(i + 1, s.len() as int);
    assert(s =~= a + seq![s[i]] + b);
    assert(s.remove(i) =~= a + b);
    Seq::filter_distributes_over_add(a + seq![s[i]], b, pred);
    Seq::filter_distributes_over_add(a, seq![s[i]], pred);
    Seq::filter_distributes_over_add(a, b, pred);
    reveal_with_fuel(Seq::filter, 2);
    assert(seq![s[i]].filter(pred) =~= Seq::<NetworkV>::empty());
    assert(a.filter(pred) + Seq::<NetworkV>::empty() =~= a.filter(pred));
}

/// Appending an entry belonging to `peer` does not change the entries of
/// the other neighbors.
pub proof fn lemma_others_push(s: Seq<NetworkV>, peer: u32, e: NetworkV)
    requires
        e.peer == peer,
    ensures
        others(s.push(e), peer) == others(s, peer),
{
    let pred = |ee: NetworkV| ee.peer != peer;
    assert(s.push(e) =~= s + seq![e]);
    Seq::filter_distributes_over_add(s, seq![e], pred);
    reveal_with_fuel(Seq::filter, 2);
    assert(seq![e].filter(pred) =~= Seq::<NetworkV>::empty());
    assert(s.filter(pred) + Seq::<NetworkV>::empty() =~= s.filter(pred));
}

/// The routing table.
pub struct Table {
    table: Vec<Network>,
}

impl View for Table {
    type V = Seq<NetworkV>;

    closed spec fn view(&self) -> Seq<NetworkV> {
        self.table@.map_values(|n: Network| n@)
    }
}

impl Table {
    /// The table invariant: all entries well formed, none aggregable.
    pub open spec fn wf(&self) -> bool {
        table_wf(self@)
    }

    /// An empty routing table.
    pub fn new() -> (r: Table)
        ensures
            r.wf(),
            r@.len() == 0,
    {
        let t = Table { table: Vec::new() };
        proof {
            assert(t@ =~= Seq::<NetworkV>::empty());
        }
        t
    }

    /// The rows of the table, for display and serialization.
    pub fn get_table(&self) -> (r: &Vec<Network>)
        ensures
            r@.map_values(|n: Network| n@) == self@,
    {
        &self.table
    }
}

/// One entry wholly covers the block of another, with the same
/// forwarding attributes.
pub open spec fn subsumes(r: NetworkV, e: NetworkV) -> bool {
    r.peer == e.peer && r.localpref == e.localpref && r.self_origin == e.self_origin
        && r.as_path == e.as_path && r.origin == e.origin && entry_digit(r) <= entry_digit(e)
        && prefix_val(e.network, entry_digit(r)) == prefix_val(r.network, entry_digit(r))
}

/// Some entry of `peer` covers the address `a`.
pub open spec fn covers_addr(s: Seq<NetworkV>, peer: u32, a: u32) -> bool {
    exists|i: int| 0 <= i < s.len() && s[i].peer == peer && entry_covers(#[trigger] s[i], a)
}

/// The covering prefix one bit up from an entry, carrying the same
/// attributes: what aggregation replaces two sibling entries with.
pub open spec fn merged(r: NetworkV) -> NetworkV {
    NetworkV {
        network: (r.network & mask_of(entry_digit(r) - 1)),
        netmask: mask_of(entry_digit(r) - 1),
        ..r
    }
}

/// Aggregability is symmetric.
pub proof fn lemma_aggregable_sym(a: NetworkV, b: NetworkV)
    ensures
        aggregable(a, b) == aggregable(b, a),
{
}

/// Coarsening a prefix by one bit halves its block index.
pub proof fn lemma_prefix_half(n: u32, k: int)
    requires
        1 <= k <= 32,
    ensures
        prefix_val(n, k - 1) == prefix_val(n, k) / 2,
{
    lemma_block_bounds(k);
    lemma_block_halves(k - 1);
    let b = block(k) as int;
    lemma_div_denominator(n as int, b, 2);
    assert(b * 2 == 2 * b);
}

/// Agreement of two addresses on a prefix extends to every shorter
/// prefix.
pub proof fn lemma_prefix_agree_coarsen(x: u32, y: u32, k1: int, k2: int)
    requires
        0 <= k1 <= k2 <= 32,
        prefix_val(x, k2) == prefix_val(y, k2),
    ensures
        prefix_val(x, k1) == prefix_val(y, k1),
    decreases k2 - k1,
{
    if k1 < k2 {
        lemma_prefix_half(x, k2);
        lemma_prefix_half(y, k2);
        lemma_prefix_agree_coarsen(x, y, k1, k2 - 1);
    }
}

/// A merged entry is well formed, sits one bit up, and covers its source.
pub proof fn lemma_merged_wf(r: NetworkV)
    requires
        entry_wf(r),
        1 <= entry_digit(r),
    ensures
        entry_wf(merged(r)),
        entry_digit(merged(r)) == entry_digit(r) - 1,
        weight(merged(r)) == 2 * weight(r),
        prefix_val(merged(r).network, entry_digit(r) - 1) == prefix_val(r.network, entry_digit(r)) / 2,
{
    let k = entry_digit(r);
    lemma_digit_of_mask(k - 1);
    lemma_block_bounds(k - 1);
    lemma_block_halves(k - 1);
    lemma_and_mask(r.network, k - 1);
    let b1 = block(k - 1) as int;
    lemma_mod_multiples_basic(prefix_val(r.network, k - 1), b1);
    lemma_mul_is_commutative(prefix_val(r.network, k - 1), b1);
    lemma_div_multiples_vanish(prefix_val(r.network, k - 1), b1);
    lemma_prefix_half(r.network, k);
}

impl Table {
    /// Find an entry that can be aggregated with the given one.
    fn find_partner(&self, e: &Network) -> (r: Option<usize>)
        requires
            self.wf(),
        ensures
            match r {
                Some(i) => 0 <= i < self@.len() && aggregable(self@[i as int], e@),
                None => forall|j: int| 0 <= j < self@.len() ==> !aggregable(self@[j], e@),
            },
    {
        let n = self.table.len();
        let mut i: usize = 0;
        while i < n
            invariant
                n == self.table.len(),
                i <= n,
                self.wf(),
                forall|j: int| 0 <= j < i ==> !aggregable(self@[j], e@),
            decreases n - i,
        {
            proof {
                assert(self@[i as int] == self.table@[i as int]@);
            }
            if Self::is_aggregable(&self.table[i], e) {
                return Some(i);
            }
            i = i + 1;
        }
        None
    }

    /// Whether two entries can be merged into one covering prefix.
    fn is_aggregable(net1: &Network, net2: &Network) -> (r: bool)
        requires
            entry_wf(net1@),
        ensures
            r == aggregable(net1@, net2@),
    {
        if net1.netmask != net2.netmask {
            return false;
        }
        if net1.peer != net2.peer {
            return false;
        }
        if net1.localpref != net2.localpref {
            return false;
        }
        if !paths_equal(&net1.as_path, &net2.as_path) {
            return false;
        }
        if net1.self_origin != net2.self_origin {
            return false;
        }
        if net1.origin != net2.origin {
            return false;
        }
        let d = netmask_digit(net1.netmask);
        if d == 0 {
            return false;
        }
        let p1 = apply_mask_prefix(net1.network, net1.netmask);
        let p2 = apply_mask_prefix(net2.network, net2.netmask);
        p1 != p2 && p1 / 2 == p2 / 2
    }

    /// One aggregation step: if some entry can merge with the given one,
    /// remove it and hand back the covering entry one bit up; otherwise
    /// report that the entry has no partner.
    fn aggregate(&mut self, network: &Network) -> (r: Option<Network>)
        requires
            old(self).wf(),
            entry_wf(network@),
        ensures
            final(self).wf(),
            match r {
                None => final(self)@ == old(self)@ && (forall|j: int|
                    0 <= j < old(self)@.len() ==> !aggregable(old(self)@[j], network@)),
                Some(n) => {
                    &&& exists|i: int|
                        0 <= i < old(self)@.len() && final(self)@ == old(self)@.remove(i)
                            && aggregable(#[trigger] old(self)@[i], network@) && n@ == merged(
                            old(self)@[i],
                        )
                    &&& entry_wf(n@)
                    &&& 1 <= entry_digit(network@)
                    &&& entry_digit(n@) == entry_digit(network@) - 1
                    &&& n@.peer == network@.peer
                    &&& n@.localpref == network@.localpref
                    &&& n@.self_origin == network@.self_origin
                    &&& n@.as_path == network@.as_path
                    &&& n@.origin == network@.origin
                    &&& prefix_val(network@.network, entry_digit(n@)) == prefix_val(
                        n@.network,
                        entry_digit(n@),
                    )
                    &&& phi(final(self)@) + weight(n@) == phi(old(self)@) + weight(network@)
                },
            },
    {
        match self.find_partner(network) {
            Some(i) => {
                proof {
                    assert(self@[i as int] == self.table@[i as int]@);
                }
                let net = self.table.remove(i);
                proof {
                    assert(self@ =~= old(self)@.remove(i as int));
                    lemma_phi_remove(old(self)@, i as int);
                }
                let ghost rv = net@;
                let d = netmask_digit(net.netmask);
                let new_mask = mask_val(d - 1);
                let new_prefix = apply_mask(net.network, new_mask);
                let out = Network {
                    peer: net.peer,
                    network: new_prefix,
                    netmask: new_mask,
                    localpref: net.localpref,
                    self_origin: net.self_origin,
                    as_path: net.as_path,
                    origin: net.origin,
                };
                proof {
                    assert(out@ =~= merged(rv));
                    lemma_merged_wf(rv);
                    lemma_prefix_half(network@.network, entry_digit(rv));
                }
                Some(out)
            },
            None => None,
        }
    }
}

/// Copy a path vector.
pub(crate) fn copy_path(v: &Vec<u32>) -> (r: Vec<u32>)
    ensures
        r@ == v@,
{
    let mut r: Vec<u32> = Vec::new();
    let n = v.len();
    let mut i: usize = 0;
    while i < n
        invariant
            n == v.len(),
            i <= n,
            r@ == v@.subrange(0, i as int),
        decreases n - i,
    {
        r.push(v[i]);
        proof {
            assert(r@ =~= v@.subrange(0, i as int + 1));
        }
        i = i + 1;
    }
    proof {
        assert(v@.subrange(0, n as int) =~= v@);
    }
    r
}

/// Element-wise equality of path vectors.
fn paths_equal(a: &Vec<u32>, b: &Vec<u32>) -> (r: bool)
    ensures
        r == (a@ == b@),
{
    let n = a.len();
    if n != b.len() {
        return false;
    }
    let mut i: usize = 0;
    while i < n
        invariant
            n == a.len() == b.len(),
            i <= n,
            forall|j: int| 0 <= j < i ==> a@[j] == b@[j],
        decreases n - i,
    {
        if a[i] != b[i] {
            return false;
        }
        i = i + 1;
    }
    proof {
        assert(a@ =~= b@);
    }
    true
}

/// Alignment to a prefix length carries down to all longer lengths.
pub proof fn lemma_aligned_finer(n: u32, k1: int, k2: int)
    requires
        0 <= k1 <= k2 <= 32,
        aligned(n, k1),
    ensures
        aligned(n, k2),
{
    let b1 = block(k1) as int;
    let b2 = block(k2) as int;
    let f = pow2((k2 - k1) as nat) as int;
    lemma_block_bounds(k1);
    lemma_block_bounds(k2);
    lemma_pow2_pos((k2 - k1) as nat);
    lemma_pow2_adds((32 - k2) as nat, (k2 - k1) as nat);
    assert(b1 == b2 * f);
    let q = n as int / b1;
    lemma_fundamental_div_mod(n as int, b1);
    assert(n as int == q * (b2 * f) + n as int % b1);
    assert(q * (b2 * f) == (q * f) * b2) by {
        lemma_mul_is_associative(q, f, b2);
        lemma_mul_is_associative(q, b2, f);
        lemma_mul_is_commutative(b2, f);
    }
    lemma_mod_multiples_basic(q * f, b2);
}

/// The two halves of a block: where they sit, and that they are the two
/// possible positions of any address the parent block covers.
pub proof fn lemma_split_halves(network: u32, lo: u32, hi: u32, k: int)
    requires
        1 <= k <= 32,
        aligned(lo, k - 1),
        hi == lo + block(k),
    ensures
        aligned(hi, k),
        prefix_val(hi, k - 1) == prefix_val(lo, k - 1),
        prefix_val(lo, k) == 2 * prefix_val(lo, k - 1),
        prefix_val(hi, k) == 2 * prefix_val(lo, k - 1) + 1,
        prefix_val(network, k - 1) == prefix_val(lo, k - 1) ==> prefix_val(network, k)
            == prefix_val(lo, k) || prefix_val(network, k) == prefix_val(hi, k),
{
    let b2 = block(k) as int;
    let b1 = block(k - 1) as int;
    lemma_block_bounds(k);
    lemma_block_bounds(k - 1);
    lemma_block_halves(k - 1);
    let q = prefix_val(lo, k - 1);
    lemma_fundamental_div_mod(lo as int, b1);
    lemma_mul_is_commutative(b1, q);
    assert(lo == q * b1);
    assert(lo == (2 * q) * b2) by {
        lemma_mul_is_associative(q, 2, b2);
        lemma_mul_is_commutative(q, 2);
    }
    lemma_div_multiples_vanish(2 * q, b2);
    assert(hi == (2 * q) * b2 + b2);
    assert(hi == (2 * q + 1) * b2) by {
        lemma_mul_is_distributive_add_other_way(b2, 2 * q, 1);
    }
    lemma_div_multiples_vanish(2 * q + 1, b2);
    lemma_mod_multiples_basic(2 * q + 1, b2);
    assert(prefix_val(hi, k - 1) == q) by {
        assert(hi == q * b1 + b2);
        lemma_fundamental_div_mod_converse_div(hi as int, b1, q, b2);
    }
    let pt = prefix_val(network, k);
    lemma_prefix_half(network, k);
    lemma_fundamental_div_mod(pt, 2);
    lemma_mod_bound(pt, 2);
}

/// Removing any entry preserves the table invariant.
pub proof fn lemma_table_wf_remove(s: Seq<NetworkV>, i: int)
    requires
        table_wf(s),
        0 <= i < s.len(),
    ensures
        table_wf(s.remove(i)),
{
    s.remove_ensures(i);
    let t = s.remove(i);
    assert forall|x: int| 0 <= x < t.len() implies entry_wf(#[trigger] t[x]) by {
        if x < i {
            assert(t[x] == s[x]);
        } else {
            assert(t[x] == s[x + 1]);
        }
    }
    assert forall|x: int, y: int|
        0 <= x < t.len() && 0 <= y < t.len() && x != y implies !aggregable(
        #[trigger] t[x],
        #[trigger] t[y],
    ) by {
        let xo = if x < i {
            x
        } else {
            x + 1
        };
        let yo = if y < i {
            y
        } else {
            y + 1
        };
        assert(t[x] == s[xo]);
        assert(t[y] == s[yo]);
        assert(!aggregable(s[xo], s[yo]));
    }
}

/// An entry of a shorter table obtained by removal stood in the longer
/// one: removal cannot create coverage.
pub proof fn lemma_covers_remove(s: Seq<NetworkV>, i: int, peer: u32, a: u32)
    requires
        0 <= i < s.len(),
        covers_addr(s.remove(i), peer, a),
    ensures
        covers_addr(s, peer, a),
{
    s.remove_ensures(i);
    let t = s.remove(i);
    let j = choose|j: int| 0 <= j < t.len() && t[j].peer == peer && entry_covers(#[trigger] t[j], a);
    if j < i {
        assert(t[j] == s[j]);
    } else {
        assert(t[j] == s[j + 1]);
    }
}

/// The mathematical values of a sequence of route entries.
pub open spec fn net_views(v: Seq<Network>) -> Seq<NetworkV> {
    v.map_values(|n: Network| n@)
}

/// All entries in a batch are well formed and belong to one neighbor.
pub open spec fn entries_wf(v: Seq<Network>, p: u32) -> bool {
    forall|i: int| 0 <= i < v.len() ==> entry_wf(#[trigger] v[i]@) && v[i]@.peer == p
}

/// Some entry in a batch of split-off parts covers the address `a`.
pub open spec fn batch_covers(v: Seq<Network>, a: u32) -> bool {
    exists|i: int| 0 <= i < v.len() && entry_covers((#[trigger] v[i])@, a)
}

/// Entry `i` is the only entry of `peer` covering the address `network`,
/// and its prefix is at least as long as the withdrawn one: withdrawing
/// `(network, m)` removes exactly this entry.
pub open spec fn sole_cover(s: Seq<NetworkV>, peer: u32, network: u32, m: int, i: int) -> bool {
    0 <= i < s.len() && s[i].peer == peer && entry_covers(s[i], network) && entry_digit(s[i])
        >= m && (forall|j: int|
        0 <= j < s.len() && j != i ==> !((#[trigger] s[j]).peer == peer && entry_covers(
            s[j],
            network,
        )))
}

/// A pending table operation, carried out on behalf of one neighbor.
enum Op {
    /// Withdraw the given range from the neighbor, repeatedly
    /// disaggregating until no entry of the neighbor covers it.
    Wd { network: u32, netmask: u32, peer: u32 },
    /// Insert an entry: first withdraw its own range, then aggregate.
    Ins { entry: Network },
    /// Insert an entry that needs no withdrawal, aggregating as far as
    /// possible.
    InsAgg { entry: Network },
}

/// A well-formed pending operation on behalf of neighbor `p`.
spec fn op_wf(op: Op, p: u32) -> bool {
    match op {
        Op::Wd { network, netmask, peer } => peer == p && valid_mask(netmask),
        Op::Ins { entry } => entry_wf(entry@) && entry@.peer == p,
        Op::InsAgg { entry } => entry_wf(entry@) && entry@.peer == p,
    }
}

spec fn ops_wf(ops: Seq<Op>, p: u32) -> bool {
    forall|i: int| 0 <= i < ops.len() ==> op_wf(#[trigger] ops[i], p)
}

/// The address weight an operation may add to the table.
spec fn op_weight(op: Op) -> nat {
    match op {
        Op::Wd { .. } => 0,
        Op::Ins { entry } => weight(entry@),
        Op::InsAgg { entry } => weight(entry@),
    }
}

spec fn ops_weight(ops: Seq<Op>) -> nat
    decreases ops.len(),
{
    if ops.len() == 0 {
        0
    } else {
        ops_weight(ops.drop_last()) + op_weight(ops.last())
    }
}

/// The structural rank of an operation: a full insert expands into two
/// further operations, so it ranks above both.
spec fn op_rank(op: Op) -> nat {
    match op {
        Op::Wd { .. } => 1,
        Op::Ins { .. } => 3,
        Op::InsAgg { .. } => 1,
    }
}

spec fn ops_rank(ops: Seq<Op>) -> nat
    decreases ops.len(),
{
    if ops.len() == 0 {
        0
    } else {
        ops_rank(ops.drop_last()) + op_rank(ops.last())
    }
}

/// Some pending insert in the stack covers the address `a`.
spec fn ops_covers(ops: Seq<Op>, a: u32) -> bool {
    exists|i: int|
        0 <= i < ops.len() && match #[trigger] ops[i] {
            Op::Wd { .. } => false,
            Op::Ins { entry } => entry_covers(entry@, a),
            Op::InsAgg { entry } => entry_covers(entry@, a),
        }
}

/// Whether one pending operation covers the address `a`.
spec fn op_covers(op: Op, a: u32) -> bool {
    match op {
        Op::Wd { .. } => false,
        Op::Ins { entry } => entry_covers(entry@, a),
        Op::InsAgg { entry } => entry_covers(entry@, a),
    }
}

/// Pushing and popping pending operations moves coverage one to one.
proof fn lemma_ops_covers_push(ops: Seq<Op>, op: Op, a: u32)
    ensures
        ops_covers(ops.push(op), a) == (ops_covers(ops, a) || op_covers(op, a)),
{
    if ops_covers(ops, a) {
        let i = choose|i: int|
            0 <= i < ops.len() && match #[trigger] ops[i] {
                Op::Wd { .. } => false,
                Op::Ins { entry } => entry_covers(entry@, a),
                Op::InsAgg { entry } => entry_covers(entry@, a),
            };
        assert(ops.push(op)[i] == ops[i]);
    }
    if op_covers(op, a) {
        assert(ops.push(op)[ops.len() as int] == op);
    }
    if ops_covers(ops.push(op), a) {
        let i = choose|i: int|
            0 <= i < ops.push(op).len() && match #[trigger] ops.push(op)[i] {
                Op::Wd { .. } => false,
                Op::Ins { entry } => entry_covers(entry@, a),
                Op::InsAgg { entry } => entry_covers(entry@, a),
            };
        if i < ops.len() {
            assert(ops[i] == ops.push(op)[i]);
        }
    }
}

/// A pending insert whose entry's block contains the whole block
/// `(network, m)`.
spec fn op_covers_block(op: Op, network: u32, m: int) -> bool {
    match op {
        Op::Wd { .. } => false,
        Op::Ins { entry } => 0 <= entry_digit(entry@) <= m && prefix_val(
            network,
            entry_digit(entry@),
        ) == prefix_val(entry@.network, entry_digit(entry@)),
        Op::InsAgg { entry } => 0 <= entry_digit(entry@) <= m && prefix_val(
            network,
            entry_digit(entry@),
        ) == prefix_val(entry@.network, entry_digit(entry@)),
    }
}

/// Every pending withdrawal is preceded (deeper in the stack, so worked
/// off later) by a pending insert that restores its whole block: the
/// withdrawals the engine spawns only make room for a re-insert.
spec fn ops_paired(ops: Seq<Op>) -> bool {
    forall|i: int|
        0 <= i < ops.len() ==> match #[trigger] ops[i] {
            Op::Wd { network, netmask, peer } => exists|j: int|
                0 <= j < i && op_covers_block(#[trigger] ops[j], network, digit_of(netmask)),
            Op::Ins { .. } => true,
            Op::InsAgg { .. } => true,
        }
}

/// An insert that covers a block covers each of its addresses.
proof fn lemma_block_cover_addr(op: Op, network: u32, m: int, a: u32)
    requires
        0 <= m <= 32,
        op_covers_block(op, network, m),
        prefix_val(a, m) == prefix_val(network, m),
    ensures
        op_covers(op, a),
{
    match op {
        Op::Wd { .. } => {
        },
        Op::Ins { entry } => {
            lemma_prefix_agree_coarsen(a, network, entry_digit(entry@), m);
        },
        Op::InsAgg { entry } => {
            lemma_prefix_agree_coarsen(a, network, entry_digit(entry@), m);
        },
    }
}

/// Popping the top operation leaves the rest paired.
proof fn lemma_paired_drop(pre: Seq<Op>)
    requires
        ops_paired(pre),
        pre.len() > 0,
    ensures
        ops_paired(pre.drop_last()),
{
    let t = pre.drop_last();
    assert forall|i: int| 0 <= i < t.len() implies match #[trigger] t[i] {
        Op::Wd { network, netmask, peer } => exists|j: int|
            0 <= j < i && op_covers_block(#[trigger] t[j], network, digit_of(netmask)),
        Op::Ins { .. } => true,
        Op::InsAgg { .. } => true,
    } by {
        assert(t[i] == pre[i]);
        match pre[i] {
            Op::Wd { network, netmask, peer } => {
                let j = choose|j: int|
                    0 <= j < i && op_covers_block(#[trigger] pre[j], network, digit_of(netmask));
                assert(t[j] == pre[j]);
                assert(op_covers_block(t[j], network, digit_of(netmask)));
            },
            _ => {
            },
        }
    }
}

/// Pushing an insert leaves a stack paired.
proof fn lemma_paired_push_ins(ops: Seq<Op>, op: Op)
    requires
        ops_paired(ops),
        !(op is Wd),
    ensures
        ops_paired(ops.push(op)),
{
    let t = ops.push(op);
    assert forall|i: int| 0 <= i < t.len() implies match #[trigger] t[i] {
        Op::Wd { network, netmask, peer } => exists|j: int|
            0 <= j < i && op_covers_block(#[trigger] t[j], network, digit_of(netmask)),
        Op::Ins { .. } => true,
        Op::InsAgg { .. } => true,
    } by {
        if i < ops.len() {
            assert(t[i] == ops[i]);
            match ops[i] {
                Op::Wd { network, netmask, peer } => {
                    let j = choose|j: int|
                        0 <= j < i && op_covers_block(
                            #[trigger] ops[j],
                            network,
                            digit_of(netmask),
                        );
                    assert(t[j] == ops[j]);
                    assert(op_covers_block(t[j], network, digit_of(netmask)));
                },
                _ => {
                },
            }
        } else {
            assert(t[i] == op);
        }
    }
}

/// Pushing a withdrawal whose block some insert in the stack restores
/// leaves the stack paired.
proof fn lemma_paired_push_wd(ops: Seq<Op>, network: u32, netmask: u32, peer: u32, j: int)
    requires
        ops_paired(ops),
        0 <= j < ops.len(),
        op_covers_block(ops[j], network, digit_of(netmask)),
    ensures
        ops_paired(ops.push(Op::Wd { network, netmask, peer })),
{
    let t = ops.push(Op::Wd { network, netmask, peer });
    assert forall|i: int| 0 <= i < t.len() implies match #[trigger] t[i] {
        Op::Wd { network: n2, netmask: m2, peer: p2 } => exists|j2: int|
            0 <= j2 < i && op_covers_block(#[trigger] t[j2], n2, digit_of(m2)),
        Op::Ins { .. } => true,
        Op::InsAgg { .. } => true,
    } by {
        if i < ops.len() {
            assert(t[i] == ops[i]);
            match ops[i] {
                Op::Wd { network: n2, netmask: m2, peer: p2 } => {
                    let j2 = choose|j2: int|
                        0 <= j2 < i && op_covers_block(#[trigger] ops[j2], n2, digit_of(m2));
                    assert(t[j2] == ops[j2]);
                    assert(op_covers_block(t[j2], n2, digit_of(m2)));
                },
                _ => {
                },
            }
        } else {
            assert(t[i] == Op::Wd { network, netmask, peer });
            assert(t[j] == ops[j]);
            assert(op_covers_block(t[j], network, digit_of(netmask)));
        }
    }
}

proof fn lemma_ops_push(ops: Seq<Op>, op: Op)
    ensures
        ops_weight(ops.push(op)) == ops_weight(ops) + op_weight(op),
        ops_rank(ops.push(op)) == ops_rank(ops) + op_rank(op),
{
    assert(ops.push(op).drop_last() =~= ops);
    assert(ops.push(op).last() == op);
}

impl Table {
    /// Find an entry of `peer` whose prefix covers the address `network`.
    fn find_covering(&self, network: u32, peer: u32) -> (r: Option<usize>)
        requires
            self.wf(),
        ensures
            match r {
                Some(i) => 0 <= i < self@.len() && self@[i as int].peer == peer && entry_covers(
                    self@[i as int],
                    network,
                ),
                None => forall|j: int|
                    0 <= j < self@.len() ==> !(#[trigger] self@[j].peer == peer && entry_covers(
                        self@[j],
                        network,
                    )),
            },
    {
        let n = self.table.len();
        let mut i: usize = 0;
        while i < n
            invariant
                n == self.table.len(),
                i <= n,
                self.wf(),
                forall|j: int|
                    0 <= j < i ==> !(#[trigger] self@[j].peer == peer && entry_covers(
                        self@[j],
                        network,
                    )),
            decreases n - i,
        {
            proof {
                assert(self@[i as int] == self.table@[i as int]@);
                let e = self@[i as int];
                lemma_match_iff_same_block(e.network, entry_digit(e), network);
            }
            let row = &self.table[i];
            if row.peer == peer && check_match(row.network, row.netmask, network) {
                return Some(i);
            }
            i = i + 1;
        }
        None
    }

    /// Remove one entry of `peer` covering `network`, if any, and hand
    /// back the parts of it that lie outside the withdrawn range, split
    /// down to the withdrawn prefix length, finest part first at the end.
    fn take_covering(&mut self, network: u32, netmask: u32, peer: u32) -> (r: (bool, Vec<
        Network,
    >))
        requires
            old(self).wf(),
            valid_mask(netmask),
        ensures
            final(self).wf(),
            !r.0 ==> final(self)@ == old(self)@ && r.1@.len() == 0 && (forall|j: int|
                0 <= j < old(self)@.len() ==> !(#[trigger] old(self)@[j].peer == peer
                    && entry_covers(old(self)@[j], network))),
            r.0 ==> others(final(self)@, peer) == others(old(self)@, peer) && phi(final(self)@)
                + phi(net_views(r.1@)) < phi(old(self)@) && entries_wf(r.1@, peer)
                && covers_addr(old(self)@, peer, network),
            r.0 ==> exists|i: int|
                0 <= i < old(self)@.len() && (#[trigger] old(self)@[i]).peer == peer
                    && entry_covers(old(self)@[i], network) && (entry_digit(old(self)@[i])
                    >= digit_of(netmask) ==> final(self)@ == old(self)@.remove(i)
                    && r.1@.len() == 0),
            forall|a: u32|
                #[trigger] covers_addr(final(self)@, peer, a) ==> covers_addr(
                    old(self)@,
                    peer,
                    a,
                ),
            r.0 ==> forall|a: u32|
                #[trigger] batch_covers(r.1@, a) ==> covers_addr(old(self)@, peer, a),
            forall|a: u32|
                #[trigger] covers_addr(old(self)@, peer, a) && prefix_val(
                    a,
                    digit_of(netmask),
                ) != prefix_val(network, digit_of(netmask)) ==> covers_addr(
                    final(self)@,
                    peer,
                    a,
                ) || batch_covers(r.1@, a),
    {
        match self.find_covering(network, peer) {
            None => (false, Vec::new()),
            Some(i) => {
                proof {
                    assert(self@[i as int] == self.table@[i as int]@);
                    lemma_phi_remove(self@, i as int);
                    lemma_table_wf_remove(self@, i as int);
                    lemma_others_remove(self@, peer, i as int);
                }
                let net = self.table.remove(i);
                proof {
                    assert(self@ =~= old(self)@.remove(i as int));
                    assert forall|a: u32| #[trigger] covers_addr(self@, peer, a)
                        implies covers_addr(old(self)@, peer, a) by {
                        lemma_covers_remove(old(self)@, i as int, peer, a);
                    }
                }
                let ghost rv = net@;
                let m = netmask_digit(netmask);
                let mut cd = netmask_digit(net.netmask);
                let mut cur = net;
                let mut halves: Vec<Network> = Vec::new();
                proof {
                    assert(net_views(halves@) =~= Seq::<NetworkV>::empty());
                    lemma_weight_pos(rv);
                }
                while cd < m
                    invariant
                        m <= 32,
                        cd <= 32,
                        entry_wf(cur@),
                        cd == entry_digit(cur@),
                        cur@.peer == peer,
                        entry_covers(cur@, network),
                        weight(cur@) + phi(net_views(halves@)) == weight(rv),
                        entries_wf(halves@, peer),
                        entry_digit(rv) <= cd,
                        entry_digit(rv) >= m as int ==> halves@.len() == 0,
                        forall|a: u32|
                            (batch_covers(halves@, a) || entry_covers(cur@, a))
                                ==> entry_covers(rv, a),
                        forall|a: u32|
                            #[trigger] entry_covers(rv, a) ==> batch_covers(halves@, a)
                                || entry_covers(cur@, a),
                    decreases m - cd,
                {
                    proof {
                        assert(cur@.netmask == mask_of(cd as int));
                    }
                    let nm = netnask_increase(cur.netmask);
                    proof {
                        lemma_aligned_finer(cur.network, cd as int, cd as int + 1);
                    }
                    let (lo, hi) = divide_prefix(cur.network, nm);
                    proof {
                        let k1 = cd as int + 1;
                        lemma_block_bounds(k1);
                        lemma_block_halves(cd as int);
                        lemma_split_halves(network, lo, hi, k1);
                        lemma_aligned_finer(lo, cd as int, k1);
                        lemma_match_iff_same_block(lo, k1, network);
                        lemma_digit_of_mask(k1);
                    }
                    let keep_lo = check_match(lo, nm, network);
                    let path_copy = copy_path(&cur.as_path);
                    let ghost old_halves = halves@;
                    let ghost old_cur = cur@;
                    if keep_lo {
                        let h = Network {
                            peer: cur.peer,
                            network: hi,
                            netmask: nm,
                            localpref: cur.localpref,
                            self_origin: cur.self_origin,
                            as_path: path_copy,
                            origin: cur.origin,
                        };
                        proof {
                            lemma_phi_push(net_views(old_halves), h@);
                            assert(net_views(old_halves.push(h)) =~= net_views(old_halves).push(
                                h@,
                            ));
                        }
                        halves.push(h);
                        cur = Network {
                            peer: cur.peer,
                            network: lo,
                            netmask: nm,
                            localpref: cur.localpref,
                            self_origin: cur.self_origin,
                            as_path: cur.as_path,
                            origin: cur.origin,
                        };
                    } else {
                        let h = Network {
                            peer: cur.peer,
                            network: lo,
                            netmask: nm,
                            localpref: cur.localpref,
                            self_origin: cur.self_origin,
                            as_path: path_copy,
                            origin: cur.origin,
                        };
                        proof {
                            lemma_phi_push(net_views(old_halves), h@);
                            assert(net_views(old_halves.push(h)) =~= net_views(old_halves).push(
                                h@,
                            ));
                        }
                        halves.push(h);
                        cur = Network {
                            peer: cur.peer,
                            network: hi,
                            netmask: nm,
                            localpref: cur.localpref,
                            self_origin: cur.self_origin,
                            as_path: cur.as_path,
                            origin: cur.origin,
                        };
                    }
                    proof {
                        let k1 = cd as int + 1;
                        let ghost hv = halves@;
                        assert forall|a: u32| #[trigger] entry_covers(rv, a)
                            implies batch_covers(hv, a) || entry_covers(cur@, a) by {
                            if !batch_covers(old_halves, a) {
                                assert(entry_covers(old_cur, a));
                                lemma_split_halves(a, lo, hi, k1);
                                if prefix_val(a, k1) == prefix_val(lo, k1) || prefix_val(
                                    a,
                                    k1,
                                ) == prefix_val(hi, k1) {
                                    assert(entry_covers(hv.last()@, a) || entry_covers(
                                        cur@,
                                        a,
                                    ));
                                    if entry_covers(hv.last()@, a) {
                                        assert(batch_covers(hv, a));
                                    }
                                }
                            } else {
                                let j = choose|j: int|
                                    0 <= j < old_halves.len() && entry_covers(
                                        (#[trigger] old_halves[j])@,
                                        a,
                                    );
                                assert(hv[j] == old_halves[j]);
                                assert(batch_covers(hv, a));
                            }
                        }
                        assert forall|a: u32|
                            (batch_covers(hv, a) || entry_covers(cur@, a)) implies entry_covers(
                            rv,
                            a,
                        ) by {
                            lemma_prefix_half(a, k1);
                            lemma_prefix_half(lo, k1);
                            lemma_prefix_half(hi, k1);
                            if batch_covers(hv, a) {
                                let j = choose|j: int|
                                    0 <= j < hv.len() && entry_covers((#[trigger] hv[j])@, a);
                                if j < hv.len() - 1 {
                                    assert(batch_covers(old_halves, a));
                                } else {
                                    assert(entry_covers(old_cur, a));
                                }
                            } else {
                                assert(entry_covers(old_cur, a));
                            }
                        }
                    }
                    cd = cd + 1;
                }
                proof {
                    lemma_weight_pos(cur@);
                    assert(old(self)@[i as int].peer == peer && entry_covers(
                        old(self)@[i as int],
                        network,
                    ));
                    assert(entry_digit(old(self)@[i as int]) >= digit_of(netmask)
                        ==> final(self)@ == old(self)@.remove(i as int) && halves@.len() == 0);
                    assert forall|a: u32| #[trigger] batch_covers(halves@, a)
                        implies covers_addr(old(self)@, peer, a) by {
                        assert(entry_covers(rv, a));
                        assert(old(self)@[i as int].peer == peer && entry_covers(
                            old(self)@[i as int],
                            a,
                        ));
                    }
                    let mt = digit_of(netmask);
                    assert forall|a: u32|
                        #[trigger] covers_addr(old(self)@, peer, a) && prefix_val(a, mt)
                            != prefix_val(network, mt) implies covers_addr(self@, peer, a)
                        || batch_covers(halves@, a) by {
                        let j = choose|j: int|
                            0 <= j < old(self)@.len() && old(self)@[j].peer == peer
                                && entry_covers(#[trigger] old(self)@[j], a);
                        if j != i as int {
                            old(self)@.remove_ensures(i as int);
                            let jn = if j < i as int {
                                j
                            } else {
                                j - 1
                            };
                            assert(self@[jn] == old(self)@[j]);
                        } else {
                            assert(entry_covers(rv, a));
                            if entry_covers(cur@, a) {
                                // The remaining piece is the withdrawn
                                // block itself, which excludes `a`.
                                assert(cd == entry_digit(cur@));
                                assert(cd >= m);
                                lemma_prefix_agree_coarsen(a, cur@.network, mt, cd as int);
                                lemma_prefix_agree_coarsen(
                                    network,
                                    cur@.network,
                                    mt,
                                    cd as int,
                                );
                                assert(false);
                            }
                        }
                    }
                }
                (true, halves)
            },
        }
    }

    /// Insert an entry, repeatedly merging it with any adjacent entry of
    /// equal attributes into the covering prefix, then add the result.
    fn insert_aggregated(&mut self, e: Network)
        requires
            old(self).wf(),
            entry_wf(e@),
        ensures
            final(self).wf(),
            others(final(self)@, e@.peer) == others(old(self)@, e@.peer),
            phi(final(self)@) == phi(old(self)@) + weight(e@),
            exists|i: int|
                0 <= i < final(self)@.len() && subsumes(#[trigger] final(self)@[i], e@),
            (forall|j: int| 0 <= j < old(self)@.len() ==> !aggregable(old(self)@[j], e@))
                ==> final(self)@ == old(self)@.push(e@),
            forall|a: u32|
                #[trigger] covers_addr(final(self)@, e@.peer, a) ==> covers_addr(
                    old(self)@,
                    e@.peer,
                    a,
                ) || entry_covers(e@, a),
            forall|a: u32|
                #![trigger covers_addr(old(self)@, e@.peer, a)]
                #![trigger entry_covers(e@, a)]
                (covers_addr(old(self)@, e@.peer, a) || entry_covers(e@, a)) ==> covers_addr(
                    final(self)@,
                    e@.peer,
                    a,
                ),
    {
        let ghost t0 = self@;
        let ghost p = e@.peer;
        let mut cur = e;
        let mut done = false;
        proof {
            lemma_weight_pos(cur@);
        }
        while !done
            invariant
                self.wf(),
                entry_wf(cur@),
                cur@.peer == p,
                subsumes(cur@, e@),
                others(self@, p) == others(t0, p),
                phi(self@) + weight(cur@) == phi(t0) + weight(e@),
                done ==> forall|j: int| 0 <= j < self@.len() ==> !aggregable(self@[j], cur@),
                (forall|j: int| 0 <= j < t0.len() ==> !aggregable(t0[j], e@)) ==> (self@ == t0
                    && cur@ == e@),
                forall|a: u32|
                    (covers_addr(self@, p, a) || entry_covers(cur@, a)) ==> covers_addr(
                        t0,
                        p,
                        a,
                    ) || entry_covers(e@, a),
                forall|a: u32|
                    (covers_addr(t0, p, a) || entry_covers(e@, a)) ==> covers_addr(self@, p, a)
                        || entry_covers(cur@, a),
            decreases 2 * entry_digit(cur@) + (if done {
                0int
            } else {
                1int
            }),
        {
            let ghost pre = self@;
            let ghost curv = cur@;
            match self.aggregate(&cur) {
                Some(n) => {
                    proof {
                        let i = choose|i: int|
                            0 <= i < pre.len() && self@ == pre.remove(i) && aggregable(
                                #[trigger] pre[i],
                                curv,
                            ) && n@ == merged(pre[i]);
                        lemma_others_remove(pre, p, i);
                        let k = entry_digit(curv);
                        lemma_prefix_half(e@.network, k);
                        lemma_prefix_half(curv.network, k);
                        if forall|j: int| 0 <= j < t0.len() ==> !aggregable(t0[j], e@) {
                            assert(aggregable(t0[i], e@));
                            assert(false);
                        }
                        // Coverage of the merged block is coverage of
                        // one of the two sibling blocks it replaces.
                        let partner = pre[i];
                        lemma_merged_wf(partner);
                        assert forall|a: u32|
                            (covers_addr(t0, p, a) || entry_covers(e@, a))
                                implies covers_addr(self@, p, a) || entry_covers(n@, a) by {
                            if covers_addr(pre, p, a) || entry_covers(curv, a) {
                                if entry_covers(curv, a) {
                                    lemma_prefix_half(a, k);
                                    lemma_prefix_half(curv.network, k);
                                    assert(entry_covers(n@, a));
                                } else {
                                    let j = choose|j: int|
                                        0 <= j < pre.len() && pre[j].peer == p
                                            && entry_covers(#[trigger] pre[j], a);
                                    if j == i {
                                        lemma_prefix_half(a, k);
                                        lemma_prefix_half(partner.network, k);
                                        assert(entry_covers(n@, a));
                                    } else {
                                        pre.remove_ensures(i);
                                        let jn = if j < i {
                                            j
                                        } else {
                                            j - 1
                                        };
                                        assert(self@[jn] == pre[j]);
                                        assert(covers_addr(self@, p, a));
                                    }
                                }
                            }
                        }
                        assert forall|a: u32|
                            (covers_addr(self@, p, a) || entry_covers(n@, a))
                                implies covers_addr(t0, p, a) || entry_covers(e@, a) by {
                            if covers_addr(self@, p, a) {
                                lemma_covers_remove(pre, i, p, a);
                            } else {
                                lemma_prefix_half(a, k);
                                lemma_prefix_half(partner.network, k);
                                lemma_prefix_half(curv.network, k);
                                lemma_fundamental_div_mod(prefix_val(a, k), 2);
                                lemma_fundamental_div_mod(prefix_val(partner.network, k), 2);
                                lemma_fundamental_div_mod(prefix_val(curv.network, k), 2);
                                lemma_mod_bound(prefix_val(a, k), 2);
                                lemma_mod_bound(prefix_val(partner.network, k), 2);
                                lemma_mod_bound(prefix_val(curv.network, k), 2);
                                if prefix_val(a, k) == prefix_val(partner.network, k) {
                                    assert(partner.peer == p && entry_covers(partner, a));
                                    assert(covers_addr(pre, p, a));
                                } else {
                                    assert(entry_covers(curv, a));
                                }
                            }
                        }
                    }
                    cur = n;
                },
                None => {
                    done = true;
                },
            }
        }
        proof {
            assert forall|j: int| 0 <= j < self@.len() implies !aggregable(
                cur@,
                #[trigger] self@[j],
            ) by {
                lemma_aggregable_sym(cur@, self@[j]);
            }
            lemma_phi_push(self@, cur@);
            lemma_others_push(self@, p, cur@);
        }
        let ghost pre_push = self@;
        let ghost curv_f = cur@;
        self.table.push(cur);
        proof {
            assert(self@ =~= pre_push.push(cur@));
            assert(subsumes(self@[self@.len() - 1], e@));
            assert forall|a: u32|
                (covers_addr(t0, p, a) || entry_covers(e@, a)) implies covers_addr(
                self@,
                p,
                a,
            ) by {
                if covers_addr(pre_push, p, a) {
                    let j = choose|j: int|
                        0 <= j < pre_push.len() && pre_push[j].peer == p && entry_covers(
                            #[trigger] pre_push[j],
                            a,
                        );
                    assert(self@[j] == pre_push[j]);
                } else {
                    assert(entry_covers(curv_f, a));
                    assert(self@[self@.len() - 1] == curv_f);
                }
            }
        }
    }

    /// Work off a stack of pending operations for one neighbor. The
    /// engine behind insertion and withdrawal: parts split off a
    /// disaggregated entry re-enter through a full insert, and a
    /// withdrawal repeats until nothing covers the withdrawn range.
    fn run_ops(&mut self, ops: Vec<Op>, Ghost(p): Ghost<u32>)
        requires
            old(self).wf(),
            ops_wf(ops@, p),
            ops_paired(ops@),
        ensures
            final(self).wf(),
            others(final(self)@, p) == others(old(self)@, p),
            phi(final(self)@) <= phi(old(self)@) + ops_weight(ops@),
            ops@.len() == 0 ==> final(self)@ == old(self)@,
            forall|a: u32|
                #[trigger] covers_addr(final(self)@, p, a) ==> covers_addr(old(self)@, p, a)
                    || ops_covers(ops@, a),
            forall|a: u32|
                #![trigger covers_addr(old(self)@, p, a)]
                #![trigger ops_covers(ops@, a)]
                (covers_addr(old(self)@, p, a) || ops_covers(ops@, a)) ==> covers_addr(
                    final(self)@,
                    p,
                    a,
                ),
    {
        let ghost t0 = self@;
        let ghost ops0 = ops@;
        let ghost m0 = phi(self@) + ops_weight(ops@);
        let mut ops = ops;
        if ops.len() == 0 {
            return ;
        }
        while ops.len() > 0
            invariant
                self.wf(),
                ops_wf(ops@, p),
                others(self@, p) == others(t0, p),
                phi(self@) + ops_weight(ops@) <= m0,
                forall|a: u32|
                    (covers_addr(self@, p, a) || ops_covers(ops@, a)) ==> covers_addr(
                        t0,
                        p,
                        a,
                    ) || ops_covers(ops0, a),
                ops_paired(ops@),
                forall|a: u32|
                    #![trigger covers_addr(t0, p, a)]
                    #![trigger ops_covers(ops0, a)]
                    (covers_addr(t0, p, a) || ops_covers(ops0, a)) ==> covers_addr(self@, p, a)
                        || ops_covers(ops@, a),
            decreases phi(self@) + ops_weight(ops@), ops_rank(ops@),
        {
            let ghost pre_ops = ops@;
            let op = ops.pop().unwrap();
            proof {
                assert(ops@ =~= pre_ops.drop_last());
                assert(op == pre_ops.last());
                assert(pre_ops =~= ops@.push(op));
                assert forall|a: u32| ops_covers(ops@, a) || op_covers(op, a)
                    implies ops_covers(pre_ops, a) by {
                    lemma_ops_covers_push(ops@, op, a);
                }
                assert forall|a: u32| ops_covers(pre_ops, a) implies ops_covers(ops@, a)
                    || op_covers(op, a) by {
                    lemma_ops_covers_push(ops@, op, a);
                }
                lemma_paired_drop(pre_ops);
            }
            let ghost popped_ops = ops@;
            match op {
                Op::Ins { entry } => {
                    let network = entry.network;
                    let netmask = entry.netmask;
                    let peer = entry.peer;
                    proof {
                        lemma_ops_push(ops@, Op::InsAgg { entry });
                    }
                    let ghost mid_ops = ops@.push(Op::InsAgg { entry });
                    ops.push(Op::InsAgg { entry });
                    proof {
                        lemma_ops_push(mid_ops, Op::Wd { network, netmask, peer });
                    }
                    ops.push(Op::Wd { network, netmask, peer });
                    proof {
                        assert forall|a: u32| ops_covers(ops@, a) implies ops_covers(
                            pre_ops,
                            a,
                        ) by {
                            lemma_ops_covers_push(mid_ops, Op::Wd { network, netmask, peer }, a);
                            lemma_ops_covers_push(popped_ops, Op::InsAgg { entry }, a);
                            lemma_ops_covers_push(popped_ops, op, a);
                        }
                        assert forall|a: u32| ops_covers(pre_ops, a) implies ops_covers(
                            ops@,
                            a,
                        ) by {
                            lemma_ops_covers_push(mid_ops, Op::Wd { network, netmask, peer }, a);
                            lemma_ops_covers_push(popped_ops, Op::InsAgg { entry }, a);
                            lemma_ops_covers_push(popped_ops, op, a);
                        }
                        lemma_paired_push_ins(popped_ops, Op::InsAgg { entry });
                        lemma_paired_push_wd(
                            mid_ops,
                            network,
                            netmask,
                            peer,
                            mid_ops.len() - 1,
                        );
                        assert(mid_ops[mid_ops.len() - 1] == Op::InsAgg { entry });
                        assert forall|a: u32|
                            #![trigger covers_addr(t0, p, a)]
                            #![trigger ops_covers(ops0, a)]
                            (covers_addr(t0, p, a) || ops_covers(ops0, a))
                                implies covers_addr(self@, p, a) || ops_covers(ops@, a) by {
                            assert(covers_addr(self@, p, a) || ops_covers(pre_ops, a));
                        }
                        assert forall|a: u32| (covers_addr(self@, p, a) || ops_covers(
                            ops@,
                            a,
                        )) implies covers_addr(t0, p, a) || ops_covers(ops0, a) by {
                            if ops_covers(ops@, a) {
                                assert(ops_covers(pre_ops, a));
                            }
                        }
                    }
                },
                Op::InsAgg { entry } => {
                    let ghost pre_t = self@;
                    let ghost ev = entry@;
                    self.insert_aggregated(entry);
                    proof {
                        assert forall|a: u32| covers_addr(self@, p, a) implies covers_addr(
                            pre_t,
                            p,
                            a,
                        ) || ops_covers(pre_ops, a) by {
                            if entry_covers(ev, a) {
                                assert(op_covers(op, a));
                            }
                        }
                        assert forall|a: u32| covers_addr(pre_t, p, a) || ops_covers(
                            pre_ops,
                            a,
                        ) implies covers_addr(self@, p, a) || ops_covers(ops@, a) by {
                            if ops_covers(pre_ops, a) && !ops_covers(ops@, a) {
                                assert(op_covers(op, a));
                                assert(entry_covers(ev, a));
                            }
                        }
                        assert forall|a: u32|
                            #![trigger covers_addr(t0, p, a)]
                            #![trigger ops_covers(ops0, a)]
                            (covers_addr(t0, p, a) || ops_covers(ops0, a))
                                implies covers_addr(self@, p, a) || ops_covers(ops@, a) by {
                            assert(covers_addr(pre_t, p, a) || ops_covers(pre_ops, a));
                        }
                    }
                },
                Op::Wd { network, netmask, peer } => {
                    let ghost pre = self@;
                    proof {
                        assert forall|a: u32|
                            #![trigger covers_addr(t0, p, a)]
                            #![trigger ops_covers(ops0, a)]
                            (covers_addr(t0, p, a) || ops_covers(ops0, a))
                                implies covers_addr(pre, p, a) || ops_covers(pre_ops, a) by {
                        }
                    }
                    let r = self.take_covering(network, netmask, peer);
                    let found = r.0;
                    let mut halves = r.1;
                    let ghost h0 = halves@;
                    if !found {
                        proof {
                            assert forall|a: u32|
                                #![trigger covers_addr(t0, p, a)]
                                #![trigger ops_covers(ops0, a)]
                                (covers_addr(t0, p, a) || ops_covers(ops0, a))
                                    implies covers_addr(self@, p, a) || ops_covers(
                                ops@,
                                a,
                            ) by {
                                assert(covers_addr(pre, p, a) || ops_covers(pre_ops, a));
                                if !covers_addr(pre, p, a) {
                                    assert(ops_covers(ops@, a) || op_covers(op, a));
                                }
                            }
                        }
                    }
                    if found {
                        proof {
                            lemma_ops_push(ops@, Op::Wd { network, netmask, peer });
                            assert forall|a: u32| ops_covers(
                                ops@.push(Op::Wd { network, netmask, peer }),
                                a,
                            ) == ops_covers(popped_ops, a) by {
                                lemma_ops_covers_push(
                                    ops@,
                                    Op::Wd { network, netmask, peer },
                                    a,
                                );
                            }
                            // The popped withdrawal is paired with an
                            // insert deeper in the stack; the re-pushed
                            // one pairs with the same insert.
                            assert(pre_ops[pre_ops.len() - 1] == op);
                            let jp = choose|jp: int|
                                0 <= jp < pre_ops.len() - 1 && op_covers_block(
                                    #[trigger] pre_ops[jp],
                                    network,
                                    digit_of(netmask),
                                );
                            assert(popped_ops[jp] == pre_ops[jp]);
                            lemma_paired_push_wd(popped_ops, network, netmask, peer, jp);
                        }
                        ops.push(Op::Wd { network, netmask, peer });
                        let ghost wd_ops = ops@;
                        let ghost budget = phi(self@) + ops_weight(ops@) + phi(
                            net_views(halves@),
                        );
                        while halves.len() > 0
                            invariant
                                ops_wf(ops@, p),
                                entries_wf(halves@, p),
                                ops_paired(ops@),
                                phi(self@) + ops_weight(ops@) + phi(net_views(halves@))
                                    == budget,
                                forall|a: u32|
                                    (ops_covers(ops@, a) || batch_covers(halves@, a))
                                        ==> ops_covers(wd_ops, a) || batch_covers(h0, a),
                                forall|a: u32|
                                    (ops_covers(wd_ops, a) || batch_covers(h0, a))
                                        ==> ops_covers(ops@, a) || batch_covers(halves@, a),
                            decreases halves.len(),
                        {
                            let ghost pre_h = halves@;
                            let ghost pre_o = ops@;
                            let h = halves.pop().unwrap();
                            proof {
                                assert(halves@ =~= pre_h.drop_last());
                                assert(h == pre_h.last());
                                assert(net_views(pre_h).drop_last() =~= net_views(halves@));
                                assert(net_views(pre_h).last() == h@);
                                lemma_ops_push(ops@, Op::Ins { entry: h });
                            }
                            ops.push(Op::Ins { entry: h });
                            proof {
                                lemma_paired_push_ins(pre_o, Op::Ins { entry: h });
                                assert forall|a: u32|
                                    (ops_covers(ops@, a) || batch_covers(halves@, a))
                                        implies ops_covers(pre_o, a) || batch_covers(
                                        pre_h,
                                        a,
                                    ) by {
                                    lemma_ops_covers_push(pre_o, Op::Ins { entry: h }, a);
                                    if op_covers(Op::Ins { entry: h }, a) {
                                        assert(entry_covers((pre_h.last())@, a));
                                        assert(batch_covers(pre_h, a));
                                    }
                                    if batch_covers(halves@, a) {
                                        let j = choose|j: int|
                                            0 <= j < halves@.len() && entry_covers(
                                                (#[trigger] halves@[j])@,
                                                a,
                                            );
                                        assert(pre_h[j] == halves@[j]);
                                        assert(batch_covers(pre_h, a));
                                    }
                                }
                                assert forall|a: u32|
                                    (ops_covers(pre_o, a) || batch_covers(pre_h, a))
                                        implies ops_covers(ops@, a) || batch_covers(
                                        halves@,
                                        a,
                                    ) by {
                                    lemma_ops_covers_push(pre_o, Op::Ins { entry: h }, a);
                                    if batch_covers(pre_h, a) {
                                        let j = choose|j: int|
                                            0 <= j < pre_h.len() && entry_covers(
                                                (#[trigger] pre_h[j])@,
                                                a,
                                            );
                                        if j < pre_h.len() - 1 {
                                            assert(halves@[j] == pre_h[j]);
                                            assert(batch_covers(halves@, a));
                                        } else {
                                            assert(op_covers(Op::Ins { entry: h }, a));
                                        }
                                    }
                                }
                            }
                        }
                        proof {
                            assert(net_views(halves@) =~= Seq::<NetworkV>::empty());
                            assert(halves@.len() == 0);
                            assert forall|a: u32| !batch_covers(halves@, a) by {
                            }
                            assert forall|a: u32| covers_addr(self@, p, a) || ops_covers(
                                ops@,
                                a,
                            ) implies covers_addr(t0, p, a) || ops_covers(ops0, a) by {
                                if covers_addr(self@, p, a) {
                                    assert(covers_addr(pre, p, a));
                                } else {
                                    assert(ops_covers(wd_ops, a) || batch_covers(h0, a));
                                    if batch_covers(h0, a) {
                                        assert(covers_addr(pre, p, a));
                                    }
                                }
                            }
                            // Whatever was reachable stays reachable:
                            // coverage removed with the split entry is
                            // queued for re-insertion, and the withdrawn
                            // block is restored by the paired insert.
                            let mwd = digit_of(netmask);
                            assert forall|a: u32|
                                #![trigger covers_addr(t0, p, a)]
                                #![trigger ops_covers(ops0, a)]
                                (covers_addr(t0, p, a) || ops_covers(ops0, a))
                                    implies covers_addr(self@, p, a) || ops_covers(
                                ops@,
                                a,
                            ) by {
                                assert(covers_addr(pre, p, a) || ops_covers(pre_ops, a));
                                if covers_addr(pre, p, a) {
                                    if !covers_addr(self@, p, a) {
                                        if prefix_val(a, mwd) != prefix_val(network, mwd) {
                                            assert(batch_covers(h0, a));
                                            assert(ops_covers(ops@, a) || batch_covers(
                                                halves@,
                                                a,
                                            ));
                                        } else {
                                            let jp = choose|jp: int|
                                                0 <= jp < popped_ops.len() && op_covers_block(
                                                    #[trigger] popped_ops[jp],
                                                    network,
                                                    mwd,
                                                );
                                            lemma_block_cover_addr(
                                                popped_ops[jp],
                                                network,
                                                mwd,
                                                a,
                                            );
                                            assert(ops_covers(popped_ops, a));
                                            assert(ops_covers(wd_ops, a));
                                            assert(ops_covers(ops@, a) || batch_covers(
                                                halves@,
                                                a,
                                            ));
                                        }
                                    }
                                } else {
                                    assert(ops_covers(popped_ops, a) || op_covers(op, a));
                                    assert(ops_covers(popped_ops, a));
                                    assert(ops_covers(wd_ops, a));
                                    assert(ops_covers(ops@, a) || batch_covers(halves@, a));
                                }
                            }
                        }
                    }
                },
            }
        }
    }

    /// One disaggregation step: if some entry of `peer` covers the
    /// address `network`, remove it, re-insert the parts of it outside
    /// the withdrawn range, and report success; otherwise report that
    /// nothing is left to disaggregate.
    pub fn disaggregate(&mut self, network: u32, netmask: u32, peer: u32) -> (r: bool)
        requires
            old(self).wf(),
            valid_mask(netmask),
        ensures
            final(self).wf(),
            others(final(self)@, peer) == others(old(self)@, peer),
            !r ==> final(self)@ == old(self)@ && (forall|j: int|
                0 <= j < old(self)@.len() ==> !(#[trigger] old(self)@[j].peer == peer
                    && entry_covers(old(self)@[j], network))),
            r ==> phi(final(self)@) < phi(old(self)@) && covers_addr(old(self)@, peer, network),
            r ==> exists|i: int|
                0 <= i < old(self)@.len() && (#[trigger] old(self)@[i]).peer == peer
                    && entry_covers(old(self)@[i], network) && (entry_digit(old(self)@[i])
                    >= digit_of(netmask) ==> final(self)@ == old(self)@.remove(i)),
            forall|a: u32|
                #[trigger] covers_addr(final(self)@, peer, a) ==> covers_addr(
                    old(self)@,
                    peer,
                    a,
                ),
            forall|a: u32|
                #[trigger] covers_addr(old(self)@, peer, a) && prefix_val(a, digit_of(netmask))
                    != prefix_val(network, digit_of(netmask)) ==> covers_addr(
                    final(self)@,
                    peer,
                    a,
                ),
    {
        let r = self.take_covering(network, netmask, peer);
        let found = r.0;
        let mut halves = r.1;
        if !found {
            return false;
        }
        let ghost h0 = halves@;
        let mut ops: Vec<Op> = Vec::new();
        let ghost budget = phi(net_views(halves@));
        while halves.len() > 0
            invariant
                ops_wf(ops@, peer),
                entries_wf(halves@, peer),
                ops_paired(ops@),
                ops_weight(ops@) + phi(net_views(halves@)) == budget,
                ops@.len() + halves@.len() == h0.len(),
                forall|a: u32|
                    (ops_covers(ops@, a) || batch_covers(halves@, a)) ==> batch_covers(h0, a),
                forall|a: u32|
                    #[trigger] batch_covers(h0, a) ==> ops_covers(ops@, a) || batch_covers(
                        halves@,
                        a,
                    ),
            decreases halves.len(),
        {
            let ghost pre_h = halves@;
            let ghost pre_o = ops@;
            let h = halves.pop().unwrap();
            proof {
                assert(halves@ =~= pre_h.drop_last());
                assert(h == pre_h.last());
                assert(net_views(pre_h).drop_last() =~= net_views(halves@));
                assert(net_views(pre_h).last() == h@);
                lemma_ops_push(ops@, Op::Ins { entry: h });
                lemma_paired_push_ins(ops@, Op::Ins { entry: h });
            }
            ops.push(Op::Ins { entry: h });
            proof {
                assert forall|a: u32| (ops_covers(ops@, a) || batch_covers(halves@, a))
                    implies batch_covers(h0, a) by {
                    lemma_ops_covers_push(pre_o, Op::Ins { entry: h }, a);
                    if op_covers(Op::Ins { entry: h }, a) {
                        assert(entry_covers((pre_h.last())@, a));
                        assert(batch_covers(pre_h, a));
                    }
                    if batch_covers(halves@, a) {
                        let j = choose|j: int|
                            0 <= j < halves@.len() && entry_covers(
                                (#[trigger] halves@[j])@,
                                a,
                            );
                        assert(pre_h[j] == halves@[j]);
                        assert(batch_covers(pre_h, a));
                    }
                }
                assert forall|a: u32| #[trigger] batch_covers(h0, a) implies ops_covers(
                    ops@,
                    a,
                ) || batch_covers(halves@, a) by {
                    assert(ops_covers(pre_o, a) || batch_covers(pre_h, a));
                    lemma_ops_covers_push(pre_o, Op::Ins { entry: h }, a);
                    if batch_covers(pre_h, a) {
                        let j = choose|j: int|
                            0 <= j < pre_h.len() && entry_covers((#[trigger] pre_h[j])@, a);
                        if j < pre_h.len() - 1 {
                            assert(halves@[j] == pre_h[j]);
                            assert(batch_covers(halves@, a));
                        } else {
                            assert(op_covers(Op::Ins { entry: h }, a));
                        }
                    }
                }
            }
        }
        proof {
            assert(net_views(halves@) =~= Seq::<NetworkV>::empty());
        }
        let ghost mid = self@;
        let ghost built_ops = ops@;
        self.run_ops(ops, Ghost(peer));
        proof {
            let i = choose|i: int|
                0 <= i < old(self)@.len() && (#[trigger] old(self)@[i]).peer == peer
                    && entry_covers(old(self)@[i], network) && (entry_digit(old(self)@[i])
                    >= digit_of(netmask) ==> mid == old(self)@.remove(i) && h0.len() == 0);
            assert(entry_digit(old(self)@[i]) >= digit_of(netmask) ==> final(self)@
                == old(self)@.remove(i));
            assert forall|a: u32| #[trigger] covers_addr(final(self)@, peer, a)
                implies covers_addr(old(self)@, peer, a) by {
                if !covers_addr(mid, peer, a) {
                    assert(ops_covers(built_ops, a));
                    assert(batch_covers(h0, a));
                }
            }
            let mwd = digit_of(netmask);
            assert forall|a: u32|
                #[trigger] covers_addr(old(self)@, peer, a) && prefix_val(a, mwd)
                    != prefix_val(network, mwd) implies covers_addr(final(self)@, peer, a) by {
                assert(covers_addr(mid, peer, a) || batch_covers(h0, a));
                if batch_covers(h0, a) {
                    assert(ops_covers(built_ops, a) || batch_covers(Seq::<Network>::empty(), a));
                    assert(covers_addr(mid, peer, a) || ops_covers(built_ops, a));
                } else {
                    assert(covers_addr(mid, peer, a) || ops_covers(built_ops, a));
                }
            }
        }
        true
    }

    /// Withdraw the range `(network, netmask)` as announced by `peer`:
    /// disaggregate until no entry of that neighbor covers the address.
    /// Entries of other neighbors are untouched; a withdrawal with no
    /// matching entry is a no-op.
    pub fn withdraw(&mut self, network: u32, netmask: u32, peer: u32)
        requires
            old(self).wf(),
            valid_mask(netmask),
        ensures
            final(self).wf(),
            others(final(self)@, peer) == others(old(self)@, peer),
            phi(final(self)@) <= phi(old(self)@),
            forall|j: int|
                0 <= j < final(self)@.len() ==> !(#[trigger] final(self)@[j].peer == peer
                    && entry_covers(final(self)@[j], network)),
            (forall|j: int|
                0 <= j < old(self)@.len() ==> !(#[trigger] old(self)@[j].peer == peer
                    && entry_covers(old(self)@[j], network))) ==> final(self)@ == old(self)@,
            forall|i: int|
                #[trigger] sole_cover(old(self)@, peer, network, digit_of(netmask), i)
                    ==> final(self)@ == old(self)@.remove(i),
            forall|a: u32|
                #[trigger] covers_addr(final(self)@, peer, a) ==> covers_addr(
                    old(self)@,
                    peer,
                    a,
                ),
            forall|a: u32|
                #[trigger] covers_addr(old(self)@, peer, a) && prefix_val(a, digit_of(netmask))
                    != prefix_val(network, digit_of(netmask)) ==> covers_addr(
                    final(self)@,
                    peer,
                    a,
                ),
    {
        let ghost t0 = self@;
        let ghost m = digit_of(netmask);
        let mut more = self.disaggregate(network, netmask, peer);
        if !more {
            proof {
                assert forall|i: int| #[trigger] sole_cover(t0, peer, network, m, i)
                    implies self@ == t0.remove(i) by {
                    assert(t0[i].peer == peer && entry_covers(t0[i], network));
                    assert(false);
                }
            }
            return ;
        }
        proof {
            let i0 = choose|i: int|
                0 <= i < t0.len() && t0[i].peer == peer && entry_covers(#[trigger] t0[i], network);
            assert(t0[i0].peer == peer && entry_covers(t0[i0], network));
            assert forall|i: int| #[trigger] sole_cover(t0, peer, network, m, i)
                implies self@ == t0.remove(i) by {
                let iw = choose|iw: int|
                    0 <= iw < t0.len() && (#[trigger] t0[iw]).peer == peer && entry_covers(
                        t0[iw],
                        network,
                    ) && (entry_digit(t0[iw]) >= m ==> self@ == t0.remove(iw));
                assert(iw == i);
            }
        }
        while more
            invariant
                self.wf(),
                valid_mask(netmask),
                m == digit_of(netmask),
                others(self@, peer) == others(t0, peer),
                phi(self@) <= phi(t0),
                !more ==> forall|j: int|
                    0 <= j < self@.len() ==> !(#[trigger] self@[j].peer == peer && entry_covers(
                        self@[j],
                        network,
                    )),
                forall|i: int|
                    #[trigger] sole_cover(t0, peer, network, m, i) ==> self@ == t0.remove(i),
                forall|a: u32|
                    #[trigger] covers_addr(self@, peer, a) ==> covers_addr(t0, peer, a),
                forall|a: u32|
                    #[trigger] covers_addr(t0, peer, a) && prefix_val(a, m) != prefix_val(
                        network,
                        m,
                    ) ==> covers_addr(self@, peer, a),
            decreases 2 * phi(self@) + (if more {
                1int
            } else {
                0int
            }),
        {
            let ghost pre = self@;
            more = self.disaggregate(network, netmask, peer);
            proof {
                assert forall|i: int| #[trigger] sole_cover(t0, peer, network, m, i)
                    implies self@ == t0.remove(i) by {
                    assert(pre == t0.remove(i));
                    t0.remove_ensures(i);
                    assert forall|j: int|
                        0 <= j < pre.len() implies !(#[trigger] pre[j].peer == peer
                        && entry_covers(pre[j], network)) by {
                        if j < i {
                            assert(pre[j] == t0[j]);
                        } else {
                            assert(pre[j] == t0[j + 1]);
                        }
                    }
                    assert(self@ == pre);
                }
            }
        }
    }

    /// Insert a route entry announced by its neighbor. Any coverage of
    /// the same range previously announced by that neighbor is withdrawn
    /// first, so a re-announcement replaces rather than duplicates; the
    /// entry is then merged with adjacent equal-attribute entries as far
    /// as possible. The table stays fully aggregated, entries of other
    /// neighbors are untouched, and afterwards some entry of the
    /// neighbor with the same attributes covers the announced range.
    pub fn update(&mut self, new_net: Network)
        requires
            old(self).wf(),
            entry_wf(new_net@),
        ensures
            final(self).wf(),
            others(final(self)@, new_net@.peer) == others(old(self)@, new_net@.peer),
            phi(final(self)@) <= phi(old(self)@) + weight(new_net@),
            exists|i: int|
                0 <= i < final(self)@.len() && subsumes(#[trigger] final(self)@[i], new_net@),
            (!covers_addr(old(self)@, new_net@.peer, new_net@.network) && (forall|j: int|
                0 <= j < old(self)@.len() ==> !aggregable(old(self)@[j], new_net@)))
                ==> final(self)@ == old(self)@.push(new_net@),
            forall|i: int|
                #[trigger] sole_cover(
                    old(self)@,
                    new_net@.peer,
                    new_net@.network,
                    entry_digit(new_net@),
                    i,
                ) && (forall|j: int|
                    0 <= j < old(self)@.len() && j != i ==> !aggregable(
                        old(self)@[j],
                        new_net@,
                    )) ==> final(self)@ == old(self)@.remove(i).push(new_net@),
            forall|a: u32|
                #[trigger] covers_addr(final(self)@, new_net@.peer, a) <==> covers_addr(
                    old(self)@,
                    new_net@.peer,
                    a,
                ) || entry_covers(new_net@, a),
    {
        let network = new_net.network;
        let netmask = new_net.netmask;
        let peer = new_net.peer;
        proof {
            if !covers_addr(old(self)@, peer, network) {
                assert forall|j: int|
                    0 <= j < self@.len() implies !(#[trigger] self@[j].peer == peer
                    && entry_covers(self@[j], network)) by {
                    if self@[j].peer == peer && entry_covers(self@[j], network) {
                        assert(covers_addr(self@, peer, network));
                    }
                }
            }
        }
        let ghost t0 = self@;
        self.withdraw(network, netmask, peer);
        let ghost mid = self@;
        self.insert_aggregated(new_net);
        proof {
            let ghost ev = new_net@;
            let ghost m = digit_of(netmask);
            assert forall|a: u32| #[trigger] covers_addr(self@, peer, a) implies covers_addr(
                t0,
                peer,
                a,
            ) || entry_covers(ev, a) by {
                if !entry_covers(ev, a) {
                    assert(covers_addr(mid, peer, a) || entry_covers(ev, a));
                    assert(covers_addr(mid, peer, a));
                    assert(covers_addr(t0, peer, a));
                }
            }
            assert forall|a: u32| covers_addr(t0, peer, a) || entry_covers(ev, a)
                implies #[trigger] covers_addr(self@, peer, a) by {
                if entry_covers(ev, a) {
                    assert(covers_addr(mid, peer, a) || entry_covers(ev, a));
                    assert(covers_addr(self@, peer, a));
                } else {
                    assert(covers_addr(t0, peer, a));
                    assert(prefix_val(a, m) != prefix_val(network, m));
                    assert(covers_addr(mid, peer, a));
                    assert(covers_addr(mid, peer, a) || entry_covers(ev, a));
                    assert(covers_addr(self@, peer, a));
                }
            }
            assert forall|i: int|
                #[trigger] sole_cover(t0, peer, network, entry_digit(new_net@), i) && (forall|
                    j: int,
                |
                    0 <= j < t0.len() && j != i ==> !aggregable(t0[j], new_net@))
                implies self@ == t0.remove(i).push(new_net@) by {
                assert(entry_digit(t0[i]) >= digit_of(netmask));
                assert(mid == t0.remove(i));
                t0.remove_ensures(i);
                assert forall|j: int| 0 <= j < mid.len() implies !aggregable(
                    #[trigger] mid[j],
                    new_net@,
                ) by {
                    if j < i {
                        assert(mid[j] == t0[j]);
                    } else {
                        assert(mid[j] == t0[j + 1]);
                    }
                }
            }
        }
    }
}

/// Announcing a route that nothing in the table covers or merges with,
/// and then withdrawing it, restores the table that existed before the
/// announcement. The provisos are what the restoration needs: an entry
/// whose range the same neighbor already covered would be replaced, not
/// restored, and one that aggregated with an existing entry leaves the
/// merged form behind.
pub fn update_then_withdraw_restores(t: &mut Table, e: Network)
    requires
        old(t).wf(),
        entry_wf(e@),
        !covers_addr(old(t)@, e@.peer, e@.network),
        forall|j: int| 0 <= j < old(t)@.len() ==> !aggregable(old(t)@[j], e@),
    ensures
        final(t).wf(),
        final(t)@ == old(t)@,
{
    let ghost t0 = t@;
    let network = e.network;
    let netmask = e.netmask;
    let peer = e.peer;
    let ghost ev = e@;
    t.update(e);
    proof {
        assert(t@ == t0.push(ev));
        t0.push(ev).remove_ensures(t0.len() as int);
        assert(sole_cover(t0.push(ev), peer, network, digit_of(netmask), t0.len() as int)) by {
            assert forall|j: int|
                0 <= j < t0.push(ev).len() && j != t0.len() implies !((#[trigger] t0.push(
                ev,
            )[j]).peer == peer && entry_covers(t0.push(ev)[j], network)) by {
                assert(t0.push(ev)[j] == t0[j]);
                if t0[j].peer == peer && entry_covers(t0[j], network) {
                    assert(covers_addr(t0, peer, network));
                }
            }
        }
    }
    t.withdraw(network, netmask, peer);
    proof {
        assert(t@ == t0.push(ev).remove(t0.len() as int));
        assert(t@ =~= t0);
    }
}

/// Announcing the same route twice leaves the table exactly as one
/// announcement does: a re-announcement replaces its own earlier entry.
/// The provisos match those of the restoration law above.
pub fn update_is_idempotent(t: &mut Table, e: Network)
    requires
        old(t).wf(),
        entry_wf(e@),
        !covers_addr(old(t)@, e@.peer, e@.network),
        forall|j: int| 0 <= j < old(t)@.len() ==> !aggregable(old(t)@[j], e@),
    ensures
        final(t).wf(),
        final(t)@ == old(t)@.push(e@),
{
    let ghost t0 = t@;
    let ghost ev = e@;
    let first = Network {
        peer: e.peer,
        network: e.network,
        netmask: e.netmask,
        localpref: e.localpref,
        self_origin: e.self_origin,
        as_path: copy_path(&e.as_path),
        origin: e.origin,
    };
    proof {
        assert(first@ =~= ev);
    }
    t.update(first);
    proof {
        assert(t@ == t0.push(ev));
        t0.push(ev).remove_ensures(t0.len() as int);
        assert(sole_cover(t0.push(ev), ev.peer, ev.network, entry_digit(ev), t0.len() as int))
            by {
            assert forall|j: int|
                0 <= j < t0.push(ev).len() && j != t0.len() implies !((#[trigger] t0.push(
                ev,
            )[j]).peer == ev.peer && entry_covers(t0.push(ev)[j], ev.network)) by {
                assert(t0.push(ev)[j] == t0[j]);
                if t0[j].peer == ev.peer && entry_covers(t0[j], ev.network) {
                    assert(covers_addr(t0, ev.peer, ev.network));
                }
            }
        }
        assert forall|j: int|
            0 <= j < t0.push(ev).len() && j != t0.len() implies !aggregable(
            t0.push(ev)[j],
            ev,
        ) by {
            assert(t0.push(ev)[j] == t0[j]);
        }
    }
    t.update(e);
    proof {
        assert(t@ == t0.push(ev).remove(t0.len() as int).push(ev));
        assert(t0.push(ev).remove(t0.len() as int) =~= t0);
    }
}

/// Route selection failed: no entry matches the destination.
#[derive(Clone, Copy, Debug, PartialEq, Eq, Structural)]
pub enum RouteError {
    NoRoute,
}

/// The decision cascade: `a` is strictly preferred to `b` when the first
/// discriminator that separates them favors `a` — longest prefix, then
/// highest local preference, then locally-originated routes, then the
/// shortest path, then the best origin, then the lowest neighbor address.
pub open spec fn better(a: NetworkV, b: NetworkV) -> bool {
    if entry_digit(a) != entry_digit(b) {
        entry_digit(a) > entry_digit(b)
    } else if a.localpref != b.localpref {
        a.localpref > b.localpref
    } else if a.self_origin != b.self_origin {
        a.self_origin
    } else if a.as_path.len() != b.as_path.len() {
        a.as_path.len() < b.as_path.len()
    } else if origin_rank(a.origin) != origin_rank(b.origin) {
        origin_rank(a.origin) > origin_rank(b.origin)
    } else {
        a.peer < b.peer
    }
}

/// Entry `i` covers the destination and survives the decision cascade
/// against every other covering entry.
pub open spec fn best_candidate(t: Seq<NetworkV>, dst: u32, i: int) -> bool {
    0 <= i < t.len() && entry_covers(t[i], dst) && (forall|j: int|
        0 <= j < t.len() && entry_covers(#[trigger] t[j], dst) ==> !better(t[j], t[i]))
}

/// The preference order is transitive.
pub proof fn lemma_better_trans(a: NetworkV, b: NetworkV, c: NetworkV)
    requires
        better(a, b),
        better(b, c),
    ensures
        better(a, c),
{
}

/// A routing table never holds two entries that could be merged: it is
/// always fully aggregated.
pub proof fn lemma_table_fully_aggregated(s: Seq<NetworkV>, i: int, j: int)
    requires
        table_wf(s),
        0 <= i < s.len(),
        0 <= j < s.len(),
        i != j,
    ensures
        !aggregable(s[i], s[j]),
{
}

/// Every entry of a well-formed table has its host bits clear.
pub proof fn lemma_table_no_host_bits(s: Seq<NetworkV>, i: int)
    requires
        table_wf(s),
        0 <= i < s.len(),
    ensures
        s[i].network & !s[i].netmask == 0,
{
    lemma_no_host_bits(s[i]);
}

/// A well-formed entry has no host bits set below its netmask.
pub proof fn lemma_no_host_bits(e: NetworkV)
    requires
        entry_wf(e),
    ensures
        e.network & !e.netmask == 0,
{
    let k = entry_digit(e);
    lemma_aligned_iff_masked(e.network, k);
    let n = e.network;
    let m = e.netmask;
    assert(n & m == n);
    assert(n & !m == 0) by (bit_vector)
        requires
            n & m == n,
    ;
}

/// The preference rank of an origin attribute, as a value.
fn origin_value(o: Origin) -> (r: u32)
    ensures
        r == origin_rank(o),
{
    match o {
        Origin::IGP => 3,
        Origin::EGP => 2,
        Origin::UNK => 1,
    }
}

/// Whether route `a` is strictly preferred to route `b`.
fn better_route(a: &Network, b: &Network) -> (r: bool)
    requires
        entry_wf(a@),
        entry_wf(b@),
    ensures
        r == better(a@, b@),
{
    let ka = netmask_digit(a.netmask);
    let kb = netmask_digit(b.netmask);
    if ka != kb {
        return ka > kb;
    }
    if a.localpref != b.localpref {
        return a.localpref > b.localpref;
    }
    if a.self_origin != b.self_origin {
        return a.self_origin;
    }
    if a.as_path.len() != b.as_path.len() {
        return a.as_path.len() < b.as_path.len();
    }
    let ra = origin_value(a.origin);
    let rb = origin_value(b.origin);
    if ra != rb {
        return ra > rb;
    }
    a.peer < b.peer
}

impl Table {
    /// The neighbor through which to reach `dst`: the peer of the entry
    /// that covers `dst` and survives the decision cascade against every
    /// other covering entry. On an empty table, or when nothing covers
    /// the destination, route selection fails with `NoRoute`.
    pub fn best_route(&self, dst: u32) -> (r: Result<u32, RouteError>)
        requires
            self.wf(),
        ensures
            match r {
                Ok(peer) => exists|i: int|
                    #[trigger] best_candidate(self@, dst, i) && self@[i].peer == peer,
                Err(e) => e == RouteError::NoRoute && (forall|j: int|
                    0 <= j < self@.len() ==> !entry_covers(#[trigger] self@[j], dst)),
            },
    {
        let n = self.table.len();
        let mut best: usize = 0;
        let mut have: bool = false;
        let mut i: usize = 0;
        while i < n
            invariant
                n == self.table.len(),
                i <= n,
                self.wf(),
                have ==> best < i && entry_covers(self@[best as int], dst) && (forall|j: int|
                    0 <= j < i && entry_covers(#[trigger] self@[j], dst) ==> !better(
                        self@[j],
                        self@[best as int],
                    )),
                !have ==> forall|j: int| 0 <= j < i ==> !entry_covers(#[trigger] self@[j], dst),
            decreases n - i,
        {
            proof {
                assert(self@[i as int] == self.table@[i as int]@);
                let e = self@[i as int];
                lemma_match_iff_same_block(e.network, entry_digit(e), dst);
            }
            let row = &self.table[i];
            if check_match(row.network, row.netmask, dst) {
                if !have {
                    best = i;
                    have = true;
                } else if better_route(&self.table[i], &self.table[best]) {
                    let ghost ob = self@[best as int];
                    let ghost ne = self@[i as int];
                    proof {
                        assert forall|j: int|
                            0 <= j < i + 1 && entry_covers(#[trigger] self@[j], dst)
                                implies !better(self@[j], ne) by {
                            if j < i && better(self@[j], ne) {
                                lemma_better_trans(self@[j], ne, ob);
                            }
                        }
                    }
                    best = i;
                }
            }
            i = i + 1;
        }
        if have {
            proof {
                assert(self@[best as int] == self.table@[best as int]@);
                assert(best_candidate(self@, dst, best as int));
            }
            Ok(self.table[best].peer)
        } else {
            Err(RouteError::NoRoute)
        }
    }
}

} // verus!
