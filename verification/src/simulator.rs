use vstd::prelude::*;

use crate::nics::{
    declared_nics, group_count, groups_below, groups_sorted, has_group, ids_match,
    lemma_group_count_extend, lemma_group_count_zero, lemma_group_count_congruent,
    same_but_latency, same_static, unlinked, LinkId, Nic, NicAllocator, NicId, Nics, NicsMut,
};
use crate::message::Mailbox;
use crate::node::Node;

verus! {

/// Bounds of one node's contiguous block inside a store: every interface in
/// `[a, b)` is owned by node `g`, and none outside is.
pub open spec fn group_bounds(s: Seq<Nic>, a: int, b: int, g: u64) -> bool {
    &&& 0 <= a <= b <= s.len()
    &&& forall|i: int| a <= i < b ==> (#[trigger] s[i]).group == g
    &&& forall|i: int| 0 <= i < a ==> (#[trigger] s[i]).group != g
    &&& forall|i: int| b <= i < s.len() ==> (#[trigger] s[i]).group != g
}

/// Whether link pair `p` has interface `nic` at either end.
pub open spec fn touches(p: (NicId, NicId), nic: NicId) -> bool {
    p.0 == nic || p.1 == nic
}

/// The link identity the finalize step assigns to interface `nic`: the
/// position of the last registered link that has `nic` at either end.
pub open spec fn link_of(links: Seq<(NicId, NicId)>, nic: NicId) -> Option<LinkId>
    decreases links.len(),
{
    if links.len() == 0 {
        None
    } else if touches(links.last(), nic) {
        Some((links.len() - 1) as LinkId)
    } else {
        link_of(links.drop_last(), nic)
    }
}

/// `link_of` points at a link that really has `nic` at an end, and at the
/// last such; `None` means no registered link touches `nic`.
pub proof fn lemma_link_of(links: Seq<(NicId, NicId)>, nic: NicId)
    requires
        links.len() <= u64::MAX,
    ensures
        match link_of(links, nic) {
            Some(l) => {
                &&& 0 <= l < links.len()
                &&& touches(links[l as int], nic)
                &&& forall|k: int| l < k < links.len() ==> !touches(#[trigger] links[k], nic)
            },
            None => forall|k: int| 0 <= k < links.len() ==> !touches(#[trigger] links[k], nic),
        },
    decreases links.len(),
{
    if links.len() > 0 && !touches(links.last(), nic) {
        lemma_link_of(links.drop_last(), nic);
        assert(forall|k: int|
            0 <= k < links.len() - 1 ==> #[trigger] links[k] == links.drop_last()[k]);
    }
}

/// One more registered link either claims `nic` for itself or leaves its
/// assignment unchanged.
pub proof fn lemma_link_of_take(links: Seq<(NicId, NicId)>, k: int, nic: NicId)
    requires
        0 <= k < links.len(),
    ensures
        link_of(links.take(k + 1), nic) == if touches(links[k], nic) {
            Some(k as LinkId)
        } else {
            link_of(links.take(k), nic)
        },
{
    assert(links.take(k + 1).last() == links[k]);
    assert(links.take(k + 1).drop_last() =~= links.take(k));
}

/// An interface as the finalize step leaves it: carrying the identity of
/// the last registered link that touches it, or untouched if none does.
pub open spec fn filled(n: Nic, links: Seq<(NicId, NicId)>) -> Nic {
    match link_of(links, n.id) {
        Some(l) => Nic { link_id: Some(l), ..n },
        None => n,
    }
}

/// Finalizing is idempotent while the link registry is unchanged: filling
/// an interface that is already filled changes nothing.
pub proof fn lemma_filled_idempotent(n: Nic, links: Seq<(NicId, NicId)>)
    ensures
        filled(filled(n, links), links) == filled(n, links),
{
    assert(filled(n, links).id == n.id);
}

/// Every registered link pairs two interfaces that exist in a store of
/// `n` interfaces.
pub open spec fn links_valid(links: Seq<(NicId, NicId)>, n: int) -> bool {
    forall|l: int|
        0 <= l < links.len() ==> (#[trigger] links[l]).0 < n && links[l].1 < n
}

/// Bounds of the contiguous block of interfaces owned by `node`, or `None`
/// if the node owns none.
pub fn slice_bounds(nics: &Vec<Nic>, node: usize) -> (r: Option<(usize, usize)>)
    requires
        groups_sorted(nics@),
    ensures
        match r {
            Some(bounds) => bounds.0 < bounds.1 && group_bounds(
                nics@,
                bounds.0 as int,
                bounds.1 as int,
                node as u64,
            ),
            None => !has_group(nics@, node as u64),
        },
{
    let n = nics.len();
    let g = node as u64;
    let mut start: usize = 0;
    while start < n && nics[start].group != g
        invariant
            start <= n,
            n == nics@.len(),
            forall|i: int| 0 <= i < start ==> (#[trigger] nics@[i]).group != g,
        decreases n - start,
    {
        start = start + 1;
    }
    if start == n {
        return None;
    }
    let mut end: usize = start + 1;
    while end < n && nics[end].group == g
        invariant
            start < end <= n,
            n == nics@.len(),
            groups_sorted(nics@),
            forall|i: int| start <= i < end ==> (#[trigger] nics@[i]).group == g,
            forall|i: int| 0 <= i < start ==> (#[trigger] nics@[i]).group != g,
        decreases n - end,
    {
        end = end + 1;
    }
    proof {
        if end < nics@.len() {
            assert(nics@[end as int].group != g);
            assert forall|i: int| end <= i < nics@.len() implies (#[trigger] nics@[i]).group
                != g by {
                assert(nics@[end as int].group <= nics@[i].group);
                assert(nics@[start as int].group == g);
                assert(nics@[start as int].group <= nics@[end as int].group);
            };
        }
    }
    Some((start, end))
}

/// Owns the finalized interface population and the link registry, and
/// mediates scoped mutable access and whole-store read access over the one
/// backing store.
#[derive(Debug)]
pub struct Topology {
    hardware: Vec<Nic>,
    /// Registered links; full-duplex, unordered pairs of interface ids.
    /// A link's identity is its position here.
    links: Vec<(NicId, NicId)>,
    /// How many nodes declared the population.
    nodes: usize,
}

impl Topology {
    /// The interface population, in identity order.
    pub closed spec fn hw(&self) -> Seq<Nic> {
        self.hardware@
    }

    /// The link registry, in registration order.
    pub closed spec fn lks(&self) -> Seq<(NicId, NicId)> {
        self.links@
    }

    /// How many nodes own the population.
    pub closed spec fn node_count(&self) -> int {
        self.nodes as int
    }

    /// The store invariant: identities are positions, each node's block is
    /// contiguous and nonempty, owners are in range, and links pair
    /// existing interfaces.
    pub open spec fn wf(&self) -> bool {
        &&& ids_match(self.hw())
        &&& groups_sorted(self.hw())
        &&& forall|i: int|
            0 <= i < self.hw().len() ==> (#[trigger] self.hw()[i]).group < self.node_count()
        &&& forall|g: u64| g < self.node_count() ==> #[trigger] has_group(self.hw(), g)
        &&& links_valid(self.lks(), self.hw().len() as int)
        &&& self.lks().len() <= usize::MAX
    }

    /// Whether the finalize step has been reflected into every interface.
    pub open spec fn links_filled(&self) -> bool {
        forall|i: int|
            0 <= i < self.hw().len() ==> (#[trigger] self.hw()[i]).link_id == link_of(
                self.lks(),
                self.hw()[i].id,
            )
    }

    /// Whether an envelope sent from interface `from` has somewhere to go:
    /// the interface exists and carries an assigned link.
    pub open spec fn has_route(&self, from: NicId) -> bool {
        from < self.hw().len() && self.hw()[from as int].link_id is Some
    }

    /// The registry position of `from`'s assigned link.
    pub open spec fn route_link(&self, from: NicId) -> int {
        self.hw()[from as int].link_id.unwrap() as int
    }

    /// The interface at the far end of `from`'s assigned link.
    pub open spec fn route_peer(&self, from: NicId) -> NicId {
        let pair = self.lks()[self.route_link(from)];
        if pair.0 == from {
            pair.1
        } else {
            pair.0
        }
    }

    /// The node whose mailbox receives envelopes sent from `from`.
    pub open spec fn route_owner(&self, from: NicId) -> int {
        self.hw()[self.route_peer(from) as int].group as int
    }

    /// Take over a fixed, fully declared population of `nodes` nodes.
    pub(crate) fn new(hardware: Vec<Nic>, nodes: usize) -> (r: Self)
        requires
            ids_match(hardware@),
            groups_sorted(hardware@),
            forall|i: int| 0 <= i < hardware@.len() ==> (#[trigger] hardware@[i]).group < nodes,
            forall|g: u64| g < nodes ==> #[trigger] has_group(hardware@, g),
        ensures
            r.wf(),
            r.hw() == hardware@,
            r.lks() == Seq::<(NicId, NicId)>::empty(),
            r.node_count() == nodes,
    {
        let r = Self { hardware, links: Vec::with_capacity(nodes), nodes };
        proof {
            assert(r.links@ =~= Seq::<(NicId, NicId)>::empty());
        }
        r
    }

    /// Read-only view over the interfaces of one node: exactly its
    /// contiguous block.
    pub fn nics(&self, node: usize) -> (r: Nics<'_>)
        requires
            self.wf(),
            node < self.node_count(),
        ensures
            r.wf(),
            exists|a: int, b: int|
                {
                    &&& #[trigger] group_bounds(self.hw(), a, b, node as u64)
                    &&& r.view() == self.hw().subrange(a, b)
                },
    {
        let bounds = slice_bounds(&self.hardware, node);
        proof {
            if bounds is None {
                assert(has_group(self.hw(), node as u64));
            }
        }
        match bounds {
            Some((start, end)) => Nics::from_range(&self.hardware, start, end),
            None => {
                // Unreachable: the store invariant says every node in range
                // owns at least one interface.
                Nics::from_range(&self.hardware, 0, 0)
            },
        }
    }

    /// Read-only view over the whole population, for address resolution
    /// during link establishment.
    pub fn all_nics(&self) -> (r: Nics<'_>)
        ensures
            r.wf(),
            r.view() == self.hw(),
    {
        Nics::from_slice(&self.hardware)
    }

    /// The backing store itself, for scoped views.
    pub(crate) fn hardware_vec(&self) -> (r: &Vec<Nic>)
        ensures
            r@ == self.hw(),
    {
        &self.hardware
    }

    /// How many nodes own the population.
    pub fn node_total(&self) -> (r: usize)
        ensures
            r == self.node_count(),
    {
        self.nodes
    }

    /// The link registry, for inspection after setup.
    pub fn links(&self) -> (r: &Vec<(NicId, NicId)>)
        ensures
            r@ == self.lks(),
    {
        &self.links
    }

    /// Update one interface's latency in place; the one interface field a
    /// node may write during link establishment, always through its scoped
    /// view.
    pub(crate) fn set_latency(&mut self, index: usize, latency: Option<u64>)
        requires
            old(self).wf(),
            index < old(self).hw().len(),
        ensures
            final(self).wf(),
            final(self).lks() == old(self).lks(),
            final(self).node_count() == old(self).node_count(),
            final(self).hw() == old(self).hw().update(
                index as int,
                (Nic { latency, ..old(self).hw()[index as int] }),
            ),
    {
        self.hardware[index].latency = latency;
        proof {
            let s = old(self).hw();
            let t = self.hw();
            assert(forall|j: int| 0 <= j < s.len() && j != index ==> #[trigger] t[j] == s[j]);
            assert(t[index as int].id == s[index as int].id && t[index as int].group
                == s[index as int].group);
            assert forall|g: u64| g < self.node_count() implies #[trigger] has_group(t, g) by {
                assert(has_group(s, g));
                let w = choose|w: int| 0 <= w < s.len() && (#[trigger] s[w]).group == g;
                assert(t[w].group == g);
            };
        }
    }

    /// Register a pending link between two interfaces. The interfaces
    /// themselves are not touched until the finalize step, so registration
    /// order across nodes does not affect link visibility.
    pub(crate) fn link_nics(&mut self, nic1: NicId, nic2: NicId)
        requires
            old(self).wf(),
            nic1 < old(self).hw().len(),
            nic2 < old(self).hw().len(),
        ensures
            final(self).wf(),
            final(self).hw() == old(self).hw(),
            final(self).node_count() == old(self).node_count(),
            final(self).lks() == old(self).lks().push((nic1, nic2)),
    {
        self.links.push((nic1, nic2));
        let n_links = self.links.len();
        proof {
            assert(self.lks().len() == n_links as int);
        }
    }

    /// The finalize step: write every registered link's identity into both
    /// participant interfaces. Runs after every node's link establishment
    /// and before the run phase.
    pub(crate) fn fill_links(&mut self)
        requires
            old(self).wf(),
        ensures
            final(self).wf(),
            final(self).lks() == old(self).lks(),
            final(self).node_count() == old(self).node_count(),
            final(self).hw().len() == old(self).hw().len(),
            forall|i: int|
                0 <= i < old(self).hw().len() ==> final(self).hw()[i] == filled(
                    old(self).hw()[i],
                    old(self).lks(),
                ),
    {
        let ghost lks = self.links@;
        let ghost hw0 = self.hardware@;
        let n_links = self.links.len();
        let mut l: usize = 0;
        while l < n_links
            invariant
                l <= n_links,
                n_links == lks.len(),
                self.links@ == lks,
                self.nodes == old(self).node_count(),
                self.hardware@.len() == hw0.len(),
                links_valid(lks, hw0.len() as int),
                forall|i: int|
                    0 <= i < hw0.len() ==> #[trigger] self.hardware@[i] == filled(
                        hw0[i],
                        lks.take(l as int),
                    ),
                ids_match(hw0),
            decreases n_links - l,
        {
            let (a, b) = self.links[l];
            let ghost prev = self.hardware@;
            let hlen = self.hardware.len();
            proof {
                assert(lks[l as int] == (a, b));
                assert(a < hw0.len() && b < hw0.len());
                assert(hw0.len() == hlen as int);
            }
            let la = a as usize;
            let lb = b as usize;
            let lid = l as u64;
            self.hardware[la].link_id = Some(lid);
            self.hardware[lb].link_id = Some(lid);
            proof {
                assert forall|i: int| 0 <= i < hw0.len() implies #[trigger] self.hardware@[i]
                    == filled(hw0[i], lks.take(l + 1)) by {
                    lemma_link_of_take(lks, l as int, hw0[i].id);
                    assert(hw0[i].id as int == i);
                    assert(lks[l as int] == (a, b));
                    assert(a < hw0.len() && b < hw0.len());
                    assert(la as int == a as int && lb as int == b as int);
                    if i == la as int || i == lb as int {
                        assert(touches(lks[l as int], hw0[i].id));
                    } else {
                        assert(hw0[i].id != a && hw0[i].id != b);
                        assert(!touches(lks[l as int], hw0[i].id));
                        assert(self.hardware@[i] == prev[i]);
                    }
                };
            }
            l += 1;
        }
        proof {
            assert(lks.take(n_links as int) =~= lks);
            let t = self.hw();
            assert forall|i: int| 0 <= i < hw0.len() implies (#[trigger] t[i]).id == hw0[i].id
                && t[i].group == hw0[i].group by {
                assert(t[i] == filled(hw0[i], lks));
            };
            assert forall|g: u64| g < self.node_count() implies #[trigger] has_group(t, g) by {
                assert(has_group(hw0, g));
                let i = choose|i: int| 0 <= i < hw0.len() && (#[trigger] hw0[i]).group == g;
                assert(t[i].group == g);
            };
        }
    }
}

/// If some registered link touches `nic`, and no later one does, the
/// finalize step assigns `nic` exactly that link's position.
pub proof fn lemma_link_of_last_touch(links: Seq<(NicId, NicId)>, l: int, nic: NicId)
    requires
        links.len() <= u64::MAX,
        0 <= l < links.len(),
        touches(links[l], nic),
        forall|k: int| l < k < links.len() ==> !touches(#[trigger] links[k], nic),
    ensures
        link_of(links, nic) == Some(l as LinkId),
{
    lemma_link_of(links, nic);
    match link_of(links, nic) {
        Some(m) => {
            if (m as int) < l {
                assert(touches(links[l], nic));
            }
            if (m as int) > l {
                assert(!touches(links[m as int], nic));
            }
        },
        None => {
            assert(!touches(links[l], nic));
        },
    }
}

/// After the finalize step, a link request whose two interfaces appear in
/// no later request leaves both of them carrying the same link identity —
/// the request's registry position — and no other interface carries it.
/// This holds regardless of whether the peer's node had run its own link
/// establishment when the request was made: requests only reach interface
/// state through the one finalize step.
pub proof fn lemma_link_shared_identity(t: Topology, l: int)
    requires
        t.wf(),
        t.links_filled(),
        0 <= l < t.lks().len(),
        forall|k: int|
            l < k < t.lks().len() ==> !touches(#[trigger] t.lks()[k], t.lks()[l].0) && !touches(
                t.lks()[k],
                t.lks()[l].1,
            ),
    ensures
        t.hw()[t.lks()[l].0 as int].link_id == Some(l as LinkId),
        t.hw()[t.lks()[l].1 as int].link_id == Some(l as LinkId),
        forall|i: int|
            0 <= i < t.hw().len() && i != t.lks()[l].0 as int && i != t.lks()[l].1 as int
                ==> (#[trigger] t.hw()[i]).link_id != Some(l as LinkId),
{
    let a = t.lks()[l].0;
    let b = t.lks()[l].1;
    assert(a < t.hw().len() && b < t.hw().len());
    assert(t.hw()[a as int].id == a);
    assert(t.hw()[b as int].id == b);
    lemma_link_of_last_touch(t.lks(), l, a);
    lemma_link_of_last_touch(t.lks(), l, b);
    assert forall|i: int|
        0 <= i < t.hw().len() && i != a as int && i != b as int implies (#[trigger] t.hw()[i]).link_id
        != Some(l as LinkId) by {
        if t.hw()[i].link_id == Some(l as LinkId) {
            lemma_link_of(t.lks(), t.hw()[i].id);
            assert(link_of(t.lks(), t.hw()[i].id) == Some(l as LinkId));
            assert(touches(t.lks()[l], t.hw()[i].id));
            assert(t.hw()[i].id as int == i);
        }
    };
}

/// Whatever the request order across nodes, the identity scheme is the
/// registry position — injective and monotone over registration order.
/// Every identity an interface carries after the finalize step is a
/// position below the registry length, and the request at that position
/// has the interface at one of its ends: no stale or invented identities.
pub proof fn lemma_link_ids_positions(t: Topology)
    requires
        t.wf(),
        t.links_filled(),
    ensures
        forall|i: int|
            0 <= i < t.hw().len() && (#[trigger] t.hw()[i]).link_id is Some ==> {
                let l = t.hw()[i].link_id.unwrap() as int;
                0 <= l < t.lks().len() && touches(t.lks()[l], t.hw()[i].id)
            },
{
    assert forall|i: int|
        0 <= i < t.hw().len() && (#[trigger] t.hw()[i]).link_id is Some implies {
        let l = t.hw()[i].link_id.unwrap() as int;
        0 <= l < t.lks().len() && touches(t.lks()[l], t.hw()[i].id)
    } by {
        lemma_link_of(t.lks(), t.hw()[i].id);
    };
}

/// Identities assigned by the finalize step for `N` registered requests
/// are exactly `{0, …, N−1}`, one per request, with no gaps or repeats,
/// independent of the order nodes issued the requests: when no interface
/// appears in two requests, request `l`'s two interfaces carry exactly
/// identity `l`, and an interface in no request carries none.
pub proof fn lemma_link_ids_exact(t: Topology)
    requires
        t.wf(),
        t.links_filled(),
        forall|k1: int, k2: int|
            #![trigger t.lks()[k1], t.lks()[k2]]
            0 <= k1 < k2 < t.lks().len() ==> !touches(t.lks()[k2], t.lks()[k1].0) && !touches(
                t.lks()[k2],
                t.lks()[k1].1,
            ),
    ensures
        forall|l: int|
            0 <= l < t.lks().len() ==> t.hw()[(#[trigger] t.lks()[l]).0 as int].link_id == Some(
                l as LinkId,
            ) && t.hw()[t.lks()[l].1 as int].link_id == Some(l as LinkId),
        forall|i: int|
            0 <= i < t.hw().len() && (forall|k: int|
                0 <= k < t.lks().len() ==> !touches(#[trigger] t.lks()[k], t.hw()[i].id)) ==> (
            #[trigger] t.hw()[i]).link_id is None,
{
    assert forall|l: int|
        0 <= l < t.lks().len() implies t.hw()[(#[trigger] t.lks()[l]).0 as int].link_id == Some(
        l as LinkId,
    ) && t.hw()[t.lks()[l].1 as int].link_id == Some(l as LinkId) by {
        assert forall|k: int|
            l < k < t.lks().len() implies !touches(#[trigger] t.lks()[k], t.lks()[l].0)
            && !touches(t.lks()[k], t.lks()[l].1) by {
            assert(0 <= l < k < t.lks().len());
        };
        lemma_link_shared_identity(t, l);
    };
    assert forall|i: int|
        0 <= i < t.hw().len() && (forall|k: int|
            0 <= k < t.lks().len() ==> !touches(#[trigger] t.lks()[k], t.hw()[i].id)) implies (
    #[trigger] t.hw()[i]).link_id is None by {
        lemma_link_of(t.lks(), t.hw()[i].id);
    };
}

/// Failures that abort a whole simulation.
#[derive(Clone, Copy, PartialEq, Eq, Structural, Debug)]
pub enum SimErr {
    /// A node completed its declaration phase without declaring any
    /// interface; nothing past declaration runs.
    NodeNoHardware,
    /// A node's reaction logic reported it cannot continue; the run loop
    /// stops and surfaces the failure.
    NodeFailed,
    /// A node queued a message on an interface with no assigned link; the
    /// run loop stops rather than drop the message.
    SendFailed,
}

/// How many interfaces a list of nodes declares in total.
pub open spec fn total_hw<N: Node>(nodes: Seq<N>) -> nat
    decreases nodes.len(),
{
    if nodes.len() == 0 {
        0
    } else {
        total_hw(nodes.drop_last()) + nodes.last().declared().len()
    }
}

/// The store a list of nodes declares: each node's declared list in node
/// order, identities counted from zero.
pub open spec fn declared_store<N: Node>(nodes: Seq<N>) -> Seq<Nic>
    decreases nodes.len(),
{
    if nodes.len() == 0 {
        Seq::empty()
    } else {
        let prev = declared_store(nodes.drop_last());
        prev + declared_nics(nodes.last().declared(), prev.len() as int, (nodes.len() - 1) as u64)
    }
}

/// Where node `k`'s block starts in the declared store.
pub open spec fn block_lo<N: Node>(nodes: Seq<N>, k: int) -> int {
    declared_store(nodes.take(k)).len() as int
}

/// One past where node `k`'s block ends in the declared store.
pub open spec fn block_hi<N: Node>(nodes: Seq<N>, k: int) -> int {
    block_lo(nodes, k) + nodes[k].declared().len()
}

/// Every link request the nodes make during link establishment, in node
/// order: exactly the registry the setup phase produces.
pub open spec fn all_requests<N: Node>(nodes: Seq<N>, hw: Seq<Nic>) -> Seq<(NicId, NicId)>
    decreases nodes.len(),
{
    if nodes.len() == 0 {
        Seq::empty()
    } else {
        all_requests(nodes.drop_last(), hw) + nodes.last().links_requested(
            hw,
            block_lo(nodes, nodes.len() - 1),
            block_hi(nodes, nodes.len() - 1),
        )
    }
}

/// A node's nonempty block is unique: two bounds that both delimit node
/// `g`'s interfaces coincide.
pub proof fn lemma_group_bounds_unique(s: Seq<Nic>, a1: int, b1: int, a2: int, b2: int, g: u64)
    requires
        group_bounds(s, a1, b1, g),
        group_bounds(s, a2, b2, g),
        a1 < b1,
    ensures
        a1 == a2 && b1 == b2,
{
    assert(s[a1].group == g);
    if a1 < a2 {
        assert(s[a1].group != g);
    }
    if b2 <= a1 {
        assert(s[a1].group != g);
    }
    if a2 < a1 {
        assert(s[a2].group == g);
        assert(s[a2].group != g);
    }
    if b1 < b2 {
        assert(s[b1].group == g);
        assert(s[b1].group != g);
    }
    if b2 < b1 {
        assert(s[b2].group == g);
        assert(s[b2].group != g);
    }
}

/// How many scheduling ticks the run phase is given before it is cut off;
/// the externally chosen termination bound.
pub const TICK_LIMIT: u64 = 65536;

/// Drive every node through declaration and link establishment and
/// finalize the links, returning the populated store for inspection.
///
/// Succeeds exactly when every node declares at least one interface. On
/// success the store holds exactly the declared interfaces — identity,
/// owner and address pinned by the declarations, one contiguous block per
/// node — the link registry holds exactly the requests the nodes made,
/// and every registered link is reflected into its interfaces. On failure
/// no node has run link establishment: the nodes are exactly as handed in.
pub fn sim_setup<N: Node>(nodes: &mut Vec<N>) -> (r: Result<Topology, SimErr>)
    ensures
        r is Ok <==> (forall|k: int|
            0 <= k < old(nodes)@.len() ==> (#[trigger] old(nodes)@[k]).declared().len() >= 1),
        r is Err ==> r == Result::<Topology, SimErr>::Err(SimErr::NodeNoHardware) && final(nodes)@
            == old(nodes)@,
        final(nodes)@.len() == old(nodes)@.len(),
        r matches Ok(t) ==> {
            &&& t.wf()
            &&& t.links_filled()
            &&& t.node_count() == old(nodes)@.len()
            &&& t.hw().len() == total_hw(old(nodes)@)
            &&& t.hw().len() == declared_store(old(nodes)@).len()
            &&& forall|j: int|
                0 <= j < t.hw().len() ==> same_static(
                    #[trigger] t.hw()[j],
                    declared_store(old(nodes)@)[j],
                )
            &&& t.lks() == all_requests(old(nodes)@, declared_store(old(nodes)@))
            &&& forall|k: int|
                0 <= k < old(nodes)@.len() ==> #[trigger] group_count(t.hw(), k as u64) == old(
                    nodes,
                )@[k].declared().len()
        },
{
    let n = nodes.len();
    let mut alloc = NicAllocator::with_capacity(n);

    // Declaration phase: strictly in node order, one node fully completed
    // before the next begins.
    let mut i: usize = 0;
    while i < n
        invariant
            i <= n,
            n == nodes@.len(),
            nodes@ == old(nodes)@,
            alloc.wf(),
            alloc.group() == i as u64,
            groups_below(alloc.view(), i as u64),
            alloc.view() == declared_store(old(nodes)@.take(i as int)),
            alloc.view().len() == total_hw(old(nodes)@.take(i as int)),
            forall|k: int|
                0 <= k < i ==> #[trigger] group_bounds(
                    alloc.view(),
                    block_lo(old(nodes)@, k),
                    block_hi(old(nodes)@, k),
                    k as u64,
                ),
            forall|k: int|
                0 <= k < i ==> #[trigger] group_count(alloc.view(), k as u64) == old(
                    nodes,
                )@[k].declared().len(),
            forall|k: int| 0 <= k < i ==> (#[trigger] old(nodes)@[k]).declared().len() >= 1,
        decreases n - i,
    {
        let ghost pre = alloc.view();
        let node = &nodes[i];
        node.hardware(&mut alloc);
        let ghost cnt = old(nodes)@[i as int].declared().len();
        proof {
            assert(alloc.view().len() == pre.len() + cnt);
            assert forall|j: int|
                pre.len() <= j < alloc.view().len() implies (#[trigger] alloc.view()[j]).group
                == i as u64 by {
                assert(alloc.view()[j] == declared_nics(
                    old(nodes)@[i as int].declared(),
                    pre.len() as int,
                    i as u64,
                )[j - pre.len()]);
            };
            assert(pre.is_prefix_of(alloc.view())) by {
                assert(pre =~= alloc.view().subrange(0, pre.len() as int));
            };
        }
        match alloc.next_node() {
            Ok(()) => {},
            Err(_) => {
                proof {
                    if cnt >= 1 {
                        assert(alloc.view().last().group == i as u64);
                        assert(false);
                    }
                    assert(old(nodes)@[i as int].declared().len() == 0);
                }
                return Err(SimErr::NodeNoHardware);
            },
        }
        proof {
            lemma_group_count_zero(pre, i as u64);
            lemma_group_count_extend(pre, alloc.view(), i as u64);
            assert(group_count(alloc.view(), i as u64) == cnt);
            assert(old(nodes)@.take(i + 1).drop_last() =~= old(nodes)@.take(i as int));
            assert(old(nodes)@.take(i + 1).last() == old(nodes)@[i as int]);
            assert(alloc.view().len() == total_hw(old(nodes)@.take(i + 1)));
            assert(alloc.view() == declared_store(old(nodes)@.take(i + 1)));
            assert forall|j: int|
                0 <= j < alloc.view().len() implies (#[trigger] alloc.view()[j]).group < (i + 1)
                as u64 by {
                if j < pre.len() {
                    assert(pre[j].group < i as u64);
                }
            };
            // The new block is exactly node i's declared range, and every
            // earlier block is untouched by the extension.
            assert(old(nodes)@.take(i + 1).take(i as int) =~= old(nodes)@.take(i as int));
            assert(block_lo(old(nodes)@, i as int) == pre.len());
            assert forall|k: int|
                0 <= k < i + 1 implies #[trigger] group_bounds(
                alloc.view(),
                block_lo(old(nodes)@, k),
                block_hi(old(nodes)@, k),
                k as u64,
            ) by {
                if k < i {
                    assert(group_bounds(pre, block_lo(old(nodes)@, k), block_hi(old(nodes)@, k), k as u64));
                    assert forall|j: int|
                        block_hi(old(nodes)@, k) <= j < alloc.view().len() implies (
                    #[trigger] alloc.view()[j]).group != k as u64 by {
                        if j < pre.len() {
                            assert(pre[j].group != k as u64);
                        } else {
                            assert(alloc.view()[j].group == i as u64);
                        }
                    };
                } else {
                    assert(block_hi(old(nodes)@, i as int) == alloc.view().len());
                    assert forall|j: int|
                        0 <= j < pre.len() implies (#[trigger] alloc.view()[j]).group != i
                        as u64 by {
                        assert(pre[j].group < i as u64);
                    };
                }
            };
        }
        i += 1;
    }
    proof {
        assert(old(nodes)@.take(n as int) =~= old(nodes)@);
    }

    // The population is fixed from here on.
    let nics = alloc.to_vec();
    let mut topology = Topology::new(nics, n);
    let ghost hw_decl = topology.hw();

    // Link establishment: each node gets exclusive scoped write access to
    // its own block and read access to the whole store, one node at a time.
    let mut i: usize = 0;
    while i < n
        invariant
            i <= n,
            n == nodes@.len(),
            old(nodes)@.len() == n,
            topology.wf(),
            topology.node_count() == n,
            topology.hw().len() == hw_decl.len(),
            hw_decl == declared_store(old(nodes)@),
            forall|j: int|
                0 <= j < hw_decl.len() ==> same_but_latency(
                    #[trigger] topology.hw()[j],
                    hw_decl[j],
                ),
            unlinked(hw_decl),
            forall|j: int| i <= j < n ==> nodes@[j] == old(nodes)@[j],
            topology.lks() == all_requests(old(nodes)@.take(i as int), hw_decl),
            forall|k: int|
                0 <= k < n ==> #[trigger] group_bounds(
                    hw_decl,
                    block_lo(old(nodes)@, k),
                    block_hi(old(nodes)@, k),
                    k as u64,
                ),
            forall|k: int| 0 <= k < n ==> (#[trigger] old(nodes)@[k]).declared().len() >= 1,
        decreases n - i,
    {
        let ghost hw_pre = topology.hw();
        let ghost lks_pre = topology.lks();
        let ghost blo = block_lo(old(nodes)@, i as int);
        let ghost bhi = block_hi(old(nodes)@, i as int);
        let mut view = NicsMut::new(i, topology);
        proof {
            // The scoped view's bounds are exactly node i's declared block:
            // blocks are unique, and the store still delimits them the same
            // way because latency writes never touch the owner column.
            assert(group_bounds(hw_pre, blo, bhi, i as u64)) by {
                assert(group_bounds(hw_decl, blo, bhi, i as u64));
                assert(forall|j: int|
                    0 <= j < hw_decl.len() ==> (#[trigger] hw_pre[j]).group == hw_decl[j].group);
            };
            assert(blo < bhi);
            lemma_group_bounds_unique(hw_pre, blo, bhi, view.lo(), view.hi(), i as u64);
        }
        let ghost node_val = nodes@[i as int];
        let node = &mut nodes[i];
        node.startup(&mut view);
        topology = view.into_topology();
        proof {
            assert forall|j: int|
                0 <= j < hw_decl.len() implies same_but_latency(
                #[trigger] topology.hw()[j],
                hw_decl[j],
            ) by {
                assert(same_but_latency(hw_pre[j], hw_decl[j]));
                if topology.hw()[j] != hw_pre[j] {
                    assert(same_but_latency(topology.hw()[j], hw_pre[j]));
                }
            };
            // The registry grew by exactly node i's requests, which read
            // nothing latency can change.
            node_val.links_requested_latency_blind(hw_decl, hw_pre, blo, bhi);
            assert(node_val == old(nodes)@[i as int]);
            assert(topology.lks() == lks_pre + node_val.links_requested(hw_decl, blo, bhi));
            assert(old(nodes)@.take(i + 1).drop_last() =~= old(nodes)@.take(i as int));
            assert(old(nodes)@.take(i + 1).last() == old(nodes)@[i as int]);
            assert(old(nodes)@.take(i + 1).take(i as int) =~= old(nodes)@.take(i as int));
            assert(block_lo(old(nodes)@.take(i + 1), i as int) == blo);
            assert(block_hi(old(nodes)@.take(i + 1), i as int) == bhi);
            assert(topology.lks() == all_requests(old(nodes)@.take(i + 1), hw_decl));
        }
        i += 1;
    }
    proof {
        assert(old(nodes)@.take(n as int) =~= old(nodes)@);
    }

    // Finalize: reflect every registered link into both its interfaces,
    // exactly once, before the run phase.
    let ghost hw_linked = topology.hw();
    topology.fill_links();
    proof {
        let t = topology;
        assert forall|j: int|
            0 <= j < t.hw().len() implies (#[trigger] t.hw()[j]).link_id == link_of(
            t.lks(),
            t.hw()[j].id,
        ) by {
            assert(t.hw()[j] == filled(hw_linked[j], t.lks()));
            assert(same_but_latency(hw_linked[j], hw_decl[j]));
            assert(hw_linked[j].link_id is None);
        };
        assert forall|j: int|
            0 <= j < t.hw().len() implies same_static(#[trigger] t.hw()[j], hw_decl[j]) by {
            assert(t.hw()[j] == filled(hw_linked[j], t.lks()));
            assert(same_but_latency(hw_linked[j], hw_decl[j]));
        };
        assert forall|k: int|
            0 <= k < old(nodes)@.len() implies #[trigger] group_count(t.hw(), k as u64) == old(
            nodes,
        )@[k].declared().len() by {
            assert(forall|j: int|
                0 <= j < hw_decl.len() ==> (#[trigger] hw_decl[j]).group == t.hw()[j].group);
            lemma_group_count_congruent(hw_decl, t.hw(), k as u64);
        };
    }
    Ok(topology)
}

/// The full lifecycle: set the simulation up, then run the cooperative
/// scheduling loop until the system is quiescent, a node fails, a message
/// cannot be routed, or the tick budget runs out.
///
/// Returns Ok exactly when every node declares hardware: setup then
/// succeeds, the run phase starts with every mailbox empty and nothing
/// seeds them, so the loop goes quiescent. Setup failure surfaces as
/// `NodeNoHardware`, exactly when some node declares no interface.
pub fn run_sim<N: Node>(nodes: &mut Vec<N>) -> (r: Result<(), SimErr>)
    ensures
        r is Ok <==> (forall|k: int|
            0 <= k < old(nodes)@.len() ==> (#[trigger] old(nodes)@[k]).declared().len() >= 1),
        r == Result::<(), SimErr>::Err(SimErr::NodeNoHardware) <==> !(forall|k: int|
            0 <= k < old(nodes)@.len() ==> (#[trigger] old(nodes)@[k]).declared().len() >= 1),
{
    let topology = match sim_setup(nodes) {
        Ok(t) => t,
        Err(e) => {
            return Err(e);
        },
    };
    let n = nodes.len();
    let mut mailboxes: Vec<Mailbox> = Vec::new();
    while mailboxes.len() < n
        invariant
            mailboxes@.len() <= n,
            forall|j: int|
                0 <= j < mailboxes@.len() ==> (#[trigger] mailboxes@[j]).incoming_seq().len() == 0
                    && mailboxes@[j].outgoing_seq().len() == 0,
        decreases n - mailboxes@.len(),
    {
        mailboxes.push(Mailbox::new());
    }
    proof {
        assert(crate::scheduler::all_quiet(mailboxes@));
    }
    match crate::scheduler::run_loop(
        nodes,
        &topology,
        &mut mailboxes,
        TICK_LIMIT,
        crate::scheduler::FailurePolicy::Abort,
    ) {
        Ok(()) => Ok(()),
        Err(e) => Err(e),
    }
}

} // verus!
