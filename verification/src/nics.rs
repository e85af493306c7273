use vstd::prelude::*;

use crate::addr::HwAddr;
use crate::simulator::{group_bounds, slice_bounds, SimErr, Topology};

verus! {

/// Identity of a virtual network interface, assigned monotonically from zero.
pub type NicId = u64;

/// Index of the node that owns an interface; nodes are numbered in
/// declaration order.
pub type NicGroup = u64;

/// Identity of a full-duplex link between two interfaces, assigned
/// monotonically from zero by an independent counter.
pub type LinkId = u64;

/// A virtual network interface card.
///
/// Created during the declaration phase; `link_id` is written exactly once,
/// by the finalize step, and the interface is read-only thereafter.
#[derive(Clone, Copy, PartialEq, Eq, Structural, Debug)]
pub struct Nic {
    pub id: NicId,
    /// The node the interface belongs to.
    pub group: NicGroup,
    /// Hardware address, the rendezvous key for link establishment.
    pub mac: HwAddr,
    /// Optional per-interface latency, in scheduling ticks.
    pub latency: Option<u64>,
    /// The link this interface participates in, once links are finalized.
    pub link_id: Option<LinkId>,
}

/// The interface a freshly declared NIC starts as: next identity, current
/// owner, no link assigned yet.
pub open spec fn nic_decl(id: NicId, group: NicGroup, mac: HwAddr, latency: Option<u64>) -> Nic {
    Nic { id, group, mac, latency, link_id: None }
}

/// Every interface's identity equals its position in the store.
pub open spec fn ids_match(s: Seq<Nic>) -> bool {
    forall|i: int| 0 <= i < s.len() ==> (#[trigger] s[i]).id as int == i
}

/// Owners appear in nondecreasing order: each node's interfaces form one
/// contiguous block.
pub open spec fn groups_sorted(s: Seq<Nic>) -> bool {
    forall|i: int, j: int|
        0 <= i <= j < s.len() ==> #[trigger] s[i].group <= #[trigger] s[j].group
}

/// Every interface is owned by a node with index below `g`.
pub open spec fn groups_below(s: Seq<Nic>, g: u64) -> bool {
    forall|i: int| 0 <= i < s.len() ==> (#[trigger] s[i]).group < g
}

/// Every interface is owned by a node with index at most `g`.
pub open spec fn groups_at_most(s: Seq<Nic>, g: u64) -> bool {
    forall|i: int| 0 <= i < s.len() ==> (#[trigger] s[i]).group <= g
}

/// Some interface is owned by node `g`.
pub open spec fn has_group(s: Seq<Nic>, g: u64) -> bool {
    exists|i: int| 0 <= i < s.len() && (#[trigger] s[i]).group == g
}

/// No interface has been wired into a link yet.
pub open spec fn unlinked(s: Seq<Nic>) -> bool {
    forall|i: int| 0 <= i < s.len() ==> (#[trigger] s[i]).link_id is None
}

/// How many interfaces node `g` owns.
pub open spec fn group_count(s: Seq<Nic>, g: u64) -> nat
    decreases s.len(),
{
    if s.len() == 0 {
        0
    } else {
        group_count(s.drop_last(), g) + if s.last().group == g {
            1nat
        } else {
            0nat
        }
    }
}

/// `x` is `y` with at most its latency changed: identity, owner, address
/// and link assignment are untouched.
pub open spec fn same_but_latency(x: Nic, y: Nic) -> bool {
    x == (Nic { latency: x.latency, ..y })
}

/// `x` and `y` agree on everything declaration fixes for good: identity,
/// owner and address.
pub open spec fn same_static(x: Nic, y: Nic) -> bool {
    x.id == y.id && x.group == y.group && x.mac == y.mac
}

/// The interfaces a declaration list becomes: identities counted from
/// `base`, all owned by node `group`, nothing linked yet.
pub open spec fn declared_nics(d: Seq<(HwAddr, Option<u64>)>, base: int, group: u64) -> Seq<Nic> {
    Seq::new(d.len(), |j: int| nic_decl((base + j) as u64, group, d[j].0, d[j].1))
}

/// Some interface carries hardware address `m`.
pub open spec fn has_mac(s: Seq<Nic>, m: HwAddr) -> bool {
    exists|i: int| 0 <= i < s.len() && (#[trigger] s[i]).mac == m
}

/// Position of the first interface carrying hardware address `m`, if any.
pub open spec fn find_mac_spec(s: Seq<Nic>, m: HwAddr) -> Option<int>
    decreases s.len(),
{
    if s.len() == 0 {
        None
    } else if s[0].mac == m {
        Some(0int)
    } else {
        match find_mac_spec(s.drop_first(), m) {
            None => None,
            Some(i) => Some(i + 1),
        }
    }
}

/// `find_mac_spec` returns the position of the first match, and `None`
/// exactly when no interface carries the address.
pub proof fn lemma_find_mac_spec(s: Seq<Nic>, m: HwAddr)
    ensures
        match find_mac_spec(s, m) {
            Some(i) => {
                &&& 0 <= i < s.len()
                &&& s[i].mac == m
                &&& forall|j: int| 0 <= j < i ==> (#[trigger] s[j]).mac != m
            },
            None => !has_mac(s, m),
        },
    decreases s.len(),
{
    if s.len() > 0 && s[0].mac != m {
        lemma_find_mac_spec(s.drop_first(), m);
        match find_mac_spec(s.drop_first(), m) {
            Some(i) => {
                assert(forall|j: int|
                    1 <= j < i + 1 ==> (#[trigger] s[j]).mac == s.drop_first()[j - 1].mac);
            },
            None => {
                assert(!has_mac(s, m)) by {
                    assert(forall|j: int|
                        1 <= j < s.len() ==> (#[trigger] s[j]).mac == s.drop_first()[j - 1].mac);
                };
            },
        }
    }
}

/// Address lookup reads addresses only: stores that agree on every
/// interface's address, position for position, resolve alike.
pub proof fn lemma_find_mac_congruent(s: Seq<Nic>, t: Seq<Nic>, m: HwAddr)
    requires
        s.len() == t.len(),
        forall|i: int| 0 <= i < s.len() ==> (#[trigger] s[i]).mac == t[i].mac,
    ensures
        find_mac_spec(s, m) == find_mac_spec(t, m),
    decreases s.len(),
{
    if s.len() > 0 {
        assert(forall|i: int|
            0 <= i < s.len() - 1 ==> (#[trigger] s.drop_first()[i]).mac == t.drop_first()[i].mac);
        lemma_find_mac_congruent(s.drop_first(), t.drop_first(), m);
    }
}

/// Extending a store with interfaces that all belong to node `g` raises
/// node `g`'s count by the number added and leaves every other count alone.
pub proof fn lemma_group_count_extend(s: Seq<Nic>, t: Seq<Nic>, g: u64)
    requires
        s.is_prefix_of(t),
        forall|j: int| s.len() <= j < t.len() ==> (#[trigger] t[j]).group == g,
    ensures
        group_count(t, g) == group_count(s, g) + (t.len() - s.len()),
        forall|h: u64| h != g ==> #[trigger] group_count(t, h) == group_count(s, h),
    decreases t.len() - s.len(),
{
    if t.len() == s.len() {
        assert(t =~= s);
    } else {
        assert(s.is_prefix_of(t.drop_last())) by {
            assert(s =~= t.drop_last().subrange(0, s.len() as int));
        };
        lemma_group_count_extend(s, t.drop_last(), g);
        assert(t.last().group == g);
        assert forall|h: u64| h != g implies #[trigger] group_count(t, h) == group_count(
            s,
            h,
        ) by {
            assert(group_count(t, h) == group_count(t.drop_last(), h));
        };
    }
}

/// A node that owns no interface in the store has count zero.
pub proof fn lemma_group_count_zero(s: Seq<Nic>, g: u64)
    requires
        forall|i: int| 0 <= i < s.len() ==> (#[trigger] s[i]).group != g,
    ensures
        group_count(s, g) == 0,
    decreases s.len(),
{
    if s.len() > 0 {
        lemma_group_count_zero(s.drop_last(), g);
    }
}

/// Counts depend only on the owner column: two stores whose interfaces are
/// owned alike, position for position, count alike.
pub proof fn lemma_group_count_congruent(s: Seq<Nic>, t: Seq<Nic>, g: u64)
    requires
        s.len() == t.len(),
        forall|i: int| 0 <= i < s.len() ==> (#[trigger] s[i]).group == t[i].group,
    ensures
        group_count(s, g) == group_count(t, g),
    decreases s.len(),
{
    if s.len() > 0 {
        lemma_group_count_congruent(s.drop_last(), t.drop_last(), g);
    }
}

/// A read-only view over a contiguous range of the interface store.
///
/// The view is index-delimited, not reference-delimited: it can coexist with
/// any other view over the same backing store.
pub struct Nics<'a> {
    nics: &'a Vec<Nic>,
    start: usize,
    end: usize,
}

impl<'a> Nics<'a> {
    /// The interfaces visible through this view, in store order.
    pub closed spec fn view(&self) -> Seq<Nic> {
        self.nics@.subrange(self.start as int, self.end as int)
    }

    pub closed spec fn wf(&self) -> bool {
        self.start <= self.end <= self.nics@.len()
    }

    /// View over a whole store.
    pub(crate) fn from_slice(nics: &'a Vec<Nic>) -> (r: Nics<'a>)
        ensures
            r.wf(),
            r.view() == nics@,
    {
        let end = nics.len();
        let r = Nics { nics, start: 0, end };
        proof {
            assert(r.view() =~= nics@);
        }
        r
    }

    /// View over the range `start..end` of a store.
    pub(crate) fn from_range(nics: &'a Vec<Nic>, start: usize, end: usize) -> (r: Nics<'a>)
        requires
            start <= end <= nics@.len(),
        ensures
            r.wf(),
            r.view() == nics@.subrange(start as int, end as int),
    {
        Nics { nics, start, end }
    }

    /// The first interface in view carrying hardware address `mac`, if any.
    /// Returns `None` exactly when no interface in view has that address:
    /// an absent address is reported as absent, never as some default.
    pub fn find_mac(&self, mac: &HwAddr) -> (r: Option<&Nic>)
        requires
            self.wf(),
        ensures
            match r {
                Some(nic) => {
                    &&& find_mac_spec(self.view(), *mac) is Some
                    &&& *nic == self.view()[find_mac_spec(self.view(), *mac).unwrap()]
                },
                None => {
                    &&& find_mac_spec(self.view(), *mac) is None
                    &&& !has_mac(self.view(), *mac)
                },
            },
    {
        let ghost v = self.view();
        let mut i: usize = self.start;
        while i < self.end
            invariant
                self.wf(),
                v == self.view(),
                self.start <= i <= self.end,
                forall|j: int|
                    self.start <= j < i ==> (#[trigger] self.nics@[j]).mac != *mac,
            decreases self.end - i,
        {
            if self.nics[i].mac == *mac {
                proof {
                    lemma_find_mac_spec(v, *mac);
                    let k = i - self.start;
                    assert(v[k as int].mac == *mac);
                    assert(forall|j: int| 0 <= j < k ==> (#[trigger] v[j]).mac != *mac);
                    assert(find_mac_spec(v, *mac) == Some(k as int)) by {
                        if find_mac_spec(v, *mac) is None {
                            assert(has_mac(v, *mac));
                        } else {
                            let f = find_mac_spec(v, *mac).unwrap();
                            if f < k {
                                assert(v[f].mac == *mac);
                            }
                            if f > k {
                                assert(v[k as int].mac != *mac);
                            }
                        }
                    };
                }
                return Some(&self.nics[i]);
            }
            i += 1;
        }
        proof {
            lemma_find_mac_spec(v, *mac);
            assert(forall|j: int| 0 <= j < v.len() ==> (#[trigger] v[j]).mac != *mac);
            if find_mac_spec(v, *mac) is Some {
                let f = find_mac_spec(v, *mac).unwrap();
                assert(v[f].mac == *mac);
            }
        }
        None
    }

    /// How many interfaces are in view.
    pub fn len(&self) -> (r: usize)
        requires
            self.wf(),
        ensures
            r == self.view().len(),
    {
        self.end - self.start
    }

    /// The interface at position `index` of the view.
    pub fn get(&self, index: usize) -> (r: &Nic)
        requires
            self.wf(),
            index < self.view().len(),
        ensures
            *r == self.view()[index as int],
    {
        &self.nics[self.start + index]
    }
}

/// Failure conditions local to one node's link establishment or delivery.
#[derive(Clone, Copy, PartialEq, Eq, Structural, Debug)]
pub enum NicError {
    /// No interface in the whole store carries the requested address.
    NeighborNotFound,
    /// The source interface has no assigned link, so there is no far end
    /// to deliver to; a configuration error, never a transient one.
    NotLinked,
}

/// The scoped view a node gets during link establishment: exclusive,
/// index-bounded write access to its own contiguous block of interfaces,
/// and read access to the whole store for peer resolution.
///
/// The view owns the store for the duration of one node's call; the
/// orchestrator takes it back afterwards. Bounds are indices, never
/// partitioned references, which is what lets the whole-store read view and
/// this scoped view coexist soundly.
pub struct NicsMut {
    node: usize,
    start: usize,
    end: usize,
    topology: Topology,
}

impl NicsMut {
    /// The node this view is scoped to.
    pub closed spec fn node_idx(&self) -> int {
        self.node as int
    }

    /// First index of the scoped block.
    pub closed spec fn lo(&self) -> int {
        self.start as int
    }

    /// One past the last index of the scoped block.
    pub closed spec fn hi(&self) -> int {
        self.end as int
    }

    /// The store held by this view.
    pub closed spec fn topo(&self) -> Topology {
        self.topology
    }

    /// The whole interface population.
    pub open spec fn hw(&self) -> Seq<Nic> {
        self.topo().hw()
    }

    /// The link registry.
    pub open spec fn lks(&self) -> Seq<(NicId, NicId)> {
        self.topo().lks()
    }

    pub open spec fn node_count(&self) -> int {
        self.topo().node_count()
    }

    /// The interfaces owned by the scoped node.
    pub open spec fn own(&self) -> Seq<Nic> {
        self.hw().subrange(self.lo(), self.hi())
    }

    pub open spec fn wf(&self) -> bool {
        &&& self.topo().wf()
        &&& 0 <= self.node_idx() < self.node_count()
        &&& self.lo() < self.hi()
        &&& group_bounds(self.hw(), self.lo(), self.hi(), self.node_idx() as u64)
    }

    /// Scope a view to `node`'s block of the store, taking the store over
    /// for the duration of the node's link establishment.
    pub(crate) fn new(node: usize, topology: Topology) -> (r: NicsMut)
        requires
            topology.wf(),
            node < topology.node_count(),
        ensures
            r.wf(),
            r.node_idx() == node,
            r.hw() == topology.hw(),
            r.lks() == topology.lks(),
            r.node_count() == topology.node_count(),
    {
        let bounds = slice_bounds(topology.hardware_vec(), node);
        match bounds {
            Some((start, end)) => NicsMut { node, start, end, topology },
            None => {
                proof {
                    // Unreachable: the store invariant says every node in
                    // range owns at least one interface.
                    assert(has_group(topology.hw(), node as u64));
                    assert(false);
                }
                NicsMut { node, start: 0, end: 0, topology }
            },
        }
    }

    /// Hand the store back to the orchestrator.
    pub(crate) fn into_topology(self) -> (r: Topology)
        ensures
            r == self.topo(),
    {
        self.topology
    }

    /// How many interfaces the scoped node owns.
    pub fn len(&self) -> (r: usize)
        requires
            self.wf(),
        ensures
            r == self.own().len(),
    {
        self.end - self.start
    }

    /// The scoped node's interface at position `index` of its block.
    pub fn get(&self, index: usize) -> (r: &Nic)
        requires
            self.wf(),
            index < self.own().len(),
        ensures
            *r == self.own()[index as int],
    {
        let all = self.topology.hardware_vec();
        &all[self.start + index]
    }

    /// Set the latency of the scoped node's interface at position `index`
    /// of its block: the write half of the scoped view. Only the node's
    /// own block is reachable; the rest of the store is untouched.
    pub fn set_latency(&mut self, index: usize, latency: Option<u64>)
        requires
            old(self).wf(),
            index < old(self).own().len(),
        ensures
            final(self).wf(),
            final(self).lks() == old(self).lks(),
            final(self).node_idx() == old(self).node_idx(),
            final(self).node_count() == old(self).node_count(),
            final(self).lo() == old(self).lo(),
            final(self).hi() == old(self).hi(),
            final(self).hw() == old(self).hw().update(
                old(self).lo() + index,
                (Nic { latency, ..old(self).hw()[old(self).lo() + index] }),
            ),
    {
        let i = self.start + index;
        self.topology.set_latency(i, latency);
        proof {
            let s = old(self).hw();
            let t = self.hw();
            assert(forall|j: int| 0 <= j < s.len() && j != i ==> #[trigger] t[j] == s[j]);
            assert(t[i as int].group == s[i as int].group);
        }
    }

    /// Request a link from one of this node's interfaces to the interface
    /// currently carrying `next_hop`, anywhere in the store.
    ///
    /// Succeeds exactly when some interface carries that address — the
    /// population is complete before any link establishment runs, so a miss
    /// means permanent absence, not a race. On success the link is recorded
    /// in the registry only; interfaces are updated by the finalize step.
    pub fn link(&mut self, local_id: NicId, next_hop: &HwAddr) -> (r: Result<(), NicError>)
        requires
            old(self).wf(),
            local_id < old(self).hw().len(),
        ensures
            final(self).wf(),
            final(self).hw() == old(self).hw(),
            final(self).node_idx() == old(self).node_idx(),
            final(self).node_count() == old(self).node_count(),
            final(self).lo() == old(self).lo(),
            final(self).hi() == old(self).hi(),
            r is Ok <==> has_mac(old(self).hw(), *next_hop),
            r is Ok ==> final(self).lks() == old(self).lks().push(
                (local_id, old(self).hw()[find_mac_spec(old(self).hw(), *next_hop).unwrap()].id),
            ),
            r is Err ==> final(self).lks() == old(self).lks() && r == Result::<(), NicError>::Err(
                NicError::NeighborNotFound,
            ),
    {
        proof {
            lemma_find_mac_spec(old(self).hw(), *next_hop);
        }
        let neighbor_id = {
            let all = self.topology.all_nics();
            match all.find_mac(next_hop) {
                Some(neighbor) => Some(neighbor.id),
                None => None,
            }
        };
        match neighbor_id {
            Some(nid) => {
                self.topology.link_nics(local_id, nid);
                Ok(())
            },
            None => Err(NicError::NeighborNotFound),
        }
    }
}

/// Assigns interface identities and groups them by owning node during the
/// declaration phase.
pub struct NicAllocator {
    /// Counter distributing unique interface identities.
    nid: u64,
    /// The node whose declarations are currently being taken.
    ngroup: u64,
    nics: Vec<Nic>,
}

impl NicAllocator {
    /// The interfaces declared so far, in allocation order.
    pub closed spec fn view(&self) -> Seq<Nic> {
        self.nics@
    }

    /// The node currently declaring.
    pub closed spec fn group(&self) -> u64 {
        self.ngroup
    }

    /// The identity counter mirrors the store length.
    pub closed spec fn inv(&self) -> bool {
        self.nid as int == self.nics@.len()
    }

    /// The allocator's invariant: identities are positions, owners are
    /// nondecreasing and never ahead of the current node, nothing is linked
    /// yet, and every closed-out node owns at least one interface.
    pub open spec fn wf(&self) -> bool {
        &&& self.inv()
        &&& ids_match(self.view())
        &&& groups_sorted(self.view())
        &&& groups_at_most(self.view(), self.group())
        &&& unlinked(self.view())
        &&& forall|g: u64| g < self.group() ==> #[trigger] has_group(self.view(), g)
    }

    /// Add an interface to the node currently declaring, assigning it the
    /// next identity.
    pub fn nic(&mut self, mac: HwAddr, latency: Option<u64>)
        requires
            old(self).wf(),
        ensures
            final(self).wf(),
            final(self).group() == old(self).group(),
            final(self).view() == old(self).view().push(
                nic_decl(old(self).view().len() as u64, old(self).group(), mac, latency),
            ),
    {
        let next_id = self.nid;
        self.nics.push(Nic {
            id: next_id,
            group: self.ngroup,
            mac,
            latency,
            link_id: None,
        });
        let n = self.nics.len();
        self.nid = n as u64;
        proof {
            let s = old(self).view();
            let t = self.view();
            assert(forall|i: int| 0 <= i < s.len() ==> t[i] == s[i]);
            assert(t[s.len() as int] == nic_decl(s.len() as u64, old(self).group(), mac, latency));
            assert forall|g: u64| g < self.group() implies #[trigger] has_group(t, g) by {
                assert(has_group(s, g));
                let i = choose|i: int| 0 <= i < s.len() && (#[trigger] s[i]).group == g;
                assert(t[i].group == g);
            };
        }
    }

    /// Start a fresh allocator with room for about one interface per node.
    pub(crate) fn with_capacity(capacity: usize) -> (r: Self)
        ensures
            r.wf(),
            r.view() == Seq::<Nic>::empty(),
            r.group() == 0,
    {
        Self { nid: 0, ngroup: 0, nics: Vec::with_capacity(capacity) }
    }

    /// Close out the node currently declaring and move to the next one.
    /// Fails if the node declared no interface at all.
    pub(crate) fn next_node(&mut self) -> (r: Result<(), SimErr>)
        requires
            old(self).wf(),
            old(self).group() < u64::MAX,
        ensures
            final(self).view() == old(self).view(),
            r is Ok <==> old(self).view().len() > 0 && old(self).view().last().group == old(
                self,
            ).group(),
            r is Ok ==> final(self).wf() && final(self).group() == old(self).group() + 1,
            r is Err ==> *final(self) == *old(self) && r == Result::<(), SimErr>::Err(
                SimErr::NodeNoHardware,
            ),
    {
        if self.nics.len() == 0 || self.ngroup != self.nics[self.nics.len() - 1].group {
            return Err(SimErr::NodeNoHardware);
        }
        self.ngroup = self.ngroup + 1;
        proof {
            let s = self.view();
            assert(groups_sorted(s));
            assert forall|g: u64| g < self.group() implies #[trigger] has_group(s, g) by {
                if g < old(self).group() {
                    assert(has_group(s, g));
                } else {
                    assert(s[s.len() - 1].group == g);
                }
            };
        }
        Ok(())
    }

    /// Hand the fixed interface population over; the population never grows
    /// or shrinks after this.
    pub(crate) fn to_vec(self) -> (r: Vec<Nic>)
        ensures
            r@ == self.view(),
    {
        self.nics
    }

    /// How many interfaces have been declared in total.
    pub(crate) fn total(&self) -> (r: usize)
        ensures
            r == self.view().len(),
    {
        self.nics.len()
    }
}

} // verus!
