use vstd::prelude::*;

use crate::addr::HwAddr;
use crate::message::Mailbox;
use crate::nics::{
    declared_nics, find_mac_spec, has_mac, lemma_find_mac_congruent, lemma_find_mac_spec,
    same_but_latency, Nic, NicAllocator, NicError, NicId, Nics, NicsMut,
};

verus! {

/// An opaque, node-defined failure from reaction logic. The core never
/// interprets it; it only surfaces it to whatever drives the scheduler.
#[derive(Clone, Copy, PartialEq, Eq, Structural, Debug)]
pub enum NodeError {
    /// The node cannot continue.
    Failed,
}

/// The capability set every simulated node implements: declare hardware,
/// establish links, react to mail — plus an optional identification
/// capability with a generic default.
///
/// The orchestrator drives each node through
/// `Declared -> HardwareBound -> Linked -> Running`, once each, in that
/// order, identically for every node before any node advances further.
pub trait Node: Sized {
    /// The (address, latency) pairs this node declares, in declaration
    /// order. Setup succeeds exactly when every node declares at least
    /// one.
    spec fn declared(&self) -> Seq<(HwAddr, Option<u64>)>;

    /// The link requests this node's `startup` records, as pairs of
    /// interface identities, given the store it sees and the bounds
    /// `[lo, hi)` of its own block.
    spec fn links_requested(&self, hw: Seq<Nic>, lo: int, hi: int) -> Seq<(NicId, NicId)>;

    /// Link requests read only what resolution may read — identity,
    /// owner, address — never latency: two stores that differ at most in
    /// latency are asked for the same links.
    proof fn links_requested_latency_blind(&self, s: Seq<Nic>, t: Seq<Nic>, lo: int, hi: int)
        requires
            0 <= lo < hi <= s.len(),
            s.len() == t.len(),
            forall|i: int| 0 <= i < s.len() ==> same_but_latency(#[trigger] t[i], s[i]),
        ensures
            self.links_requested(s, lo, hi) == self.links_requested(t, lo, hi),
    ;

    /// Identification of the node. Nodes default to "Node" as a name.
    fn name(&self) -> (r: &'static str) {
        "Node"
    }

    /// Declare this node's interfaces into the allocator. Runs once,
    /// before any link establishment; no link or mailbox access exists at
    /// this stage. The allocator grows by exactly the declared list.
    fn hardware(&self, nics: &mut NicAllocator)
        requires
            old(nics).wf(),
        ensures
            final(nics).wf(),
            final(nics).group() == old(nics).group(),
            final(nics).view() == old(nics).view() + declared_nics(
                self.declared(),
                old(nics).view().len() as int,
                old(nics).group(),
            ),
    ;

    /// Connect to other nodes through the scoped view. Grows the link
    /// registry by exactly this node's requests and may write its own
    /// interfaces' latency through the scoped view; everything else about
    /// the population is untouched.
    fn startup(&mut self, nics: &mut NicsMut)
        requires
            old(nics).wf(),
        ensures
            final(nics).wf(),
            final(nics).node_idx() == old(nics).node_idx(),
            final(nics).node_count() == old(nics).node_count(),
            final(nics).lo() == old(nics).lo(),
            final(nics).hi() == old(nics).hi(),
            final(nics).hw().len() == old(nics).hw().len(),
            forall|j: int|
                0 <= j < old(nics).hw().len() && !(old(nics).lo() <= j < old(nics).hi())
                    ==> #[trigger] final(nics).hw()[j] == old(nics).hw()[j],
            forall|j: int|
                old(nics).lo() <= j < old(nics).hi() ==> same_but_latency(
                    #[trigger] final(nics).hw()[j],
                    old(nics).hw()[j],
                ),
            final(nics).lks() == old(nics).lks() + old(self).links_requested(
                old(nics).hw(),
                old(nics).lo(),
                old(nics).hi(),
            ),
    ;

    /// React to pending mail. Invoked by the scheduler whenever this
    /// node's mailbox is non-empty; may drain the mailbox, queue outbound
    /// messages, and inspect — never mutate — interface metadata.
    ///
    /// A node only consumes its inbound queue from the front — delivery
    /// stays with the scheduler — and only appends to its outbound queue.
    fn process(&mut self, mail: &mut Mailbox, nics: &Nics<'_>) -> (r: Result<(), NodeError>)
        requires
            nics.wf(),
        ensures
            final(mail).incoming_seq().len() <= old(mail).incoming_seq().len(),
            final(mail).incoming_seq() == old(mail).incoming_seq().skip(
                old(mail).incoming_seq().len() - final(mail).incoming_seq().len(),
            ),
            old(mail).outgoing_seq().is_prefix_of(final(mail).outgoing_seq()),
    ;
}

/// A minimal node: optionally declares one interface, and optionally
/// requests one link to a configured neighbor address.
pub struct BasicNode {
    /// The address of this node's single interface, if it declares one.
    pub eth: Option<HwAddr>,
    /// The peer address to request a link to during startup, if any.
    pub neighbor: Option<HwAddr>,
    /// A latency to write onto the node's interface during startup,
    /// through the scoped view, if any.
    pub latency: Option<u64>,
    /// The outcome of a failed link request, kept for inspection; the node
    /// continues without the link rather than aborting setup.
    pub link_err: Option<NicError>,
}

impl BasicNode {
    /// A node that declares no hardware at all — setup must reject it.
    pub fn broken() -> (r: Self)
        ensures
            r.eth is None,
            r.neighbor is None,
            r.latency is None,
            r.link_err is None,
    {
        Self { eth: None, neighbor: None, latency: None, link_err: None }
    }

    /// A node with one interface at `addr` and no link requests.
    pub fn new(addr: HwAddr) -> (r: Self)
        ensures
            r.eth == Some(addr),
            r.neighbor is None,
            r.latency is None,
            r.link_err is None,
    {
        Self { eth: Some(addr), neighbor: None, latency: None, link_err: None }
    }

    /// Configure the node to request a link to `neighbor` during startup.
    pub fn set_neighbor(self, neighbor: HwAddr) -> (r: Self)
        ensures
            r.eth == self.eth,
            r.neighbor == Some(neighbor),
            r.latency == self.latency,
            r.link_err == self.link_err,
    {
        Self { neighbor: Some(neighbor), ..self }
    }

    /// Configure the node to write `latency` onto its interface during
    /// startup.
    pub fn with_latency(self, latency: u64) -> (r: Self)
        ensures
            r.eth == self.eth,
            r.neighbor == self.neighbor,
            r.latency == Some(latency),
            r.link_err == self.link_err,
    {
        Self { latency: Some(latency), ..self }
    }
}

impl Node for BasicNode {
    open spec fn declared(&self) -> Seq<(HwAddr, Option<u64>)> {
        match self.eth {
            Some(addr) => seq![(addr, None::<u64>)],
            None => Seq::empty(),
        }
    }

    open spec fn links_requested(&self, hw: Seq<Nic>, lo: int, hi: int) -> Seq<(NicId, NicId)> {
        match self.neighbor {
            Some(addr) => match find_mac_spec(hw, addr) {
                Some(i) => seq![(hw[lo].id, hw[i].id)],
                None => Seq::empty(),
            },
            None => Seq::empty(),
        }
    }

    proof fn links_requested_latency_blind(&self, s: Seq<Nic>, t: Seq<Nic>, lo: int, hi: int) {
        if let Some(addr) = self.neighbor {
            assert(forall|i: int| 0 <= i < s.len() ==> (#[trigger] s[i]).mac == t[i].mac);
            lemma_find_mac_congruent(s, t, addr);
            lemma_find_mac_spec(s, addr);
            if let Some(i) = find_mac_spec(s, addr) {
                assert(t[lo].id == s[lo].id);
                assert(t[i].id == s[i].id);
                assert(self.links_requested(s, lo, hi) =~= self.links_requested(t, lo, hi));
            }
        }
    }

    fn hardware(&self, nics: &mut NicAllocator) {
        if let Some(addr) = &self.eth {
            nics.nic(*addr, None);
        }
        proof {
            assert(nics.view() =~= old(nics).view() + declared_nics(
                self.declared(),
                old(nics).view().len() as int,
                old(nics).group(),
            ));
        }
    }

    fn startup(&mut self, nics: &mut NicsMut) {
        let ghost hw0 = nics.hw();
        let ghost lks0 = nics.lks();
        if let Some(addr) = self.neighbor {
            proof {
                assert(nics.own().len() == nics.hi() - nics.lo());
                assert(nics.own()[0] == nics.hw()[nics.lo()]);
                assert((nics.hw()[nics.lo()]).id as int == nics.lo());
            }
            let local_id = nics.get(0).id;
            match nics.link(local_id, &addr) {
                Ok(()) => {
                    proof {
                        lemma_find_mac_spec(hw0, addr);
                        assert(nics.lks() =~= lks0 + old(self).links_requested(
                            hw0,
                            old(nics).lo(),
                            old(nics).hi(),
                        ));
                    }
                },
                Err(e) => {
                    self.link_err = Some(e);
                    proof {
                        lemma_find_mac_spec(hw0, addr);
                        if let Some(i) = find_mac_spec(hw0, addr) {
                            assert(has_mac(hw0, addr));
                        }
                        assert(nics.lks() =~= lks0 + old(self).links_requested(
                            hw0,
                            old(nics).lo(),
                            old(nics).hi(),
                        ));
                    }
                },
            }
        } else {
            proof {
                assert(nics.lks() =~= lks0 + old(self).links_requested(
                    hw0,
                    old(nics).lo(),
                    old(nics).hi(),
                ));
            }
        }
        if let Some(lat) = self.latency {
            proof {
                assert(nics.own().len() == nics.hi() - nics.lo());
            }
            nics.set_latency(0, Some(lat));
        }
        proof {
            assert forall|j: int|
                old(nics).lo() <= j < old(nics).hi() implies same_but_latency(
                #[trigger] nics.hw()[j],
                old(nics).hw()[j],
            ) by {
                if j != old(nics).lo() {
                    assert(nics.hw()[j] == old(nics).hw()[j]);
                }
            };
        }
    }

    fn process(&mut self, mail: &mut Mailbox, nics: &Nics<'_>) -> (r: Result<(), NodeError>) {
        let op = mail.recv();
        let ghost mut consumed: int = 0;
        loop
            invariant
                0 <= consumed <= old(mail).incoming_seq().len(),
                mail.incoming_seq() == old(mail).incoming_seq().skip(consumed),
                mail.outgoing_seq() == old(mail).outgoing_seq(),
            decreases mail.incoming_seq().len(),
        {
            let ghost before = mail.incoming_seq();
            match op.poll(mail) {
                Some(_msg) => {
                    proof {
                        consumed = consumed + 1;
                        assert(before.remove(0) =~= old(mail).incoming_seq().skip(consumed));
                    }
                },
                None => {
                    break;
                },
            }
        }
        Ok(())
    }
}

} // verus!
