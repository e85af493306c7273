use vstd::prelude::*;

use crate::message::{IncomingMsg, Mailbox};
use crate::nics::{NicError, NicId};
use crate::node::Node;
use crate::simulator::{lemma_link_of, link_of, SimErr, Topology};

verus! {

/// Nothing to do anywhere: every mailbox is empty in both directions.
pub open spec fn all_quiet(mbs: Seq<Mailbox>) -> bool {
    forall|j: int|
        0 <= j < mbs.len() ==> (#[trigger] mbs[j]).incoming_seq().len() == 0
            && mbs[j].outgoing_seq().len() == 0
}

/// Route one envelope: resolve the source interface's assigned link,
/// locate the peer interface and its owning node, and append the envelope
/// to that node's mailbox.
///
/// Fails exactly when the source interface does not exist or has no
/// assigned link — a deterministic configuration error, never a transient
/// one — and then leaves every mailbox untouched.
pub fn deliver(
    topology: &Topology,
    mailboxes: &mut Vec<Mailbox>,
    from: NicId,
    data: Vec<u8>,
) -> (r: Result<(), NicError>)
    requires
        topology.wf(),
        topology.links_filled(),
        old(mailboxes)@.len() == topology.node_count(),
    ensures
        final(mailboxes)@.len() == old(mailboxes)@.len(),
        r is Ok <==> topology.has_route(from),
        r is Err ==> final(mailboxes)@ == old(mailboxes)@ && r == Result::<(), NicError>::Err(
            NicError::NotLinked,
        ),
        r is Ok ==> {
            let owner = topology.route_owner(from);
            &&& 0 <= owner < old(mailboxes)@.len()
            &&& final(mailboxes)@[owner].incoming_seq() == old(
                mailboxes,
            )@[owner].incoming_seq().push((IncomingMsg { from, data }))
            &&& final(mailboxes)@[owner].outgoing_seq() == old(mailboxes)@[owner].outgoing_seq()
            &&& forall|j: int|
                0 <= j < old(mailboxes)@.len() && j != owner ==> final(mailboxes)@[j] == old(
                    mailboxes,
                )@[j]
        },
{
    let hw = topology.hardware_vec();
    let hlen = hw.len();
    if from >= hlen as u64 {
        return Err(NicError::NotLinked);
    }
    let fi = from as usize;
    match hw[fi].link_id {
        None => Err(NicError::NotLinked),
        Some(l) => {
            let links = topology.links();
            proof {
                assert(topology.hw()[fi as int].id == from);
                assert(link_of(topology.lks(), from) == Some(l));
                lemma_link_of(topology.lks(), from);
            }
            let li = l as usize;
            let pair = links[li];
            proof {
                assert(topology.lks()[li as int] == pair);
                assert(pair.0 < topology.hw().len() && pair.1 < topology.hw().len());
            }
            let peer = if pair.0 == from {
                pair.1
            } else {
                pair.0
            };
            let pi = peer as usize;
            let ncount = topology.node_total();
            proof {
                assert(topology.route_link(from) == li as int);
                assert(topology.route_peer(from) == peer);
                assert(topology.hw()[pi as int].group < ncount);
            }
            let owner = hw[pi].group as usize;
            proof {
                assert(topology.route_owner(from) == owner as int);
            }
            let msg = IncomingMsg { from, data };
            let mb = &mut mailboxes[owner];
            mb.enqueue(msg);
            Ok(())
        },
    }
}

/// What the run loop does when a node's reaction logic reports failure;
/// chosen by whoever drives the scheduler, never hardwired by the core.
/// Whatever the choice, the failure is observed by the loop — nothing
/// vanishes silently.
#[derive(Clone, Copy, PartialEq, Eq, Structural, Debug)]
pub enum FailurePolicy {
    /// Stop the whole run and surface the failure.
    Abort,
    /// Keep scheduling the node as if it had succeeded.
    Ignore,
    /// Drop just the failed node from future scheduling; the rest run on.
    Remove,
}

/// The cooperative run loop. Each scheduling tick routes everything the
/// nodes queued for sending, then invokes reaction logic for every node
/// whose mailbox is non-empty — in node order, one at a time, never in
/// parallel. The loop ends when a tick moves no mail at all, when a node
/// failure aborts the run under `policy`, when a queued message cannot be
/// routed, or after `max_ticks` ticks.
pub fn run_loop<N: Node>(
    nodes: &mut Vec<N>,
    topology: &Topology,
    mailboxes: &mut Vec<Mailbox>,
    max_ticks: u64,
    policy: FailurePolicy,
) -> (r: Result<(), SimErr>)
    requires
        topology.wf(),
        topology.links_filled(),
        old(mailboxes)@.len() == topology.node_count(),
        old(nodes)@.len() == topology.node_count(),
    ensures
        final(mailboxes)@.len() == old(mailboxes)@.len(),
        final(nodes)@.len() == old(nodes)@.len(),
        r is Err ==> r == Result::<(), SimErr>::Err(SimErr::NodeFailed) || r == Result::<
            (),
            SimErr,
        >::Err(SimErr::SendFailed),
        r == Result::<(), SimErr>::Err(SimErr::NodeFailed) ==> policy == FailurePolicy::Abort,
        // A quiescent input stays quiescent: the loop does no work at all.
        all_quiet(old(mailboxes)@) ==> r is Ok && final(mailboxes)@ == old(mailboxes)@
            && final(nodes)@ == old(nodes)@,
        // An unroutable message at the head of the first outbound queue is
        // hit by the very first delivery step and stops the run.
        (max_ticks > 0 && old(mailboxes)@.len() > 0 && old(mailboxes)@[0].outgoing_seq().len() > 0
            && !topology.has_route(old(mailboxes)@[0].outgoing_seq()[0].from)) ==> r == Result::<
            (),
            SimErr,
        >::Err(SimErr::SendFailed),
{
    let ghost quiet0 = all_quiet(old(mailboxes)@);
    let ghost bad_head = old(mailboxes)@.len() > 0 && old(mailboxes)@[0].outgoing_seq().len() > 0
        && !topology.has_route(old(mailboxes)@[0].outgoing_seq()[0].from);
    let n = mailboxes.len();
    let mut active: Vec<bool> = Vec::new();
    while active.len() < n
        invariant
            active@.len() <= n,
        decreases n - active@.len(),
    {
        active.push(true);
    }
    let mut tick: u64 = 0;
    while tick < max_ticks
        invariant
            topology.wf(),
            topology.links_filled(),
            mailboxes@.len() == n,
            nodes@.len() == n,
            active@.len() == n,
            old(mailboxes)@.len() == n,
            old(nodes)@.len() == n,
            n == topology.node_count(),
            tick <= max_ticks,
            quiet0 == all_quiet(old(mailboxes)@),
            bad_head == (old(mailboxes)@.len() > 0 && old(mailboxes)@[0].outgoing_seq().len() > 0
                && !topology.has_route(old(mailboxes)@[0].outgoing_seq()[0].from)),
            quiet0 ==> mailboxes@ == old(mailboxes)@ && nodes@ == old(nodes)@,
            bad_head ==> tick == 0 && mailboxes@ == old(mailboxes)@,
        decreases max_ticks - tick,
    {
        let mut progressed = false;
        // Delivery step: route everything the nodes queued, oldest first.
        let mut i: usize = 0;
        while i < n
            invariant
                topology.wf(),
                topology.links_filled(),
                mailboxes@.len() == n,
                nodes@.len() == n,
                active@.len() == n,
                old(mailboxes)@.len() == n,
                old(nodes)@.len() == n,
                n == topology.node_count(),
                i <= n,
                quiet0 == all_quiet(old(mailboxes)@),
                bad_head == (old(mailboxes)@.len() > 0 && old(mailboxes)@[0].outgoing_seq().len()
                    > 0 && !topology.has_route(old(mailboxes)@[0].outgoing_seq()[0].from)),
                quiet0 ==> mailboxes@ == old(mailboxes)@ && nodes@ == old(nodes)@ && !progressed,
                bad_head ==> tick == 0 && i == 0 && mailboxes@ == old(mailboxes)@,
            decreases n - i,
        {
            if mailboxes[i].has_outgoing() {
                progressed = true;
                let mut out = {
                    let mb = &mut mailboxes[i];
                    mb.take_outgoing()
                };
                while out.len() > 0
                    invariant
                        topology.wf(),
                        topology.links_filled(),
                        mailboxes@.len() == n,
                        nodes@.len() == n,
                        old(mailboxes)@.len() == n,
                        old(nodes)@.len() == n,
                        n == topology.node_count(),
                        !quiet0,
                        quiet0 == all_quiet(old(mailboxes)@),
                        bad_head == (old(mailboxes)@.len() > 0 && old(
                            mailboxes,
                        )@[0].outgoing_seq().len() > 0 && !topology.has_route(
                            old(mailboxes)@[0].outgoing_seq()[0].from,
                        )),
                        bad_head ==> out@ == old(mailboxes)@[0].outgoing_seq(),
                    decreases out@.len(),
                {
                    let ghost msg0 = out@[0];
                    let msg = out.remove(0);
                    match deliver(topology, mailboxes, msg.from, msg.data) {
                        Ok(()) => {
                            proof {
                                if bad_head {
                                    assert(topology.has_route(msg0.from));
                                    assert(false);
                                }
                            }
                        },
                        Err(_) => {
                            return Err(SimErr::SendFailed);
                        },
                    }
                }
                proof {
                    if bad_head {
                        assert(out@.len() == 0);
                        assert(false);
                    }
                }
            }
            i += 1;
        }
        // Reaction step: wake every still-scheduled node whose mailbox
        // became non-empty.
        let mut i: usize = 0;
        while i < n
            invariant
                topology.wf(),
                topology.links_filled(),
                mailboxes@.len() == n,
                nodes@.len() == n,
                active@.len() == n,
                old(mailboxes)@.len() == n,
                old(nodes)@.len() == n,
                n == topology.node_count(),
                i <= n,
                quiet0 == all_quiet(old(mailboxes)@),
                bad_head == (old(mailboxes)@.len() > 0 && old(mailboxes)@[0].outgoing_seq().len()
                    > 0 && !topology.has_route(old(mailboxes)@[0].outgoing_seq()[0].from)),
                quiet0 ==> mailboxes@ == old(mailboxes)@ && nodes@ == old(nodes)@ && !progressed,
                !bad_head,
            decreases n - i,
        {
            if active[i] && mailboxes[i].has_incoming() {
                progressed = true;
                let all = topology.all_nics();
                let node = &mut nodes[i];
                let mb = &mut mailboxes[i];
                let res = node.process(mb, &all);
                if res.is_err() {
                    match policy {
                        FailurePolicy::Abort => {
                            return Err(SimErr::NodeFailed);
                        },
                        FailurePolicy::Ignore => {},
                        FailurePolicy::Remove => {
                            active[i] = false;
                        },
                    }
                }
            }
            i += 1;
        }
        if !progressed {
            // Quiescent: nothing queued for sending and no pending mail.
            return Ok(());
        }
        tick += 1;
    }
    Ok(())
}

} // verus!
