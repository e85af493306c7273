use netsim::addr::HwAddr;
use netsim::message::{IncomingMsg, Mailbox, OutgoingMsg};
use netsim::nics::NicError;
use netsim::node::BasicNode;
use netsim::scheduler::{deliver, run_loop, FailurePolicy};
use netsim::simulator::{sim_setup, SimErr};

fn addr(last: u8) -> HwAddr {
    HwAddr::new(0, 0, 0, 0, 0, last)
}

#[test]
fn mailbox_is_fifo() {
    let mut mb = Mailbox::new();
    mb.enqueue(IncomingMsg { from: 0, data: vec![1] });
    mb.enqueue(IncomingMsg { from: 0, data: vec![2] });
    mb.enqueue(IncomingMsg { from: 0, data: vec![3] });

    let op = mb.recv();
    assert_eq!(op.poll(&mut mb).unwrap().data, vec![1]);
    assert_eq!(op.poll(&mut mb).unwrap().data, vec![2]);
    assert_eq!(op.poll(&mut mb).unwrap().data, vec![3]);
    assert!(op.poll(&mut mb).is_none());
}

#[test]
fn recv_stays_pending_until_delivery() {
    let mut mb = Mailbox::new();
    let op = mb.recv();
    // Nothing has been enqueued, so the receive cannot resolve on this
    // tick; it stays pending and the mailbox is untouched.
    assert!(op.poll(&mut mb).is_none());
    assert!(op.poll(&mut mb).is_none());
    mb.enqueue(IncomingMsg { from: 4, data: vec![42] });
    let msg = op.poll(&mut mb).expect("resolves once a delivery happened");
    assert_eq!(msg.from, 4);
    assert_eq!(msg.data, vec![42]);
    assert!(op.poll(&mut mb).is_none());
}

#[test]
fn outgoing_queue_keeps_order() {
    let mut mb = Mailbox::new();
    assert!(!mb.has_incoming());
    mb.send(OutgoingMsg { from: 0, data: vec![10] });
    mb.send(OutgoingMsg { from: 0, data: vec![11] });
    // Queued outbound messages do not show up as inbound mail.
    assert!(!mb.has_incoming());
    assert_eq!(mb.incoming_len(), 0);
}

#[test]
fn deliver_routes_to_peer_mailbox() {
    let topology = sim_setup(&mut vec![
        BasicNode::new(addr(1)).set_neighbor(addr(2)),
        BasicNode::new(addr(2)),
    ])
    .expect("setup succeeds");
    let mut mailboxes = vec![Mailbox::new(), Mailbox::new()];

    // Interface 0 (node 0) is linked to interface 1 (node 1): an envelope
    // sent from 0 lands in node 1's mailbox, and one from 1 in node 0's.
    deliver(&topology, &mut mailboxes, 0, vec![7, 8]).expect("linked interface delivers");
    assert_eq!(mailboxes[0].incoming_len(), 0);
    assert_eq!(mailboxes[1].incoming_len(), 1);
    let op = mailboxes[1].recv();
    let msg = op.poll(&mut mailboxes[1]).unwrap();
    assert_eq!(msg.from, 0);
    assert_eq!(msg.data, vec![7, 8]);

    deliver(&topology, &mut mailboxes, 1, vec![9]).expect("links are full-duplex");
    assert_eq!(mailboxes[0].incoming_len(), 1);
}

#[test]
fn deliver_from_unlinked_interface_fails() {
    let topology = sim_setup(&mut vec![BasicNode::new(addr(1)), BasicNode::new(addr(2))])
        .expect("setup succeeds");
    let mut mailboxes = vec![Mailbox::new(), Mailbox::new()];

    // No links were requested: delivery fails deterministically and no
    // mailbox sees the message.
    let err = deliver(&topology, &mut mailboxes, 0, vec![1]).expect_err("no assigned link");
    assert_eq!(err, NicError::NotLinked);
    let err = deliver(&topology, &mut mailboxes, 99, vec![1]).expect_err("no such interface");
    assert_eq!(err, NicError::NotLinked);
    assert_eq!(mailboxes[0].incoming_len(), 0);
    assert_eq!(mailboxes[1].incoming_len(), 0);
}

#[test]
fn run_loop_drains_seeded_mail() {
    let mut nodes = vec![BasicNode::new(addr(1)), BasicNode::new(addr(2))];
    let topology = sim_setup(&mut nodes).expect("setup succeeds");
    let mut mailboxes = vec![Mailbox::new(), Mailbox::new()];
    mailboxes[0].enqueue(IncomingMsg { from: 1, data: vec![5] });
    run_loop(&mut nodes, &topology, &mut mailboxes, 10, FailurePolicy::Abort)
        .expect("the node drains its mail and the loop goes quiescent");
    assert_eq!(mailboxes[0].incoming_len(), 0);
    assert_eq!(mailboxes[1].incoming_len(), 0);
}

#[test]
fn run_loop_surfaces_unroutable_send() {
    let mut nodes = vec![BasicNode::new(addr(1)), BasicNode::new(addr(2))];
    let topology = sim_setup(&mut nodes).expect("setup succeeds");
    let mut mailboxes = vec![Mailbox::new(), Mailbox::new()];
    // No links exist, so a queued message from interface 0 has no route:
    // the first delivery step stops the run rather than drop it.
    mailboxes[0].send(OutgoingMsg { from: 0, data: vec![1] });
    let err = run_loop(&mut nodes, &topology, &mut mailboxes, 10, FailurePolicy::Abort)
        .expect_err("an unroutable queued message stops the run");
    assert_eq!(err, SimErr::SendFailed);
}

#[test]
fn deliver_twice_keeps_order() {
    let topology = sim_setup(&mut vec![
        BasicNode::new(addr(1)).set_neighbor(addr(2)),
        BasicNode::new(addr(2)),
    ])
    .expect("setup succeeds");
    let mut mailboxes = vec![Mailbox::new(), Mailbox::new()];
    deliver(&topology, &mut mailboxes, 0, vec![1]).unwrap();
    deliver(&topology, &mut mailboxes, 0, vec![2]).unwrap();
    deliver(&topology, &mut mailboxes, 0, vec![3]).unwrap();
    let op = mailboxes[1].recv();
    assert_eq!(op.poll(&mut mailboxes[1]).unwrap().data, vec![1]);
    assert_eq!(op.poll(&mut mailboxes[1]).unwrap().data, vec![2]);
    assert_eq!(op.poll(&mut mailboxes[1]).unwrap().data, vec![3]);
}
