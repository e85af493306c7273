use netsim::addr::HwAddr;
use netsim::nics::Nic;
use netsim::node::BasicNode;
use netsim::simulator::{sim_setup, slice_bounds};

fn nic_with_group(group: u64) -> Nic {
    Nic {
        id: 0,
        group,
        mac: HwAddr { o0: 0, o1: 0, o2: 0, o3: 0, o4: 0, o5: 0 },
        latency: None,
        link_id: None,
    }
}

fn addr(last: u8) -> HwAddr {
    HwAddr::new(0, 0, 0, 0, 0, last)
}

#[test]
fn slice_bounds_check() {
    // CHECK LIST WITH ONE NIC PER NODE
    let mut nics = Vec::new();
    for i in 0..3 {
        for _ in 0..1 {
            nics.push(nic_with_group(i));
        }
    }
    let (start, end) = slice_bounds(&nics, 0).expect("Slice should be found");
    assert_eq!(&nics[start..end], &nics[0..1]);

    let (start, end) = slice_bounds(&nics, 1).expect("Slice should be found");
    assert_eq!(&nics[start..end], &nics[1..2]);

    let (start, end) = slice_bounds(&nics, 2).expect("Slice should be found");
    assert_eq!(&nics[start..end], &nics[2..3]);

    // CHECK LIST WITH MULTIPLE NICS PER NODE
    let mut nics = Vec::new();
    for i in 0..10 {
        for _ in 0..2 {
            nics.push(nic_with_group(i));
        }
    }

    // CHECK AN EVEN LIST
    let (start, end) = slice_bounds(&nics, 0).expect("Slice should be found");
    assert_eq!(&nics[start..end], &nics[0..2]);

    let (start, end) = slice_bounds(&nics, 4).expect("Slice should be found");
    assert_eq!(&nics[start..end], &nics[8..10]);

    let (start, end) = slice_bounds(&nics, 9).expect("Slice should be found");
    assert_eq!(&nics[start..end], &nics[18..20]);

    assert!(slice_bounds(&nics, 10).is_none());

    nics.clear();

    // CHECK AN UNEVEN LIST
    nics.push(nic_with_group(0));
    nics.push(nic_with_group(0));
    nics.push(nic_with_group(1));
    nics.push(nic_with_group(2));
    nics.push(nic_with_group(2));
    nics.push(nic_with_group(2));
    nics.push(nic_with_group(3));
    nics.push(nic_with_group(4));
    nics.push(nic_with_group(4));
    nics.push(nic_with_group(5));
    nics.push(nic_with_group(5));
    nics.push(nic_with_group(5));
    nics.push(nic_with_group(6));
    nics.push(nic_with_group(7));
    nics.push(nic_with_group(8));
    nics.push(nic_with_group(8));
    nics.push(nic_with_group(8));
    nics.push(nic_with_group(8));
    nics.push(nic_with_group(8));
    nics.push(nic_with_group(9));

    let (start, end) = slice_bounds(&nics, 0).expect("Slice should be found");
    assert_eq!(&nics[start..end], &nics[0..2]);

    let (start, end) = slice_bounds(&nics, 1).expect("Slice should be found");
    assert_eq!(&nics[start..end], &nics[2..3]);

    let (start, end) = slice_bounds(&nics, 2).expect("Slice should be found");
    assert_eq!(&nics[start..end], &nics[3..6]);

    let (start, end) = slice_bounds(&nics, 8).expect("Slice should be found");
    assert_eq!(&nics[start..end], &nics[14..19]);

    let (start, end) = slice_bounds(&nics, 9).expect("Slice should be found");
    assert_eq!(&nics[start..end], &nics[19..20]);
}

#[test]
fn find_mac_present_and_absent() {
    let topology = sim_setup(&mut vec![
        BasicNode::new(addr(1)),
        BasicNode::new(addr(2)),
        BasicNode::new(addr(3)),
    ])
    .expect("setup succeeds");
    let all = topology.all_nics();

    let hit = all.find_mac(&addr(2)).expect("declared address resolves");
    assert_eq!(hit.id, 1);
    assert_eq!(hit.group, 1);
    assert_eq!(hit.mac, addr(2));

    // An address present in no declared interface is reported not found,
    // never as some stale or default interface.
    assert!(all.find_mac(&addr(9)).is_none());
}

#[test]
fn latency_written_through_scoped_view() {
    let topology = sim_setup(&mut vec![
        BasicNode::new(addr(1)).with_latency(5),
        BasicNode::new(addr(2)),
    ])
    .expect("setup succeeds");
    let all = topology.all_nics();
    // Node 0 wrote its own interface's latency during startup; node 1's
    // interface, outside node 0's scoped block, is untouched.
    assert_eq!(all.get(0).latency, Some(5));
    assert_eq!(all.get(1).latency, None);
}

#[test]
fn scoped_view_matches_declaration_order() {
    let topology = sim_setup(&mut vec![BasicNode::new(addr(7)), BasicNode::new(addr(8))])
        .expect("setup succeeds");
    let node1 = topology.nics(1);
    assert_eq!(node1.len(), 1);
    assert_eq!(node1.get(0).id, 1);
    assert_eq!(node1.get(0).mac, addr(8));
}
