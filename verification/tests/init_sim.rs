use netsim::addr::HwAddr;
use netsim::nics::NicError;
use netsim::node::{BasicNode, Node};
use netsim::simulator::{run_sim, sim_setup, SimErr};

const ETH0: HwAddr = HwAddr { o0: 0, o1: 0, o2: 0, o3: 0, o4: 0, o5: 0 };
const ETH1: HwAddr = HwAddr { o0: 0, o1: 0, o2: 0, o3: 0, o4: 0, o5: 1 };
const ETH2: HwAddr = HwAddr { o0: 0, o1: 0, o2: 0, o3: 0, o4: 0, o5: 2 };
const ETH3: HwAddr = HwAddr { o0: 0, o1: 0, o2: 0, o3: 0, o4: 0, o5: 3 };
const ETH4: HwAddr = HwAddr { o0: 0, o1: 0, o2: 0, o3: 0, o4: 0, o5: 4 };
const ETH5: HwAddr = HwAddr { o0: 0, o1: 0, o2: 0, o3: 0, o4: 0, o5: 5 };

#[test]
fn sim_setup_failure_cases() {
    run_sim(&mut vec![BasicNode::broken()]).expect_err("Node should have at least one NIC");

    run_sim(&mut vec![BasicNode::new(ETH0), BasicNode::broken()])
        .expect_err("Node should have at least one NIC");
}

#[test]
fn sim_setup_success_cases() {
    let _ = sim_setup(&mut vec![
        BasicNode::new(ETH0),
        BasicNode::new(ETH1),
        BasicNode::new(ETH2),
    ])
    .expect("Sim correctly initializes");

    let links = sim_setup(&mut vec![
        BasicNode::new(ETH0).set_neighbor(ETH1),
        BasicNode::new(ETH1),
        BasicNode::new(ETH2).set_neighbor(ETH3),
        BasicNode::new(ETH3),
    ])
    .expect("Sim correctly initializes");
    assert_eq!(links.links().len(), 2);

    let mut iter = links.links().iter();
    assert_eq!(iter.next().unwrap(), &(0u64, 1u64));
    assert_eq!(iter.next().unwrap(), &(2u64, 3u64));
}

#[test]
fn three_nodes_no_links() {
    let topology = sim_setup(&mut vec![
        BasicNode::new(ETH0),
        BasicNode::new(ETH1),
        BasicNode::new(ETH2),
    ])
    .expect("setup succeeds when every node declares hardware");
    assert_eq!(topology.all_nics().len(), 3);
    assert_eq!(topology.links().len(), 0);
    for i in 0..3 {
        assert_eq!(topology.all_nics().get(i).id, i as u64);
        assert_eq!(topology.all_nics().get(i).group, i as u64);
        assert_eq!(topology.all_nics().get(i).link_id, None);
    }
}

#[test]
fn four_nodes_two_links() {
    let topology = sim_setup(&mut vec![
        BasicNode::new(ETH0).set_neighbor(ETH1),
        BasicNode::new(ETH1),
        BasicNode::new(ETH2).set_neighbor(ETH3),
        BasicNode::new(ETH3),
    ])
    .expect("setup succeeds");
    assert_eq!(topology.links().len(), 2);
    // Node 0's interface is paired with node 1's, node 2's with node 3's,
    // and both ends of each pair carry the same, distinct identity.
    assert_eq!(topology.links()[0], (0u64, 1u64));
    assert_eq!(topology.links()[1], (2u64, 3u64));
    let all = topology.all_nics();
    assert_eq!(all.get(0).link_id, Some(0));
    assert_eq!(all.get(1).link_id, Some(0));
    assert_eq!(all.get(2).link_id, Some(1));
    assert_eq!(all.get(3).link_id, Some(1));
}

#[test]
fn second_node_without_hardware_then_fixed() {
    let err = sim_setup(&mut vec![BasicNode::new(ETH4), BasicNode::broken()])
        .expect_err("a node without hardware fails setup");
    assert_eq!(err, SimErr::NodeNoHardware);

    let topology = sim_setup(&mut vec![BasicNode::new(ETH4), BasicNode::new(ETH5)])
        .expect("both nodes declaring hardware succeeds");
    assert_eq!(topology.all_nics().len(), 2);
}

#[test]
fn link_to_absent_address_is_reported() {
    let mut nodes = vec![BasicNode::new(ETH0).set_neighbor(ETH5), BasicNode::new(ETH1)];
    let topology = sim_setup(&mut nodes).expect("setup itself still succeeds");
    // The peer address matches no interface in the whole store, so the
    // node saw the not-found outcome and continued without the link.
    assert_eq!(nodes[0].link_err, Some(NicError::NeighborNotFound));
    assert_eq!(topology.links().len(), 0);
    assert_eq!(topology.all_nics().get(0).link_id, None);
}

#[test]
fn nodes_default_to_generic_name() {
    assert_eq!(BasicNode::new(ETH0).name(), "Node");
}

#[test]
fn run_sim_reaches_quiescence() {
    run_sim(&mut vec![
        BasicNode::new(ETH0).set_neighbor(ETH1),
        BasicNode::new(ETH1),
    ])
    .expect("a linked pair with no traffic runs to quiescence");
}
