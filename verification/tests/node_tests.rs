//! The node driver's event handling, exercised directly: the two delivery
//! orders of a variable's parts agree, and repeated messages change
//! nothing.

use priv_ins::field::Fp;
use priv_ins::protocol::network::Msg;
use priv_ins::protocol::node::Node;
use priv_ins::protocol::party::Party;
use priv_ins::protocol::{elem_map, NodeEvents};

fn fresh_node() -> Node {
    let mut node = Node::new(1, elem_map(Vec::new()));
    node.set_alpha(Fp::from_u64(9));
    node
}

#[test]
fn variable_assembles_in_either_order() {
    let cid = "5".to_string();
    let r_share = (Fp::from_u64(3), Fp::from_u64(4));
    let salt = Fp::from_u64(11);

    let mut a = fresh_node();
    a.handle_event(NodeEvents::NodeVariableShareReady(cid.clone(), r_share));
    a.handle_event(NodeEvents::NodeVariableReady(cid.clone(), salt));

    let mut b = fresh_node();
    b.handle_event(NodeEvents::NodeVariableReady(cid.clone(), salt));
    b.handle_event(NodeEvents::NodeVariableShareReady(cid.clone(), r_share));

    let va = *a.evaluated.get(cid.as_str()).expect("assembled");
    let vb = *b.evaluated.get(cid.as_str()).expect("assembled");
    assert_eq!(va, vb);
}

#[test]
fn duplicate_variable_parts_are_dropped() {
    let cid = "5".to_string();
    let r_share = (Fp::from_u64(3), Fp::from_u64(4));
    let other_share = (Fp::from_u64(30), Fp::from_u64(40));
    let salt = Fp::from_u64(11);

    let mut a = fresh_node();
    a.handle_event(NodeEvents::NodeVariableShareReady(cid.clone(), r_share));
    // the repeat must be dropped, not overwrite
    a.handle_event(NodeEvents::NodeVariableShareReady(cid.clone(), other_share));
    a.handle_event(NodeEvents::NodeVariableReady(cid.clone(), salt));

    let mut b = fresh_node();
    b.handle_event(NodeEvents::NodeVariableShareReady(cid.clone(), r_share));
    b.handle_event(NodeEvents::NodeVariableReady(cid.clone(), salt));

    assert_eq!(
        *a.evaluated.get(cid.as_str()).unwrap(),
        *b.evaluated.get(cid.as_str()).unwrap()
    );
}

#[test]
fn duplicate_open_share_does_not_trigger_ready() {
    let mut party = Party::new(0, 2);
    let share = (Fp::from_u64(1), Fp::from_u64(2));
    let ev = party.handle_network_msg(1, Msg::OpenShare("c".to_string(), share));
    assert!(ev.is_empty());
    // same sender again: dropped, no completion
    let ev = party.handle_network_msg(1, Msg::OpenShare("c".to_string(), share));
    assert!(ev.is_empty());
    // the second distinct sender completes the aggregate with 2 shares
    let ev = party.handle_network_msg(0, Msg::OpenShare("c".to_string(), share));
    assert_eq!(1, ev.len());
    match &ev[0] {
        NodeEvents::CirReady(cid, shares) => {
            assert_eq!("c", cid);
            assert_eq!(2, shares.len());
        }
        other => panic!("expected CirReady, got {:?}", other),
    }
}

#[test]
fn duplicate_status_is_dropped() {
    let mut party = Party::new(0, 2);
    let ev = party.handle_network_msg(0, Msg::ProofValid("c".to_string()));
    assert!(ev.is_empty());
    let ev = party.handle_network_msg(0, Msg::ProofValid("c".to_string()));
    assert!(ev.is_empty());
    let ev = party.handle_network_msg(1, Msg::ProofValid("c".to_string()));
    assert_eq!(1, ev.len());
    assert!(matches!(&ev[0], NodeEvents::ProofValid(c) if c == "c"));
}

#[test]
fn duplicate_commit_is_dropped() {
    let mut party = Party::new(0, 2);
    let h = [7u8; 32];
    let ev = party.handle_network_msg(1, Msg::Commit("c".to_string(), h));
    assert!(ev.is_empty());
    let ev = party.handle_network_msg(1, Msg::Commit("c".to_string(), [9u8; 32]));
    assert!(ev.is_empty());
    let ev = party.handle_network_msg(0, Msg::Commit("c".to_string(), h));
    assert_eq!(1, ev.len());
    match &ev[0] {
        NodeEvents::CommitmentsFor(cid, comms) => {
            assert_eq!("c", cid);
            assert_eq!(2, comms.len());
        }
        other => panic!("expected CommitmentsFor, got {:?}", other),
    }
}
