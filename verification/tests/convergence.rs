//! Several nodes wired together by hand: gossip records emitted by one node
//! are fed to their addressees, and the delivered sets converge.

use broadcast_node::message::{Message, Request, Response};
use broadcast_node::node::Node;

fn make_node(self_id: &str, roster: &[&str]) -> Node {
    let mut node = Node::new();
    let mut buff: Vec<Message<Response>> = Vec::new();
    let msg = Message {
        src: String::from("c0"),
        dest: String::from(self_id),
        body: Request::Init {
            msg_id: 1,
            node_id: String::from(self_id),
            node_ids: roster.iter().map(|s| String::from(*s)).collect(),
        },
    };
    node.handler(msg, &mut buff).expect("initialization is accepted");
    node
}

fn broadcast(node: &mut Node, value: u64) {
    let mut buff: Vec<Message<Response>> = Vec::new();
    let msg = Message {
        src: String::from("c0"),
        dest: node.node_id.clone(),
        body: Request::Broadcast { msg_id: 99, message: value },
    };
    node.handler(msg, &mut buff).expect("broadcast is accepted");
}

/// Runs one reconciliation tick on every node and delivers every emitted
/// gossip record to its addressee.
fn exchange_round(nodes: &mut [Node]) {
    let mut outbound: Vec<Message<Response>> = Vec::new();
    for node in nodes.iter_mut() {
        let tick = Message {
            src: String::new(),
            dest: String::new(),
            body: Request::GossipInit,
        };
        node.handler(tick, &mut outbound).expect("the tick is accepted");
    }
    for record in outbound {
        if let Response::Gossip { messages } = record.body {
            let target = nodes
                .iter_mut()
                .find(|n| n.node_id == record.dest)
                .expect("gossip is addressed to a known node");
            let mut sink: Vec<Message<Response>> = Vec::new();
            let msg = Message {
                src: record.src.clone(),
                dest: record.dest.clone(),
                body: Request::Gossip { messages },
            };
            target.handler(msg, &mut sink).expect("gossip is accepted");
            assert!(sink.is_empty(), "gossip receipt emits nothing");
        }
    }
}

fn read_sorted(node: &mut Node) -> Vec<u64> {
    let mut buff: Vec<Message<Response>> = Vec::new();
    let msg = Message {
        src: String::from("c0"),
        dest: node.node_id.clone(),
        body: Request::Read { msg_id: 77 },
    };
    node.handler(msg, &mut buff).expect("read is accepted");
    match buff.pop().map(|m| m.body) {
        Some(Response::ReadOk { mut messages, .. }) => {
            messages.sort();
            messages
        },
        other => panic!("expected a read acknowledgment, got {:?}", other),
    }
}

#[test]
fn two_nodes_converge() {
    let roster = ["n1", "n2"];
    let mut nodes = vec![make_node("n1", &roster), make_node("n2", &roster)];
    broadcast(&mut nodes[0], 42);
    broadcast(&mut nodes[1], 7);
    for _ in 0..3 {
        exchange_round(&mut nodes);
    }
    assert_eq!(read_sorted(&mut nodes[0]), vec![7, 42]);
    assert_eq!(read_sorted(&mut nodes[1]), vec![7, 42]);
}

#[test]
fn value_crosses_a_line_of_three() {
    let roster = ["n1", "n2", "n3"];
    let mut nodes = vec![
        make_node("n1", &roster[..2]),
        make_node("n2", &roster),
        make_node("n3", &roster[1..]),
    ];
    broadcast(&mut nodes[0], 42);
    for _ in 0..4 {
        exchange_round(&mut nodes);
    }
    assert_eq!(read_sorted(&mut nodes[2]), vec![42]);
}
