//! Exercises the protocol engine through its public interface: one node,
//! one event at a time.

use broadcast_node::message::{Message, Request, Response, TopologyEntry};
use broadcast_node::node::{FatalError, Node, Phase};

fn envelope(body: Request) -> Message<Request> {
    Message { src: String::from("c0"), dest: String::from("n1"), body }
}

fn init_node(self_id: &str, roster: &[&str]) -> Node {
    let mut node = Node::new();
    let mut buff: Vec<Message<Response>> = Vec::new();
    let msg = Message {
        src: String::from("c0"),
        dest: String::from(self_id),
        body: Request::Init {
            msg_id: 1,
            node_id: String::from(self_id),
            node_ids: roster.iter().map(|s| String::from(*s)).collect(),
        },
    };
    node.handler(msg, &mut buff).expect("initialization is accepted");
    assert_eq!(buff.len(), 1);
    node
}

#[test]
fn echo_roundtrip() {
    let mut node = init_node("n1", &["n1"]);
    let mut buff: Vec<Message<Response>> = Vec::new();
    let r = node.handler(
        envelope(Request::Echo { msg_id: 9, echo: String::from("x") }),
        &mut buff,
    );
    assert!(r.is_ok());
    assert_eq!(buff.len(), 1);
    assert_eq!(buff[0].src, "n1");
    assert_eq!(buff[0].dest, "c0");
    match &buff[0].body {
        Response::EchoOk { msg_id, in_reply_to, echo } => {
            assert_eq!(*msg_id, 2);
            assert_eq!(*in_reply_to, 9);
            assert_eq!(echo, "x");
        },
        other => panic!("expected an echo acknowledgment, got {:?}", other),
    }
}

#[test]
fn broadcast_then_read() {
    let mut node = init_node("n1", &["n1", "n2"]);
    let mut buff: Vec<Message<Response>> = Vec::new();
    node.handler(envelope(Request::Broadcast { msg_id: 2, message: 42 }), &mut buff)
        .expect("broadcast is accepted");
    node.handler(envelope(Request::Read { msg_id: 3 }), &mut buff)
        .expect("read is accepted");
    assert_eq!(buff.len(), 2);
    assert!(matches!(buff[0].body, Response::BroadcastOk { .. }));
    match &buff[1].body {
        Response::ReadOk { messages, .. } => assert_eq!(messages, &vec![42]),
        other => panic!("expected a read acknowledgment, got {:?}", other),
    }
}

#[test]
fn reconcile_sends_symmetric_difference() {
    let mut node = init_node("n1", &["n1", "B"]);
    let mut buff: Vec<Message<Response>> = Vec::new();
    node.handler(envelope(Request::Broadcast { msg_id: 2, message: 1 }), &mut buff)
        .expect("broadcast is accepted");
    node.handler(envelope(Request::Broadcast { msg_id: 3, message: 2 }), &mut buff)
        .expect("broadcast is accepted");
    let gossip = Message {
        src: String::from("B"),
        dest: String::from("n1"),
        body: Request::Gossip { messages: vec![1] },
    };
    node.handler(gossip, &mut buff).expect("gossip is accepted");
    buff.clear();
    node.handler(envelope(Request::GossipInit), &mut buff)
        .expect("the tick is accepted");
    assert_eq!(buff.len(), 1, "exactly one gossip record is owed");
    assert_eq!(buff[0].src, "n1");
    assert_eq!(buff[0].dest, "B");
    match &buff[0].body {
        Response::Gossip { messages } => assert_eq!(messages, &vec![2]),
        other => panic!("expected a gossip record, got {:?}", other),
    }
}

#[test]
fn gossip_receipt_merges_silently() {
    let mut node = init_node("B", &["B", "A"]);
    let mut buff: Vec<Message<Response>> = Vec::new();
    node.handler(
        Message {
            src: String::from("c0"),
            dest: String::from("B"),
            body: Request::Broadcast { msg_id: 2, message: 5 },
        },
        &mut buff,
    )
    .expect("broadcast is accepted");
    buff.clear();
    let gossip = Message {
        src: String::from("A"),
        dest: String::from("B"),
        body: Request::Gossip { messages: vec![5, 6] },
    };
    node.handler(gossip, &mut buff).expect("gossip is accepted");
    assert_eq!(buff.len(), 0, "gossip is one-way: no record is emitted");
    assert_eq!(node.messages, vec![5, 6]);
}

#[test]
fn broadcast_is_idempotent() {
    let mut node = init_node("n1", &["n1"]);
    let mut buff: Vec<Message<Response>> = Vec::new();
    node.handler(envelope(Request::Broadcast { msg_id: 2, message: 42 }), &mut buff)
        .expect("broadcast is accepted");
    node.handler(envelope(Request::Broadcast { msg_id: 3, message: 42 }), &mut buff)
        .expect("broadcast is accepted");
    assert_eq!(node.messages, vec![42]);
}

#[test]
fn gossip_is_idempotent() {
    let mut node = init_node("n1", &["n1", "A"]);
    let mut buff: Vec<Message<Response>> = Vec::new();
    for _round in 0..2 {
        let gossip = Message {
            src: String::from("A"),
            dest: String::from("n1"),
            body: Request::Gossip { messages: vec![5, 6] },
        };
        node.handler(gossip, &mut buff).expect("gossip is accepted");
    }
    assert_eq!(node.messages, vec![5, 6]);
    assert_eq!(node.neighbors_seen.len(), 1);
    assert_eq!(node.neighbors_seen[0].id, "A");
    assert_eq!(node.neighbors_seen[0].seen, vec![5, 6]);
}

#[test]
fn acknowledgment_sequence_is_strictly_increasing() {
    let mut node = init_node("n1", &["n1"]);
    let mut buff: Vec<Message<Response>> = Vec::new();
    for k in 0..5u64 {
        node.handler(
            envelope(Request::Echo { msg_id: 100 + k, echo: String::from("s") }),
            &mut buff,
        )
        .expect("echo is accepted");
    }
    let mut last: u64 = 0;
    for record in &buff {
        match &record.body {
            Response::EchoOk { msg_id, .. } => {
                assert!(*msg_id > last, "sequence numbers must strictly increase");
                last = *msg_id;
            },
            other => panic!("expected an echo acknowledgment, got {:?}", other),
        }
    }
}

#[test]
fn generated_tokens_are_distinct() {
    let mut node = init_node("n1", &["n1"]);
    let mut seen = std::collections::HashSet::new();
    for k in 0..10_000u64 {
        let mut buff: Vec<Message<Response>> = Vec::new();
        node.handler(envelope(Request::Generate { msg_id: k }), &mut buff)
            .expect("generate is accepted");
        assert_eq!(buff.len(), 1);
        match &buff[0].body {
            Response::GenerateOk { id, .. } => {
                assert_eq!(id.len(), 36);
                assert!(seen.insert(id.clone()), "token {} repeated", id);
            },
            other => panic!("expected a generate acknowledgment, got {:?}", other),
        }
    }
    assert_eq!(seen.len(), 10_000);
}

#[test]
fn topology_overwrites_neighbors() {
    let mut node = init_node("n1", &["n1", "n2"]);
    let mut buff: Vec<Message<Response>> = Vec::new();
    let update = Request::Topology {
        msg_id: 5,
        topology: vec![
            TopologyEntry { id: String::from("n1"), peers: vec![String::from("n3")] },
            TopologyEntry { id: String::from("n3"), peers: vec![String::from("n1")] },
        ],
    };
    node.handler(envelope(update), &mut buff).expect("topology is accepted");
    assert_eq!(buff.len(), 1);
    assert!(matches!(buff[0].body, Response::TopologyOk { .. }));
    assert_eq!(node.neighbors, vec![String::from("n3")]);
}

#[test]
fn topology_without_self_is_fatal() {
    let mut node = init_node("n1", &["n1", "n2"]);
    let mut buff: Vec<Message<Response>> = Vec::new();
    let update = Request::Topology {
        msg_id: 5,
        topology: vec![TopologyEntry { id: String::from("n9"), peers: vec![] }],
    };
    let r = node.handler(envelope(update), &mut buff);
    assert_eq!(r, Err(FatalError::SelfAbsentFromTopology));
    assert_eq!(buff.len(), 0);
    assert_eq!(node.neighbors, vec![String::from("n2")]);
}

#[test]
fn requests_before_initialization_are_fatal() {
    let mut node = Node::new();
    let mut buff: Vec<Message<Response>> = Vec::new();
    let r = node.handler(
        envelope(Request::Echo { msg_id: 1, echo: String::from("x") }),
        &mut buff,
    );
    assert_eq!(r, Err(FatalError::UnexpectedEvent));
    assert_eq!(buff.len(), 0);
}

#[test]
fn tick_before_initialization_is_a_no_op() {
    let mut node = Node::new();
    let mut buff: Vec<Message<Response>> = Vec::new();
    let r = node.handler(envelope(Request::GossipInit), &mut buff);
    assert!(r.is_ok());
    assert_eq!(buff.len(), 0);
    assert!(matches!(node.phase, Phase::Uninitialized));
}

#[test]
fn shutdown_is_terminal() {
    let mut node = init_node("n1", &["n1"]);
    let mut buff: Vec<Message<Response>> = Vec::new();
    node.handler(envelope(Request::Shutdown), &mut buff)
        .expect("shutdown is accepted");
    assert!(matches!(node.phase, Phase::Stopped));
    assert_eq!(buff.len(), 0);
    let r = node.handler(envelope(Request::Broadcast { msg_id: 2, message: 1 }), &mut buff);
    assert_eq!(r, Err(FatalError::UnexpectedEvent));
    let tick = node.handler(envelope(Request::GossipInit), &mut buff);
    assert!(tick.is_ok());
    assert_eq!(buff.len(), 0);
}

#[test]
fn duplicate_roster_entries_collapse() {
    let node = init_node("n1", &["n1", "n2", "n2"]);
    assert_eq!(node.neighbors, vec![String::from("n2")]);
}

#[test]
fn tick_with_nothing_owed_is_silent() {
    let mut node = init_node("n1", &["n1", "n2"]);
    let mut buff: Vec<Message<Response>> = Vec::new();
    node.handler(envelope(Request::GossipInit), &mut buff)
        .expect("the tick is accepted");
    assert_eq!(buff.len(), 0, "no delta, no gossip");
}
