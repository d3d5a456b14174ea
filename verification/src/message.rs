//! The records the node exchanges: inbound events, outbound responses, and
//! the envelope both travel in, together with their mathematical images.

use vstd::prelude::*;

verus! {

/// An envelope on the wire: sender, recipient, and a tagged body.
#[derive(Debug)]
pub struct Message<T> {
    pub src: String,
    pub dest: String,
    pub body: T,
}

/// One entry of a topology update: a node identifier and the neighbor list
/// assigned to it.
#[derive(Debug)]
pub struct TopologyEntry {
    pub id: String,
    pub peers: Vec<String>,
}

/// An inbound event: a client request, a gossip record from a peer, the
/// synthetic reconciliation tick, or the termination command.
#[derive(Debug)]
pub enum Request {
    Echo { msg_id: u64, echo: String },
    Init { msg_id: u64, node_id: String, node_ids: Vec<String> },
    Generate { msg_id: u64 },
    Topology { msg_id: u64, topology: Vec<TopologyEntry> },
    Broadcast { msg_id: u64, message: u64 },
    Read { msg_id: u64 },
    Gossip { messages: Vec<u64> },
    GossipInit,
    Shutdown,
}

/// An outbound record: an acknowledgment of a request, or a gossip record
/// pushed to a peer.
#[derive(Debug)]
pub enum Response {
    EchoOk { msg_id: u64, in_reply_to: u64, echo: String },
    InitOk { in_reply_to: u64, msg_id: u64 },
    GenerateOk { id: String, msg_id: u64, in_reply_to: u64 },
    TopologyOk { msg_id: u64, in_reply_to: u64 },
    BroadcastOk { msg_id: u64, in_reply_to: u64 },
    ReadOk { msg_id: u64, in_reply_to: u64, messages: Vec<u64> },
    Gossip { messages: Vec<u64> },
}

/// Mathematical image of an outbound body: strings as character sequences,
/// integer payloads as sets. The order a payload is laid out in on the wire
/// carries no protocol meaning, so the image forgets it.
pub ghost enum BodyModel {
    EchoOk { msg_id: u64, in_reply_to: u64, echo: Seq<char> },
    InitOk { in_reply_to: u64, msg_id: u64 },
    GenerateOk { id: Seq<char>, msg_id: u64, in_reply_to: u64 },
    TopologyOk { msg_id: u64, in_reply_to: u64 },
    BroadcastOk { msg_id: u64, in_reply_to: u64 },
    ReadOk { msg_id: u64, in_reply_to: u64, messages: Set<u64> },
    Gossip { messages: Set<u64> },
}

/// Mathematical image of an outbound record.
pub ghost struct RecordModel {
    pub src: Seq<char>,
    pub dest: Seq<char>,
    pub body: BodyModel,
}

/// The image of an outbound body.
pub open spec fn body_model(b: Response) -> BodyModel {
    match b {
        Response::EchoOk { msg_id, in_reply_to, echo } => (BodyModel::EchoOk {
            msg_id,
            in_reply_to,
            echo: echo@,
        }),
        Response::InitOk { in_reply_to, msg_id } => (BodyModel::InitOk { in_reply_to, msg_id }),
        Response::GenerateOk { id, msg_id, in_reply_to } => (BodyModel::GenerateOk {
            id: id@,
            msg_id,
            in_reply_to,
        }),
        Response::TopologyOk { msg_id, in_reply_to } => (BodyModel::TopologyOk {
            msg_id,
            in_reply_to,
        }),
        Response::BroadcastOk { msg_id, in_reply_to } => (BodyModel::BroadcastOk {
            msg_id,
            in_reply_to,
        }),
        Response::ReadOk { msg_id, in_reply_to, messages } => (BodyModel::ReadOk {
            msg_id,
            in_reply_to,
            messages: messages@.to_set(),
        }),
        Response::Gossip { messages } => (BodyModel::Gossip { messages: messages@.to_set() }),
    }
}

/// The image of an outbound record.
pub open spec fn record_model(m: Message<Response>) -> RecordModel {
    RecordModel { src: m.src@, dest: m.dest@, body: body_model(m.body) }
}

/// The images of the records of `b` from index `from` on.
pub open spec fn models_from(b: Seq<Message<Response>>, from: int) -> Seq<RecordModel>
    recommends
        0 <= from <= b.len(),
{
    b.subrange(from, b.len() as int).map_values(|m: Message<Response>| record_model(m))
}

/// An integer payload is laid out without duplicates.
pub open spec fn payload_no_dups(m: Message<Response>) -> bool {
    match m.body {
        Response::ReadOk { messages, .. } => messages@.no_duplicates(),
        Response::Gossip { messages } => messages@.no_duplicates(),
        _ => true,
    }
}

impl<T> Message<T> {
    /// Builds the envelope for a response to this record: addressed back to
    /// its sender, from its recipient.
    pub fn reply(&self, body: Response) -> (r: Message<Response>)
        ensures
            r.src@ == self.dest@,
            r.dest@ == self.src@,
            r.body == body,
    {
        Message { src: self.dest.clone(), dest: self.src.clone(), body }
    }
}

} // verus!
