//! Messages exchanged between computers, and their mathematical models.

use vstd::prelude::*;

verus! {

/// Stable integer handle of a computer (graph node). Assigned by the
/// [`World`](crate::world::World) at registration and never reused while the
/// computer is alive.
pub type ComputerId = usize;

/// Stable handle of one connection instance. Two computers may be joined by
/// several parallel edges, each with its own `EdgeId`, so outgoing messages
/// are addressed by edge rather than by recipient.
pub type EdgeId = usize;

/// Sub-channel / purpose tag carried by every message.
pub type MessagePort = u8;

/// The payload of a message.
#[derive(Debug, PartialEq, Eq)]
pub enum MessageData {
    /// No data.
    Blank,
    /// A path-vector advertisement: the computer identities the
    /// advertisement has traversed, in order.
    BGPMessage { path: Vec<ComputerId> },
}

/// Model of [`MessageData`].
#[verifier::ext_equal]
pub ghost enum MessageDataView {
    Blank,
    BGPMessage { path: Seq<ComputerId> },
}

impl View for MessageData {
    type V = MessageDataView;

    open spec fn view(&self) -> MessageDataView {
        match self {
            MessageData::Blank => MessageDataView::Blank,
            MessageData::BGPMessage { path } => MessageDataView::BGPMessage { path: path@ },
        }
    }
}

impl Clone for MessageData {
    fn clone(&self) -> (cloned: Self)
        ensures
            cloned@ == self@,
    {
        match self {
            MessageData::Blank => MessageData::Blank,
            MessageData::BGPMessage { path } => {
                let copy = path.clone();
                proof {
                    assert(copy@ =~= path@);
                }
                MessageData::BGPMessage { path: copy }
            },
        }
    }
}

/// A message in flight from one computer to a neighbor across one specific
/// edge. Immutable once constructed.
#[derive(Debug, PartialEq, Eq)]
pub struct Message {
    /// Sub-channel tag.
    pub port: MessagePort,
    /// The computer that produced the message.
    pub from: ComputerId,
    /// The edge the message travels along; the recipient is the endpoint of
    /// this edge that is not `from`.
    pub edge: EdgeId,
    /// The payload.
    pub data: MessageData,
}

/// Model of [`Message`].
#[verifier::ext_equal]
pub ghost struct MessageView {
    pub port: MessagePort,
    pub from: ComputerId,
    pub edge: EdgeId,
    pub data: MessageDataView,
}

impl View for Message {
    type V = MessageView;

    open spec fn view(&self) -> MessageView {
        MessageView { port: self.port, from: self.from, edge: self.edge, data: self.data@ }
    }
}

impl Clone for Message {
    fn clone(&self) -> (cloned: Self)
        ensures
            cloned@ == self@,
    {
        Message {
            port: self.port,
            from: self.from,
            edge: self.edge,
            data: self.data.clone(),
        }
    }
}

/// An ordered queue of messages, owned by one computer.
pub type MessageQueue = Vec<Message>;

/// The sequence of models of a queue's messages.
pub open spec fn queue_view(queue: Seq<Message>) -> Seq<MessageView> {
    queue.map_values(|m: Message| m@)
}

} // verus!
