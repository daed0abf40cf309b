//! Computers: identity, queues, and the behavior executed each tick.

use vstd::prelude::*;

verus! {

use crate::message::{ComputerId, EdgeId, Message, MessageData, MessageDataView, MessageQueue,
    MessageView, queue_view};

/// What a computer does when it is run (§ dispatch is a tagged union over
/// the concrete behaviors).
#[derive(Debug)]
pub enum Behavior {
    /// Emits one path-vector advertisement on every adjacent edge, carrying
    /// the computer's own identity; ignores incoming messages.
    PathPropagation,
    /// Emits nothing and counts the messages received, saturating at
    /// `usize::MAX`.
    Counter { count: usize },
    /// Delegates to the external scripting runtime: the embedding deposits
    /// the script's outgoing queue in `pending` before each run; a run that
    /// finds nothing deposited fails for that tick.
    Scripted { pending: Option<MessageQueue> },
}

/// Model of [`Behavior`].
#[verifier::ext_equal]
pub ghost enum BehaviorView {
    PathPropagation,
    Counter { count: usize },
    Scripted { pending: Option<Seq<MessageView>> },
}

impl View for Behavior {
    type V = BehaviorView;

    open spec fn view(&self) -> BehaviorView {
        match self {
            Behavior::PathPropagation => BehaviorView::PathPropagation,
            Behavior::Counter { count } => BehaviorView::Counter { count: *count },
            Behavior::Scripted { pending } => BehaviorView::Scripted {
                pending: match pending {
                    Some(queue) => Some(queue_view(queue@)),
                    None => None,
                },
            },
        }
    }
}

/// The one path-vector advertisement a propagating computer emits from `id`
/// along `edge`: port 0, a path holding just `id`.
pub open spec fn advertisement(id: ComputerId, edge: EdgeId) -> MessageView {
    MessageView {
        port: 0,
        from: id,
        edge: edge,
        data: MessageDataView::BGPMessage { path: seq![id] },
    }
}

/// The outgoing queue a path-propagating computer produces for the adjacent
/// `edges`: one advertisement per edge, in the order the edges were given.
pub open spec fn propagation_outgoing(id: ComputerId, edges: Seq<EdgeId>) -> Seq<MessageView> {
    edges.map_values(|e: EdgeId| advertisement(id, e))
}

/// A counter after receiving `n` more messages: plain addition, saturating
/// at `usize::MAX`.
pub open spec fn counted(count: usize, n: nat) -> usize {
    if count + n <= usize::MAX {
        (count + n) as usize
    } else {
        usize::MAX
    }
}

/// The messages the engine accepts from a scripted computer's deposited
/// queue, in order: those addressed to an edge of the given adjacent set
/// (sending on any other edge is a no-op), stamped with the computer's own
/// identity so a script cannot forge its sender.
pub open spec fn accepted_script_outgoing(
    id: ComputerId,
    edges: Seq<EdgeId>,
    supplied: Seq<MessageView>,
) -> Seq<MessageView>
    decreases supplied.len(),
{
    if supplied.len() == 0 {
        Seq::empty()
    } else {
        let rest = accepted_script_outgoing(id, edges, supplied.drop_last());
        let m = supplied.last();
        if edges.contains(m.edge) {
            rest.push(MessageView { port: m.port, from: id, edge: m.edge, data: m.data })
        } else {
            rest
        }
    }
}

/// Whether a behavior's run fails this tick: only a scripted computer with
/// no deposited result fails; failure is isolated to that computer and tick.
pub open spec fn run_fails(behavior: BehaviorView) -> bool {
    behavior matches BehaviorView::Scripted { pending } && pending is None
}

/// The behavior state after one run over an incoming queue of length `n`.
pub open spec fn stepped_behavior(behavior: BehaviorView, n: nat) -> BehaviorView {
    match behavior {
        BehaviorView::PathPropagation => BehaviorView::PathPropagation,
        BehaviorView::Counter { count } => BehaviorView::Counter { count: counted(count, n) },
        BehaviorView::Scripted { pending } => BehaviorView::Scripted { pending: None },
    }
}

/// The outgoing queue one run of `behavior` produces for computer `id` with
/// adjacent `edges`. A failed run contributes an empty queue.
pub open spec fn produced_outgoing(
    behavior: BehaviorView,
    id: ComputerId,
    edges: Seq<EdgeId>,
) -> Seq<MessageView> {
    match behavior {
        BehaviorView::PathPropagation => propagation_outgoing(id, edges),
        BehaviorView::Counter { count } => Seq::empty(),
        BehaviorView::Scripted { pending } => match pending {
            Some(supplied) => accepted_script_outgoing(id, edges, supplied),
            None => Seq::empty(),
        },
    }
}

/// A computer of the network: one per graph node, owned exclusively by the
/// [`World`](crate::world::World).
#[derive(Debug)]
pub struct Computer {
    pub(crate) id: ComputerId,
    pub(crate) incoming: MessageQueue,
    pub(crate) outgoing: MessageQueue,
    pub(crate) behavior: Behavior,
}

/// Model of [`Computer`].
#[verifier::ext_equal]
pub ghost struct ComputerView {
    pub id: ComputerId,
    pub incoming: Seq<MessageView>,
    pub outgoing: Seq<MessageView>,
    pub behavior: BehaviorView,
}

impl View for Computer {
    type V = ComputerView;

    open(crate) spec fn view(&self) -> ComputerView {
        ComputerView {
            id: self.id,
            incoming: queue_view(self.incoming@),
            outgoing: queue_view(self.outgoing@),
            behavior: self.behavior@,
        }
    }
}

/// The model of a computer after one run step with adjacent `edges`: the
/// incoming queue it was handed is drained, the outgoing slot holds what the
/// behavior produced, and behavior state advances.
pub open spec fn stepped_computer(c: ComputerView, edges: Seq<EdgeId>) -> ComputerView {
    ComputerView {
        id: c.id,
        incoming: Seq::empty(),
        outgoing: produced_outgoing(c.behavior, c.id, edges),
        behavior: stepped_behavior(c.behavior, c.incoming.len()),
    }
}

impl Computer {
    /// A fresh computer with empty queues; its identity is assigned when it
    /// is registered with a world.
    pub fn new(behavior: Behavior) -> (c: Computer)
        ensures
            c@ == (ComputerView {
                id: 0,
                incoming: Seq::<MessageView>::empty(),
                outgoing: Seq::<MessageView>::empty(),
                behavior: behavior@,
            }),
    {
        let c = Computer { id: 0, incoming: Vec::new(), outgoing: Vec::new(), behavior };
        proof {
            assert(c@.incoming =~= Seq::<MessageView>::empty());
            assert(c@.outgoing =~= Seq::<MessageView>::empty());
        }
        c
    }

    /// The same computer with `messages` preloaded in its outgoing slot,
    /// ready for the next deliver phase.
    pub fn with_messages(self, messages: MessageQueue) -> (c: Computer)
        ensures
            c@ == (ComputerView {
                id: self@.id,
                incoming: self@.incoming,
                outgoing: queue_view(messages@),
                behavior: self@.behavior,
            }),
    {
        Computer { id: self.id, incoming: self.incoming, outgoing: messages, behavior: self.behavior }
    }

    /// This computer's identity; assigned once at registration.
    pub fn id(&self) -> (id: ComputerId)
        ensures
            id == self@.id,
    {
        self.id
    }

    /// The messages delivered to this computer and not yet drained by a run.
    pub fn incoming(&self) -> (queue: &MessageQueue)
        ensures
            queue_view(queue@) == self@.incoming,
    {
        &self.incoming
    }

    /// The messages this computer produced and not yet delivered.
    pub fn outgoing(&self) -> (queue: &MessageQueue)
        ensures
            queue_view(queue@) == self@.outgoing,
    {
        &self.outgoing
    }

    /// Mutable access to the incoming queue.
    pub fn incoming_mut(&mut self) -> (queue: &mut MessageQueue)
        ensures
            queue_view(queue@) == old(self)@.incoming,
            final(self)@ == (ComputerView {
                id: old(self)@.id,
                incoming: queue_view(final(queue)@),
                outgoing: old(self)@.outgoing,
                behavior: old(self)@.behavior,
            }),
    {
        &mut self.incoming
    }

    /// Mutable access to the outgoing queue.
    pub fn outgoing_mut(&mut self) -> (queue: &mut MessageQueue)
        ensures
            queue_view(queue@) == old(self)@.outgoing,
            final(self)@ == (ComputerView {
                id: old(self)@.id,
                incoming: old(self)@.incoming,
                outgoing: queue_view(final(queue)@),
                behavior: old(self)@.behavior,
            }),
    {
        &mut self.outgoing
    }

    /// The behavior this computer runs.
    pub fn behavior(&self) -> (behavior: &Behavior)
        ensures
            behavior@ == self@.behavior,
    {
        &self.behavior
    }

    /// Runs this computer for one tick against the adjacent `edges`: drains
    /// the incoming queue, replaces the outgoing slot with what the behavior
    /// produced, and advances behavior state. Returns whether the run
    /// failed; a failed run contributes an empty outgoing queue.
    pub fn run(&mut self, edges: &Vec<EdgeId>) -> (failed: bool)
        ensures
            final(self)@ == stepped_computer(old(self)@, edges@),
            failed == run_fails(old(self)@.behavior),
    {
        let incoming_len = self.incoming.len();
        self.incoming = Vec::new();
        let mut failed = false;
        match &mut self.behavior {
            Behavior::PathPropagation => {
                let id = self.id;
                let mut produced: MessageQueue = Vec::new();
                let mut i: usize = 0;
                while i < edges.len()
                    invariant
                        i <= edges.len(),
                        produced@.len() == i,
                        forall|j: int|
                            0 <= j < i ==> (#[trigger] produced@[j])@ == advertisement(
                                id,
                                edges@[j],
                            ),
                    decreases edges.len() - i,
                {
                    let mut path: Vec<ComputerId> = Vec::new();
                    path.push(id);
                    let message = Message {
                        port: 0,
                        from: id,
                        edge: edges[i],
                        data: MessageData::BGPMessage { path },
                    };
                    proof {
                        assert(message@ == advertisement(id, edges@[i as int]));
                    }
                    produced.push(message);
                    i = i + 1;
                }
                proof {
                    assert(queue_view(produced@) =~= propagation_outgoing(id, edges@));
                }
                self.outgoing = produced;
            },
            Behavior::Counter { count } => {
                *count = if usize::MAX - incoming_len >= *count {
                    *count + incoming_len
                } else {
                    usize::MAX
                };
                self.outgoing = Vec::new();
                proof {
                    assert(queue_view(self.outgoing@) =~= Seq::<MessageView>::empty());
                }
            },
            Behavior::Scripted { pending } => {
                match pending.take() {
                    Some(supplied) => {
                        let id = self.id;
                        let mut produced: MessageQueue = Vec::new();
                        let mut i: usize = 0;
                        while i < supplied.len()
                            invariant
                                i <= supplied.len(),
                                queue_view(produced@) == accepted_script_outgoing(
                                    id,
                                    edges@,
                                    queue_view(supplied@.take(i as int)),
                                ),
                            decreases supplied.len() - i,
                        {
                            let ghost prefix = queue_view(supplied@.take(i as int));
                            let ghost before = produced@;
                            let ghost m = supplied@[i as int]@;
                            let accepted = contains_edge(edges, supplied[i].edge);
                            if accepted {
                                let mut message = supplied[i].clone();
                                message.from = id;
                                proof {
                                    assert(message@ == (MessageView {
                                        port: m.port,
                                        from: id,
                                        edge: m.edge,
                                        data: m.data,
                                    }));
                                }
                                produced.push(message);
                            }
                            proof {
                                let extended = queue_view(supplied@.take(i + 1));
                                assert(extended.drop_last() =~= prefix);
                                assert(extended.last() == m);
                                assert(accepted_script_outgoing(id, edges@, extended)
                                    == if edges@.contains(m.edge) {
                                        accepted_script_outgoing(id, edges@, prefix).push(
                                            MessageView {
                                                port: m.port,
                                                from: id,
                                                edge: m.edge,
                                                data: m.data,
                                            },
                                        )
                                    } else {
                                        accepted_script_outgoing(id, edges@, prefix)
                                    });
                                if accepted {
                                    assert(queue_view(produced@) =~= queue_view(before).push(
                                        produced@.last()@,
                                    ));
                                }
                                assert(queue_view(produced@) == accepted_script_outgoing(
                                    id,
                                    edges@,
                                    extended,
                                ));
                            }
                            i = i + 1;
                        }
                        proof {
                            assert(queue_view(supplied@.take(supplied@.len() as int))
                                =~= queue_view(supplied@));
                        }
                        self.outgoing = produced;
                    },
                    None => {
                        failed = true;
                        self.outgoing = Vec::new();
                        proof {
                            assert(queue_view(self.outgoing@) =~= Seq::<MessageView>::empty());
                        }
                    },
                }
            },
        }
        proof {
            assert(queue_view(Seq::<Message>::empty()) =~= Seq::<MessageView>::empty());
            assert(self@ =~= stepped_computer(old(self)@, edges@));
        }
        failed
    }
}

/// Whether `edges` holds `edge`.
fn contains_edge(edges: &Vec<EdgeId>, edge: EdgeId) -> (found: bool)
    ensures
        found == edges@.contains(edge),
{
    let mut i: usize = 0;
    while i < edges.len()
        invariant
            i <= edges.len(),
            forall|j: int| 0 <= j < i ==> edges@[j] != edge,
        decreases edges.len() - i,
    {
        if edges[i] == edge {
            return true;
        }
        i = i + 1;
    }
    false
}

} // verus!
