//! The world: topology, router, and the tick scheduler.
//!
//! The world owns every computer (one per node of an undirected multigraph)
//! and an edge table mapping each `EdgeId` to its unordered pair of
//! endpoints. Identities are indices into growing arenas: a computer's slot
//! is retired, never reused, when it is removed, and likewise for edges, so
//! handles stay stable for the lifetime of what they name.

use vstd::prelude::*;

verus! {

use crate::computer::{Behavior, BehaviorView, Computer, ComputerView, run_fails,
    stepped_computer};
use crate::message::{ComputerId, EdgeId, Message, MessageQueue, MessageView, queue_view};

/// One slot of the edge table: the unordered endpoint pair of a live edge,
/// or `None` once the edge has been removed.
pub type EdgeSlot = Option<(ComputerId, ComputerId)>;

/// Whether `slot` holds a live edge with `id` as one of its endpoints.
pub open spec fn touches(slot: EdgeSlot, id: ComputerId) -> bool {
    slot matches Some(pair) && (pair.0 == id || pair.1 == id)
}

/// Whether `slot` holds a live edge joining `a` and `b` (in either order).
pub open spec fn joins(slot: EdgeSlot, a: ComputerId, b: ComputerId) -> bool {
    slot matches Some(pair) && ((pair.0 == a && pair.1 == b) || (pair.0 == b && pair.1 == a))
}

/// The endpoint of `edge` that is not `from`: the recipient of a message
/// sent by `from` along `edge`. `None` when the edge is gone or `from` is
/// not one of its endpoints; such a message is dropped, never rerouted.
pub open spec fn resolved_recipient(
    edges: Seq<EdgeSlot>,
    edge: EdgeId,
    from: ComputerId,
) -> Option<ComputerId> {
    if edge < edges.len() && edges[edge as int] is Some {
        let pair = edges[edge as int]->Some_0;
        if from == pair.0 {
            Some(pair.1)
        } else if from == pair.1 {
            Some(pair.0)
        } else {
            None
        }
    } else {
        None
    }
}

/// The edges incident to `id`, in ascending `EdgeId` order.
pub open spec fn incident_edges(edges: Seq<EdgeSlot>, id: ComputerId) -> Seq<EdgeId>
    decreases edges.len(),
{
    if edges.len() == 0 {
        Seq::empty()
    } else {
        incident_edges(edges.drop_last(), id) + if touches(edges.last(), id) {
            seq![(edges.len() - 1) as EdgeId]
        } else {
            Seq::<EdgeId>::empty()
        }
    }
}

/// The edge table after node `id` is removed: every edge incident to `id`
/// is gone, the rest keep their slots.
pub open spec fn detached_edges(edges: Seq<EdgeSlot>, id: ComputerId) -> Seq<EdgeSlot> {
    edges.map_values(|slot: EdgeSlot| if touches(slot, id) { None } else { slot })
}

/// Model of [`World`].
#[verifier::ext_equal]
pub ghost struct WorldView {
    /// One slot per identity ever assigned; `None` once removed.
    pub computers: Seq<Option<ComputerView>>,
    /// One slot per edge ever created; `None` once removed.
    pub edges: Seq<EdgeSlot>,
}

impl WorldView {
    /// Whether `id` names a live computer.
    pub open spec fn node_live(self, id: ComputerId) -> bool {
        id < self.computers.len() && self.computers[id as int] is Some
    }

    /// The live computer named `id`.
    pub open spec fn node(self, id: ComputerId) -> ComputerView
        recommends
            self.node_live(id),
    {
        self.computers[id as int]->Some_0
    }

    /// Well-formedness: every live computer records the identity of its own
    /// slot, and every live edge joins two live computers.
    pub open spec fn wf(self) -> bool {
        &&& forall|i: int|
            0 <= i < self.computers.len() && self.computers[i] is Some
                ==> (#[trigger] self.computers[i])->Some_0.id == i
        &&& forall|e: int|
            0 <= e < self.edges.len() && self.edges[e] is Some ==> {
                let pair = (#[trigger] self.edges[e])->Some_0;
                self.node_live(pair.0) && self.node_live(pair.1)
            }
    }
}

/// Concatenation of every live computer's outgoing queue, in ascending
/// identity order: the total production of one run phase.
pub open spec fn all_outgoing(computers: Seq<Option<ComputerView>>) -> Seq<MessageView>
    decreases computers.len(),
{
    if computers.len() == 0 {
        Seq::empty()
    } else {
        all_outgoing(computers.drop_last()) + match computers.last() {
            Some(c) => c.outgoing,
            None => Seq::empty(),
        }
    }
}

/// The messages of `msgs`, in order, that the router delivers to `id`:
/// those whose named edge is live, has the message's sender as one
/// endpoint, and has `id` as the other.
pub open spec fn delivered_to(
    edges: Seq<EdgeSlot>,
    msgs: Seq<MessageView>,
    id: ComputerId,
) -> Seq<MessageView>
    decreases msgs.len(),
{
    if msgs.len() == 0 {
        Seq::empty()
    } else {
        let rest = delivered_to(edges, msgs.drop_last(), id);
        let m = msgs.last();
        if resolved_recipient(edges, m.edge, m.from) == Some(id) {
            rest.push(m)
        } else {
            rest
        }
    }
}

/// The world after `msgs` are sent: each live computer's incoming queue
/// gains, in order, the messages delivered to it; messages that resolve to
/// no recipient are dropped silently; nothing else changes.
pub open spec fn sent_world(w: WorldView, msgs: Seq<MessageView>) -> WorldView {
    WorldView {
        computers: w.computers.map_values(
            |slot: Option<ComputerView>|
                match slot {
                    Some(c) => Some(
                        ComputerView {
                            id: c.id,
                            incoming: c.incoming + delivered_to(w.edges, msgs, c.id),
                            outgoing: c.outgoing,
                            behavior: c.behavior,
                        },
                    ),
                    None => None,
                },
        ),
        edges: w.edges,
    }
}

/// The world with every outgoing queue drained.
pub open spec fn drained_outgoing(w: WorldView) -> WorldView {
    WorldView {
        computers: w.computers.map_values(
            |slot: Option<ComputerView>|
                match slot {
                    Some(c) => Some(
                        ComputerView {
                            id: c.id,
                            incoming: c.incoming,
                            outgoing: Seq::empty(),
                            behavior: c.behavior,
                        },
                    ),
                    None => None,
                },
        ),
        edges: w.edges,
    }
}

/// The world with every incoming queue reset to empty.
pub open spec fn reset_world(w: WorldView) -> WorldView {
    WorldView {
        computers: w.computers.map_values(
            |slot: Option<ComputerView>|
                match slot {
                    Some(c) => Some(
                        ComputerView {
                            id: c.id,
                            incoming: Seq::empty(),
                            outgoing: c.outgoing,
                            behavior: c.behavior,
                        },
                    ),
                    None => None,
                },
        ),
        edges: w.edges,
    }
}

/// The world after the run phase: every live computer has run once against
/// its current incoming queue and its adjacent edges. The phase reads no
/// other computer's state, so although computers run in ascending identity
/// order, the order leaves no trace in the result.
pub open spec fn run_world(w: WorldView) -> WorldView {
    WorldView {
        computers: w.computers.map_values(
            |slot: Option<ComputerView>|
                match slot {
                    Some(c) => Some(stepped_computer(c, incident_edges(w.edges, c.id))),
                    None => None,
                },
        ),
        edges: w.edges,
    }
}

/// The identities whose run fails in the run phase of `computers`, in
/// ascending order.
pub open spec fn failed_computers(computers: Seq<Option<ComputerView>>) -> Seq<ComputerId>
    decreases computers.len(),
{
    if computers.len() == 0 {
        Seq::empty()
    } else {
        failed_computers(computers.drop_last()) + if computers.last() matches Some(c)
            && run_fails(c.behavior) {
            seq![(computers.len() - 1) as ComputerId]
        } else {
            Seq::<ComputerId>::empty()
        }
    }
}

/// The world after the deliver phase, optionally draining the outgoing
/// slots it delivered from: everything the computers hold outgoing,
/// delivered in ascending producer order.
pub open spec fn delivered_world(w: WorldView, clear_outgoing: bool) -> WorldView {
    sent_world(
        if clear_outgoing {
            drained_outgoing(w)
        } else {
            w
        },
        all_outgoing(w.computers),
    )
}

/// The world after one full tick: a run phase, then a deliver phase that
/// drains what the run produced.
pub open spec fn ticked_world(w: WorldView) -> WorldView {
    delivered_world(run_world(w), true)
}

/// The simulated network: all computers and the multigraph joining them.
#[derive(Debug)]
pub struct World {
    computers: Vec<Option<Computer>>,
    edges: Vec<EdgeSlot>,
}

impl View for World {
    type V = WorldView;

    closed spec fn view(&self) -> WorldView {
        WorldView {
            computers: self.computers@.map_values(
                |slot: Option<Computer>|
                    match slot {
                        Some(c) => Some(c@),
                        None => None,
                    },
            ),
            edges: self.edges@,
        }
    }
}

impl World {
    /// Well-formedness of the world; established by [`World::default`] and
    /// preserved by every operation.
    pub open spec fn wf(self) -> bool {
        self@.wf()
    }
}

impl Default for World {
    /// An empty world: no computers, no edges.
    fn default() -> (world: World)
        ensures
            world.wf(),
            world@.computers.len() == 0,
            world@.edges.len() == 0,
    {
        let world = World { computers: Vec::new(), edges: Vec::new() };
        proof {
            assert(world@.computers =~= Seq::<Option<ComputerView>>::empty());
        }
        world
    }
}

impl World {
    /// Registers `computer`, assigning it the next free identity, and
    /// returns that identity. Registration cannot fail: no concrete
    /// behavior defines a fallible setup step.
    pub fn add_computer(&mut self, computer: Computer) -> (id: ComputerId)
        requires
            old(self).wf(),
        ensures
            final(self).wf(),
            id == old(self)@.computers.len(),
            final(self)@.edges == old(self)@.edges,
            final(self)@.computers == old(self)@.computers.push(
                Some(
                    ComputerView {
                        id: id,
                        incoming: computer@.incoming,
                        outgoing: computer@.outgoing,
                        behavior: computer@.behavior,
                    },
                ),
            ),
    {
        let mut computer = computer;
        let id = self.computers.len();
        computer.id = id;
        self.computers.push(Some(computer));
        proof {
            assert(self@.computers =~= old(self)@.computers.push(
                Some(
                    ComputerView {
                        id: id,
                        incoming: computer@.incoming,
                        outgoing: computer@.outgoing,
                        behavior: computer@.behavior,
                    },
                ),
            ));
        }
        id
    }

    /// Removes the computer named `computer_id` and returns it, removing
    /// every edge incident to it; `None` (and no change) when no live
    /// computer has that identity. The identity is never reassigned.
    pub fn remove_computer(&mut self, computer_id: ComputerId) -> (removed: Option<Computer>)
        requires
            old(self).wf(),
        ensures
            final(self).wf(),
            removed is Some <==> old(self)@.node_live(computer_id),
            removed matches Some(c) ==> {
                &&& c@ == old(self)@.node(computer_id)
                &&& final(self)@.computers == old(self)@.computers.update(
                    computer_id as int,
                    None,
                )
                &&& final(self)@.edges == detached_edges(old(self)@.edges, computer_id)
            },
            removed is None ==> final(self)@ == old(self)@,
    {
        if computer_id >= self.computers.len() {
            return None;
        }
        let removed = self.computers[computer_id].take();
        match removed {
            Some(c) => {
                let ghost mid = self@;
                let mut e: usize = 0;
                while e < self.edges.len()
                    invariant
                        e <= self.edges.len(),
                        self@.computers == mid.computers,
                        self@.edges.len() == mid.edges.len(),
                        forall|j: int|
                            0 <= j < e ==> self@.edges[j] == (if touches(
                                #[trigger] mid.edges[j],
                                computer_id,
                            ) {
                                None
                            } else {
                                mid.edges[j]
                            }),
                        forall|j: int| e <= j < mid.edges.len() ==> self@.edges[j] == mid.edges[j],
                    decreases self.edges.len() - e,
                {
                    let drop_edge = match &self.edges[e] {
                        Some(pair) => pair.0 == computer_id || pair.1 == computer_id,
                        None => false,
                    };
                    if drop_edge {
                        self.edges[e] = None;
                    }
                    e = e + 1;
                }
                proof {
                    assert(self@.computers =~= old(self)@.computers.update(
                        computer_id as int,
                        None,
                    ));
                    assert(self@.edges =~= detached_edges(old(self)@.edges, computer_id));
                }
                Some(c)
            },
            None => {
                proof {
                    assert(self@ =~= old(self)@);
                }
                None
            },
        }
    }

    /// A read-only view of the computer named `computer_id`.
    pub fn computer(&self, computer_id: ComputerId) -> (found: Option<&Computer>)
        ensures
            found is Some <==> self@.node_live(computer_id),
            found matches Some(c) ==> c@ == self@.node(computer_id),
    {
        if computer_id < self.computers.len() {
            self.computers[computer_id].as_ref()
        } else {
            None
        }
    }

    /// Mutable access to the computer named `computer_id`.
    pub fn computer_mut(&mut self, computer_id: ComputerId) -> (found: Option<&mut Computer>)
        requires
            old(self).wf(),
        ensures
            found is Some <==> old(self)@.node_live(computer_id),
            found is None ==> final(self)@ == old(self)@,
            found is Some ==> {
                &&& (*found.unwrap())@ == old(self)@.node(computer_id)
                &&& final(self)@.edges == old(self)@.edges
                &&& final(self)@.computers == old(self)@.computers.update(
                    computer_id as int,
                    Some((*final(found.unwrap()))@),
                )
            },
    {
        if computer_id < self.computers.len() {
            self.computers[computer_id].as_mut()
        } else {
            None
        }
    }

    /// Joins `computer_id_a` and `computer_id_b` with a fresh edge and
    /// returns its identity. Each call creates a distinct edge, so the same
    /// pair may be joined by several parallel edges.
    pub fn connect(&mut self, computer_id_a: ComputerId, computer_id_b: ComputerId) -> (edge:
        EdgeId)
        requires
            old(self).wf(),
            old(self)@.node_live(computer_id_a),
            old(self)@.node_live(computer_id_b),
        ensures
            final(self).wf(),
            edge == old(self)@.edges.len(),
            final(self)@.computers == old(self)@.computers,
            final(self)@.edges == old(self)@.edges.push(Some((computer_id_a, computer_id_b))),
    {
        let edge = self.edges.len();
        self.edges.push(Some((computer_id_a, computer_id_b)));
        edge
    }

    /// Removes the edge named `edge`; a message addressed to it afterwards
    /// is dropped. Removing an unknown or already removed edge is a no-op.
    pub fn disconnect(&mut self, edge: EdgeId)
        requires
            old(self).wf(),
        ensures
            final(self).wf(),
            final(self)@.computers == old(self)@.computers,
            edge < old(self)@.edges.len() ==> final(self)@.edges == old(self)@.edges.update(
                edge as int,
                None,
            ),
            edge >= old(self)@.edges.len() ==> final(self)@.edges == old(self)@.edges,
    {
        if edge < self.edges.len() {
            self.edges[edge] = None;
        }
    }

    /// Whether some live edge joins `computer_id_a` and `computer_id_b`.
    pub fn is_connected(&self, computer_id_a: ComputerId, computer_id_b: ComputerId) -> (connected:
        bool)
        ensures
            connected == exists|e: int|
                0 <= e < self@.edges.len() && joins(
                    #[trigger] self@.edges[e],
                    computer_id_a,
                    computer_id_b,
                ),
    {
        let mut e: usize = 0;
        while e < self.edges.len()
            invariant
                e <= self.edges.len(),
                forall|j: int|
                    0 <= j < e ==> !joins(#[trigger] self@.edges[j], computer_id_a, computer_id_b),
            decreases self.edges.len() - e,
        {
            let found = match &self.edges[e] {
                Some(pair) => (pair.0 == computer_id_a && pair.1 == computer_id_b) || (pair.0
                    == computer_id_b && pair.1 == computer_id_a),
                None => false,
            };
            if found {
                return true;
            }
            e = e + 1;
        }
        false
    }

    /// The endpoint of `edge` that is not `sender`; `None` when the edge no
    /// longer exists or `sender` is not one of its endpoints.
    pub fn resolve(&self, edge: EdgeId, sender: ComputerId) -> (recipient: Option<ComputerId>)
        ensures
            recipient == resolved_recipient(self@.edges, edge, sender),
    {
        if edge < self.edges.len() {
            match &self.edges[edge] {
                Some(pair) => {
                    if sender == pair.0 {
                        Some(pair.1)
                    } else if sender == pair.1 {
                        Some(pair.0)
                    } else {
                        None
                    }
                },
                None => None,
            }
        } else {
            None
        }
    }

    /// Every edge incident to `computer_id`, in ascending order: the viable
    /// outgoing channels handed to the computer when it runs.
    pub fn edges_of(&self, computer_id: ComputerId) -> (adjacent: Vec<EdgeId>)
        ensures
            adjacent@ == incident_edges(self@.edges, computer_id),
    {
        let mut adjacent: Vec<EdgeId> = Vec::new();
        let mut e: usize = 0;
        while e < self.edges.len()
            invariant
                e <= self.edges.len(),
                adjacent@ == incident_edges(self@.edges.take(e as int), computer_id),
            decreases self.edges.len() - e,
        {
            let ghost prefix = self@.edges.take(e as int);
            let incident = match &self.edges[e] {
                Some(pair) => pair.0 == computer_id || pair.1 == computer_id,
                None => false,
            };
            if incident {
                adjacent.push(e);
            }
            proof {
                let extended = self@.edges.take(e + 1);
                assert(extended.drop_last() =~= prefix);
                assert(extended.last() == self@.edges[e as int]);
                assert(adjacent@ =~= incident_edges(extended, computer_id));
            }
            e = e + 1;
        }
        proof {
            assert(self@.edges.take(self@.edges.len() as int) =~= self@.edges);
        }
        adjacent
    }

    /// Delivers `messages` in order: each is appended to the incoming queue
    /// of the endpoint across its edge from its sender, or dropped silently
    /// when the router resolves no recipient. Never fails.
    pub fn send_messages(&mut self, messages: MessageQueue)
        requires
            old(self).wf(),
        ensures
            final(self).wf(),
            final(self)@ == sent_world(old(self)@, queue_view(messages@)),
    {
        let ghost w0 = self@;
        let mut k: usize = 0;
        while k < messages.len()
            invariant
                k <= messages.len(),
                w0.wf(),
                self@.edges == w0.edges,
                self@.computers.len() == w0.computers.len(),
                forall|j: int|
                    0 <= j < w0.computers.len() && w0.computers[j] is Some
                        ==> #[trigger] self@.computers[j] == Some(
                        ComputerView {
                            id: w0.computers[j]->Some_0.id,
                            incoming: w0.computers[j]->Some_0.incoming + delivered_to(
                                w0.edges,
                                queue_view(messages@.take(k as int)),
                                w0.computers[j]->Some_0.id,
                            ),
                            outgoing: w0.computers[j]->Some_0.outgoing,
                            behavior: w0.computers[j]->Some_0.behavior,
                        },
                    ),
                forall|j: int|
                    0 <= j < w0.computers.len() && w0.computers[j] is None
                        ==> #[trigger] self@.computers[j] is None,
            decreases messages.len() - k,
        {
            let ghost prefix = queue_view(messages@.take(k as int));
            let ghost before = self@;
            let message = messages[k].clone();
            let ghost m = messages@[k as int]@;
            let recipient = self.resolve(message.edge, message.from);
            match recipient {
                Some(d) => {
                    proof {
                        let pair = w0.edges[m.edge as int]->Some_0;
                        assert(w0.node_live(pair.0) && w0.node_live(pair.1));
                        assert(w0.node_live(d));
                        assert(before.computers[d as int] is Some);
                    }
                    let mut taken = self.computers[d].take();
                    match &mut taken {
                        Some(c) => c.incoming.push(message),
                        None => {
                            proof {
                                assert(false);
                            }
                        },
                    }
                    self.computers[d] = taken;
                    proof {
                        let target = before.computers[d as int]->Some_0;
                        assert(self@.computers =~~= before.computers.update(
                            d as int,
                            Some(
                                ComputerView {
                                    id: target.id,
                                    incoming: target.incoming.push(m),
                                    outgoing: target.outgoing,
                                    behavior: target.behavior,
                                },
                            ),
                        ));
                    }
                },
                None => {},
            }
            proof {
                let extended = queue_view(messages@.take(k + 1));
                assert(extended.drop_last() =~= prefix);
                assert(extended.last() == m);
                assert forall|j: int|
                    0 <= j < w0.computers.len() && w0.computers[j] is Some implies #[trigger] self@
                    .computers[j] == Some(
                    ComputerView {
                        id: w0.computers[j]->Some_0.id,
                        incoming: w0.computers[j]->Some_0.incoming + delivered_to(
                            w0.edges,
                            extended,
                            w0.computers[j]->Some_0.id,
                        ),
                        outgoing: w0.computers[j]->Some_0.outgoing,
                        behavior: w0.computers[j]->Some_0.behavior,
                    },
                ) by {
                    let id_j = w0.computers[j]->Some_0.id;
                    assert(id_j == j);
                    let with_prefix = delivered_to(w0.edges, prefix, id_j);
                    if resolved_recipient(w0.edges, m.edge, m.from) == Some(id_j) {
                        assert(delivered_to(w0.edges, extended, id_j) == with_prefix.push(m));
                        assert((w0.computers[j]->Some_0.incoming + with_prefix).push(m)
                            =~= w0.computers[j]->Some_0.incoming + with_prefix.push(m));
                    } else {
                        assert(delivered_to(w0.edges, extended, id_j) == with_prefix);
                    }
                }
            }
            k = k + 1;
        }
        proof {
            assert(queue_view(messages@.take(messages@.len() as int)) =~= queue_view(messages@));
            assert(self@ =~~= sent_world(w0, queue_view(messages@)));
        }
    }

    /// The deliver phase: routes everything every computer holds outgoing,
    /// in ascending producer order, to the incoming queue across each
    /// message's edge; messages whose edge is gone, or whose sender is not
    /// one of its endpoints, are dropped silently. When `clear_outgoing` is
    /// set the outgoing queues are drained as they are delivered from.
    /// Never fails.
    pub fn deliver_messages(&mut self, clear_outgoing: bool)
        requires
            old(self).wf(),
        ensures
            final(self).wf(),
            final(self)@ == delivered_world(old(self)@, clear_outgoing),
    {
        let ghost w0 = self@;
        let mut collected: MessageQueue = Vec::new();
        let mut i: usize = 0;
        while i < self.computers.len()
            invariant
                i <= self.computers.len(),
                self@ == w0,
                queue_view(collected@) == all_outgoing(w0.computers.take(i as int)),
            decreases self.computers.len() - i,
        {
            let ghost prefix = w0.computers.take(i as int);
            match &self.computers[i] {
                Some(c) => append_clone(&mut collected, &c.outgoing),
                None => {},
            }
            proof {
                let extended = w0.computers.take(i + 1);
                assert(extended.drop_last() =~= prefix);
                assert(extended.last() == w0.computers[i as int]);
                assert(queue_view(collected@) =~= all_outgoing(extended));
            }
            i = i + 1;
        }
        proof {
            assert(w0.computers.take(w0.computers.len() as int) =~= w0.computers);
        }
        if clear_outgoing {
            let mut j: usize = 0;
            while j < self.computers.len()
                invariant
                    j <= self.computers.len(),
                    self@.edges == w0.edges,
                    self@.computers.len() == w0.computers.len(),
                    forall|p: int|
                        0 <= p < j ==> #[trigger] self@.computers[p] == drained_outgoing(
                            w0,
                        ).computers[p],
                    forall|p: int|
                        j <= p < w0.computers.len() ==> #[trigger] self@.computers[p]
                            == w0.computers[p],
                decreases self.computers.len() - j,
            {
                let ghost before = self@;
                let mut taken = self.computers[j].take();
                match &mut taken {
                    Some(c) => c.outgoing = Vec::new(),
                    None => {},
                }
                self.computers[j] = taken;
                proof {
                    assert(queue_view(Seq::<Message>::empty()) =~= Seq::<MessageView>::empty());
                    if before.computers[j as int] is Some {
                        let target = before.computers[j as int]->Some_0;
                        assert(before.computers[j as int] == w0.computers[j as int]);
                        assert(drained_outgoing(w0).computers[j as int] == Some(
                            ComputerView {
                                id: target.id,
                                incoming: target.incoming,
                                outgoing: Seq::<MessageView>::empty(),
                                behavior: target.behavior,
                            },
                        ));
                        assert(self@.computers =~~= before.computers.update(
                            j as int,
                            Some(
                                ComputerView {
                                    id: target.id,
                                    incoming: target.incoming,
                                    outgoing: Seq::<MessageView>::empty(),
                                    behavior: target.behavior,
                                },
                            ),
                        ));
                    } else {
                        assert(self@.computers =~~= before.computers.update(
                            j as int,
                            drained_outgoing(w0).computers[j as int],
                        ));
                    }
                }
                j = j + 1;
            }
            proof {
                assert(self@ =~~= drained_outgoing(w0));
            }
        }
        self.send_messages(collected);
        proof {
            assert(self@ =~~= delivered_world(w0, clear_outgoing));
        }
    }

    /// Resets every incoming queue to empty; nothing else changes. Calling
    /// it again immediately is a no-op: queues are already empty.
    pub fn reset_incoming(&mut self)
        requires
            old(self).wf(),
        ensures
            final(self).wf(),
            final(self)@ == reset_world(old(self)@),
    {
        let ghost w0 = self@;
        let mut j: usize = 0;
        while j < self.computers.len()
            invariant
                j <= self.computers.len(),
                self@.edges == w0.edges,
                self@.computers.len() == w0.computers.len(),
                forall|p: int|
                    0 <= p < j ==> #[trigger] self@.computers[p] == reset_world(w0).computers[p],
                forall|p: int|
                    j <= p < w0.computers.len() ==> #[trigger] self@.computers[p]
                        == w0.computers[p],
            decreases self.computers.len() - j,
        {
            let ghost before = self@;
            let mut taken = self.computers[j].take();
            match &mut taken {
                Some(c) => c.incoming = Vec::new(),
                None => {},
            }
            self.computers[j] = taken;
            proof {
                assert(queue_view(Seq::<Message>::empty()) =~= Seq::<MessageView>::empty());
                if before.computers[j as int] is Some {
                    let target = before.computers[j as int]->Some_0;
                    assert(before.computers[j as int] == w0.computers[j as int]);
                    assert(reset_world(w0).computers[j as int] == Some(
                        ComputerView {
                            id: target.id,
                            incoming: Seq::<MessageView>::empty(),
                            outgoing: target.outgoing,
                            behavior: target.behavior,
                        },
                    ));
                    assert(self@.computers =~~= before.computers.update(
                        j as int,
                        Some(
                            ComputerView {
                                id: target.id,
                                incoming: Seq::<MessageView>::empty(),
                                outgoing: target.outgoing,
                                behavior: target.behavior,
                            },
                        ),
                    ));
                } else {
                    assert(self@.computers =~~= before.computers.update(
                        j as int,
                        reset_world(w0).computers[j as int],
                    ));
                }
            }
            j = j + 1;
        }
        proof {
            assert(self@ =~~= reset_world(w0));
        }
    }

    /// The run phase: every live computer, in ascending identity order, is
    /// handed its adjacent edges, drains its incoming queue, and fills its
    /// outgoing slot. Returns the identities whose run failed, ascending;
    /// a failed computer contributes an empty outgoing queue and the phase
    /// goes on with all others.
    pub fn run_computers(&mut self) -> (failed: Vec<ComputerId>)
        requires
            old(self).wf(),
        ensures
            final(self).wf(),
            final(self)@ == run_world(old(self)@),
            failed@ == failed_computers(old(self)@.computers),
    {
        let ghost w0 = self@;
        let mut failed: Vec<ComputerId> = Vec::new();
        let mut i: usize = 0;
        while i < self.computers.len()
            invariant
                i <= self.computers.len(),
                w0.wf(),
                self@.edges == w0.edges,
                self@.computers.len() == w0.computers.len(),
                failed@ == failed_computers(w0.computers.take(i as int)),
                forall|p: int|
                    0 <= p < i ==> #[trigger] self@.computers[p] == run_world(w0).computers[p],
                forall|p: int|
                    i <= p < w0.computers.len() ==> #[trigger] self@.computers[p]
                        == w0.computers[p],
            decreases self.computers.len() - i,
        {
            let ghost before = self@;
            let ghost prefix = w0.computers.take(i as int);
            let adjacent = self.edges_of(i);
            let mut taken = self.computers[i].take();
            let mut run_failed = false;
            match &mut taken {
                Some(c) => {
                    run_failed = c.run(&adjacent);
                },
                None => {},
            }
            self.computers[i] = taken;
            if run_failed {
                failed.push(i);
            }
            proof {
                let extended = w0.computers.take(i + 1);
                assert(extended.drop_last() =~= prefix);
                assert(extended.last() == w0.computers[i as int]);
                if before.computers[i as int] is Some {
                    let target = before.computers[i as int]->Some_0;
                    assert(before.computers[i as int] == w0.computers[i as int]);
                    assert(target.id == i);
                    assert(run_world(w0).computers[i as int] == Some(
                        stepped_computer(target, incident_edges(w0.edges, target.id)),
                    ));
                    assert(self@.computers =~~= before.computers.update(
                        i as int,
                        Some(stepped_computer(target, incident_edges(w0.edges, target.id))),
                    ));
                    assert(run_failed == run_fails(target.behavior));
                } else {
                    assert(self@.computers =~~= before.computers.update(
                        i as int,
                        run_world(w0).computers[i as int],
                    ));
                }
                assert(failed@ =~= failed_computers(extended));
            }
            i = i + 1;
        }
        proof {
            assert(w0.computers.take(w0.computers.len() as int) =~= w0.computers);
            assert(self@ =~~= run_world(w0));
        }
        failed
    }

    /// One full tick: the run phase, then the deliver phase draining what
    /// the run produced. After a tick each computer's incoming queue holds
    /// exactly what was just delivered to it. Returns the identities whose
    /// run failed this tick.
    pub fn update(&mut self) -> (failed: Vec<ComputerId>)
        requires
            old(self).wf(),
        ensures
            final(self).wf(),
            final(self)@ == ticked_world(old(self)@),
            failed@ == failed_computers(old(self)@.computers),
    {
        let failed = self.run_computers();
        self.deliver_messages(true);
        failed
    }

    /// Deposits the outgoing queue the external scripting runtime computed
    /// for the scripted computer `computer_id`; the next run phase consumes
    /// it. Returns whether the deposit was accepted: it is rejected, with
    /// no change, when `computer_id` is not a live scripted computer.
    pub fn supply_script_output(&mut self, computer_id: ComputerId, outgoing: MessageQueue) -> (
        accepted: bool)
        requires
            old(self).wf(),
        ensures
            final(self).wf(),
            accepted == (old(self)@.node_live(computer_id) && old(self)@.node(
                computer_id,
            ).behavior is Scripted),
            accepted ==> final(self)@.edges == old(self)@.edges && final(self)@.computers == old(
                self,
            )@.computers.update(
                computer_id as int,
                Some(
                    ComputerView {
                        id: old(self)@.node(computer_id).id,
                        incoming: old(self)@.node(computer_id).incoming,
                        outgoing: old(self)@.node(computer_id).outgoing,
                        behavior: BehaviorView::Scripted {
                            pending: Some(queue_view(outgoing@)),
                        },
                    },
                ),
            ),
            !accepted ==> final(self)@ == old(self)@,
    {
        if computer_id >= self.computers.len() {
            return false;
        }
        let ghost before = self@;
        let mut taken = self.computers[computer_id].take();
        let accepted = match &mut taken {
            Some(c) => match &mut c.behavior {
                Behavior::Scripted { pending } => {
                    *pending = Some(outgoing);
                    true
                },
                _ => false,
            },
            None => false,
        };
        self.computers[computer_id] = taken;
        proof {
            if accepted {
                assert(self@.computers =~~= before.computers.update(
                    computer_id as int,
                    Some(
                        ComputerView {
                            id: before.node(computer_id).id,
                            incoming: before.node(computer_id).incoming,
                            outgoing: before.node(computer_id).outgoing,
                            behavior: BehaviorView::Scripted {
                                pending: Some(queue_view(outgoing@)),
                            },
                        },
                    ),
                ));
            } else {
                assert(self@ =~~= before);
            }
        }
        accepted
    }
}

/// Appends a copy of `queue`'s messages, in order, to `sink`.
fn append_clone(sink: &mut MessageQueue, queue: &MessageQueue)
    ensures
        queue_view(final(sink)@) == queue_view(old(sink)@) + queue_view(queue@),
{
    let mut j: usize = 0;
    while j < queue.len()
        invariant
            j <= queue.len(),
            queue_view(sink@) == queue_view(old(sink)@) + queue_view(queue@.take(j as int)),
        decreases queue.len() - j,
    {
        let ghost before = sink@;
        sink.push(queue[j].clone());
        proof {
            assert(queue_view(sink@) =~= queue_view(before).push(queue@[j as int]@));
            assert(queue_view(queue@.take(j + 1)) =~= queue_view(queue@.take(j as int)).push(
                queue@[j as int]@,
            ));
            assert(queue_view(old(sink)@) + queue_view(queue@.take(j + 1)) =~= (queue_view(
                old(sink)@,
            ) + queue_view(queue@.take(j as int))).push(queue@[j as int]@));
        }
        j = j + 1;
    }
    proof {
        assert(queue_view(queue@.take(queue@.len() as int)) =~= queue_view(queue@));
    }
}

} // verus!
