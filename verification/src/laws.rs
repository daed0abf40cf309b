//! The engine's stated laws, proved once over the world model.
//!
//! Each law quantifies over every world of the stated shape; the exec
//! functions' contracts tie the models used here to the running engine.

use vstd::prelude::*;

verus! {

use crate::computer::{ComputerView, advertisement, propagation_outgoing, stepped_computer};
use crate::message::{ComputerId, EdgeId, MessageView};
use crate::world::{EdgeSlot, WorldView, all_outgoing, delivered_to, incident_edges, joins,
    reset_world, resolved_recipient, run_world, ticked_world, touches};

/// Everything the router delivers to `d` resolved to `d`: a delivered
/// message's edge is live and joins its sender to `d`.
pub proof fn lemma_delivered_resolves(edges: Seq<EdgeSlot>, msgs: Seq<MessageView>, d: ComputerId)
    ensures
        forall|k: int|
            0 <= k < delivered_to(edges, msgs, d).len() ==> resolved_recipient(
                edges,
                (#[trigger] delivered_to(edges, msgs, d)[k]).edge,
                delivered_to(edges, msgs, d)[k].from,
            ) == Some(d),
    decreases msgs.len(),
{
    if msgs.len() > 0 {
        lemma_delivered_resolves(edges, msgs.drop_last(), d);
    }
}

/// Delivery distributes over concatenation of message sequences.
pub proof fn lemma_delivered_concat(
    edges: Seq<EdgeSlot>,
    left: Seq<MessageView>,
    right: Seq<MessageView>,
    d: ComputerId,
)
    ensures
        delivered_to(edges, left + right, d) == delivered_to(edges, left, d) + delivered_to(
            edges,
            right,
            d,
        ),
    decreases right.len(),
{
    if right.len() == 0 {
        assert(left + right =~= left);
        assert(delivered_to(edges, left, d) + delivered_to(edges, right, d) =~= delivered_to(
            edges,
            left,
            d,
        ));
    } else {
        lemma_delivered_concat(edges, left, right.drop_last(), d);
        assert((left + right).drop_last() =~= left + right.drop_last());
        assert((left + right).last() == right.last());
        if resolved_recipient(edges, right.last().edge, right.last().from) == Some(d) {
            assert((delivered_to(edges, left, d) + delivered_to(edges, right.drop_last(), d)).push(
                right.last(),
            ) =~= delivered_to(edges, left, d) + delivered_to(edges, right.drop_last(), d).push(
                right.last(),
            ));
        }
    }
}

/// The adjacent edges, in order, along which a message from `from` lands
/// on `d`: those whose live slot has `from` as one endpoint and `d` as the
/// other.
pub open spec fn targeted_edges(
    edges: Seq<EdgeSlot>,
    adj: Seq<EdgeId>,
    from: ComputerId,
    d: ComputerId,
) -> Seq<EdgeId>
    decreases adj.len(),
{
    if adj.len() == 0 {
        Seq::empty()
    } else {
        let rest = targeted_edges(edges, adj.drop_last(), from, d);
        if resolved_recipient(edges, adj.last(), from) == Some(d) {
            rest.push(adj.last())
        } else {
            rest
        }
    }
}

/// When none of `adj` resolves from `from` to `d`, nothing is targeted.
pub proof fn lemma_targeted_none(
    edges: Seq<EdgeSlot>,
    adj: Seq<EdgeId>,
    from: ComputerId,
    d: ComputerId,
)
    requires
        forall|k: int|
            0 <= k < adj.len() ==> resolved_recipient(edges, #[trigger] adj[k], from) != Some(d),
    ensures
        targeted_edges(edges, adj, from, d) == Seq::<EdgeId>::empty(),
    decreases adj.len(),
{
    if adj.len() > 0 {
        lemma_targeted_none(edges, adj.drop_last(), from, d);
    }
}

/// When every edge of `adj` resolves from `from` to `d`, all are targeted.
pub proof fn lemma_targeted_all(
    edges: Seq<EdgeSlot>,
    adj: Seq<EdgeId>,
    from: ComputerId,
    d: ComputerId,
)
    requires
        forall|k: int|
            0 <= k < adj.len() ==> resolved_recipient(edges, #[trigger] adj[k], from) == Some(d),
    ensures
        targeted_edges(edges, adj, from, d) == adj,
    decreases adj.len(),
{
    if adj.len() > 0 {
        lemma_targeted_all(edges, adj.drop_last(), from, d);
        assert(targeted_edges(edges, adj, from, d) =~= adj);
    }
}

/// What a propagation queue delivers to `d`: one advertisement per
/// targeted adjacent edge, in order.
pub proof fn lemma_propagation_delivery(
    edges: Seq<EdgeSlot>,
    adj: Seq<EdgeId>,
    from: ComputerId,
    d: ComputerId,
)
    ensures
        delivered_to(edges, propagation_outgoing(from, adj), d) == targeted_edges(
            edges,
            adj,
            from,
            d,
        ).map_values(|e: EdgeId| advertisement(from, e)),
    decreases adj.len(),
{
    let queue = propagation_outgoing(from, adj);
    let targeted = targeted_edges(edges, adj, from, d);
    if adj.len() == 0 {
        assert(queue =~= Seq::<MessageView>::empty());
        assert(targeted.map_values(|e: EdgeId| advertisement(from, e))
            =~= Seq::<MessageView>::empty());
    } else {
        lemma_propagation_delivery(edges, adj.drop_last(), from, d);
        let shorter = targeted_edges(edges, adj.drop_last(), from, d);
        assert(queue.drop_last() =~= propagation_outgoing(from, adj.drop_last()));
        assert(queue.last() == advertisement(from, adj.last()));
        if resolved_recipient(edges, adj.last(), from) == Some(d) {
            assert(targeted.map_values(|e: EdgeId| advertisement(from, e)) =~= shorter.map_values(
                |e: EdgeId| advertisement(from, e),
            ).push(advertisement(from, adj.last())));
        }
    }
}

/// One deliver phase, decomposed by producer: what lands on `d`, producer
/// by producer in ascending identity order.
pub open spec fn delivered_from_all(
    edges: Seq<EdgeSlot>,
    computers: Seq<Option<ComputerView>>,
    d: ComputerId,
) -> Seq<MessageView>
    decreases computers.len(),
{
    if computers.len() == 0 {
        Seq::empty()
    } else {
        delivered_from_all(edges, computers.drop_last(), d) + match computers.last() {
            Some(c) => delivered_to(edges, c.outgoing, d),
            None => Seq::empty(),
        }
    }
}

/// Delivering the concatenation of every outgoing queue lands on `d`
/// exactly what the producers' queues land on `d`, producer by producer.
pub proof fn lemma_delivery_decomposes(
    edges: Seq<EdgeSlot>,
    computers: Seq<Option<ComputerView>>,
    d: ComputerId,
)
    ensures
        delivered_to(edges, all_outgoing(computers), d) == delivered_from_all(
            edges,
            computers,
            d,
        ),
    decreases computers.len(),
{
    if computers.len() == 0 {
        assert(delivered_to(edges, all_outgoing(computers), d)
            =~= Seq::<MessageView>::empty());
        assert(delivered_from_all(edges, computers, d) =~= Seq::<MessageView>::empty());
    } else {
        lemma_delivery_decomposes(edges, computers.drop_last(), d);
        let tail = match computers.last() {
            Some(c) => c.outgoing,
            None => Seq::<MessageView>::empty(),
        };
        lemma_delivered_concat(edges, all_outgoing(computers.drop_last()), tail, d);
        if computers.last() is None {
            assert(delivered_to(edges, tail, d) =~= Seq::<MessageView>::empty());
            assert(delivered_from_all(edges, computers, d) =~= delivered_from_all(
                edges,
                computers.drop_last(),
                d,
            ));
            assert(all_outgoing(computers) =~= all_outgoing(computers.drop_last()));
        }
    }
}

/// Every incident edge is in range and touches its node. The bound on the
/// table's length is a machine limit: a real edge table is a vector.
pub proof fn lemma_incident_edges_sound(edges: Seq<EdgeSlot>, id: ComputerId)
    requires
        edges.len() <= usize::MAX,
    ensures
        forall|k: int|
            0 <= k < incident_edges(edges, id).len() ==> (#[trigger] incident_edges(edges, id)[k])
                < edges.len() && touches(
                edges[incident_edges(edges, id)[k] as int],
                id,
            ),
    decreases edges.len(),
{
    if edges.len() > 0 {
        lemma_incident_edges_sound(edges.drop_last(), id);
        let incident = incident_edges(edges, id);
        let shorter = incident_edges(edges.drop_last(), id);
        if touches(edges.last(), id) {
            assert(incident =~= shorter.push((edges.len() - 1) as EdgeId));
        } else {
            assert(incident =~= shorter);
        }
        assert forall|k: int| 0 <= k < incident.len() implies (#[trigger] incident[k])
            < edges.len() && touches(edges[incident[k] as int], id) by {
            if k < shorter.len() {
                assert(incident[k] == shorter[k]);
                assert(edges.drop_last()[shorter[k] as int] == edges[shorter[k] as int]);
            } else {
                assert(incident[k] == (edges.len() - 1) as EdgeId);
                assert(edges[edges.len() - 1] == edges.last());
            }
        }
    }
}

/// Every in-range edge touching a node is among its incident edges.
pub proof fn lemma_incident_edges_complete(edges: Seq<EdgeSlot>, id: ComputerId, e: EdgeId)
    requires
        edges.len() <= usize::MAX,
        e < edges.len(),
        touches(edges[e as int], id),
    ensures
        incident_edges(edges, id).contains(e),
    decreases edges.len(),
{
    let incident = incident_edges(edges, id);
    if e + 1 == edges.len() {
        assert(incident.last() == e);
        assert(incident[incident.len() - 1] == e);
    } else {
        lemma_incident_edges_complete(edges.drop_last(), id, e);
        let shorter = incident_edges(edges.drop_last(), id);
        let k = choose|k: int| 0 <= k < shorter.len() && shorter[k] == e;
        assert(incident[k] == e);
    }
}

/// A node no in-range edge touches has no incident edges.
pub proof fn lemma_incident_edges_empty(edges: Seq<EdgeSlot>, id: ComputerId)
    requires
        forall|f: int| 0 <= f < edges.len() ==> !touches(#[trigger] edges[f], id),
    ensures
        incident_edges(edges, id).len() == 0,
    decreases edges.len(),
{
    if edges.len() > 0 {
        lemma_incident_edges_empty(edges.drop_last(), id);
    }
}

/// No self-delivery without a self-loop: for two path-propagating
/// computers joined by exactly one edge, the run phase alone leaves each
/// with an outgoing queue holding exactly one message per adjacent edge,
/// and every incoming queue empty until the deliver phase runs.
pub proof fn lemma_run_phase_pair(w: WorldView, a: ComputerId, b: ComputerId)
    requires
        w.wf(),
        w.node_live(a),
        w.node_live(b),
        w.node(a).behavior is PathPropagation,
        w.node(b).behavior is PathPropagation,
        exists|e: int|
            0 <= e < w.edges.len() && joins(#[trigger] w.edges[e], a, b) && (forall|f: int|
                0 <= f < w.edges.len() && joins(#[trigger] w.edges[f], a, b) ==> f == e),
    ensures
        run_world(w).node(a).outgoing.len() == incident_edges(w.edges, a).len(),
        run_world(w).node(b).outgoing.len() == incident_edges(w.edges, b).len(),
        forall|i: ComputerId|
            run_world(w).node_live(i) ==> (#[trigger] run_world(w).node(i)).incoming.len() == 0,
{
}

/// What one sender lands on `dst` during the tick of `lemma_tick_round_trip`,
/// summed over the senders up to identity `n`: nothing until `src` is
/// passed, and exactly `src`'s advertisement on `e` afterwards.
proof fn lemma_round_trip_sum(w: WorldView, dst: ComputerId, src: ComputerId, e: EdgeId, n: int)
    requires
        w.wf(),
        w.computers.len() <= usize::MAX,
        w.edges.len() <= usize::MAX,
        w.node_live(dst),
        w.node_live(src),
        dst != src,
        w.node(src).behavior is PathPropagation,
        forall|i: ComputerId|
            w.node_live(i) ==> (#[trigger] w.node(i)).behavior is PathPropagation || w.node(
                i,
            ).behavior is Counter,
        e < w.edges.len(),
        joins(w.edges[e as int], dst, src),
        incident_edges(w.edges, dst) == seq![e],
        incident_edges(w.edges, src) == seq![e],
        0 <= n <= w.computers.len(),
    ensures
        delivered_from_all(w.edges, run_world(w).computers.take(n), dst) == if src < n {
            seq![advertisement(src, e)]
        } else {
            Seq::<MessageView>::empty()
        },
    decreases n,
{
    let r = run_world(w);
    if n == 0 {
        assert(r.computers.take(0) =~= Seq::<Option<ComputerView>>::empty());
    } else {
        lemma_round_trip_sum(w, dst, src, e, n - 1);
        let cs = r.computers.take(n);
        let shorter = r.computers.take(n - 1);
        assert(cs.drop_last() =~= shorter);
        let sum_shorter = delivered_from_all(w.edges, shorter, dst);
        let i = (n - 1) as ComputerId;
        if w.computers[n - 1] is Some {
            let c = w.node(i);
            assert(c.id == i);
            let adj = incident_edges(w.edges, c.id);
            assert(cs.last() == Some(stepped_computer(c, adj)));
            if c.behavior is PathPropagation {
                lemma_propagation_delivery(w.edges, adj, i, dst);
                if i == src {
                    assert(resolved_recipient(w.edges, e, src) == Some(dst));
                    assert(seq![e].drop_last() =~= Seq::<EdgeId>::empty());
                    assert(seq![e].last() == e);
                    assert(targeted_edges(w.edges, adj.drop_last(), src, dst)
                        =~= Seq::<EdgeId>::empty());
                    assert(targeted_edges(w.edges, adj, src, dst) =~= seq![e]);
                    assert(targeted_edges(w.edges, adj, src, dst).map_values(
                        |f: EdgeId| advertisement(src, f),
                    ) =~= seq![advertisement(src, e)]);
                    assert(sum_shorter =~= Seq::<MessageView>::empty());
                    assert(delivered_from_all(w.edges, cs, dst) =~= seq![advertisement(src, e)]);
                } else {
                    if i == dst {
                        assert(resolved_recipient(w.edges, e, dst) == Some(src));
                        assert forall|k: int| 0 <= k < adj.len() implies resolved_recipient(
                            w.edges,
                            #[trigger] adj[k],
                            i,
                        ) != Some(dst) by {
                            assert(adj[k] == e);
                        }
                    } else {
                        assert forall|k: int| 0 <= k < adj.len() implies resolved_recipient(
                            w.edges,
                            #[trigger] adj[k],
                            i,
                        ) != Some(dst) by {
                            lemma_incident_edges_sound(w.edges, i);
                            let f = adj[k];
                            if resolved_recipient(w.edges, f, i) == Some(dst) {
                                assert(touches(w.edges[f as int], dst));
                                lemma_incident_edges_complete(w.edges, dst, f);
                                let j = choose|j: int|
                                    0 <= j < seq![e].len() && seq![e][j] == f;
                                assert(seq![e][0] == e);
                                assert(f == e);
                                assert(false);
                            }
                        }
                    }
                    lemma_targeted_none(w.edges, adj, i, dst);
                    assert(targeted_edges(w.edges, adj, i, dst).map_values(
                        |f: EdgeId| advertisement(i, f),
                    ) =~= Seq::<MessageView>::empty());
                    assert(delivered_from_all(w.edges, cs, dst) =~= sum_shorter);
                }
            } else {
                assert(c.behavior is Counter);
                assert(stepped_computer(c, adj).outgoing =~= Seq::<MessageView>::empty());
                assert(delivered_from_all(w.edges, cs, dst) =~= sum_shorter);
            }
        } else {
            assert(cs.last() == None::<ComputerView>);
            assert(delivered_from_all(w.edges, cs, dst) =~= sum_shorter);
        }
    }
}

/// Edge-exact round trip, one direction: after one full tick, `dst`'s
/// incoming queue holds exactly the advertisement `src` produced on their
/// shared edge `e` — so the delivered message's edge field names `e`.
proof fn lemma_round_trip_side(w: WorldView, dst: ComputerId, src: ComputerId, e: EdgeId)
    requires
        w.wf(),
        w.computers.len() <= usize::MAX,
        w.edges.len() <= usize::MAX,
        w.node_live(dst),
        w.node_live(src),
        dst != src,
        w.node(src).behavior is PathPropagation,
        forall|i: ComputerId|
            w.node_live(i) ==> (#[trigger] w.node(i)).behavior is PathPropagation || w.node(
                i,
            ).behavior is Counter,
        e < w.edges.len(),
        joins(w.edges[e as int], dst, src),
        incident_edges(w.edges, dst) == seq![e],
        incident_edges(w.edges, src) == seq![e],
    ensures
        ticked_world(w).node(dst).incoming == seq![advertisement(src, e)],
{
    let r = run_world(w);
    lemma_round_trip_sum(w, dst, src, e, w.computers.len() as int);
    assert(r.computers.take(w.computers.len() as int) =~= r.computers);
    lemma_delivery_decomposes(w.edges, r.computers, dst);
    assert(ticked_world(w).node(dst).incoming =~= seq![advertisement(src, e)]);
}

/// Edge-exact round trip: two path-propagating computers `a` and `b`
/// joined by the single edge `e` — each one's only edge — receive, after
/// one full `tick`, exactly the advertisement the other produced on `e`,
/// and the delivered message's edge field equals `e`. Other computers may
/// exist, propagating or counting on their own edges.
pub proof fn lemma_tick_round_trip(w: WorldView, a: ComputerId, b: ComputerId, e: EdgeId)
    requires
        w.wf(),
        w.computers.len() <= usize::MAX,
        w.edges.len() <= usize::MAX,
        w.node_live(a),
        w.node_live(b),
        a != b,
        w.node(a).behavior is PathPropagation,
        w.node(b).behavior is PathPropagation,
        forall|i: ComputerId|
            w.node_live(i) ==> (#[trigger] w.node(i)).behavior is PathPropagation || w.node(
                i,
            ).behavior is Counter,
        e < w.edges.len(),
        joins(w.edges[e as int], a, b),
        incident_edges(w.edges, a) == seq![e],
        incident_edges(w.edges, b) == seq![e],
    ensures
        ticked_world(w).node(a).incoming == seq![advertisement(b, e)],
        ticked_world(w).node(b).incoming == seq![advertisement(a, e)],
        ticked_world(w).node(a).incoming[0].edge == e,
        ticked_world(w).node(b).incoming[0].edge == e,
{
    lemma_round_trip_side(w, a, b, e);
    lemma_round_trip_side(w, b, a, e);
    assert(seq![advertisement(b, e)][0] == advertisement(b, e));
    assert(seq![advertisement(a, e)][0] == advertisement(a, e));
}

/// The number of inward messages a star's leaves produce in one run
/// phase: the incident-edge counts of every identity below `n` except the
/// hub `c`, summed.
pub open spec fn fan_in_total(n: int, edges: Seq<EdgeSlot>, c: ComputerId) -> nat
    decreases n,
{
    if n <= 0 {
        0
    } else {
        fan_in_total(n - 1, edges, c) + if n - 1 != c {
            incident_edges(edges, (n - 1) as ComputerId).len()
        } else {
            0
        }
    }
}

/// With no edges at all the fan-in sum is zero.
proof fn lemma_fan_in_empty(n: int, edges: Seq<EdgeSlot>, c: ComputerId)
    requires
        edges.len() == 0,
    ensures
        fan_in_total(n, edges, c) == 0,
    decreases n,
{
    if n > 0 {
        lemma_fan_in_empty(n - 1, edges, c);
    }
}

/// Appending an edge whose endpoints lie outside the summed range leaves
/// the fan-in sum unchanged.
proof fn lemma_fan_in_push_above(n: int, edges: Seq<EdgeSlot>, x: ComputerId, c: ComputerId)
    requires
        n <= usize::MAX,
        edges.len() < usize::MAX,
        x >= n,
    ensures
        fan_in_total(n, edges.push(Some((x, c))), c) == fan_in_total(n, edges, c),
    decreases n,
{
    let pushed = edges.push(Some((x, c)));
    if n > 0 {
        lemma_fan_in_push_above(n - 1, edges, x, c);
        let i = (n - 1) as ComputerId;
        assert(pushed.drop_last() =~= edges);
        if n - 1 != c {
            assert(!touches(pushed.last(), i));
            assert(incident_edges(pushed, i) =~= incident_edges(edges, i));
        }
    }
}

/// Appending a star edge from leaf `x` adds exactly one to the fan-in sum.
proof fn lemma_fan_in_push(n: int, edges: Seq<EdgeSlot>, x: ComputerId, c: ComputerId)
    requires
        n <= usize::MAX,
        edges.len() < usize::MAX,
        0 <= x < n,
        x != c,
    ensures
        fan_in_total(n, edges.push(Some((x, c))), c) == fan_in_total(n, edges, c) + 1,
    decreases n,
{
    let pushed = edges.push(Some((x, c)));
    let i = (n - 1) as ComputerId;
    assert(pushed.drop_last() =~= edges);
    if x == n - 1 {
        lemma_fan_in_push_above(n - 1, edges, x, c);
        assert(touches(pushed.last(), i));
        assert(incident_edges(pushed, i) =~= incident_edges(edges, i).push(
            edges.len() as EdgeId,
        ));
    } else {
        lemma_fan_in_push(n - 1, edges, x, c);
        if n - 1 != c {
            assert(!touches(pushed.last(), i));
            assert(incident_edges(pushed, i) =~= incident_edges(edges, i));
        }
    }
}

/// In a star around `c` whose leaves all lie below `n_ids`, the fan-in
/// sum counts every edge exactly once.
proof fn lemma_star_total(edges: Seq<EdgeSlot>, c: ComputerId, n_ids: int)
    requires
        n_ids <= usize::MAX,
        edges.len() <= usize::MAX,
        forall|f: int|
            0 <= f < edges.len() ==> ((#[trigger] edges[f]) matches Some(pair) && pair.1 == c
                && pair.0 != c && pair.0 < n_ids),
    ensures
        fan_in_total(n_ids, edges, c) == edges.len(),
    decreases edges.len(),
{
    if edges.len() == 0 {
        lemma_fan_in_empty(n_ids, edges, c);
    } else {
        let shorter = edges.drop_last();
        lemma_star_total(shorter, c, n_ids);
        let pair = edges.last()->Some_0;
        assert(pair == (pair.0, c));
        assert(edges =~= shorter.push(Some((pair.0, c))));
        lemma_fan_in_push(n_ids, shorter, pair.0, c);
    }
}

/// What the first `n` computers of a star land on the hub `c` during one
/// tick: as many messages as the fan-in sum counts.
proof fn lemma_star_delivered_len(w: WorldView, c: ComputerId, n: int)
    requires
        w.wf(),
        w.computers.len() <= usize::MAX,
        w.edges.len() <= usize::MAX,
        w.node_live(c),
        forall|i: ComputerId|
            w.node_live(i) ==> (#[trigger] w.node(i)).behavior is PathPropagation,
        forall|f: int|
            0 <= f < w.edges.len() ==> ((#[trigger] w.edges[f]) matches Some(pair) && pair.1
                == c && pair.0 != c),
        0 <= n <= w.computers.len(),
    ensures
        delivered_from_all(w.edges, run_world(w).computers.take(n), c).len() == fan_in_total(
            n,
            w.edges,
            c,
        ),
    decreases n,
{
    let r = run_world(w);
    if n == 0 {
        assert(r.computers.take(0) =~= Seq::<Option<ComputerView>>::empty());
    } else {
        lemma_star_delivered_len(w, c, n - 1);
        let cs = r.computers.take(n);
        let shorter = r.computers.take(n - 1);
        assert(cs.drop_last() =~= shorter);
        let sum_shorter = delivered_from_all(w.edges, shorter, c);
        let i = (n - 1) as ComputerId;
        if w.computers[n - 1] is Some {
            let cv = w.node(i);
            assert(cv.id == i);
            let adj = incident_edges(w.edges, cv.id);
            assert(cs.last() == Some(stepped_computer(cv, adj)));
            assert(cv.behavior is PathPropagation);
            lemma_propagation_delivery(w.edges, adj, i, c);
            lemma_incident_edges_sound(w.edges, i);
            if i == c {
                assert forall|k: int| 0 <= k < adj.len() implies resolved_recipient(
                    w.edges,
                    #[trigger] adj[k],
                    i,
                ) != Some(c) by {
                    let pair = w.edges[adj[k] as int]->Some_0;
                    assert(pair.1 == c && pair.0 != c);
                }
                lemma_targeted_none(w.edges, adj, i, c);
                assert(targeted_edges(w.edges, adj, i, c).map_values(
                    |f: EdgeId| advertisement(i, f),
                ) =~= Seq::<MessageView>::empty());
            } else {
                assert forall|k: int| 0 <= k < adj.len() implies resolved_recipient(
                    w.edges,
                    #[trigger] adj[k],
                    i,
                ) == Some(c) by {
                    let pair = w.edges[adj[k] as int]->Some_0;
                    assert(pair.1 == c && pair.0 != c);
                    assert(touches(w.edges[adj[k] as int], i));
                    assert(pair.0 == i);
                }
                lemma_targeted_all(w.edges, adj, i, c);
            }
        } else {
            assert(cs.last() == None::<ComputerView>);
            if n - 1 != c {
                assert forall|f: int| 0 <= f < w.edges.len() implies !touches(
                    #[trigger] w.edges[f],
                    i,
                ) by {
                    let pair = w.edges[f]->Some_0;
                    assert(w.node_live(pair.0) && w.node_live(pair.1));
                }
                lemma_incident_edges_empty(w.edges, i);
            }
        }
    }
}

/// Fan-in counting: in a star whose hub `c` is joined to path-propagating
/// leaves — every edge runs from a leaf to `c`, several parallel edges
/// allowed — one full tick lands exactly one message per edge in the
/// hub's incoming queue: its length equals the number of edges.
pub proof fn lemma_star_fan_in(w: WorldView, c: ComputerId)
    requires
        w.wf(),
        w.computers.len() <= usize::MAX,
        w.edges.len() <= usize::MAX,
        w.node_live(c),
        forall|i: ComputerId|
            w.node_live(i) ==> (#[trigger] w.node(i)).behavior is PathPropagation,
        forall|f: int|
            0 <= f < w.edges.len() ==> ((#[trigger] w.edges[f]) matches Some(pair) && pair.1
                == c && pair.0 != c),
    ensures
        ticked_world(w).node(c).incoming.len() == w.edges.len(),
{
    let r = run_world(w);
    let n = w.computers.len() as int;
    lemma_star_delivered_len(w, c, n);
    assert forall|f: int| 0 <= f < w.edges.len() implies ((#[trigger] w.edges[f]) matches Some(
        pair,
    ) && pair.1 == c && pair.0 != c && pair.0 < n) by {
        let pair = w.edges[f]->Some_0;
        assert(w.node_live(pair.0));
    }
    lemma_star_total(w.edges, c, n);
    assert(r.computers.take(n) =~= r.computers);
    lemma_delivery_decomposes(w.edges, r.computers, c);
    assert(ticked_world(w).node(c).incoming =~= Seq::<MessageView>::empty() + delivered_to(
        w.edges,
        all_outgoing(r.computers),
        c,
    ));
}

/// Resetting the incoming queues is idempotent: one reset leaves every
/// incoming queue empty, and a second reset on its heels changes nothing.
pub proof fn lemma_reset_incoming_idempotent(w: WorldView)
    ensures
        forall|i: ComputerId|
            reset_world(w).node_live(i) ==> (#[trigger] reset_world(w).node(i)).incoming.len()
                == 0,
        reset_world(reset_world(w)) == reset_world(w),
{
    assert(reset_world(reset_world(w)) =~~= reset_world(w));
}

/// Dangling edges drop their messages: once an edge is removed — for
/// instance between the run and deliver phases — the router delivers a
/// message addressed to it to no computer at all, and delivery itself
/// reports no error (it cannot fail).
pub proof fn lemma_dangling_edge_dropped(
    edges: Seq<EdgeSlot>,
    msgs: Seq<MessageView>,
    e: EdgeId,
)
    requires
        e < edges.len() ==> edges[e as int] is None,
    ensures
        forall|d: ComputerId, k: int|
            0 <= k < delivered_to(edges, msgs, d).len() ==> (#[trigger] delivered_to(
                edges,
                msgs,
                d,
            )[k]).edge != e,
{
    assert forall|d: ComputerId, k: int|
        0 <= k < delivered_to(edges, msgs, d).len() implies (#[trigger] delivered_to(
        edges,
        msgs,
        d,
    )[k]).edge != e by {
        lemma_delivered_resolves(edges, msgs, d);
        assert(resolved_recipient(edges, delivered_to(edges, msgs, d)[k].edge, delivered_to(
            edges,
            msgs,
            d,
        )[k].from) == Some(d));
    }
}

} // verus!
