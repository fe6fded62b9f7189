//! The simulation: one tick takes the whole circuit from one state to the next.
//!
//! A tick has three stages. In the first the terminals and gates count signals, kind
//! by kind: inputs, then xor gates, then and gates, then outputs, so that each kind finds
//! the counts of the kinds before it. In the second the wires stage their next state
//! from the outputs they touch. In the third every node takes what was staged.
use crate::grid::label_grid;
use crate::node::{advance, interact, views, Node, NodeView};
use crate::palette::{color_of, NodeType, Palette};
use crate::adjacency::{build_circuit, circuit_unique, wired, wired_in_order};
use crate::extract::partitioned;
use crate::palette::get_node_color_mappings;
use crate::raster::{
    dimensions, has_float_samples, image_height, image_width, in_image, pixel_color, readable,
};
use crate::render::{all_fit, fits, render, shows};
use vstd::prelude::*;

verus! {

/// Whether each neighbour that a node lists is the identifier of a node.
pub open spec fn linked_up(nodes: Seq<NodeView>) -> bool {
    forall|i: int, k: int|
        0 <= i < nodes.len() && 0 <= k < nodes[i].connections.len() ==> 1
            <= #[trigger] nodes[i].connections[k] <= nodes.len()
}

/// Whether a tick can be run on the nodes: each neighbour that a node lists is the
/// identifier of a node, and the counts of each node leave room for one more signal from
/// each neighbour.
pub open spec fn runnable(nodes: Seq<NodeView>) -> bool {
    &&& linked_up(nodes)
    &&& forall|i: int|
        0 <= i < nodes.len() ==> (#[trigger] nodes[i]).total + nodes[i].connections.len()
            <= u32::MAX && nodes[i].agree + nodes[i].connections.len() <= u32::MAX
}

/// A node after it has looked at the first `count` of its neighbours, in the order in
/// which it lists them, as they stand in `nodes`.
pub open spec fn interact_all(me: NodeView, nodes: Seq<NodeView>, count: int) -> NodeView
    decreases count,
{
    if count <= 0 {
        me
    } else {
        interact(interact_all(me, nodes, count - 1), nodes[me.connections[count - 1] - 1])
    }
}

/// Whether a kind is one of those that count signals in the first stage of a tick.
pub open spec fn counts_signals(kind: NodeType) -> bool {
    kind == NodeType::Input || kind == NodeType::Xor || kind == NodeType::And || kind
        == NodeType::Output
}

/// The nodes after those of the kind `turn` have looked at all their neighbours. What
/// a node finds in its neighbours is what they held before this turn.
pub open spec fn evaluate(nodes: Seq<NodeView>, turn: NodeType) -> Seq<NodeView> {
    Seq::new(
        nodes.len(),
        |i: int|
            if nodes[i].nodetype == turn {
                interact_all(nodes[i], nodes, nodes[i].connections.len() as int)
            } else {
                nodes[i]
            },
    )
}

/// The nodes after those that took no turn in the first stage, the wires, have looked at
/// all their neighbours.
pub open spec fn propagate(nodes: Seq<NodeView>) -> Seq<NodeView> {
    Seq::new(
        nodes.len(),
        |i: int|
            if !counts_signals(nodes[i].nodetype) {
                interact_all(nodes[i], nodes, nodes[i].connections.len() as int)
            } else {
                nodes[i]
            },
    )
}

/// A node at the end of a tick, in the colour of the kind that it then has.
pub open spec fn settle(me: NodeView) -> NodeView {
    NodeView { color: color_of(advance(me).nodetype), ..advance(me) }
}

/// The nodes after each has taken what was staged for it.
pub open spec fn commit(nodes: Seq<NodeView>) -> Seq<NodeView> {
    Seq::new(nodes.len(), |i: int| settle(nodes[i]))
}

/// The nodes after the first stage of a tick: the inputs have taken their turn, then
/// the xor gates, then the and gates, then the outputs.
pub open spec fn evaluated(nodes: Seq<NodeView>) -> Seq<NodeView> {
    let inputs = evaluate(nodes, NodeType::Input);
    let xors = evaluate(inputs, NodeType::Xor);
    let ands = evaluate(xors, NodeType::And);
    evaluate(ands, NodeType::Output)
}

/// The nodes after one tick.
pub open spec fn step(nodes: Seq<NodeView>) -> Seq<NodeView> {
    commit(propagate(evaluated(nodes)))
}

/// The nodes after a number of ticks.
pub open spec fn run(nodes: Seq<NodeView>, ticks: nat) -> Seq<NodeView>
    decreases ticks,
{
    if ticks == 0 {
        nodes
    } else {
        step(run(nodes, (ticks - 1) as nat))
    }
}

/// A tick is deterministic: from the same nodes it gives the same nodes, and so does a
/// run of any number of ticks.
pub proof fn tick_deterministic(a: Seq<NodeView>, b: Seq<NodeView>, ticks: nat)
    requires
        a == b,
    ensures
        step(a) == step(b),
        run(a, ticks) == run(b, ticks),
{
}

/// Whether looking at a neighbour of kind `other` reads that neighbour's counts.
pub open spec fn reads_counts(me: NodeType, other: NodeType) -> bool {
    match me {
        NodeType::Output => other == NodeType::And || other == NodeType::Xor || other
            == NodeType::Input,
        NodeType::And | NodeType::Xor => other == NodeType::Input,
        NodeType::Wire(_, _) => other == NodeType::Output,
        _ => false,
    }
}

/// Whether two states of a circuit look the same to a node of kind `me`: each node has
/// the same kind in both, and the same counts where `me` reads them.
pub open spec fn same_to(me: NodeType, a: Seq<NodeView>, b: Seq<NodeView>) -> bool {
    &&& a.len() == b.len()
    &&& forall|j: int|
        0 <= j < a.len() ==> {
            &&& (#[trigger] a[j]).nodetype == b[j].nodetype
            &&& reads_counts(me, a[j].nodetype) ==> a[j].total == b[j].total && a[j].agree
                == b[j].agree
        }
}

/// Looking at neighbours changes neither the kind of a node nor what it owns or lists,
/// and between two states that look the same to the node it gives the same.
pub proof fn lemma_interact_all(me: NodeView, a: Seq<NodeView>, b: Seq<NodeView>, count: int)
    requires
        same_to(me.nodetype, a, b),
        0 <= count <= me.connections.len(),
        forall|k: int| 0 <= k < count ==> 1 <= #[trigger] me.connections[k] <= a.len(),
    ensures
        interact_all(me, a, count) == interact_all(me, b, count),
        interact_all(me, a, count) == (NodeView {
            total: interact_all(me, a, count).total,
            agree: interact_all(me, a, count).agree,
            next_nodetype: interact_all(me, a, count).next_nodetype,
            ..me
        }),
        counts_signals(me.nodetype) ==> interact_all(me, a, count).next_nodetype
            == me.next_nodetype,
        !counts_signals(me.nodetype) ==> interact_all(me, a, count).total == me.total
            && interact_all(me, a, count).agree == me.agree,
    decreases count,
{
    if count > 0 {
        lemma_interact_all(me, a, b, count - 1);
        let j = me.connections[count - 1] - 1;
        assert(a[j].nodetype == b[j].nodetype);
    }
}

/// A copy of the node at an index after it has looked at all its neighbours.
fn interact_with_neighbours(nodes: &Vec<Node>, idx: usize) -> (node: Node)
    requires
        idx < nodes.len(),
        counts_signals(nodes[idx as int].nodetype) ==> nodes[idx as int].total
            + nodes[idx as int].connections@.len() <= u32::MAX && nodes[idx as int].agree
            + nodes[idx as int].connections@.len() <= u32::MAX,
        forall|k: int|
            0 <= k < nodes[idx as int].connections@.len() ==> 1
                <= #[trigger] nodes[idx as int].connections@[k] <= nodes.len(),
    ensures
        node@ == interact_all(
            views(nodes@)[idx as int],
            views(nodes@),
            nodes[idx as int].connections@.len() as int,
        ),
{
    let ghost all = views(nodes@);
    let ghost me = all[idx as int];
    let mut node = nodes[idx].copy();
    let mut k: usize = 0;
    while k < node.connections.len()
        invariant
            idx < nodes.len(),
            all == views(nodes@),
            me == all[idx as int],
            k <= me.connections.len(),
            counts_signals(me.nodetype) ==> me.total + me.connections.len() <= u32::MAX
                && me.agree + me.connections.len() <= u32::MAX,
            forall|j: int| 0 <= j < me.connections.len() ==> 1 <= #[trigger] me.connections[j]
                <= nodes.len(),
            node@ == interact_all(me, all, k as int),
            node@.connections == me.connections,
            node@.nodetype == me.nodetype,
            node@.total <= me.total + k || !(me.nodetype == NodeType::Input || me.nodetype
                == NodeType::Output),
            node@.agree <= me.agree + k || !(me.nodetype == NodeType::Input || me.nodetype
                == NodeType::Output),
        decreases me.connections.len() - k,
    {
        let neighbour_idx = (node.connections[k] - 1) as usize;
        let neighbour = &nodes[neighbour_idx];
        assert(all[neighbour_idx as int] == neighbour@);
        node.interact_with_neighbour(neighbour);
        k += 1;
    }
    node
}

/// Whether the counts of each node of a kind leave room for one more signal from each
/// neighbour.
pub open spec fn roomy(nodes: Seq<NodeView>, kind: NodeType) -> bool {
    forall|i: int|
        0 <= i < nodes.len() && (#[trigger] nodes[i]).nodetype == kind ==> nodes[i].total
            + nodes[i].connections.len() <= u32::MAX && nodes[i].agree
            + nodes[i].connections.len() <= u32::MAX
}

/// Whether `after` is a state that `before` can reach within a tick: each node has kept
/// its kind, its pixels and its neighbours.
pub open spec fn same_circuit(before: Seq<NodeView>, after: Seq<NodeView>) -> bool {
    &&& before.len() == after.len()
    &&& forall|i: int|
        0 <= i < before.len() ==> (#[trigger] after[i]) == (NodeView {
            total: after[i].total,
            agree: after[i].agree,
            next_nodetype: after[i].next_nodetype,
            ..before[i]
        })
}

/// A turn of the first stage leaves every node of another kind as it was, and changes
/// only the counts of the others.
pub proof fn lemma_evaluate(nodes: Seq<NodeView>, turn: NodeType)
    requires
        linked_up(nodes),
        counts_signals(turn),
    ensures
        same_circuit(nodes, evaluate(nodes, turn)),
        forall|i: int|
            0 <= i < nodes.len() && nodes[i].nodetype != turn ==> #[trigger] evaluate(
                nodes,
                turn,
            )[i] == nodes[i],
        forall|i: int|
            0 <= i < nodes.len() ==> (#[trigger] evaluate(nodes, turn)[i]).next_nodetype
                == nodes[i].next_nodetype,
{
    let after = evaluate(nodes, turn);
    assert forall|i: int| 0 <= i < nodes.len() implies (#[trigger] after[i]) == (NodeView {
        total: after[i].total,
        agree: after[i].agree,
        next_nodetype: nodes[i].next_nodetype,
        ..nodes[i]
    }) by {
        if nodes[i].nodetype == turn {
            lemma_interact_all(nodes[i], nodes, nodes, nodes[i].connections.len() as int);
        }
    }
}

/// The second stage changes only what is staged, and only for nodes that took no turn in
/// the first stage.
pub proof fn lemma_propagate(nodes: Seq<NodeView>)
    requires
        linked_up(nodes),
    ensures
        same_circuit(nodes, propagate(nodes)),
        forall|i: int|
            0 <= i < nodes.len() ==> (#[trigger] propagate(nodes)[i]).total == nodes[i].total
                && propagate(nodes)[i].agree == nodes[i].agree,
{
    let after = propagate(nodes);
    assert forall|i: int| 0 <= i < nodes.len() implies (#[trigger] after[i]) == (NodeView {
        next_nodetype: after[i].next_nodetype,
        ..nodes[i]
    }) by {
        if !counts_signals(nodes[i].nodetype) {
            lemma_interact_all(nodes[i], nodes, nodes, nodes[i].connections.len() as int);
        }
    }
}

/// The first stage changes only the counts of the nodes.
pub proof fn lemma_evaluated(nodes: Seq<NodeView>)
    requires
        linked_up(nodes),
    ensures
        same_circuit(nodes, evaluated(nodes)),
        linked_up(evaluated(nodes)),
        forall|i: int|
            0 <= i < nodes.len() ==> (#[trigger] evaluated(nodes)[i]).next_nodetype
                == nodes[i].next_nodetype,
{
    let inputs = evaluate(nodes, NodeType::Input);
    let xors = evaluate(inputs, NodeType::Xor);
    let ands = evaluate(xors, NodeType::And);
    let outputs = evaluate(ands, NodeType::Output);
    lemma_evaluate(nodes, NodeType::Input);
    assert(linked_up(inputs));
    lemma_evaluate(inputs, NodeType::Xor);
    assert(linked_up(xors));
    lemma_evaluate(xors, NodeType::And);
    assert(linked_up(ands));
    lemma_evaluate(ands, NodeType::Output);
    assert(linked_up(outputs));
    assert forall|i: int| 0 <= i < nodes.len() implies (#[trigger] outputs[i]) == (NodeView {
        total: outputs[i].total,
        agree: outputs[i].agree,
        next_nodetype: nodes[i].next_nodetype,
        ..nodes[i]
    }) by {
        assert(outputs[i].pixels == ands[i].pixels);
        assert(ands[i].pixels == xors[i].pixels);
        assert(xors[i].pixels == inputs[i].pixels);
        assert(inputs[i].pixels == nodes[i].pixels);
    }
}

/// A tick keeps the pixels and the neighbours of every node and leaves its counts at
/// zero, so that another tick can follow.
pub proof fn lemma_step(nodes: Seq<NodeView>)
    requires
        linked_up(nodes),
    ensures
        step(nodes).len() == nodes.len(),
        forall|i: int|
            0 <= i < nodes.len() ==> {
                let after = #[trigger] step(nodes)[i];
                &&& after.pixels == nodes[i].pixels
                &&& after.connections == nodes[i].connections
                &&& after.id == nodes[i].id
                &&& after.explored == nodes[i].explored
                &&& after.total == 0
                &&& after.agree == 0
                &&& after.next_nodetype == NodeType::Background
                &&& after.color == color_of(after.nodetype)
            },
        linked_up(step(nodes)),
        runnable(nodes) ==> runnable(step(nodes)),
{
    let outputs = evaluated(nodes);
    let staged = propagate(outputs);
    lemma_evaluated(nodes);
    lemma_propagate(outputs);
    assert(linked_up(staged));
    assert forall|i: int| 0 <= i < nodes.len() implies {
        let after = #[trigger] step(nodes)[i];
        &&& after.pixels == nodes[i].pixels
        &&& after.connections == nodes[i].connections
        &&& after.id == nodes[i].id
        &&& after.explored == nodes[i].explored
    } by {
        assert(step(nodes)[i] == settle(staged[i]));
        assert(staged[i].pixels == outputs[i].pixels);
        assert(outputs[i].pixels == nodes[i].pixels);
    }
}

/// One turn of the first stage: the nodes of the kind `turn` look at their neighbours.
fn evaluate_pass(nodes: &mut Vec<Node>, turn: NodeType)
    requires
        linked_up(views(old(nodes)@)),
        roomy(views(old(nodes)@), turn),
        counts_signals(turn),
    ensures
        views(final(nodes)@) == evaluate(views(old(nodes)@), turn),
{
    let ghost before = views(nodes@);
    let ghost goal = evaluate(before, turn);
    proof {
        lemma_evaluate(before, turn);
    }
    let mut idx: usize = 0;
    while idx < nodes.len()
        invariant
            idx <= nodes.len(),
            nodes.len() == before.len(),
            before == views(old(nodes)@),
            goal == evaluate(before, turn),
            linked_up(before),
            roomy(before, turn),
            counts_signals(turn),
            same_circuit(before, goal),
            forall|j: int| 0 <= j < idx ==> #[trigger] views(nodes@)[j] == goal[j],
            forall|j: int| idx <= j < nodes.len() ==> #[trigger] views(nodes@)[j] == before[j],
        decreases nodes.len() - idx,
    {
        let ghost current = views(nodes@);
        if nodes[idx].nodetype == turn {
            proof {
                let me = before[idx as int];
                assert(current[idx as int] == me);
                assert forall|j: int| 0 <= j < current.len() implies {
                    &&& (#[trigger] current[j]).nodetype == before[j].nodetype
                    &&& reads_counts(turn, current[j].nodetype) ==> current[j].total
                        == before[j].total && current[j].agree == before[j].agree
                } by {
                    if j < idx {
                        assert(current[j] == goal[j]);
                        if before[j].nodetype != turn {
                            assert(goal[j] == before[j]);
                        }
                    }
                }
                assert(same_to(turn, current, before));
                lemma_interact_all(me, current, before, me.connections.len() as int);
            }
            let node = interact_with_neighbours(nodes, idx);
            nodes[idx] = node;
        }
        proof {
            let after = views(nodes@);
            assert forall|j: int| 0 <= j < idx + 1 implies #[trigger] after[j] == goal[j] by {
                if j < idx {
                    assert(after[j] == current[j]);
                }
            }
            assert forall|j: int| idx + 1 <= j < nodes.len() implies #[trigger] after[j]
                == before[j] by {
                assert(after[j] == current[j]);
            }
        }
        idx += 1;
    }
    assert(views(nodes@) =~= goal);
}

/// Whether a kind takes a turn in the first stage.
fn is_counting(kind: NodeType) -> (counting: bool)
    ensures
        counting == counts_signals(kind),
{
    match kind {
        NodeType::Input | NodeType::Xor | NodeType::And | NodeType::Output => true,
        _ => false,
    }
}

/// The second stage of a tick: each wire stages its next state from the outputs among
/// its neighbours.
pub fn propagation_stage(nodes: &mut Vec<Node>)
    requires
        linked_up(views(old(nodes)@)),
    ensures
        views(final(nodes)@) == propagate(views(old(nodes)@)),
{
    let ghost before = views(nodes@);
    let ghost goal = propagate(before);
    proof {
        lemma_propagate(before);
    }
    let mut idx: usize = 0;
    while idx < nodes.len()
        invariant
            idx <= nodes.len(),
            nodes.len() == before.len(),
            before == views(old(nodes)@),
            goal == propagate(before),
            linked_up(before),
            same_circuit(before, goal),
            forall|j: int|
                0 <= j < before.len() ==> (#[trigger] goal[j]).total == before[j].total
                    && goal[j].agree == before[j].agree,
            forall|j: int| 0 <= j < idx ==> #[trigger] views(nodes@)[j] == goal[j],
            forall|j: int| idx <= j < nodes.len() ==> #[trigger] views(nodes@)[j] == before[j],
        decreases nodes.len() - idx,
    {
        let ghost current = views(nodes@);
        if !is_counting(nodes[idx].nodetype) {
            proof {
                let me = before[idx as int];
                assert(current[idx as int] == me);
                assert forall|j: int| 0 <= j < current.len() implies {
                    &&& (#[trigger] current[j]).nodetype == before[j].nodetype
                    &&& current[j].total == before[j].total
                    &&& current[j].agree == before[j].agree
                } by {
                    if j < idx {
                        assert(current[j] == goal[j]);
                    }
                }
                assert(same_to(me.nodetype, current, before));
                lemma_interact_all(me, current, before, me.connections.len() as int);
                lemma_interact_all(me, before, before, me.connections.len() as int);
            }
            let node = interact_with_neighbours(nodes, idx);
            nodes[idx] = node;
        }
        proof {
            let after = views(nodes@);
            assert forall|j: int| 0 <= j < idx + 1 implies #[trigger] after[j] == goal[j] by {
                if j < idx {
                    assert(after[j] == current[j]);
                }
            }
            assert forall|j: int| idx + 1 <= j < nodes.len() implies #[trigger] after[j]
                == before[j] by {
                assert(after[j] == current[j]);
            }
        }
        idx += 1;
    }
    assert(views(nodes@) =~= goal);
}

/// The third stage of a tick: each node takes the kind that was staged for it, if one
/// was, starts its counts again at zero and takes the colour of its kind.
pub fn commit_stage(mappings: &Palette, nodes: &mut Vec<Node>)
    ensures
        views(final(nodes)@) == commit(views(old(nodes)@)),
{
    let ghost before = views(nodes@);
    let mut idx: usize = 0;
    while idx < nodes.len()
        invariant
            idx <= nodes.len(),
            nodes.len() == before.len(),
            forall|j: int| 0 <= j < idx ==> #[trigger] views(nodes@)[j] == settle(before[j]),
            forall|j: int| idx <= j < nodes.len() ==> #[trigger] views(nodes@)[j] == before[j],
        decreases nodes.len() - idx,
    {
        let ghost current = views(nodes@);
        nodes[idx].update_next_step();
        let color = mappings.color_of(nodes[idx].nodetype);
        nodes[idx].color = color;
        proof {
            let after = views(nodes@);
            assert(current[idx as int] == before[idx as int]);
            assert forall|j: int| 0 <= j < idx + 1 implies #[trigger] after[j] == settle(
                before[j],
            ) by {
                if j < idx {
                    assert(after[j] == current[j]);
                }
            }
            assert forall|j: int| idx + 1 <= j < nodes.len() implies #[trigger] after[j]
                == before[j] by {
                assert(after[j] == current[j]);
            }
        }
        idx += 1;
    }
    assert(views(nodes@) =~= commit(before));
}

/// The first stage of a tick: the terminals and gates count signals, kind by kind.
pub fn evaluation_stage(nodes: &mut Vec<Node>)
    requires
        runnable(views(old(nodes)@)),
    ensures
        views(final(nodes)@) == evaluated(views(old(nodes)@)),
{
    let ghost start = views(nodes@);
    let ghost inputs = evaluate(start, NodeType::Input);
    let ghost xors = evaluate(inputs, NodeType::Xor);
    let ghost ands = evaluate(xors, NodeType::And);
    proof {
        lemma_evaluate(start, NodeType::Input);
        assert(linked_up(inputs));
        lemma_evaluate(inputs, NodeType::Xor);
        assert(linked_up(xors));
        lemma_evaluate(xors, NodeType::And);
        assert(linked_up(ands));
        assert(roomy(start, NodeType::Input));
        assert(roomy(inputs, NodeType::Xor));
        assert(roomy(xors, NodeType::And));
        assert(roomy(ands, NodeType::Output));
    }
    evaluate_pass(nodes, NodeType::Input);
    evaluate_pass(nodes, NodeType::Xor);
    evaluate_pass(nodes, NodeType::And);
    evaluate_pass(nodes, NodeType::Output);
}

/// Advances the circuit by one tick.
///
/// What comes out depends on nothing but the nodes that went in: it is `step` of them.
pub fn simulation_step(mappings: &Palette, nodes: &mut Vec<Node>)
    requires
        runnable(views(old(nodes)@)),
    ensures
        views(final(nodes)@) == step(views(old(nodes)@)),
        runnable(views(final(nodes)@)),
{
    proof {
        lemma_evaluated(views(nodes@));
        lemma_step(views(nodes@));
    }
    evaluation_stage(nodes);
    propagation_stage(nodes);
    commit_stage(mappings, nodes);
}

/// How many frames a run of `steps` ticks gives: one for each tick, or only that of the
/// last tick.
pub open spec fn frame_count(steps: u32, last_only: bool) -> nat {
    if !last_only {
        steps as nat
    } else if steps > 0 {
        1
    } else {
        0
    }
}

/// After how many ticks the frame at index `k` of a run of `steps` ticks was taken.
pub open spec fn frame_tick(k: int, steps: u32, last_only: bool) -> nat {
    if last_only {
        steps as nat
    } else {
        (k + 1) as nat
    }
}

/// Runs the circuit for a number of ticks and paints frames of the size of `image`.
///
/// The nodes end in the state after `steps` ticks. The frames that come back show the
/// state after each tick, in order, or with `last_only` the state after the last tick
/// alone.
pub fn simulation_loop(
    mappings: &Palette,
    nodes: &mut Vec<Node>,
    steps: u32,
    image: &image::DynamicImage,
    last_only: bool,
) -> (frames: Vec<image::DynamicImage>)
    requires
        runnable(views(old(nodes)@)),
        all_fit(
            views(old(nodes)@),
            image_width(*image) as int,
            image_height(*image) as int,
        ),
        3 * image_width(*image) * image_height(*image) <= isize::MAX,
    ensures
        views(final(nodes)@) == run(views(old(nodes)@), steps as nat),
        frames@.len() == frame_count(steps, last_only),
        forall|k: int|
            0 <= k < frames@.len() ==> shows(
                #[trigger] frames@[k],
                run(views(old(nodes)@), frame_tick(k, steps, last_only)),
                image_width(*image) as int,
                image_height(*image) as int,
            ),
{
    let (width, height) = dimensions(image);
    let ghost start = views(nodes@);
    let mut frames: Vec<image::DynamicImage> = Vec::new();
    let mut i: u32 = 0;
    while i < steps
        invariant
            i <= steps,
            width == image_width(*image),
            height == image_height(*image),
            3 * width * height <= isize::MAX,
            start == views(old(nodes)@),
            views(nodes@) == run(start, i as nat),
            runnable(views(nodes@)),
            all_fit(views(nodes@), width as int, height as int),
            frames@.len() == if !last_only {
                i as int
            } else if i == steps && steps > 0 {
                1
            } else {
                0
            },
            forall|k: int|
                0 <= k < frames@.len() ==> shows(
                    #[trigger] frames@[k],
                    run(start, frame_tick(k, steps, last_only)),
                    width as int,
                    height as int,
                ),
        decreases steps - i,
    {
        let ghost before = views(nodes@);
        simulation_step(mappings, nodes);
        proof {
            lemma_step(before);
            assert forall|j: int| 0 <= j < before.len() implies fits(
                #[trigger] views(nodes@)[j],
                width as int,
                height as int,
            ) by {
                assert(fits(before[j], width as int, height as int));
                assert(step(before)[j].pixels == before[j].pixels);
            }
        }
        if !last_only || i + 1 == steps {
            let frame = render(nodes, width, height);
            frames.push(frame);
        }
        i += 1;
    }
    frames
}

/// Whether an image can be simulated: its pixels can be read, and it is small enough
/// for its nodes to be numbered in 32 bits and for a frame of its size to be held in
/// memory.
pub open spec fn within_limits(img: image::DynamicImage) -> bool {
    &&& readable(img)
    &&& image_width(img) * image_height(img) < u32::MAX
    &&& 3 * image_width(img) * image_height(img) <= isize::MAX
}

/// Whether nodes and frames are what a run of `steps` ticks on the circuit of an image
/// gives: the nodes are those of the image's division into regions, each with the
/// neighbours that it touches by an edge, after `steps` ticks, and the frames show them
/// after each tick, or after the last alone.
pub open spec fn simulated(
    img: image::DynamicImage,
    steps: u32,
    last_only: bool,
    nodes: Seq<NodeView>,
    frames: Seq<image::DynamicImage>,
) -> bool {
    exists|grid: Seq<Seq<u32>>, start: Seq<NodeView>|
        {
            &&& partitioned(img, grid, start)
            &&& #[trigger] wired(grid, start)
            &&& wired_in_order(grid, start)
            &&& nodes == run(start, steps as nat)
            &&& frames.len() == frame_count(steps, last_only)
            &&& forall|k: int|
                0 <= k < frames.len() ==> shows(
                    #[trigger] frames[k],
                    run(start, frame_tick(k, steps, last_only)),
                    image_width(img) as int,
                    image_height(img) as int,
                )
        }
}

/// Builds the circuit of an image and runs it for a number of ticks.
///
/// What comes back is the nodes after the last tick and the frames, or nothing where
/// the image cannot be read or is beyond the limits of size.
pub fn init(image: &image::DynamicImage, num_steps: u32, last_only: bool) -> (outcome: Option<
    (Vec<Node>, Vec<image::DynamicImage>),
>)
    ensures
        outcome is None <==> !within_limits(*image),
        outcome matches Some(done) ==> simulated(
            *image,
            num_steps,
            last_only,
            views(done.0@),
            done.1@,
        ),
{
    if has_float_samples(image) {
        return None;
    }
    let (width, height) = dimensions(image);
    assert(width * height <= 0xffff_ffff * 0xffff_ffff) by (nonlinear_arith)
        requires
            0 <= width <= 0xffff_ffff,
            0 <= height <= 0xffff_ffff,
    ;
    assert(3 * width * height == 3 * (width * height)) by (nonlinear_arith);
    let pixels = width as u64 * height as u64;
    if pixels >= u32::MAX as u64 {
        return None;
    }
    if 3 * pixels > isize::MAX as u64 {
        return None;
    }
    let mappings = get_node_color_mappings();
    let (mut nodes, grid) = build_circuit(image, &mappings);
    let ghost start = views(nodes@);
    let frames = simulation_loop(&mappings, &mut nodes, num_steps, image, last_only);
    assert(wired(label_grid(grid@), start));
    Some((nodes, frames))
}

/// A run is deterministic: two runs of the same number of ticks on the same image end
/// with the same nodes and give frames that agree in every pixel.
pub proof fn simulation_deterministic(
    img: image::DynamicImage,
    steps: u32,
    last_only: bool,
    n1: Seq<NodeView>,
    f1: Seq<image::DynamicImage>,
    n2: Seq<NodeView>,
    f2: Seq<image::DynamicImage>,
)
    requires
        simulated(img, steps, last_only, n1, f1),
        simulated(img, steps, last_only, n2, f2),
    ensures
        n1 == n2,
        f1.len() == f2.len(),
        forall|k: int, x: int, y: int|
            0 <= k < f1.len() && in_image(img, x, y) ==> #[trigger] pixel_color(f1[k], x, y)
                == pixel_color(f2[k], x, y),
{
    let (g1, s1) = choose|grid: Seq<Seq<u32>>, start: Seq<NodeView>|
        {
            &&& partitioned(img, grid, start)
            &&& #[trigger] wired(grid, start)
            &&& wired_in_order(grid, start)
            &&& n1 == run(start, steps as nat)
            &&& f1.len() == frame_count(steps, last_only)
            &&& forall|k: int|
                0 <= k < f1.len() ==> shows(
                    #[trigger] f1[k],
                    run(start, frame_tick(k, steps, last_only)),
                    image_width(img) as int,
                    image_height(img) as int,
                )
        };
    let (g2, s2) = choose|grid: Seq<Seq<u32>>, start: Seq<NodeView>|
        {
            &&& partitioned(img, grid, start)
            &&& #[trigger] wired(grid, start)
            &&& wired_in_order(grid, start)
            &&& n2 == run(start, steps as nat)
            &&& f2.len() == frame_count(steps, last_only)
            &&& forall|k: int|
                0 <= k < f2.len() ==> shows(
                    #[trigger] f2[k],
                    run(start, frame_tick(k, steps, last_only)),
                    image_width(img) as int,
                    image_height(img) as int,
                )
        };
    circuit_unique(img, g1, s1, g2, s2);
    assert forall|k: int, x: int, y: int|
        0 <= k < f1.len() && in_image(img, x, y) implies #[trigger] pixel_color(f1[k], x, y)
        == pixel_color(f2[k], x, y) by {
        let shown = run(s1, frame_tick(k, steps, last_only));
        assert(shows(f1[k], shown, image_width(img) as int, image_height(img) as int));
        assert(shows(f2[k], shown, image_width(img) as int, image_height(img) as int));
        assert(in_image(f1[k], x, y));
        assert(in_image(f2[k], x, y));
    }
}

} // verus!
