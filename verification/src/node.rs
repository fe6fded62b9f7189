//! Nodes: the wires, gates and terminals of a circuit, and how one node reacts to a neighbour.
use crate::palette::{kind_of, Color, NodeType, Palette, WireState};
use vstd::prelude::*;

verus! {

/// The column and the row of one pixel.
#[derive(PartialEq, Eq, Clone, Copy, Debug, Structural)]
pub struct PixelCoords {
    pub x: u32,
    pub y: u32,
}

/// One cluster of pixels of the same colour.
///
/// `next_nodetype` is the kind that the node takes at the end of the running tick; the
/// background kind there says that the node keeps its kind. `total` and `agree` count the
/// neighbours seen and the neighbours that carry a signal during one tick.
#[derive(Debug)]
pub struct Node {
    pub color: Color,
    pub id: u32,
    pub pixels: Vec<PixelCoords>,
    pub connections: Vec<u32>,
    pub nodetype: NodeType,
    pub explored: bool,
    pub next_nodetype: NodeType,
    pub total: u32,
    pub agree: u32,
}

/// What a node holds, as mathematical values.
pub struct NodeView {
    pub color: Color,
    pub id: u32,
    pub pixels: Seq<PixelCoords>,
    pub connections: Seq<u32>,
    pub nodetype: NodeType,
    pub explored: bool,
    pub next_nodetype: NodeType,
    pub total: nat,
    pub agree: nat,
}

impl View for Node {
    type V = NodeView;

    open spec fn view(&self) -> NodeView {
        NodeView {
            color: self.color,
            id: self.id,
            pixels: self.pixels@,
            connections: self.connections@,
            nodetype: self.nodetype,
            explored: self.explored,
            next_nodetype: self.next_nodetype,
            total: self.total as nat,
            agree: self.agree as nat,
        }
    }
}

/// The views of a sequence of nodes.
pub open spec fn views(nodes: Seq<Node>) -> Seq<NodeView> {
    nodes.map_values(|n: Node| n@)
}

/// A node as it is made: of a colour's kind, without pixels, neighbours or signal.
pub open spec fn fresh(id: u32, color: Color) -> NodeView {
    NodeView {
        color,
        id,
        pixels: Seq::empty(),
        connections: Seq::empty(),
        nodetype: kind_of(color),
        explored: false,
        next_nodetype: NodeType::Background,
        total: 0,
        agree: 0,
    }
}

/// Whether a gate or terminal with these counts passes a signal on to an output.
pub open spec fn fires(other: NodeView) -> bool {
    match other.nodetype {
        NodeType::And => other.agree == other.total && other.total > 0,
        NodeType::Xor => other.agree % 2 == 1,
        NodeType::Input => other.agree != 0,
        _ => false,
    }
}

/// A node after it has looked at one neighbour.
///
/// An input counts its wires and those of them that are active. A gate takes over the
/// counts of an input. An output counts its neighbours and those of them that fire. A
/// wire next to an output stages its next state: active where all that the output
/// counted has fired.
pub open spec fn interact(me: NodeView, other: NodeView) -> NodeView {
    match me.nodetype {
        NodeType::Input => match other.nodetype {
            NodeType::Wire(_, WireState::Active) => NodeView {
                total: me.total + 1,
                agree: me.agree + 1,
                ..me
            },
            NodeType::Wire(_, WireState::Inactive) => NodeView { total: me.total + 1, ..me },
            _ => me,
        },
        NodeType::Output => NodeView {
            total: me.total + 1,
            agree: if fires(other) {
                me.agree + 1
            } else {
                me.agree
            },
            ..me
        },
        NodeType::And | NodeType::Xor => match other.nodetype {
            NodeType::Input => NodeView { total: other.total, agree: other.agree, ..me },
            _ => me,
        },
        NodeType::Wire(channel, _) => match other.nodetype {
            NodeType::Output => NodeView {
                next_nodetype: NodeType::Wire(
                    channel,
                    if other.agree == other.total {
                        WireState::Active
                    } else {
                        WireState::Inactive
                    },
                ),
                ..me
            },
            _ => me,
        },
        NodeType::Background => me,
    }
}

/// A node at the end of a tick: it takes the kind that was staged, if one was, and its
/// counts start again at zero.
pub open spec fn advance(me: NodeView) -> NodeView {
    NodeView {
        nodetype: if me.next_nodetype != NodeType::Background {
            me.next_nodetype
        } else {
            me.nodetype
        },
        next_nodetype: NodeType::Background,
        total: 0,
        agree: 0,
        ..me
    }
}

fn copy_pixels(pixels: &Vec<PixelCoords>) -> (copy: Vec<PixelCoords>)
    ensures
        copy@ == pixels@,
{
    let mut copy: Vec<PixelCoords> = Vec::new();
    let mut i: usize = 0;
    while i < pixels.len()
        invariant
            i <= pixels.len(),
            copy@ == pixels@.take(i as int),
        decreases pixels.len() - i,
    {
        copy.push(pixels[i]);
        i += 1;
    }
    copy
}

fn copy_ids(ids: &Vec<u32>) -> (copy: Vec<u32>)
    ensures
        copy@ == ids@,
{
    let mut copy: Vec<u32> = Vec::new();
    let mut i: usize = 0;
    while i < ids.len()
        invariant
            i <= ids.len(),
            copy@ == ids@.take(i as int),
        decreases ids.len() - i,
    {
        copy.push(ids[i]);
        i += 1;
    }
    copy
}

fn holds_id(ids: &Vec<u32>, id: u32) -> (found: bool)
    ensures
        found == ids@.contains(id),
{
    let mut i: usize = 0;
    while i < ids.len()
        invariant
            i <= ids.len(),
            !ids@.take(i as int).contains(id),
        decreases ids.len() - i,
    {
        if ids[i] == id {
            return true;
        }
        assert(ids@.take(i + 1) == ids@.take(i as int).push(ids@[i as int]));
        i += 1;
    }
    assert(ids@.take(ids.len() as int) == ids@);
    false
}

impl Node {
    /// A node of a colour's kind, without pixels, neighbours or signal.
    pub fn new(id: u32, color: Color, mappings: &Palette) -> (node: Node)
        ensures
            node@ == fresh(id, color),
    {
        Node {
            nodetype: color.to_nodetype(mappings),
            color,
            id,
            pixels: Vec::new(),
            connections: Vec::new(),
            explored: false,
            next_nodetype: NodeType::Background,
            total: 0,
            agree: 0,
        }
    }

    /// A second node that holds the same as this one.
    pub fn copy(&self) -> (node: Node)
        ensures
            node@ == self@,
    {
        Node {
            nodetype: self.nodetype,
            color: self.color,
            id: self.id,
            pixels: copy_pixels(&self.pixels),
            connections: copy_ids(&self.connections),
            explored: self.explored,
            next_nodetype: self.next_nodetype,
            total: self.total,
            agree: self.agree,
        }
    }

    /// Appends a pixel to those that the node owns.
    pub fn add_pixel(&mut self, x: u32, y: u32)
        ensures
            final(self)@ == (NodeView {
                pixels: old(self)@.pixels.push(PixelCoords { x, y }),
                ..old(self)@
            }),
    {
        self.pixels.push(PixelCoords { x, y });
    }

    /// Marks the node as one whose pixels have all been found.
    pub fn make_explored(&mut self)
        ensures
            final(self)@ == (NodeView { explored: true, ..old(self)@ }),
    {
        self.explored = true;
    }

    /// Appends a neighbour's identifier unless the node lists it already.
    pub fn add_connection(&mut self, id: u32)
        ensures
            final(self)@ == (NodeView {
                connections: if old(self)@.connections.contains(id) {
                    old(self)@.connections
                } else {
                    old(self)@.connections.push(id)
                },
                ..old(self)@
            }),
    {
        if !holds_id(&self.connections, id) {
            self.connections.push(id);
        }
    }

    /// This node with the pixels and the neighbours of another appended to its own.
    pub fn merge(&self, other: &Node) -> (node: Node)
        ensures
            node@ == (NodeView {
                pixels: self@.pixels + other@.pixels,
                connections: self@.connections + other@.connections,
                ..self@
            }),
    {
        let mut pixels = copy_pixels(&self.pixels);
        let mut i: usize = 0;
        while i < other.pixels.len()
            invariant
                i <= other.pixels.len(),
                pixels@ == self.pixels@ + other.pixels@.take(i as int),
            decreases other.pixels.len() - i,
        {
            pixels.push(other.pixels[i]);
            i += 1;
        }
        let mut connections = copy_ids(&self.connections);
        let mut j: usize = 0;
        while j < other.connections.len()
            invariant
                j <= other.connections.len(),
                connections@ == self.connections@ + other.connections@.take(j as int),
            decreases other.connections.len() - j,
        {
            connections.push(other.connections[j]);
            j += 1;
        }
        assert(other.pixels@.take(other.pixels.len() as int) == other.pixels@);
        assert(other.connections@.take(other.connections.len() as int) == other.connections@);
        Node {
            nodetype: self.nodetype,
            color: self.color,
            id: self.id,
            pixels,
            connections,
            explored: self.explored,
            next_nodetype: self.next_nodetype,
            total: self.total,
            agree: self.agree,
        }
    }

    /// Lets the node look at one neighbour.
    pub fn interact_with_neighbour(&mut self, other: &Node)
        requires
            interact(old(self)@, other@).total <= u32::MAX,
            interact(old(self)@, other@).agree <= u32::MAX,
        ensures
            final(self)@ == interact(old(self)@, other@),
    {
        match self.nodetype {
            NodeType::Input => match other.nodetype {
                NodeType::Wire(_, WireState::Active) => {
                    self.total += 1;
                    self.agree += 1;
                },
                NodeType::Wire(_, WireState::Inactive) => {
                    self.total += 1;
                },
                _ => {},
            },
            NodeType::Output => {
                let fires = match other.nodetype {
                    NodeType::And => other.agree == other.total && other.total > 0,
                    NodeType::Xor => other.agree % 2 == 1,
                    NodeType::Input => other.agree != 0,
                    _ => false,
                };
                self.total += 1;
                if fires {
                    self.agree += 1;
                }
            },
            NodeType::And | NodeType::Xor => match other.nodetype {
                NodeType::Input => {
                    self.total = other.total;
                    self.agree = other.agree;
                },
                _ => {},
            },
            NodeType::Wire(channel, _) => match other.nodetype {
                NodeType::Output => {
                    if other.agree == other.total {
                        self.next_nodetype = NodeType::Wire(channel, WireState::Active);
                    } else {
                        self.next_nodetype = NodeType::Wire(channel, WireState::Inactive);
                    }
                },
                _ => {},
            },
            NodeType::Background => {},
        }
    }

    /// Ends the tick for the node.
    pub fn update_next_step(&mut self)
        ensures
            final(self)@ == advance(old(self)@),
    {
        if self.next_nodetype != NodeType::Background {
            self.nodetype = self.next_nodetype;
            self.next_nodetype = NodeType::Background;
        }
        self.total = 0;
        self.agree = 0;
    }
}

} // verus!
