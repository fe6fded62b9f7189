use reso::node::{Node, PixelCoords};
use reso::palette::{get_node_color_mappings, Color, NodeType, Palette, WireState, WireType};

fn node(palette: &Palette, id: u32, kind: NodeType, total: u32, agree: u32) -> Node {
    Node {
        color: palette.color_of(kind),
        id,
        pixels: Vec::new(),
        connections: Vec::new(),
        nodetype: kind,
        explored: true,
        next_nodetype: NodeType::Background,
        total,
        agree,
    }
}

fn active(channel: WireType) -> NodeType {
    NodeType::Wire(channel, WireState::Active)
}

fn inactive(channel: WireType) -> NodeType {
    NodeType::Wire(channel, WireState::Inactive)
}

#[test]
fn new_node_is_empty_and_of_its_colors_kind() {
    let palette = get_node_color_mappings();
    let n = Node::new(7, Color::new(64, 0, 128), &palette);
    assert_eq!(n.id, 7);
    assert_eq!(n.color, Color::new(64, 0, 128));
    assert_eq!(n.nodetype, NodeType::Input);
    assert!(n.pixels.is_empty());
    assert!(n.connections.is_empty());
    assert!(!n.explored);
    assert_eq!(n.next_nodetype, NodeType::Background);
    assert_eq!(n.total, 0);
    assert_eq!(n.agree, 0);
}

#[test]
fn new_node_of_unregistered_color_is_background() {
    let palette = get_node_color_mappings();
    let n = Node::new(1, Color::new(9, 9, 9), &palette);
    assert_eq!(n.nodetype, NodeType::Background);
    assert_eq!(n.color, Color::new(9, 9, 9));
}

#[test]
fn add_pixel_appends() {
    let palette = get_node_color_mappings();
    let mut n = Node::new(1, Color::new(255, 128, 0), &palette);
    n.add_pixel(3, 4);
    n.add_pixel(5, 6);
    n.add_pixel(3, 4);
    assert_eq!(
        n.pixels,
        vec![
            PixelCoords { x: 3, y: 4 },
            PixelCoords { x: 5, y: 6 },
            PixelCoords { x: 3, y: 4 }
        ]
    );
    assert!(n.connections.is_empty());
    assert_eq!(n.id, 1);
}

#[test]
fn make_explored_sets_the_mark_only() {
    let palette = get_node_color_mappings();
    let mut n = Node::new(2, Color::new(0, 255, 128), &palette);
    n.add_pixel(1, 1);
    n.make_explored();
    assert!(n.explored);
    assert_eq!(n.pixels, vec![PixelCoords { x: 1, y: 1 }]);
    assert_eq!(n.nodetype, NodeType::Xor);
}

#[test]
fn add_connection_keeps_each_id_once() {
    let palette = get_node_color_mappings();
    let mut n = Node::new(1, Color::new(255, 128, 0), &palette);
    n.add_connection(4);
    n.add_connection(2);
    n.add_connection(4);
    n.add_connection(9);
    n.add_connection(2);
    assert_eq!(n.connections, vec![4, 2, 9]);
}

#[test]
fn copy_holds_the_same() {
    let palette = get_node_color_mappings();
    let mut n = node(&palette, 3, NodeType::Output, 5, 2);
    n.add_pixel(1, 2);
    n.add_pixel(2, 2);
    n.add_connection(8);
    n.next_nodetype = active(WireType::Lime);
    let c = n.copy();
    assert_eq!(c.id, 3);
    assert_eq!(c.color, n.color);
    assert_eq!(c.pixels, n.pixels);
    assert_eq!(c.connections, vec![8]);
    assert_eq!(c.nodetype, NodeType::Output);
    assert_eq!(c.explored, true);
    assert_eq!(c.next_nodetype, active(WireType::Lime));
    assert_eq!(c.total, 5);
    assert_eq!(c.agree, 2);
}

#[test]
fn merge_appends_pixels_and_connections() {
    let palette = get_node_color_mappings();
    let mut a = node(&palette, 1, NodeType::And, 3, 1);
    a.add_pixel(0, 0);
    a.add_connection(5);
    let mut b = node(&palette, 2, NodeType::Xor, 9, 9);
    b.add_pixel(1, 0);
    b.add_pixel(0, 0);
    b.add_connection(5);
    b.add_connection(6);
    let m = a.merge(&b);
    assert_eq!(m.id, 1);
    assert_eq!(m.nodetype, NodeType::And);
    assert_eq!(m.color, a.color);
    assert_eq!(m.total, 3);
    assert_eq!(m.agree, 1);
    assert_eq!(
        m.pixels,
        vec![
            PixelCoords { x: 0, y: 0 },
            PixelCoords { x: 1, y: 0 },
            PixelCoords { x: 0, y: 0 }
        ]
    );
    assert_eq!(m.connections, vec![5, 5, 6]);
    assert_eq!(a.pixels.len(), 1);
    assert_eq!(b.pixels.len(), 2);
}

#[test]
fn input_counts_wires_and_active_wires() {
    let palette = get_node_color_mappings();
    let mut input = node(&palette, 1, NodeType::Input, 0, 0);
    input.interact_with_neighbour(&node(&palette, 2, active(WireType::Orange), 0, 0));
    assert_eq!((input.total, input.agree), (1, 1));
    input.interact_with_neighbour(&node(&palette, 3, inactive(WireType::Lime), 0, 0));
    assert_eq!((input.total, input.agree), (2, 1));
    input.interact_with_neighbour(&node(&palette, 4, active(WireType::Saphire), 0, 0));
    assert_eq!((input.total, input.agree), (3, 2));
}

#[test]
fn input_ignores_what_is_no_wire() {
    let palette = get_node_color_mappings();
    let mut input = node(&palette, 1, NodeType::Input, 2, 1);
    for kind in [NodeType::Input, NodeType::Output, NodeType::Xor, NodeType::And, NodeType::Background] {
        input.interact_with_neighbour(&node(&palette, 2, kind, 7, 7));
    }
    assert_eq!((input.total, input.agree), (2, 1));
    assert_eq!(input.next_nodetype, NodeType::Background);
}

#[test]
fn gates_take_over_the_counts_of_an_input() {
    let palette = get_node_color_mappings();
    let source = node(&palette, 1, NodeType::Input, 5, 3);
    let mut and = node(&palette, 2, NodeType::And, 1, 1);
    and.interact_with_neighbour(&source);
    assert_eq!((and.total, and.agree), (5, 3));
    let mut xor = node(&palette, 3, NodeType::Xor, 0, 0);
    xor.interact_with_neighbour(&source);
    assert_eq!((xor.total, xor.agree), (5, 3));
}

#[test]
fn gates_ignore_what_is_no_input() {
    let palette = get_node_color_mappings();
    let mut and = node(&palette, 2, NodeType::And, 4, 2);
    let mut xor = node(&palette, 3, NodeType::Xor, 6, 1);
    for kind in [
        NodeType::Output,
        NodeType::Xor,
        NodeType::And,
        active(WireType::Orange),
        NodeType::Background,
    ] {
        and.interact_with_neighbour(&node(&palette, 9, kind, 8, 8));
        xor.interact_with_neighbour(&node(&palette, 9, kind, 8, 8));
    }
    assert_eq!((and.total, and.agree), (4, 2));
    assert_eq!((xor.total, xor.agree), (6, 1));
}

#[test]
fn output_counts_an_and_gate_whose_inputs_are_all_active() {
    let palette = get_node_color_mappings();
    let mut out = node(&palette, 1, NodeType::Output, 0, 0);
    out.interact_with_neighbour(&node(&palette, 2, NodeType::And, 2, 2));
    assert_eq!((out.total, out.agree), (1, 1));
    out.interact_with_neighbour(&node(&palette, 3, NodeType::And, 2, 1));
    assert_eq!((out.total, out.agree), (2, 1));
    out.interact_with_neighbour(&node(&palette, 4, NodeType::And, 0, 0));
    assert_eq!((out.total, out.agree), (3, 1));
}

#[test]
fn output_counts_a_xor_gate_with_an_odd_number_active() {
    let palette = get_node_color_mappings();
    let mut out = node(&palette, 1, NodeType::Output, 0, 0);
    out.interact_with_neighbour(&node(&palette, 2, NodeType::Xor, 3, 3));
    assert_eq!((out.total, out.agree), (1, 1));
    out.interact_with_neighbour(&node(&palette, 3, NodeType::Xor, 3, 2));
    assert_eq!((out.total, out.agree), (2, 1));
    out.interact_with_neighbour(&node(&palette, 4, NodeType::Xor, 4, 1));
    assert_eq!((out.total, out.agree), (3, 2));
    out.interact_with_neighbour(&node(&palette, 5, NodeType::Xor, 0, 0));
    assert_eq!((out.total, out.agree), (4, 2));
}

#[test]
fn output_counts_an_input_with_an_active_wire() {
    let palette = get_node_color_mappings();
    let mut out = node(&palette, 1, NodeType::Output, 0, 0);
    out.interact_with_neighbour(&node(&palette, 2, NodeType::Input, 4, 1));
    assert_eq!((out.total, out.agree), (1, 1));
    out.interact_with_neighbour(&node(&palette, 3, NodeType::Input, 4, 0));
    assert_eq!((out.total, out.agree), (2, 1));
}

#[test]
fn output_counts_every_neighbour_in_its_total() {
    let palette = get_node_color_mappings();
    let mut out = node(&palette, 1, NodeType::Output, 0, 0);
    out.interact_with_neighbour(&node(&palette, 2, active(WireType::Orange), 0, 0));
    out.interact_with_neighbour(&node(&palette, 3, NodeType::Output, 1, 1));
    assert_eq!((out.total, out.agree), (2, 0));
}

#[test]
fn wire_stages_active_next_to_an_output_that_agrees() {
    let palette = get_node_color_mappings();
    let mut wire = node(&palette, 1, inactive(WireType::Saphire), 0, 0);
    wire.interact_with_neighbour(&node(&palette, 2, NodeType::Output, 2, 2));
    assert_eq!(wire.next_nodetype, active(WireType::Saphire));
    assert_eq!(wire.nodetype, inactive(WireType::Saphire));
    assert_eq!((wire.total, wire.agree), (0, 0));
}

#[test]
fn wire_stages_inactive_next_to_an_output_that_does_not_agree() {
    let palette = get_node_color_mappings();
    let mut wire = node(&palette, 1, active(WireType::Lime), 0, 0);
    wire.interact_with_neighbour(&node(&palette, 2, NodeType::Output, 2, 1));
    assert_eq!(wire.next_nodetype, inactive(WireType::Lime));
    assert_eq!(wire.nodetype, active(WireType::Lime));
}

#[test]
fn wire_stages_nothing_next_to_what_is_no_output() {
    let palette = get_node_color_mappings();
    let mut wire = node(&palette, 1, active(WireType::Orange), 0, 0);
    for kind in [NodeType::Input, NodeType::Xor, NodeType::And, inactive(WireType::Orange), NodeType::Background] {
        wire.interact_with_neighbour(&node(&palette, 2, kind, 1, 0));
    }
    assert_eq!(wire.next_nodetype, NodeType::Background);
    assert_eq!(wire.nodetype, active(WireType::Orange));
}

#[test]
fn the_last_output_decides_what_a_wire_stages() {
    let palette = get_node_color_mappings();
    let mut wire = node(&palette, 1, inactive(WireType::Orange), 0, 0);
    wire.interact_with_neighbour(&node(&palette, 2, NodeType::Output, 1, 1));
    wire.interact_with_neighbour(&node(&palette, 3, NodeType::Output, 1, 0));
    assert_eq!(wire.next_nodetype, inactive(WireType::Orange));
    wire.interact_with_neighbour(&node(&palette, 2, NodeType::Output, 1, 1));
    assert_eq!(wire.next_nodetype, active(WireType::Orange));
}

#[test]
fn background_node_does_nothing() {
    let palette = get_node_color_mappings();
    let mut none = node(&palette, 1, NodeType::Background, 3, 2);
    none.interact_with_neighbour(&node(&palette, 2, NodeType::Output, 1, 1));
    none.interact_with_neighbour(&node(&palette, 3, active(WireType::Orange), 0, 0));
    assert_eq!((none.total, none.agree), (3, 2));
    assert_eq!(none.next_nodetype, NodeType::Background);
}

#[test]
fn update_next_step_takes_what_was_staged() {
    let palette = get_node_color_mappings();
    let mut wire = node(&palette, 1, inactive(WireType::Orange), 4, 3);
    wire.next_nodetype = active(WireType::Orange);
    wire.update_next_step();
    assert_eq!(wire.nodetype, active(WireType::Orange));
    assert_eq!(wire.next_nodetype, NodeType::Background);
    assert_eq!((wire.total, wire.agree), (0, 0));
}

#[test]
fn update_next_step_keeps_the_kind_where_nothing_was_staged() {
    let palette = get_node_color_mappings();
    let mut input = node(&palette, 1, NodeType::Input, 4, 3);
    input.add_pixel(1, 1);
    input.add_connection(2);
    input.update_next_step();
    assert_eq!(input.nodetype, NodeType::Input);
    assert_eq!(input.next_nodetype, NodeType::Background);
    assert_eq!((input.total, input.agree), (0, 0));
    assert_eq!(input.pixels, vec![PixelCoords { x: 1, y: 1 }]);
    assert_eq!(input.connections, vec![2]);
}
