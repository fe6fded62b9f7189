use reso::palette::{get_node_color_mappings, Color, NodeType, WireState, WireType};

fn table() -> Vec<(NodeType, Color)> {
    vec![
        (NodeType::Wire(WireType::Orange, WireState::Active), Color::new(255, 128, 0)),
        (NodeType::Wire(WireType::Orange, WireState::Inactive), Color::new(128, 64, 0)),
        (NodeType::Wire(WireType::Saphire, WireState::Active), Color::new(0, 128, 255)),
        (NodeType::Wire(WireType::Saphire, WireState::Inactive), Color::new(0, 64, 128)),
        (NodeType::Wire(WireType::Lime, WireState::Active), Color::new(128, 255, 0)),
        (NodeType::Wire(WireType::Lime, WireState::Inactive), Color::new(64, 128, 0)),
        (NodeType::Output, Color::new(128, 0, 255)),
        (NodeType::Input, Color::new(64, 0, 128)),
        (NodeType::Xor, Color::new(0, 255, 128)),
        (NodeType::And, Color::new(0, 128, 64)),
        (NodeType::Background, Color::new(0, 0, 0)),
    ]
}

#[test]
fn color_new_keeps_the_channels() {
    let c = Color::new(1, 2, 3);
    assert_eq!(c.r, 1);
    assert_eq!(c.g, 2);
    assert_eq!(c.b, 3);
    assert_eq!(c, Color { r: 1, g: 2, b: 3 });
}

#[test]
fn every_kind_has_its_color() {
    let palette = get_node_color_mappings();
    for (kind, color) in table() {
        assert_eq!(palette.color_of(kind), color);
    }
}

#[test]
fn every_registered_color_has_its_kind() {
    let palette = get_node_color_mappings();
    for (kind, color) in table() {
        assert_eq!(palette.kind_of(color), kind);
        assert_eq!(color.to_nodetype(&palette), kind);
    }
}

#[test]
fn color_of_kind_of_gives_the_color_back() {
    let palette = get_node_color_mappings();
    for (_, color) in table() {
        assert_eq!(palette.color_of(palette.kind_of(color)), color);
    }
}

#[test]
fn kind_of_color_of_gives_the_kind_back() {
    let palette = get_node_color_mappings();
    for (kind, _) in table() {
        assert_eq!(palette.kind_of(palette.color_of(kind)), kind);
    }
}

#[test]
fn unregistered_color_is_background() {
    let palette = get_node_color_mappings();
    assert_eq!(palette.kind_of(Color::new(1, 2, 3)), NodeType::Background);
    assert_eq!(palette.kind_of(Color::new(255, 128, 1)), NodeType::Background);
    assert_eq!(palette.kind_of(Color::new(255, 255, 255)), NodeType::Background);
    assert_eq!(Color::new(254, 128, 0).to_nodetype(&palette), NodeType::Background);
}

#[test]
fn black_is_background() {
    let palette = get_node_color_mappings();
    assert_eq!(palette.kind_of(Color::new(0, 0, 0)), NodeType::Background);
    assert_eq!(palette.color_of(NodeType::Background), Color::new(0, 0, 0));
}

#[test]
fn exact_colors_of_the_terminals_and_gates() {
    let palette = get_node_color_mappings();
    assert_eq!(palette.kind_of(Color::new(64, 0, 128)), NodeType::Input);
    assert_eq!(palette.kind_of(Color::new(128, 0, 255)), NodeType::Output);
    assert_eq!(palette.kind_of(Color::new(0, 255, 128)), NodeType::Xor);
    assert_eq!(palette.kind_of(Color::new(0, 128, 64)), NodeType::And);
    assert_eq!(
        palette.kind_of(Color::new(255, 128, 0)),
        NodeType::Wire(WireType::Orange, WireState::Active)
    );
}

#[test]
fn kind_codes_are_distinct_and_come_back() {
    let mut seen: Vec<u8> = Vec::new();
    for (kind, _) in table() {
        let code = kind.code();
        assert!(!seen.contains(&code));
        seen.push(code);
        assert_eq!(NodeType::from_code(code), Some(kind));
    }
    assert_eq!(seen.len(), 11);
}

#[test]
fn unknown_code_is_no_kind() {
    assert_eq!(NodeType::from_code(11), None);
    assert_eq!(NodeType::from_code(255), None);
}

#[test]
fn wire_kinds_are_equal_only_with_channel_and_state() {
    let a = NodeType::Wire(WireType::Orange, WireState::Active);
    assert_eq!(a, NodeType::Wire(WireType::Orange, WireState::Active));
    assert_ne!(a, NodeType::Wire(WireType::Orange, WireState::Inactive));
    assert_ne!(a, NodeType::Wire(WireType::Lime, WireState::Active));
}

#[test]
fn two_palettes_hold_the_same() {
    let one = get_node_color_mappings();
    let two = get_node_color_mappings();
    for (kind, color) in table() {
        assert_eq!(one.color_of(kind), two.color_of(kind));
        assert_eq!(one.kind_of(color), two.kind_of(color));
    }
}
