//! The palette: the fixed one-to-one association between node kinds and colours.
use vstd::prelude::*;

verus! {

/// An exact RGB triple.
#[derive(PartialEq, Eq, Clone, Copy, Debug, Hash, PartialOrd, Ord, Structural)]
pub struct Color {
    pub r: u8,
    pub g: u8,
    pub b: u8,
}

/// Whether a wire carries a signal.
#[derive(PartialEq, Eq, Clone, Copy, Debug, Hash, Structural)]
pub enum WireState {
    Active,
    Inactive,
}

/// The colour family of a wire. It has no influence on the logic.
#[derive(PartialEq, Eq, Clone, Copy, Debug, Hash, Structural)]
pub enum WireType {
    Orange,
    Saphire,
    Lime,
}

/// What a node of the circuit is.
#[derive(PartialEq, Eq, Clone, Copy, Debug, Hash, Structural)]
pub enum NodeType {
    Input,
    Output,
    Wire(WireType, WireState),
    Xor,
    And,
    Background,
}

/// The colour that a kind is drawn in.
pub open spec fn color_of(kind: NodeType) -> Color {
    match kind {
        NodeType::Wire(WireType::Orange, WireState::Active) => Color { r: 255, g: 128, b: 0 },
        NodeType::Wire(WireType::Orange, WireState::Inactive) => Color { r: 128, g: 64, b: 0 },
        NodeType::Wire(WireType::Saphire, WireState::Active) => Color { r: 0, g: 128, b: 255 },
        NodeType::Wire(WireType::Saphire, WireState::Inactive) => Color { r: 0, g: 64, b: 128 },
        NodeType::Wire(WireType::Lime, WireState::Active) => Color { r: 128, g: 255, b: 0 },
        NodeType::Wire(WireType::Lime, WireState::Inactive) => Color { r: 64, g: 128, b: 0 },
        NodeType::Output => Color { r: 128, g: 0, b: 255 },
        NodeType::Input => Color { r: 64, g: 0, b: 128 },
        NodeType::Xor => Color { r: 0, g: 255, b: 128 },
        NodeType::And => Color { r: 0, g: 128, b: 64 },
        NodeType::Background => Color { r: 0, g: 0, b: 0 },
    }
}

/// Whether some kind is drawn in this colour.
pub open spec fn registered(color: Color) -> bool {
    exists|kind: NodeType| color_of(kind) == color
}

/// The kind that a colour stands for; the background kind for every colour that no kind
/// is drawn in.
pub open spec fn kind_of(color: Color) -> NodeType {
    match (color.r, color.g, color.b) {
        (255, 128, 0) => NodeType::Wire(WireType::Orange, WireState::Active),
        (128, 64, 0) => NodeType::Wire(WireType::Orange, WireState::Inactive),
        (0, 128, 255) => NodeType::Wire(WireType::Saphire, WireState::Active),
        (0, 64, 128) => NodeType::Wire(WireType::Saphire, WireState::Inactive),
        (128, 255, 0) => NodeType::Wire(WireType::Lime, WireState::Active),
        (64, 128, 0) => NodeType::Wire(WireType::Lime, WireState::Inactive),
        (128, 0, 255) => NodeType::Output,
        (64, 0, 128) => NodeType::Input,
        (0, 255, 128) => NodeType::Xor,
        (0, 128, 64) => NodeType::And,
        _ => NodeType::Background,
    }
}

/// No two kinds share a colour.
pub proof fn color_of_injective(a: NodeType, b: NodeType)
    requires
        color_of(a) == color_of(b),
    ensures
        a == b,
{
}

/// Looking up the colour of a kind and then the kind of that colour gives the kind back.
pub proof fn kind_roundtrip(kind: NodeType)
    ensures
        registered(color_of(kind)),
        kind_of(color_of(kind)) == kind,
{
    let c = color_of(kind);
    assert(registered(c));
    color_of_injective(kind_of(c), kind);
}

/// Looking up the kind of a registered colour and then the colour of that kind gives
/// the colour back.
pub proof fn color_roundtrip(color: Color)
    requires
        registered(color),
    ensures
        color_of(kind_of(color)) == color,
{
}

/// A colour stands for the background kind exactly if it is black or not registered.
pub proof fn kind_of_background(color: Color)
    ensures
        kind_of(color) == NodeType::Background <==> (color == color_of(NodeType::Background)
            || !registered(color)),
{
    if registered(color) {
        color_roundtrip(color);
    }
    if kind_of(color) != NodeType::Background {
        assert(color_of(kind_of(color)) == color);
    }
}

impl Color {
    /// The colour with these channels.
    pub fn new(r: u8, g: u8, b: u8) -> (color: Color)
        ensures
            color == (Color { r, g, b }),
    {
        Color { r, g, b }
    }

    /// The three channels as a tuple, the form in which the table and the images hold
    /// colours.
    pub open spec fn triple(self) -> (u8, u8, u8) {
        (self.r, self.g, self.b)
    }

    /// The kind that this colour stands for.
    pub fn to_nodetype(&self, mappings: &Palette) -> (kind: NodeType)
        ensures
            kind == kind_of(*self),
    {
        mappings.kind_of(*self)
    }
}

/// The number under which a kind is stored in the table.
pub open spec fn kind_code(kind: NodeType) -> u8 {
    match kind {
        NodeType::Wire(WireType::Orange, WireState::Active) => 0,
        NodeType::Wire(WireType::Orange, WireState::Inactive) => 1,
        NodeType::Wire(WireType::Saphire, WireState::Active) => 2,
        NodeType::Wire(WireType::Saphire, WireState::Inactive) => 3,
        NodeType::Wire(WireType::Lime, WireState::Active) => 4,
        NodeType::Wire(WireType::Lime, WireState::Inactive) => 5,
        NodeType::Output => 6,
        NodeType::Input => 7,
        NodeType::Xor => 8,
        NodeType::And => 9,
        NodeType::Background => 10,
    }
}

/// The pair that the table holds for a kind.
pub open spec fn entry(kind: NodeType) -> (u8, (u8, u8, u8)) {
    (kind_code(kind), color_of(kind).triple())
}

/// Everything that the table holds: one pair for each kind.
pub open spec fn entries() -> Set<(u8, (u8, u8, u8))> {
    Set::new(|p: (u8, (u8, u8, u8))| exists|kind: NodeType| p == entry(kind))
}

impl NodeType {
    /// The number under which this kind is stored in the table.
    pub fn code(self) -> (code: u8)
        ensures
            code == kind_code(self),
    {
        match self {
            NodeType::Wire(WireType::Orange, WireState::Active) => 0,
            NodeType::Wire(WireType::Orange, WireState::Inactive) => 1,
            NodeType::Wire(WireType::Saphire, WireState::Active) => 2,
            NodeType::Wire(WireType::Saphire, WireState::Inactive) => 3,
            NodeType::Wire(WireType::Lime, WireState::Active) => 4,
            NodeType::Wire(WireType::Lime, WireState::Inactive) => 5,
            NodeType::Output => 6,
            NodeType::Input => 7,
            NodeType::Xor => 8,
            NodeType::And => 9,
            NodeType::Background => 10,
        }
    }

    /// The kind stored under a number, if there is one.
    pub fn from_code(code: u8) -> (kind: Option<NodeType>)
        ensures
            match kind {
                Some(k) => kind_code(k) == code,
                None => forall|k: NodeType| kind_code(k) != code,
            },
    {
        match code {
            0 => Some(NodeType::Wire(WireType::Orange, WireState::Active)),
            1 => Some(NodeType::Wire(WireType::Orange, WireState::Inactive)),
            2 => Some(NodeType::Wire(WireType::Saphire, WireState::Active)),
            3 => Some(NodeType::Wire(WireType::Saphire, WireState::Inactive)),
            4 => Some(NodeType::Wire(WireType::Lime, WireState::Active)),
            5 => Some(NodeType::Wire(WireType::Lime, WireState::Inactive)),
            6 => Some(NodeType::Output),
            7 => Some(NodeType::Input),
            8 => Some(NodeType::Xor),
            9 => Some(NodeType::And),
            10 => Some(NodeType::Background),
            _ => None,
        }
    }
}

/// No two kinds share a number.
pub proof fn kind_code_injective(a: NodeType, b: NodeType)
    requires
        kind_code(a) == kind_code(b),
    ensures
        a == b,
{
}

/// `bimap::BiHashMap`: a map that can be read from the left and from the right. Nothing
/// inside it is seen here; what it holds goes by the name `table_pairs`.
#[verifier::external_type_specification]
#[verifier::external_body]
#[verifier::reject_recursive_types(L)]
#[verifier::reject_recursive_types(R)]
#[verifier::reject_recursive_types(LS)]
#[verifier::reject_recursive_types(RS)]
pub struct ExBiHashMap<L, R, LS, RS>(bimap::BiHashMap<L, R, LS, RS>);

/// The left-right pairs that a `bimap::BiMap` holds.
pub uninterp spec fn table_pairs(table: bimap::BiMap<u8, (u8, u8, u8)>) -> Set<(u8, (u8, u8, u8))>;

/// `bimap::BiHashMap::new`: the new table holds no pair.
#[verifier::external_body]
fn table_new() -> (table: bimap::BiMap<u8, (u8, u8, u8)>)
    ensures
        table_pairs(table) == Set::<(u8, (u8, u8, u8))>::empty(),
{
    bimap::BiMap::new()
}

/// `bimap::BiHashMap::insert`: every pair that shares its left or its right value with the
/// new pair leaves the table, then the new pair enters it.
#[verifier::external_body]
fn table_insert(table: &mut bimap::BiMap<u8, (u8, u8, u8)>, left: u8, right: (u8, u8, u8))
    ensures
        forall|p: (u8, (u8, u8, u8))| #[trigger]
            table_pairs(*final(table)).contains(p) <==> (p == (left, right) || (table_pairs(
                *old(table),
            ).contains(p) && p.0 != left && p.1 != right)),
{
    table.insert(left, right);
}

/// `bimap::BiHashMap::get_by_left`: the right value of a pair with this left value, or
/// nothing where the table holds no such pair.
#[verifier::external_body]
fn table_get_by_left(table: &bimap::BiMap<u8, (u8, u8, u8)>, left: u8) -> (right: Option<
    (u8, u8, u8),
>)
    ensures
        match right {
            Some(r) => table_pairs(*table).contains((left, r)),
            None => forall|r: (u8, u8, u8)| !table_pairs(*table).contains((left, r)),
        },
{
    match table.get_by_left(&left) {
        Some(r) => Some(*r),
        None => None,
    }
}

/// `bimap::BiHashMap::get_by_right`: the left value of a pair with this right value, or
/// nothing where the table holds no such pair.
#[verifier::external_body]
fn table_get_by_right(table: &bimap::BiMap<u8, (u8, u8, u8)>, right: (u8, u8, u8)) -> (left:
    Option<u8>)
    ensures
        match left {
            Some(l) => table_pairs(*table).contains((l, right)),
            None => forall|l: u8| !table_pairs(*table).contains((l, right)),
        },
{
    match table.get_by_right(&right) {
        Some(l) => Some(*l),
        None => None,
    }
}

/// The palette: a two-way table between kinds and colours that is filled once and never
/// changed.
pub struct Palette {
    table: bimap::BiMap<u8, (u8, u8, u8)>,
}

/// The pairs that the table holds once the kinds before `kind_code` `n` are entered.
pub open spec fn entries_below(n: int) -> Set<(u8, (u8, u8, u8))> {
    Set::new(
        |p: (u8, (u8, u8, u8))| exists|kind: NodeType| p == entry(kind) && kind_code(kind) < n,
    )
}

fn insert_entry(table: &mut bimap::BiMap<u8, (u8, u8, u8)>, kind: NodeType, color: Color)
    requires
        color == color_of(kind),
        table_pairs(*old(table)) == entries_below(kind_code(kind) as int),
    ensures
        table_pairs(*final(table)) == entries_below(kind_code(kind) + 1),
{
    table_insert(table, kind.code(), (color.r, color.g, color.b));
    proof {
        let before = table_pairs(*old(table));
        let after = table_pairs(*table);
        let next = entries_below(kind_code(kind) + 1);
        assert forall|p: (u8, (u8, u8, u8))| after.contains(p) <==> next.contains(p) by {
            if after.contains(p) {
                if p == entry(kind) {
                } else {
                    assert(before.contains(p));
                    let k = choose|k: NodeType| p == entry(k) && kind_code(k) < kind_code(kind);
                    assert(p == entry(k) && kind_code(k) < kind_code(kind) + 1);
                }
            }
            if next.contains(p) {
                let k = choose|k: NodeType| p == entry(k) && kind_code(k) < kind_code(kind) + 1;
                if k != kind {
                    assert(p == entry(k) && kind_code(k) < kind_code(kind));
                    assert(before.contains(p));
                    assert(color_of(k) != color_of(kind));
                }
            }
        }
        assert(after =~= next);
    }
}

impl Palette {
    /// The pairs of kind number and colour that the palette holds.
    pub closed spec fn pairs(self) -> Set<(u8, (u8, u8, u8))> {
        table_pairs(self.table)
    }

    #[verifier::type_invariant]
    spec fn holds_entries(self) -> bool {
        self.pairs() == entries()
    }

    /// The kind that a colour stands for; the background kind for a colour that is not
    /// registered.
    pub fn kind_of(&self, color: Color) -> (kind: NodeType)
        ensures
            kind == kind_of(color),
    {
        proof {
            use_type_invariant(self);
        }
        match table_get_by_right(&self.table, (color.r, color.g, color.b)) {
            Some(code) => {
                proof {
                    let k = choose|k: NodeType| (code, color.triple()) == entry(k);
                    assert(color_of(k) == color);
                    kind_roundtrip(k);
                }
                match NodeType::from_code(code) {
                    Some(kind) => kind,
                    None => NodeType::Background,
                }
            },
            None => {
                proof {
                    let k = kind_of(color);
                    if k != NodeType::Background {
                        assert(color_of(k) == color);
                        assert(entries().contains(entry(k)));
                    }
                }
                NodeType::Background
            },
        }
    }

    /// The colour that a kind is drawn in.
    pub fn color_of(&self, kind: NodeType) -> (color: Color)
        ensures
            color == color_of(kind),
    {
        proof {
            use_type_invariant(self);
            assert(entries().contains(entry(kind)));
        }
        match table_get_by_left(&self.table, kind.code()) {
            Some(triple) => {
                proof {
                    let k = choose|k: NodeType| (kind_code(kind), triple) == entry(k);
                    kind_code_injective(k, kind);
                }
                Color::new(triple.0, triple.1, triple.2)
            },
            None => Color::new(0, 0, 0),
        }
    }
}

/// Builds the palette: one pair for each kind, and nothing else.
pub fn get_node_color_mappings() -> (mappings: Palette)
    ensures
        mappings.pairs() == entries(),
{
    let mut table = table_new();
    assert(table_pairs(table) =~= entries_below(0));
    insert_entry(
        &mut table,
        NodeType::Wire(WireType::Orange, WireState::Active),
        Color::new(255, 128, 0),
    );
    insert_entry(
        &mut table,
        NodeType::Wire(WireType::Orange, WireState::Inactive),
        Color::new(128, 64, 0),
    );
    insert_entry(
        &mut table,
        NodeType::Wire(WireType::Saphire, WireState::Active),
        Color::new(0, 128, 255),
    );
    insert_entry(
        &mut table,
        NodeType::Wire(WireType::Saphire, WireState::Inactive),
        Color::new(0, 64, 128),
    );
    insert_entry(
        &mut table,
        NodeType::Wire(WireType::Lime, WireState::Active),
        Color::new(128, 255, 0),
    );
    insert_entry(
        &mut table,
        NodeType::Wire(WireType::Lime, WireState::Inactive),
        Color::new(64, 128, 0),
    );
    insert_entry(&mut table, NodeType::Output, Color::new(128, 0, 255));
    insert_entry(&mut table, NodeType::Input, Color::new(64, 0, 128));
    insert_entry(&mut table, NodeType::Xor, Color::new(0, 255, 128));
    insert_entry(&mut table, NodeType::And, Color::new(0, 128, 64));
    insert_entry(&mut table, NodeType::Background, Color::new(0, 0, 0));
    assert(entries_below(11) =~= entries());
    Palette { table }
}

} // verus!
