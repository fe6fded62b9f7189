//! Adjacency: which nodes touch by an edge.
use crate::extract::{covers, extract_regions, ordered, partitioned, region_of};
use crate::grid::{adjacent4, is_node_label, label_grid, precedes, BACKGROUND, UNLABELED};
use crate::node::{views, Node, NodeView, PixelCoords};
use crate::palette::Palette;
use crate::partition::partition_unique;
use crate::raster::{image_height, image_width, in_image, readable};
use crate::render::{all_fit, fits};
use crate::simulate::runnable;
use vstd::relations::injective;
use vstd::set_lib::{lemma_int_range, lemma_len_subset, set_int_range};
use vstd::prelude::*;

verus! {

/// Whether a grid has a cell for the pixel at (x, y).
pub open spec fn inside(grid: Seq<Seq<u32>>, x: int, y: int) -> bool {
    0 <= x < grid.len() && 0 <= y < grid[x].len()
}

/// The label of the pixel at (x, y) where that pixel lies in the grid and belongs to a
/// node other than `id`.
pub open spec fn neighbour_label(grid: Seq<Seq<u32>>, id: u32, x: int, y: int) -> Option<u32> {
    if inside(grid, x, y) && is_node_label(grid[x][y]) && grid[x][y] != id {
        Some(grid[x][y])
    } else {
        None
    }
}

/// A list of neighbours with one more, unless nothing was found or the list names it
/// already.
pub open spec fn with_connection(connections: Seq<u32>, found: Option<u32>) -> Seq<u32> {
    match found {
        Some(id) => if connections.contains(id) {
            connections
        } else {
            connections.push(id)
        },
        None => connections,
    }
}

/// A list of neighbours after the four pixels that share an edge with `p` have been
/// looked at: left, above, below, right.
pub open spec fn around_pixel(connections: Seq<u32>, grid: Seq<Seq<u32>>, id: u32, p: PixelCoords)
    -> Seq<u32> {
    let left = with_connection(connections, neighbour_label(grid, id, p.x - 1, p.y as int));
    let above = with_connection(left, neighbour_label(grid, id, p.x as int, p.y - 1));
    let below = with_connection(above, neighbour_label(grid, id, p.x as int, p.y + 1));
    with_connection(below, neighbour_label(grid, id, p.x + 1, p.y as int))
}

/// A list of neighbours after the surroundings of each pixel of a list have been looked
/// at, pixel by pixel.
pub open spec fn discovered(
    connections: Seq<u32>,
    grid: Seq<Seq<u32>>,
    id: u32,
    pixels: Seq<PixelCoords>,
) -> Seq<u32>
    decreases pixels.len(),
{
    if pixels.len() == 0 {
        connections
    } else {
        around_pixel(discovered(connections, grid, id, pixels.drop_last()), grid, id, pixels.last())
    }
}

/// Whether some pixel of a list shares an edge with a pixel that carries `label`, the
/// label of a node other than `id`.
pub open spec fn touches(grid: Seq<Seq<u32>>, id: u32, pixels: Seq<PixelCoords>, label: u32)
    -> bool {
    exists|k: int, u: int, v: int|
        0 <= k < pixels.len() && #[trigger] adjacent4(
            pixels[k].x as int,
            pixels[k].y as int,
            u,
            v,
        ) && neighbour_label(grid, id, u, v) == Some(label)
}

/// What is in a list of neighbours after one more was offered.
pub proof fn lemma_with_connection(connections: Seq<u32>, found: Option<u32>)
    ensures
        forall|label: u32|
            #[trigger] with_connection(connections, found).contains(label)
                <==> connections.contains(label) || found == Some(label),
        connections.no_duplicates() ==> with_connection(connections, found).no_duplicates(),
        connections.is_prefix_of(with_connection(connections, found)),
{
    let after = with_connection(connections, found);
    match found {
        Some(id) => {
            if !connections.contains(id) {
                assert(after[connections.len() as int] == id);
                assert forall|label: u32| #[trigger]
                    after.contains(label) <==> connections.contains(label) || found == Some(
                        label,
                    ) by {
                    if connections.contains(label) {
                        let k = choose|k: int|
                            0 <= k < connections.len() && connections[k] == label;
                        assert(after[k] == label);
                    }
                }
            }
        },
        None => {},
    }
}

/// What is in a list of neighbours after the surroundings of one pixel were looked at.
pub proof fn lemma_around_pixel(
    connections: Seq<u32>,
    grid: Seq<Seq<u32>>,
    id: u32,
    p: PixelCoords,
)
    ensures
        forall|label: u32|
            #[trigger] around_pixel(connections, grid, id, p).contains(label)
                <==> connections.contains(label) || exists|u: int, v: int|
                #[trigger] adjacent4(p.x as int, p.y as int, u, v) && neighbour_label(
                    grid,
                    id,
                    u,
                    v,
                ) == Some(label),
        connections.no_duplicates() ==> around_pixel(connections, grid, id, p).no_duplicates(),
        connections.is_prefix_of(around_pixel(connections, grid, id, p)),
{
    let x = p.x as int;
    let y = p.y as int;
    let left = with_connection(connections, neighbour_label(grid, id, x - 1, y));
    let above = with_connection(left, neighbour_label(grid, id, x, y - 1));
    let below = with_connection(above, neighbour_label(grid, id, x, y + 1));
    let right = with_connection(below, neighbour_label(grid, id, x + 1, y));
    lemma_with_connection(connections, neighbour_label(grid, id, x - 1, y));
    lemma_with_connection(left, neighbour_label(grid, id, x, y - 1));
    lemma_with_connection(above, neighbour_label(grid, id, x, y + 1));
    lemma_with_connection(below, neighbour_label(grid, id, x + 1, y));
    assert(adjacent4(x, y, x - 1, y));
    assert(adjacent4(x, y, x, y - 1));
    assert(adjacent4(x, y, x, y + 1));
    assert(adjacent4(x, y, x + 1, y));
    assert forall|label: u32| #[trigger]
        right.contains(label) <==> connections.contains(label) || exists|u: int, v: int|
            #[trigger] adjacent4(x, y, u, v) && neighbour_label(grid, id, u, v) == Some(
                label,
            ) by {
        if right.contains(label) && !connections.contains(label) {
            assert(left.contains(label) || above.contains(label) || below.contains(label)
                || right.contains(label));
        }
    }
}

/// What is in a list of neighbours after the surroundings of each pixel of a list were
/// looked at: what was in it, in the same places, and behind that, once each, the labels of the
/// other nodes that share an edge with one of the pixels.
pub proof fn lemma_discovered(
    connections: Seq<u32>,
    grid: Seq<Seq<u32>>,
    id: u32,
    pixels: Seq<PixelCoords>,
)
    ensures
        forall|label: u32|
            #[trigger] discovered(connections, grid, id, pixels).contains(label)
                <==> connections.contains(label) || touches(grid, id, pixels, label),
        connections.no_duplicates() ==> discovered(connections, grid, id, pixels).no_duplicates(),
        connections.is_prefix_of(discovered(connections, grid, id, pixels)),
    decreases pixels.len(),
{
    if pixels.len() > 0 {
        let front = pixels.drop_last();
        let p = pixels.last();
        let sofar = discovered(connections, grid, id, front);
        let all = discovered(connections, grid, id, pixels);
        lemma_discovered(connections, grid, id, front);
        lemma_around_pixel(sofar, grid, id, p);
        assert forall|label: u32| #[trigger]
            all.contains(label) <==> connections.contains(label) || touches(
                grid,
                id,
                pixels,
                label,
            ) by {
            if all.contains(label) && !connections.contains(label) {
                if sofar.contains(label) {
                    assert(touches(grid, id, front, label));
                    let (k, u, v) = choose|k: int, u: int, v: int|
                        0 <= k < front.len() && #[trigger] adjacent4(
                            front[k].x as int,
                            front[k].y as int,
                            u,
                            v,
                        ) && neighbour_label(grid, id, u, v) == Some(label);
                    assert(pixels[k] == front[k]);
                } else {
                    let (u, v) = choose|u: int, v: int|
                        #[trigger] adjacent4(p.x as int, p.y as int, u, v) && neighbour_label(
                            grid,
                            id,
                            u,
                            v,
                        ) == Some(label);
                    assert(pixels[pixels.len() - 1] == p);
                }
            }
            if touches(grid, id, pixels, label) {
                let (k, u, v) = choose|k: int, u: int, v: int|
                    0 <= k < pixels.len() && #[trigger] adjacent4(
                        pixels[k].x as int,
                        pixels[k].y as int,
                        u,
                        v,
                    ) && neighbour_label(grid, id, u, v) == Some(label);
                if k < front.len() {
                    assert(front[k] == pixels[k]);
                    assert(touches(grid, id, front, label));
                }
            }
        }
    }
}

/// The label of the pixel at (x, y) where it belongs to another node than `id`.
fn look(grid: &Vec<Vec<u32>>, id: u32, x: i64, y: i64) -> (found: Option<u32>)
    ensures
        found == neighbour_label(label_grid(grid@), id, x as int, y as int),
{
    if x < 0 || y < 0 {
        return None;
    }
    if x as u64 >= grid.len() as u64 {
        return None;
    }
    let column = &grid[x as usize];
    if y as u64 >= column.len() as u64 {
        return None;
    }
    let label = column[y as usize];
    if label == UNLABELED || label == BACKGROUND || label == id {
        None
    } else {
        Some(label)
    }
}

impl Node {
    fn note(&mut self, found: Option<u32>)
        ensures
            final(self)@ == (NodeView {
                connections: with_connection(old(self)@.connections, found),
                ..old(self)@
            }),
    {
        match found {
            Some(id) => self.add_connection(id),
            None => {},
        }
    }

    /// Finds the nodes that touch this one.
    ///
    /// For each pixel of the node the four pixels that share an edge with it are looked
    /// at: left, above, below, right. Where one of them lies in the grid and carries the
    /// label of another node, that label joins the node's neighbours, unless it is
    /// among them already. Pixels that touch by a corner only do not count.
    pub fn find_neighbours(&mut self, explored_pixels: &mut Vec<Vec<u32>>)
        ensures
            final(self)@ == (NodeView {
                connections: discovered(
                    old(self)@.connections,
                    label_grid(old(explored_pixels)@),
                    old(self).id,
                    old(self)@.pixels,
                ),
                ..old(self)@
            }),
            *final(explored_pixels) == *old(explored_pixels),
    {
        let ghost grid = label_grid(explored_pixels@);
        let mut i: usize = 0;
        while i < self.pixels.len()
            invariant
                i <= self.pixels.len(),
                *explored_pixels == *old(explored_pixels),
                grid == label_grid(explored_pixels@),
                self@ == (NodeView {
                    connections: discovered(
                        old(self)@.connections,
                        grid,
                        old(self).id,
                        old(self)@.pixels.take(i as int),
                    ),
                    ..old(self)@
                }),
            decreases self.pixels.len() - i,
        {
            let pixel = self.pixels[i];
            let x = pixel.x as i64;
            let y = pixel.y as i64;
            let left = look(explored_pixels, self.id, x - 1, y);
            self.note(left);
            let above = look(explored_pixels, self.id, x, y - 1);
            self.note(above);
            let below = look(explored_pixels, self.id, x, y + 1);
            self.note(below);
            let right = look(explored_pixels, self.id, x + 1, y);
            self.note(right);
            proof {
                let pixels = old(self)@.pixels;
                assert(pixels.take(i + 1).drop_last() == pixels.take(i as int));
                assert(pixels.take(i + 1).last() == pixel);
            }
            i += 1;
        }
        assert(old(self)@.pixels.take(i as int) == old(self)@.pixels);
    }
}

/// Whether a pixel with the label `a` shares an edge with a pixel with the label `b`.
pub open spec fn linked(grid: Seq<Seq<u32>>, a: u32, b: u32) -> bool {
    exists|x: int, y: int, u: int, v: int|
        inside(grid, x, y) && inside(grid, u, v) && #[trigger] adjacent4(x, y, u, v)
            && grid[x][y] == a && grid[u][v] == b
}

/// Whether a node lists as its neighbours, once each, exactly the other nodes that own a
/// pixel which shares an edge with one of its own.
pub open spec fn wired_node(grid: Seq<Seq<u32>>, node: NodeView) -> bool {
    &&& node.connections.no_duplicates()
    &&& forall|label: u32|
        #[trigger] node.connections.contains(label) <==> is_node_label(label) && label
            != node.id && linked(grid, node.id, label)
}

/// Whether each node lists exactly the nodes that it touches by an edge.
pub open spec fn wired(grid: Seq<Seq<u32>>, nodes: Seq<NodeView>) -> bool {
    forall|i: int| 0 <= i < nodes.len() ==> wired_node(grid, #[trigger] nodes[i])
}

/// Whether each node lists its neighbours in the order in which `find_neighbours` comes
/// to them from an empty list.
pub open spec fn wired_in_order(grid: Seq<Seq<u32>>, nodes: Seq<NodeView>) -> bool {
    forall|i: int|
        0 <= i < nodes.len() ==> (#[trigger] nodes[i]).connections == discovered(
            Seq::<u32>::empty(),
            grid,
            nodes[i].id,
            nodes[i].pixels,
        )
}

/// Sharing an edge goes both ways.
pub proof fn linked_symmetric(grid: Seq<Seq<u32>>, a: u32, b: u32)
    requires
        linked(grid, a, b),
    ensures
        linked(grid, b, a),
{
    let (x, y, u, v) = choose|x: int, y: int, u: int, v: int|
        inside(grid, x, y) && inside(grid, u, v) && #[trigger] adjacent4(x, y, u, v)
            && grid[x][y] == a && grid[u][v] == b;
    assert(adjacent4(u, v, x, y));
}

/// Adjacency is symmetric: where the nodes list their neighbours as `wired` says, one
/// node lists another exactly if the other lists it.
pub proof fn adjacency_symmetric(grid: Seq<Seq<u32>>, nodes: Seq<NodeView>, i: int, j: int)
    requires
        wired(grid, nodes),
        0 <= i < nodes.len(),
        0 <= j < nodes.len(),
        is_node_label(nodes[i].id),
        is_node_label(nodes[j].id),
    ensures
        nodes[i].connections.contains(nodes[j].id) <==> nodes[j].connections.contains(
            nodes[i].id,
        ),
{
    let a = nodes[i].id;
    let b = nodes[j].id;
    assert(wired_node(grid, nodes[i]));
    assert(wired_node(grid, nodes[j]));
    if linked(grid, a, b) {
        linked_symmetric(grid, a, b);
    }
    if linked(grid, b, a) {
        linked_symmetric(grid, b, a);
    }
}

/// No node is its own neighbour, and every neighbour is a node.
pub proof fn neighbours_are_nodes(
    img: image::DynamicImage,
    grid: Seq<Seq<u32>>,
    nodes: Seq<NodeView>,
    i: int,
    k: int,
)
    requires
        partitioned(img, grid, nodes),
        wired(grid, nodes),
        0 <= i < nodes.len(),
        0 <= k < nodes[i].connections.len(),
    ensures
        1 <= nodes[i].connections[k] <= nodes.len(),
        nodes[i].connections[k] != i + 1,
{
    let node = nodes[i];
    let label = node.connections[k];
    assert(wired_node(grid, node));
    assert(region_of(img, grid, node, i + 1));
    assert(node.connections.contains(label));
    let (x, y, u, v) = choose|x: int, y: int, u: int, v: int|
        inside(grid, x, y) && inside(grid, u, v) && #[trigger] adjacent4(x, y, u, v)
            && grid[x][y] == node.id && grid[u][v] == label;
    assert(in_image(img, u, v));
}

/// Whether each pixel of a node lies in the grid and carries the node's identifier
/// there.
pub open spec fn holds_its_pixels(grid: Seq<Seq<u32>>, node: NodeView) -> bool {
    forall|k: int|
        0 <= k < node.pixels.len() ==> {
            let p = #[trigger] node.pixels[k];
            inside(grid, p.x as int, p.y as int) && grid[p.x as int][p.y as int] == node.id
        }
}

/// Whether a node lists each cell of the grid that carries its identifier.
pub open spec fn lists_its_label(grid: Seq<Seq<u32>>, node: NodeView) -> bool {
    forall|x: int, y: int|
        inside(grid, x, y) && #[trigger] grid[x][y] == node.id ==> x <= u32::MAX && y
            <= u32::MAX && node.pixels.contains(PixelCoords { x: x as u32, y: y as u32 })
}

/// A node that owns exactly the cells with its identifier, and whose neighbours were
/// discovered from an empty list, lists exactly the nodes that it touches by an edge.
pub proof fn lemma_wired_by_label(grid: Seq<Seq<u32>>, node: NodeView)
    requires
        holds_its_pixels(grid, node),
        lists_its_label(grid, node),
        is_node_label(node.id),
        node.connections == discovered(Seq::<u32>::empty(), grid, node.id, node.pixels),
    ensures
        wired_node(grid, node),
{
    let none = Seq::<u32>::empty();
    lemma_discovered(none, grid, node.id, node.pixels);
    assert forall|label: u32| #[trigger]
        node.connections.contains(label) <==> is_node_label(label) && label != node.id
            && linked(grid, node.id, label) by {
        if node.connections.contains(label) {
            assert(touches(grid, node.id, node.pixels, label));
            let (k, u, v) = choose|k: int, u: int, v: int|
                0 <= k < node.pixels.len() && #[trigger] adjacent4(
                    node.pixels[k].x as int,
                    node.pixels[k].y as int,
                    u,
                    v,
                ) && neighbour_label(grid, node.id, u, v) == Some(label);
            let p = node.pixels[k];
            assert(inside(grid, p.x as int, p.y as int));
            assert(grid[p.x as int][p.y as int] == node.id);
        }
        if is_node_label(label) && label != node.id && linked(grid, node.id, label) {
            let (x, y, u, v) = choose|x: int, y: int, u: int, v: int|
                inside(grid, x, y) && inside(grid, u, v) && #[trigger] adjacent4(x, y, u, v)
                    && grid[x][y] == node.id && grid[u][v] == label;
            let p = PixelCoords { x: x as u32, y: y as u32 };
            assert(node.pixels.contains(p));
            let k = choose|k: int| 0 <= k < node.pixels.len() && node.pixels[k] == p;
            assert(adjacent4(node.pixels[k].x as int, node.pixels[k].y as int, u, v));
            assert(neighbour_label(grid, node.id, u, v) == Some(label));
            assert(touches(grid, node.id, node.pixels, label));
        }
    }
}

/// Finding neighbours is symmetric: of two nodes that each own exactly the cells with
/// their identifier, and that have each found their neighbours from an empty list as
/// `find_neighbours` does, one lists the other exactly if the other lists it.
pub proof fn find_neighbours_symmetric(grid: Seq<Seq<u32>>, a: NodeView, b: NodeView)
    requires
        holds_its_pixels(grid, a),
        lists_its_label(grid, a),
        holds_its_pixels(grid, b),
        lists_its_label(grid, b),
        is_node_label(a.id),
        is_node_label(b.id),
        a.connections == discovered(Seq::<u32>::empty(), grid, a.id, a.pixels),
        b.connections == discovered(Seq::<u32>::empty(), grid, b.id, b.pixels),
    ensures
        a.connections.contains(b.id) <==> b.connections.contains(a.id),
{
    lemma_wired_by_label(grid, a);
    lemma_wired_by_label(grid, b);
    if linked(grid, a.id, b.id) {
        linked_symmetric(grid, a.id, b.id);
    }
    if linked(grid, b.id, a.id) {
        linked_symmetric(grid, b.id, a.id);
    }
}

/// A region whose neighbours were discovered from an empty list lists exactly the nodes
/// that it touches by an edge.
proof fn lemma_wired_node(img: image::DynamicImage, grid: Seq<Seq<u32>>, node: NodeView, id: int)
    requires
        covers(grid, img),
        region_of(img, grid, node, id),
        is_node_label(node.id),
        node.connections == discovered(Seq::<u32>::empty(), grid, node.id, node.pixels),
    ensures
        wired_node(grid, node),
{
    assert forall|k: int| 0 <= k < node.pixels.len() implies {
        let p = #[trigger] node.pixels[k];
        inside(grid, p.x as int, p.y as int) && grid[p.x as int][p.y as int] == node.id
    } by {
        let p = node.pixels[k];
        assert(in_image(img, p.x as int, p.y as int));
    }
    assert forall|x: int, y: int| inside(grid, x, y) && #[trigger] grid[x][y]
        == node.id implies x <= u32::MAX && y <= u32::MAX && node.pixels.contains(
        PixelCoords { x: x as u32, y: y as u32 },
    ) by {
        assert(in_image(img, x, y));
    }
    lemma_wired_by_label(grid, node);
}

/// A list without repetition of numbers from 1 to `n` has at most `n` entries.
pub proof fn lemma_distinct_bounded(s: Seq<u32>, n: int)
    requires
        s.no_duplicates(),
        0 <= n,
        forall|k: int| 0 <= k < s.len() ==> 1 <= #[trigger] s[k] <= n,
    ensures
        s.len() <= n,
{
    let widen = |v: u32| v as int;
    assert(injective(widen));
    s.lemma_no_duplicates_injective(widen);
    let wide = s.map_values(widen);
    wide.unique_seq_to_set();
    lemma_int_range(1, n + 1);
    assert forall|v: int| wide.to_set().contains(v) implies set_int_range(1, n + 1).contains(
        v,
    ) by {
        let k = choose|k: int| 0 <= k < wide.len() && wide[k] == v;
        assert(wide[k] == s[k] as int);
    }
    lemma_len_subset(wide.to_set(), set_int_range(1, n + 1));
}

/// The circuit of an image can be simulated and painted into a frame of the image's
/// size.
pub proof fn lemma_circuit_runs(img: image::DynamicImage, grid: Seq<Seq<u32>>, nodes: Seq<NodeView>)
    requires
        partitioned(img, grid, nodes),
        wired(grid, nodes),
    ensures
        runnable(nodes),
        all_fit(nodes, image_width(img) as int, image_height(img) as int),
{
    assert forall|i: int| 0 <= i < nodes.len() implies {
        let node = #[trigger] nodes[i];
        &&& node.total + node.connections.len() <= u32::MAX
        &&& node.agree + node.connections.len() <= u32::MAX
        &&& forall|k: int|
            0 <= k < node.connections.len() ==> 1 <= #[trigger] node.connections[k]
                <= nodes.len()
    } by {
        let node = nodes[i];
        assert(region_of(img, grid, node, i + 1));
        assert(wired_node(grid, node));
        let last = nodes[nodes.len() - 1];
        assert(region_of(img, grid, last, nodes.len() as int));
        assert forall|k: int| 0 <= k < node.connections.len() implies 1
            <= #[trigger] node.connections[k] <= nodes.len() by {
            neighbours_are_nodes(img, grid, nodes, i, k);
        }
        lemma_distinct_bounded(node.connections, nodes.len() as int);
    }
    assert forall|i: int| 0 <= i < nodes.len() implies fits(
        #[trigger] nodes[i],
        image_width(img) as int,
        image_height(img) as int,
    ) by {
        assert(region_of(img, grid, nodes[i], i + 1));
    }
}

/// Building a circuit is deterministic: whatever divides an image into regions and
/// lets each find its neighbours from an empty list gives the same labels and the same
/// nodes.
pub proof fn circuit_unique(
    img: image::DynamicImage,
    g1: Seq<Seq<u32>>,
    n1: Seq<NodeView>,
    g2: Seq<Seq<u32>>,
    n2: Seq<NodeView>,
)
    requires
        partitioned(img, g1, n1),
        partitioned(img, g2, n2),
        wired_in_order(g1, n1),
        wired_in_order(g2, n2),
    ensures
        g1 == g2,
        n1 == n2,
{
    partition_unique(img, g1, n1, g2, n2);
    assert forall|i: int| 0 <= i < n1.len() implies n1[i] == n2[i] by {
        assert(n1[i].id == n2[i].id);
        assert(n1[i].pixels == n2[i].pixels);
    }
    assert(n1 =~= n2);
}

/// Builds the circuit of an image: extracts its nodes, then lets each node find its
/// neighbours.
///
/// What comes back is the nodes and the label grid. They divide the image into regions,
/// and each node lists exactly the nodes that it touches by an edge, so that one node
/// lists another exactly if the other lists it.
pub fn build_circuit(image: &image::DynamicImage, mappings: &Palette) -> (built: (
    Vec<Node>,
    Vec<Vec<u32>>,
))
    requires
        image_width(*image) * image_height(*image) < u32::MAX,
        readable(*image),
    ensures
        partitioned(*image, label_grid(built.1@), views(built.0@)),
        wired(label_grid(built.1@), views(built.0@)),
        wired_in_order(label_grid(built.1@), views(built.0@)),
        runnable(views(built.0@)),
        all_fit(views(built.0@), image_width(*image) as int, image_height(*image) as int),
{
    let (mut nodes, mut grid) = extract_regions(image, mappings);
    let ghost labels = label_grid(grid@);
    let mut i: usize = 0;
    while i < nodes.len()
        invariant
            i <= nodes.len(),
            labels == label_grid(grid@),
            partitioned(*image, labels, views(nodes@)),
            forall|j: int| 0 <= j < i ==> wired_node(labels, #[trigger] views(nodes@)[j]),
            forall|j: int|
                0 <= j < i ==> (#[trigger] views(nodes@)[j]).connections == discovered(
                    Seq::<u32>::empty(),
                    labels,
                    views(nodes@)[j].id,
                    views(nodes@)[j].pixels,
                ),
            forall|j: int|
                i <= j < nodes.len() ==> (#[trigger] views(nodes@)[j]).connections.len() == 0,
        decreases nodes.len() - i,
    {
        let ghost before = views(nodes@);
        nodes[i].find_neighbours(&mut grid);
        proof {
            let img = *image;
            let after = views(nodes@);
            let node = after[i as int];
            assert(after =~= before.update(i as int, node));
            assert(before[i as int].connections =~= Seq::<u32>::empty());
            assert(region_of(img, labels, before[i as int], i + 1));
            assert(region_of(img, labels, node, i + 1));
            assert forall|j: int| 0 <= j < after.len() implies region_of(
                img,
                labels,
                #[trigger] after[j],
                j + 1,
            ) by {
                if j != i {
                    assert(region_of(img, labels, before[j], j + 1));
                }
            }
            assert(ordered(after)) by {
                assert forall|a: int, b: int| 0 <= a < b < after.len() implies precedes(
                    (#[trigger] after[a]).pixels[0].x as int,
                    after[a].pixels[0].y as int,
                    (#[trigger] after[b]).pixels[0].x as int,
                    after[b].pixels[0].y as int,
                ) by {
                    assert(before[a].pixels == after[a].pixels);
                    assert(before[b].pixels == after[b].pixels);
                }
            }
            let p = node.pixels[0];
            assert(in_image(img, p.x as int, p.y as int));
            assert(labels[p.x as int][p.y as int] == node.id);
            lemma_wired_node(img, labels, node, i + 1);
            assert forall|j: int| 0 <= j < i + 1 implies wired_node(
                labels,
                #[trigger] after[j],
            ) by {
                if j < i {
                    assert(after[j] == before[j]);
                }
            }
            assert forall|j: int| 0 <= j < i + 1 implies (#[trigger] after[j]).connections
                == discovered(Seq::<u32>::empty(), labels, after[j].id, after[j].pixels) by {
                if j < i {
                    assert(after[j] == before[j]);
                }
            }
        }
        i += 1;
    }
    proof {
        lemma_circuit_runs(*image, labels, views(nodes@));
    }
    (nodes, grid)
}

} // verus!
