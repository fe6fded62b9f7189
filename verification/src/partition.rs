//! What holds of every division of an image into regions: each pixel has one place in
//! it, and an image has only one such division.
use crate::extract::{has_parent, partitioned, region_of, unwired};
use crate::grid::{adjacent8, is_node_label, precedes, BACKGROUND};
use crate::node::{NodeView, PixelCoords};
use crate::order::breadth_first_unique;
use crate::palette::{kind_of, NodeType};
use crate::raster::{in_image, pixel_color};
use vstd::prelude::*;

verus! {

/// Every pixel is background or belongs to exactly one node.
///
/// A pixel carries the background label exactly if its colour stands for no kind, and no
/// node lists it then. Any other pixel carries the identifier of a node, and that node
/// alone lists it, once.
pub proof fn pixel_has_one_owner(
    img: image::DynamicImage,
    grid: Seq<Seq<u32>>,
    nodes: Seq<NodeView>,
    x: int,
    y: int,
)
    requires
        partitioned(img, grid, nodes),
        in_image(img, x, y),
    ensures
        grid[x][y] == BACKGROUND <==> kind_of(pixel_color(img, x, y)) == NodeType::Background,
        grid[x][y] != BACKGROUND ==> 1 <= grid[x][y] <= nodes.len(),
        forall|i: int|
            0 <= i < nodes.len() ==> ((#[trigger] nodes[i]).pixels.contains(
                PixelCoords { x: x as u32, y: y as u32 },
            ) <==> grid[x][y] == i + 1),
        forall|i: int| 0 <= i < nodes.len() ==> (#[trigger] nodes[i]).pixels.no_duplicates(),
{
    let p = PixelCoords { x: x as u32, y: y as u32 };
    assert forall|i: int| 0 <= i < nodes.len() implies ((#[trigger] nodes[i]).pixels.contains(p)
        <==> grid[x][y] == i + 1) by {
        let node = nodes[i];
        assert(region_of(img, grid, node, i + 1));
        if node.pixels.contains(p) {
            let k = choose|k: int| 0 <= k < node.pixels.len() && node.pixels[k] == p;
            assert(grid[node.pixels[k].x as int][node.pixels[k].y as int] == node.id);
        }
    }
    assert forall|i: int| 0 <= i < nodes.len() implies (#[trigger] nodes[i]).pixels.no_duplicates() by {
        assert(region_of(img, grid, nodes[i], i + 1));
    }
}

/// In a second division of the same image, each pixel of a node carries the label of
/// the node's first pixel, the label of a node.
proof fn lemma_region_in_other(
    img: image::DynamicImage,
    g1: Seq<Seq<u32>>,
    n1: Seq<NodeView>,
    g2: Seq<Seq<u32>>,
    n2: Seq<NodeView>,
    i: int,
    m: int,
)
    requires
        partitioned(img, g1, n1),
        partitioned(img, g2, n2),
        0 <= i < n1.len(),
        0 <= m < n1[i].pixels.len(),
    ensures
        ({
            let p = n1[i].pixels[m];
            let s = n1[i].pixels[0];
            &&& is_node_label(g2[p.x as int][p.y as int])
            &&& g2[p.x as int][p.y as int] == g2[s.x as int][s.y as int]
        }),
    decreases m,
{
    let node = n1[i];
    assert(region_of(img, g1, node, i + 1));
    let p = node.pixels[m];
    assert(in_image(img, p.x as int, p.y as int));
    assert(pixel_color(img, p.x as int, p.y as int) == node.color);
    assert(g2[p.x as int][p.y as int] != BACKGROUND);
    if m > 0 {
        assert(has_parent(node.pixels, m));
        let j = choose|j: int|
            0 <= j < m && adjacent8(
                (#[trigger] node.pixels[j]).x as int,
                node.pixels[j].y as int,
                node.pixels[m].x as int,
                node.pixels[m].y as int,
            );
        lemma_region_in_other(img, g1, n1, g2, n2, i, j);
        let q = node.pixels[j];
        assert(in_image(img, q.x as int, q.y as int));
        assert(pixel_color(img, q.x as int, q.y as int) == node.color);
        assert(adjacent8(q.x as int, q.y as int, p.x as int, p.y as int));
    }
}

/// Two pixels that belong to one node in a division of an image belong to one node in
/// every division of it.
proof fn lemma_same_label(
    img: image::DynamicImage,
    g1: Seq<Seq<u32>>,
    n1: Seq<NodeView>,
    g2: Seq<Seq<u32>>,
    n2: Seq<NodeView>,
    x: int,
    y: int,
    u: int,
    v: int,
)
    requires
        partitioned(img, g1, n1),
        partitioned(img, g2, n2),
        in_image(img, x, y),
        in_image(img, u, v),
        is_node_label(g1[x][y]),
        g1[x][y] == g1[u][v],
    ensures
        g2[x][y] == g2[u][v],
{
    let i = g1[x][y] - 1;
    let node = n1[i];
    assert(region_of(img, g1, node, i + 1));
    let p = PixelCoords { x: x as u32, y: y as u32 };
    let q = PixelCoords { x: u as u32, y: v as u32 };
    assert(node.pixels.contains(p));
    assert(node.pixels.contains(q));
    let a = choose|a: int| 0 <= a < node.pixels.len() && node.pixels[a] == p;
    let b = choose|b: int| 0 <= b < node.pixels.len() && node.pixels[b] == q;
    lemma_region_in_other(img, g1, n1, g2, n2, i, a);
    lemma_region_in_other(img, g1, n1, g2, n2, i, b);
}

/// The first pixel of a node either is itself the pixel at (x, y) or does not come
/// after it, if the pixel carries the label of that node or of a later one.
proof fn lemma_first_pixels(
    img: image::DynamicImage,
    grid: Seq<Seq<u32>>,
    nodes: Seq<NodeView>,
    i: int,
    x: int,
    y: int,
)
    requires
        partitioned(img, grid, nodes),
        0 <= i < nodes.len(),
        in_image(img, x, y),
        i + 1 <= grid[x][y] <= nodes.len(),
    ensures
        !precedes(x, y, nodes[i].pixels[0].x as int, nodes[i].pixels[0].y as int),
{
    let l = grid[x][y] - 1;
    assert(region_of(img, grid, nodes[l], l + 1));
    assert(region_of(img, grid, nodes[i], i + 1));
}

/// Two divisions of one image find the same first pixel for each node.
proof fn lemma_seeds_agree(
    img: image::DynamicImage,
    g1: Seq<Seq<u32>>,
    n1: Seq<NodeView>,
    g2: Seq<Seq<u32>>,
    n2: Seq<NodeView>,
    i: int,
)
    requires
        partitioned(img, g1, n1),
        partitioned(img, g2, n2),
        0 <= i < n1.len(),
    ensures
        i < n2.len(),
        n1[i].pixels[0] == n2[i].pixels[0],
    decreases i,
{
    let s = n1[i].pixels[0];
    assert(region_of(img, g1, n1[i], i + 1));
    assert(in_image(img, s.x as int, s.y as int));
    assert(g1[s.x as int][s.y as int] == i + 1);
    assert(pixel_color(img, s.x as int, s.y as int) == n1[i].color);
    let l = g2[s.x as int][s.y as int] - 1;
    assert(0 <= l < n2.len());
    if l < i {
        lemma_seeds_agree(img, g1, n1, g2, n2, l);
        let sl = n2[l].pixels[0];
        assert(region_of(img, g2, n2[l], l + 1));
        assert(region_of(img, g1, n1[l], l + 1));
        assert(g2[sl.x as int][sl.y as int] == l + 1);
        assert(g1[sl.x as int][sl.y as int] == l + 1);
        lemma_same_label(img, g2, n2, g1, n1, s.x as int, s.y as int, sl.x as int, sl.y as int);
        assert(false);
    }
    let t = n2[i].pixels[0];
    assert(region_of(img, g2, n2[i], i + 1));
    assert(in_image(img, t.x as int, t.y as int));
    assert(g2[t.x as int][t.y as int] == i + 1);
    assert(pixel_color(img, t.x as int, t.y as int) == n2[i].color);
    lemma_first_pixels(img, g2, n2, i, s.x as int, s.y as int);
    let k = g1[t.x as int][t.y as int] - 1;
    assert(0 <= k < n1.len());
    if k < i {
        lemma_seeds_agree(img, g1, n1, g2, n2, k);
        let sk = n1[k].pixels[0];
        assert(region_of(img, g1, n1[k], k + 1));
        assert(region_of(img, g2, n2[k], k + 1));
        assert(g1[sk.x as int][sk.y as int] == k + 1);
        assert(g2[sk.x as int][sk.y as int] == k + 1);
        lemma_same_label(img, g1, n1, g2, n2, t.x as int, t.y as int, sk.x as int, sk.y as int);
        assert(false);
    }
    lemma_first_pixels(img, g1, n1, i, t.x as int, t.y as int);
}

/// An image has only one division into regions.
///
/// Two grids and two sequences of nodes that each divide the same image give every
/// pixel the same label, and hold the same nodes: apart from the neighbours that it
/// lists, each node holds the same in both, its pixels in the same order.
pub proof fn partition_unique(
    img: image::DynamicImage,
    g1: Seq<Seq<u32>>,
    n1: Seq<NodeView>,
    g2: Seq<Seq<u32>>,
    n2: Seq<NodeView>,
)
    requires
        partitioned(img, g1, n1),
        partitioned(img, g2, n2),
    ensures
        g1 == g2,
        n1.len() == n2.len(),
        forall|i: int|
            0 <= i < n1.len() ==> (#[trigger] n1[i]) == (NodeView {
                connections: n1[i].connections,
                ..n2[i]
            }),
{
    if n1.len() > 0 {
        lemma_seeds_agree(img, g1, n1, g2, n2, n1.len() - 1);
    }
    if n2.len() > 0 {
        lemma_seeds_agree(img, g2, n2, g1, n1, n2.len() - 1);
    }
    assert forall|x: int, y: int| in_image(img, x, y) implies g1[x][y] == g2[x][y] by {
        if g1[x][y] != BACKGROUND {
            let i = g1[x][y] - 1;
            let s = n1[i].pixels[0];
            assert(region_of(img, g1, n1[i], i + 1));
            assert(region_of(img, g2, n2[i], i + 1));
            lemma_seeds_agree(img, g1, n1, g2, n2, i);
            lemma_same_label(img, g1, n1, g2, n2, x, y, s.x as int, s.y as int);
            assert(g2[s.x as int][s.y as int] == i + 1);
        }
    }
    assert forall|x: int| 0 <= x < g1.len() implies #[trigger] g1[x] =~= g2[x] by {
        assert forall|y: int| 0 <= y < g1[x].len() implies g1[x][y] == g2[x][y] by {
            assert(in_image(img, x, y));
        }
    }
    assert(g1 =~= g2);
    assert forall|i: int| 0 <= i < n1.len() implies (#[trigger] n1[i]) == (NodeView {
        connections: n1[i].connections,
        ..n2[i]
    }) by {
        let a = n1[i];
        let b = n2[i];
        assert(region_of(img, g1, a, i + 1));
        assert(region_of(img, g2, b, i + 1));
        lemma_seeds_agree(img, g1, n1, g2, n2, i);
        let s = a.pixels[0];
        assert(pixel_color(img, s.x as int, s.y as int) == a.color);
        assert(pixel_color(img, s.x as int, s.y as int) == b.color);
        assert forall|p: PixelCoords| a.pixels.contains(p) <==> b.pixels.contains(p) by {
            if a.pixels.contains(p) {
                let k = choose|k: int| 0 <= k < a.pixels.len() && a.pixels[k] == p;
                assert(in_image(img, a.pixels[k].x as int, a.pixels[k].y as int));
                assert(g1[p.x as int][p.y as int] == i + 1);
                assert(g2[p.x as int][p.y as int] == b.id);
                assert(b.pixels.contains(
                    PixelCoords { x: p.x as int as u32, y: p.y as int as u32 },
                ));
            }
            if b.pixels.contains(p) {
                let k = choose|k: int| 0 <= k < b.pixels.len() && b.pixels[k] == p;
                assert(in_image(img, b.pixels[k].x as int, b.pixels[k].y as int));
                assert(g2[p.x as int][p.y as int] == i + 1);
                assert(g1[p.x as int][p.y as int] == a.id);
                assert(a.pixels.contains(
                    PixelCoords { x: p.x as int as u32, y: p.y as int as u32 },
                ));
            }
        }
        breadth_first_unique(a.pixels, b.pixels);
    }
}

/// Extraction is deterministic: whatever extracts the nodes of an image as
/// `partitioned` says, without neighbours, finds the same labels and the same nodes.
pub proof fn extraction_unique(
    img: image::DynamicImage,
    g1: Seq<Seq<u32>>,
    n1: Seq<NodeView>,
    g2: Seq<Seq<u32>>,
    n2: Seq<NodeView>,
)
    requires
        partitioned(img, g1, n1),
        partitioned(img, g2, n2),
        unwired(n1),
        unwired(n2),
    ensures
        g1 == g2,
        n1 == n2,
{
    partition_unique(img, g1, n1, g2, n2);
    assert forall|i: int| 0 <= i < n1.len() implies n1[i] == n2[i] by {
        assert(n1[i].connections =~= n2[i].connections);
    }
    assert(n1 =~= n2);
}

} // verus!
