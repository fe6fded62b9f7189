//! Region extraction: clustering pixels of one colour that touch into nodes.
use crate::grid::{
    adjacent8, is_node_label, label_grid, lemma_label_cell, new_grid, precedes, rectangular,
    set_label, unlabeled, BACKGROUND, UNLABELED,
};
use crate::node::{fresh, views, Node, NodeView, PixelCoords};
use crate::order::{breadth_first, frontier, lemma_advance, lemma_take, touch};
use crate::palette::{kind_of, Color, NodeType, Palette};
use crate::raster::{
    image_get_height, image_get_pixel, image_get_width, image_height, image_width, in_image,
    pixel_color, readable,
};
use vstd::prelude::*;

verus! {

/// Whether a grid covers an image.
pub open spec fn covers(grid: Seq<Seq<u32>>, img: image::DynamicImage) -> bool {
    rectangular(grid, image_width(img) as int, image_height(img) as int)
}

/// Whether `after` differs from `before` only in cells that were unlabeled and now
/// carry `id`.
pub open spec fn only_labeled(
    img: image::DynamicImage,
    before: Seq<Seq<u32>>,
    after: Seq<Seq<u32>>,
    id: u32,
) -> bool {
    forall|x: int, y: int|
        in_image(img, x, y) ==> #[trigger] after[x][y] == before[x][y] || (before[x][y]
            == UNLABELED && after[x][y] == id)
}

/// Whether each pixel of a node lies in the image, carries the node's colour there and
/// the node's identifier in the grid.
pub open spec fn owns_its_pixels(img: image::DynamicImage, grid: Seq<Seq<u32>>, node: NodeView)
    -> bool {
    forall|k: int|
        0 <= k < node.pixels.len() ==> {
            let p = #[trigger] node.pixels[k];
            &&& in_image(img, p.x as int, p.y as int)
            &&& grid[p.x as int][p.y as int] == node.id
            &&& pixel_color(img, p.x as int, p.y as int) == node.color
        }
}

/// Whether a node lists each pixel that carries its identifier in the grid.
pub open spec fn lists_its_cells(img: image::DynamicImage, grid: Seq<Seq<u32>>, node: NodeView)
    -> bool {
    forall|x: int, y: int|
        in_image(img, x, y) && #[trigger] grid[x][y] == node.id ==> node.pixels.contains(
            PixelCoords { x: x as u32, y: y as u32 },
        )
}

/// Whether each pixel of a node was unlabeled in `before`.
pub open spec fn took_unlabeled(before: Seq<Seq<u32>>, node: NodeView) -> bool {
    forall|k: int|
        0 <= k < node.pixels.len() ==> {
            let p = #[trigger] node.pixels[k];
            before[p.x as int][p.y as int] == UNLABELED
        }
}

/// Whether a node lists each pixel whose label in `after` is another than in `before`.
pub open spec fn lists_what_changed(
    img: image::DynamicImage,
    before: Seq<Seq<u32>>,
    after: Seq<Seq<u32>>,
    node: NodeView,
) -> bool {
    forall|x: int, y: int|
        in_image(img, x, y) && #[trigger] after[x][y] != before[x][y] ==> node.pixels.contains(
            PixelCoords { x: x as u32, y: y as u32 },
        )
}

/// Whether a pixel of a list touches one that stands earlier in the list.
pub open spec fn has_parent(pixels: Seq<PixelCoords>, k: int) -> bool {
    exists|j: int|
        0 <= j < k && adjacent8(
            (#[trigger] pixels[j]).x as int,
            pixels[j].y as int,
            pixels[k].x as int,
            pixels[k].y as int,
        )
}

/// Whether every pixel of a list but the first touches an earlier one, so that the
/// pixels hang together by edges and corners.
pub open spec fn connected(pixels: Seq<PixelCoords>) -> bool {
    forall|k: int| 0 < k < pixels.len() ==> #[trigger] has_parent(pixels, k)
}

/// Whether the pixel at (u, v), if it lies in the image and has the colour, is labeled.
pub open spec fn reached(
    img: image::DynamicImage,
    grid: Seq<Seq<u32>>,
    color: Color,
    u: int,
    v: int,
) -> bool {
    in_image(img, u, v) && pixel_color(img, u, v) == color ==> grid[u][v] != UNLABELED
}

/// Whether around each of the first `upto` pixels of a list every pixel of the colour is
/// labeled.
pub open spec fn settled(
    img: image::DynamicImage,
    grid: Seq<Seq<u32>>,
    pixels: Seq<PixelCoords>,
    color: Color,
    upto: int,
) -> bool {
    forall|k: int, u: int, v: int|
        0 <= k < upto && k < pixels.len() && #[trigger] adjacent8(
            pixels[k].x as int,
            pixels[k].y as int,
            u,
            v,
        ) ==> reached(img, grid, color, u, v)
}

/// What holds of a node while it grows from its first pixel, and of the grid that it
/// labels: the cells that have changed are exactly the pixels of the node, they were
/// unlabeled and carry the node's identifier now; the pixels hang together and stand in
/// the order of a breadth-first walk, and around the first `upto` of them nothing of the
/// node's colour is left unlabeled.
pub open spec fn grown(
    img: image::DynamicImage,
    before: Seq<Seq<u32>>,
    after: Seq<Seq<u32>>,
    node: NodeView,
    upto: int,
) -> bool {
    &&& covers(after, img)
    &&& only_labeled(img, before, after, node.id)
    &&& owns_its_pixels(img, after, node)
    &&& took_unlabeled(before, node)
    &&& lists_what_changed(img, before, after, node)
    &&& node.pixels.no_duplicates()
    &&& connected(node.pixels)
    &&& breadth_first(node.pixels)
    &&& settled(img, after, node.pixels, node.color, upto)
    &&& unlabeled(after) + node.pixels.len() == unlabeled(before)
}

/// Looks at the pixel at (x, y), which lies at the place `rank` around the pixel at index
/// `upto` of the node: if it lies in the image, is unlabeled and has the node's colour, the
/// node takes it.
fn visit(
    image: &image::DynamicImage,
    grid: &mut Vec<Vec<u32>>,
    node: &mut Node,
    x: i64,
    y: i64,
    Ghost(before): Ghost<Seq<Seq<u32>>>,
    Ghost(upto): Ghost<int>,
    Ghost(rank): Ghost<int>,
)
    requires
        readable(*image),
        grown(*image, before, label_grid(old(grid)@), old(node)@, upto),
        is_node_label(old(node).id),
        0 <= upto < old(node)@.pixels.len(),
        adjacent8(
            old(node)@.pixels[upto].x as int,
            old(node)@.pixels[upto].y as int,
            x as int,
            y as int,
        ),
        (x - old(node)@.pixels[upto].x + 1) * 3 + (y - old(node)@.pixels[upto].y + 1) == rank,
        frontier(old(node)@.pixels, upto, rank),
    ensures
        grown(*image, before, label_grid(final(grid)@), final(node)@, upto),
        frontier(final(node)@.pixels, upto, rank + 1),
        final(node)@ == (NodeView { pixels: final(node)@.pixels, ..old(node)@ }),
        old(node)@.pixels.is_prefix_of(final(node)@.pixels),
        reached(*image, label_grid(final(grid)@), old(node).color, x as int, y as int),
        forall|u: int, v: int|
            reached(*image, label_grid(old(grid)@), old(node).color, u, v) ==> #[trigger] reached(
                *image,
                label_grid(final(grid)@),
                old(node).color,
                u,
                v,
            ),
{
    let width = image_get_width(image);
    let height = image_get_height(image);
    if x < 0 || y < 0 || x >= width as i64 || y >= height as i64 {
        return ;
    }
    let ux = x as u32;
    let uy = y as u32;
    let ghost labels = label_grid(grid@);
    assert(labels[ux as int].len() == height);
    if grid[ux as usize][uy as usize] != UNLABELED {
        return ;
    }
    let color = image_get_pixel(image, ux, uy);
    assert(color == pixel_color(*image, x as int, y as int));
    if color == node.color {
        set_label(grid, ux as usize, uy as usize, node.id);
        node.add_pixel(ux, uy);
        proof {
            let img = *image;
            let after = label_grid(grid@);
            let pixels = old(node)@.pixels;
            let grownup = node@.pixels;
            let p = PixelCoords { x: ux, y: uy };
            assert(grownup == pixels.push(p));
            lemma_label_cell(labels, x as int, y as int, node.id);
            assert(forall|a: int, b: int|
                in_image(img, a, b) ==> #[trigger] after[a][b] == if a == x && b == y {
                    node.id
                } else {
                    labels[a][b]
                });
            assert(covers(after, img));
            assert(only_labeled(img, before, after, node.id));
            assert forall|k: int| 0 <= k < pixels.len() implies pixels[k] != p by {
                let q = pixels[k];
                assert(labels[q.x as int][q.y as int] == node.id);
            }
            assert(owns_its_pixels(img, after, node@)) by {
                assert forall|k: int| 0 <= k < grownup.len() implies {
                    let q = #[trigger] grownup[k];
                    &&& in_image(img, q.x as int, q.y as int)
                    &&& after[q.x as int][q.y as int] == node.id
                    &&& pixel_color(img, q.x as int, q.y as int) == node.color
                } by {
                    if k < pixels.len() {
                        let q = pixels[k];
                        assert(q != p);
                        assert(labels[q.x as int][q.y as int] == node.id);
                    }
                }
            }
            assert(before[x as int][y as int] == UNLABELED);
            assert(took_unlabeled(before, node@)) by {
                assert forall|k: int| 0 <= k < grownup.len() implies {
                    let q = #[trigger] grownup[k];
                    before[q.x as int][q.y as int] == UNLABELED
                } by {
                    if k < pixels.len() {
                        let q = pixels[k];
                        assert(before[q.x as int][q.y as int] == UNLABELED);
                    }
                }
            }
            assert(lists_what_changed(img, before, after, node@)) by {
                assert forall|a: int, b: int|
                    in_image(img, a, b) && #[trigger] after[a][b]
                        != before[a][b] implies grownup.contains(
                    PixelCoords { x: a as u32, y: b as u32 },
                ) by {
                    let q = PixelCoords { x: a as u32, y: b as u32 };
                    if a == x && b == y {
                        assert(grownup[pixels.len() as int] == q);
                    } else {
                        assert(labels[a][b] != before[a][b]);
                        assert(pixels.contains(q));
                        let k = choose|k: int| 0 <= k < pixels.len() && pixels[k] == q;
                        assert(grownup[k] == q);
                    }
                }
            }
            assert(grownup.no_duplicates());
            assert(connected(grownup)) by {
                assert forall|k: int| 0 < k < grownup.len() implies #[trigger] has_parent(
                    grownup,
                    k,
                ) by {
                    if k < pixels.len() {
                        assert(has_parent(pixels, k));
                        let j = choose|j: int|
                            0 <= j < k && adjacent8(
                                (#[trigger] pixels[j]).x as int,
                                pixels[j].y as int,
                                pixels[k].x as int,
                                pixels[k].y as int,
                            );
                        assert(grownup[j] == pixels[j]);
                    } else {
                        assert(grownup[upto] == pixels[upto]);
                    }
                }
            }
            assert forall|u: int, v: int|
                reached(img, labels, node.color, u, v) implies #[trigger] reached(
                img,
                after,
                node.color,
                u,
                v,
            ) by {
                if in_image(img, u, v) {
                    assert(after[u][v] == if u == x && v == y {
                        node.id
                    } else {
                        labels[u][v]
                    });
                }
            }
            // The pixel taken was unlabeled, so it touches none of the pixels that are
            // settled.
            assert(!reached(img, labels, node.color, x as int, y as int));
            assert forall|b: int| 0 <= b < upto implies !#[trigger] touch(pixels[b], p) by {
                if touch(pixels[b], p) {
                    assert(adjacent8(pixels[b].x as int, pixels[b].y as int, x as int, y as int));
                }
            }
            lemma_take(pixels, p, upto, rank);
            assert(settled(img, after, grownup, node.color, upto)) by {
                assert forall|k: int, u: int, v: int|
                    0 <= k < upto && k < grownup.len() && #[trigger] adjacent8(
                        grownup[k].x as int,
                        grownup[k].y as int,
                        u,
                        v,
                    ) implies reached(img, after, node.color, u, v) by {
                    assert(grownup[k] == pixels[k]);
                    assert(reached(img, labels, node.color, u, v));
                }
            }
        }
    }
}

/// Growing a node takes unlabeled pixels only: no cell that was labeled changes, and
/// the cells that change are exactly the pixels of the node, each of which carries the
/// node's identifier then.
pub proof fn lemma_growth_frame(
    img: image::DynamicImage,
    before: Seq<Seq<u32>>,
    after: Seq<Seq<u32>>,
    node: NodeView,
)
    requires
        grown(img, before, after, node, node.pixels.len() as int),
        node.id != UNLABELED,
    ensures
        forall|x: int, y: int|
            in_image(img, x, y) && #[trigger] before[x][y] != UNLABELED ==> after[x][y]
                == before[x][y],
        forall|x: int, y: int|
            in_image(img, x, y) ==> (#[trigger] after[x][y] != before[x][y]
                <==> node.pixels.contains(PixelCoords { x: x as u32, y: y as u32 })),
        forall|k: int|
            0 <= k < node.pixels.len() ==> after[(#[trigger] node.pixels[k]).x as int][node.pixels[k].y as int]
                == node.id,
{
    assert forall|x: int, y: int| in_image(img, x, y) implies (#[trigger] after[x][y]
        != before[x][y] <==> node.pixels.contains(PixelCoords { x: x as u32, y: y as u32 })) by {
        let p = PixelCoords { x: x as u32, y: y as u32 };
        if node.pixels.contains(p) {
            let k = choose|k: int| 0 <= k < node.pixels.len() && node.pixels[k] == p;
            let q = node.pixels[k];
            assert(before[q.x as int][q.y as int] == UNLABELED);
            assert(after[q.x as int][q.y as int] == node.id);
        }
    }
    assert forall|k: int| 0 <= k < node.pixels.len() implies after[(
    #[trigger] node.pixels[k]).x as int][node.pixels[k].y as int] == node.id by {
        let q = node.pixels[k];
        assert(after[q.x as int][q.y as int] == node.id);
    }
}

/// Whether a node with one pixel can be grown into a region: the image can be read, and
/// the pixel lies in it, is unlabeled and has the node's colour.
pub open spec fn is_seed(img: image::DynamicImage, grid: Seq<Seq<u32>>, node: NodeView) -> bool {
    &&& readable(img)
    &&& covers(grid, img)
    &&& is_node_label(node.id)
    &&& node.pixels.len() == 1
    &&& in_image(img, node.pixels[0].x as int, node.pixels[0].y as int)
    &&& grid[node.pixels[0].x as int][node.pixels[0].y as int] == UNLABELED
    &&& pixel_color(img, node.pixels[0].x as int, node.pixels[0].y as int) == node.color
}

/// Grows a node from its one pixel: breadth first, it takes every unlabeled pixel of its
/// colour that touches one of its own by an edge or a corner, and labels it with the
/// node's identifier, until none is left.
///
/// No cell that was labeled changes. The cells that change are exactly the pixels of
/// the node that comes back, and each carries the node's identifier then. They hang
/// together, and around them no pixel of the node's colour is left unlabeled.
pub fn explore_node_cluster(
    node: &Node,
    image: &image::DynamicImage,
    explored_pixels: &mut Vec<Vec<u32>>,
    mappings: &Palette,
) -> (region: Node)
    requires
        is_seed(*image, label_grid(old(explored_pixels)@), node@),
    ensures
        region@ == (NodeView {
            pixels: region@.pixels,
            connections: node@.connections,
            explored: true,
            ..fresh(node.id, node.color)
        }),
        region@.pixels.len() > 0,
        region@.pixels[0] == node@.pixels[0],
        grown(
            *image,
            label_grid(old(explored_pixels)@),
            label_grid(final(explored_pixels)@),
            region@,
            region@.pixels.len() as int,
        ),
        forall|x: int, y: int|
            in_image(*image, x, y) && #[trigger] label_grid(old(explored_pixels)@)[x][y]
                != UNLABELED ==> label_grid(final(explored_pixels)@)[x][y] == label_grid(
                old(explored_pixels)@,
            )[x][y],
        forall|x: int, y: int|
            in_image(*image, x, y) ==> (#[trigger] label_grid(final(explored_pixels)@)[x][y]
                != label_grid(old(explored_pixels)@)[x][y] <==> region@.pixels.contains(
                PixelCoords { x: x as u32, y: y as u32 },
            )),
        forall|k: int|
            0 <= k < region@.pixels.len() ==> label_grid(final(explored_pixels)@)[(
            #[trigger] region@.pixels[k]).x as int][region@.pixels[k].y as int] == node.id,
{
    let ghost before = label_grid(explored_pixels@);
    let mut region = Node::new(node.id, node.color, mappings);
    region = region.merge(node);
    let seed = node.pixels[0];
    assert(region@.pixels =~= node@.pixels);
    assert(region@.connections =~= node@.connections);
    assert(before[seed.x as int].len() == image_height(*image));
    set_label(explored_pixels, seed.x as usize, seed.y as usize, node.id);
    proof {
        let img = *image;
        let after = label_grid(explored_pixels@);
        lemma_label_cell(before, seed.x as int, seed.y as int, node.id);
        assert(forall|a: int, b: int|
            in_image(img, a, b) ==> #[trigger] after[a][b] == if a == seed.x && b == seed.y {
                node.id
            } else {
                before[a][b]
            });
        assert(covers(after, img));
        assert(lists_what_changed(img, before, after, region@)) by {
            assert forall|a: int, b: int|
                in_image(img, a, b) && #[trigger] after[a][b]
                    != before[a][b] implies region@.pixels.contains(
                PixelCoords { x: a as u32, y: b as u32 },
            ) by {
                assert(region@.pixels[0] == seed);
            }
        }
    }
    let mut head: usize = 0;
    while head < region.pixels.len()
        invariant
            readable(*image),
            grown(*image, before, label_grid(explored_pixels@), region@, head as int),
            head <= region@.pixels.len(),
            is_node_label(region.id),
            region@ == (NodeView {
                pixels: region@.pixels,
                connections: node@.connections,
                ..fresh(node.id, node.color)
            }),
            region@.pixels.len() > 0,
            region@.pixels[0] == seed,
            frontier(region@.pixels, head as int, 0),
        decreases unlabeled(before) - head,
    {
        let pixel = region.pixels[head];
        let x = pixel.x as i64;
        let y = pixel.y as i64;
        let ghost at = head as int;
        let start = Ghost(before);
        let here = Ghost(at);
        visit(image, explored_pixels, &mut region, x - 1, y - 1, start, here, Ghost(0));
        visit(image, explored_pixels, &mut region, x - 1, y, start, here, Ghost(1));
        visit(image, explored_pixels, &mut region, x - 1, y + 1, start, here, Ghost(2));
        visit(image, explored_pixels, &mut region, x, y - 1, start, here, Ghost(3));
        visit(image, explored_pixels, &mut region, x, y + 1, start, here, Ghost(5));
        visit(image, explored_pixels, &mut region, x + 1, y - 1, start, here, Ghost(6));
        visit(image, explored_pixels, &mut region, x + 1, y, start, here, Ghost(7));
        visit(image, explored_pixels, &mut region, x + 1, y + 1, start, here, Ghost(8));
        proof {
            let img = *image;
            let after = label_grid(explored_pixels@);
            let pixels = region@.pixels;
            assert(pixels[at] == pixel);
            assert forall|k: int, u: int, v: int|
                0 <= k < at + 1 && k < pixels.len() && #[trigger] adjacent8(
                    pixels[k].x as int,
                    pixels[k].y as int,
                    u,
                    v,
                ) implies reached(img, after, region.color, u, v) by {
                if k == at {
                    assert(reached(img, after, region.color, x - 1, y - 1));
                    assert(reached(img, after, region.color, x - 1, y as int));
                    assert(reached(img, after, region.color, x - 1, y + 1));
                    assert(reached(img, after, region.color, x as int, y - 1));
                    assert(reached(img, after, region.color, x as int, y + 1));
                    assert(reached(img, after, region.color, x + 1, y - 1));
                    assert(reached(img, after, region.color, x + 1, y as int));
                    assert(reached(img, after, region.color, x + 1, y + 1));
                }
            }
            lemma_advance(pixels, at, 9);
        }
        head += 1;
    }
    region.make_explored();
    proof {
        lemma_growth_frame(*image, before, label_grid(explored_pixels@), region@);
    }
    region
}

/// Whether each labeled pixel carries the background label exactly if its colour stands
/// for no kind, and otherwise the identifier of one of `count` nodes.
pub open spec fn labels_agree(img: image::DynamicImage, grid: Seq<Seq<u32>>, count: int) -> bool {
    forall|x: int, y: int|
        in_image(img, x, y) && #[trigger] grid[x][y] != UNLABELED ==> {
            &&& grid[x][y] == BACKGROUND <==> kind_of(pixel_color(img, x, y))
                == NodeType::Background
            &&& grid[x][y] != BACKGROUND ==> 1 <= grid[x][y] <= count
        }
}

/// Whether a node is the region with the identifier `id`: it is of its colour's kind,
/// marked as explored and without signal; it owns exactly the cells that carry `id`, at
/// least one; they hang together and are listed breadth first, and the first of them is
/// the first that a walk over the image, row by row, comes to.
pub open spec fn region_of(img: image::DynamicImage, grid: Seq<Seq<u32>>, node: NodeView, id: int)
    -> bool {
    &&& node == (NodeView {
        pixels: node.pixels,
        connections: node.connections,
        explored: true,
        ..fresh(id as u32, node.color)
    })
    &&& node.id == id
    &&& node.nodetype != NodeType::Background
    &&& node.pixels.len() > 0
    &&& owns_its_pixels(img, grid, node)
    &&& lists_its_cells(img, grid, node)
    &&& node.pixels.no_duplicates()
    &&& connected(node.pixels)
    &&& breadth_first(node.pixels)
    &&& forall|x: int, y: int|
        in_image(img, x, y) && #[trigger] grid[x][y] == node.id ==> !precedes(
            x,
            y,
            node.pixels[0].x as int,
            node.pixels[0].y as int,
        )
}

/// Whether the node at each index `i` is the region with the identifier `i + 1`.
pub open spec fn regions(img: image::DynamicImage, grid: Seq<Seq<u32>>, nodes: Seq<NodeView>)
    -> bool {
    forall|i: int| 0 <= i < nodes.len() ==> region_of(img, grid, #[trigger] nodes[i], i + 1)
}

/// Whether no region can grow: a pixel that touches a pixel of a node, by an edge or a
/// corner, and has its colour belongs to the same node.
pub open spec fn unbroken(img: image::DynamicImage, grid: Seq<Seq<u32>>) -> bool {
    forall|x: int, y: int, u: int, v: int|
        in_image(img, x, y) && in_image(img, u, v) && #[trigger] adjacent8(x, y, u, v)
            && is_node_label(grid[x][y]) && pixel_color(img, u, v) == pixel_color(img, x, y)
            ==> grid[u][v] == grid[x][y]
}

/// Whether the nodes stand in the order in which a walk over the image, row by row,
/// comes to their first pixels.
pub open spec fn ordered(nodes: Seq<NodeView>) -> bool {
    forall|i: int, j: int|
        0 <= i < j < nodes.len() ==> precedes(
            (#[trigger] nodes[i]).pixels[0].x as int,
            nodes[i].pixels[0].y as int,
            (#[trigger] nodes[j]).pixels[0].x as int,
            nodes[j].pixels[0].y as int,
        )
}

/// What holds while the image is walked row by row and the walk stands before the pixel at
/// (x0, y0): every pixel before it is labeled, and the nodes found so far are complete
/// regions.
pub open spec fn scanning(
    img: image::DynamicImage,
    grid: Seq<Seq<u32>>,
    nodes: Seq<NodeView>,
    x0: int,
    y0: int,
) -> bool {
    &&& covers(grid, img)
    &&& labels_agree(img, grid, nodes.len() as int)
    &&& regions(img, grid, nodes)
    &&& unbroken(img, grid)
    &&& ordered(nodes)
    &&& forall|x: int, y: int|
        in_image(img, x, y) && precedes(x, y, x0, y0) ==> #[trigger] grid[x][y] != UNLABELED
    &&& forall|i: int|
        0 <= i < nodes.len() ==> precedes(
            (#[trigger] nodes[i]).pixels[0].x as int,
            nodes[i].pixels[0].y as int,
            x0,
            y0,
        )
    &&& nodes.len() <= y0 * image_width(img) + x0
}

/// Whether a grid and a sequence of nodes divide an image into regions.
///
/// Every pixel is labeled: with the background label where its colour stands for no
/// kind, and else with the identifier of the one node that owns it. The node at index
/// `i` has the identifier `i + 1`. Each node is a set of pixels of one colour that hang
/// together by edges and corners and that cannot grow; it lists them breadth first from
/// the first of them. The nodes stand in the order in which a walk over the image, row
/// by row, comes to them.
pub open spec fn partitioned(img: image::DynamicImage, grid: Seq<Seq<u32>>, nodes: Seq<NodeView>)
    -> bool {
    &&& covers(grid, img)
    &&& forall|x: int, y: int| in_image(img, x, y) ==> #[trigger] grid[x][y] != UNLABELED
    &&& labels_agree(img, grid, nodes.len() as int)
    &&& regions(img, grid, nodes)
    &&& unbroken(img, grid)
    &&& ordered(nodes)
}

/// Whether no node lists a neighbour.
pub open spec fn unwired(nodes: Seq<NodeView>) -> bool {
    forall|i: int| 0 <= i < nodes.len() ==> (#[trigger] nodes[i]).connections.len() == 0
}

/// A region stays what it is while cells that were unlabeled take another label.
proof fn lemma_region_stays(
    img: image::DynamicImage,
    g0: Seq<Seq<u32>>,
    g1: Seq<Seq<u32>>,
    node: NodeView,
    id: int,
    label: u32,
)
    requires
        region_of(img, g0, node, id),
        only_labeled(img, g0, g1, label),
        id != label,
        id != UNLABELED,
    ensures
        region_of(img, g1, node, id),
{
    assert forall|k: int| 0 <= k < node.pixels.len() implies {
        let p = #[trigger] node.pixels[k];
        g1[p.x as int][p.y as int] == node.id
    } by {
        let p = node.pixels[k];
        assert(g0[p.x as int][p.y as int] == node.id);
        let (x, y) = (p.x as int, p.y as int);
        assert(g1[x][y] == g0[x][y] || g1[x][y] == label);
    }
    assert forall|a: int, b: int|
        in_image(img, a, b) && #[trigger] g1[a][b] == node.id implies g0[a][b] == node.id by {}
}

/// One step of the walk: labels the pixel at (x, y) if it is unlabeled, as background
/// or as the first pixel of a new node, which is grown at once.
fn scan_pixel(
    image: &image::DynamicImage,
    grid: &mut Vec<Vec<u32>>,
    nodes: &mut Vec<Node>,
    mappings: &Palette,
    x: u32,
    y: u32,
)
    requires
        scanning(*image, label_grid(old(grid)@), views(old(nodes)@), x as int, y as int),
        in_image(*image, x as int, y as int),
        image_width(*image) * image_height(*image) < u32::MAX,
        readable(*image),
    ensures
        scanning(*image, label_grid(final(grid)@), views(final(nodes)@), x + 1, y as int),
        unwired(views(old(nodes)@)) ==> unwired(views(final(nodes)@)),
{
    let ghost img = *image;
    let ghost g0 = label_grid(grid@);
    let ghost found = views(nodes@);
    assert(g0[x as int].len() == image_height(img));
    if grid[x as usize][y as usize] != UNLABELED {
        return ;
    }
    let color = image_get_pixel(image, x, y);
    assert(color == pixel_color(img, x as int, y as int));
    if color.to_nodetype(mappings) != NodeType::Background {
        assert(found.len() + 1 < u32::MAX) by (nonlinear_arith)
            requires
                found.len() <= y * image_width(img) + x,
                0 <= x < image_width(img),
                0 <= y < image_height(img),
                image_width(img) * image_height(img) < u32::MAX,
        ;
        let id = (nodes.len() + 1) as u32;
        let mut node = Node::new(id, color, mappings);
        node.add_pixel(x, y);
        assert(node@.pixels[0] == PixelCoords { x, y });
        node = explore_node_cluster(&node, image, grid, mappings);
        nodes.push(node);
        proof {
            let g1 = label_grid(grid@);
            let all = views(nodes@);
            let region = node@;
            assert(all =~= found.push(region));
            assert(region.connections =~= Seq::<u32>::empty());
            assert(lists_its_cells(img, g1, region)) by {
                assert forall|a: int, b: int|
                    in_image(img, a, b) && #[trigger] g1[a][b]
                        == id implies region.pixels.contains(
                    PixelCoords { x: a as u32, y: b as u32 },
                ) by {
                    assert(g0[a][b] != id);
                }
            }
            assert(labels_agree(img, g1, all.len() as int)) by {
                assert forall|a: int, b: int|
                    in_image(img, a, b) && #[trigger] g1[a][b] != UNLABELED implies {
                    &&& g1[a][b] == BACKGROUND <==> kind_of(pixel_color(img, a, b))
                        == NodeType::Background
                    &&& g1[a][b] != BACKGROUND ==> 1 <= g1[a][b] <= all.len()
                } by {
                    if g1[a][b] == id {
                        let k = choose|k: int|
                            0 <= k < region.pixels.len() && region.pixels[k] == (PixelCoords {
                                x: a as u32,
                                y: b as u32,
                            });
                        assert(pixel_color(img, a, b) == color);
                    } else {
                        assert(g1[a][b] == g0[a][b]);
                    }
                }
            }
            assert forall|i: int| 0 <= i < all.len() implies region_of(
                img,
                g1,
                #[trigger] all[i],
                i + 1,
            ) by {
                if i < found.len() {
                    assert(all[i] == found[i]);
                    lemma_region_stays(img, g0, g1, found[i], i + 1, id);
                } else {
                    assert(all[i] == region);
                    assert(region.nodetype == kind_of(color));
                    assert forall|a: int, b: int|
                        in_image(img, a, b) && #[trigger] g1[a][b] == id implies !precedes(
                        a,
                        b,
                        x as int,
                        y as int,
                    ) by {
                        assert(g0[a][b] != id);
                        assert(g0[a][b] == UNLABELED);
                    }
                }
            }
            assert(unbroken(img, g1)) by {
                assert forall|a: int, b: int, u: int, v: int|
                    in_image(img, a, b) && in_image(img, u, v) && #[trigger] adjacent8(a, b, u, v)
                        && is_node_label(g1[a][b]) && pixel_color(img, u, v) == pixel_color(
                        img,
                        a,
                        b,
                    ) implies g1[u][v] == g1[a][b] by {
                    if g1[a][b] == id {
                        let k = choose|k: int|
                            0 <= k < region.pixels.len() && region.pixels[k] == (PixelCoords {
                                x: a as u32,
                                y: b as u32,
                            });
                        assert(adjacent8(
                            region.pixels[k].x as int,
                            region.pixels[k].y as int,
                            u,
                            v,
                        ));
                        assert(reached(img, g1, color, u, v));
                        if g1[u][v] != id {
                            assert(g1[u][v] == g0[u][v]);
                            assert(is_node_label(g0[u][v]));
                            assert(adjacent8(u, v, a, b));
                            assert(g0[a][b] == g0[u][v]);
                        }
                    } else {
                        assert(g1[a][b] == g0[a][b]);
                        assert(g0[u][v] == g0[a][b]);
                    }
                }
            }
            assert(ordered(all));
            assert(region.pixels[0] == (PixelCoords { x, y }));
            assert(g1[x as int][y as int] == id);
        }
    } else {
        set_label(grid, x as usize, y as usize, BACKGROUND);
        proof {
            let g1 = label_grid(grid@);
            assert(forall|a: int, b: int|
                in_image(img, a, b) ==> #[trigger] g1[a][b] == if a == x && b == y {
                    BACKGROUND
                } else {
                    g0[a][b]
                });
            assert(covers(g1, img));
            assert(only_labeled(img, g0, g1, BACKGROUND));
            assert forall|i: int| 0 <= i < found.len() implies region_of(
                img,
                g1,
                #[trigger] found[i],
                i + 1,
            ) by {
                lemma_region_stays(img, g0, g1, found[i], i + 1, BACKGROUND);
            }
            assert(unbroken(img, g1)) by {
                assert forall|a: int, b: int, u: int, v: int|
                    in_image(img, a, b) && in_image(img, u, v) && #[trigger] adjacent8(a, b, u, v)
                        && is_node_label(g1[a][b]) && pixel_color(img, u, v) == pixel_color(
                        img,
                        a,
                        b,
                    ) implies g1[u][v] == g1[a][b] by {
                    assert(g1[a][b] == g0[a][b]);
                    assert(g0[u][v] == g0[a][b]);
                }
            }
        }
    }
}

/// Extracts the nodes of an image.
///
/// The image is walked row by row, each row from its first column on. An
/// unlabeled pixel whose colour stands for a kind starts a node, which is grown at once
/// over all pixels of that colour that hang together with it; any other unlabeled pixel
/// becomes background. The nodes are numbered from 1 in the order in which they are
/// found.
pub fn extract_regions(image: &image::DynamicImage, mappings: &Palette) -> (found: (
    Vec<Node>,
    Vec<Vec<u32>>,
))
    requires
        image_width(*image) * image_height(*image) < u32::MAX,
        readable(*image),
    ensures
        partitioned(*image, label_grid(found.1@), views(found.0@)),
        unwired(views(found.0@)),
{
    let width = image_get_width(image);
    let height = image_get_height(image);
    let mut nodes: Vec<Node> = Vec::new();
    let mut grid = new_grid(width, height);
    let mut y: u32 = 0;
    while y < height
        invariant
            y <= height,
            width == image_width(*image),
            height == image_height(*image),
            image_width(*image) * image_height(*image) < u32::MAX,
            readable(*image),
            scanning(*image, label_grid(grid@), views(nodes@), 0, y as int),
            unwired(views(nodes@)),
        decreases height - y,
    {
        let mut x: u32 = 0;
        while x < width
            invariant
                y < height,
                x <= width,
                width == image_width(*image),
                height == image_height(*image),
                image_width(*image) * image_height(*image) < u32::MAX,
                readable(*image),
                scanning(*image, label_grid(grid@), views(nodes@), x as int, y as int),
                unwired(views(nodes@)),
            decreases width - x,
        {
            scan_pixel(image, &mut grid, &mut nodes, mappings, x, y);
            x += 1;
        }
        proof {
            assert(y * width + width == (y + 1) * width) by (nonlinear_arith);
        }
        y += 1;
    }
    (nodes, grid)
}

} // verus!
