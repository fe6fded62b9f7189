//! Frames: the nodes of a circuit painted into an image.
use crate::node::{views, Node, NodeView, PixelCoords};
use crate::palette::Color;
use crate::raster::{
    image_height, image_is_rgb8, image_new_rgb8, image_put_pixel, image_width, in_image,
    pixel_color,
};
use vstd::prelude::*;

verus! {

/// Whether every pixel of a node lies in an image of the given size.
pub open spec fn fits(node: NodeView, width: int, height: int) -> bool {
    forall|k: int|
        0 <= k < node.pixels.len() ==> (#[trigger] node.pixels[k]).x < width && node.pixels[k].y
            < height
}

/// Whether every pixel of every node lies in an image of the given size.
pub open spec fn all_fit(nodes: Seq<NodeView>, width: int, height: int) -> bool {
    forall|i: int| 0 <= i < nodes.len() ==> fits(#[trigger] nodes[i], width, height)
}

/// The colour of the pixel at (x, y) in a frame of the nodes: that of the last node which
/// owns the pixel, and black where none does.
pub open spec fn painted(nodes: Seq<NodeView>, x: int, y: int) -> Color
    decreases nodes.len(),
{
    if nodes.len() == 0 {
        Color { r: 0, g: 0, b: 0 }
    } else if nodes.last().pixels.contains(PixelCoords { x: x as u32, y: y as u32 }) {
        nodes.last().color
    } else {
        painted(nodes.drop_last(), x, y)
    }
}

/// Whether an image is the frame of the nodes, of the given size.
pub open spec fn shows(img: image::DynamicImage, nodes: Seq<NodeView>, width: int, height: int)
    -> bool {
    &&& image_width(img) == width
    &&& image_height(img) == height
    &&& image_is_rgb8(img)
    &&& forall|x: int, y: int|
        in_image(img, x, y) ==> #[trigger] pixel_color(img, x, y) == painted(nodes, x, y)
}

/// A pixel that no node owns is black in the frame of the nodes, and a pixel that one
/// node alone owns has that node's colour.
pub proof fn painted_by_owner(nodes: Seq<NodeView>, x: int, y: int)
    ensures
        (forall|i: int|
            0 <= i < nodes.len() ==> !(#[trigger] nodes[i]).pixels.contains(
                PixelCoords { x: x as u32, y: y as u32 },
            )) ==> painted(nodes, x, y) == (Color { r: 0, g: 0, b: 0 }),
        forall|i: int|
            0 <= i < nodes.len() && (#[trigger] nodes[i]).pixels.contains(
                PixelCoords { x: x as u32, y: y as u32 },
            ) && (forall|j: int|
                0 <= j < nodes.len() && j != i ==> !(#[trigger] nodes[j]).pixels.contains(
                    PixelCoords { x: x as u32, y: y as u32 },
                )) ==> painted(nodes, x, y) == nodes[i].color,
    decreases nodes.len(),
{
    let p = PixelCoords { x: x as u32, y: y as u32 };
    if nodes.len() > 0 {
        let front = nodes.drop_last();
        let top = nodes.len() - 1;
        painted_by_owner(front, x, y);
        assert(forall|j: int| 0 <= j < front.len() ==> front[j] == nodes[j]);
        assert(nodes.last() == nodes[top]);
        if forall|i: int| 0 <= i < nodes.len() ==> !(#[trigger] nodes[i]).pixels.contains(p) {
            assert(!nodes[top].pixels.contains(p));
            assert forall|i: int| 0 <= i < front.len() implies !(#[trigger] front[i])
                .pixels.contains(p) by {
                assert(front[i] == nodes[i]);
            }
        }
        assert forall|i: int|
            0 <= i < nodes.len() && (#[trigger] nodes[i]).pixels.contains(p) && (forall|j: int|
                0 <= j < nodes.len() && j != i ==> !(#[trigger] nodes[j]).pixels.contains(
                    p,
                )) implies painted(nodes, x, y) == nodes[i].color by {
            if i < top {
                assert(!nodes[top].pixels.contains(p));
                assert(front[i] == nodes[i]);
                assert forall|j: int| 0 <= j < front.len() && j != i implies !(#[trigger] front[j])
                    .pixels.contains(p) by {
                    assert(front[j] == nodes[j]);
                }
            }
        }
    }
}

/// Paints the pixels of a node in the node's colour. Every other pixel stays as it is.
pub fn color_node(node: &Node, image: &mut image::DynamicImage)
    requires
        image_is_rgb8(*old(image)),
        fits(node@, image_width(*old(image)) as int, image_height(*old(image)) as int),
    ensures
        image_width(*final(image)) == image_width(*old(image)),
        image_height(*final(image)) == image_height(*old(image)),
        image_is_rgb8(*final(image)),
        forall|x: int, y: int|
            in_image(*old(image), x, y) ==> #[trigger] pixel_color(*final(image), x, y)
                == if node@.pixels.contains(PixelCoords { x: x as u32, y: y as u32 }) {
                node.color
            } else {
                pixel_color(*old(image), x, y)
            },
{
    let mut i: usize = 0;
    while i < node.pixels.len()
        invariant
            i <= node.pixels.len(),
            image_width(*image) == image_width(*old(image)),
            image_height(*image) == image_height(*old(image)),
            image_is_rgb8(*image),
            fits(node@, image_width(*old(image)) as int, image_height(*old(image)) as int),
            forall|x: int, y: int|
                in_image(*old(image), x, y) ==> #[trigger] pixel_color(*image, x, y)
                    == if node@.pixels.take(i as int).contains(
                    PixelCoords { x: x as u32, y: y as u32 },
                ) {
                    node.color
                } else {
                    pixel_color(*old(image), x, y)
                },
        decreases node.pixels.len() - i,
    {
        let pixel = node.pixels[i];
        let ghost before = *image;
        assert(node@.pixels[i as int] == pixel);
        image_put_pixel(image, pixel.x, pixel.y, node.color);
        proof {
            let pixels = node@.pixels;
            let sofar = pixels.take(i as int);
            let done = pixels.take(i + 1);
            assert(done == sofar.push(pixel));
            assert forall|x: int, y: int| in_image(*old(image), x, y) implies #[trigger] pixel_color(
                *image,
                x,
                y,
            ) == if done.contains(PixelCoords { x: x as u32, y: y as u32 }) {
                node.color
            } else {
                pixel_color(*old(image), x, y)
            } by {
                let p = PixelCoords { x: x as u32, y: y as u32 };
                assert(in_image(before, x, y));
                assert(pixel_color(before, x, y) == if sofar.contains(p) {
                    node.color
                } else {
                    pixel_color(*old(image), x, y)
                });
                if p == pixel {
                    assert(done[i as int] == p);
                } else if sofar.contains(p) {
                    let k = choose|k: int| 0 <= k < sofar.len() && sofar[k] == p;
                    assert(done[k] == p);
                } else {
                    if done.contains(p) {
                        let k = choose|k: int| 0 <= k < done.len() && done[k] == p;
                        assert(sofar[k] == p);
                    }
                }
            }
        }
        i += 1;
    }
    assert(node@.pixels.take(i as int) == node@.pixels);
}

/// The frame of the nodes: an image of the given size in which each node's pixels have
/// the node's colour and every other pixel is black.
pub fn render(nodes: &Vec<Node>, width: u32, height: u32) -> (frame: image::DynamicImage)
    requires
        3 * width * height <= isize::MAX,
        all_fit(views(nodes@), width as int, height as int),
    ensures
        shows(frame, views(nodes@), width as int, height as int),
{
    let mut frame = image_new_rgb8(width, height);
    let ghost all = views(nodes@);
    let mut i: usize = 0;
    while i < nodes.len()
        invariant
            i <= nodes.len(),
            all == views(nodes@),
            all_fit(all, width as int, height as int),
            shows(frame, all.take(i as int), width as int, height as int),
        decreases nodes.len() - i,
    {
        let ghost before = frame;
        assert(all[i as int] == nodes[i as int]@);
        color_node(&nodes[i], &mut frame);
        proof {
            assert(all.take(i + 1).drop_last() == all.take(i as int));
            assert(all.take(i + 1).last() == nodes[i as int]@);
            assert forall|x: int, y: int| in_image(frame, x, y) implies #[trigger] pixel_color(
                frame,
                x,
                y,
            ) == painted(all.take(i + 1), x, y) by {
                assert(in_image(before, x, y));
                assert(pixel_color(before, x, y) == painted(all.take(i as int), x, y));
            }
        }
        i += 1;
    }
    assert(all.take(i as int) == all);
    frame
}

} // verus!
