use image::{DynamicImage, Rgb, RgbImage};
use reso::extract::{explore_node_cluster, extract_regions};
use reso::grid::{new_grid, set_label, BACKGROUND, UNLABELED};
use reso::node::{Node, PixelCoords};
use reso::palette::{get_node_color_mappings, Color, NodeType, WireState, WireType};

fn rgb(sign: char) -> [u8; 3] {
    match sign {
        'O' => [255, 128, 0],
        'o' => [128, 64, 0],
        'S' => [0, 128, 255],
        's' => [0, 64, 128],
        'L' => [128, 255, 0],
        'l' => [64, 128, 0],
        'U' => [128, 0, 255],
        'I' => [64, 0, 128],
        'X' => [0, 255, 128],
        'A' => [0, 128, 64],
        '.' => [0, 0, 0],
        _ => [1, 2, 3],
    }
}

fn picture(rows: &[&str]) -> DynamicImage {
    let height = rows.len() as u32;
    let width = rows[0].len() as u32;
    let mut img = RgbImage::new(width, height);
    for (y, row) in rows.iter().enumerate() {
        for (x, sign) in row.chars().enumerate() {
            img.put_pixel(x as u32, y as u32, Rgb(rgb(sign)));
        }
    }
    DynamicImage::ImageRgb8(img)
}

fn at(x: u32, y: u32) -> PixelCoords {
    PixelCoords { x, y }
}

#[test]
fn new_grid_is_unlabeled() {
    let grid = new_grid(3, 2);
    assert_eq!(grid, vec![vec![0, 0], vec![0, 0], vec![0, 0]]);
    assert_eq!(UNLABELED, 0);
    assert_eq!(BACKGROUND, u32::MAX);
    assert_eq!(new_grid(0, 5), Vec::<Vec<u32>>::new());
    assert_eq!(new_grid(2, 0), vec![Vec::<u32>::new(), Vec::<u32>::new()]);
}

#[test]
fn set_label_writes_one_cell() {
    let mut grid = new_grid(2, 3);
    set_label(&mut grid, 1, 2, 7);
    assert_eq!(grid, vec![vec![0, 0, 0], vec![0, 0, 7]]);
}

#[test]
fn nodes_are_numbered_row_by_row() {
    let palette = get_node_color_mappings();
    let img = picture(&["OO.", ".I.", "..U"]);
    let (nodes, grid) = extract_regions(&img, &palette);
    assert_eq!(nodes.len(), 3);
    assert_eq!(nodes[0].id, 1);
    assert_eq!(nodes[0].nodetype, NodeType::Wire(WireType::Orange, WireState::Active));
    assert_eq!(nodes[0].color, Color::new(255, 128, 0));
    assert_eq!(nodes[0].pixels, vec![at(0, 0), at(1, 0)]);
    assert_eq!(nodes[1].id, 2);
    assert_eq!(nodes[1].nodetype, NodeType::Input);
    assert_eq!(nodes[1].pixels, vec![at(1, 1)]);
    assert_eq!(nodes[2].id, 3);
    assert_eq!(nodes[2].nodetype, NodeType::Output);
    assert_eq!(nodes[2].pixels, vec![at(2, 2)]);
    let m = BACKGROUND;
    assert_eq!(grid, vec![vec![1, m, m], vec![1, 2, m], vec![m, m, 3]]);
    for n in nodes.iter() {
        assert!(n.explored);
        assert!(n.connections.is_empty());
        assert_eq!(n.next_nodetype, NodeType::Background);
        assert_eq!((n.total, n.agree), (0, 0));
    }
}

#[test]
fn the_upper_row_comes_first() {
    let palette = get_node_color_mappings();
    let img = picture(&[".A", "X."]);
    let (nodes, grid) = extract_regions(&img, &palette);
    assert_eq!(nodes.len(), 2);
    assert_eq!(nodes[0].nodetype, NodeType::And);
    assert_eq!(nodes[0].pixels, vec![at(1, 0)]);
    assert_eq!(nodes[1].nodetype, NodeType::Xor);
    assert_eq!(nodes[1].pixels, vec![at(0, 1)]);
    assert_eq!(grid, vec![vec![BACKGROUND, 2], vec![1, BACKGROUND]]);
}

#[test]
fn pixels_that_touch_by_a_corner_are_one_node() {
    let palette = get_node_color_mappings();
    let img = picture(&["O.", ".O"]);
    let (nodes, grid) = extract_regions(&img, &palette);
    assert_eq!(nodes.len(), 1);
    assert_eq!(nodes[0].pixels, vec![at(0, 0), at(1, 1)]);
    assert_eq!(grid, vec![vec![1, BACKGROUND], vec![BACKGROUND, 1]]);
}

#[test]
fn pixels_of_one_color_that_do_not_touch_are_two_nodes() {
    let palette = get_node_color_mappings();
    let img = picture(&["O.O"]);
    let (nodes, grid) = extract_regions(&img, &palette);
    assert_eq!(nodes.len(), 2);
    assert_eq!(nodes[0].pixels, vec![at(0, 0)]);
    assert_eq!(nodes[1].pixels, vec![at(2, 0)]);
    assert_eq!(grid, vec![vec![1], vec![BACKGROUND], vec![2]]);
}

#[test]
fn active_and_inactive_wire_are_two_nodes() {
    let palette = get_node_color_mappings();
    let img = picture(&["Oo"]);
    let (nodes, _) = extract_regions(&img, &palette);
    assert_eq!(nodes.len(), 2);
    assert_eq!(nodes[0].nodetype, NodeType::Wire(WireType::Orange, WireState::Active));
    assert_eq!(nodes[1].nodetype, NodeType::Wire(WireType::Orange, WireState::Inactive));
}

#[test]
fn color_must_match_exactly() {
    let palette = get_node_color_mappings();
    let mut rgb_image = RgbImage::new(2, 1);
    rgb_image.put_pixel(0, 0, Rgb([255, 128, 0]));
    rgb_image.put_pixel(1, 0, Rgb([255, 128, 1]));
    let img = DynamicImage::ImageRgb8(rgb_image);
    let (nodes, grid) = extract_regions(&img, &palette);
    assert_eq!(nodes.len(), 1);
    assert_eq!(nodes[0].pixels, vec![at(0, 0)]);
    assert_eq!(grid, vec![vec![1], vec![BACKGROUND]]);
}

#[test]
fn unregistered_and_black_pixels_are_background() {
    let palette = get_node_color_mappings();
    let img = picture(&["?.", ".?"]);
    let (nodes, grid) = extract_regions(&img, &palette);
    assert!(nodes.is_empty());
    assert_eq!(grid, vec![vec![BACKGROUND, BACKGROUND], vec![BACKGROUND, BACKGROUND]]);
}

#[test]
fn empty_image_has_no_nodes() {
    let palette = get_node_color_mappings();
    let img = DynamicImage::ImageRgb8(RgbImage::new(0, 0));
    let (nodes, grid) = extract_regions(&img, &palette);
    assert!(nodes.is_empty());
    assert!(grid.is_empty());
}

#[test]
fn a_region_is_walked_breadth_first() {
    let palette = get_node_color_mappings();
    let img = picture(&["OOO", "OOO"]);
    let (nodes, grid) = extract_regions(&img, &palette);
    assert_eq!(nodes.len(), 1);
    assert_eq!(
        nodes[0].pixels,
        vec![at(0, 0), at(0, 1), at(1, 0), at(1, 1), at(2, 0), at(2, 1)]
    );
    assert_eq!(grid, vec![vec![1, 1], vec![1, 1], vec![1, 1]]);
}

#[test]
fn a_region_does_not_leave_the_image_or_its_color() {
    let palette = get_node_color_mappings();
    let img = picture(&["SsS", "sSs", "SsS"]);
    let (nodes, grid) = extract_regions(&img, &palette);
    assert_eq!(nodes.len(), 2);
    assert_eq!(
        nodes[0].pixels,
        vec![at(0, 0), at(1, 1), at(0, 2), at(2, 0), at(2, 2)]
    );
    assert_eq!(nodes[1].pixels, vec![at(1, 0), at(0, 1), at(2, 1), at(1, 2)]);
    assert_eq!(grid, vec![vec![1, 2, 1], vec![2, 1, 2], vec![1, 2, 1]]);
}

#[test]
fn every_pixel_has_one_owner_or_is_background() {
    let palette = get_node_color_mappings();
    let rows = ["OO..I", ".O?XX", "ll.X.", "l.UUA", "?..A."];
    let img = picture(&rows);
    let (nodes, grid) = extract_regions(&img, &palette);
    for x in 0..5u32 {
        for y in 0..5u32 {
            let label = grid[x as usize][y as usize];
            assert_ne!(label, UNLABELED);
            let owners: Vec<u32> = nodes
                .iter()
                .filter(|n| n.pixels.contains(&at(x, y)))
                .map(|n| n.id)
                .collect();
            let sign = rows[y as usize].as_bytes()[x as usize] as char;
            if sign == '.' || sign == '?' {
                assert_eq!(label, BACKGROUND);
                assert!(owners.is_empty());
            } else {
                assert_eq!(owners, vec![label]);
                let node = &nodes[(label - 1) as usize];
                assert_eq!(node.id, label);
                assert_eq!(node.color, Color::new(rgb(sign)[0], rgb(sign)[1], rgb(sign)[2]));
                assert_eq!(node.pixels.iter().filter(|p| **p == at(x, y)).count(), 1);
            }
        }
    }
    let kinds: Vec<NodeType> = nodes.iter().map(|n| n.nodetype).collect();
    assert_eq!(
        kinds,
        vec![
            NodeType::Wire(WireType::Orange, WireState::Active),
            NodeType::Input,
            NodeType::Xor,
            NodeType::Wire(WireType::Lime, WireState::Inactive),
            NodeType::Output,
            NodeType::And,
        ]
    );
}

#[test]
fn extraction_twice_gives_the_same() {
    let palette = get_node_color_mappings();
    let img = picture(&["OO..I", ".O?XX", "ll.X.", "l.UUA", "?..A."]);
    let (first, first_grid) = extract_regions(&img, &palette);
    let (second, second_grid) = extract_regions(&img, &palette);
    assert_eq!(first_grid, second_grid);
    assert_eq!(first.len(), second.len());
    for (a, b) in first.iter().zip(second.iter()) {
        assert_eq!(a.id, b.id);
        assert_eq!(a.color, b.color);
        assert_eq!(a.nodetype, b.nodetype);
        assert_eq!(a.pixels, b.pixels);
    }
}

#[test]
fn explore_grows_one_region_and_leaves_the_rest_unlabeled() {
    let palette = get_node_color_mappings();
    let img = picture(&["OO.O", "I..."]);
    let mut grid = new_grid(4, 2);
    let mut seed = Node::new(5, Color::new(255, 128, 0), &palette);
    seed.add_pixel(1, 0);
    let region = explore_node_cluster(&seed, &img, &mut grid, &palette);
    assert_eq!(region.id, 5);
    assert_eq!(region.color, Color::new(255, 128, 0));
    assert_eq!(region.nodetype, NodeType::Wire(WireType::Orange, WireState::Active));
    assert!(region.explored);
    assert!(region.connections.is_empty());
    assert_eq!(region.pixels, vec![at(1, 0), at(0, 0)]);
    assert_eq!(grid, vec![vec![5, 0], vec![5, 0], vec![0, 0], vec![0, 0]]);
}

#[test]
fn explore_passes_by_pixels_that_are_labeled() {
    let palette = get_node_color_mappings();
    let img = picture(&["OOO"]);
    let mut grid = new_grid(3, 1);
    set_label(&mut grid, 1, 0, 9);
    let mut seed = Node::new(2, Color::new(255, 128, 0), &palette);
    seed.add_pixel(0, 0);
    let region = explore_node_cluster(&seed, &img, &mut grid, &palette);
    assert_eq!(region.pixels, vec![at(0, 0)]);
    assert_eq!(grid, vec![vec![2], vec![9], vec![0]]);
}

#[test]
fn explore_keeps_the_connections_of_the_seed() {
    let palette = get_node_color_mappings();
    let img = picture(&["XX"]);
    let mut grid = new_grid(2, 1);
    let mut seed = Node::new(1, Color::new(0, 255, 128), &palette);
    seed.add_pixel(0, 0);
    seed.add_connection(3);
    let region = explore_node_cluster(&seed, &img, &mut grid, &palette);
    assert_eq!(region.connections, vec![3]);
    assert_eq!(region.pixels, vec![at(0, 0), at(1, 0)]);
    assert_eq!(region.nodetype, NodeType::Xor);
}

#[test]
fn images_with_alpha_are_read_by_their_colors() {
    let palette = get_node_color_mappings();
    let mut rgba = image::RgbaImage::new(2, 1);
    rgba.put_pixel(0, 0, image::Rgba([64, 0, 128, 7]));
    rgba.put_pixel(1, 0, image::Rgba([0, 0, 0, 255]));
    let img = DynamicImage::ImageRgba8(rgba);
    let (nodes, grid) = extract_regions(&img, &palette);
    assert_eq!(nodes.len(), 1);
    assert_eq!(nodes[0].nodetype, NodeType::Input);
    assert_eq!(grid, vec![vec![1], vec![BACKGROUND]]);
}

#[test]
fn explore_changes_unlabeled_cells_only_and_owns_what_it_changed() {
    let palette = get_node_color_mappings();
    let img = picture(&["OOOO", "O.OI", "OOOO"]);
    let mut grid = new_grid(4, 3);
    // One orange pixel belongs to another node already, one cell is background, and one
    // cell far off carries the identifier that the new node will have.
    set_label(&mut grid, 2, 1, 9);
    set_label(&mut grid, 1, 1, BACKGROUND);
    set_label(&mut grid, 3, 1, 4);
    let before = grid.clone();
    let mut seed = Node::new(4, Color::new(255, 128, 0), &palette);
    seed.add_pixel(0, 0);
    let region = explore_node_cluster(&seed, &img, &mut grid, &palette);
    assert_eq!(region.pixels.len(), 9);
    for x in 0..4u32 {
        for y in 0..3u32 {
            let was = before[x as usize][y as usize];
            let is = grid[x as usize][y as usize];
            if was != UNLABELED {
                assert_eq!(is, was);
            }
            assert_eq!(is != was, region.pixels.contains(&at(x, y)));
        }
    }
    for p in region.pixels.iter() {
        assert_eq!(grid[p.x as usize][p.y as usize], 4);
    }
    assert_eq!(grid[2][1], 9);
    assert_eq!(grid[1][1], BACKGROUND);
    assert_eq!(grid[3][1], 4);
    assert!(!region.pixels.contains(&at(3, 1)));
}
