use image::{DynamicImage, Rgb, RgbImage};
use reso::adjacency::build_circuit;
use reso::grid::BACKGROUND;
use reso::node::{Node, PixelCoords};
use reso::palette::{get_node_color_mappings, Color, NodeType};

fn rgb(sign: char) -> [u8; 3] {
    match sign {
        'O' => [255, 128, 0],
        'o' => [128, 64, 0],
        'S' => [0, 128, 255],
        's' => [0, 64, 128],
        'L' => [128, 255, 0],
        'l' => [64, 128, 0],
        'U' => [128, 0, 255],
        'I' => [64, 0, 128],
        'X' => [0, 255, 128],
        'A' => [0, 128, 64],
        '.' => [0, 0, 0],
        _ => [1, 2, 3],
    }
}

fn picture(rows: &[&str]) -> DynamicImage {
    let height = rows.len() as u32;
    let width = rows[0].len() as u32;
    let mut img = RgbImage::new(width, height);
    for (y, row) in rows.iter().enumerate() {
        for (x, sign) in row.chars().enumerate() {
            img.put_pixel(x as u32, y as u32, Rgb(rgb(sign)));
        }
    }
    DynamicImage::ImageRgb8(img)
}

fn owner(id: u32, pixels: &[(u32, u32)]) -> Node {
    let palette = get_node_color_mappings();
    let mut node = Node::new(id, Color::new(255, 128, 0), &palette);
    for (x, y) in pixels {
        node.add_pixel(*x, *y);
    }
    node
}

#[test]
fn neighbours_are_found_by_edges_only() {
    let m = BACKGROUND;
    // by column: grid[x][y]
    let mut grid = vec![vec![2, 1, 4], vec![1, 1, 0], vec![3, m, 5]];
    let before = grid.clone();
    let mut node = owner(1, &[(1, 0), (0, 1), (1, 1)]);
    node.find_neighbours(&mut grid);
    assert_eq!(node.connections, vec![2, 3, 4]);
    assert_eq!(grid, before);
    assert_eq!(
        node.pixels,
        vec![
            PixelCoords { x: 1, y: 0 },
            PixelCoords { x: 0, y: 1 },
            PixelCoords { x: 1, y: 1 }
        ]
    );
}

#[test]
fn neighbours_are_looked_for_left_above_below_right() {
    let mut grid = vec![vec![0, 6, 0], vec![7, 1, 8], vec![0, 9, 0]];
    let mut node = owner(1, &[(1, 1)]);
    node.find_neighbours(&mut grid);
    assert_eq!(node.connections, vec![6, 7, 8, 9]);
}

#[test]
fn corners_do_not_connect() {
    let mut grid = vec![vec![6, 0, 7], vec![0, 1, 0], vec![8, 0, 9]];
    let mut node = owner(1, &[(1, 1)]);
    node.find_neighbours(&mut grid);
    assert!(node.connections.is_empty());
}

#[test]
fn known_neighbours_stay_in_front() {
    let mut grid = vec![vec![1, 2], vec![3, 4]];
    let mut node = owner(1, &[(0, 0)]);
    node.add_connection(9);
    node.add_connection(3);
    node.find_neighbours(&mut grid);
    assert_eq!(node.connections, vec![9, 3, 2]);
}

#[test]
fn pixels_at_the_rim_look_inside_only() {
    let mut grid = vec![vec![1, 2], vec![3, 1]];
    let mut node = owner(1, &[(0, 0), (1, 1)]);
    node.find_neighbours(&mut grid);
    assert_eq!(node.connections, vec![2, 3]);
}

#[test]
fn pixels_outside_the_grid_find_nothing() {
    let mut grid = vec![vec![2, 2], vec![2, 2]];
    let mut node = owner(1, &[(5, 5), (2, 0)]);
    node.find_neighbours(&mut grid);
    assert_eq!(node.connections, vec![2]);
    let mut empty: Vec<Vec<u32>> = Vec::new();
    let mut lonely = owner(1, &[(0, 0)]);
    lonely.find_neighbours(&mut empty);
    assert!(lonely.connections.is_empty());
}

#[test]
fn init_connects_what_shares_an_edge() {
    let palette = get_node_color_mappings();
    let img = picture(&["OI.", ".XU"]);
    let (nodes, grid) = build_circuit(&img, &palette);
    assert_eq!(nodes.len(), 4);
    let kinds: Vec<NodeType> = nodes.iter().map(|n| n.nodetype).collect();
    assert_eq!(kinds[1], NodeType::Input);
    assert_eq!(kinds[2], NodeType::Xor);
    assert_eq!(kinds[3], NodeType::Output);
    assert_eq!(nodes[0].connections, vec![2]);
    assert_eq!(nodes[1].connections, vec![1, 3]);
    assert_eq!(nodes[2].connections, vec![2, 4]);
    assert_eq!(nodes[3].connections, vec![3]);
    let m = BACKGROUND;
    assert_eq!(grid, vec![vec![1, m], vec![2, 3], vec![m, 4]]);
}

#[test]
fn adjacency_is_symmetric() {
    let palette = get_node_color_mappings();
    let img = picture(&["OO..I", ".O?XX", "ll.X.", "lAUUA", "?.SA."]);
    let (nodes, _) = build_circuit(&img, &palette);
    assert!(nodes.len() > 4);
    let mut pairs = 0;
    for a in nodes.iter() {
        assert!(!a.connections.contains(&a.id));
        for id in a.connections.iter() {
            let b = &nodes[(*id - 1) as usize];
            assert_eq!(b.id, *id);
            assert!(b.connections.contains(&a.id));
            pairs += 1;
        }
        let mut seen = a.connections.clone();
        seen.sort();
        seen.dedup();
        assert_eq!(seen.len(), a.connections.len());
    }
    assert!(pairs > 0);
}

#[test]
fn blobs_of_one_color_that_touch_by_a_corner_are_not_neighbours() {
    let palette = get_node_color_mappings();
    let img = picture(&["O.", ".O"]);
    let (nodes, _) = build_circuit(&img, &palette);
    assert_eq!(nodes.len(), 1);
    assert!(nodes[0].connections.is_empty());
}

#[test]
fn nodes_that_touch_by_a_corner_are_not_neighbours() {
    let palette = get_node_color_mappings();
    let img = picture(&["O.", ".I"]);
    let (nodes, _) = build_circuit(&img, &palette);
    assert_eq!(nodes.len(), 2);
    assert!(nodes[0].connections.is_empty());
    assert!(nodes[1].connections.is_empty());
}

#[test]
fn background_between_nodes_keeps_them_apart() {
    let palette = get_node_color_mappings();
    let img = picture(&["O.I", "O?I"]);
    let (nodes, _) = build_circuit(&img, &palette);
    assert_eq!(nodes.len(), 2);
    assert!(nodes[0].connections.is_empty());
    assert!(nodes[1].connections.is_empty());
}

#[test]
fn a_neighbour_is_listed_once_however_long_the_border() {
    let palette = get_node_color_mappings();
    let img = picture(&["OOO", "III"]);
    let (nodes, _) = build_circuit(&img, &palette);
    assert_eq!(nodes.len(), 2);
    assert_eq!(nodes[0].connections, vec![2]);
    assert_eq!(nodes[1].connections, vec![1]);
}

#[test]
fn two_nodes_that_own_their_cells_list_each_other_or_neither() {
    // by column: grid[x][y]
    let mut grid = vec![vec![1, 1, 3], vec![2, 0, 3], vec![2, 2, 3]];
    let mut a = owner(1, &[(0, 0), (0, 1)]);
    let mut b = owner(2, &[(1, 0), (2, 0), (2, 1)]);
    let mut c = owner(3, &[(0, 2), (1, 2), (2, 2)]);
    a.find_neighbours(&mut grid);
    b.find_neighbours(&mut grid);
    c.find_neighbours(&mut grid);
    assert_eq!(a.connections, vec![2, 3]);
    assert_eq!(b.connections, vec![1, 3]);
    assert_eq!(c.connections, vec![1, 2]);
    for (x, y) in [(&a, &b), (&a, &c), (&b, &c)] {
        assert_eq!(x.connections.contains(&y.id), y.connections.contains(&x.id));
    }
    let mut far = vec![vec![1], vec![0], vec![2]];
    let mut d = owner(1, &[(0, 0)]);
    let mut e = owner(2, &[(2, 0)]);
    d.find_neighbours(&mut far);
    e.find_neighbours(&mut far);
    assert!(!d.connections.contains(&2));
    assert!(!e.connections.contains(&1));
}

#[test]
fn a_node_that_leaves_out_a_cell_of_its_own_can_be_found_without_finding() {
    let mut grid = vec![vec![1], vec![0], vec![1], vec![2]];
    let mut a = owner(1, &[(0, 0)]);
    let mut b = owner(2, &[(3, 0)]);
    a.find_neighbours(&mut grid);
    b.find_neighbours(&mut grid);
    assert!(a.connections.is_empty());
    assert_eq!(b.connections, vec![1]);
}
