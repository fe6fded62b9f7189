//! The label grid: for every pixel, which node owns it.
//!
//! A grid is stored by columns: the cell of the pixel in column `x` and row `y` is
//! `grid[x][y]`.
use vstd::prelude::*;

verus! {

/// The label of a pixel that has not been looked at yet.
pub const UNLABELED: u32 = 0;

/// The label of a pixel that belongs to no node.
pub const BACKGROUND: u32 = 0xffff_ffff;

/// A grid as a sequence of columns of labels.
pub open spec fn label_grid(grid: Seq<Vec<u32>>) -> Seq<Seq<u32>> {
    grid.map_values(|column: Vec<u32>| column@)
}

/// Whether a grid has `width` columns of `height` cells each.
pub open spec fn rectangular(grid: Seq<Seq<u32>>, width: int, height: int) -> bool {
    &&& grid.len() == width
    &&& forall|x: int| 0 <= x < width ==> (#[trigger] grid[x]).len() == height
}

/// Whether a label names a node.
pub open spec fn is_node_label(label: u32) -> bool {
    label != UNLABELED && label != BACKGROUND
}

/// Whether two different pixels touch, by an edge or by a corner.
pub open spec fn adjacent8(x: int, y: int, u: int, v: int) -> bool {
    &&& x - 1 <= u <= x + 1
    &&& y - 1 <= v <= y + 1
    &&& (u != x || v != y)
}

/// Whether two pixels touch by an edge.
pub open spec fn adjacent4(x: int, y: int, u: int, v: int) -> bool {
    ||| (u == x && (v == y - 1 || v == y + 1))
    ||| (v == y && (u == x - 1 || u == x + 1))
}

/// Whether the pixel at (x, y) comes before the pixel at (u, v) when an image is walked
/// row by row, each row from its first column on.
pub open spec fn precedes(x: int, y: int, u: int, v: int) -> bool {
    y < v || (y == v && x < u)
}

/// The number of unlabeled cells of a column.
pub open spec fn unlabeled_in(column: Seq<u32>) -> nat
    decreases column.len(),
{
    if column.len() == 0 {
        0
    } else {
        unlabeled_in(column.drop_last()) + if column.last() == UNLABELED {
            1nat
        } else {
            0nat
        }
    }
}

/// The number of unlabeled cells of a grid.
pub open spec fn unlabeled(grid: Seq<Seq<u32>>) -> nat
    decreases grid.len(),
{
    if grid.len() == 0 {
        0
    } else {
        unlabeled(grid.drop_last()) + unlabeled_in(grid.last())
    }
}

/// Labeling an unlabeled cell leaves one unlabeled cell fewer in its column.
pub proof fn lemma_label_column(column: Seq<u32>, y: int, label: u32)
    requires
        0 <= y < column.len(),
        column[y] == UNLABELED,
        label != UNLABELED,
    ensures
        unlabeled_in(column.update(y, label)) + 1 == unlabeled_in(column),
    decreases column.len(),
{
    if y == column.len() - 1 {
        assert(column.update(y, label).drop_last() == column.drop_last());
    } else {
        assert(column.update(y, label).drop_last() == column.drop_last().update(y, label));
        lemma_label_column(column.drop_last(), y, label);
    }
}

/// Labeling an unlabeled cell leaves one unlabeled cell fewer in the grid.
pub proof fn lemma_label_cell(grid: Seq<Seq<u32>>, x: int, y: int, label: u32)
    requires
        0 <= x < grid.len(),
        0 <= y < grid[x].len(),
        grid[x][y] == UNLABELED,
        label != UNLABELED,
    ensures
        unlabeled(grid.update(x, grid[x].update(y, label))) + 1 == unlabeled(grid),
    decreases grid.len(),
{
    let after = grid.update(x, grid[x].update(y, label));
    if x == grid.len() - 1 {
        assert(after.drop_last() == grid.drop_last());
        lemma_label_column(grid[x], y, label);
    } else {
        assert(after.drop_last() == grid.drop_last().update(x, grid[x].update(y, label)));
        lemma_label_cell(grid.drop_last(), x, y, label);
    }
}

/// Writes one label.
pub fn set_label(grid: &mut Vec<Vec<u32>>, x: usize, y: usize, label: u32)
    requires
        x < old(grid).len(),
        y < old(grid)[x as int].len(),
    ensures
        label_grid(final(grid)@) == label_grid(old(grid)@).update(
            x as int,
            label_grid(old(grid)@)[x as int].update(y as int, label),
        ),
{
    grid[x][y] = label;
    assert(label_grid(grid@) =~= label_grid(old(grid)@).update(
        x as int,
        label_grid(old(grid)@)[x as int].update(y as int, label),
    ));
}

/// A grid of the given size in which no pixel is labeled.
pub fn new_grid(width: u32, height: u32) -> (grid: Vec<Vec<u32>>)
    ensures
        rectangular(label_grid(grid@), width as int, height as int),
        forall|x: int, y: int|
            0 <= x < width && 0 <= y < height ==> #[trigger] label_grid(grid@)[x][y]
                == UNLABELED,
{
    let mut grid: Vec<Vec<u32>> = Vec::new();
    let mut x: u32 = 0;
    while x < width
        invariant
            x <= width,
            rectangular(label_grid(grid@), x as int, height as int),
            forall|a: int, b: int|
                0 <= a < x && 0 <= b < height ==> #[trigger] label_grid(grid@)[a][b]
                    == UNLABELED,
        decreases width - x,
    {
        let mut column: Vec<u32> = Vec::new();
        let mut y: u32 = 0;
        while y < height
            invariant
                y <= height,
                column@.len() == y,
                forall|b: int| 0 <= b < y ==> column@[b] == UNLABELED,
            decreases height - y,
        {
            column.push(UNLABELED);
            y += 1;
        }
        let ghost before = label_grid(grid@);
        grid.push(column);
        assert(label_grid(grid@) =~= before.push(column@));
        x += 1;
    }
    grid
}

} // verus!
