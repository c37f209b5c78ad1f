//! Grid topology: coordinates, cells, adjacency and the obstacle mask.
//!
//! A grid has `rows` x `columns` cells. A `Coordinate` names a cell by its
//! column `x` and row `y`; the obstacle mask is indexed `mask[y][x]`.

use vstd::prelude::*;

verus! {

/// A grid cell position: `x` is the column (`0 <= x < columns`),
/// `y` is the row (`0 <= y < rows`).
#[derive(Clone, Copy, PartialEq, Eq, Structural, Debug, Default)]
pub struct Coordinate {
    pub x: usize,
    pub y: usize,
}

/// One grid cell: its static topology (obstacle flag and precomputed
/// in-bounds 4-directional neighbours) and the mutable search bookkeeping
/// (best known cost from start `g`, priority `f = g + h`, and the
/// predecessor on the best known path). `None` stands for "undiscovered".
pub struct Cell {
    pub obstacle: bool,
    pub neighbours: Vec<Coordinate>,
    pub g: Option<usize>,
    pub h: Option<usize>,
    pub f: Option<usize>,
    pub parent: Option<Coordinate>,
}

pub open spec fn in_bounds(c: Coordinate, rows: int, columns: int) -> bool {
    c.x < columns && c.y < rows
}

/// Two cells are adjacent when they differ by exactly one cardinal step.
pub open spec fn adjacent(a: Coordinate, b: Coordinate) -> bool {
    ||| (a.x == b.x && a.y + 1 == b.y)
    ||| (a.x == b.x && b.y + 1 == a.y)
    ||| (a.y == b.y && a.x + 1 == b.x)
    ||| (a.y == b.y && b.x + 1 == a.x)
}

pub open spec fn abs_diff(a: int, b: int) -> int {
    if a >= b {
        a - b
    } else {
        b - a
    }
}

/// Manhattan distance, the heuristic that guides the search.
pub open spec fn manhattan(a: Coordinate, b: Coordinate) -> int {
    abs_diff(a.x as int, b.x as int) + abs_diff(a.y as int, b.y as int)
}

/// The obstacle mask is well formed for the given dimensions.
pub open spec fn valid_mask(mask: Seq<Seq<bool>>, rows: int, columns: int) -> bool {
    &&& mask.len() == rows
    &&& forall|y: int| 0 <= y < rows ==> (#[trigger] mask[y]).len() == columns
}

pub open spec fn mask_at(mask: Seq<Seq<bool>>, c: Coordinate) -> bool {
    mask[c.y as int][c.x as int]
}

/// The in-bounds 4-directional neighbours of `(x, y)`, in the fixed order
/// left, right, up, down.
pub open spec fn neighbors_of(x: int, y: int, rows: int, columns: int) -> Seq<Coordinate> {
    (if x > 0 {
        seq![Coordinate { x: (x - 1) as usize, y: y as usize }]
    } else {
        Seq::empty()
    }) + (if x + 1 < columns {
        seq![Coordinate { x: (x + 1) as usize, y: y as usize }]
    } else {
        Seq::empty()
    }) + (if y > 0 {
        seq![Coordinate { x: x as usize, y: (y - 1) as usize }]
    } else {
        Seq::empty()
    }) + (if y + 1 < rows {
        seq![Coordinate { x: x as usize, y: (y + 1) as usize }]
    } else {
        Seq::empty()
    })
}

/// One built cell agrees with the mask, carries exactly the in-bounds
/// adjacency, and starts with no search bookkeeping.
pub open spec fn cell_topo_ok(cell: Cell, x: int, y: int, mask: Seq<Seq<bool>>, rows: int, columns: int) -> bool {
    &&& cell.obstacle == mask[y][x]
    &&& cell.neighbours@ == neighbors_of(x, y, rows, columns)
    &&& forall|k: int|
        0 <= k < cell.neighbours@.len() ==> in_bounds(#[trigger] cell.neighbours@[k], rows, columns)
            && adjacent(Coordinate { x: x as usize, y: y as usize }, cell.neighbours@[k])
}

/// The whole adjacency structure is well formed for the mask.
pub open spec fn topo_ok(cells: Seq<Vec<Cell>>, mask: Seq<Seq<bool>>, rows: int, columns: int) -> bool {
    &&& cells.len() == rows
    &&& forall|y: int| 0 <= y < rows ==> (#[trigger] cells[y])@.len() == columns
    &&& forall|x: int, y: int|
        0 <= x < columns && 0 <= y < rows ==> cell_topo_ok(
            #[trigger] cells[y]@[x],
            x,
            y,
            mask,
            rows,
            columns,
        )
}

/// The precomputed adjacency is complete: every in-bounds cell one
/// cardinal step away from `(x, y)` is among its built neighbours.
pub proof fn lemma_neighbors_complete(x: int, y: int, rows: int, columns: int, c: Coordinate)
    requires
        0 <= x < columns,
        0 <= y < rows,
        rows <= usize::MAX,
        columns <= usize::MAX,
        in_bounds(c, rows, columns),
        adjacent(Coordinate { x: x as usize, y: y as usize }, c),
    ensures
        neighbors_of(x, y, rows, columns).contains(c),
{
    let nb = neighbors_of(x, y, rows, columns);
    let p1: int = if x > 0 { 1 } else { 0 };
    let p2: int = if x + 1 < columns { 1 } else { 0 };
    let p3: int = if y > 0 { 1 } else { 0 };
    if c.y == y && c.x + 1 == x {
        assert(nb[0] == c);
    } else if c.y == y && c.x == x + 1 {
        assert(nb[p1] == c);
    } else if c.x == x && c.y + 1 == y {
        assert(nb[p1 + p2] == c);
    } else {
        assert(c.x == x && c.y == y + 1);
        assert(nb[p1 + p2 + p3] == c);
    }
}

fn build_neighbours(x: usize, y: usize, rows: usize, columns: usize) -> (nb: Vec<Coordinate>)
    requires
        x < columns,
        y < rows,
    ensures
        nb@ == neighbors_of(x as int, y as int, rows as int, columns as int),
        forall|k: int|
            0 <= k < nb@.len() ==> in_bounds(#[trigger] nb@[k], rows as int, columns as int)
                && adjacent(Coordinate { x, y }, nb@[k]),
{
    let mut nb: Vec<Coordinate> = Vec::new();
    if x > 0 {
        nb.push(Coordinate { x: x - 1, y });
    }
    if x + 1 < columns {
        nb.push(Coordinate { x: x + 1, y });
    }
    if y > 0 {
        nb.push(Coordinate { x, y: y - 1 });
    }
    if y + 1 < rows {
        nb.push(Coordinate { x, y: y + 1 });
    }
    assert(nb@ =~= neighbors_of(x as int, y as int, rows as int, columns as int));
    nb
}

/// Builds the adjacency structure for a `rows` x `columns` grid: every cell
/// mirrors the obstacle mask, holds exactly its in-bounds 4-directional
/// neighbours, and starts undiscovered.
pub fn generate_adjacency_list(obstacles: &Vec<Vec<bool>>, rows: usize, columns: usize) -> (cells: Vec<
    Vec<Cell>,
>)
    requires
        valid_mask(obstacles.deep_view(), rows as int, columns as int),
    ensures
        topo_ok(cells@, obstacles.deep_view(), rows as int, columns as int),
        forall|x: int, y: int|
            0 <= x < columns && 0 <= y < rows ==> {
                let cell = (#[trigger] cells@[y]@[x]);
                cell.g is None && cell.f is None && cell.h is None && cell.parent is None
            },
{
    let ghost mask = obstacles.deep_view();
    let mut cells: Vec<Vec<Cell>> = Vec::new();
    let mut y: usize = 0;
    while y < rows
        invariant
            y <= rows,
            valid_mask(mask, rows as int, columns as int),
            mask == obstacles.deep_view(),
            cells@.len() == y,
            forall|yy: int| 0 <= yy < y ==> (#[trigger] cells@[yy])@.len() == columns,
            forall|xx: int, yy: int|
                0 <= xx < columns && 0 <= yy < y ==> cell_topo_ok(
                    #[trigger] cells@[yy]@[xx],
                    xx,
                    yy,
                    mask,
                    rows as int,
                    columns as int,
                ),
            forall|xx: int, yy: int|
                0 <= xx < columns && 0 <= yy < y ==> {
                    let cell = (#[trigger] cells@[yy]@[xx]);
                    cell.g is None && cell.f is None && cell.h is None && cell.parent is None
                },
        decreases rows - y,
    {
        let mut row: Vec<Cell> = Vec::new();
        let mut x: usize = 0;
        while x < columns
            invariant
                x <= columns,
                y < rows,
                valid_mask(mask, rows as int, columns as int),
                mask == obstacles.deep_view(),
                row@.len() == x,
                forall|xx: int|
                    0 <= xx < x ==> cell_topo_ok(
                        #[trigger] row@[xx],
                        xx,
                        y as int,
                        mask,
                        rows as int,
                        columns as int,
                    ),
                forall|xx: int|
                    0 <= xx < x ==> {
                        let cell = (#[trigger] row@[xx]);
                        cell.g is None && cell.f is None && cell.h is None && cell.parent is None
                    },
            decreases columns - x,
        {
            let neighbours = build_neighbours(x, y, rows, columns);
            assert(obstacles@[y as int]@ =~= mask[y as int]);
            let obstacle = obstacles[y][x];
            assert(obstacle == mask[y as int][x as int]);
            row.push(
                Cell {
                    obstacle,
                    neighbours,
                    g: None,
                    h: None,
                    f: None,
                    parent: None,
                },
            );
            x = x + 1;
        }
        cells.push(row);
        y = y + 1;
    }
    cells
}

/// Builds the `rows` x `columns` closed list with every cell still open.
pub fn generate_closed_list(rows: usize, columns: usize) -> (closed: Vec<Vec<bool>>)
    ensures
        closed@.len() == rows,
        forall|y: int| 0 <= y < rows ==> (#[trigger] closed@[y])@.len() == columns,
        forall|x: int, y: int|
            0 <= x < columns && 0 <= y < rows ==> !(#[trigger] closed@[y]@[x]),
{
    let mut closed: Vec<Vec<bool>> = Vec::new();
    let mut y: usize = 0;
    while y < rows
        invariant
            y <= rows,
            closed@.len() == y,
            forall|yy: int| 0 <= yy < y ==> (#[trigger] closed@[yy])@.len() == columns,
            forall|xx: int, yy: int| 0 <= xx < columns && 0 <= yy < y ==> !(#[trigger] closed@[yy]@[xx]),
        decreases rows - y,
    {
        let mut row: Vec<bool> = Vec::new();
        let mut x: usize = 0;
        while x < columns
            invariant
                x <= columns,
                row@.len() == x,
                forall|xx: int| 0 <= xx < x ==> !(#[trigger] row@[xx]),
            decreases columns - x,
        {
            row.push(false);
            x = x + 1;
        }
        closed.push(row);
        y = y + 1;
    }
    closed
}

/// Manhattan distance from `(x, y)` to `goal`, the heuristic value.
pub fn calculate_h_value(x: usize, y: usize, goal: Coordinate) -> (h: usize)
    requires
        x + goal.x + y + goal.y <= usize::MAX,
    ensures
        h == manhattan(Coordinate { x, y }, goal),
{
    let dx = if x >= goal.x {
        x - goal.x
    } else {
        goal.x - x
    };
    let dy = if y >= goal.y {
        y - goal.y
    } else {
        goal.y - y
    };
    dx + dy
}

} // verus!
