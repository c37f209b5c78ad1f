//! Best-first search over the grid, guided by the Manhattan distance.
//!
//! The search keeps an open frontier ordered by priority `f = g + h`,
//! closes every cell the first time it is examined, accepts the goal the
//! first time it is discovered as a neighbour, and reconstructs the path by
//! walking predecessor links from the goal back to the start. The closing
//! policy examines every reachable cell exactly once, so the search is
//! provably complete: an exhausted frontier means no path exists.

use vstd::prelude::*;
use vstd::pervasive::unreached;

use crate::grid::Cell;
use crate::grid::Coordinate;
use crate::grid::adjacent;
use crate::grid::calculate_h_value;
use crate::grid::cell_topo_ok;
use crate::grid::generate_adjacency_list;
use crate::grid::generate_closed_list;
use crate::grid::in_bounds;
use crate::grid::mask_at;
use crate::grid::topo_ok;
use crate::grid::valid_mask;

verus! {

/// Why a search returned no path.
#[derive(Clone, Copy, PartialEq, Eq, Structural, Debug)]
pub enum SearchError {
    /// The obstacle mask does not have the declared dimensions.
    InvalidDimensions,
    /// The frontier was exhausted, or an endpoint is impassable.
    NoPathFound,
    /// Walking predecessor links did not reach the start.
    ReconstructionGap,
}

/// A frontier entry: a cell together with the priority it was pushed with.
struct Node {
    f: usize,
    x: usize,
    y: usize,
}

pub open spec fn cell_at(cells: Seq<Vec<Cell>>, c: Coordinate) -> Cell {
    cells[c.y as int]@[c.x as int]
}

pub open spec fn closed_at(closed: Seq<Seq<bool>>, c: Coordinate) -> bool {
    closed[c.y as int][c.x as int]
}

/// The best known cost from the start, as an integer; `-1` stands for an
/// undiscovered cell.
pub open spec fn g_value(cells: Seq<Vec<Cell>>, c: Coordinate) -> int {
    match cell_at(cells, c).g {
        Some(v) => v as int,
        None => -1,
    }
}

pub open spec fn has_g(cells: Seq<Vec<Cell>>, c: Coordinate) -> bool {
    cell_at(cells, c).g is Some
}

/// What a finite best-known cost at `c` means: the cell is passable, the
/// start has cost zero, and any other discovered cell has an adjacent
/// in-bounds predecessor whose cost is exactly one less.
pub open spec fn discovered_ok(
    cells: Seq<Vec<Cell>>,
    mask: Seq<Seq<bool>>,
    rows: int,
    columns: int,
    start: Coordinate,
    c: Coordinate,
) -> bool {
    &&& !mask_at(mask, c)
    &&& (c == start ==> g_value(cells, c) == 0)
    &&& (c != start ==> (cell_at(cells, c).parent matches Some(p) && {
        &&& in_bounds(p, rows, columns)
        &&& adjacent(p, c)
        &&& has_g(cells, p)
        &&& g_value(cells, p) + 1 == g_value(cells, c)
    }))
}

/// The search invariant: every in-bounds cell with a finite cost is
/// soundly discovered.
pub open spec fn search_inv(
    cells: Seq<Vec<Cell>>,
    mask: Seq<Seq<bool>>,
    rows: int,
    columns: int,
    start: Coordinate,
) -> bool {
    forall|c: Coordinate|
        in_bounds(c, rows, columns) && #[trigger] has_g(cells, c) ==> discovered_ok(
            cells,
            mask,
            rows,
            columns,
            start,
            c,
        )
}

/// A well-formed result path: empty exactly when the start is the goal;
/// otherwise it runs from a neighbour of the goal back to the start, each
/// coordinate one cardinal step from its predecessor, every coordinate in
/// bounds and passable.
pub open spec fn path_connects(
    mask: Seq<Seq<bool>>,
    rows: int,
    columns: int,
    start: Coordinate,
    goal: Coordinate,
    path: Seq<Coordinate>,
) -> bool {
    if start == goal {
        path.len() == 0
    } else {
        &&& path.len() >= 1
        &&& adjacent(path[0], goal)
        &&& path[path.len() - 1] == start
        &&& forall|i: int| 0 <= i < path.len() - 1 ==> adjacent(#[trigger] path[i + 1], path[i])
        &&& forall|i: int|
            0 <= i < path.len() ==> in_bounds(#[trigger] path[i], rows, columns) && !mask_at(
                mask,
                path[i],
            )
    }
}

/// A returned path never repeats a coordinate and never touches the
/// goal: the walk down the predecessor links strictly decreases the cost.
pub open spec fn path_simple(goal: Coordinate, path: Seq<Coordinate>) -> bool {
    &&& (forall|i: int, j: int| 0 <= i < j < path.len() ==> path[i] != path[j])
    &&& (forall|i: int| 0 <= i < path.len() ==> path[i] != goal)
}

/// The full contract of a search: the dimension error comes exactly on a
/// malformed mask, reconstruction never fails, a returned path is well
/// formed, an impassable endpoint means no path, a search from a cell to
/// itself trivially succeeds with an empty path, and the search is
/// complete: whenever any well-formed path exists it finds one, so
/// `NoPathFound` comes exactly when start and goal are not connected.
pub open spec fn find_path_post(
    mask: Seq<Seq<bool>>,
    rows: int,
    columns: int,
    start: Coordinate,
    goal: Coordinate,
    r: Result<Vec<Coordinate>, SearchError>,
) -> bool {
    &&& ((r matches Err(SearchError::InvalidDimensions)) <==> !valid_mask(mask, rows, columns))
    &&& !(r matches Err(SearchError::ReconstructionGap))
    &&& (r matches Ok(path) ==> path_connects(mask, rows, columns, start, goal, path@))
    &&& (r matches Ok(path) ==> path_simple(goal, path@))
    &&& (valid_mask(mask, rows, columns) && (mask_at(mask, start) || mask_at(mask, goal))
        ==> r matches Err(SearchError::NoPathFound))
    &&& (valid_mask(mask, rows, columns) && !mask_at(mask, start) && !mask_at(mask, goal) && start
        == goal ==> r is Ok && (r matches Ok(path) ==> path@.len() == 0))
    &&& (valid_mask(mask, rows, columns) && !mask_at(mask, start) && !mask_at(mask, goal)
        && adjacent(start, goal) ==> r is Ok)
    &&& (valid_mask(mask, rows, columns) && !mask_at(mask, start) && !mask_at(mask, goal)
        && (exists|p: Seq<Coordinate>|
        path_connects(mask, rows, columns, start, goal, p)) ==> r is Ok)
}

spec fn frontier_ok(frontier: Seq<Node>, cells: Seq<Vec<Cell>>, rows: int, columns: int) -> bool {
    forall|i: int|
        0 <= i < frontier.len() ==> {
            let n = #[trigger] frontier[i];
            &&& (n.x as int) < columns
            &&& (n.y as int) < rows
            &&& has_g(cells, Coordinate { x: n.x, y: n.y })
        }
}

spec fn closed_dims(closed: Seq<Vec<bool>>, rows: int, columns: int) -> bool {
    &&& closed.len() == rows
    &&& forall|y: int| 0 <= y < rows ==> (#[trigger] closed[y])@.len() == columns
}

/// The coordinate has an entry on the frontier.
spec fn on_frontier(frontier: Seq<Node>, c: Coordinate) -> bool {
    exists|i: int|
        0 <= i < frontier.len() && (#[trigger] frontier[i]).x == c.x && frontier[i].y == c.y
}

/// Every stored neighbour of `c` is closed: the cell is fully expanded.
spec fn all_neighbours_closed(cells: Seq<Vec<Cell>>, closed: Seq<Seq<bool>>, c: Coordinate) -> bool {
    forall|k: int|
        0 <= k < cell_at(cells, c).neighbours@.len() ==> closed_at(
            closed,
            #[trigger] cell_at(cells, c).neighbours@[k],
        )
}

/// Every passable closed cell that is no longer on the frontier has been
/// fully expanded. With an empty frontier this makes the closed set
/// closed under adjacency, which is what rules out an unexplored path.
spec fn expanded_ok(
    cells: Seq<Vec<Cell>>,
    closed: Seq<Seq<bool>>,
    frontier: Seq<Node>,
    mask: Seq<Seq<bool>>,
    rows: int,
    columns: int,
) -> bool {
    forall|c: Coordinate|
        in_bounds(c, rows, columns) && !mask_at(mask, c) && #[trigger] closed_at(closed, c)
            && !on_frontier(frontier, c) ==> all_neighbours_closed(cells, closed, c)
}

/// `expanded_ok` for every cell but the one being expanded right now.
spec fn expanded_ok_except(
    cells: Seq<Vec<Cell>>,
    closed: Seq<Seq<bool>>,
    frontier: Seq<Node>,
    mask: Seq<Seq<bool>>,
    rows: int,
    columns: int,
    cur: Coordinate,
) -> bool {
    forall|c: Coordinate|
        in_bounds(c, rows, columns) && c != cur && !mask_at(mask, c) && #[trigger] closed_at(
            closed,
            c,
        ) && !on_frontier(frontier, c) ==> all_neighbours_closed(cells, closed, c)
}

spec fn row_open_count(row: Seq<bool>) -> nat
    decreases row.len(),
{
    if row.len() == 0 {
        0
    } else {
        row_open_count(row.drop_last()) + (if row.last() {
            0nat
        } else {
            1nat
        })
    }
}

/// How many cells of the closed list are still open; the termination
/// measure of the search loop shrinks with it.
spec fn open_count(cl: Seq<Seq<bool>>) -> nat
    decreases cl.len(),
{
    if cl.len() == 0 {
        0
    } else {
        open_count(cl.drop_last()) + row_open_count(cl.last())
    }
}

proof fn lemma_row_close(row: Seq<bool>, i: int)
    requires
        0 <= i < row.len(),
    ensures
        row_open_count(row.update(i, true)) + (if row[i] {
            0nat
        } else {
            1nat
        }) == row_open_count(row),
    decreases row.len(),
{
    let updated = row.update(i, true);
    if i == row.len() - 1 {
        assert(updated.drop_last() =~= row.drop_last());
    } else {
        assert(updated.drop_last() =~= row.drop_last().update(i, true));
        lemma_row_close(row.drop_last(), i);
    }
}

proof fn lemma_grid_close(cl: Seq<Seq<bool>>, y: int, row2: Seq<bool>)
    requires
        0 <= y < cl.len(),
    ensures
        open_count(cl.update(y, row2)) + row_open_count(cl[y]) == open_count(cl) + row_open_count(
            row2,
        ),
    decreases cl.len(),
{
    let updated = cl.update(y, row2);
    if y == cl.len() - 1 {
        assert(updated.drop_last() =~= cl.drop_last());
    } else {
        assert(updated.drop_last() =~= cl.drop_last().update(y, row2));
        lemma_grid_close(cl.drop_last(), y, row2);
    }
}

proof fn lemma_row_open_full(row: Seq<bool>)
    requires
        forall|i: int| 0 <= i < row.len() ==> !row[i],
    ensures
        row_open_count(row) == row.len(),
    decreases row.len(),
{
    if row.len() > 0 {
        lemma_row_open_full(row.drop_last());
    }
}

proof fn lemma_open_count_full(cl: Seq<Seq<bool>>, rows: int, columns: int)
    requires
        cl.len() == rows,
        forall|y: int| 0 <= y < rows ==> (#[trigger] cl[y]).len() == columns,
        forall|y: int, i: int| 0 <= y < rows && 0 <= i < columns ==> !(#[trigger] cl[y][i]),
    ensures
        open_count(cl) == rows * columns,
    decreases cl.len(),
{
    if cl.len() > 0 {
        assert(cl.last() == cl[rows - 1]);
        assert(forall|y: int| 0 <= y < rows - 1 ==> (#[trigger] cl.drop_last()[y]) == cl[y]);
        lemma_row_open_full(cl.last());
        assert(row_open_count(cl.last()) == columns);
        lemma_open_count_full(cl.drop_last(), rows - 1, columns);
        assert((rows - 1) * columns + columns == rows * columns) by (nonlinear_arith);
    } else {
        assert(rows == 0);
        assert(rows * columns == 0) by (nonlinear_arith)
            requires
                rows == 0,
        ;
    }
}

/// Carries "fully expanded" across one step that may close `n` and touch
/// only `n`'s cell: the neighbour lists are unchanged and the closed set
/// only grows.
proof fn lemma_expansion_transfer(
    cells0: Seq<Vec<Cell>>,
    cells1: Seq<Vec<Cell>>,
    closed0: Seq<Seq<bool>>,
    closed1: Seq<Seq<bool>>,
    c: Coordinate,
    n: Coordinate,
    rows: int,
    columns: int,
)
    requires
        all_neighbours_closed(cells0, closed0, c),
        cell_at(cells1, c).neighbours == cell_at(cells0, c).neighbours,
        forall|k: int|
            0 <= k < cell_at(cells0, c).neighbours@.len() ==> in_bounds(
                #[trigger] cell_at(cells0, c).neighbours@[k],
                rows,
                columns,
            ),
        forall|d: Coordinate|
            in_bounds(d, rows, columns) && !(d.x == n.x && d.y == n.y) ==> closed_at(closed1, d)
                == closed_at(closed0, d),
        closed_at(closed1, n),
    ensures
        all_neighbours_closed(cells1, closed1, c),
{
    assert forall|k: int|
        0 <= k < cell_at(cells1, c).neighbours@.len() implies closed_at(
            closed1,
            #[trigger] cell_at(cells1, c).neighbours@[k],
        ) by {
        let d = cell_at(cells0, c).neighbours@[k];
        assert(closed_at(closed0, d));
        if !(d.x == n.x && d.y == n.y) {
            assert(closed_at(closed1, d) == closed_at(closed0, d));
        }
    }
}

/// With the closed set closed under adjacency, every coordinate of a
/// well-formed path is closed: the chain is walked from the start end.
proof fn lemma_chain_stays_closed(
    cells: Seq<Vec<Cell>>,
    closed: Seq<Seq<bool>>,
    mask: Seq<Seq<bool>>,
    rows: int,
    columns: int,
    start: Coordinate,
    goal: Coordinate,
    p: Seq<Coordinate>,
    i: int,
)
    requires
        rows <= usize::MAX,
        columns <= usize::MAX,
        topo_ok(cells, mask, rows, columns),
        forall|c: Coordinate|
            in_bounds(c, rows, columns) && !mask_at(mask, c) && #[trigger] closed_at(closed, c)
                ==> all_neighbours_closed(cells, closed, c),
        path_connects(mask, rows, columns, start, goal, p),
        start != goal,
        closed_at(closed, start),
        0 <= i < p.len(),
    ensures
        closed_at(closed, p[i]),
    decreases p.len() - i,
{
    if i < p.len() - 1 {
        lemma_chain_stays_closed(cells, closed, mask, rows, columns, start, goal, p, i + 1);
        let c = p[i + 1];
        let d = p[i];
        assert(adjacent(p[i + 1], p[i]));
        assert(cell_topo_ok(
            cells[c.y as int]@[c.x as int],
            c.x as int,
            c.y as int,
            mask,
            rows,
            columns,
        ));
        crate::grid::lemma_neighbors_complete(c.x as int, c.y as int, rows, columns, d);
        assert(cell_at(cells, c).neighbours@.contains(d));
        let k = choose|k: int|
            0 <= k < cell_at(cells, c).neighbours@.len() && cell_at(cells, c).neighbours@[k] == d;
        assert(closed_at(closed, cell_at(cells, c).neighbours@[k]));
    }
}

/// An exhausted search cannot have missed a path: were one well formed,
/// its head would be a closed cell with the goal among its neighbours,
/// and the goal would be closed too - but the goal is never closed.
proof fn lemma_exhausted_cuts_goal(
    cells: Seq<Vec<Cell>>,
    closed: Seq<Seq<bool>>,
    mask: Seq<Seq<bool>>,
    rows: int,
    columns: int,
    start: Coordinate,
    goal: Coordinate,
    p: Seq<Coordinate>,
)
    requires
        rows <= usize::MAX,
        columns <= usize::MAX,
        topo_ok(cells, mask, rows, columns),
        forall|c: Coordinate|
            in_bounds(c, rows, columns) && !mask_at(mask, c) && #[trigger] closed_at(closed, c)
                ==> all_neighbours_closed(cells, closed, c),
        start != goal,
        closed_at(closed, start),
        !closed_at(closed, goal),
        in_bounds(goal, rows, columns),
    ensures
        !path_connects(mask, rows, columns, start, goal, p),
{
    if path_connects(mask, rows, columns, start, goal, p) {
        lemma_chain_stays_closed(cells, closed, mask, rows, columns, start, goal, p, 0);
        let h = p[0];
        assert(cell_topo_ok(
            cells[h.y as int]@[h.x as int],
            h.x as int,
            h.y as int,
            mask,
            rows,
            columns,
        ));
        crate::grid::lemma_neighbors_complete(h.x as int, h.y as int, rows, columns, goal);
        assert(cell_at(cells, h).neighbours@.contains(goal));
        let k = choose|k: int|
            0 <= k < cell_at(cells, h).neighbours@.len() && cell_at(cells, h).neighbours@[k]
                == goal;
        assert(closed_at(closed, cell_at(cells, h).neighbours@[k]));
    }
}

/// The index of the lowest-priority frontier entry; among equal priorities
/// the earliest-pushed entry wins, which fixes a deterministic tie-break.
#[verifier::loop_isolation(false)]
fn min_index(frontier: &Vec<Node>) -> (i: usize)
    requires
        frontier@.len() >= 1,
    ensures
        i < frontier@.len(),
        forall|j: int| 0 <= j < frontier@.len() ==> frontier@[i as int].f <= (#[trigger] frontier@[j]).f,
        forall|j: int| 0 <= j < i ==> (#[trigger] frontier@[j]).f > frontier@[i as int].f,
{
    let mut best: usize = 0;
    let mut j: usize = 1;
    while j < frontier.len()
        invariant
            1 <= j <= frontier@.len(),
            best < j,
            forall|k: int| 0 <= k < j ==> frontier@[best as int].f <= (#[trigger] frontier@[k]).f,
            forall|k: int| 0 <= k < best ==> (#[trigger] frontier@[k]).f > frontier@[best as int].f,
        decreases frontier@.len() - j,
    {
        if frontier[j].f < frontier[best].f {
            best = j;
        }
        j = j + 1;
    }
    best
}

/// Walks predecessor links from the cell just before the goal down to the
/// start, producing the path in goal-to-start order. A gap in the links is
/// surfaced as an error; the search invariant rules it out.
#[verifier::loop_isolation(false)]
#[verifier::rlimit(100)]
#[verifier::spinoff_prover]
fn generate_path(
    cells: &Vec<Vec<Cell>>,
    from: Coordinate,
    start: Coordinate,
    Ghost(mask): Ghost<Seq<Seq<bool>>>,
    Ghost(rows): Ghost<int>,
    Ghost(columns): Ghost<int>,
) -> (r: Result<Vec<Coordinate>, SearchError>)
    requires
        topo_ok(cells@, mask, rows, columns),
        search_inv(cells@, mask, rows, columns, start),
        in_bounds(from, rows, columns),
        in_bounds(start, rows, columns),
        has_g(cells@, from),
    ensures
        r is Ok,
        r matches Ok(path) ==> {
            &&& path@.len() >= 1
            &&& path@[0] == from
            &&& path@[path@.len() - 1] == start
            &&& forall|i: int| 0 <= i < path@.len() - 1 ==> adjacent(#[trigger] path@[i + 1], path@[i])
            &&& forall|i: int|
                0 <= i < path@.len() ==> in_bounds(#[trigger] path@[i], rows, columns) && !mask_at(
                    mask,
                    path@[i],
                )
            &&& forall|i: int|
                0 <= i < path@.len() ==> has_g(cells@, #[trigger] path@[i]) && g_value(
                    cells@,
                    path@[i],
                ) == g_value(cells@, from) - i
            &&& path@.len() == g_value(cells@, from) + 1
            &&& forall|i: int, j: int| 0 <= i < j < path@.len() ==> path@[i] != path@[j]
        },
{
    let mut path: Vec<Coordinate> = Vec::new();
    path.push(from);
    let mut current: Coordinate = from;
    while current != start
        invariant
            in_bounds(current, rows, columns),
            has_g(cells@, current),
            path@.len() >= 1,
            path@[0] == from,
            path@[path@.len() - 1] == current,
            forall|i: int| 0 <= i < path@.len() - 1 ==> adjacent(#[trigger] path@[i + 1], path@[i]),
            forall|i: int|
                0 <= i < path@.len() ==> in_bounds(#[trigger] path@[i], rows, columns) && !mask_at(
                    mask,
                    path@[i],
                ),
            forall|i: int|
                0 <= i < path@.len() ==> has_g(cells@, #[trigger] path@[i]) && g_value(
                    cells@,
                    path@[i],
                ) == g_value(cells@, from) - i,
            path@.len() == g_value(cells@, from) - g_value(cells@, current) + 1,
        decreases g_value(cells@, current),
    {
        match cells[current.y][current.x].parent {
            Some(p) => {
                path.push(p);
                current = p;
            },
            None => {
                return Err(SearchError::ReconstructionGap);
            },
        }
    }
    proof {
        // the start has cost zero, so the walk visited every cost from
        // `g(from)` down to zero exactly once: the coordinates are distinct
        assert(g_value(cells@, current) == 0);
        assert forall|i: int, j: int| 0 <= i < j < path@.len() implies path@[i] != path@[j] by {
            assert(g_value(cells@, path@[i]) != g_value(cells@, path@[j]));
        }
    }
    Ok(path)
}

/// Everything the search loop keeps true about its mutable state: the
/// adjacency structure stays well formed, every discovered cell is soundly
/// discovered and already closed, the start is discovered at cost zero and
/// closed, the goal is still undiscovered, and every frontier entry names
/// an in-bounds discovered cell.
spec fn loop_state_ok(
    cells: Seq<Vec<Cell>>,
    closed: Seq<Seq<bool>>,
    frontier: Seq<Node>,
    mask: Seq<Seq<bool>>,
    rows: int,
    columns: int,
    start: Coordinate,
    goal: Coordinate,
) -> bool {
    &&& topo_ok(cells, mask, rows, columns)
    &&& valid_mask(closed, rows, columns)
    &&& search_inv(cells, mask, rows, columns, start)
    &&& cell_at(cells, start).g == Some(0usize)
    &&& closed_at(closed, start)
    &&& cell_at(cells, goal).g is None
    &&& !closed_at(closed, goal)
    &&& (forall|c: Coordinate|
        in_bounds(c, rows, columns) && #[trigger] has_g(cells, c) ==> closed_at(closed, c))
    &&& (forall|c: Coordinate|
        in_bounds(c, rows, columns) && (#[trigger] cell_at(cells, c)).f is Some ==> has_g(cells, c))
    &&& (forall|c: Coordinate|
        in_bounds(c, rows, columns) && #[trigger] has_g(cells, c) ==> g_value(cells, c) + 1
            + open_count(closed) <= rows * columns)
    &&& frontier_ok(frontier, cells, rows, columns)
}

/// Relaxes an unexamined passable neighbour `n` of the just-popped cell
/// `cur` and closes it: when the fresh priority improves on the
/// neighbour's known one, its bookkeeping and predecessor are set and a
/// fresh frontier entry is pushed; closed, the cell is never examined
/// again.
#[verifier::loop_isolation(false)]
#[verifier::rlimit(100)]
fn relax_neighbour(
    adjacency_list: &mut Vec<Vec<Cell>>,
    closed_list: &mut Vec<Vec<bool>>,
    open_list: &mut Vec<Node>,
    rows: usize,
    columns: usize,
    start: Coordinate,
    goal: Coordinate,
    cur: Coordinate,
    g_cur: usize,
    n: Coordinate,
    Ghost(mask): Ghost<Seq<Seq<bool>>>,
)
    requires
        rows >= 1,
        columns >= 1,
        rows * columns + rows + columns < usize::MAX,
        valid_mask(mask, rows as int, columns as int),
        in_bounds(start, rows as int, columns as int),
        in_bounds(goal, rows as int, columns as int),
        in_bounds(cur, rows as int, columns as int),
        in_bounds(n, rows as int, columns as int),
        adjacent(cur, n),
        loop_state_ok(
            old(adjacency_list)@,
            old(closed_list).deep_view(),
            old(open_list)@,
            mask,
            rows as int,
            columns as int,
            start,
            goal,
        ),
        closed_dims(old(closed_list)@, rows as int, columns as int),
        cell_at(old(adjacency_list)@, cur).g == Some(g_cur),
        closed_at(old(closed_list).deep_view(), cur),
        n != goal,
        !closed_at(old(closed_list).deep_view(), n),
        !mask_at(mask, n),
    ensures
        loop_state_ok(
            final(adjacency_list)@,
            final(closed_list).deep_view(),
            final(open_list)@,
            mask,
            rows as int,
            columns as int,
            start,
            goal,
        ),
        closed_dims(final(closed_list)@, rows as int, columns as int),
        cell_at(final(adjacency_list)@, cur) == cell_at(old(adjacency_list)@, cur),
        closed_at(final(closed_list).deep_view(), cur),
        2 * open_count(final(closed_list).deep_view()) + final(open_list)@.len() + 1 <= 2
            * open_count(old(closed_list).deep_view()) + old(open_list)@.len(),
        final(open_list)@.len() >= old(open_list)@.len(),
        forall|i: int| 0 <= i < old(open_list)@.len() ==> final(open_list)@[i] == old(open_list)@[i],
        forall|c: Coordinate|
            in_bounds(c, rows as int, columns as int) ==> (#[trigger] cell_at(
                final(adjacency_list)@,
                c,
            )).neighbours == cell_at(old(adjacency_list)@, c).neighbours,
        closed_at(final(closed_list).deep_view(), n),
        on_frontier(final(open_list)@, n),
        forall|c: Coordinate|
            in_bounds(c, rows as int, columns as int) && !(c.x == n.x && c.y == n.y)
                ==> closed_at(final(closed_list).deep_view(), c) == closed_at(
                old(closed_list).deep_view(),
                c,
            ),
{
    proof {
        // A discovered cost always stays below the cell count, so the unit
        // step and the priority sum fit.
        assert(has_g(adjacency_list@, cur));
        assert(rows * columns + 1 >= rows + columns) by (nonlinear_arith)
            requires
                rows >= 1,
                columns >= 1,
        ;
    }
    let g_new = g_cur + 1;
    let h_new = calculate_h_value(n.x, n.y, goal);
    let f_new = g_new + h_new;
    let improves = match adjacency_list[n.y][n.x].f {
        None => true,
        Some(adj_f) => adj_f > f_new,
    };
    proof {
        // The neighbour is unexamined, so it is undiscovered, carries
        // no priority yet, and the fresh priority improves; it is
        // neither the start nor the popped cell, both closed.
        assert(!closed_at(closed_list.deep_view(), n));
        assert(!has_g(adjacency_list@, n));
        assert(!(cell_at(adjacency_list@, n).f is Some));
        assert(improves);
        assert(n != start && n != cur);
        assert(cell_at(adjacency_list@, n).obstacle == mask_at(mask, n));
    }
    if improves {
        let ghost cells0 = adjacency_list@;
        adjacency_list[n.y][n.x].f = Some(f_new);
        adjacency_list[n.y][n.x].g = Some(g_new);
        adjacency_list[n.y][n.x].h = Some(h_new);
        adjacency_list[n.y][n.x].parent = Some(Coordinate { x: cur.x, y: cur.y });
        open_list.push(Node { f: f_new, x: n.x, y: n.y });
        proof {
            assert(cell_at(adjacency_list@, cur) == cell_at(cells0, cur));
            assert forall|c: Coordinate|
                in_bounds(c, rows as int, columns as int) && #[trigger] has_g(
                    adjacency_list@,
                    c,
                ) implies discovered_ok(
                    adjacency_list@,
                    mask,
                    rows as int,
                    columns as int,
                    start,
                    c,
                ) by {
                if c.x == n.x && c.y == n.y {
                    assert(c == n);
                    assert(cell_at(adjacency_list@, n).parent == Some(cur));
                    assert(g_value(adjacency_list@, n) == g_new as int);
                    assert(has_g(adjacency_list@, cur));
                    assert(g_value(adjacency_list@, cur) == g_cur as int);
                } else {
                    assert(cell_at(adjacency_list@, c) == cell_at(cells0, c));
                    assert(has_g(cells0, c));
                    assert(discovered_ok(cells0, mask, rows as int, columns as int, start, c));
                    if c != start {
                        match cell_at(cells0, c).parent {
                            Some(p) => {
                                if p.x == n.x && p.y == n.y {
                                    assert(p == n);
                                } else {
                                    assert(cell_at(adjacency_list@, p) == cell_at(cells0, p));
                                }
                            },
                            None => {},
                        }
                    }
                }
            }
        }
    }
    let ghost pre = closed_list.deep_view();
    closed_list[n.y][n.x] = true;
    proof {
        let post = closed_list.deep_view();
        assert(post =~~= pre.update(n.y as int, pre[n.y as int].update(n.x as int, true)));
        lemma_row_close(pre[n.y as int], n.x as int);
        lemma_grid_close(pre, n.y as int, pre[n.y as int].update(n.x as int, true));
        // The newly closed cell was unexamined, so it is neither the start
        // nor the popped cell; closing it keeps every discovered cell
        // closed and every frontier entry discovered.
        assert(!closed_at(pre, n));
        assert(n != start && n != cur);
        assert forall|y: int| 0 <= y < rows implies (#[trigger] post[y]).len() == columns by {
            if y != n.y as int {
                assert(post[y] == pre[y]);
            }
        }
        assert forall|c: Coordinate|
            in_bounds(c, rows as int, columns as int) && #[trigger] has_g(adjacency_list@, c)
                implies closed_at(post, c) by {
            if c.x == n.x && c.y == n.y {
                assert(c == n);
            } else {
                assert(cell_at(adjacency_list@, c) == cell_at(old(adjacency_list)@, c));
                assert(has_g(old(adjacency_list)@, c));
                assert(closed_at(old(closed_list).deep_view(), c));
                assert(closed_at(post, c) == closed_at(pre, c));
            }
        }
        assert forall|i: int|
            0 <= i < open_list@.len() implies ({
                let e = #[trigger] open_list@[i];
                (e.x as int) < columns && (e.y as int) < rows && has_g(
                    adjacency_list@,
                    Coordinate { x: e.x, y: e.y },
                )
            }) by {
            if i < old(open_list)@.len() {
                assert(open_list@[i] == old(open_list)@[i]);
                let e = open_list@[i];
                let ec = Coordinate { x: e.x, y: e.y };
                assert(has_g(old(adjacency_list)@, ec));
                if !(ec.x == n.x && ec.y == n.y) {
                    assert(cell_at(adjacency_list@, ec) == cell_at(old(adjacency_list)@, ec));
                }
            }
        }
        assert(closed_at(post, start));
        assert(closed_at(post, cur));
        assert(cell_at(adjacency_list@, start) == cell_at(old(adjacency_list)@, start));
        assert(cell_at(adjacency_list@, goal) == cell_at(old(adjacency_list)@, goal));
        assert(cell_at(adjacency_list@, cur) == cell_at(old(adjacency_list)@, cur));
        assert forall|c: Coordinate|
            in_bounds(c, rows as int, columns as int) implies (#[trigger] cell_at(
                adjacency_list@,
                c,
            )).neighbours == cell_at(old(adjacency_list)@, c).neighbours by {
            if !(c.x == n.x && c.y == n.y) {
                assert(cell_at(adjacency_list@, c) == cell_at(old(adjacency_list)@, c));
            }
        }
        // the goal is neither the relaxed neighbour nor ever closed
        assert(!closed_at(post, goal));
        // priority and cost were set together, and the cost stays below
        // the cell count because one open cell was just closed
        assert forall|c: Coordinate|
            in_bounds(c, rows as int, columns as int) && (#[trigger] cell_at(
                adjacency_list@,
                c,
            )).f is Some implies has_g(adjacency_list@, c) by {
            if !(c.x == n.x && c.y == n.y) {
                assert(cell_at(adjacency_list@, c) == cell_at(old(adjacency_list)@, c));
            }
        }
        assert forall|c: Coordinate|
            in_bounds(c, rows as int, columns as int) && #[trigger] has_g(adjacency_list@, c)
                implies g_value(adjacency_list@, c) + 1 + open_count(post) <= rows * columns by {
            assert(open_count(post) + 1 == open_count(pre));
            if c.x == n.x && c.y == n.y {
                assert(c == n);
                assert(g_value(adjacency_list@, n) == g_cur + 1);
                assert(has_g(old(adjacency_list)@, cur));
                assert(g_value(old(adjacency_list)@, cur) + 1 + open_count(pre) <= rows * columns);
            } else {
                assert(cell_at(adjacency_list@, c) == cell_at(old(adjacency_list)@, c));
                assert(has_g(old(adjacency_list)@, c));
                assert(g_value(old(adjacency_list)@, c) + 1 + open_count(pre) <= rows * columns);
            }
        }
        // the relaxed neighbour went onto the frontier and is now closed
        assert(open_list@[open_list@.len() - 1].x == n.x);
        assert(open_list@[open_list@.len() - 1].y == n.y);
        assert(on_frontier(open_list@, n));
        assert(closed_at(post, n));
        assert forall|c: Coordinate|
            in_bounds(c, rows as int, columns as int) && !(c.x == n.x && c.y == n.y)
                implies closed_at(post, c) == closed_at(pre, c) by {
        }
    }
}

/// Examines one neighbour `n` of the just-expanded cell `cur`: accepts the
/// goal on first discovery and reconstructs the path, skips closed cells,
/// closes impassable cells, and otherwise relaxes the neighbour and pushes
/// it onto the frontier, closing it so it is never examined again.
#[verifier::loop_isolation(false)]
#[verifier::rlimit(100)]
fn expand_neighbour(
    adjacency_list: &mut Vec<Vec<Cell>>,
    closed_list: &mut Vec<Vec<bool>>,
    open_list: &mut Vec<Node>,
    rows: usize,
    columns: usize,
    start: Coordinate,
    goal: Coordinate,
    cur: Coordinate,
    g_cur: usize,
    n: Coordinate,
    Ghost(mask): Ghost<Seq<Seq<bool>>>,
) -> (found: Option<Vec<Coordinate>>)
    requires
        rows >= 1,
        columns >= 1,
        rows * columns + rows + columns < usize::MAX,
        valid_mask(mask, rows as int, columns as int),
        in_bounds(start, rows as int, columns as int),
        in_bounds(goal, rows as int, columns as int),
        in_bounds(cur, rows as int, columns as int),
        in_bounds(n, rows as int, columns as int),
        adjacent(cur, n),
        !mask_at(mask, start),
        !mask_at(mask, goal),
        start != goal,
        loop_state_ok(
            old(adjacency_list)@,
            old(closed_list).deep_view(),
            old(open_list)@,
            mask,
            rows as int,
            columns as int,
            start,
            goal,
        ),
        cell_at(old(adjacency_list)@, cur).g == Some(g_cur),
        closed_at(old(closed_list).deep_view(), cur),
        closed_dims(old(closed_list)@, rows as int, columns as int),
    ensures
        found is None ==> closed_dims(final(closed_list)@, rows as int, columns as int),
        found matches Some(path) ==> path_connects(
            mask,
            rows as int,
            columns as int,
            start,
            goal,
            path@,
        ),
        found matches Some(path) ==> path_simple(goal, path@),
        found is None ==> loop_state_ok(
            final(adjacency_list)@,
            final(closed_list).deep_view(),
            final(open_list)@,
            mask,
            rows as int,
            columns as int,
            start,
            goal,
        ),
        found is None ==> cell_at(final(adjacency_list)@, cur) == cell_at(
            old(adjacency_list)@,
            cur,
        ),
        found is None ==> closed_at(final(closed_list).deep_view(), cur),
        found is None ==> 2 * open_count(final(closed_list).deep_view())
            + final(open_list)@.len() <= 2 * open_count(old(closed_list).deep_view()) + old(
            open_list,
        )@.len(),
        n == goal ==> found is Some,
        found is None ==> final(open_list)@.len() >= old(open_list)@.len(),
        found is None ==> (forall|i: int|
            0 <= i < old(open_list)@.len() ==> final(open_list)@[i] == old(open_list)@[i]),
        found is None ==> (forall|c: Coordinate|
            in_bounds(c, rows as int, columns as int) ==> (#[trigger] cell_at(
                final(adjacency_list)@,
                c,
            )).neighbours == cell_at(old(adjacency_list)@, c).neighbours),
        found is None ==> closed_at(final(closed_list).deep_view(), n),
        found is None ==> (mask_at(mask, n) || closed_at(old(closed_list).deep_view(), n)
            || on_frontier(final(open_list)@, n)),
        found is None ==> (forall|c: Coordinate|
            in_bounds(c, rows as int, columns as int) && !(c.x == n.x && c.y == n.y)
                ==> closed_at(final(closed_list).deep_view(), c) == closed_at(
                old(closed_list).deep_view(),
                c,
            )),
{
    if n == goal {
        let ghost cells0 = adjacency_list@;
        adjacency_list[n.y][n.x].parent = Some(Coordinate { x: cur.x, y: cur.y });
        adjacency_list[n.y][n.x].h = Some(0);
        proof {
            // Only the goal's predecessor and heuristic changed, and the
            // goal is still undiscovered: no discovered cell is disturbed.
            assert forall|c: Coordinate|
                in_bounds(c, rows as int, columns as int) && #[trigger] has_g(adjacency_list@, c)
                    implies discovered_ok(
                    adjacency_list@,
                    mask,
                    rows as int,
                    columns as int,
                    start,
                    c,
                ) by {
                if c.x == goal.x && c.y == goal.y {
                    assert(c == goal);
                    assert(!has_g(adjacency_list@, c));
                } else {
                    assert(cell_at(adjacency_list@, c) == cell_at(cells0, c));
                    assert(has_g(cells0, c));
                    assert(discovered_ok(cells0, mask, rows as int, columns as int, start, c));
                    if c != start {
                        match cell_at(cells0, c).parent {
                            Some(p) => {
                                if p.x == goal.x && p.y == goal.y {
                                    assert(p == goal);
                                } else {
                                    assert(cell_at(adjacency_list@, p) == cell_at(cells0, p));
                                }
                            },
                            None => {},
                        }
                    }
                }
            }
            assert(has_g(adjacency_list@, cur));
        }
        let path = match generate_path(
            adjacency_list,
            Coordinate { x: cur.x, y: cur.y },
            start,
            Ghost(mask),
            Ghost(rows as int),
            Ghost(columns as int),
        ) {
            Ok(p) => p,
            Err(_) => {
                return None;
            },
        };
        proof {
            // every path coordinate is discovered; the goal never is
            assert forall|i: int| 0 <= i < path@.len() implies path@[i] != goal by {
                assert(has_g(adjacency_list@, path@[i]));
                assert(!has_g(adjacency_list@, goal));
            }
        }
        return Some(path);
    }
    proof {
        assert(closed_at(closed_list.deep_view(), n) == closed_list@[n.y as int]@[n.x as int]);
    }
    if closed_list[n.y][n.x] {
        // Already examined once: never reconsidered.
        return None;
    }
    if adjacency_list[n.y][n.x].obstacle {
        let ghost pre = closed_list.deep_view();
        closed_list[n.y][n.x] = true;
        proof {
            let post = closed_list.deep_view();
            assert(post =~~= pre.update(n.y as int, pre[n.y as int].update(n.x as int, true)));
            lemma_row_close(pre[n.y as int], n.x as int);
            lemma_grid_close(pre, n.y as int, pre[n.y as int].update(n.x as int, true));
            assert forall|y: int| 0 <= y < rows implies (#[trigger] post[y]).len() == columns by {
                if y != n.y as int {
                    assert(post[y] == pre[y]);
                }
            }
            assert forall|c: Coordinate|
                in_bounds(c, rows as int, columns as int) && #[trigger] has_g(adjacency_list@, c)
                    implies closed_at(post, c) by {
                if c.x == n.x && c.y == n.y {
                    assert(c == n);
                } else {
                    assert(closed_at(post, c) == closed_at(pre, c));
                }
            }
            assert(closed_at(post, start));
            assert(closed_at(post, cur));
            // an impassable cell: the goal stays open and every cost
            // bound only improves as the open count shrinks
            assert(n != goal);
            assert(!closed_at(post, goal));
            assert(cell_at(adjacency_list@, n).obstacle == mask_at(mask, n));
            assert(mask_at(mask, n));
            assert forall|c: Coordinate|
                in_bounds(c, rows as int, columns as int) && #[trigger] has_g(adjacency_list@, c)
                    implies g_value(adjacency_list@, c) + 1 + open_count(post) <= rows * columns by {
                assert(open_count(post) + 1 == open_count(pre));
                assert(g_value(adjacency_list@, c) + 1 + open_count(pre) <= rows * columns);
            }
            assert(closed_at(post, n));
            assert forall|c: Coordinate|
                in_bounds(c, rows as int, columns as int) && !(c.x == n.x && c.y == n.y)
                    implies closed_at(post, c) == closed_at(pre, c) by {
            }
        }
        return None;
    }
    proof {
        assert(cell_at(adjacency_list@, n).obstacle == mask_at(mask, n));
    }
    relax_neighbour(
        adjacency_list,
        closed_list,
        open_list,
        rows,
        columns,
        start,
        goal,
        cur,
        g_cur,
        n,
        Ghost(mask),
    );
    None
}

/// The search phase over a validated grid: builds the bookkeeping, runs
/// the best-first loop until the goal is discovered or the frontier is
/// exhausted, and in the latter case is provably exhaustive: no
/// well-formed path exists at all.
#[verifier::loop_isolation(false)]
#[verifier::rlimit(100)]
fn run_search(
    rows: usize,
    columns: usize,
    obstacles: &Vec<Vec<bool>>,
    start: Coordinate,
    goal: Coordinate,
) -> (r: Result<Vec<Coordinate>, SearchError>)
    requires
        rows >= 1,
        columns >= 1,
        in_bounds(start, rows as int, columns as int),
        in_bounds(goal, rows as int, columns as int),
        rows * columns + rows + columns < usize::MAX,
        valid_mask(obstacles.deep_view(), rows as int, columns as int),
        !mask_at(obstacles.deep_view(), start),
        !mask_at(obstacles.deep_view(), goal),
        start != goal,
    ensures
        r matches Ok(path) ==> path_connects(
            obstacles.deep_view(),
            rows as int,
            columns as int,
            start,
            goal,
            path@,
        ),
        r matches Ok(path) ==> path_simple(goal, path@),
        !(r matches Err(SearchError::InvalidDimensions)),
        !(r matches Err(SearchError::ReconstructionGap)),
        r matches Err(SearchError::NoPathFound) ==> (forall|p: Seq<Coordinate>|
            !path_connects(obstacles.deep_view(), rows as int, columns as int, start, goal, p)),
{
    let ghost mask = obstacles.deep_view();
    let mut adjacency_list = generate_adjacency_list(obstacles, rows, columns);
    let mut closed_list = generate_closed_list(rows, columns);
    let mut open_list: Vec<Node> = Vec::new();

    let ghost fresh = closed_list.deep_view();
    adjacency_list[start.y][start.x].f = Some(0);
    adjacency_list[start.y][start.x].g = Some(0);
    adjacency_list[start.y][start.x].parent = Some(start);
    // The start is expanded first and exactly once, so it is closed up front.
    closed_list[start.y][start.x] = true;
    open_list.push(Node { f: 0, x: start.x, y: start.y });

    proof {
        lemma_open_count_full(fresh, rows as int, columns as int);
        let after = closed_list.deep_view();
        assert(after =~~= fresh.update(
            start.y as int,
            fresh[start.y as int].update(start.x as int, true),
        ));
        lemma_row_close(fresh[start.y as int], start.x as int);
        lemma_grid_close(
            fresh,
            start.y as int,
            fresh[start.y as int].update(start.x as int, true),
        );
        assert(open_count(after) + 1 == rows * columns);
        assert forall|c: Coordinate|
            in_bounds(c, rows as int, columns as int) && #[trigger] has_g(adjacency_list@, c)
                implies discovered_ok(adjacency_list@, mask, rows as int, columns as int, start, c)
                && closed_at(after, c) && g_value(adjacency_list@, c) + 1 + open_count(after)
                <= rows * columns by {
            if c.x == start.x && c.y == start.y {
                assert(c == start);
            } else {
                assert(!has_g(adjacency_list@, c));
            }
        }
        assert forall|c: Coordinate|
            in_bounds(c, rows as int, columns as int) && (#[trigger] cell_at(
                adjacency_list@,
                c,
            )).f is Some implies has_g(adjacency_list@, c) by {
            if !(c.x == start.x && c.y == start.y) {
                assert(!(cell_at(adjacency_list@, c).f is Some));
            }
        }
        // only the start is closed, and it sits on the frontier
        assert(!closed_at(after, goal));
        assert(open_list@[0].x == start.x && open_list@[0].y == start.y);
        assert(on_frontier(open_list@, start));
        assert forall|c: Coordinate|
            in_bounds(c, rows as int, columns as int) && !mask_at(mask, c) && #[trigger] closed_at(
                after,
                c,
            ) && !on_frontier(open_list@, c) implies all_neighbours_closed(
                adjacency_list@,
                after,
                c,
            ) by {
            if c.x == start.x && c.y == start.y {
                assert(c == start);
            } else {
                assert(!closed_at(after, c));
            }
        }
        assert(loop_state_ok(
            adjacency_list@,
            closed_list.deep_view(),
            open_list@,
            mask,
            rows as int,
            columns as int,
            start,
            goal,
        ));
    }

    while !open_list.is_empty()
        invariant
            loop_state_ok(
                adjacency_list@,
                closed_list.deep_view(),
                open_list@,
                mask,
                rows as int,
                columns as int,
                start,
                goal,
            ),
            closed_dims(closed_list@, rows as int, columns as int),
            expanded_ok(
                adjacency_list@,
                closed_list.deep_view(),
                open_list@,
                mask,
                rows as int,
                columns as int,
            ),
        decreases 2 * open_count(closed_list.deep_view()) + open_list@.len(),
    {
        let ghost m0 = 2 * open_count(closed_list.deep_view()) + open_list@.len() as int;
        let ghost front0 = open_list@;
        let idx = min_index(&open_list);
        let current_node = open_list.remove(idx);
        let cx = current_node.x;
        let cy = current_node.y;
        let ghost cur = Coordinate { x: cx, y: cy };
        proof {
            assert(open_list@ =~= front0.remove(idx as int));
            assert(has_g(adjacency_list@, cur));
            assert forall|i: int|
                0 <= i < open_list@.len() implies ({
                    let n = #[trigger] open_list@[i];
                    (n.x as int) < columns && (n.y as int) < rows && has_g(
                        adjacency_list@,
                        Coordinate { x: n.x, y: n.y },
                    )
                }) by {
                if i < idx {
                    assert(open_list@[i] == front0[i]);
                } else {
                    assert(open_list@[i] == front0[i + 1]);
                }
            }
        }

        let ghost closed0 = closed_list.deep_view();
        closed_list[cy][cx] = true;
        proof {
            // The popped cell is discovered, hence already closed: no change.
            assert(closed_at(closed0, cur));
            assert(closed_list.deep_view() =~~= closed0);
            // Every fully expanded cell other than the popped one is still
            // fully expanded: only the popped entry left the frontier.
            assert forall|c: Coordinate|
                in_bounds(c, rows as int, columns as int) && c != cur && !mask_at(mask, c)
                    && #[trigger] closed_at(closed_list.deep_view(), c) && !on_frontier(
                    open_list@,
                    c,
                ) implies all_neighbours_closed(adjacency_list@, closed_list.deep_view(), c) by {
                if on_frontier(front0, c) {
                    let i = choose|i: int|
                        0 <= i < front0.len() && (#[trigger] front0[i]).x == c.x && front0[i].y
                            == c.y;
                    if i == idx {
                        assert(c == cur);
                    } else if i < idx {
                        assert(open_list@[i] == front0[i]);
                        assert(on_frontier(open_list@, c));
                    } else {
                        assert(open_list@[i - 1] == front0[i]);
                        assert(on_frontier(open_list@, c));
                    }
                }
                assert(!on_frontier(front0, c));
            }
        }

        let g_cur = match adjacency_list[cy][cx].g {
            Some(v) => v,
            None => unreached(),
        };

        let num = adjacency_list[cy][cx].neighbours.len();
        let mut k: usize = 0;
        while k < num
            invariant
                loop_state_ok(
                    adjacency_list@,
                    closed_list.deep_view(),
                    open_list@,
                    mask,
                    rows as int,
                    columns as int,
                    start,
                    goal,
                ),
                k <= num,
                cell_at(adjacency_list@, cur).g == Some(g_cur),
                cell_at(adjacency_list@, cur).neighbours@.len() == num,
                closed_at(closed_list.deep_view(), cur),
                closed_dims(closed_list@, rows as int, columns as int),
                2 * open_count(closed_list.deep_view()) + open_list@.len() < m0,
                expanded_ok_except(
                    adjacency_list@,
                    closed_list.deep_view(),
                    open_list@,
                    mask,
                    rows as int,
                    columns as int,
                    cur,
                ),
                forall|j: int|
                    0 <= j < k ==> closed_at(
                        closed_list.deep_view(),
                        #[trigger] cell_at(adjacency_list@, cur).neighbours@[j],
                    ),
            decreases num - k,
        {
            let n = adjacency_list[cy][cx].neighbours[k];
            proof {
                assert(in_bounds(n, rows as int, columns as int) && adjacent(cur, n));
            }
            let ghost cells_before = adjacency_list@;
            let ghost closed_before = closed_list.deep_view();
            let ghost front_before = open_list@;
            let found = expand_neighbour(
                &mut adjacency_list,
                &mut closed_list,
                &mut open_list,
                rows,
                columns,
                start,
                goal,
                Coordinate { x: cx, y: cy },
                g_cur,
                n,
                Ghost(mask),
            );
            match found {
                Some(path) => {
                    return Ok(path);
                },
                None => {},
            }
            proof {
                let cells_now = adjacency_list@;
                let closed_now = closed_list.deep_view();
                // every neighbour examined so far stays closed, and the
                // fresh one is closed now
                assert(cell_at(cells_now, cur).neighbours == cell_at(cells_before, cur).neighbours);
                assert forall|j: int|
                    0 <= j < k + 1 implies closed_at(
                        closed_now,
                        #[trigger] cell_at(cells_now, cur).neighbours@[j],
                    ) by {
                    let d = cell_at(cells_before, cur).neighbours@[j];
                    assert(in_bounds(d, rows as int, columns as int));
                    if j == k {
                        assert(d == n);
                    } else {
                        assert(closed_at(closed_before, d));
                        if !(d.x == n.x && d.y == n.y) {
                            assert(closed_at(closed_now, d) == closed_at(closed_before, d));
                        }
                    }
                }
                // the except-invariant survives the step
                assert forall|c: Coordinate|
                    in_bounds(c, rows as int, columns as int) && c != cur && !mask_at(mask, c)
                        && #[trigger] closed_at(closed_now, c) && !on_frontier(open_list@, c)
                        implies all_neighbours_closed(cells_now, closed_now, c) by {
                    assert(cell_at(cells_now, c).neighbours == cell_at(cells_before, c).neighbours);
                    if on_frontier(front_before, c) {
                        let i = choose|i: int|
                            0 <= i < front_before.len() && (#[trigger] front_before[i]).x == c.x
                                && front_before[i].y == c.y;
                        assert(open_list@[i] == front_before[i]);
                        assert(on_frontier(open_list@, c));
                    }
                    if c.x == n.x && c.y == n.y {
                        assert(c == n);
                        assert(!mask_at(mask, n));
                        assert(!on_frontier(open_list@, n));
                        assert(closed_at(closed_before, n));
                        assert(all_neighbours_closed(cells_before, closed_before, n));
                        lemma_expansion_transfer(
                            cells_before,
                            cells_now,
                            closed_before,
                            closed_now,
                            c,
                            n,
                            rows as int,
                            columns as int,
                        );
                    } else {
                        assert(closed_at(closed_now, c) == closed_at(closed_before, c));
                        assert(all_neighbours_closed(cells_before, closed_before, c));
                        lemma_expansion_transfer(
                            cells_before,
                            cells_now,
                            closed_before,
                            closed_now,
                            c,
                            n,
                            rows as int,
                            columns as int,
                        );
                    }
                }
            }
            k = k + 1;
        }
        proof {
            // the popped cell is now fully expanded
            assert forall|c: Coordinate|
                in_bounds(c, rows as int, columns as int) && !mask_at(mask, c)
                    && #[trigger] closed_at(closed_list.deep_view(), c) && !on_frontier(
                    open_list@,
                    c,
                ) implies all_neighbours_closed(adjacency_list@, closed_list.deep_view(), c) by {
                if c == cur {
                    assert(all_neighbours_closed(adjacency_list@, closed_list.deep_view(), cur));
                }
            }
        }
    }
    proof {
        // an empty frontier leaves every passable closed cell fully
        // expanded, and the goal was never closed: no path was missed
        assert forall|c: Coordinate|
            in_bounds(c, rows as int, columns as int) && !mask_at(mask, c) && #[trigger] closed_at(
                closed_list.deep_view(),
                c,
            ) implies all_neighbours_closed(adjacency_list@, closed_list.deep_view(), c) by {
            if on_frontier(open_list@, c) {
                let i = choose|i: int|
                    0 <= i < open_list@.len() && (#[trigger] open_list@[i]).x == c.x
                        && open_list@[i].y == c.y;
                assert(false);
            }
        }
        assert forall|p: Seq<Coordinate>|
            !path_connects(mask, rows as int, columns as int, start, goal, p) by {
            lemma_exhausted_cuts_goal(
                adjacency_list@,
                closed_list.deep_view(),
                mask,
                rows as int,
                columns as int,
                start,
                goal,
                p,
            );
        }
    }
    Err(SearchError::NoPathFound)
}

/// Runs the best-first search from `start` to `goal` over a `rows` x
/// `columns` obstacle mask (`true` marks an impassable cell). On success
/// the path runs from the cell just before the goal back to the start,
/// goal end first, excluding the goal and including the start.
#[verifier::loop_isolation(false)]
#[verifier::rlimit(100)]
pub fn find_path(
    rows: usize,
    columns: usize,
    obstacles: &Vec<Vec<bool>>,
    start: Coordinate,
    goal: Coordinate,
) -> (r: Result<Vec<Coordinate>, SearchError>)
    requires
        rows >= 1,
        columns >= 1,
        in_bounds(start, rows as int, columns as int),
        in_bounds(goal, rows as int, columns as int),
        rows * columns + rows + columns < usize::MAX,
    ensures
        find_path_post(obstacles.deep_view(), rows as int, columns as int, start, goal, r),
{
    let ghost mask = obstacles.deep_view();
    if obstacles.len() != rows {
        return Err(SearchError::InvalidDimensions);
    }
    let mut yy: usize = 0;
    while yy < rows
        invariant
            yy <= rows,
            forall|j: int| 0 <= j < yy ==> (#[trigger] mask[j]).len() == columns,
        decreases rows - yy,
    {
        assert(mask[yy as int] =~= obstacles@[yy as int].deep_view());
        if obstacles[yy].len() != columns {
            assert(mask[yy as int].len() != columns);
            return Err(SearchError::InvalidDimensions);
        }
        yy = yy + 1;
    }
    assert(valid_mask(mask, rows as int, columns as int));

    assert(mask_at(mask, start) == obstacles@[start.y as int]@[start.x as int]) by {
        assert(mask[start.y as int] =~= obstacles@[start.y as int].deep_view());
    }
    if obstacles[start.y][start.x] {
        return Err(SearchError::NoPathFound);
    }
    assert(mask_at(mask, goal) == obstacles@[goal.y as int]@[goal.x as int]) by {
        assert(mask[goal.y as int] =~= obstacles@[goal.y as int].deep_view());
    }
    if obstacles[goal.y][goal.x] {
        return Err(SearchError::NoPathFound);
    }
    if start == goal {
        return Ok(Vec::new());
    }

    let r = run_search(rows, columns, obstacles, start, goal);
    proof {
        if r matches Err(SearchError::NoPathFound) {
            // exhaustion has excluded every well-formed path
            if exists|p: Seq<Coordinate>|
                path_connects(mask, rows as int, columns as int, start, goal, p) {
                let p = choose|p: Seq<Coordinate>|
                    path_connects(mask, rows as int, columns as int, start, goal, p);
                assert(!path_connects(mask, rows as int, columns as int, start, goal, p));
            }
            // in particular, adjacent endpoints would give the one-cell chain
            if adjacent(start, goal) {
                let single = seq![start];
                assert(single[0] == start);
                assert(single[single.len() - 1] == start);
                assert(path_connects(mask, rows as int, columns as int, start, goal, single));
                assert(false);
            }
        }
    }
    r
}

/// Searches from the top-left corner `(0, 0)` to the bottom-right corner
/// `(columns - 1, rows - 1)`, the route the grid application always asks
/// for.
pub fn a_star_search(obstacles: &Vec<Vec<bool>>, rows: usize, columns: usize) -> (r: Result<
    Vec<Coordinate>,
    SearchError,
>)
    requires
        rows >= 1,
        columns >= 1,
        rows * columns + rows + columns < usize::MAX,
    ensures
        find_path_post(
            obstacles.deep_view(),
            rows as int,
            columns as int,
            (Coordinate { x: 0, y: 0 }),
            (Coordinate { x: (columns - 1) as usize, y: (rows - 1) as usize }),
            r,
        ),
{
    find_path(
        rows,
        columns,
        obstacles,
        Coordinate { x: 0, y: 0 },
        Coordinate { x: columns - 1, y: rows - 1 },
    )
}

} // verus!
