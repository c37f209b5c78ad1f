//! Properties of well-formed result paths: a lower bound on the length of
//! any returned path, the impossibility of a path across a fully blocked
//! separating row or column, and the agreement of repeated searches on
//! their outcome's status.

use vstd::prelude::*;

use crate::grid::Coordinate;
use crate::grid::adjacent;
use crate::grid::in_bounds;
use crate::grid::manhattan;
use crate::grid::mask_at;
use crate::grid::valid_mask;
use crate::search::SearchError;
use crate::search::find_path_post;
use crate::search::path_connects;

verus! {

proof fn lemma_chain_bound(path: Seq<Coordinate>, goal: Coordinate)
    requires
        path.len() >= 1,
        adjacent(path[0], goal),
        forall|i: int| 0 <= i < path.len() - 1 ==> adjacent(#[trigger] path[i + 1], path[i]),
    ensures
        manhattan(path[path.len() - 1], goal) <= path.len(),
    decreases path.len(),
{
    if path.len() > 1 {
        let sub = path.subrange(1, path.len() as int);
        assert(adjacent(sub[0], path[0]));
        assert forall|i: int| 0 <= i < sub.len() - 1 implies adjacent(
            #[trigger] sub[i + 1],
            sub[i],
        ) by {
            assert(sub[i + 1] == path[i + 2]);
            assert(sub[i] == path[i + 1]);
            assert(adjacent(path[i + 1 + 1], path[i + 1]));
        }
        lemma_chain_bound(sub, path[0]);
        assert(sub[sub.len() - 1] == path[path.len() - 1]);
        assert(manhattan(path[0], goal) == 1);
    }
}

/// No returned path can beat the Manhattan distance: with unit step costs
/// a successful path has at least `manhattan(start, goal)` steps.
pub proof fn lemma_path_length_lower_bound(
    mask: Seq<Seq<bool>>,
    rows: int,
    columns: int,
    start: Coordinate,
    goal: Coordinate,
    path: Seq<Coordinate>,
)
    requires
        path_connects(mask, rows, columns, start, goal, path),
    ensures
        manhattan(start, goal) <= path.len(),
{
    if start != goal {
        lemma_chain_bound(path, goal);
    }
}

proof fn lemma_chain_crosses_column(path: Seq<Coordinate>, col: int)
    requires
        path.len() >= 1,
        forall|i: int| 0 <= i < path.len() - 1 ==> adjacent(#[trigger] path[i + 1], path[i]),
        path[0].x > col,
        path[path.len() - 1].x < col,
    ensures
        exists|i: int| 0 <= i < path.len() && (#[trigger] path[i]).x == col,
    decreases path.len(),
{
    assert(path.len() >= 2);
    let i0: int = 0;
    assert(adjacent(path[i0 + 1], path[i0]));
    if path[1].x == col {
        assert((#[trigger] path[1]).x == col);
    } else {
        let sub = path.subrange(1, path.len() as int);
        assert forall|i: int| 0 <= i < sub.len() - 1 implies adjacent(
            #[trigger] sub[i + 1],
            sub[i],
        ) by {
            assert(sub[i + 1] == path[i + 2]);
            assert(sub[i] == path[i + 1]);
            assert(adjacent(path[i + 1 + 1], path[i + 1]));
        }
        assert(sub[0].x > col);
        assert(sub[sub.len() - 1] == path[path.len() - 1]);
        lemma_chain_crosses_column(sub, col);
        let j = choose|j: int| 0 <= j < sub.len() && (#[trigger] sub[j]).x == col;
        assert((#[trigger] path[j + 1]).x == col);
    }
}

proof fn lemma_chain_crosses_row(path: Seq<Coordinate>, row: int)
    requires
        path.len() >= 1,
        forall|i: int| 0 <= i < path.len() - 1 ==> adjacent(#[trigger] path[i + 1], path[i]),
        path[0].y > row,
        path[path.len() - 1].y < row,
    ensures
        exists|i: int| 0 <= i < path.len() && (#[trigger] path[i]).y == row,
    decreases path.len(),
{
    assert(path.len() >= 2);
    let i0: int = 0;
    assert(adjacent(path[i0 + 1], path[i0]));
    if path[1].y == row {
        assert((#[trigger] path[1]).y == row);
    } else {
        let sub = path.subrange(1, path.len() as int);
        assert forall|i: int| 0 <= i < sub.len() - 1 implies adjacent(
            #[trigger] sub[i + 1],
            sub[i],
        ) by {
            assert(sub[i + 1] == path[i + 2]);
            assert(sub[i] == path[i + 1]);
            assert(adjacent(path[i + 1 + 1], path[i + 1]));
        }
        assert(sub[0].y > row);
        assert(sub[sub.len() - 1] == path[path.len() - 1]);
        lemma_chain_crosses_row(sub, row);
        let j = choose|j: int| 0 <= j < sub.len() && (#[trigger] sub[j]).y == row;
        assert((#[trigger] path[j + 1]).y == row);
    }
}

spec fn chain_reversed(path: Seq<Coordinate>) -> Seq<Coordinate> {
    path.reverse()
}

proof fn lemma_reverse_chain(path: Seq<Coordinate>)
    requires
        forall|i: int| 0 <= i < path.len() - 1 ==> adjacent(#[trigger] path[i + 1], path[i]),
    ensures
        forall|i: int|
            0 <= i < path.len() - 1 ==> adjacent(
                #[trigger] chain_reversed(path)[i + 1],
                chain_reversed(path)[i],
            ),
{
    let rev = chain_reversed(path);
    assert forall|i: int| 0 <= i < path.len() - 1 implies adjacent(
        #[trigger] rev[i + 1],
        rev[i],
    ) by {
        let n = path.len() as int;
        assert(rev[i + 1] == path[n - 2 - i]);
        assert(rev[i] == path[n - 1 - i]);
        assert(adjacent(path[n - 2 - i + 1], path[n - 2 - i]));
    }
}

/// A monotone route between two cells: step along the columns first,
/// then along the rows, both endpoints included.
pub open spec fn staircase(a: Coordinate, b: Coordinate) -> Seq<Coordinate>
    decreases manhattan(a, b),
{
    if manhattan(a, b) <= 0 {
        seq![a]
    } else if a.x < b.x {
        seq![a] + staircase(Coordinate { x: (a.x + 1) as usize, y: a.y }, b)
    } else if a.x > b.x {
        seq![a] + staircase(Coordinate { x: (a.x - 1) as usize, y: a.y }, b)
    } else if a.y < b.y {
        seq![a] + staircase(Coordinate { x: a.x, y: (a.y + 1) as usize }, b)
    } else {
        seq![a] + staircase(Coordinate { x: a.x, y: (a.y - 1) as usize }, b)
    }
}

proof fn lemma_staircase_ok(a: Coordinate, b: Coordinate, rows: int, columns: int)
    requires
        in_bounds(a, rows, columns),
        in_bounds(b, rows, columns),
        rows <= usize::MAX,
        columns <= usize::MAX,
    ensures
        staircase(a, b).len() == manhattan(a, b) + 1,
        staircase(a, b)[0] == a,
        staircase(a, b)[staircase(a, b).len() - 1] == b,
        forall|i: int|
            0 <= i < staircase(a, b).len() ==> in_bounds(#[trigger] staircase(a, b)[i], rows, columns),
        forall|i: int|
            0 <= i < staircase(a, b).len() - 1 ==> adjacent(
                #[trigger] staircase(a, b)[i + 1],
                staircase(a, b)[i],
            ),
    decreases manhattan(a, b),
{
    let s = staircase(a, b);
    if manhattan(a, b) > 0 {
        let a2: Coordinate = if a.x < b.x {
            Coordinate { x: (a.x + 1) as usize, y: a.y }
        } else if a.x > b.x {
            Coordinate { x: (a.x - 1) as usize, y: a.y }
        } else if a.y < b.y {
            Coordinate { x: a.x, y: (a.y + 1) as usize }
        } else {
            Coordinate { x: a.x, y: (a.y - 1) as usize }
        };
        assert(in_bounds(a2, rows, columns));
        assert(adjacent(a2, a));
        assert(manhattan(a2, b) == manhattan(a, b) - 1);
        lemma_staircase_ok(a2, b, rows, columns);
        let sub = staircase(a2, b);
        assert(s == seq![a] + sub);
        assert forall|i: int| 0 <= i < s.len() implies in_bounds(
            #[trigger] s[i],
            rows,
            columns,
        ) by {
            if i > 0 {
                assert(s[i] == sub[i - 1]);
            }
        }
        assert forall|i: int| 0 <= i < s.len() - 1 implies adjacent(
            #[trigger] s[i + 1],
            s[i],
        ) by {
            if i == 0 {
                assert(s[1] == sub[0]);
                assert(sub[0] == a2);
            } else {
                assert(s[i + 1] == sub[i]);
                assert(s[i] == sub[i - 1]);
                assert(adjacent(sub[i - 1 + 1], sub[i - 1]));
            }
        }
    }
}

/// On an obstacle-free grid the search always succeeds: a monotone
/// staircase route connects any two cells, and the search contract is
/// complete, so a failure is impossible.
pub proof fn lemma_free_grid_search_succeeds(
    mask: Seq<Seq<bool>>,
    rows: int,
    columns: int,
    start: Coordinate,
    goal: Coordinate,
    r: Result<Vec<Coordinate>, SearchError>,
)
    requires
        find_path_post(mask, rows, columns, start, goal, r),
        valid_mask(mask, rows, columns),
        rows <= usize::MAX,
        columns <= usize::MAX,
        in_bounds(start, rows, columns),
        in_bounds(goal, rows, columns),
        forall|c: Coordinate| in_bounds(c, rows, columns) ==> !mask_at(mask, c),
    ensures
        r is Ok,
{
    assert(!mask_at(mask, start));
    assert(!mask_at(mask, goal));
    if start != goal {
        lemma_staircase_ok(goal, start, rows, columns);
        let route = staircase(goal, start);
        let p = route.subrange(1, route.len() as int);
        assert(route.len() >= 2);
        assert(p[0] == route[1]);
        let i0: int = 0;
        assert(adjacent(route[i0 + 1], route[i0]));
        assert(adjacent(p[0], goal));
        assert(p[p.len() - 1] == route[route.len() - 1]);
        assert forall|i: int| 0 <= i < p.len() - 1 implies adjacent(
            #[trigger] p[i + 1],
            p[i],
        ) by {
            assert(p[i + 1] == route[i + 2]);
            assert(p[i] == route[i + 1]);
            assert(adjacent(route[i + 1 + 1], route[i + 1]));
        }
        assert forall|i: int| 0 <= i < p.len() implies in_bounds(#[trigger] p[i], rows, columns)
            && !mask_at(mask, p[i]) by {
            assert(p[i] == route[i + 1]);
            assert(in_bounds(route[i + 1], rows, columns));
        }
        assert(path_connects(mask, rows, columns, start, goal, p));
        assert(exists|q: Seq<Coordinate>| path_connects(mask, rows, columns, start, goal, q));
    }
}

/// Two searches over identical inputs agree on their outcome's status:
/// the contract pins success and the error kind to the input alone, so a
/// repeated call cannot flip between a path and a failure.
pub proof fn lemma_same_inputs_same_status(
    mask: Seq<Seq<bool>>,
    rows: int,
    columns: int,
    start: Coordinate,
    goal: Coordinate,
    r1: Result<Vec<Coordinate>, SearchError>,
    r2: Result<Vec<Coordinate>, SearchError>,
)
    requires
        find_path_post(mask, rows, columns, start, goal, r1),
        find_path_post(mask, rows, columns, start, goal, r2),
    ensures
        r1 is Ok <==> r2 is Ok,
        r1 matches Err(e1) ==> (r2 matches Err(e2) ==> e1 == e2),
{
    match r1 {
        Ok(p1) => {
            match r2 {
                Ok(_) => {},
                Err(_) => {
                    assert(valid_mask(mask, rows, columns));
                    assert(!mask_at(mask, start) && !mask_at(mask, goal));
                    assert(path_connects(mask, rows, columns, start, goal, p1@));
                    assert(exists|p: Seq<Coordinate>|
                        path_connects(mask, rows, columns, start, goal, p));
                    assert(r2 is Ok);
                },
            }
        },
        Err(e1) => {
            match r2 {
                Ok(p2) => {
                    assert(valid_mask(mask, rows, columns));
                    assert(!mask_at(mask, start) && !mask_at(mask, goal));
                    assert(path_connects(mask, rows, columns, start, goal, p2@));
                    assert(exists|p: Seq<Coordinate>|
                        path_connects(mask, rows, columns, start, goal, p));
                    assert(r1 is Ok);
                },
                Err(e2) => {
                    if !valid_mask(mask, rows, columns) {
                        assert(r1 matches Err(SearchError::InvalidDimensions));
                        assert(r2 matches Err(SearchError::InvalidDimensions));
                    } else {
                        assert(!(r1 matches Err(SearchError::InvalidDimensions)));
                        assert(!(r2 matches Err(SearchError::InvalidDimensions)));
                        assert(!(r1 matches Err(SearchError::ReconstructionGap)));
                        assert(!(r2 matches Err(SearchError::ReconstructionGap)));
                        assert(e1 == SearchError::NoPathFound);
                        assert(e2 == SearchError::NoPathFound);
                    }
                },
            }
        },
    }
}

/// A fully blocked column strictly between the columns of start and goal
/// cuts every well-formed path.
pub proof fn lemma_blocked_column_no_path(
    mask: Seq<Seq<bool>>,
    rows: int,
    columns: int,
    start: Coordinate,
    goal: Coordinate,
    path: Seq<Coordinate>,
    col: int,
)
    requires
        valid_mask(mask, rows, columns),
        in_bounds(start, rows, columns),
        in_bounds(goal, rows, columns),
        (start.x < col && col < goal.x) || (goal.x < col && col < start.x),
        forall|y: int| 0 <= y < rows ==> (#[trigger] mask[y])[col],
    ensures
        !path_connects(mask, rows, columns, start, goal, path),
{
    if path_connects(mask, rows, columns, start, goal, path) {
        assert(start != goal);
        let n = path.len() as int;
        if path[0].x == col {
            assert(mask_at(mask, path[0]));
        } else if start.x < col && col < goal.x {
            assert(path[0].x > col);
            lemma_chain_crosses_column(path, col);
            let i = choose|i: int| 0 <= i < n && (#[trigger] path[i]).x == col;
            assert(mask_at(mask, path[i]));
        } else {
            let rev = chain_reversed(path);
            lemma_reverse_chain(path);
            assert(rev[0] == path[n - 1]);
            assert(rev[n - 1] == path[0]);
            assert(rev[0].x > col);
            assert(rev[n - 1].x < col);
            lemma_chain_crosses_column(rev, col);
            let i = choose|i: int| 0 <= i < n && (#[trigger] rev[i]).x == col;
            assert(rev[i] == path[n - 1 - i]);
            assert(mask_at(mask, path[n - 1 - i]));
        }
    }
}

/// A fully blocked row strictly between the rows of start and goal cuts
/// every well-formed path.
pub proof fn lemma_blocked_row_no_path(
    mask: Seq<Seq<bool>>,
    rows: int,
    columns: int,
    start: Coordinate,
    goal: Coordinate,
    path: Seq<Coordinate>,
    row: int,
)
    requires
        valid_mask(mask, rows, columns),
        in_bounds(start, rows, columns),
        in_bounds(goal, rows, columns),
        (start.y < row && row < goal.y) || (goal.y < row && row < start.y),
        forall|x: int| 0 <= x < columns ==> mask[row][x],
    ensures
        !path_connects(mask, rows, columns, start, goal, path),
{
    if path_connects(mask, rows, columns, start, goal, path) {
        assert(start != goal);
        let n = path.len() as int;
        if path[0].y == row {
            assert(mask_at(mask, path[0]));
        } else if start.y < row && row < goal.y {
            assert(path[0].y > row);
            lemma_chain_crosses_row(path, row);
            let i = choose|i: int| 0 <= i < n && (#[trigger] path[i]).y == row;
            assert(mask_at(mask, path[i]));
        } else {
            let rev = chain_reversed(path);
            lemma_reverse_chain(path);
            assert(rev[0] == path[n - 1]);
            assert(rev[n - 1] == path[0]);
            assert(rev[0].y > row);
            assert(rev[n - 1].y < row);
            lemma_chain_crosses_row(rev, row);
            let i = choose|i: int| 0 <= i < n && (#[trigger] rev[i]).y == row;
            assert(rev[i] == path[n - 1 - i]);
            assert(mask_at(mask, path[n - 1 - i]));
        }
    }
}

/// When a fully blocked column separates start from goal, a search that
/// meets its contract must report `NoPathFound`.
pub proof fn lemma_blocked_column_forces_no_path_found(
    mask: Seq<Seq<bool>>,
    rows: int,
    columns: int,
    start: Coordinate,
    goal: Coordinate,
    r: Result<Vec<Coordinate>, SearchError>,
    col: int,
)
    requires
        find_path_post(mask, rows, columns, start, goal, r),
        valid_mask(mask, rows, columns),
        in_bounds(start, rows, columns),
        in_bounds(goal, rows, columns),
        (start.x < col && col < goal.x) || (goal.x < col && col < start.x),
        forall|y: int| 0 <= y < rows ==> (#[trigger] mask[y])[col],
    ensures
        r matches Err(SearchError::NoPathFound),
{
    match r {
        Ok(path) => {
            lemma_blocked_column_no_path(mask, rows, columns, start, goal, path@, col);
        },
        Err(e) => {
            match e {
                SearchError::InvalidDimensions => {
                    assert(!valid_mask(mask, rows, columns));
                },
                SearchError::NoPathFound => {},
                SearchError::ReconstructionGap => {
                    assert(!(r matches Err(SearchError::ReconstructionGap)));
                },
            }
        },
    }
}

/// When a fully blocked row separates start from goal, a search that
/// meets its contract must report `NoPathFound`.
pub proof fn lemma_blocked_row_forces_no_path_found(
    mask: Seq<Seq<bool>>,
    rows: int,
    columns: int,
    start: Coordinate,
    goal: Coordinate,
    r: Result<Vec<Coordinate>, SearchError>,
    row: int,
)
    requires
        find_path_post(mask, rows, columns, start, goal, r),
        valid_mask(mask, rows, columns),
        in_bounds(start, rows, columns),
        in_bounds(goal, rows, columns),
        (start.y < row && row < goal.y) || (goal.y < row && row < start.y),
        forall|x: int| 0 <= x < columns ==> mask[row][x],
    ensures
        r matches Err(SearchError::NoPathFound),
{
    match r {
        Ok(path) => {
            lemma_blocked_row_no_path(mask, rows, columns, start, goal, path@, row);
        },
        Err(e) => {
            match e {
                SearchError::InvalidDimensions => {
                    assert(!valid_mask(mask, rows, columns));
                },
                SearchError::NoPathFound => {},
                SearchError::ReconstructionGap => {
                    assert(!(r matches Err(SearchError::ReconstructionGap)));
                },
            }
        },
    }
}

} // verus!
