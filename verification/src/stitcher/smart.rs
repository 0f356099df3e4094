//! Alignment as a shortest path: the cheapest monotone path through the grid
//! of inner rows and outer columns pairs the vertices of the two boundaries.

use crate::graph::{distance_between_nodes, node_dist_sq, node_in_window};
use crate::graph::types::{link_ok, ring_wf, Graph, Node};
use crate::linalg_helpers::floor_sqrt;
use crate::stitcher::greedy::{covers_all, entry_of};
use crate::stitcher::types::{
    lemma_empty_tables_mirror, lemma_put_mirrors, table_covers, table_pairs, table_put,
    tables_mirror, Correspondent, Stitching,
};
use pathfinding::directed::dijkstra::dijkstra;
use vstd::prelude::*;

verus! {

/// A cell of the grid: the row is the id of an inner vertex, the column the
/// id of an outer one.
#[derive(Clone, Copy, Debug, Eq, Hash, Ord, PartialEq, PartialOrd)]
pub struct RowCol(pub usize, pub usize);

/// The largest cost of one move: no two points of the window are farther
/// apart.
pub const COST_MAX: u64 = 4_294_967_296;

/// The largest number of rows and columns together for which the cost of a
/// whole path stays within the machine's integers.
pub const GRID_MAX: usize = 1_073_741_824;

/// In each cell, the cost of moving down and the cost of moving right.
pub type Grid = Seq<Vec<(u64, u64)>>;

pub open spec fn rows(grid: Grid) -> int {
    grid.len() as int
}

pub open spec fn cols(grid: Grid) -> int {
    grid[0]@.len() as int
}

/// The grid is a rectangle with at least one cell, small enough and with
/// costs low enough for the cost of a path to be computed.
pub open spec fn grid_ok(grid: Grid) -> bool {
    &&& rows(grid) >= 1
    &&& cols(grid) >= 1
    &&& rows(grid) + cols(grid) <= GRID_MAX
    &&& forall|r: int| 0 <= r < rows(grid) ==> (#[trigger] grid[r])@.len() == cols(grid)
    &&& forall|r: int, c: int|
        0 <= r < rows(grid) && 0 <= c < cols(grid) ==> (#[trigger] grid[r]@[c]).0 <= COST_MAX
            && grid[r]@[c].1 <= COST_MAX
}

/// The grid has at least one row and one column.
pub open spec fn has_cells(grid: Grid) -> bool {
    rows(grid) >= 1 && cols(grid) >= 1
}

/// `b` is the cell below `a`.
pub open spec fn is_down(grid: Grid, a: RowCol, b: RowCol) -> bool {
    b.0 == a.0 + 1 && b.1 == a.1 && b.0 < rows(grid) && b.1 < cols(grid)
}

/// `b` is the cell to the right of `a`.
pub open spec fn is_right(grid: Grid, a: RowCol, b: RowCol) -> bool {
    b.0 == a.0 && b.1 == a.1 + 1 && b.0 < rows(grid) && b.1 < cols(grid)
}

/// The cost of the move from `a` to the cell below it or to its right.
pub open spec fn move_cost(grid: Grid, a: RowCol, b: RowCol) -> int {
    if b.0 == a.0 + 1 {
        grid[a.0 as int]@[a.1 as int].0 as int
    } else {
        grid[a.0 as int]@[a.1 as int].1 as int
    }
}

/// Move `k` of `path` goes one cell down or one cell right.
pub open spec fn move_ok(grid: Grid, path: Seq<RowCol>, k: int) -> bool {
    is_down(grid, path[k], path[k + 1]) || is_right(grid, path[k], path[k + 1])
}

/// `path` leads from the top left cell to the bottom right one, by moves that
/// go one cell down or one cell right.
pub open spec fn is_grid_path(grid: Grid, path: Seq<RowCol>) -> bool {
    &&& path.len() >= 1
    &&& path[0] == RowCol(0, 0)
    &&& path.last().0 == rows(grid) - 1
    &&& path.last().1 == cols(grid) - 1
    &&& forall|k: int| 0 <= k < path.len() - 1 ==> #[trigger] move_ok(grid, path, k)
}

/// The sum of the costs of the moves of `path`.
pub open spec fn path_cost(grid: Grid, path: Seq<RowCol>) -> int
    decreases path.len(),
{
    if path.len() <= 1 {
        0
    } else {
        path_cost(grid, path.drop_last()) + move_cost(
            grid,
            path[path.len() - 2],
            path[path.len() - 1],
        )
    }
}

/// `path` is a path through the grid that no other path undercuts.
pub open spec fn is_cheapest_path(grid: Grid, path: Seq<RowCol>) -> bool {
    &&& is_grid_path(grid, path)
    &&& forall|other: Seq<RowCol>| #[trigger]
        is_grid_path(grid, other) ==> path_cost(grid, path) <= path_cost(grid, other)
}

impl RowCol {
    /// The cell is a cell of the grid.
    pub open spec fn inside(self, grid: Grid) -> bool {
        self.0 < rows(grid) && self.1 < cols(grid)
    }

    /// The moves that leave this cell, each with its cost: down where a row
    /// follows, right where a column follows.
    pub open spec fn successors_spec(self, grid: Grid) -> Seq<(RowCol, u64)> {
        let down = (RowCol((self.0 + 1) as usize, self.1), grid[self.0 as int]@[self.1 as int].0);
        let right = (RowCol(self.0, (self.1 + 1) as usize), grid[self.0 as int]@[self.1 as int].1);
        if self.0 < rows(grid) - 1 && self.1 < cols(grid) - 1 {
            seq![down, right]
        } else if self.1 < cols(grid) - 1 {
            seq![right]
        } else if self.0 < rows(grid) - 1 {
            seq![down]
        } else {
            seq![]
        }
    }

    /// The moves that leave this cell, each with its cost.
    pub fn successors(&self, mat: &Vec<Vec<(u64, u64)>>) -> (r: Vec<(RowCol, u64)>)
        requires
            grid_ok(mat@),
            self.inside(mat@),
        ensures
            r@ == self.successors_spec(mat@),
            forall|k: int| 0 <= k < r@.len() ==> (#[trigger] r@[k]).0.inside(mat@),
    {
        let row: usize = self.0;
        let col: usize = self.1;
        assert(mat@[0]@.len() == cols(mat@));
        assert(mat@[row as int]@.len() == cols(mat@));
        let row_count: usize = mat.len();
        let col_count: usize = mat[0].len();
        let cell: (u64, u64) = mat[row][col];
        let mut r: Vec<(RowCol, u64)> = Vec::new();
        if row < row_count - 1 && col < col_count - 1 {
            r.push((RowCol(row + 1, col), cell.0));
            r.push((RowCol(row, col + 1), cell.1));
        } else if col < col_count - 1 {
            r.push((RowCol(row, col + 1), cell.1));
        } else if row < row_count - 1 {
            r.push((RowCol(row + 1, col), cell.0));
        }
        assert(r@ =~= self.successors_spec(mat@));
        r
    }

    /// Whether this cell is the bottom right cell of the grid.
    pub fn success(&self, mat: &Vec<Vec<(u64, u64)>>) -> (b: bool)
        requires
            grid_ok(mat@),
        ensures
            b == (self.0 == rows(mat@) - 1 && self.1 == cols(mat@) - 1),
    {
        self.0 == mat.len() - 1 && self.1 == mat[0].len() - 1
    }
}

/// `pathfinding::directed::dijkstra::dijkstra`, started in the top left cell
/// and stopped in the bottom right one: a path through the grid that no other
/// path undercuts, with its cost; nothing only where the grid has no path.
#[verifier::external_body]
fn cheapest_path(mat: &Vec<Vec<(u64, u64)>>) -> (r: Option<(Vec<RowCol>, u64)>)
    requires
        grid_ok(mat@),
    ensures
        match r {
            Some(found) => is_cheapest_path(mat@, found.0@) && found.1 == path_cost(
                mat@,
                found.0@,
            ),
            None => forall|other: Seq<RowCol>| !#[trigger] is_grid_path(mat@, other),
        },
{
    dijkstra(&RowCol(0, 0), |p| p.successors(mat), |p| p.success(mat))
}

/// The path that first follows the top row and then the last column.
pub open spec fn border_path(grid: Grid) -> Seq<RowCol> {
    Seq::new(
        (rows(grid) + cols(grid) - 1) as nat,
        |k: int|
            if k < cols(grid) {
                RowCol(0, k as usize)
            } else {
                RowCol((k - cols(grid) + 1) as usize, (cols(grid) - 1) as usize)
            },
    )
}

/// Every grid has a path.
pub proof fn lemma_border_path(grid: Grid)
    requires
        grid_ok(grid),
    ensures
        is_grid_path(grid, border_path(grid)),
{
    let path = border_path(grid);
    assert forall|k: int| 0 <= k < path.len() - 1 implies #[trigger] move_ok(grid, path, k) by {
        if k + 1 < cols(grid) {
            assert(is_right(grid, path[k], path[k + 1]));
        } else {
            assert(is_down(grid, path[k], path[k + 1]));
        }
    }
}

/// Along a path, row and column together grow by one with each move, and no
/// cell leaves the grid.
pub proof fn lemma_path_position(grid: Grid, path: Seq<RowCol>, k: int)
    requires
        has_cells(grid),
        is_grid_path(grid, path),
        0 <= k < path.len(),
    ensures
        path[k].0 + path[k].1 == k,
        path[k].inside(grid),
    decreases k,
{
    if k > 0 {
        lemma_path_position(grid, path, k - 1);
        assert(move_ok(grid, path, k - 1));
    }
}

/// A path has one cell more than the grid has rows and columns, less two.
pub proof fn lemma_path_length(grid: Grid, path: Seq<RowCol>)
    requires
        has_cells(grid),
        is_grid_path(grid, path),
    ensures
        path.len() == rows(grid) + cols(grid) - 1,
{
    lemma_path_position(grid, path, path.len() - 1);
}

/// Among the first `k + 1` cells of a path, every row up to that of cell `k`
/// and every column up to that of cell `k` occurs.
pub proof fn lemma_path_meets_upto(grid: Grid, path: Seq<RowCol>, k: int, row: int, col: int)
    requires
        has_cells(grid),
        is_grid_path(grid, path),
        0 <= k < path.len(),
        0 <= row <= path[k].0,
        0 <= col <= path[k].1,
    ensures
        exists|j: int| 0 <= j <= k && (#[trigger] path[j]).0 == row,
        exists|j: int| 0 <= j <= k && (#[trigger] path[j]).1 == col,
    decreases k,
{
    if k == 0 {
        assert(path[0].0 == row && path[0].1 == col);
    } else {
        assert(move_ok(grid, path, k - 1));
        if path[k].0 == row {
            assert(path[k].0 == row);
        } else {
            lemma_path_meets_upto(grid, path, k - 1, row, path[k - 1].1 as int);
        }
        if path[k].1 == col {
            assert(path[k].1 == col);
        } else {
            lemma_path_meets_upto(grid, path, k - 1, path[k - 1].0 as int, col);
        }
    }
}

/// The cost of moving down from `(row, col)`: the distance from outer vertex
/// `col` to the successor of inner vertex `row`.
pub open spec fn down_cost(outer: Seq<Node>, inner: Seq<Node>, row: int, col: int) -> int {
    floor_sqrt(node_dist_sq(outer[col], inner[inner[row].next_id as int]))
}

/// The cost of moving right from `(row, col)`: the distance from inner vertex
/// `row` to the successor of outer vertex `col`.
pub open spec fn right_cost(outer: Seq<Node>, inner: Seq<Node>, row: int, col: int) -> int {
    floor_sqrt(node_dist_sq(inner[row], outer[outer[col].next_id as int]))
}

/// `grid` is the grid of costs between the two boundaries: a row for each
/// inner vertex, a column for each outer one.
pub open spec fn is_cost_grid(grid: Grid, outer: Seq<Node>, inner: Seq<Node>) -> bool {
    &&& rows(grid) == inner.len()
    &&& forall|r: int| 0 <= r < rows(grid) ==> (#[trigger] grid[r])@.len() == outer.len()
    &&& forall|r: int, c: int|
        0 <= r < inner.len() && 0 <= c < outer.len() ==> (#[trigger] grid[r]@[c]).0 == down_cost(
            outer,
            inner,
            r,
            c,
        ) && grid[r]@[c].1 == right_cost(outer, inner, r, c)
}

/// The grid of costs between the two boundaries.
pub fn make_matrix(outer: &Graph, inner: &Graph) -> (ret: Vec<Vec<(u64, u64)>>)
    requires
        outer.wf(),
        inner.wf(),
        outer.nodes@.len() + inner.nodes@.len() <= GRID_MAX,
    ensures
        is_cost_grid(ret@, outer.nodes@, inner.nodes@),
        grid_ok(ret@),
{
    let rows_amt: usize = inner.nodes.len();
    let cols_amt: usize = outer.nodes.len();
    let mut ret: Vec<Vec<(u64, u64)>> = Vec::new();
    let mut row_i: usize = 0;
    while row_i < rows_amt
        invariant
            outer.wf(),
            inner.wf(),
            rows_amt == inner.nodes@.len(),
            cols_amt == outer.nodes@.len(),
            row_i <= rows_amt,
            ret@.len() == row_i,
            forall|r: int| 0 <= r < row_i ==> (#[trigger] ret@[r])@.len() == cols_amt,
            forall|r: int, c: int|
                0 <= r < row_i && 0 <= c < cols_amt ==> (#[trigger] ret@[r]@[c]).0 == down_cost(
                    outer.nodes@,
                    inner.nodes@,
                    r,
                    c,
                ) && ret@[r]@[c].1 == right_cost(outer.nodes@, inner.nodes@, r, c)
                    && ret@[r]@[c].0 <= COST_MAX && ret@[r]@[c].1 <= COST_MAX,
        decreases rows_amt - row_i,
    {
        let mut row: Vec<(u64, u64)> = Vec::new();
        let mut col_i: usize = 0;
        while col_i < cols_amt
            invariant
                outer.wf(),
                inner.wf(),
                rows_amt == inner.nodes@.len(),
                cols_amt == outer.nodes@.len(),
                row_i < rows_amt,
                col_i <= cols_amt,
                row@.len() == col_i,
                forall|c: int|
                    0 <= c < col_i ==> (#[trigger] row@[c]).0 == down_cost(
                        outer.nodes@,
                        inner.nodes@,
                        row_i as int,
                        c,
                    ) && row@[c].1 == right_cost(outer.nodes@, inner.nodes@, row_i as int, c)
                        && row@[c].0 <= COST_MAX && row@[c].1 <= COST_MAX,
            decreases cols_amt - col_i,
        {
            let out_here: &Node = &outer.nodes[col_i];
            let inn_here: &Node = &inner.nodes[row_i];
            let inn_next: &Node = inner.next(row_i);
            let out_next: &Node = outer.next(col_i);
            assert(node_in_window(*out_here) && node_in_window(*inn_here));
            assert(node_in_window(*out_next) && node_in_window(*inn_next));
            // Cost of moving down, right
            let down: i64 = distance_between_nodes(out_here, inn_next);
            let right: i64 = distance_between_nodes(inn_here, out_next);
            row.push((down as u64, right as u64));
            col_i += 1;
        }
        ret.push(row);
        row_i += 1;
    }
    ret
}

/// The tables after the first `k` cells of `path` have been recorded: each
/// cell pairs the inner vertex of its row with the outer vertex of its column.
pub open spec fn tables_along(
    outer: Seq<Node>,
    inner: Seq<Node>,
    path: Seq<RowCol>,
    k: nat,
) -> (Map<usize, Seq<Correspondent>>, Map<usize, Seq<Correspondent>>)
    decreases k,
{
    if k == 0 {
        (Map::empty(), Map::empty())
    } else {
        let before = tables_along(outer, inner, path, (k - 1) as nat);
        let cell = path[k - 1];
        (
            table_put(before.0, cell.1, entry_of(inner[cell.0 as int])),
            table_put(before.1, cell.0, entry_of(outer[cell.1 as int])),
        )
    }
}

/// `s` holds the pairs of a cheapest path through the grid of costs between
/// the two boundaries.
pub open spec fn is_dijkstra_stitching(s: Stitching, outer: Seq<Node>, inner: Seq<Node>) -> bool {
    exists|grid: Grid, path: Seq<RowCol>|
        #![trigger is_cheapest_path(grid, path)]
        is_cost_grid(grid, outer, inner) && is_cheapest_path(grid, path) && (
            s.outer_table(),
            s.inner_table(),
        ) == tables_along(outer, inner, path, path.len())
}

/// A cheapest path through the grid of costs between the two boundaries.
fn give_me_a_path(outer: &Graph, inner: &Graph) -> (r: (Vec<RowCol>, Ghost<Grid>))
    requires
        outer.wf(),
        inner.wf(),
        outer.nodes@.len() + inner.nodes@.len() <= GRID_MAX,
    ensures
        is_cost_grid(r.1@, outer.nodes@, inner.nodes@),
        grid_ok(r.1@),
        is_cheapest_path(r.1@, r.0@),
{
    let mat: Vec<Vec<(u64, u64)>> = make_matrix(outer, inner);
    let result: Option<(Vec<RowCol>, u64)> = cheapest_path(&mat);
    proof {
        lemma_border_path(mat@);
    }
    (result.unwrap().0, Ghost(mat@))
}

/// Aligns the two boundaries along a cheapest path through the grid of costs
/// between them.
pub fn stitch(outer: &Graph, inner: &Graph) -> (ret: Stitching)
    requires
        outer.wf(),
        inner.wf(),
        outer.nodes@.len() + inner.nodes@.len() <= GRID_MAX,
    ensures
        ret.wf(),
        is_dijkstra_stitching(ret, outer.nodes@, inner.nodes@),
        covers_all(ret, outer.nodes@.len(), inner.nodes@.len()),
{
    let (shortest_path, Ghost(grid)) = give_me_a_path(outer, inner);
    let mut ret: Stitching = Stitching::new();
    let ghost path = shortest_path@;
    let ghost on = outer.nodes@;
    let ghost inn = inner.nodes@;
    proof {
        lemma_path_length(grid, path);
    }
    let mut k: usize = 0;
    while k < shortest_path.len()
        invariant
            outer.wf(),
            inner.wf(),
            on == outer.nodes@,
            inn == inner.nodes@,
            path == shortest_path@,
            grid_ok(grid),
            is_cost_grid(grid, on, inn),
            is_grid_path(grid, path),
            path.len() <= GRID_MAX,
            k <= path.len(),
            ret.wf(),
            ret.count_from_outer() <= k,
            (ret.outer_table(), ret.inner_table()) == tables_along(on, inn, path, k as nat),
            forall|j: int| 0 <= j < k ==> ret.covers_inner(#[trigger] path[j].0),
            forall|j: int| 0 <= j < k ==> ret.covers_outer(#[trigger] path[j].1),
        decreases path.len() - k,
    {
        let row: usize = shortest_path[k].0;
        let col: usize = shortest_path[k].1;
        let ghost before = ret;
        proof {
            lemma_path_position(grid, path, k as int);
            assert(grid[row as int]@.len() == cols(grid));
            assert(node_in_window(inn[row as int]));
            assert(node_in_window(on[col as int]));
            assert(link_ok(inn, row as int));
            assert(link_ok(on, col as int));
        }
        ret.put(
            (row, inner.nodes[row].x, inner.nodes[row].y),
            (col, outer.nodes[col].x, outer.nodes[col].y),
        );
        proof {
            assert forall|j: int| 0 <= j < k + 1 implies ret.covers_inner(#[trigger] path[j].0) by {
                if j < k {
                    assert(before.covers_inner(path[j].0));
                }
            }
            assert forall|j: int| 0 <= j < k + 1 implies ret.covers_outer(#[trigger] path[j].1) by {
                if j < k {
                    assert(before.covers_outer(path[j].1));
                }
            }
        }
        k += 1;
    }
    proof {
        let last = path.len() - 1;
        assert forall|o: usize| o < on.len() implies #[trigger] ret.covers_outer(o) by {
            lemma_path_meets_upto(grid, path, last, 0, o as int);
            let j = choose|j: int| 0 <= j <= last && (#[trigger] path[j]).1 == o;
            assert(ret.covers_outer(path[j].1));
        }
        assert forall|i: usize| i < inn.len() implies #[trigger] ret.covers_inner(i) by {
            lemma_path_meets_upto(grid, path, last, i as int, 0);
            let j = choose|j: int| 0 <= j <= last && (#[trigger] path[j]).0 == i;
            assert(ret.covers_inner(path[j].0));
        }
    }
    ret
}

/// The tables along a path that stays inside the grid are mirrored, and
/// cover the row and the column of every cell recorded.
proof fn lemma_tables_along_mirror(outer: Seq<Node>, inner: Seq<Node>, path: Seq<RowCol>, k: nat)
    requires
        ring_wf(outer),
        ring_wf(inner),
        k <= path.len(),
        forall|j: int|
            0 <= j < path.len() ==> (#[trigger] path[j]).0 < inner.len() && path[j].1
                < outer.len(),
    ensures
        tables_mirror(
            tables_along(outer, inner, path, k).0,
            tables_along(outer, inner, path, k).1,
        ),
        forall|j: int|
            0 <= j < k ==> table_covers(
                tables_along(outer, inner, path, k).0,
                (#[trigger] path[j]).1,
            ) && table_covers(tables_along(outer, inner, path, k).1, path[j].0),
    decreases k,
{
    if k == 0 {
        lemma_empty_tables_mirror();
    } else {
        lemma_tables_along_mirror(outer, inner, path, (k - 1) as nat);
        let before = tables_along(outer, inner, path, (k - 1) as nat);
        let cell = path[k - 1];
        assert(link_ok(inner, cell.0 as int));
        assert(link_ok(outer, cell.1 as int));
        lemma_put_mirrors(
            before.0,
            before.1,
            entry_of(inner[cell.0 as int]),
            entry_of(outer[cell.1 as int]),
        );
        let after = tables_along(outer, inner, path, k);
        assert forall|j: int| 0 <= j < k implies table_covers(after.0, (#[trigger] path[j]).1)
            && table_covers(after.1, path[j].0) by {
            if j < k - 1 {
                assert(table_covers(before.0, path[j].1));
                assert(table_covers(before.1, path[j].0));
            }
        }
    }
}

/// Whatever the size of the boundaries: the correspondence along a cheapest
/// path gives every outer vertex and every inner vertex at least one
/// correspondent, lists `i` under `o` exactly where it lists `o` under `i`,
/// and counts as many pairs from its outer table as from its inner one.
pub proof fn lemma_dijkstra_stitching_covers(s: Stitching, outer: Seq<Node>, inner: Seq<Node>)
    requires
        ring_wf(outer),
        ring_wf(inner),
        is_dijkstra_stitching(s, outer, inner),
    ensures
        covers_all(s, outer.len(), inner.len()),
        s.mirrored(),
        s.count_from_outer() == s.count_from_inner(),
{
    let (grid, path) = choose|grid: Grid, path: Seq<RowCol>|
        #![trigger is_cheapest_path(grid, path)]
        is_cost_grid(grid, outer, inner) && is_cheapest_path(grid, path) && (
            s.outer_table(),
            s.inner_table(),
        ) == tables_along(outer, inner, path, path.len());
    assert(grid[0]@.len() == outer.len());
    assert(has_cells(grid));
    assert forall|j: int| 0 <= j < path.len() implies (#[trigger] path[j]).0 < inner.len()
        && path[j].1 < outer.len() by {
        lemma_path_position(grid, path, j);
    }
    lemma_tables_along_mirror(outer, inner, path, path.len());
    let last = path.len() - 1;
    assert forall|o: usize| o < outer.len() implies #[trigger] s.covers_outer(o) by {
        lemma_path_meets_upto(grid, path, last, 0, o as int);
        let j = choose|j: int| 0 <= j <= last && (#[trigger] path[j]).1 == o;
        assert(table_covers(s.outer_table(), path[j].1));
    }
    assert forall|i: usize| i < inner.len() implies #[trigger] s.covers_inner(i) by {
        lemma_path_meets_upto(grid, path, last, i as int, 0);
        let j = choose|j: int| 0 <= j <= last && (#[trigger] path[j]).0 == i;
        assert(table_covers(s.inner_table(), path[j].0));
    }
    assert forall|o: usize, i: usize|
        #![trigger s.linked(o, i)]
        #![trigger s.linked_back(o, i)]
        s.linked(o, i) <==> s.linked_back(o, i) by {
        assert(table_pairs(s.outer_table()).contains((o, i)) <==> table_pairs(
            s.inner_table(),
        ).contains((i, o)));
    }
}

} // verus!
