//! The next generation of a grid, cell by cell.
//!
//! A grid is modelled as a sequence of rows of equal, positive length. Its
//! next generation is the grid of the same shape in which every cell holds
//! what the transition rule gives for the cell's state and the number of live
//! cells among its eight wrap-around neighbours.

use crate::addressing::{get_neighbors, lemma_neighbors_in_range, lemma_wrap_step, neighbor, wrap};
use crate::rule::{next_state, next_state_of};
use vstd::prelude::*;

verus! {

/// The number of rows of a grid.
pub open spec fn height_of(cells: Seq<Seq<bool>>) -> int {
    cells.len() as int
}

/// The number of columns of a grid: the length of its first row.
pub open spec fn width_of(cells: Seq<Seq<bool>>) -> int {
    if cells.len() == 0 {
        0
    } else {
        cells[0].len() as int
    }
}

/// A grid has at least one row and one column, and all its rows are equally
/// long.
pub open spec fn is_grid(cells: Seq<Seq<bool>>) -> bool {
    &&& height_of(cells) >= 1
    &&& width_of(cells) >= 1
    &&& forall|y: int| 0 <= y < cells.len() ==> (#[trigger] cells[y]).len() == width_of(cells)
}

/// Whether the `k`-th neighbour of cell `(x, y)` is alive.
pub open spec fn neighbor_alive(cells: Seq<Seq<bool>>, x: int, y: int, k: int) -> bool {
    let n = neighbor(x, y, width_of(cells), height_of(cells), k);
    cells[n.1][n.0]
}

/// How many of the first `k` neighbours of cell `(x, y)` are alive. A cell
/// that is reached through several offsets, as on a grid one or two cells
/// wide, counts once for each.
pub open spec fn live_among(cells: Seq<Seq<bool>>, x: int, y: int, k: int) -> nat
    decreases k,
{
    if k <= 0 {
        0
    } else {
        live_among(cells, x, y, k - 1) + if neighbor_alive(cells, x, y, k - 1) {
            1nat
        } else {
            0nat
        }
    }
}

/// The live-neighbour count of cell `(x, y)`.
pub open spec fn live_neighbors(cells: Seq<Seq<bool>>, x: int, y: int) -> nat {
    live_among(cells, x, y, 8)
}

/// The state of cell `(x, y)` in the next generation.
pub open spec fn next_cell(cells: Seq<Seq<bool>>, x: int, y: int) -> bool {
    next_state_of(cells[y][x], live_neighbors(cells, x, y))
}

/// Row `y` of the next generation.
pub open spec fn next_row(cells: Seq<Seq<bool>>, y: int) -> Seq<bool> {
    Seq::new(width_of(cells) as nat, |x: int| next_cell(cells, x, y))
}

/// The next generation of a grid.
pub open spec fn next_generation(cells: Seq<Seq<bool>>) -> Seq<Seq<bool>> {
    Seq::new(height_of(cells) as nat, |y: int| next_row(cells, y))
}

/// A cell never has more than eight live neighbours.
pub proof fn lemma_live_among_bound(cells: Seq<Seq<bool>>, x: int, y: int, k: int)
    requires
        0 <= k,
    ensures
        live_among(cells, x, y, k) <= k,
    decreases k,
{
    if k > 0 {
        lemma_live_among_bound(cells, x, y, k - 1);
    }
}

/// The grid of `width` columns and `height` rows whose cells are all in the
/// same state.
pub open spec fn filled(width: int, height: int, alive: bool) -> Seq<Seq<bool>> {
    Seq::new(height as nat, |y: int| Seq::new(width as nat, |x: int| alive))
}

/// The grid with cell `(x, y)` set to `alive` and all others as they are.
pub open spec fn with_cell(cells: Seq<Seq<bool>>, x: int, y: int, alive: bool) -> Seq<Seq<bool>> {
    cells.update(y, cells[y].update(x, alive))
}

/// The grid after `steps` generations.
pub open spec fn generations(cells: Seq<Seq<bool>>, steps: nat) -> Seq<Seq<bool>>
    decreases steps,
{
    if steps == 0 {
        cells
    } else {
        next_generation(generations(cells, (steps - 1) as nat))
    }
}

/// Whether no cell of the grid is alive.
pub open spec fn all_dead(cells: Seq<Seq<bool>>) -> bool {
    forall|x: int, y: int|
        0 <= y < height_of(cells) && 0 <= x < width_of(cells) ==> !(#[trigger] cells[y][x])
}

/// The next generation of a grid is a grid of the same width and height.
pub proof fn lemma_next_generation_is_grid(cells: Seq<Seq<bool>>)
    requires
        is_grid(cells),
    ensures
        is_grid(next_generation(cells)),
        width_of(next_generation(cells)) == width_of(cells),
        height_of(next_generation(cells)) == height_of(cells),
{
    let next = next_generation(cells);
    assert(next[0].len() == width_of(cells));
    assert forall|y: int| 0 <= y < next.len() implies (#[trigger] next[y]).len() == width_of(
        next,
    ) by {}
}

/// Underpopulation: a live cell with fewer than two live neighbours dies.
pub proof fn lemma_underpopulation(cells: Seq<Seq<bool>>, x: int, y: int)
    requires
        cells[y][x],
        live_neighbors(cells, x, y) < 2,
    ensures
        !next_cell(cells, x, y),
{
}

/// Survival: a live cell with two or three live neighbours lives on.
pub proof fn lemma_survival(cells: Seq<Seq<bool>>, x: int, y: int)
    requires
        cells[y][x],
        live_neighbors(cells, x, y) == 2 || live_neighbors(cells, x, y) == 3,
    ensures
        next_cell(cells, x, y),
{
}

/// Overpopulation: a live cell with four or more live neighbours dies.
pub proof fn lemma_overpopulation(cells: Seq<Seq<bool>>, x: int, y: int)
    requires
        cells[y][x],
        live_neighbors(cells, x, y) >= 4,
    ensures
        !next_cell(cells, x, y),
{
}

/// Birth: a dead cell comes alive exactly when three of its neighbours are
/// alive.
pub proof fn lemma_birth(cells: Seq<Seq<bool>>, x: int, y: int)
    requires
        !cells[y][x],
    ensures
        next_cell(cells, x, y) <==> live_neighbors(cells, x, y) == 3,
{
}

/// On a grid without live cells no cell has a live neighbour.
pub proof fn lemma_no_live_among_dead(cells: Seq<Seq<bool>>, x: int, y: int, k: int)
    requires
        is_grid(cells),
        all_dead(cells),
        0 <= k <= 8,
    ensures
        live_among(cells, x, y, k) == 0,
    decreases k,
{
    if k > 0 {
        lemma_no_live_among_dead(cells, x, y, k - 1);
        lemma_neighbors_in_range(x, y, width_of(cells), height_of(cells));
        let n = neighbor(x, y, width_of(cells), height_of(cells), k - 1);
        assert(!cells[n.1][n.0]);
    }
}

/// A grid without live cells stays as it is, generation after generation.
pub proof fn lemma_dead_grid_stays_dead(cells: Seq<Seq<bool>>, steps: nat)
    requires
        is_grid(cells),
        all_dead(cells),
    ensures
        generations(cells, steps) == cells,
    decreases steps,
{
    if steps > 0 {
        lemma_dead_grid_stays_dead(cells, (steps - 1) as nat);
        let next = next_generation(cells);
        assert forall|y: int| 0 <= y < cells.len() implies #[trigger] next[y] == cells[y] by {
            assert forall|x: int| 0 <= x < width_of(cells) implies next[y][x] == cells[y][x] by {
                lemma_no_live_among_dead(cells, x, y, 8);
                assert(!cells[y][x]);
            }
            assert(next[y] =~= cells[y]);
        }
        assert(next =~= cells);
    }
}

/// Whether the live cells of the grid are exactly the four of the block of
/// two by two cells whose first corner is `(x0, y0)`; the block goes on
/// across the edges of the grid.
pub open spec fn is_block_at(cells: Seq<Seq<bool>>, x0: int, y0: int) -> bool {
    let x1 = wrap(x0 + 1, width_of(cells));
    let y1 = wrap(y0 + 1, height_of(cells));
    forall|x: int, y: int|
        0 <= x < width_of(cells) && 0 <= y < height_of(cells) ==> (#[trigger] cells[y][x] <==> (x
            == x0 || x == x1) && (y == y0 || y == y1))
}

/// A block of two by two live cells on an otherwise dead grid of at least
/// four columns and four rows is a still life: the next generation is the
/// same grid.
pub proof fn lemma_block_is_still(cells: Seq<Seq<bool>>, x0: int, y0: int)
    requires
        is_grid(cells),
        width_of(cells) >= 4,
        height_of(cells) >= 4,
        0 <= x0 < width_of(cells),
        0 <= y0 < height_of(cells),
        is_block_at(cells, x0, y0),
    ensures
        next_generation(cells) == cells,
{
    let next = next_generation(cells);
    assert forall|y: int| 0 <= y < cells.len() implies #[trigger] next[y] == cells[y] by {
        assert forall|x: int| 0 <= x < width_of(cells) implies next[y][x] == cells[y][x] by {
            lemma_block_cell_is_still(cells, x0, y0, x, y);
        }
        assert(next[y] =~= cells[y]);
    }
    assert(next =~= cells);
}

/// Each cell of a grid that holds one block keeps its state.
proof fn lemma_block_cell_is_still(cells: Seq<Seq<bool>>, x0: int, y0: int, x: int, y: int)
    requires
        is_grid(cells),
        width_of(cells) >= 4,
        height_of(cells) >= 4,
        0 <= x0 < width_of(cells),
        0 <= y0 < height_of(cells),
        is_block_at(cells, x0, y0),
        0 <= x < width_of(cells),
        0 <= y < height_of(cells),
    ensures
        next_cell(cells, x, y) == cells[y][x],
{
    let width = width_of(cells);
    let height = height_of(cells);
    lemma_wrap_step(x0, width);
    lemma_wrap_step(y0, height);
    lemma_wrap_step(x, width);
    lemma_wrap_step(y, height);
    let right = wrap(x + 1, width);
    let left = wrap(x - 1, width);
    let below = wrap(y + 1, height);
    let above = wrap(y - 1, height);
    assert(neighbor(x, y, width, height, 0) == (right, y));
    assert(neighbor(x, y, width, height, 1) == (left, y));
    assert(neighbor(x, y, width, height, 2) == (x, below));
    assert(neighbor(x, y, width, height, 3) == (x, above));
    assert(neighbor(x, y, width, height, 4) == (right, below));
    assert(neighbor(x, y, width, height, 5) == (left, below));
    assert(neighbor(x, y, width, height, 6) == (right, above));
    assert(neighbor(x, y, width, height, 7) == (left, above));
    assert(cells[y][right] == neighbor_alive(cells, x, y, 0));
    assert(cells[y][left] == neighbor_alive(cells, x, y, 1));
    assert(cells[below][x] == neighbor_alive(cells, x, y, 2));
    assert(cells[above][x] == neighbor_alive(cells, x, y, 3));
    assert(cells[below][right] == neighbor_alive(cells, x, y, 4));
    assert(cells[below][left] == neighbor_alive(cells, x, y, 5));
    assert(cells[above][right] == neighbor_alive(cells, x, y, 6));
    assert(cells[above][left] == neighbor_alive(cells, x, y, 7));
    reveal_with_fuel(live_among, 9);
}

/// The model of a vector of rows holds, row by row, what the vectors hold.
pub proof fn lemma_cells_of_rows(values: &Vec<Vec<bool>>)
    ensures
        values.deep_view().len() == values@.len(),
        forall|y: int|
            0 <= y < values@.len() ==> values.deep_view()[y] == (#[trigger] values@[y])@,
{
    assert forall|y: int| 0 <= y < values@.len() implies values.deep_view()[y] == (
    #[trigger] values@[y])@ by {
        assert(values.deep_view()[y] =~= values@[y]@);
    }
}

/// The state of the cell at `idx` in the next generation of `values`, a grid
/// of `dimensions[0]` columns and `dimensions[1]` rows.
pub fn is_alive(values: &Vec<Vec<bool>>, idx: &(usize, usize), dimensions: &[usize; 2]) -> (alive:
    bool)
    requires
        is_grid(values.deep_view()),
        dimensions[0] == width_of(values.deep_view()),
        dimensions[1] == height_of(values.deep_view()),
        dimensions[0] <= isize::MAX,
        dimensions[1] <= isize::MAX,
        idx.0 < dimensions[0],
        idx.1 < dimensions[1],
    ensures
        alive == next_cell(values.deep_view(), idx.0 as int, idx.1 as int),
{
    let ghost cells = values.deep_view();
    let ghost x = idx.0 as int;
    let ghost y = idx.1 as int;
    let neighbors = get_neighbors(idx, dimensions);
    proof {
        lemma_cells_of_rows(values);
    }
    let mut live: usize = 0;
    let mut k: usize = 0;
    while k < 8
        invariant
            k <= 8,
            cells == values.deep_view(),
            is_grid(cells),
            dimensions[0] == width_of(cells),
            dimensions[1] == height_of(cells),
            x == idx.0,
            y == idx.1,
            neighbors@.len() == 8,
            forall|j: int|
                0 <= j < 8 ==> {
                    &&& (#[trigger] neighbors@[j]).0 == neighbor(
                        x,
                        y,
                        dimensions[0] as int,
                        dimensions[1] as int,
                        j,
                    ).0
                    &&& neighbors@[j].1 == neighbor(
                        x,
                        y,
                        dimensions[0] as int,
                        dimensions[1] as int,
                        j,
                    ).1
                    &&& neighbors@[j].0 < dimensions[0]
                    &&& neighbors@[j].1 < dimensions[1]
                },
            forall|j: int| 0 <= j < values@.len() ==> cells[j] == (#[trigger] values@[j])@,
            live == live_among(cells, x, y, k as int),
            live <= k,
        decreases 8 - k,
    {
        let n = neighbors[k];
        if values[n.1][n.0] {
            live += 1;
        }
        k += 1;
    }
    next_state(values[idx.1][idx.0], live)
}

} // verus!
