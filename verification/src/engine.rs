//! The step engine: one generation is computed block by block and put
//! together again in the order of the blocks.
//!
//! [`plan`] divides the rows, [`compute_block`] is the work of one worker,
//! and [`assemble`] restores the order of the blocks, in whatever order the
//! results came in, and joins their rows. [`step`] runs the three in sequence.
//! A caller with real workers hands each of them one block and one call of
//! [`compute_block`], and gives what they deliver to [`assemble`].

use crate::generation::{
    height_of, is_alive, is_grid, lemma_cells_of_rows, lemma_next_generation_is_grid, next_cell,
    next_generation, next_row, width_of,
};
use crate::partition::{
    block_end, block_start, is_plan, lemma_plan_covers, plan, Block,
};
use vstd::pervasive::unreached;
use vstd::prelude::*;

verus! {

/// What one worker delivers: the rows of the next generation that lie in its
/// block, top to bottom, and the index of that block.
#[derive(Clone, Debug)]
pub struct PartialResult {
    pub block_index: usize,
    pub rows: Vec<Vec<bool>>,
}

/// Whether `cells` is a grid of `dimensions[0]` columns and `dimensions[1]`
/// rows whose dimensions can be offset in `isize`.
pub open spec fn grid_with(cells: Seq<Seq<bool>>, dimensions: [usize; 2]) -> bool {
    &&& is_grid(cells)
    &&& dimensions[0] == width_of(cells)
    &&& dimensions[1] == height_of(cells)
    &&& dimensions[0] <= isize::MAX
    &&& dimensions[1] <= isize::MAX
}

/// Whether position `j` holds the first result in `partials` for block `i`.
pub open spec fn is_position_of(partials: Seq<PartialResult>, i: int, j: int) -> bool {
    &&& 0 <= j < partials.len()
    &&& partials[j].block_index == i
    &&& forall|e: int| 0 <= e < j ==> (#[trigger] partials[e]).block_index != i
}

/// Whether a result for block `i` is among `partials`.
pub open spec fn delivered(partials: Seq<PartialResult>, i: int) -> bool {
    exists|j: int| is_position_of(partials, i, j)
}

/// The position of the first result for block `i`.
pub open spec fn position_of(partials: Seq<PartialResult>, i: int) -> int {
    choose|j: int| is_position_of(partials, i, j)
}

/// Whether `partials` holds a result for each block index below its length,
/// that is, one result for each of as many blocks as there are results.
pub open spec fn is_complete(partials: Seq<PartialResult>) -> bool {
    forall|i: int| 0 <= i < partials.len() ==> #[trigger] delivered(partials, i)
}

/// The rows of blocks `0` to `n - 1`, joined in the order of the block index.
pub open spec fn rows_in_order(partials: Seq<PartialResult>, n: int) -> Seq<Seq<bool>>
    decreases n,
{
    if n <= 0 {
        Seq::empty()
    } else {
        rows_in_order(partials, n - 1) + partials[position_of(partials, n - 1)].rows.deep_view()
    }
}

/// The rows of all blocks, joined in the order of the block index.
pub open spec fn assembled(partials: Seq<PartialResult>) -> Seq<Seq<bool>> {
    rows_in_order(partials, partials.len() as int)
}

/// The rows that the worker of block `i` owes: rows `block_start` to
/// `block_end` of the next generation.
pub open spec fn rows_of_block(cells: Seq<Seq<bool>>, worker_count: int, i: int) -> Seq<
    Seq<bool>,
> {
    next_generation(cells).subrange(
        block_start(height_of(cells), worker_count, i),
        block_end(height_of(cells), worker_count, i),
    )
}

/// The rows owed for blocks `0` to `n - 1`, joined in that order.
pub open spec fn blocks_joined(cells: Seq<Seq<bool>>, worker_count: int, n: int) -> Seq<
    Seq<bool>,
>
    decreases n,
{
    if n <= 0 {
        Seq::empty()
    } else {
        blocks_joined(cells, worker_count, n - 1) + rows_of_block(cells, worker_count, n - 1)
    }
}

/// What a step with `worker_count` workers produces: the rows owed for each
/// block of the plan, joined in the order of the blocks.
pub open spec fn stepped(cells: Seq<Seq<bool>>, worker_count: int) -> Seq<Seq<bool>> {
    blocks_joined(cells, worker_count, worker_count)
}

/// The first position that holds a result for a block is the only such first
/// position.
pub proof fn lemma_position_found(partials: Seq<PartialResult>, i: int, j: int)
    requires
        is_position_of(partials, i, j),
    ensures
        delivered(partials, i),
        position_of(partials, i) == j,
{
    let chosen = position_of(partials, i);
    assert(is_position_of(partials, i, chosen));
    if chosen < j {
        assert(partials[chosen].block_index != i);
    } else if j < chosen {
        assert(partials[j].block_index != i);
    }
}

/// The first `n` blocks of a plan, joined, are the first rows of the next
/// generation, up to where block `n - 1` ends.
pub proof fn lemma_blocks_joined(cells: Seq<Seq<bool>>, worker_count: int, n: int)
    requires
        is_grid(cells),
        1 <= worker_count,
        0 <= n <= worker_count,
    ensures
        n == 0 ==> blocks_joined(cells, worker_count, n) == Seq::<Seq<bool>>::empty(),
        n > 0 ==> blocks_joined(cells, worker_count, n) == next_generation(cells).subrange(
            0,
            block_end(height_of(cells), worker_count, n - 1),
        ),
    decreases n,
{
    let height = height_of(cells);
    let next = next_generation(cells);
    lemma_plan_covers(height, worker_count);
    if n > 0 {
        lemma_blocks_joined(cells, worker_count, n - 1);
        let start = block_start(height, worker_count, n - 1);
        let end = block_end(height, worker_count, n - 1);
        assert(0 <= start <= end <= height);
        if n == 1 {
            assert(start == 0);
            assert(blocks_joined(cells, worker_count, 0) == Seq::<Seq<bool>>::empty());
            assert(blocks_joined(cells, worker_count, n) =~= next.subrange(0, end));
        } else {
            assert(block_end(height, worker_count, n - 2) == start);
            assert(next.subrange(0, start) + next.subrange(start, end) =~= next.subrange(0, end));
        }
    }
}

/// Partitioning does not change the result: with any number of workers a
/// step produces the next generation, and so the same grid as with one.
pub proof fn lemma_step_independent_of_worker_count(cells: Seq<Seq<bool>>, worker_count: int)
    requires
        is_grid(cells),
        1 <= worker_count,
    ensures
        stepped(cells, worker_count) == next_generation(cells),
        stepped(cells, worker_count) == stepped(cells, 1),
{
    lemma_blocks_joined(cells, worker_count, worker_count);
    lemma_blocks_joined(cells, 1, 1);
    let next = next_generation(cells);
    assert(next.subrange(0, height_of(cells)) =~= next);
}

/// A step is a function of the grid and the number of workers: whatever two
/// runs on the same grid with the same number of workers give is the same
/// grid.
pub proof fn lemma_step_deterministic(
    cells: Seq<Seq<bool>>,
    worker_count: int,
    first: Seq<Seq<bool>>,
    second: Seq<Seq<bool>>,
)
    requires
        first == stepped(cells, worker_count),
        second == stepped(cells, worker_count),
    ensures
        first == second,
{
}

/// A step keeps the dimensions of the grid: the next generation is a grid of
/// the same width and height.
pub proof fn lemma_step_keeps_dimensions(cells: Seq<Seq<bool>>, worker_count: int)
    requires
        is_grid(cells),
        1 <= worker_count,
    ensures
        is_grid(stepped(cells, worker_count)),
        width_of(stepped(cells, worker_count)) == width_of(cells),
        height_of(stepped(cells, worker_count)) == height_of(cells),
{
    lemma_step_independent_of_worker_count(cells, worker_count);
    lemma_next_generation_is_grid(cells);
}

/// Tells whether `values` is a grid of `dimensions[0]` columns and
/// `dimensions[1]` rows that the engine can work on.
pub fn check_grid(values: &Vec<Vec<bool>>, dimensions: &[usize; 2]) -> (ok: bool)
    ensures
        ok == grid_with(values.deep_view(), *dimensions),
{
    proof {
        lemma_cells_of_rows(values);
    }
    let limit: usize = isize::MAX as usize;
    if dimensions[0] == 0 || dimensions[1] == 0 || dimensions[0] > limit || dimensions[1]
        > limit || values.len() != dimensions[1] {
        return false;
    }
    let mut y: usize = 0;
    while y < values.len()
        invariant
            y <= values@.len(),
            values@.len() >= 1,
            values.deep_view().len() == values@.len(),
            forall|r: int|
                0 <= r < values@.len() ==> values.deep_view()[r] == (#[trigger] values@[r])@,
            forall|r: int| 0 <= r < y ==> (#[trigger] values@[r])@.len() == dimensions[0],
        decreases values@.len() - y,
    {
        if values[y].len() != dimensions[0] {
            assert(values.deep_view()[y as int].len() != dimensions[0]);
            return false;
        }
        y += 1;
    }
    assert(values.deep_view()[0] == values@[0]@);
    true
}

/// Row `y` of the next generation of `values`.
fn compute_row(values: &Vec<Vec<bool>>, y: usize, dimensions: &[usize; 2]) -> (row: Vec<bool>)
    requires
        grid_with(values.deep_view(), *dimensions),
        y < dimensions[1],
    ensures
        row@ == next_row(values.deep_view(), y as int),
{
    let ghost cells = values.deep_view();
    let mut row: Vec<bool> = Vec::new();
    let mut x: usize = 0;
    while x < dimensions[0]
        invariant
            cells == values.deep_view(),
            grid_with(cells, *dimensions),
            y < dimensions[1],
            x <= dimensions[0],
            row@.len() == x,
            forall|c: int| 0 <= c < x ==> #[trigger] row@[c] == next_cell(cells, c, y as int),
        decreases dimensions[0] - x,
    {
        row.push(is_alive(values, &(x, y), dimensions));
        x += 1;
    }
    assert(row@ =~= next_row(cells, y as int));
    row
}

/// The work of one worker: the rows of `block` in the next generation of
/// `values`, a grid of `dimensions[0]` columns and `dimensions[1]` rows. An
/// empty block gives no rows.
pub fn compute_block(values: &Vec<Vec<bool>>, dimensions: &[usize; 2], block: &Block) -> (partial:
    PartialResult)
    requires
        grid_with(values.deep_view(), *dimensions),
        block.row_start <= block.row_end_exclusive <= dimensions[1],
    ensures
        partial.block_index == block.index,
        partial.rows.deep_view() == next_generation(values.deep_view()).subrange(
            block.row_start as int,
            block.row_end_exclusive as int,
        ),
{
    let ghost cells = values.deep_view();
    let mut data: Vec<Vec<bool>> = Vec::new();
    let mut y: usize = block.row_start;
    while y < block.row_end_exclusive
        invariant
            cells == values.deep_view(),
            grid_with(cells, *dimensions),
            block.row_start <= y <= block.row_end_exclusive <= dimensions[1],
            data@.len() == y - block.row_start,
            forall|r: int|
                0 <= r < data@.len() ==> (#[trigger] data@[r])@ == next_row(
                    cells,
                    block.row_start + r,
                ),
        decreases block.row_end_exclusive - y,
    {
        data.push(compute_row(values, y, dimensions));
        y += 1;
    }
    proof {
        lemma_cells_of_rows(&data);
        assert(data.deep_view() =~= next_generation(cells).subrange(
            block.row_start as int,
            block.row_end_exclusive as int,
        ));
    }
    PartialResult { block_index: block.index, rows: data }
}

/// Joins the rows of `partials` in the order of their block indices, in
/// whatever order the results stand.
///
/// The results must be one for each of the blocks `0` to `partials.len() - 1`.
/// Where a block has none, the generation cannot be put together, and the
/// answer is `None`.
pub fn assemble(partials: &Vec<PartialResult>) -> (joined: Option<Vec<Vec<bool>>>)
    ensures
        joined is Some <==> is_complete(partials@),
        joined matches Some(rows) ==> rows.deep_view() == assembled(partials@),
{
    let count: usize = partials.len();
    let mut rows: Vec<Vec<bool>> = Vec::new();
    let mut i: usize = 0;
    while i < count
        invariant
            count == partials@.len(),
            i <= count,
            forall|b: int| 0 <= b < i ==> #[trigger] delivered(partials@, b),
            rows.deep_view() == rows_in_order(partials@, i as int),
        decreases count - i,
    {
        let mut j: usize = 0;
        while j < count && partials[j].block_index != i
            invariant
                count == partials@.len(),
                j <= count,
                forall|e: int| 0 <= e < j ==> (#[trigger] partials@[e]).block_index != i,
            decreases count - j,
        {
            j += 1;
        }
        if j == count {
            proof {
                if delivered(partials@, i as int) {
                    let found = position_of(partials@, i as int);
                    assert(partials@[found].block_index == i);
                }
                assert(!is_complete(partials@));
            }
            return None;
        }
        proof {
            lemma_position_found(partials@, i as int, j as int);
        }
        let part: &Vec<Vec<bool>> = &partials[j].rows;
        let ghost before = rows.deep_view();
        let mut r: usize = 0;
        while r < part.len()
            invariant
                r <= part@.len(),
                rows.deep_view() == before + part.deep_view().subrange(0, r as int),
            decreases part@.len() - r,
        {
            let ghost old_rows = rows.deep_view();
            let row: Vec<bool> = part[r].clone();
            rows.push(row);
            proof {
                lemma_cells_of_rows(&rows);
                lemma_cells_of_rows(part);
                assert(rows.deep_view() =~= old_rows.push(part.deep_view()[r as int]));
                assert(before + part.deep_view().subrange(0, r as int + 1) =~= (before
                    + part.deep_view().subrange(0, r as int)).push(part.deep_view()[r as int]));
            }
            r += 1;
        }
        proof {
            assert(part.deep_view().subrange(0, part@.len() as int) =~= part.deep_view());
        }
        i += 1;
    }
    Some(rows)
}

/// Whether each result holds the rows that are owed for the block whose
/// index it bears, in a step of `cells` with `worker_count` workers.
pub open spec fn all_as_owed(partials: Seq<PartialResult>, cells: Seq<Seq<bool>>, worker_count: int)
    -> bool {
    forall|j: int|
        0 <= j < partials.len() ==> (#[trigger] partials[j]).rows.deep_view() == rows_of_block(
            cells,
            worker_count,
            partials[j].block_index as int,
        )
}

/// The rows of the first `n` blocks, taken from results that hold what is
/// owed, are the rows owed for these blocks, wherever the results stand.
proof fn lemma_rows_in_order(
    partials: Seq<PartialResult>,
    cells: Seq<Seq<bool>>,
    worker_count: int,
    n: int,
)
    requires
        0 <= n <= partials.len(),
        is_complete(partials),
        all_as_owed(partials, cells, worker_count),
    ensures
        rows_in_order(partials, n) == blocks_joined(cells, worker_count, n),
    decreases n,
{
    if n > 0 {
        lemma_rows_in_order(partials, cells, worker_count, n - 1);
        assert(delivered(partials, n - 1));
        let position = position_of(partials, n - 1);
        assert(is_position_of(partials, n - 1, position));
    }
}

/// The order in which the workers deliver does not matter: where each of the
/// blocks has its result, and each result holds what is owed, what is
/// assembled is the next generation.
pub proof fn lemma_assembled_in_any_order(
    partials: Seq<PartialResult>,
    cells: Seq<Seq<bool>>,
    worker_count: int,
)
    requires
        is_grid(cells),
        1 <= worker_count,
        partials.len() == worker_count,
        is_complete(partials),
        all_as_owed(partials, cells, worker_count),
    ensures
        assembled(partials) == next_generation(cells),
{
    lemma_rows_in_order(partials, cells, worker_count, worker_count);
    lemma_step_independent_of_worker_count(cells, worker_count);
}

/// Results that stand in the order of their blocks are complete.
proof fn lemma_ordered_is_complete(partials: Seq<PartialResult>)
    requires
        forall|j: int| 0 <= j < partials.len() ==> (#[trigger] partials[j]).block_index == j,
    ensures
        is_complete(partials),
{
    assert forall|i: int| 0 <= i < partials.len() implies #[trigger] delivered(partials, i) by {
        assert(is_position_of(partials, i, i));
    }
}

/// Computes the next generation of `values`, a grid of `dimensions[0]`
/// columns and `dimensions[1]` rows, in `worker_count` blocks.
///
/// The result is the next generation whatever the number of blocks; with more
/// blocks than rows some blocks are empty.
pub fn step(values: &Vec<Vec<bool>>, dimensions: &[usize; 2], worker_count: usize) -> (next: Vec<
    Vec<bool>,
>)
    requires
        grid_with(values.deep_view(), *dimensions),
        worker_count >= 1,
    ensures
        next.deep_view() == stepped(values.deep_view(), worker_count as int),
        next.deep_view() == next_generation(values.deep_view()),
        grid_with(next.deep_view(), *dimensions),
{
    let ghost cells = values.deep_view();
    let blocks = plan(dimensions[1], worker_count);
    let mut partials: Vec<PartialResult> = Vec::new();
    let mut i: usize = 0;
    proof {
        lemma_plan_covers(dimensions[1] as int, worker_count as int);
    }
    while i < worker_count
        invariant
            cells == values.deep_view(),
            grid_with(cells, *dimensions),
            worker_count >= 1,
            i <= worker_count,
            is_plan(blocks@, dimensions[1] as int, worker_count as int),
            forall|b: int|
                0 <= b < worker_count ==> 0 <= #[trigger] block_start(
                    dimensions[1] as int,
                    worker_count as int,
                    b,
                ) <= block_end(dimensions[1] as int, worker_count as int, b) <= dimensions[1],
            partials@.len() == i,
            forall|j: int|
                0 <= j < i ==> {
                    &&& (#[trigger] partials@[j]).block_index == j
                    &&& partials@[j].rows.deep_view() == rows_of_block(
                        cells,
                        worker_count as int,
                        j,
                    )
                },
        decreases worker_count - i,
    {
        let ghost start = block_start(dimensions[1] as int, worker_count as int, i as int);
        assert(0 <= start);
        partials.push(compute_block(values, dimensions, &blocks[i]));
        i += 1;
    }
    proof {
        lemma_ordered_is_complete(partials@);
        lemma_assembled_in_any_order(partials@, cells, worker_count as int);
        lemma_step_independent_of_worker_count(cells, worker_count as int);
        lemma_step_keeps_dimensions(cells, worker_count as int);
    }
    match assemble(&partials) {
        Some(rows) => rows,
        None => unreached(),
    }
}

} // verus!
