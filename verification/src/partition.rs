//! Partition planning: the rows of a grid are divided into contiguous blocks,
//! one for each worker. All blocks but the last hold `height / worker_count`
//! rows; the last one runs to the end of the grid and so takes the remainder.

use vstd::arithmetic::div_mod::lemma_fundamental_div_mod;
use vstd::arithmetic::mul::{lemma_mul_inequality, lemma_mul_is_distributive_add_other_way};
use vstd::prelude::*;

verus! {

/// A contiguous range of rows, `row_start` up to but not including
/// `row_end_exclusive`, given to the worker numbered `index`.
#[derive(Clone, Copy, Debug, PartialEq, Eq, Structural)]
pub struct Block {
    pub index: usize,
    pub row_start: usize,
    pub row_end_exclusive: usize,
}

/// The number of rows in every block but the last.
pub open spec fn block_size(height: int, worker_count: int) -> int {
    height / worker_count
}

/// The first row of block `i`.
pub open spec fn block_start(height: int, worker_count: int, i: int) -> int {
    i * block_size(height, worker_count)
}

/// The row after the last row of block `i`.
pub open spec fn block_end(height: int, worker_count: int, i: int) -> int {
    if i == worker_count - 1 {
        height
    } else {
        (i + 1) * block_size(height, worker_count)
    }
}

/// Whether `blocks` is the plan for `height` rows and `worker_count` workers.
pub open spec fn is_plan(blocks: Seq<Block>, height: int, worker_count: int) -> bool {
    &&& blocks.len() == worker_count
    &&& forall|i: int|
        0 <= i < worker_count ==> {
            &&& (#[trigger] blocks[i]).index == i
            &&& blocks[i].row_start == block_start(height, worker_count, i)
            &&& blocks[i].row_end_exclusive == block_end(height, worker_count, i)
        }
}

/// The first `i` full blocks fit into the grid.
pub proof fn lemma_full_blocks_fit(height: int, worker_count: int, i: int)
    requires
        0 <= height,
        1 <= worker_count,
        0 <= i <= worker_count,
    ensures
        0 <= i * block_size(height, worker_count) <= height,
{
    let size = block_size(height, worker_count);
    lemma_fundamental_div_mod(height, worker_count);
    assert(0 <= size && worker_count * size <= height) by (nonlinear_arith)
        requires
            height == worker_count * size + height % worker_count,
            0 <= height % worker_count < worker_count,
            0 <= height,
            1 <= worker_count,
    ;
    lemma_mul_inequality(0, i, size);
    lemma_mul_inequality(i, worker_count, size);
}

/// The blocks of a plan tile the rows exactly: the first starts at row 0,
/// each one ends where the next begins, the last ends at `height`, and none
/// runs backwards. Every row therefore lies in exactly one block.
pub proof fn lemma_plan_covers(height: int, worker_count: int)
    requires
        0 <= height,
        1 <= worker_count,
    ensures
        block_start(height, worker_count, 0) == 0,
        block_end(height, worker_count, worker_count - 1) == height,
        forall|i: int|
            0 <= i < worker_count - 1 ==> #[trigger] block_end(height, worker_count, i)
                == block_start(height, worker_count, i + 1),
        forall|i: int|
            0 <= i < worker_count ==> 0 <= #[trigger] block_start(height, worker_count, i)
                <= block_end(height, worker_count, i) <= height,
{
    assert forall|i: int| 0 <= i < worker_count implies 0 <= #[trigger] block_start(
        height,
        worker_count,
        i,
    ) <= block_end(height, worker_count, i) <= height by {
        lemma_full_blocks_fit(height, worker_count, i);
        lemma_full_blocks_fit(height, worker_count, i + 1);
        lemma_mul_is_distributive_add_other_way(block_size(height, worker_count), i, 1);
    }
}

/// Plans the blocks for a grid of `height` rows and `worker_count` workers,
/// in the order of their indices.
///
/// With more workers than rows the leading blocks are empty and the last one
/// holds every row.
pub fn plan(height: usize, worker_count: usize) -> (blocks: Vec<Block>)
    requires
        worker_count >= 1,
    ensures
        is_plan(blocks@, height as int, worker_count as int),
{
    let size: usize = height / worker_count;
    let mut blocks: Vec<Block> = Vec::new();
    let mut start: usize = 0;
    let mut i: usize = 0;
    while i < worker_count
        invariant
            worker_count >= 1,
            i <= worker_count,
            size == block_size(height as int, worker_count as int),
            start == block_start(height as int, worker_count as int, i as int),
            blocks@.len() == i,
            forall|j: int|
                0 <= j < i ==> {
                    &&& (#[trigger] blocks@[j]).index == j
                    &&& blocks@[j].row_start == block_start(height as int, worker_count as int, j)
                    &&& blocks@[j].row_end_exclusive == block_end(
                        height as int,
                        worker_count as int,
                        j,
                    )
                },
        decreases worker_count - i,
    {
        proof {
            lemma_full_blocks_fit(height as int, worker_count as int, i as int + 1);
            lemma_mul_is_distributive_add_other_way(size as int, i as int, 1);
        }
        let next: usize = start + size;
        let end: usize = if i == worker_count - 1 {
            height
        } else {
            next
        };
        blocks.push(Block { index: i, row_start: start, row_end_exclusive: end });
        start = next;
        i += 1;
    }
    blocks
}

} // verus!
