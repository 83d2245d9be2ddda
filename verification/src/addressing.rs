//! Toroidal addressing: every coordinate is reduced modulo the grid's
//! dimensions, so the eight neighbours of a cell exist for every cell and the
//! edges of the grid need no special case.

use vstd::arithmetic::div_mod::{
    lemma_mod_add_multiples_vanish, lemma_mod_bound, lemma_mod_self_0, lemma_small_mod,
};
use vstd::pervasive::unreached;
use vstd::prelude::*;

verus! {

/// A signed coordinate brought into `[0, bound)`: the non-negative remainder
/// of `coordinate` by `bound`.
pub open spec fn wrap(coordinate: int, bound: int) -> int {
    coordinate % bound
}

/// The eight offsets of the Moore neighbourhood, in the order in which
/// neighbours are listed.
pub open spec fn neighbor_offsets() -> Seq<(int, int)> {
    seq![(1, 0), (-1, 0), (0, 1), (0, -1), (1, 1), (-1, 1), (1, -1), (-1, -1)]
}

/// The `k`-th neighbour of cell `(x, y)` on a torus of `width` columns and
/// `height` rows: the offset is added in the integers, then each axis is
/// wrapped on its own.
pub open spec fn neighbor(x: int, y: int, width: int, height: int, k: int) -> (int, int) {
    let offset = neighbor_offsets()[k];
    (wrap(x + offset.0, width), wrap(y + offset.1, height))
}

/// A wrapped coordinate always lies in `[0, bound)`.
pub proof fn lemma_wrap_in_range(coordinate: int, bound: int)
    requires
        bound > 0,
    ensures
        0 <= wrap(coordinate, bound) < bound,
{
    lemma_mod_bound(coordinate, bound);
}

/// Wrapping leaves a coordinate that is already inside `[0, bound)` as it is.
pub proof fn lemma_wrap_inside(coordinate: int, bound: int)
    requires
        0 <= coordinate < bound,
    ensures
        wrap(coordinate, bound) == coordinate,
{
    lemma_small_mod(coordinate as nat, bound as nat);
}

/// One step off either edge lands on the opposite edge: `-1` wraps to
/// `bound - 1`, and `bound` wraps to `0`.
pub proof fn lemma_wrap_edges(bound: int)
    requires
        bound > 0,
    ensures
        wrap(-1, bound) == bound - 1,
        wrap(bound, bound) == 0,
{
    lemma_mod_self_0(bound);
    lemma_mod_add_multiples_vanish(-1, bound);
    lemma_small_mod((bound - 1) as nat, bound as nat);
}

/// One step from a coordinate inside `[0, bound)`: forward from the last
/// coordinate leads to the first, backward from the first leads to the last,
/// and every other step stays inside.
pub proof fn lemma_wrap_step(coordinate: int, bound: int)
    requires
        0 <= coordinate < bound,
    ensures
        wrap(coordinate, bound) == coordinate,
        wrap(coordinate + 1, bound) == if coordinate + 1 == bound {
            0
        } else {
            coordinate + 1
        },
        wrap(coordinate - 1, bound) == if coordinate == 0 {
            bound - 1
        } else {
            coordinate - 1
        },
{
    lemma_wrap_inside(coordinate, bound);
    lemma_wrap_edges(bound);
    if coordinate + 1 < bound {
        lemma_wrap_inside(coordinate + 1, bound);
    }
    if coordinate > 0 {
        lemma_wrap_inside(coordinate - 1, bound);
    }
}

/// All eight neighbours of any cell, inside the grid or not, lie inside a grid
/// of positive width and height.
pub proof fn lemma_neighbors_in_range(x: int, y: int, width: int, height: int)
    requires
        width > 0,
        height > 0,
    ensures
        forall|k: int|
            0 <= k < 8 ==> {
                &&& 0 <= (#[trigger] neighbor(x, y, width, height, k)).0 < width
                &&& 0 <= neighbor(x, y, width, height, k).1 < height
            },
{
    assert forall|k: int| 0 <= k < 8 implies {
        &&& 0 <= (#[trigger] neighbor(x, y, width, height, k)).0 < width
        &&& 0 <= neighbor(x, y, width, height, k).1 < height
    } by {
        let offset = neighbor_offsets()[k];
        lemma_wrap_in_range(x + offset.0, width);
        lemma_wrap_in_range(y + offset.1, height);
    }
}

/// Wraps one signed coordinate into `[0, bound)`.
fn wrap_coordinate(coordinate: isize, bound: isize) -> (wrapped: usize)
    requires
        bound > 0,
    ensures
        wrapped == wrap(coordinate as int, bound as int),
        wrapped < bound,
{
    proof {
        lemma_mod_bound(coordinate as int, bound as int);
    }
    match coordinate.checked_rem_euclid(bound) {
        Some(remainder) => remainder as usize,
        None => unreached(),
    }
}

/// Wraps a signed coordinate pair onto a torus of `mx` columns and `my` rows.
pub fn wrap_idx(idx: &(isize, isize), mx: &isize, my: &isize) -> (wrapped: (usize, usize))
    requires
        *mx > 0,
        *my > 0,
    ensures
        wrapped.0 == wrap(idx.0 as int, *mx as int),
        wrapped.1 == wrap(idx.1 as int, *my as int),
        wrapped.0 < *mx,
        wrapped.1 < *my,
{
    (wrap_coordinate(idx.0, *mx), wrap_coordinate(idx.1, *my))
}

/// Wraps each pair of `idxs`, keeping their order.
pub fn wrap_idxs(idxs: &Vec<(isize, isize)>, mx: &isize, my: &isize) -> (wrapped: Vec<
    (usize, usize),
>)
    requires
        *mx > 0,
        *my > 0,
    ensures
        wrapped@.len() == idxs@.len(),
        forall|i: int|
            0 <= i < idxs@.len() ==> {
                &&& (#[trigger] wrapped@[i]).0 == wrap(idxs@[i].0 as int, *mx as int)
                &&& wrapped@[i].1 == wrap(idxs@[i].1 as int, *my as int)
                &&& wrapped@[i].0 < *mx
                &&& wrapped@[i].1 < *my
            },
{
    let mut wrapped: Vec<(usize, usize)> = Vec::new();
    let mut i: usize = 0;
    while i < idxs.len()
        invariant
            *mx > 0,
            *my > 0,
            i <= idxs@.len(),
            wrapped@.len() == i,
            forall|j: int|
                0 <= j < i ==> {
                    &&& (#[trigger] wrapped@[j]).0 == wrap(idxs@[j].0 as int, *mx as int)
                    &&& wrapped@[j].1 == wrap(idxs@[j].1 as int, *my as int)
                    &&& wrapped@[j].0 < *mx
                    &&& wrapped@[j].1 < *my
                },
        decreases idxs@.len() - i,
    {
        wrapped.push(wrap_idx(&idxs[i], mx, my));
        i += 1;
    }
    wrapped
}

/// The eight wrap-around neighbours of `index` on a grid of
/// `dimensions[0]` columns and `dimensions[1]` rows, in the order of
/// [`neighbor_offsets`].
///
/// The offsets are taken in `isize`, so the dimensions must fit in it and the
/// coordinates must leave room for one step.
pub fn get_neighbors(index: &(usize, usize), dimensions: &[usize; 2]) -> (neighbors: Vec<
    (usize, usize),
>)
    requires
        0 < dimensions[0] <= isize::MAX,
        0 < dimensions[1] <= isize::MAX,
        index.0 < isize::MAX,
        index.1 < isize::MAX,
    ensures
        neighbors@.len() == 8,
        forall|k: int|
            0 <= k < 8 ==> {
                &&& (#[trigger] neighbors@[k]).0 == neighbor(
                    index.0 as int,
                    index.1 as int,
                    dimensions[0] as int,
                    dimensions[1] as int,
                    k,
                ).0
                &&& neighbors@[k].1 == neighbor(
                    index.0 as int,
                    index.1 as int,
                    dimensions[0] as int,
                    dimensions[1] as int,
                    k,
                ).1
                &&& neighbors@[k].0 < dimensions[0]
                &&& neighbors@[k].1 < dimensions[1]
            },
{
    let x: isize = index.0 as isize;
    let y: isize = index.1 as isize;
    let collected: Vec<(isize, isize)> = vec![
        (x + 1, y),
        (x - 1, y),
        (x, y + 1),
        (x, y - 1),
        (x + 1, y + 1),
        (x - 1, y + 1),
        (x + 1, y - 1),
        (x - 1, y - 1),
    ];
    let mx: isize = dimensions[0] as isize;
    let my: isize = dimensions[1] as isize;
    wrap_idxs(&collected, &mx, &my)
}

} // verus!
