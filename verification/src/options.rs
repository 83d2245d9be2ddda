//! What the simulation starts with, as far as the user's options decide it.

use crate::game::Mode;
use crate::text::{chars_of, number_of, parse_usize, same_text};
use crate::unicode::{lowercase_of, to_lowercase};
use vstd::prelude::*;

verus! {

/// The width of the grid where the user asks for none.
pub const DEFAULT_WIDTH: usize = 200;

/// The height of the grid where the user asks for none.
pub const DEFAULT_HEIGHT: usize = 150;

/// The length in pixels of the side of the square that shows one cell.
pub const TILE_SIZE: u32 = 5;

/// The mode that a name in lowercase stands for: `default` and `normal` for
/// `Normal`, `pause` for `Pause`, `edit` for `Edit`. Other names stand for
/// none.
pub open spec fn mode_of(lowered: Seq<char>) -> Option<Mode> {
    if lowered == "default"@ || lowered == "normal"@ {
        Some(Mode::Normal)
    } else if lowered == "pause"@ {
        Some(Mode::Pause)
    } else if lowered == "edit"@ {
        Some(Mode::Edit)
    } else {
        None
    }
}

/// The dimension to start with: the number that the user asked for, unless
/// none was asked for or a seed file is given, which decides the dimensions
/// itself; then it is `fallback`. There is none where what the user asked
/// for is no number.
pub open spec fn dimension_of(requested: Option<Seq<char>>, seed_given: bool, fallback: usize)
    -> Option<usize> {
    match requested {
        Some(text) => if seed_given {
            Some(fallback)
        } else {
            number_of(text)
        },
        None => Some(fallback),
    }
}

/// The number of workers for a machine on which `cpus` CPUs are counted: one
/// for each, and one where none is counted.
pub open spec fn workers_of(cpus: usize) -> usize {
    if cpus == 0 {
        1
    } else {
        cpus
    }
}

/// The size of the window in pixels, width then height, for a grid of the
/// given dimensions: `TILE_SIZE` pixels for each cell. There is none where
/// that is more than `u32` holds.
pub open spec fn window_of(width: usize, height: usize) -> Option<[u32; 2]> {
    if width * TILE_SIZE <= u32::MAX && height * TILE_SIZE <= u32::MAX {
        Some([(width * TILE_SIZE) as u32, (height * TILE_SIZE) as u32])
    } else {
        None
    }
}

/// Calls `num_cpus::get()`, which counts the CPUs that the process may use.
/// The count depends on the machine; nothing is claimed of it.
#[verifier::external_body]
fn available_cpus() -> usize {
    num_cpus::get()
}

/// The number of workers for a machine on which `cpus` CPUs are counted.
pub fn workers_for(cpus: usize) -> (workers: usize)
    ensures
        workers == workers_of(cpus),
        workers >= 1,
{
    if cpus == 0 {
        1
    } else {
        cpus
    }
}

/// The number of workers to compute generations with on this machine: one
/// for each CPU that the process may use, and never fewer than one.
pub fn worker_count() -> (workers: usize)
    ensures
        workers >= 1,
{
    workers_for(available_cpus())
}

/// The size of the window for a grid of `width` columns and `height` rows.
pub fn window_dimensions(width: usize, height: usize) -> (window: Option<[u32; 2]>)
    ensures
        window == window_of(width, height),
{
    let limit: usize = (u32::MAX / TILE_SIZE) as usize;
    if width > limit || height > limit {
        return None;
    }
    let window: [u32; 2] = [width as u32 * TILE_SIZE, height as u32 * TILE_SIZE];
    assert(window =~= [(width * TILE_SIZE) as u32, (height * TILE_SIZE) as u32]);
    Some(window)
}

/// The mode that a name in lowercase stands for.
pub fn mode_named(lowered: &str) -> (mode: Option<Mode>)
    ensures
        mode == mode_of(lowered@),
{
    if same_text(lowered, "default") || same_text(lowered, "normal") {
        Some(Mode::Normal)
    } else if same_text(lowered, "pause") {
        Some(Mode::Pause)
    } else if same_text(lowered, "edit") {
        Some(Mode::Edit)
    } else {
        None
    }
}

/// The mode that the user asked for by `name`, in whatever case it is
/// written.
pub fn starting_mode(name: &str) -> (mode: Option<Mode>)
    ensures
        mode == mode_of(lowercase_of(name@)),
{
    let lowered: String = to_lowercase(name);
    mode_named(lowered.as_str())
}

/// The dimension to start with, given what the user asked for, whether a
/// seed file is given, and the dimension to fall back on.
pub fn starting_dimension(requested: Option<&str>, seed_given: bool, fallback: usize) -> (dimension:
    Option<usize>)
    ensures
        dimension == dimension_of(
            match requested {
                Some(text) => Some(text@),
                None => None,
            },
            seed_given,
            fallback,
        ),
{
    match requested {
        Some(text) => {
            if seed_given {
                Some(fallback)
            } else {
                let chars: Vec<char> = chars_of(text);
                parse_usize(chars.as_slice())
            }
        },
        None => Some(fallback),
    }
}

} // verus!
