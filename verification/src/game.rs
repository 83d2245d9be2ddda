//! The simulation: the live grid, the baseline it can be reset to, and the
//! mode that says whether generations pass.
//!
//! The two grids always have the same dimensions. The live grid is replaced
//! as a whole by each generation; the baseline changes only when the grid is
//! reseeded, loaded or edited by hand.

use crate::engine::{check_grid, grid_with, step};
use crate::generation::{
    filled, height_of, is_grid, lemma_cells_of_rows, next_generation, width_of, with_cell,
};
use vstd::prelude::*;

verus! {

/// Whether generations pass (`Normal`), stand still (`Pause`), or stand still
/// while cells are edited by hand (`Edit`).
#[derive(Clone, Copy, Debug, PartialEq, Eq, Structural)]
pub enum Mode {
    Normal,
    Pause,
    Edit,
}

/// The keys that the simulation answers to.
#[derive(Clone, Copy, Debug, PartialEq, Eq, Structural)]
pub enum Key {
    R,
    G,
    S,
    V,
    C,
    E,
    P,
    N,
    Other,
}

/// The mouse buttons that the simulation tells apart.
#[derive(Clone, Copy, Debug, PartialEq, Eq, Structural)]
pub enum MouseButton {
    Left,
    Other,
}

/// What the caller is asked to do after a key press.
#[derive(Clone, Copy, Debug, PartialEq, Eq, Structural)]
pub enum KeyAction {
    Nothing,
    SaveSeed,
    SaveValues,
    ClearSaves,
}

/// The simulation.
pub struct Game {
    seed: Vec<Vec<bool>>,
    values: Vec<Vec<bool>>,
    dimensions: [usize; 2],
    mode: Mode,
}

/// The simulation as contracts see it: the baseline, the live grid, the
/// dimensions as columns and rows, and the mode.
pub struct GameState {
    pub seed: Seq<Seq<bool>>,
    pub values: Seq<Seq<bool>>,
    pub dimensions: [usize; 2],
    pub mode: Mode,
}

impl View for Game {
    type V = GameState;

    closed spec fn view(&self) -> GameState {
        GameState {
            seed: self.seed.deep_view(),
            values: self.values.deep_view(),
            dimensions: self.dimensions,
            mode: self.mode,
        }
    }
}

/// Both grids are grids of the stated dimensions.
pub open spec fn valid_state(state: GameState) -> bool {
    &&& grid_with(state.seed, state.dimensions)
    &&& grid_with(state.values, state.dimensions)
}

/// Whether `cells` can be loaded: it is a grid whose dimensions can be offset
/// in `isize`.
pub open spec fn loadable(cells: Seq<Seq<bool>>) -> bool {
    &&& is_grid(cells)
    &&& width_of(cells) <= isize::MAX
    &&& height_of(cells) <= isize::MAX
}

/// The state after `key`, for every key but `G`, whose outcome is random.
pub open spec fn after_key(state: GameState, key: Key) -> GameState {
    match key {
        Key::R => GameState { values: state.seed, ..state },
        Key::E => GameState { mode: Mode::Edit, ..state },
        Key::P => GameState { mode: Mode::Pause, ..state },
        Key::N => GameState { mode: Mode::Normal, ..state },
        _ => state,
    }
}

/// What the caller is asked to do after `key`.
pub open spec fn action_of(key: Key) -> KeyAction {
    match key {
        Key::S => KeyAction::SaveSeed,
        Key::V => KeyAction::SaveValues,
        Key::C => KeyAction::ClearSaves,
        _ => KeyAction::Nothing,
    }
}

/// The state after the cell at column `x` and row `y` was toggled by hand:
/// the live cell is flipped, and the baseline takes the cell's new state.
pub open spec fn toggled(state: GameState, x: int, y: int) -> GameState {
    let alive = !state.values[y][x];
    GameState {
        seed: with_cell(state.seed, x, y, alive),
        values: with_cell(state.values, x, y, alive),
        ..state
    }
}

/// Calls `rand::random::<bool>()`, which draws from the thread's random
/// number generator. Nothing is claimed of what comes back.
#[verifier::external_body]
fn random_cell() -> bool {
    rand::random()
}

/// A grid of `width` columns and `height` rows with every cell alive.
fn live_grid(width: usize, height: usize) -> (rows: Vec<Vec<bool>>)
    ensures
        rows.deep_view() == filled(width as int, height as int, true),
{
    let mut row: Vec<bool> = Vec::new();
    let mut x: usize = 0;
    while x < width
        invariant
            x <= width,
            row@.len() == x,
            forall|c: int| 0 <= c < x ==> #[trigger] row@[c],
        decreases width - x,
    {
        row.push(true);
        x += 1;
    }
    let mut rows: Vec<Vec<bool>> = Vec::new();
    let mut y: usize = 0;
    while y < height
        invariant
            y <= height,
            rows@.len() == y,
            row@.len() == width,
            forall|c: int| 0 <= c < width ==> #[trigger] row@[c],
            forall|r: int| 0 <= r < y ==> (#[trigger] rows@[r])@ == row@,
        decreases height - y,
    {
        rows.push(row.clone());
        y += 1;
    }
    proof {
        lemma_cells_of_rows(&rows);
        let target = filled(width as int, height as int, true);
        assert forall|r: int| 0 <= r < height implies #[trigger] rows.deep_view()[r]
            == target[r] by {
            assert(rows@[r]@ =~= target[r]);
        }
        assert(rows.deep_view() =~= target);
    }
    rows
}

/// A grid of `dimensions[0]` columns and `dimensions[1]` rows with every cell
/// drawn at random.
fn random_grid(dimensions: &[usize; 2]) -> (rows: Vec<Vec<bool>>)
    requires
        1 <= dimensions[0] <= isize::MAX,
        1 <= dimensions[1] <= isize::MAX,
    ensures
        grid_with(rows.deep_view(), *dimensions),
{
    let mut rows: Vec<Vec<bool>> = Vec::new();
    let mut y: usize = 0;
    while y < dimensions[1]
        invariant
            y <= dimensions[1],
            rows@.len() == y,
            forall|r: int| 0 <= r < y ==> (#[trigger] rows@[r])@.len() == dimensions[0],
        decreases dimensions[1] - y,
    {
        let mut row: Vec<bool> = Vec::new();
        let mut x: usize = 0;
        while x < dimensions[0]
            invariant
                x <= dimensions[0],
                row@.len() == x,
            decreases dimensions[0] - x,
        {
            row.push(random_cell());
            x += 1;
        }
        rows.push(row);
        y += 1;
    }
    proof {
        lemma_cells_of_rows(&rows);
        assert(rows.deep_view()[0] == rows@[0]@);
    }
    rows
}

/// The rows with the cell at column `x` of row `y` set to `alive`.
fn set_cell(rows: &mut Vec<Vec<bool>>, x: usize, y: usize, alive: bool)
    requires
        y < old(rows)@.len(),
        x < old(rows)@[y as int]@.len(),
    ensures
        final(rows).deep_view() == with_cell(old(rows).deep_view(), x as int, y as int, alive),
{
    let ghost before = rows.deep_view();
    proof {
        lemma_cells_of_rows(rows);
    }
    let mut row: Vec<bool> = rows[y].clone();
    row.set(x, alive);
    rows.set(y, row);
    proof {
        lemma_cells_of_rows(rows);
        let target = with_cell(before, x as int, y as int, alive);
        assert forall|r: int| 0 <= r < target.len() implies #[trigger] rows.deep_view()[r]
            == target[r] by {
            assert(rows.deep_view()[r] == rows@[r]@);
        }
        assert(rows.deep_view() =~= target);
    }
}

impl Game {
    /// Whether the simulation is in order: both grids are grids of the
    /// simulation's dimensions.
    pub open spec fn wf(&self) -> bool {
        valid_state(self@)
    }

    /// A simulation of `width` columns and `height` rows in `Normal` mode, with
    /// every cell of both grids alive.
    ///
    /// There is none with no columns or no rows, nor with dimensions beyond
    /// `isize::MAX`.
    pub fn new(width: usize, height: usize) -> (game: Option<Game>)
        ensures
            game is Some <==> 1 <= width <= isize::MAX && 1 <= height <= isize::MAX,
            game matches Some(g) ==> {
                &&& g.wf()
                &&& g@.dimensions[0] == width
                &&& g@.dimensions[1] == height
                &&& g@.seed == filled(width as int, height as int, true)
                &&& g@.values == filled(width as int, height as int, true)
                &&& g@.mode == Mode::Normal
            },
    {
        let limit: usize = isize::MAX as usize;
        if width == 0 || height == 0 || width > limit || height > limit {
            return None;
        }
        let newseed: Vec<Vec<bool>> = live_grid(width, height);
        let values: Vec<Vec<bool>> = newseed.clone();
        let game = Game { seed: newseed, values, dimensions: [width, height], mode: Mode::Normal };
        proof {
            let target = filled(width as int, height as int, true);
            assert(target[0].len() == width);
            assert(is_grid(target));
        }
        Some(game)
    }

    /// Draws every cell anew at random and loads the outcome, as
    /// [`Game::load_data`] does: it becomes both the live grid and the
    /// baseline. Dimensions and mode stay.
    pub fn randomize_values(&mut self)
        requires
            old(self).wf(),
        ensures
            final(self).wf(),
            final(self)@.seed == final(self)@.values,
            final(self)@.dimensions == old(self)@.dimensions,
            final(self)@.mode == old(self)@.mode,
    {
        let newseed: Vec<Vec<bool>> = random_grid(&self.dimensions);
        let loaded: bool = self.load_data(&newseed);
        assert(loaded);
        assert(self@.dimensions =~= old(self)@.dimensions);
    }

    /// Loads `data` as both the live grid and the baseline, and takes its
    /// dimensions. Data that is no grid is refused, and nothing changes.
    pub fn load_data(&mut self, data: &Vec<Vec<bool>>) -> (loaded: bool)
        requires
            old(self).wf(),
        ensures
            final(self).wf(),
            loaded == loadable(data.deep_view()),
            loaded ==> {
                &&& final(self)@.seed == data.deep_view()
                &&& final(self)@.values == data.deep_view()
                &&& final(self)@.dimensions[0] == width_of(data.deep_view())
                &&& final(self)@.dimensions[1] == height_of(data.deep_view())
                &&& final(self)@.mode == old(self)@.mode
            },
            !loaded ==> final(self)@ == old(self)@,
    {
        proof {
            lemma_cells_of_rows(data);
        }
        if data.len() == 0 {
            return false;
        }
        let dimensions: [usize; 2] = [data[0].len(), data.len()];
        if !check_grid(data, &dimensions) {
            return false;
        }
        self.seed = data.clone();
        self.values = data.clone();
        self.dimensions = dimensions;
        true
    }

    /// Replaces the live grid by its next generation, computed in
    /// `max_threads` blocks. The baseline and the mode stay.
    pub fn update(&mut self, max_threads: usize)
        requires
            old(self).wf(),
            max_threads >= 1,
        ensures
            final(self).wf(),
            final(self)@.values == next_generation(old(self)@.values),
            final(self)@.seed == old(self)@.seed,
            final(self)@.dimensions == old(self)@.dimensions,
            final(self)@.mode == old(self)@.mode,
    {
        let next: Vec<Vec<bool>> = step(&self.values, &self.dimensions, max_threads);
        self.values = next;
    }

    /// Makes `next` the live grid, if it is a grid of the simulation's
    /// dimensions; if not, nothing changes. This is how a generation that was
    /// computed elsewhere is taken over.
    pub fn install(&mut self, next: Vec<Vec<bool>>) -> (installed: bool)
        requires
            old(self).wf(),
        ensures
            final(self).wf(),
            installed == grid_with(next.deep_view(), old(self)@.dimensions),
            installed ==> final(self)@ == (GameState { values: next.deep_view(), ..old(self)@ }),
            !installed ==> final(self)@ == old(self)@,
    {
        if !check_grid(&next, &self.dimensions) {
            return false;
        }
        self.values = next;
        true
    }

    /// Answers a key: `R` resets the live grid to the baseline, `G` reseeds
    /// both grids at random, `E`, `P` and `N` set the mode, and `S`, `V` and
    /// `C` ask the caller to save the baseline, save the live grid, or clear
    /// the saves. Any other key does nothing.
    pub fn key_press(&mut self, key: Key) -> (action: KeyAction)
        requires
            old(self).wf(),
        ensures
            final(self).wf(),
            action == action_of(key),
            key != Key::G ==> final(self)@ == after_key(old(self)@, key),
            key == Key::G ==> {
                &&& final(self)@.seed == final(self)@.values
                &&& final(self)@.dimensions == old(self)@.dimensions
                &&& final(self)@.mode == old(self)@.mode
            },
    {
        match key {
            Key::R => {
                self.values = self.seed.clone();
                KeyAction::Nothing
            },
            Key::G => {
                self.randomize_values();
                KeyAction::Nothing
            },
            Key::S => KeyAction::SaveSeed,
            Key::V => KeyAction::SaveValues,
            Key::C => KeyAction::ClearSaves,
            Key::E => {
                self.mode = Mode::Edit;
                KeyAction::Nothing
            },
            Key::P => {
                self.mode = Mode::Pause;
                KeyAction::Nothing
            },
            Key::N => {
                self.mode = Mode::Normal;
                KeyAction::Nothing
            },
            Key::Other => KeyAction::Nothing,
        }
    }

    /// Answers a mouse button pressed over the cell at column `coords[0]` and
    /// row `coords[1]`: in `Edit` mode the left button toggles that cell;
    /// otherwise nothing changes.
    pub fn mouse_press(&mut self, button: MouseButton, coords: &[usize; 2])
        requires
            old(self).wf(),
            old(self)@.mode == Mode::Edit && button == MouseButton::Left ==> coords[0] < old(
                self,
            )@.dimensions[0] && coords[1] < old(self)@.dimensions[1],
        ensures
            final(self).wf(),
            old(self)@.mode == Mode::Edit && button == MouseButton::Left ==> final(self)@
                == toggled(old(self)@, coords[0] as int, coords[1] as int),
            !(old(self)@.mode == Mode::Edit && button == MouseButton::Left) ==> final(self)@
                == old(self)@,
    {
        match self.mode {
            Mode::Edit => match button {
                MouseButton::Left => {
                    self.toggle_coord(coords);
                },
                _ => {},
            },
            _ => {},
        }
    }

    /// Toggles the cell at column `coords[0]` and row `coords[1]`: the live
    /// cell is flipped, and the baseline takes the cell's new state.
    pub fn toggle_coord(&mut self, coords: &[usize; 2])
        requires
            old(self).wf(),
            coords[0] < old(self)@.dimensions[0],
            coords[1] < old(self)@.dimensions[1],
        ensures
            final(self).wf(),
            final(self)@ == toggled(old(self)@, coords[0] as int, coords[1] as int),
    {
        proof {
            lemma_cells_of_rows(&self.values);
            lemma_cells_of_rows(&self.seed);
        }
        let x: usize = coords[0];
        let y: usize = coords[1];
        let alive: bool = !self.values[y][x];
        set_cell(&mut self.values, x, y, alive);
        set_cell(&mut self.seed, x, y, alive);
        proof {
            let before = old(self)@;
            let after = toggled(before, x as int, y as int);
            assert(after.values[0].len() == before.values[0].len());
            assert(after.seed[0].len() == before.seed[0].len());
        }
    }

    /// The baseline.
    pub fn seed(&self) -> (seed: &Vec<Vec<bool>>)
        ensures
            seed.deep_view() == self@.seed,
    {
        &self.seed
    }

    /// The live grid.
    pub fn values(&self) -> (values: &Vec<Vec<bool>>)
        ensures
            values.deep_view() == self@.values,
    {
        &self.values
    }

    /// The dimensions: columns, then rows.
    pub fn dimensions(&self) -> (dimensions: [usize; 2])
        ensures
            dimensions == self@.dimensions,
    {
        self.dimensions
    }

    /// The mode.
    pub fn mode(&self) -> (mode: Mode)
        ensures
            mode == self@.mode,
    {
        self.mode
    }

    /// Sets the mode and leaves the grids as they are.
    pub fn set_mode(&mut self, mode: Mode)
        ensures
            final(self)@ == (GameState { mode, ..old(self)@ }),
    {
        self.mode = mode;
    }
}

} // verus!
