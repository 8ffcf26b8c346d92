//! The clearing mode chosen by the user, and the plan it stands for.

use vstd::prelude::*;
use crate::ansi::all_renderable;
use crate::clear_screen::{
    basic, basic_plan, dissolve_plan, dissolve_seeded, lemma_basic_clears_full_grid,
    lemma_dissolve_blanks_each_cell_once, lemma_spiral_blanks, lemma_wipe_pacing, spiral,
    spiral_plan, wipe, wipe_plan, WipeDirection,
};
use crate::frame::{has_action, plan_view, plan_within, Frame, FrameView};
use crate::grid::TerminalDimensions;
use crate::shuffle::{lemma_seeded_draws_are_valid, seeded_draws};

verus! {

/// The pause after each step of a wipe when none is asked for, in
/// milliseconds.
pub const DEFAULT_WIPE_DELAY_MS: u64 = 10;

/// How the screen is cleared.
#[derive(Clone, Copy, Debug, PartialEq, Eq)]
pub enum ClearMode {
    /// At once.
    Basic,
    /// Line by line or column by column. `dir` defaults to `Down` and
    /// `delay_ms`, the pause after each step, to [`DEFAULT_WIPE_DELAY_MS`].
    Wipe { dir: Option<WipeDirection>, delay_ms: Option<u64> },
    /// Cell by cell in shuffled order.
    Dissolve,
    /// Ring by ring from the outside in.
    Spiral,
}

impl Default for ClearMode {
    fn default() -> (mode: Self)
        ensures
            mode == ClearMode::Basic,
    {
        ClearMode::Basic
    }
}

/// The direction of a wipe, with `Down` where none is given.
pub open spec fn direction_or_default(dir: Option<WipeDirection>) -> WipeDirection {
    match dir {
        Some(d) => d,
        None => WipeDirection::Down,
    }
}

/// The step delay of a wipe, with the default where none is given.
pub open spec fn delay_or_default(delay_ms: Option<u64>) -> u64 {
    match delay_ms {
        Some(d) => d,
        None => DEFAULT_WIPE_DELAY_MS,
    }
}

/// The plan of `mode` on a terminal of size `dims`. Only a dissolve looks at
/// `seed`, from which it makes its draws.
pub open spec fn mode_plan(mode: ClearMode, dims: TerminalDimensions, seed: u64) -> Seq<FrameView> {
    match mode {
        ClearMode::Basic => basic_plan(),
        ClearMode::Wipe { dir, delay_ms } => wipe_plan(
            dims,
            direction_or_default(dir),
            delay_or_default(delay_ms),
        ),
        ClearMode::Dissolve => dissolve_plan(dims, seeded_draws(dims.cell_count(), seed)),
        ClearMode::Spiral => spiral_plan(dims),
    }
}

impl ClearMode {
    /// Plans the chosen mode for a terminal of size `dims`.
    pub fn plan(&self, dims: TerminalDimensions, seed: u64) -> (frames: Vec<Frame>)
        ensures
            plan_view(frames@) == mode_plan(*self, dims, seed),
    {
        match *self {
            ClearMode::Basic => basic(),
            ClearMode::Wipe { dir, delay_ms } => {
                let dir = match dir {
                    Some(d) => d,
                    None => WipeDirection::Down,
                };
                let delay_ms = match delay_ms {
                    Some(d) => d,
                    None => DEFAULT_WIPE_DELAY_MS,
                };
                wipe(dims, dir, delay_ms)
            },
            ClearMode::Dissolve => dissolve_seeded(dims, seed),
            ClearMode::Spiral => spiral(dims),
        }
    }
}

/// Whatever the mode and the seed, no action of the plan leaves the grid. On
/// a terminal whose last column and last row are both below the largest
/// `u16`, every frame of the plan can therefore be written out.
pub proof fn lemma_plans_stay_inside(mode: ClearMode, dims: TerminalDimensions, seed: u64)
    ensures
        plan_within(mode_plan(mode, dims, seed), dims),
        dims.columns < u16::MAX && dims.rows < u16::MAX ==> forall|i: int|
            0 <= i < mode_plan(mode, dims, seed).len() ==> all_renderable(
                (#[trigger] mode_plan(mode, dims, seed)[i]).actions,
            ),
{
    let plan = mode_plan(mode, dims, seed);
    match mode {
        ClearMode::Basic => {
            lemma_basic_clears_full_grid(dims);
        },
        ClearMode::Wipe { dir, delay_ms } => {
            lemma_wipe_pacing(dims, direction_or_default(dir), delay_or_default(delay_ms));
        },
        ClearMode::Dissolve => {
            lemma_seeded_draws_are_valid(dims.cell_count(), seed);
            lemma_dissolve_blanks_each_cell_once(dims, seeded_draws(dims.cell_count(), seed));
        },
        ClearMode::Spiral => {
            lemma_spiral_blanks(dims);
        },
    }
    if dims.columns < u16::MAX && dims.rows < u16::MAX {
        assert forall|i: int| 0 <= i < plan.len() implies all_renderable(
            (#[trigger] plan[i]).actions,
        ) by {
            assert forall|j: int| 0 <= j < plan[i].actions.len() implies (
            #[trigger] plan[i].actions[j]).renderable() by {
                assert(has_action(plan, i, j));
            }
        }
    }
}

} // verus!
