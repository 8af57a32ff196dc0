pub mod geometry;
pub mod grid;
pub mod search;
pub mod random;
pub mod judge;
pub mod minmax;
pub mod packing;

pub use geometry::{Dir, Pos, N};
pub use grid::{Cell, Grid, EMPTY};
pub use judge::{Input, compute_score_detail, gen, get_substring, is_substring, mod_n};
pub use minmax::SetMinMax;
pub use random::RandomSource;
pub use search::{Move, Optimizer, Placement, StepOutcome};
