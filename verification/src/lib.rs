//! Simulation core of a side-scrolling tap-to-fly arcade game.
//!
//! A single controllable entity falls under gravity; taps counteract the
//! fall while the entity navigates between procedurally recycled obstacle
//! pairs, scoring once per pair passed.  All coordinates, sizes and
//! velocities are fixed-point integers in hundredths of a pixel, so the
//! simulation arithmetic is exact.

use vstd::prelude::*;

pub mod anim;
pub mod config;
pub mod game;
pub mod geom;
pub mod rng;
pub mod store;
pub mod systems;

verus! {

/// Fixed-point scale: coordinate units per pixel.
pub const UNITS_PER_PIXEL: i64 = 100;

/// Upper bound on configuration magnitudes, so that the products the
/// simulation forms (gravity times elapsed time, window height times a
/// gap multiplier) stay well inside `i64`.
pub const COORD_LIMIT: i64 = 1_000_000_000;

/// How far past the screen edge an obstacle must scroll before it is
/// reloaded, and how far past the right edge recycled obstacles respawn.
pub const RELOAD_MARGIN: i64 = 5_000;

/// The recoverable and fatal failures of the simulation core.
#[derive(Clone, Copy, PartialEq, Eq, Structural, Debug)]
pub enum SimError {
    /// The designated default animation clip is missing: fatal, reported
    /// at initialization and by frame sampling.
    ConfigurationError,
    /// An unregistered clip was asked to start: recoverable, no state change.
    UnknownClipRequested,
    /// A component attach or detach found the component already in the
    /// requested state: recoverable, treated as a no-op.
    ComponentMutationConflict,
}

/// Saturating addition on `i64` values, as mathematical integers.  The
/// tick arithmetic saturates in the one place it could leave the machine
/// range: positions and velocities grow without bound while the player
/// falls.
pub open spec fn sat_add_i64(a: int, b: int) -> int {
    if a + b > i64::MAX {
        i64::MAX as int
    } else if a + b < i64::MIN {
        i64::MIN as int
    } else {
        a + b
    }
}

/// Executable saturating add, exact against `sat_add_i64`.
pub fn add_sat(a: i64, b: i64) -> (r: i64)
    ensures
        r as int == sat_add_i64(a as int, b as int),
{
    if b >= 0 && a > i64::MAX - b {
        i64::MAX
    } else if b < 0 && a < i64::MIN - b {
        i64::MIN
    } else {
        a + b
    }
}

} // verus!
