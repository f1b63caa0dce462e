//! Startup configuration constants of the simulation.

use vstd::prelude::*;

use crate::COORD_LIMIT;

verus! {

/// The compile-time/startup constants of a session, in fixed-point units
/// (hundredths of a pixel); the gap multipliers are in hundredths.
#[derive(Clone, Copy, PartialEq, Eq, Structural, Debug)]
pub struct Config {
    pub window_w: i64,
    pub window_h: i64,
    /// Vertical acceleration of the controllable entity, per second.
    pub gravity: i64,
    /// Constant leftward scroll of active obstacles, per tick.
    pub obstacle_speed: i64,
    /// How many obstacle pairs share the field beyond the lead pair.
    pub obstacle_count: u8,
    /// Vertical clearance between the two pieces of a pair.
    pub gap_tight_factor: i64,
    /// How much one tap takes off the vertical velocity.
    pub flap_impulse: i64,
    /// Bounds of the random ceiling-gap multiplier, in hundredths:
    /// the gap center is `window_h / 2` scaled by a draw from
    /// `[gap_multiplier_low, gap_multiplier_high)`.
    pub gap_multiplier_low: i64,
    pub gap_multiplier_high: i64,
    /// Side of the controllable entity's square; obstacle pieces are two
    /// thirds of it wide.
    pub square_size: i64,
}

/// The vertical center of a pair's gap for a drawn multiplier `m`.
pub open spec fn gap_center(cfg: Config, m: int) -> int {
    (cfg.window_h / 2) * m / 100
}

impl Config {
    /// Validity of a configuration: positive bounded dimensions, an even
    /// positive gap clearance, a nonempty multiplier range whose extreme
    /// draws keep both pieces of a pair inside the window.
    pub open spec fn wf(self) -> bool {
        0 < self.window_w <= COORD_LIMIT && 0 < self.window_h <= COORD_LIMIT && 0 <= self.gravity
            <= COORD_LIMIT && -COORD_LIMIT <= self.obstacle_speed <= 0 && 1 <= self.obstacle_count
            && 2 <= self.gap_tight_factor <= self.window_h && self.gap_tight_factor % 2 == 0 && 0
            < self.flap_impulse <= COORD_LIMIT && 0 <= self.gap_multiplier_low
            < self.gap_multiplier_high <= 10_000 && 0 < self.square_size <= COORD_LIMIT
            && gap_center(self, self.gap_multiplier_low as int) >= self.gap_tight_factor / 2
            && gap_center(self, (self.gap_multiplier_high - 1) as int) + self.gap_tight_factor / 2
            <= self.window_h
    }
}

/// The configuration the game ships with: a 1000 by 1100 pixel window,
/// gravity of 10 pixels per second each second, scroll and flap strength
/// of 3.5 pixels, a 220 pixel gap, multipliers from 0.20 to 1.80, and an
/// 80 pixel square.
pub fn default_config() -> (cfg: Config)
    ensures
        cfg.wf(),
        cfg == (Config {
            window_w: 100_000i64,
            window_h: 110_000i64,
            gravity: 1_000i64,
            obstacle_speed: -350i64,
            obstacle_count: 3u8,
            gap_tight_factor: 22_000i64,
            flap_impulse: 350i64,
            gap_multiplier_low: 20i64,
            gap_multiplier_high: 180i64,
            square_size: 8_000i64,
        }),
{
    Config {
        window_w: 100_000,
        window_h: 110_000,
        gravity: 1_000,
        obstacle_speed: -350,
        obstacle_count: 3,
        gap_tight_factor: 22_000,
        flap_impulse: 350,
        gap_multiplier_low: 20,
        gap_multiplier_high: 180,
        square_size: 8_000,
    }
}

} // verus!
