//! The game session: the entity store, the session resources, the
//! configuration and the player's animator, with the per-frame entry
//! points the presentation layer drives.

use vstd::prelude::*;

use crate::anim::{
    clip_step, has_clip, sheet_ticked, sheet_wf, started, ClipId, Spritesheet,
};
use crate::config::Config;
use crate::geom::{rect_wf, Rect, Vel};
use crate::rng::draw_in_range;
use crate::config::gap_center;
use crate::store::{
    cols_consistent, count_true, lemma_count_true_one, lemma_pair_count_exact_two,
    lemma_partner_exists, lemma_partner_unique, pair_spans_ok, world_wf, Command, World,
};
use crate::systems::{
    activate_rel, activate_step, collision_after, collision_step, first_controllable,
    lemma_activate_preserves_wf, lemma_even_halves, lemma_first_controllable_skip,
    lemma_gap_center_bounds, lemma_movement_preserves_wf, lemma_physics_preserves_wf,
    lemma_reload_preserves_wf, lemma_wf_same_core, maintain_rel, movement_rel, movement_step,
    physics_rel, physics_step, reload_rel, reload_step, respawn_x, same_cols, score_rel,
    score_step, scrolling_obstacle_at,
};
use crate::store::lemma_count_true_zero;
use crate::anim::{first_playing, sample_rect};
use crate::{add_sat, sat_add_i64, SimError, RELOAD_MARGIN};

verus! {

/// The session's phase: the menu, play, or the game-over screen.
#[derive(Clone, Copy, PartialEq, Eq, Structural, Debug)]
pub enum SessionState {
    Menu,
    Playing,
    GameOver,
}

/// The world-level session resources: phase, score, game-over flag and
/// the elapsed time handed to the last tick.
#[derive(Clone, Copy, PartialEq, Eq, Structural, Debug)]
pub struct Session {
    pub state: SessionState,
    pub score: u64,
    pub game_over: bool,
    pub last_dt_ms: u32,
}

/// The session a new game starts with: in the menu, nothing scored.
pub open spec fn initial_session() -> Session {
    Session { state: SessionState::Menu, score: 0, game_over: false, last_dt_ms: 0 }
}

/// A whole game: the entity store, the session resources, the startup
/// configuration and the controllable entity's sprite animator.
pub struct Game {
    pub world: World,
    pub session: Session,
    pub config: Config,
    /// The sprite animator of the one controllable entity.
    pub animator: Spritesheet,
}

impl Game {
    /// The game's invariant: a valid configuration, the store invariant
    /// under its gap clearance, and an animator that holds the default
    /// clip.
    pub open spec fn wf(self) -> bool {
        self.config.wf() && world_wf(self.world, self.config.gap_tight_factor as int) && sheet_wf(
            self.animator,
        ) && has_clip(self.animator.clips@, ClipId::Idle)
    }
}

/// The phase a tick acts under: a raised game-over flag moves the session
/// to the game-over screen before anything else runs.
pub open spec fn effective_state(s: Session) -> SessionState {
    if s.game_over {
        SessionState::GameOver
    } else {
        s.state
    }
}

/// The worlds one playing tick steps through, in the fixed system order:
/// gravity, position integration, obstacle reload and activation,
/// collision detection, scoring, and the maintenance barrier.
pub open spec fn tick_chain(
    g0: Game,
    w1: World,
    w2: World,
    w3: World,
    w4: World,
    w5: World,
    g1: Game,
    dt_ms: u32,
) -> bool {
    physics_rel(g0.world, w1, g0.config, dt_ms) && movement_rel(w1, w2) && reload_rel(
        w2,
        w3,
        g0.config,
    ) && activate_rel(w3, w4, g0.config) && g1.session.game_over == collision_after(
        w4,
        g0.session.game_over,
    ) && score_rel(w4, w5, g0.session.score, g1.session.score) && maintain_rel(w5, g1.world)
}

/// One call of `advance`: outside play only the maintenance barrier runs;
/// in play the full system order runs over the store and the animator
/// ticks.
pub open spec fn tick_rel(g0: Game, g1: Game, dt_ms: u32) -> bool {
    g1.config == g0.config && g1.session.state == effective_state(g0.session) && if effective_state(
        g0.session,
    ) is Playing {
        g1.session.last_dt_ms == dt_ms && sheet_ticked(g0.animator, g1.animator) && exists|
            w1: World,
            w2: World,
            w3: World,
            w4: World,
            w5: World,
        | tick_chain(g0, w1, w2, w3, w4, w5, g1, dt_ms)
    } else {
        g1.session.score == g0.session.score && g1.session.game_over == g0.session.game_over
            && g1.session.last_dt_ms == g0.session.last_dt_ms && g1.animator == g0.animator
            && maintain_rel(g0.world, g1.world)
    }
}

/// The doubling threshold of a tap: seven tenths of the flap impulse.
pub open spec fn flap_threshold(cfg: Config) -> int {
    cfg.flap_impulse - (cfg.flap_impulse * 3) / 10
}

/// The velocity after one tap: the flap impulse comes off the vertical
/// velocity, doubled when the entity is already falling faster than the
/// threshold, so pulling out of a dive feels stronger.
pub open spec fn flapped_vel(v: Vel, cfg: Config) -> Vel {
    if v.y > flap_threshold(cfg) {
        Vel { x: v.x, y: sat_add_i64(v.y as int, -2 * cfg.flap_impulse) as i64 }
    } else {
        Vel { x: v.x, y: sat_add_i64(v.y as int, -cfg.flap_impulse) as i64 }
    }
}

/// A velocity after the tap pass: only a controllable entity's velocity
/// takes the impulse.
pub open spec fn flap_applied(v: Option<Vel>, ctrl: bool, cfg: Config) -> Option<Vel> {
    if ctrl && v is Some {
        Some(flapped_vel(v->Some_0, cfg))
    } else {
        v
    }
}

/// A tap rewrites only the controllable entity's velocity.
pub open spec fn flap_world_rel(w0: World, w1: World, cfg: Config) -> bool {
    w1.rects@ == w0.rects@ && w1.pairs@ == w0.pairs@ && w1.collidable@ == w0.collidable@
        && w1.controllable@ == w0.controllable@ && w1.counted@ == w0.counted@ && w1.pending@
        == w0.pending@ && w1.vels@.len() == w0.vels@.len() && (forall|i: int|
        0 <= i < w0.vels@.len() ==> w1.vels@[i] == flap_applied(
            w0.vels@[i],
            w0.controllable@[i],
            cfg,
        ))
}

/// One tap: the controllable entity's velocity takes the impulse and the
/// flap clip starts if it is registered; nothing else moves.
pub open spec fn flap_rel(g0: Game, g1: Game) -> bool {
    g1.config == g0.config && g1.session == g0.session && flap_world_rel(
        g0.world,
        g1.world,
        g0.config,
    ) && (has_clip(g0.animator.clips@, ClipId::Flap) ==> started(
        g0.animator.clips@,
        g1.animator.clips@,
        ClipId::Flap,
    )) && (!has_clip(g0.animator.clips@, ClipId::Flap) ==> g1.animator == g0.animator)
        && g1.animator.sprite_size_x == g0.animator.sprite_size_x && g1.animator.sprite_size_y
        == g0.animator.sprite_size_y && g1.animator.step_len == g0.animator.step_len
}

/// A tap touches only the free-moving controllable entity: the store
/// invariant survives.
pub proof fn lemma_flap_preserves_wf(w0: World, w1: World, cfg: Config, tight: int)
    requires
        world_wf(w0, tight),
        flap_world_rel(w0, w1, cfg),
    ensures
        world_wf(w1, tight),
{
    assert forall|i: int|
        0 <= i < w1.rects@.len() && w1.controllable@[i] implies w1.rects@[i] is Some
        && w1.vels@[i] is Some && w1.pairs@[i] is None by {
        assert(w1.vels@[i] == flap_applied(w0.vels@[i], w0.controllable@[i], cfg));
    }
    assert forall|i: int|
        0 <= i < w1.rects@.len() && w1.pairs@[i] is Some implies (w1.vels@[i] matches Some(v)
        ==> v.y == 0) by {
        assert(!w0.controllable@[i]);
        assert(w1.vels@[i] == flap_applied(w0.vels@[i], w0.controllable@[i], cfg));
    }
}


/// Where the controllable entity (re)spawns: a square a third of the way
/// into the window on both axes, pulled back by its own side.
pub open spec fn spawn_rect(cfg: Config) -> Rect {
    Rect {
        pos_x: (cfg.window_w / 3 - cfg.square_size) as i64,
        pos_y: (cfg.window_h / 3 - cfg.square_size) as i64,
        size_x: cfg.square_size,
        size_y: cfg.square_size,
    }
}

/// The ceiling wall: a thin collidable strip across the top.
pub open spec fn top_wall(cfg: Config) -> Rect {
    Rect {
        pos_x: -100i64,
        pos_y: -100i64,
        size_x: (cfg.window_w + 100) as i64,
        size_y: (cfg.square_size / 2) as i64,
    }
}

/// The floor wall: a thin collidable strip across the bottom.
pub open spec fn bottom_wall(cfg: Config) -> Rect {
    Rect {
        pos_x: -100i64,
        pos_y: (cfg.window_h - cfg.square_size / 2) as i64,
        size_x: (cfg.window_w + 100) as i64,
        size_y: (cfg.square_size / 2) as i64,
    }
}

/// A freshly built upper obstacle piece for a drawn multiplier: parked
/// just past the right edge, hanging from the ceiling down to the gap.
pub open spec fn fresh_upper(cfg: Config, m: int) -> Rect {
    Rect {
        pos_x: respawn_x(cfg) as i64,
        pos_y: 0i64,
        size_x: (2 * cfg.square_size / 3) as i64,
        size_y: (gap_center(cfg, m) - cfg.gap_tight_factor / 2) as i64,
    }
}

/// A freshly built lower obstacle piece for the same multiplier: from
/// below the gap down to the window bottom.
pub open spec fn fresh_lower(cfg: Config, m: int) -> Rect {
    Rect {
        pos_x: respawn_x(cfg) as i64,
        pos_y: (gap_center(cfg, m) + cfg.gap_tight_factor / 2) as i64,
        size_x: (2 * cfg.square_size / 3) as i64,
        size_y: (cfg.window_h - (gap_center(cfg, m) + cfg.gap_tight_factor / 2)) as i64,
    }
}

/// Pair `t` of a fresh world carries linked geometry drawn from some one
/// multiplier.
pub open spec fn has_pair_fresh(w: World, cfg: Config, t: int) -> bool {
    exists|m: i64| #[trigger] pair_fresh(w, cfg, t, m)
}

/// Pair `t` of a fresh world carries linked geometry drawn from the
/// multiplier `m`.
pub open spec fn pair_fresh(w: World, cfg: Config, t: int, m: i64) -> bool {
    cfg.gap_multiplier_low <= m < cfg.gap_multiplier_high && w.rects@[3 + 2 * t] == Some(
        fresh_upper(cfg, m as int),
    ) && w.rects@[4 + 2 * t] == Some(fresh_lower(cfg, m as int))
}

/// The world a new session starts with: the controllable square at its
/// spawn with no velocity, the two walls, and one obstacle pair per
/// identifier from zero through the configured count, all respawned on
/// the right, the lead pair already scrolling and the rest parked.
pub open spec fn new_world_rel(w: World, cfg: Config) -> bool {
    cols_consistent(w) && w.rects@.len() == 3 + 2 * (cfg.obstacle_count as int + 1) && w.pending@
        == Seq::<Command>::empty() && (forall|i: int|
        0 <= i < w.rects@.len() ==> !w.counted@[i]) && (forall|i: int|
        0 <= i < w.rects@.len() ==> (w.controllable@[i] <==> i == 0)) && (forall|i: int|
        0 <= i < w.rects@.len() ==> w.collidable@[i]) && w.rects@[0] == Some(spawn_rect(cfg))
        && w.vels@[0] == Some(Vel { x: 0i64, y: 0i64 }) && w.rects@[1] == Some(top_wall(cfg))
        && w.vels@[1] is None && w.rects@[2] == Some(bottom_wall(cfg)) && w.vels@[2] is None
        && w.pairs@[0] is None && w.pairs@[1] is None && w.pairs@[2] is None && (forall|i: int|
        3 <= i < w.rects@.len() ==> w.pairs@[i] == Some((((i - 3) / 2)) as u64)) && (forall|i: int|
        3 <= i < w.rects@.len() ==> w.vels@[i] == (if i < 5 {
            Some(Vel { x: cfg.obstacle_speed, y: 0i64 })
        } else {
            Option::<Vel>::None
        })) && (forall|t: int|
        0 <= t <= cfg.obstacle_count as int ==> #[trigger] has_pair_fresh(w, cfg, t))
}



/// One primary input: in the menu it starts play, in play it taps, on the
/// game-over screen it restarts the session.
pub open spec fn input_rel(g0: Game, g1: Game) -> bool {
    match g0.session.state {
        SessionState::Menu => g1.config == g0.config && g1.animator == g0.animator && same_cols(
            g0.world,
            g1.world,
        ) && g1.session == (Session { state: SessionState::Playing, ..g0.session }),
        SessionState::Playing => flap_rel(g0, g1),
        SessionState::GameOver => reset_rel(g0, g1),
    }
}

/// The geometry of the scrolling obstacles among the first `i` entities,
/// in entity order: what the presentation layer draws.
pub open spec fn scroll_rects_upto(w: World, i: int) -> Seq<Rect>
    decreases i,
{
    if i <= 0 {
        Seq::<Rect>::empty()
    } else if scrolling_obstacle_at(w, i - 1) {
        scroll_rects_upto(w, i - 1).push(w.rects@[i - 1]->Some_0)
    } else {
        scroll_rects_upto(w, i - 1)
    }
}

/// A pair member that hangs from the ceiling: the pair's upper piece.
pub open spec fn pair_upper_at(w: World, i: int) -> bool {
    0 <= i < w.rects@.len() && w.pairs@[i] is Some && (w.rects@[i] matches Some(r) && r.pos_y == 0)
}

/// After a reset, the pair led by upper piece `i` with partner `j` drew
/// the multiplier `m`.
pub open spec fn pair_reset_with(w1: World, cfg: Config, i: int, j: int, m: i64) -> bool {
    cfg.gap_multiplier_low <= m < cfg.gap_multiplier_high && w1.rects@[i] == Some(
        fresh_upper(cfg, m as int),
    ) && w1.rects@[j] == Some(fresh_lower(cfg, m as int))
}

/// After a reset, the pair led by upper piece `i` with partner `j` drew
/// some multiplier.
pub open spec fn pair_reset(w1: World, cfg: Config, i: int, j: int) -> bool {
    exists|m: i64| #[trigger] pair_reset_with(w1, cfg, i, j, m)
}

/// Entity `k` carries the freshly drawn lower piece of multiplier `m`.
pub open spec fn fresh_lower_with(w: World, cfg: Config, k: int, m: i64) -> bool {
    cfg.gap_multiplier_low <= m < cfg.gap_multiplier_high && w.rects@[k] == Some(
        fresh_lower(cfg, m as int),
    )
}

/// Entity `k` carries some freshly drawn lower piece.
pub open spec fn is_fresh_lower(w: World, cfg: Config, k: int) -> bool {
    exists|m: i64| #[trigger] fresh_lower_with(w, cfg, k, m)
}

/// A pair upper piece `k` stands done: some distinct, non-upper partner
/// shares its tag and the two carry linked fresh geometry of `m`.
pub open spec fn pair_done_with(w0: World, w: World, cfg: Config, k: int, l: int, m: i64) -> bool {
    0 <= l < w0.rects@.len() && l != k && w0.pairs@[l] == w0.pairs@[k] && !pair_upper_at(w0, l)
        && pair_reset_with(w, cfg, k, l, m)
}

/// A pair upper piece `k` stands done for some partner and multiplier.
pub open spec fn pair_done(w0: World, w: World, cfg: Config, k: int) -> bool {
    exists|l: int, m: i64| #[trigger] pair_done_with(w0, w, cfg, k, l, m)
}

/// A reset re-centers the controllable entity, re-randomizes and re-parks
/// every obstacle pair with its counted marker cleared, and leaves all
/// other entities and the tags untouched.
pub open spec fn reset_world_rel(w0: World, w1: World, cfg: Config) -> bool {
    w1.pairs@ == w0.pairs@ && w1.collidable@ == w0.collidable@ && w1.controllable@
        == w0.controllable@ && w1.pending@ == w0.pending@ && w1.rects@.len() == w0.rects@.len()
        && w1.vels@.len() == w0.vels@.len() && w1.counted@.len() == w0.counted@.len() && (forall|
        i: int,
    |
        0 <= i < w0.rects@.len() && #[trigger] w0.controllable@[i] ==> w1.rects@[i] == Some(
            spawn_rect(cfg),
        ) && w1.vels@[i] == Some(Vel { x: 0i64, y: 0i64 }) && w1.counted@[i] == w0.counted@[i]) && (
    forall|i: int|
        0 <= i < w0.rects@.len() && #[trigger] w0.pairs@[i] is Some ==> w1.vels@[i] is None
            && !w1.counted@[i]) && (forall|i: int|
        0 <= i < w0.rects@.len() && w0.pairs@[i] is None && !w0.controllable@[i]
            ==> w1.rects@[i] == w0.rects@[i] && w1.vels@[i] == w0.vels@[i] && w1.counted@[i]
            == w0.counted@[i]) && (forall|i: int, j: int|
        0 <= i < w0.rects@.len() && 0 <= j < w0.rects@.len() && i != j && w0.pairs@[i] is Some
            && w0.pairs@[i] == w0.pairs@[j] && pair_upper_at(w0, i) && !pair_upper_at(w0, j)
            ==> #[trigger] pair_reset(w1, cfg, i, j))
}

/// One reset: score and game-over flag zeroed, the session back in play,
/// the world re-centered and re-randomized; configuration, animator and
/// the elapsed-time record stay.
pub open spec fn reset_rel(g0: Game, g1: Game) -> bool {
    g1.config == g0.config && g1.animator == g0.animator && g1.session == (Session {
        state: SessionState::Playing,
        score: 0,
        game_over: false,
        last_dt_ms: g0.session.last_dt_ms,
    }) && reset_world_rel(g0.world, g1.world, g0.config)
}

/// Only one piece of a pair hangs from the ceiling: the store invariant
/// keeps the spans a positive clearance apart, so the upper piece's
/// partner sits strictly below it.
pub proof fn lemma_upper_unique(w0: World, tight: int, a: int, b: int)
    requires
        world_wf(w0, tight),
        tight > 0,
        a != b,
        0 <= b < w0.rects@.len(),
        pair_upper_at(w0, a),
        w0.pairs@[a] == w0.pairs@[b],
    ensures
        !pair_upper_at(w0, b),
{
    assert(pair_spans_ok(w0.rects@[a]->Some_0, w0.rects@[b]->Some_0, tight) || pair_spans_ok(
        w0.rects@[b]->Some_0,
        w0.rects@[a]->Some_0,
        tight,
    ));
    assert(w0.rects@[a] matches Some(r) && rect_wf(r));
    assert(w0.rects@[b] matches Some(r) && rect_wf(r));
}

impl Game {

    /// Build a new game world: the controllable square, the two walls,
    /// and a fresh obstacle pair per identifier, the lead pair already
    /// scrolling.  An animator without the default clip is a fatal
    /// configuration error.
    pub fn new(config: Config, animator: Spritesheet) -> (r: Result<Game, SimError>)
        requires
            config.wf(),
            sheet_wf(animator),
        ensures
            has_clip(animator.clips@, ClipId::Idle) ==> (r matches Ok(g) && g.wf() && g.config
                == config && g.session == initial_session() && g.animator == animator
                && new_world_rel(g.world, config)),
            !has_clip(animator.clips@, ClipId::Idle) ==> r == Err::<Game, SimError>(
                SimError::ConfigurationError,
            ),
    {
        if !animator.contains_clip(ClipId::Idle) {
            return Err(SimError::ConfigurationError);
        }
        let mut w = World::new();
        let player = Rect {
            pos_x: config.window_w / 3 - config.square_size,
            pos_y: config.window_h / 3 - config.square_size,
            size_x: config.square_size,
            size_y: config.square_size,
        };
        let _e0 = w.create(Some(player), Some(Vel { x: 0, y: 0 }), None, true, true);
        let wall_h = config.square_size / 2;
        let _e1 = w.create(
            Some(Rect { pos_x: -100, pos_y: -100, size_x: config.window_w + 100, size_y: wall_h }),
            None,
            None,
            true,
            false,
        );
        let _e2 = w.create(
            Some(
                Rect {
                    pos_x: -100,
                    pos_y: config.window_h - wall_h,
                    size_x: config.window_w + 100,
                    size_y: wall_h,
                },
            ),
            None,
            None,
            true,
            false,
        );
        let total: usize = config.obstacle_count as usize + 1;
        let mut t: usize = 0;
        while t < total
            invariant
                config.wf(),
                total == config.obstacle_count as usize + 1,
                t <= total,
                cols_consistent(w),
                w.rects@.len() == 3 + 2 * t,
                w.pending@ == Seq::<Command>::empty(),
                forall|i: int| 0 <= i < w.rects@.len() ==> !w.counted@[i],
                forall|i: int| 0 <= i < w.rects@.len() ==> (w.controllable@[i] <==> i == 0),
                forall|i: int| 0 <= i < w.rects@.len() ==> w.collidable@[i],
                w.rects@[0] == Some(spawn_rect(config)),
                w.vels@[0] == Some(Vel { x: 0i64, y: 0i64 }),
                w.rects@[1] == Some(top_wall(config)),
                w.vels@[1] is None,
                w.rects@[2] == Some(bottom_wall(config)),
                w.vels@[2] is None,
                w.pairs@[0] is None,
                w.pairs@[1] is None,
                w.pairs@[2] is None,
                forall|i: int| 3 <= i < w.rects@.len() ==> w.pairs@[i] == Some((((i - 3) / 2)) as u64),
                forall|i: int|
                    3 <= i < w.rects@.len() ==> w.vels@[i] == (if i < 5 {
                        Some(Vel { x: config.obstacle_speed, y: 0i64 })
                    } else {
                        Option::<Vel>::None
                    }),
                forall|tt: int| 0 <= tt < t ==> #[trigger] has_pair_fresh(w, config, tt),
            decreases total - t,
        {
            let ghost wpre = w;
            let m = draw_in_range(config.gap_multiplier_low, config.gap_multiplier_high);
            let wh2 = config.window_h / 2;
            proof {
                assert(0 <= wh2 * m <= 500_000_000i64 * 10_000) by (nonlinear_arith)
                    requires
                        0 <= wh2 <= 500_000_000i64,
                        0 <= m <= 10_000i64,
                ;
            }
            let h = wh2 * m / 100;
            let half = config.gap_tight_factor / 2;
            let piece_w = 2 * config.square_size / 3;
            let vel = if t == 0 {
                Some(Vel { x: config.obstacle_speed, y: 0 })
            } else {
                None
            };
            let spawn = config.window_w + RELOAD_MARGIN;
            let _up = w.create(
                Some(Rect { pos_x: spawn, pos_y: 0, size_x: piece_w, size_y: h - half }),
                vel,
                Some(t as u64),
                true,
                false,
            );
            let _lo = w.create(
                Some(
                    Rect {
                        pos_x: spawn,
                        pos_y: h + half,
                        size_x: piece_w,
                        size_y: config.window_h - (h + half),
                    },
                ),
                vel,
                Some(t as u64),
                true,
                false,
            );
            proof {
                assert((3 + 2 * t as int - 3) / 2 == t as int);
                assert((4 + 2 * t as int - 3) / 2 == t as int);
                assert(pair_fresh(w, config, t as int, m));
                assert forall|tt: int| 0 <= tt < t + 1 implies #[trigger] has_pair_fresh(
                    w,
                    config,
                    tt,
                ) by {
                    if tt < t as int {
                        assert(has_pair_fresh(wpre, config, tt));
                        let m2 = choose|m2: i64| #[trigger] pair_fresh(wpre, config, tt, m2);
                        assert(pair_fresh(wpre, config, tt, m2));
                        assert(w.rects@[3 + 2 * tt] == wpre.rects@[3 + 2 * tt]);
                        assert(w.rects@[4 + 2 * tt] == wpre.rects@[4 + 2 * tt]);
                        assert(pair_fresh(w, config, tt, m2));
                    }
                }
            }
            t = t + 1;
        }
        proof {
            lemma_count_true_one(w.controllable@, 0);
            let tight = config.gap_tight_factor as int;
            lemma_even_halves(tight);
            assert forall|i: int| 0 <= i < w.rects@.len() implies (#[trigger] w.pairs@[i] matches Some(
                id,
            ) ==> crate::store::pair_count(w.pairs@, id) == 2) by {
                if w.pairs@[i] is Some {
                    let id = w.pairs@[i]->Some_0;
                    let tt = (i - 3) / 2;
                    assert(3 <= i);
                    assert(id == tt as u64);
                    let a = 3 + 2 * tt;
                    let b = 4 + 2 * tt;
                    assert(a == i || b == i);
                    assert(w.pairs@[a] == Some(id) && w.pairs@[b] == Some(id));
                    assert forall|k: int|
                        0 <= k < w.pairs@.len() && k != a && k != b implies w.pairs@[k] != Some(
                        id,
                    ) by {
                        if k >= 3 {
                            assert(w.pairs@[k] == Some((((k - 3) / 2)) as u64));
                            if (k - 3) / 2 == tt {
                                assert(k == a || k == b);
                            }
                        }
                    }
                    lemma_pair_count_exact_two(w.pairs@, id, a, b);
                }
            }
            assert forall|i: int, j: int|
                0 <= i < w.rects@.len() && 0 <= j < w.rects@.len() && i != j && w.pairs@[i] is Some
                    && #[trigger] w.pairs@[i] == #[trigger] w.pairs@[j] implies pair_spans_ok(
                w.rects@[i]->Some_0,
                w.rects@[j]->Some_0,
                tight,
            ) || pair_spans_ok(w.rects@[j]->Some_0, w.rects@[i]->Some_0, tight) by {
                let ti = (i - 3) / 2;
                let tj = (j - 3) / 2;
                assert(ti == tj);
                assert(has_pair_fresh(w, config, ti));
                let m = choose|m: i64| #[trigger] pair_fresh(w, config, ti, m);
                assert(pair_fresh(w, config, ti, m));
                lemma_gap_center_bounds(config, m);
                assert(i == 3 + 2 * ti || i == 4 + 2 * ti);
                assert(j == 3 + 2 * tj || j == 4 + 2 * tj);
            }
            assert forall|i: int| 0 <= i < w.rects@.len() implies (#[trigger] w.rects@[i] matches Some(
                r,
            ) ==> crate::geom::rect_wf(r)) by {
                if i >= 3 {
                    let tt = (i - 3) / 2;
                    assert(has_pair_fresh(w, config, tt));
                    let m = choose|m: i64| #[trigger] pair_fresh(w, config, tt, m);
                    assert(pair_fresh(w, config, tt, m));
                    lemma_gap_center_bounds(config, m);
                    assert(i == 3 + 2 * tt || i == 4 + 2 * tt);
                }
            }
            assert forall|i: int|
                0 <= i < w.rects@.len() && #[trigger] w.pairs@[i] is Some implies w.rects@[i] is Some
                && w.collidable@[i] by {
                let tt = (i - 3) / 2;
                assert(has_pair_fresh(w, config, tt));
                let m = choose|m: i64| #[trigger] pair_fresh(w, config, tt, m);
                assert(pair_fresh(w, config, tt, m));
                assert(i == 3 + 2 * tt || i == 4 + 2 * tt);
            }
            assert(world_wf(w, tight));
        }
        Ok(
            Game {
                world: w,
                session: Session {
                    state: SessionState::Menu,
                    score: 0,
                    game_over: false,
                    last_dt_ms: 0,
                },
                config,
                animator,
            },
        )
    }

    /// One simulation tick, driven once per rendered frame.  A raised
    /// game-over flag first moves the session to the game-over screen;
    /// while playing, the fixed system order of a tick runs; the
    /// maintenance barrier runs in every phase.
    pub fn advance(&mut self, dt_ms: u32)
        requires
            old(self).wf(),
        ensures
            final(self).wf(),
            tick_rel(*old(self), *final(self), dt_ms),
            count_true(final(self).world.controllable@) == 1,
            forall|i: int|
                0 <= i < final(self).world.rects@.len() ==> (#[trigger] final(self).world.pairs@[i]
                    matches Some(id) ==> crate::store::pair_count(final(self).world.pairs@, id)
                    == 2),
            forall|i: int, j: int|
                0 <= i < final(self).world.rects@.len() && 0 <= j
                    < final(self).world.rects@.len() && i != j
                    && final(self).world.pairs@[i] is Some && #[trigger] final(self).world.pairs@[i]
                    == #[trigger] final(self).world.pairs@[j] ==> crate::store::pair_spans_ok(
                    final(self).world.rects@[i]->Some_0,
                    final(self).world.rects@[j]->Some_0,
                    final(self).config.gap_tight_factor as int,
                ) || crate::store::pair_spans_ok(
                    final(self).world.rects@[j]->Some_0,
                    final(self).world.rects@[i]->Some_0,
                    final(self).config.gap_tight_factor as int,
                ),
    {
        let ghost g0 = *old(self);
        let ghost tight = self.config.gap_tight_factor as int;
        if self.session.game_over {
            self.session.state = SessionState::GameOver;
        }
        let playing = match self.session.state {
            SessionState::Playing => true,
            _ => false,
        };
        if playing {
            self.session.last_dt_ms = dt_ms;
            physics_step(&mut self.world, &self.config, dt_ms);
            let ghost w1 = self.world;
            proof {
                lemma_physics_preserves_wf(g0.world, w1, g0.config, dt_ms, tight);
            }
            movement_step(&mut self.world);
            let ghost w2 = self.world;
            proof {
                lemma_movement_preserves_wf(w1, w2, tight);
            }
            self.animator.tick();
            proof {
                if has_clip(g0.animator.clips@, ClipId::Idle) {
                    let k = choose|k: int|
                        0 <= k < g0.animator.clips@.len() && g0.animator.clips@[k].id
                            == ClipId::Idle;
                    assert(self.animator.clips@[k] == clip_step(g0.animator.clips@[k]));
                    assert(self.animator.clips@[k].id == ClipId::Idle);
                }
            }
            reload_step(&mut self.world, &self.config);
            let ghost w3 = self.world;
            proof {
                lemma_reload_preserves_wf(w2, w3, g0.config);
            }
            activate_step(&mut self.world, &self.config);
            let ghost w4 = self.world;
            proof {
                lemma_activate_preserves_wf(w3, w4, g0.config);
            }
            let hit = collision_step(&self.world, self.session.game_over);
            self.session.game_over = hit;
            let mut sc = self.session.score;
            score_step(&mut self.world, &mut sc);
            self.session.score = sc;
            let ghost w5 = self.world;
            proof {
                lemma_wf_same_core(w4, w5, tight);
            }
            self.world.maintain();
            proof {
                lemma_wf_same_core(w5, self.world, tight);
                assert(tick_chain(g0, w1, w2, w3, w4, w5, *self, dt_ms));
            }
        } else {
            self.world.maintain();
            proof {
                lemma_wf_same_core(g0.world, self.world, tight);
            }
        }
    }

    /// The externally triggered tap: reduce the controllable entity's
    /// vertical velocity by the flap impulse, doubled past the threshold,
    /// and start the flap clip.
    pub fn apply_flap_impulse(&mut self)
        requires
            old(self).wf(),
        ensures
            final(self).wf(),
            flap_rel(*old(self), *final(self)),
    {
        let ghost g0 = *old(self);
        let ghost tight = self.config.gap_tight_factor as int;
        let imp = self.config.flap_impulse;
        let thr = imp - (imp * 3) / 10;
        let n = self.world.vels.len();
        let mut i: usize = 0;
        while i < n
            invariant
                cols_consistent(self.world),
                n == self.world.vels@.len(),
                i <= n,
                g0.config.wf(),
                imp == g0.config.flap_impulse,
                thr as int == flap_threshold(g0.config),
                self.config == g0.config,
                self.session == g0.session,
                self.animator == g0.animator,
                self.world.rects@ == g0.world.rects@,
                self.world.pairs@ == g0.world.pairs@,
                self.world.collidable@ == g0.world.collidable@,
                self.world.controllable@ == g0.world.controllable@,
                self.world.counted@ == g0.world.counted@,
                self.world.pending@ == g0.world.pending@,
                self.world.vels@.len() == g0.world.vels@.len(),
                forall|j: int|
                    0 <= j < i ==> self.world.vels@[j] == flap_applied(
                        g0.world.vels@[j],
                        g0.world.controllable@[j],
                        g0.config,
                    ),
                forall|j: int| i <= j < n ==> self.world.vels@[j] == g0.world.vels@[j],
            decreases n - i,
        {
            if self.world.controllable[i] {
                if let Some(v) = self.world.vels[i] {
                    let ny = if v.y > thr {
                        add_sat(v.y, -(2 * imp))
                    } else {
                        add_sat(v.y, -imp)
                    };
                    self.world.vels[i] = Some(Vel { x: v.x, y: ny });
                }
            }
            i = i + 1;
        }
        proof {
            lemma_flap_preserves_wf(g0.world, self.world, g0.config, tight);
        }
        let _ = self.animator.start_animation(ClipId::Flap);
        proof {
            if has_clip(g0.animator.clips@, ClipId::Idle) {
                let k = choose|k: int|
                    0 <= k < g0.animator.clips@.len() && g0.animator.clips@[k].id == ClipId::Idle;
                assert(self.animator.clips@[k].id == ClipId::Idle);
            }
        }
    }


    /// Restart the session: re-center the controllable entity, park and
    /// re-randomize every obstacle pair with its counted marker cleared,
    /// zero the score and the game-over flag, and play again.
    pub fn reset_session(&mut self)
        requires
            old(self).wf(),
        ensures
            final(self).wf(),
            reset_rel(*old(self), *final(self)),
    {
        let ghost g0 = *old(self);
        let ghost w0 = old(self).world;
        let ghost tight = self.config.gap_tight_factor as int;
        let n = self.world.rects.len();
        let spawn = Rect {
            pos_x: self.config.window_w / 3 - self.config.square_size,
            pos_y: self.config.window_h / 3 - self.config.square_size,
            size_x: self.config.square_size,
            size_y: self.config.square_size,
        };
        let mut i: usize = 0;
        while i < n
            invariant
                cols_consistent(self.world),
                n == self.world.rects@.len(),
                i <= n,
                self.config == g0.config,
                self.session == g0.session,
                self.animator == g0.animator,
                spawn == spawn_rect(g0.config),
                self.world.pairs@ == w0.pairs@,
                self.world.collidable@ == w0.collidable@,
                self.world.controllable@ == w0.controllable@,
                self.world.pending@ == w0.pending@,
                self.world.counted@ == w0.counted@,
                self.world.rects@.len() == w0.rects@.len(),
                self.world.vels@.len() == w0.vels@.len(),
                forall|k: int|
                    0 <= k < i && w0.controllable@[k] ==> self.world.rects@[k] == Some(
                        spawn_rect(g0.config),
                    ) && self.world.vels@[k] == Some(Vel { x: 0i64, y: 0i64 }),
                forall|k: int|
                    0 <= k < n && !(k < i && w0.controllable@[k]) ==> self.world.rects@[k]
                        == w0.rects@[k] && self.world.vels@[k] == w0.vels@[k],
            decreases n - i,
        {
            if self.world.controllable[i] {
                self.world.set_rect(i, spawn);
                self.world.vels[i] = Some(Vel { x: 0, y: 0 });
            }
            i = i + 1;
        }
        let ghost w1s = self.world;
        let mut p: usize = 0;
        while p < n
            invariant
                cols_consistent(self.world),
                n == self.world.rects@.len(),
                p <= n,
                self.config == g0.config,
                self.session == g0.session,
                self.animator == g0.animator,
                self.world.pairs@ == w0.pairs@,
                self.world.collidable@ == w0.collidable@,
                self.world.controllable@ == w0.controllable@,
                self.world.pending@ == w0.pending@,
                self.world.rects@ == w1s.rects@,
                self.world.vels@.len() == w0.vels@.len(),
                self.world.counted@.len() == w0.counted@.len(),
                forall|k: int|
                    #![trigger w0.pairs@[k]]
                    0 <= k < p && w0.pairs@[k] is Some ==> self.world.vels@[k] is None
                        && !self.world.counted@[k],
                forall|k: int|
                    #![trigger self.world.vels@[k]]
                    #![trigger self.world.counted@[k]]
                    0 <= k < n && !(k < p && w0.pairs@[k] is Some) ==> self.world.vels@[k]
                        == w1s.vels@[k] && self.world.counted@[k] == w1s.counted@[k],
            decreases n - p,
        {
            let ghost wstep = self.world;
            if self.world.pairs[p].is_some() {
                self.world.vels[p] = None;
                self.world.counted[p] = false;
            }
            proof {
                assert forall|k: int|
                    0 <= k < p + 1 && w0.pairs@[k] is Some implies self.world.vels@[k] is None
                    && !self.world.counted@[k] by {
                    if k < p as int {
                        assert(wstep.vels@[k] is None && !wstep.counted@[k]);
                    }
                }
            }
            p = p + 1;
        }
        let ghost w2s = self.world;
        proof {
            assert forall|k: int|
                0 <= k < n && #[trigger] w0.pairs@[k] is Some implies w2s.rects@[k]
                == w0.rects@[k] by {
                assert(!w0.controllable@[k]);
            }
        }
        let mut q: usize = 0;
        while q < n
            invariant
                cols_consistent(self.world),
                n == self.world.rects@.len(),
                q <= n,
                g0.wf(),
                world_wf(w0, tight),
                tight == g0.config.gap_tight_factor as int,
                w0 == g0.world,
                self.config == g0.config,
                self.session == g0.session,
                self.animator == g0.animator,
                self.world.pairs@ == w0.pairs@,
                self.world.collidable@ == w0.collidable@,
                self.world.controllable@ == w0.controllable@,
                self.world.pending@ == w0.pending@,
                self.world.vels@ == w2s.vels@,
                self.world.counted@ == w2s.counted@,
                self.world.rects@.len() == w0.rects@.len(),
                w2s.rects@.len() == w0.rects@.len(),
                forall|k: int|
                    0 <= k < n && #[trigger] w0.pairs@[k] is Some ==> w2s.rects@[k]
                        == w0.rects@[k],
                forall|k: int|
                    0 <= k < n && !(w0.pairs@[k] is Some) ==> self.world.rects@[k]
                        == w2s.rects@[k],
                forall|k: int|
                    q <= k < n && pair_upper_at(w0, k) ==> self.world.rects@[k] == w0.rects@[k],
                forall|k: int|
                    0 <= k < q && pair_upper_at(w0, k) ==> #[trigger] pair_done(
                        w0,
                        self.world,
                        g0.config,
                        k,
                    ),
                forall|k: int, l: int|
                    #![trigger pair_upper_at(w0, k), w0.pairs@[l]]
                    q <= k < n && pair_upper_at(w0, k) && 0 <= l < n && l != k && w0.pairs@[l]
                        == w0.pairs@[k] ==> self.world.rects@[l] == w0.rects@[l],
                forall|k: int|
                    0 <= k < n && #[trigger] w0.pairs@[k] is Some && !pair_upper_at(w0, k) ==> (
                    self.world.rects@[k] == w0.rects@[k] || is_fresh_lower(
                        self.world,
                        g0.config,
                        k,
                    )),
            decreases n - q,
        {
            let mut is_up = false;
            if self.world.pairs[q].is_some() {
                if let Some(r) = self.world.rects[q] {
                    if r.pos_y == 0 {
                        is_up = true;
                    }
                }
            }
            if is_up {
                proof {
                    if !pair_upper_at(w0, q as int) {
                        if self.world.rects@[q as int] == w0.rects@[q as int] {
                            assert(false);
                        } else {
                            assert(is_fresh_lower(self.world, g0.config, q as int));
                            let m0 = choose|m0: i64|
                                #[trigger] fresh_lower_with(self.world, g0.config, q as int, m0);
                            lemma_gap_center_bounds(g0.config, m0);
                            assert(false);
                        }
                    }
                }
                let ghost ws = *self;
                let mut j: usize = 0;
                let mut found = false;
                while j < n
                    invariant_except_break
                        !found,
                    invariant
                        *self == ws,
                        cols_consistent(self.world),
                        n == self.world.rects@.len(),
                        j <= n,
                        q < n,
                        self.world.pairs@ == w0.pairs@,
                        w0.pairs@[q as int] is Some,
                        forall|jj: int|
                            0 <= jj < j ==> !(jj != q as int && w0.pairs@[jj] == w0.pairs@[q as int]),
                    ensures
                        *self == ws,
                        j <= n,
                        found ==> j < n && j != q && w0.pairs@[j as int] == w0.pairs@[q as int],
                        !found ==> forall|jj: int|
                            0 <= jj < n ==> !(jj != q as int && w0.pairs@[jj] == w0.pairs@[q as int]),
                    decreases n - j,
                {
                    if j != q {
                        let pm = match (self.world.pairs[q], self.world.pairs[j]) {
                            (Some(a), Some(b)) => a == b,
                            _ => false,
                        };
                        if pm {
                            found = true;
                            break ;
                        }
                    }
                    j = j + 1;
                }
                if !found {
                    proof {
                        lemma_partner_exists(w0, tight, q as int);
                        let l = choose|l: int|
                            0 <= l < w0.pairs@.len() && l != q as int && #[trigger] w0.pairs@[l]
                                == w0.pairs@[q as int];
                        assert(false);
                    }
                } else {
                    proof {
                        lemma_upper_unique(w0, tight, q as int, j as int);
                    }
                    let m = draw_in_range(
                        self.config.gap_multiplier_low,
                        self.config.gap_multiplier_high,
                    );
                    let wh2 = self.config.window_h / 2;
                    proof {
                        assert(0 <= wh2 * m <= 500_000_000i64 * 10_000) by (nonlinear_arith)
                            requires
                                0 <= wh2 <= 500_000_000i64,
                                0 <= m <= 10_000i64,
                        ;
                    }
                    let h = wh2 * m / 100;
                    let half = self.config.gap_tight_factor / 2;
                    let piece_w = 2 * self.config.square_size / 3;
                    let spawn_x = self.config.window_w + RELOAD_MARGIN;
                    let ghost wpre = self.world;
                    self.world.set_rect(
                        q,
                        Rect { pos_x: spawn_x, pos_y: 0, size_x: piece_w, size_y: h - half },
                    );
                    self.world.set_rect(
                        j,
                        Rect {
                            pos_x: spawn_x,
                            pos_y: h + half,
                            size_x: piece_w,
                            size_y: self.config.window_h - (h + half),
                        },
                    );
                    proof {
                        assert(self.world.rects@[q as int] == Some(fresh_upper(g0.config, m as int)));
                        assert(self.world.rects@[j as int] == Some(fresh_lower(g0.config, m as int)));
                        assert(pair_done_with(w0, self.world, g0.config, q as int, j as int, m));
                        assert(fresh_lower_with(self.world, g0.config, j as int, m));
                        assert forall|k: int|
                            0 <= k < q + 1 && pair_upper_at(w0, k) implies #[trigger] pair_done(
                            w0,
                            self.world,
                            g0.config,
                            k,
                        ) by {
                            if k < q as int {
                                assert(pair_done(w0, wpre, g0.config, k));
                                let (l2, m2) = choose|l2: int, m2: i64|
                                    #[trigger] pair_done_with(w0, wpre, g0.config, k, l2, m2);
                                if l2 == q as int {
                                    lemma_upper_unique(w0, tight, k, q as int);
                                }
                                if l2 == j as int {
                                    lemma_partner_unique(w0, tight, j as int, k, q as int);
                                }
                                assert(pair_done_with(w0, self.world, g0.config, k, l2, m2));
                            }
                        }
                        assert forall|k: int, l: int|
                            #![trigger pair_upper_at(w0, k), w0.pairs@[l]]
                            q + 1 <= k < n && pair_upper_at(w0, k) && 0 <= l < n && l != k
                                && w0.pairs@[l] == w0.pairs@[k] implies self.world.rects@[l]
                            == w0.rects@[l] by {
                            if l == q as int {
                                lemma_upper_unique(w0, tight, k, q as int);
                            }
                            if l == j as int {
                                lemma_partner_unique(w0, tight, j as int, k, q as int);
                            }
                        }
                        assert forall|k: int|
                            0 <= k < n && #[trigger] w0.pairs@[k] is Some && !pair_upper_at(w0, k)
                                implies (self.world.rects@[k] == w0.rects@[k] || is_fresh_lower(
                            self.world,
                            g0.config,
                            k,
                        )) by {
                            if k == j as int {
                                assert(is_fresh_lower(self.world, g0.config, k));
                            } else if k != q as int {
                                if wpre.rects@[k] == w0.rects@[k] {
                                } else {
                                    assert(is_fresh_lower(wpre, g0.config, k));
                                    let m3 = choose|m3: i64|
                                        #[trigger] fresh_lower_with(wpre, g0.config, k, m3);
                                    assert(fresh_lower_with(self.world, g0.config, k, m3));
                                }
                            }
                        }
                    }
                }
            }
            q = q + 1;
        }
        self.session = Session {
            state: SessionState::Playing,
            score: 0,
            game_over: false,
            last_dt_ms: self.session.last_dt_ms,
        };
        proof {
            let cfg = g0.config;
            let wf1 = self.world;
            assert forall|a: int, b: int|
                0 <= a < n && 0 <= b < n && a != b && w0.pairs@[a] is Some && w0.pairs@[a]
                    == w0.pairs@[b] && pair_upper_at(w0, a) && !pair_upper_at(w0, b)
                    implies #[trigger] pair_reset(wf1, cfg, a, b) by {
                assert(pair_done(w0, wf1, cfg, a));
                let (l2, m2) = choose|l2: int, m2: i64|
                    #[trigger] pair_done_with(w0, wf1, cfg, a, l2, m2);
                lemma_partner_unique(w0, tight, a, l2, b);
                assert(pair_reset_with(wf1, cfg, a, b, m2));
            }
            assert forall|k: int|
                0 <= k < n && #[trigger] w0.controllable@[k] implies wf1.rects@[k] == Some(
                spawn_rect(cfg),
            ) && wf1.vels@[k] == Some(Vel { x: 0i64, y: 0i64 }) && wf1.counted@[k]
                == w0.counted@[k] by {
                assert(w0.pairs@[k] is None);
            }
            assert(reset_world_rel(w0, wf1, cfg));
            assert forall|k: int| 0 <= k < n implies (#[trigger] wf1.rects@[k] matches Some(r)
                ==> rect_wf(r)) by {
                if w0.pairs@[k] is Some {
                    if pair_upper_at(w0, k) {
                        assert(pair_done(w0, wf1, cfg, k));
                        let (l2, m2) = choose|l2: int, m2: i64|
                            #[trigger] pair_done_with(w0, wf1, cfg, k, l2, m2);
                        lemma_gap_center_bounds(cfg, m2);
                    } else {
                        if wf1.rects@[k] == w0.rects@[k] {
                        } else {
                            assert(is_fresh_lower(wf1, cfg, k));
                            let m3 = choose|m3: i64| #[trigger] fresh_lower_with(wf1, cfg, k, m3);
                            lemma_gap_center_bounds(cfg, m3);
                        }
                    }
                } else if w0.controllable@[k] {
                } else {
                    assert(wf1.rects@[k] == w0.rects@[k]);
                }
            }
            assert forall|k: int|
                0 <= k < n && #[trigger] wf1.pairs@[k] is Some implies wf1.rects@[k] is Some
                && wf1.collidable@[k] by {
                if pair_upper_at(w0, k) {
                    assert(pair_done(w0, wf1, cfg, k));
                    let (l2, m2) = choose|l2: int, m2: i64|
                        #[trigger] pair_done_with(w0, wf1, cfg, k, l2, m2);
                } else {
                    if wf1.rects@[k] == w0.rects@[k] {
                    } else {
                        assert(is_fresh_lower(wf1, cfg, k));
                        let m3 = choose|m3: i64| #[trigger] fresh_lower_with(wf1, cfg, k, m3);
                    }
                }
            }
            assert forall|a: int, b: int|
                0 <= a < n && 0 <= b < n && a != b && wf1.pairs@[a] is Some && #[trigger] wf1.pairs@[a]
                    == #[trigger] wf1.pairs@[b] implies pair_spans_ok(
                wf1.rects@[a]->Some_0,
                wf1.rects@[b]->Some_0,
                tight,
            ) || pair_spans_ok(wf1.rects@[b]->Some_0, wf1.rects@[a]->Some_0, tight) by {
                assert(pair_spans_ok(w0.rects@[a]->Some_0, w0.rects@[b]->Some_0, tight)
                    || pair_spans_ok(w0.rects@[b]->Some_0, w0.rects@[a]->Some_0, tight));
                assert(w0.rects@[a] matches Some(r) && rect_wf(r));
                assert(w0.rects@[b] matches Some(r) && rect_wf(r));
                let up = if pair_upper_at(w0, a) {
                    a
                } else {
                    b
                };
                let lo = if pair_upper_at(w0, a) {
                    b
                } else {
                    a
                };
                assert(pair_upper_at(w0, up));
                lemma_upper_unique(w0, tight, up, lo);
                assert(pair_done(w0, wf1, cfg, up));
                let (l2, m2) = choose|l2: int, m2: i64|
                    #[trigger] pair_done_with(w0, wf1, cfg, up, l2, m2);
                lemma_partner_unique(w0, tight, up, l2, lo);
                lemma_gap_center_bounds(cfg, m2);
                lemma_even_halves(tight);
            }
            assert(world_wf(wf1, tight));
        }
    }


    /// Dispatch one primary input according to the session phase.
    pub fn primary_input(&mut self)
        requires
            old(self).wf(),
        ensures
            final(self).wf(),
            input_rel(*old(self), *final(self)),
    {
        match self.session.state {
            SessionState::Menu => {
                self.session.state = SessionState::Playing;
            },
            SessionState::Playing => {
                self.apply_flap_impulse();
            },
            SessionState::GameOver => {
                self.reset_session();
            },
        }
    }

    /// The drawable snapshot of the controllable entity: its geometry,
    /// its velocity, and the sheet region its animator samples this
    /// frame.
    pub fn player_view(&self) -> (r: Result<(Rect, Vel, Rect), SimError>)
        requires
            self.wf(),
        ensures
            r matches Ok(v) && first_controllable(self.world) matches Some(p) && v.0
                == self.world.rects@[p]->Some_0 && v.1 == self.world.vels@[p]->Some_0,
            r matches Ok(v) ==> (first_playing(self.animator.clips@) matches Some(i) ==> v.2
                == sample_rect(self.animator, self.animator.clips@[i])),
            r matches Ok(v) ==> (first_playing(self.animator.clips@) is None ==> exists|i: int|
                0 <= i < self.animator.clips@.len() && self.animator.clips@[i].id == ClipId::Idle
                    && v.2 == sample_rect(self.animator, self.animator.clips@[i])),
    {
        let n = self.world.rects.len();
        let mut p: usize = 0;
        while p < n
            invariant
                cols_consistent(self.world),
                n == self.world.rects@.len(),
                p <= n,
                forall|j: int| 0 <= j < p ==> !self.world.controllable@[j],
            ensures
                p <= n,
                forall|j: int| 0 <= j < p ==> !self.world.controllable@[j],
                p == n || self.world.controllable@[p as int],
            decreases n - p,
        {
            if self.world.controllable[p] {
                break ;
            }
            p = p + 1;
        }
        proof {
            lemma_first_controllable_skip(self.world, p as int);
            if p == n {
                lemma_count_true_zero(self.world.controllable@);
            }
        }
        let rect = match self.world.rects[p] {
            Some(r) => r,
            None => { return Err(SimError::ConfigurationError) },
        };
        let vel = match self.world.vels[p] {
            Some(v) => v,
            None => { return Err(SimError::ConfigurationError) },
        };
        match self.animator.draw() {
            Ok(sample) => Ok((rect, vel, sample)),
            Err(e) => Err(e),
        }
    }

    /// The drawable snapshot of the obstacle field: the geometry of every
    /// actively scrolling obstacle, in entity order.
    pub fn scrolling_obstacle_rects(&self) -> (out: Vec<Rect>)
        requires
            cols_consistent(self.world),
        ensures
            out@ == scroll_rects_upto(self.world, self.world.rects@.len() as int),
    {
        let n = self.world.rects.len();
        let mut out: Vec<Rect> = Vec::new();
        let mut i: usize = 0;
        while i < n
            invariant
                cols_consistent(self.world),
                n == self.world.rects@.len(),
                i <= n,
                out@ == scroll_rects_upto(self.world, i as int),
            decreases n - i,
        {
            if self.world.pairs[i].is_some() && self.world.vels[i].is_some() {
                if let Some(r) = self.world.rects[i] {
                    out.push(r);
                }
            }
            i = i + 1;
        }
        out
    }

    /// The current score.
    pub fn score(&self) -> (r: u64)
        ensures
            r == self.session.score,
    {
        self.session.score
    }

    /// The current game-over flag.
    pub fn is_game_over(&self) -> (r: bool)
        ensures
            r == self.session.game_over,
    {
        self.session.game_over
    }

    /// The current session phase.
    pub fn state(&self) -> (r: SessionState)
        ensures
            r == self.session.state,
    {
        self.session.state
    }
}

} // verus!
