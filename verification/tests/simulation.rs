use flappy_core::anim::{ClipId, Spritesheet};
use flappy_core::config::{default_config, Config};
use flappy_core::game::{Game, Session, SessionState};
use flappy_core::geom::{Rect, Vel};
use flappy_core::store::World;
use flappy_core::systems::{activate_step, reload_step};
use flappy_core::SimError;

fn sheet() -> Spritesheet {
    let mut s = Spritesheet::new(3_200, 2_500, 3_500);
    s.add_animation(ClipId::Idle, 14_500, 14_500, 0, 0);
    s.add_animation_looping(ClipId::Flap, 500, 14_400, 3, false, 1);
    s
}

fn playing_session() -> Session {
    Session { state: SessionState::Playing, score: 0, game_over: false, last_dt_ms: 0 }
}

/// A hand-built playing game: the controllable square plus one scrolling
/// obstacle pair whose gap surrounds the player's vertical span.
fn small_game(player_x: i64, pair_x: i64, scrolling: bool) -> Game {
    let cfg = default_config();
    let mut w = World::new();
    let vel = if scrolling { Some(Vel { x: -350, y: 0 }) } else { None };
    let _player = w.create(
        Some(Rect { pos_x: player_x, pos_y: 28_666, size_x: 8_000, size_y: 8_000 }),
        Some(Vel { x: 0, y: 0 }),
        None,
        true,
        true,
    );
    let _upper = w.create(
        Some(Rect { pos_x: pair_x, pos_y: 0, size_x: 5_333, size_y: 20_000 }),
        vel,
        Some(7),
        true,
        false,
    );
    let _lower = w.create(
        Some(Rect { pos_x: pair_x, pos_y: 42_000, size_x: 5_333, size_y: 68_000 }),
        vel,
        Some(7),
        true,
        false,
    );
    Game { world: w, session: playing_session(), config: cfg, animator: sheet() }
}

fn count_controllable(g: &Game) -> usize {
    let mut n = 0;
    for k in 0..g.world.controllable.len() {
        if g.world.controllable[k] {
            n += 1;
        }
    }
    n
}

/// Every pair of the world spans the window with exactly the configured
/// clearance between its pieces.
fn check_pairs(g: &Game) {
    let cfg = g.config;
    let n = g.world.rects.len();
    for i in 0..n {
        if let Some(id) = g.world.pairs[i] {
            let mut partners = 0;
            for j in 0..n {
                if g.world.pairs[j] == Some(id) {
                    partners += 1;
                }
            }
            assert_eq!(partners, 2, "a pair tag must be shared by exactly two entities");
            let r = g.world.rects[i].unwrap();
            assert!(r.size_y >= 0);
            if r.pos_y == 0 {
                for j in 0..n {
                    if j != i && g.world.pairs[j] == Some(id) {
                        let lower = g.world.rects[j].unwrap();
                        assert!(r.pos_y + r.size_y + cfg.gap_tight_factor <= lower.pos_y);
                    }
                }
            }
        }
    }
}

#[test]
fn new_game_starts_in_the_menu_with_linked_pairs() {
    let cfg = default_config();
    let g = Game::new(cfg, sheet()).unwrap();
    assert_eq!(g.session.state, SessionState::Menu);
    assert_eq!(g.score(), 0);
    assert!(!g.is_game_over());
    // Player, two walls, and one pair per identifier 0 through 3.
    assert_eq!(g.world.rects.len(), 3 + 2 * 4);
    assert_eq!(count_controllable(&g), 1);
    check_pairs(&g);
    // The recycled gap sums: upper + clearance + lower fill the window.
    for t in 0..4usize {
        let up = g.world.rects[3 + 2 * t].unwrap();
        let lo = g.world.rects[4 + 2 * t].unwrap();
        assert_eq!(up.pos_y, 0);
        assert_eq!(up.size_y + cfg.gap_tight_factor + lo.size_y, cfg.window_h);
        assert_eq!(lo.pos_y + lo.size_y, cfg.window_h);
        assert_eq!(up.pos_x, cfg.window_w + 5_000);
        // The drawn multiplier stays inside the configured range.
        assert!(up.size_y >= 0 && up.size_y <= 550 * 179 - 11_000);
    }
    // Only the lead pair scrolls.
    assert!(g.world.vels[3].is_some() && g.world.vels[4].is_some());
    for t in 1..4usize {
        assert!(g.world.vels[3 + 2 * t].is_none() && g.world.vels[4 + 2 * t].is_none());
    }
}

#[test]
fn missing_default_clip_aborts_initialization() {
    let mut s = Spritesheet::new(3_200, 2_500, 3_500);
    s.add_animation_looping(ClipId::Flap, 500, 14_400, 3, false, 1);
    match Game::new(default_config(), s) {
        Err(e) => assert_eq!(e, SimError::ConfigurationError),
        Ok(_) => panic!("an animator without the default clip must be rejected"),
    }
}

#[test]
fn controllable_stays_unique_across_ticks() {
    let mut g = Game::new(default_config(), sheet()).unwrap();
    g.primary_input();
    assert_eq!(g.session.state, SessionState::Playing);
    for _ in 0..120 {
        g.advance(16);
        assert_eq!(count_controllable(&g), 1);
        check_pairs(&g);
    }
}

#[test]
fn passing_a_pair_scores_exactly_once() {
    let mut g = small_game(10_000, 5_000, true);
    g.advance(0);
    assert_eq!(g.score(), 1);
    assert!(g.world.counted[1] && g.world.counted[2]);
    assert!(!g.is_game_over());
    g.advance(0);
    assert_eq!(g.score(), 1, "a counted pair must not be credited again");
}

#[test]
fn a_pair_still_ahead_scores_nothing() {
    let mut g = small_game(10_000, 20_000, true);
    g.advance(0);
    assert_eq!(g.score(), 0);
    assert!(!g.world.counted[1] && !g.world.counted[2]);
}

#[test]
fn boundary_obstacle_is_not_reloaded_at_zero() {
    // pos_x + size_x + margin == -10_333 + 5_333 + 5_000 == 0: kept.
    let mut g = small_game(50_000, -10_333, true);
    let cfg = g.config;
    reload_step(&mut g.world, &cfg);
    assert_eq!(g.world.rects[1].unwrap().pos_x, -10_333);
    assert!(g.world.vels[1].is_some() && g.world.vels[2].is_some());
    assert_eq!(g.world.pending.len(), 0);
}

#[test]
fn one_unit_past_the_boundary_reloads_the_pair() {
    // pos_x + size_x + margin == -1: fully off screen, so the pair is
    // re-gapped, respawned on the right and parked.
    let mut g = small_game(50_000, -10_334, true);
    let cfg = g.config;
    reload_step(&mut g.world, &cfg);
    let up = g.world.rects[1].unwrap();
    let lo = g.world.rects[2].unwrap();
    assert_eq!(up.pos_x, cfg.window_w + 5_000);
    assert_eq!(lo.pos_x, cfg.window_w + 5_000);
    assert!(g.world.vels[1].is_none() && g.world.vels[2].is_none());
    assert_eq!(up.size_y + cfg.gap_tight_factor + lo.size_y, cfg.window_h);
    assert_eq!(lo.pos_y, up.size_y + cfg.gap_tight_factor);
    // The counted-marker clears are deferred to the barrier.
    assert_eq!(g.world.pending.len(), 2);
    g.world.maintain();
    assert_eq!(g.world.pending.len(), 0);
    assert!(!g.world.counted[1] && !g.world.counted[2]);
}

#[test]
fn a_parked_pair_far_ahead_starts_scrolling() {
    let mut g = small_game(10_000, 105_000, false);
    let cfg = g.config;
    activate_step(&mut g.world, &cfg);
    // 105_000 beats the empty field's maximum of 0 by more than a third
    // of the window.
    assert_eq!(g.world.vels[1], Some(Vel { x: cfg.obstacle_speed, y: 0 }));
    assert_eq!(g.world.vels[2], Some(Vel { x: cfg.obstacle_speed, y: 0 }));
}

#[test]
fn a_parked_pair_too_close_stays_parked() {
    let mut g = small_game(10_000, 105_000, false);
    let cfg = g.config;
    // A scrolling obstacle pair right behind keeps the spacing too small.
    let vel = Some(Vel { x: -350, y: 0 });
    g.world.create(
        Some(Rect { pos_x: 90_000, pos_y: 0, size_x: 5_333, size_y: 20_000 }),
        vel,
        Some(8),
        true,
        false,
    );
    g.world.create(
        Some(Rect { pos_x: 90_000, pos_y: 42_000, size_x: 5_333, size_y: 68_000 }),
        vel,
        Some(8),
        true,
        false,
    );
    activate_step(&mut g.world, &cfg);
    assert!(g.world.vels[1].is_none() && g.world.vels[2].is_none());
}

#[test]
fn gravity_scales_with_elapsed_time() {
    let mut g = small_game(10_000, 50_000, true);
    g.advance(16);
    // 10 px/s over 16 ms: 0.16 px/tick in hundredths.
    assert_eq!(g.world.vels[0].unwrap().y, 16);
    assert_eq!(g.session.last_dt_ms, 16);
    g.advance(500);
    assert_eq!(g.world.vels[0].unwrap().y, 16 + 500);
}

#[test]
fn velocity_moves_geometry_once_per_tick() {
    let mut g = small_game(10_000, 50_000, true);
    g.advance(0);
    assert_eq!(g.world.rects[1].unwrap().pos_x, 50_000 - 350);
    assert_eq!(g.world.rects[2].unwrap().pos_x, 50_000 - 350);
}

#[test]
fn overlap_raises_the_game_over_flag_idempotently() {
    // The obstacle pair sits right on the player: the upper piece
    // overlaps the player's span.
    let cfg = default_config();
    let mut w = World::new();
    w.create(
        Some(Rect { pos_x: 10_000, pos_y: 10_000, size_x: 8_000, size_y: 8_000 }),
        Some(Vel { x: 0, y: 0 }),
        None,
        true,
        true,
    );
    w.create(
        Some(Rect { pos_x: 9_000, pos_y: 0, size_x: 5_333, size_y: 20_000 }),
        Some(Vel { x: 0, y: 0 }),
        Some(7),
        true,
        false,
    );
    w.create(
        Some(Rect { pos_x: 9_000, pos_y: 42_000, size_x: 5_333, size_y: 68_000 }),
        Some(Vel { x: 0, y: 0 }),
        Some(7),
        true,
        false,
    );
    let mut g = Game { world: w, session: playing_session(), config: cfg, animator: sheet() };
    g.advance(0);
    assert!(g.is_game_over());
    assert_eq!(g.session.state, SessionState::Playing, "the phase flips on the next tick");
    // Raising the flag again leaves it exactly true, and the phase moves.
    g.advance(0);
    assert!(g.is_game_over());
    assert_eq!(g.session.state, SessionState::GameOver);
}

#[test]
fn touching_edges_do_not_collide() {
    // The player's right edge exactly touches the obstacle's left edge.
    let mut g = small_game(10_000, 18_000, true);
    g.world.rects[0] = Some(Rect { pos_x: 10_000, pos_y: 0, size_x: 8_000, size_y: 8_000 });
    g.world.vels[1] = None;
    g.world.vels[2] = None;
    g.advance(0);
    assert!(!g.is_game_over());
}

#[test]
fn flap_subtracts_the_impulse_when_rising() {
    let mut g = small_game(10_000, 50_000, true);
    g.world.vels[0] = Some(Vel { x: 0, y: -500 });
    g.apply_flap_impulse();
    // -5.0 is not above the 2.45 threshold: the plain impulse applies.
    assert_eq!(g.world.vels[0], Some(Vel { x: 0, y: -850 }));
    // The tap also starts the flap clip.
    assert!(g.animator.is_animating());
}

#[test]
fn flap_doubles_past_the_dive_threshold() {
    let mut g = small_game(10_000, 50_000, true);
    // Falling at 3.0 px/tick, above 0.7 * 3.5 = 2.45: doubled impulse.
    g.world.vels[0] = Some(Vel { x: 0, y: 300 });
    g.apply_flap_impulse();
    assert_eq!(g.world.vels[0], Some(Vel { x: 0, y: 300 - 700 }));
}

#[test]
fn flap_at_the_exact_threshold_is_not_doubled() {
    let mut g = small_game(10_000, 50_000, true);
    g.world.vels[0] = Some(Vel { x: 0, y: 245 });
    g.apply_flap_impulse();
    assert_eq!(g.world.vels[0], Some(Vel { x: 0, y: 245 - 350 }));
}

#[test]
fn reset_zeroes_the_session_and_recenters_the_player() {
    let cfg = default_config();
    let mut g = Game::new(cfg, sheet()).unwrap();
    g.primary_input();
    for _ in 0..30 {
        g.advance(16);
    }
    g.session.game_over = true;
    g.session.score = 5;
    g.reset_session();
    assert_eq!(g.score(), 0);
    assert!(!g.is_game_over());
    assert_eq!(g.session.state, SessionState::Playing);
    // The controllable entity sits back at its spawn coordinates.
    assert_eq!(
        g.world.rects[0],
        Some(Rect { pos_x: 25_333, pos_y: 28_666, size_x: 8_000, size_y: 8_000 })
    );
    assert_eq!(g.world.vels[0], Some(Vel { x: 0, y: 0 }));
    // Every pair is parked, uncounted and freshly gapped.
    for t in 0..4usize {
        assert!(g.world.vels[3 + 2 * t].is_none() && g.world.vels[4 + 2 * t].is_none());
        assert!(!g.world.counted[3 + 2 * t] && !g.world.counted[4 + 2 * t]);
        let up = g.world.rects[3 + 2 * t].unwrap();
        let lo = g.world.rects[4 + 2 * t].unwrap();
        assert_eq!(up.pos_x, cfg.window_w + 5_000);
        assert_eq!(up.size_y + cfg.gap_tight_factor + lo.size_y, cfg.window_h);
    }
    check_pairs(&g);
}

#[test]
fn primary_input_dispatches_by_phase() {
    let mut g = Game::new(default_config(), sheet()).unwrap();
    assert_eq!(g.session.state, SessionState::Menu);
    g.primary_input();
    assert_eq!(g.session.state, SessionState::Playing);
    let before = g.world.vels[0].unwrap();
    g.primary_input();
    assert_eq!(g.world.vels[0].unwrap().y, before.y - 350);
    g.session.game_over = true;
    g.advance(0);
    assert_eq!(g.session.state, SessionState::GameOver);
    g.primary_input();
    assert_eq!(g.session.state, SessionState::Playing);
    assert_eq!(g.score(), 0);
}

#[test]
fn component_mutation_conflicts_are_reported_no_ops() {
    let mut w = World::new();
    let e = w.create(None, None, None, false, false);
    assert!(w.attach_velocity(e, Vel { x: 1, y: 0 }).is_ok());
    assert_eq!(
        w.attach_velocity(e, Vel { x: 2, y: 0 }),
        Err(SimError::ComponentMutationConflict)
    );
    assert_eq!(w.vels[e], Some(Vel { x: 1, y: 0 }));
    assert!(w.detach_velocity(e).is_ok());
    assert_eq!(w.detach_velocity(e), Err(SimError::ComponentMutationConflict));
    assert!(w.attach_counted(e).is_ok());
    assert_eq!(w.attach_counted(e), Err(SimError::ComponentMutationConflict));
    assert!(w.detach_counted(e).is_ok());
    assert_eq!(w.detach_counted(e), Err(SimError::ComponentMutationConflict));
    // A stale entity id conflicts too, without touching anything.
    assert_eq!(w.attach_velocity(9, Vel { x: 0, y: 0 }), Err(SimError::ComponentMutationConflict));
}

#[test]
fn maintenance_applies_deferred_clears_and_skips_stale_ones() {
    let mut w = World::new();
    let a = w.create(None, None, None, false, false);
    let b = w.create(None, None, None, false, false);
    assert!(w.attach_counted(a).is_ok());
    assert!(w.attach_counted(b).is_ok());
    w.defer_clear_counted(a);
    w.defer_clear_counted(77);
    assert!(w.counted[a] && w.counted[b], "clears wait for the barrier");
    w.maintain();
    assert!(!w.counted[a]);
    assert!(w.counted[b]);
    assert_eq!(w.pending.len(), 0);
}

#[test]
fn menu_and_game_over_ticks_leave_the_world_alone() {
    let mut g = small_game(10_000, 50_000, true);
    g.session.state = SessionState::Menu;
    g.advance(16);
    assert_eq!(g.world.rects[1].unwrap().pos_x, 50_000);
    assert_eq!(g.score(), 0);
    assert_eq!(g.session.last_dt_ms, 0);
}

#[test]
fn player_view_hands_out_geometry_velocity_and_sample() {
    let g = small_game(10_000, 50_000, true);
    let (rect, vel, sample) = g.player_view().unwrap();
    assert_eq!(rect, Rect { pos_x: 10_000, pos_y: 28_666, size_x: 8_000, size_y: 8_000 });
    assert_eq!(vel, Vel { x: 0, y: 0 });
    // Nothing plays: the idle clip's region is sampled.
    assert_eq!(sample, Rect { pos_x: 14_500, pos_y: 14_500, size_x: 3_200, size_y: 2_500 });
}

#[test]
fn only_scrolling_obstacles_are_drawn() {
    let mut g = small_game(10_000, 50_000, true);
    g.world.create(
        Some(Rect { pos_x: 105_000, pos_y: 0, size_x: 5_333, size_y: 20_000 }),
        None,
        Some(8),
        true,
        false,
    );
    g.world.create(
        Some(Rect { pos_x: 105_000, pos_y: 42_000, size_x: 5_333, size_y: 68_000 }),
        None,
        Some(8),
        true,
        false,
    );
    let drawn = g.scrolling_obstacle_rects();
    assert_eq!(drawn.len(), 2);
    assert_eq!(drawn[0].pos_x, 50_000);
    assert_eq!(drawn[1].pos_x, 50_000);
}

#[test]
fn a_long_session_recycles_and_keeps_scoring() {
    let mut g = Game::new(default_config(), sheet()).unwrap();
    g.primary_input();
    // A ghost run: the player takes no part in overlap testing, so the
    // field keeps scrolling forever.
    g.world.collidable[0] = false;
    let mut saw_reload = false;
    let mut prev_x = [0i64; 4];
    for t in 0..4usize {
        prev_x[t] = g.world.rects[3 + 2 * t].unwrap().pos_x;
    }
    for _ in 0..2_000 {
        g.advance(16);
        check_pairs(&g);
        if g.world.pending.len() > 0 {
            panic!("the barrier must drain the buffer every tick");
        }
        for t in 0..4usize {
            let x = g.world.rects[3 + 2 * t].unwrap().pos_x;
            if x > prev_x[t] {
                // The pair jumped back to the right edge: it was recycled.
                saw_reload = true;
                assert_eq!(x, g.config.window_w + 5_000);
            }
            prev_x[t] = x;
        }
    }
    assert!(saw_reload, "pairs must come back around");
    assert!(g.score() >= 1, "passed pairs must be credited");
    assert!(!g.is_game_over());
}

#[test]
fn default_configuration_matches_the_shipped_constants() {
    let cfg = default_config();
    assert_eq!(
        cfg,
        Config {
            window_w: 100_000,
            window_h: 110_000,
            gravity: 1_000,
            obstacle_speed: -350,
            obstacle_count: 3,
            gap_tight_factor: 22_000,
            flap_impulse: 350,
            gap_multiplier_low: 20,
            gap_multiplier_high: 180,
            square_size: 8_000,
        }
    );
}

#[test]
fn created_entities_take_consecutive_ids() {
    let mut w = World::new();
    assert_eq!(w.entity_count(), 0);
    let a = w.create(None, None, None, false, false);
    let b = w.create(None, None, None, false, true);
    assert_eq!((a, b), (0, 1));
    assert_eq!(w.entity_count(), 2);
    assert!(!w.counted[a] && !w.counted[b]);
}

#[test]
fn tick_arithmetic_saturates_at_the_machine_range() {
    assert_eq!(flappy_core::add_sat(3, 4), 7);
    assert_eq!(flappy_core::add_sat(i64::MAX - 1, 5), i64::MAX);
    assert_eq!(flappy_core::add_sat(i64::MIN + 1, -5), i64::MIN);
    // A runaway fall pins the position instead of wrapping.
    let mut g = small_game(10_000, 50_000, true);
    g.world.rects[0] = Some(Rect { pos_x: 10_000, pos_y: i64::MAX - 10, size_x: 8_000, size_y: 8_000 });
    g.world.vels[0] = Some(Vel { x: 0, y: 100 });
    g.advance(0);
    assert_eq!(g.world.rects[0].unwrap().pos_y, i64::MAX);
}
