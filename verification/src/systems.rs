//! The per-tick simulation systems: gravity, position integration,
//! obstacle recycling and activation, collision detection and scoring.
//! Each system's effect on the store is stated as a relation between the
//! world before and after, and the tick is their composition.

use vstd::prelude::*;

use crate::config::{gap_center, Config};
use crate::geom::{overlaps, rect_wf, Rect, Vel};
use crate::rng::draw_in_range;
use crate::store::{cleared_by, cols_consistent, lemma_partner_unique, pair_spans_ok, world_wf, Command, World};
use crate::{add_sat, sat_add_i64, COORD_LIMIT, RELOAD_MARGIN};

verus! {

/// All columns of the two worlds are equal: the system left the store
/// untouched.
pub open spec fn same_cols(w0: World, w1: World) -> bool {
    w1.rects@ == w0.rects@ && w1.vels@ == w0.vels@ && w1.pairs@ == w0.pairs@ && w1.collidable@
        == w0.collidable@ && w1.controllable@ == w0.controllable@ && w1.counted@ == w0.counted@
        && w1.pending@ == w0.pending@
}

// ---------------------------------------------------------------------
// Physics: gravity on the controllable entity.
// ---------------------------------------------------------------------
/// What one tick of gravity adds to the vertical velocity: the gravity
/// constant scaled by the elapsed milliseconds.
pub open spec fn grav_step(cfg: Config, dt_ms: u32) -> int {
    cfg.gravity * dt_ms / 1000
}

/// A velocity after the gravity pass: controllable entities fall faster,
/// everything else keeps its velocity.
pub open spec fn gravity_applied(v: Option<Vel>, ctrl: bool, cfg: Config, dt_ms: u32) -> Option<
    Vel,
> {
    if ctrl && v is Some {
        Some(
            Vel {
                x: v->Some_0.x,
                y: sat_add_i64(v->Some_0.y as int, grav_step(cfg, dt_ms)) as i64,
            },
        )
    } else {
        v
    }
}

/// The gravity pass rewrites only the velocity column, pointwise by
/// `gravity_applied`.
pub open spec fn physics_rel(w0: World, w1: World, cfg: Config, dt_ms: u32) -> bool {
    w1.rects@ == w0.rects@ && w1.pairs@ == w0.pairs@ && w1.collidable@ == w0.collidable@
        && w1.controllable@ == w0.controllable@ && w1.counted@ == w0.counted@ && w1.pending@
        == w0.pending@ && w1.vels@.len() == w0.vels@.len() && (forall|i: int|
        0 <= i < w0.vels@.len() ==> w1.vels@[i] == gravity_applied(
            w0.vels@[i],
            w0.controllable@[i],
            cfg,
            dt_ms,
        ))
}

/// Apply gravity to every controllable entity's velocity: `velocity.y`
/// grows by the gravity constant scaled by the elapsed time.
pub fn physics_step(w: &mut World, cfg: &Config, dt_ms: u32)
    requires
        cols_consistent(*old(w)),
        cfg.wf(),
    ensures
        cols_consistent(*final(w)),
        physics_rel(*old(w), *final(w), *cfg, dt_ms),
{
    proof {
        assert(0 <= cfg.gravity * (dt_ms as i64) <= COORD_LIMIT * 0x1_0000_0000i64)
            by (nonlinear_arith)
            requires
                0 <= cfg.gravity <= COORD_LIMIT,
                0 <= dt_ms <= 0xffff_ffffu32,
        ;
    }
    let gd: i64 = cfg.gravity * (dt_ms as i64) / 1000;
    let n = w.vels.len();
    let mut i: usize = 0;
    while i < n
        invariant
            cols_consistent(*w),
            n == w.vels@.len(),
            i <= n,
            gd as int == grav_step(*cfg, dt_ms),
            w.rects@ == old(w).rects@,
            w.pairs@ == old(w).pairs@,
            w.collidable@ == old(w).collidable@,
            w.controllable@ == old(w).controllable@,
            w.counted@ == old(w).counted@,
            w.pending@ == old(w).pending@,
            w.vels@.len() == old(w).vels@.len(),
            forall|j: int|
                0 <= j < i ==> w.vels@[j] == gravity_applied(
                    old(w).vels@[j],
                    old(w).controllable@[j],
                    *cfg,
                    dt_ms,
                ),
            forall|j: int| i <= j < n ==> w.vels@[j] == old(w).vels@[j],
        decreases n - i,
    {
        if w.controllable[i] {
            if let Some(v) = w.vels[i] {
                w.vels[i] = Some(Vel { x: v.x, y: add_sat(v.y, gd) });
            }
        }
        i = i + 1;
    }
}

// ---------------------------------------------------------------------
// Position integration: one full velocity vector per tick.
// ---------------------------------------------------------------------
/// A geometry after the position pass: an entity with both geometry and
/// velocity is displaced by one full velocity vector, deliberately not
/// scaled by the elapsed time.
pub open spec fn moved_rect(r: Option<Rect>, v: Option<Vel>) -> Option<Rect> {
    if r is Some && v is Some {
        Some(
            Rect {
                pos_x: sat_add_i64(r->Some_0.pos_x as int, v->Some_0.x as int) as i64,
                pos_y: sat_add_i64(r->Some_0.pos_y as int, v->Some_0.y as int) as i64,
                size_x: r->Some_0.size_x,
                size_y: r->Some_0.size_y,
            },
        )
    } else {
        r
    }
}

/// The position pass rewrites only the geometry column, pointwise by
/// `moved_rect`.
pub open spec fn movement_rel(w0: World, w1: World) -> bool {
    w1.vels@ == w0.vels@ && w1.pairs@ == w0.pairs@ && w1.collidable@ == w0.collidable@
        && w1.controllable@ == w0.controllable@ && w1.counted@ == w0.counted@ && w1.pending@
        == w0.pending@ && w1.rects@.len() == w0.rects@.len() && (forall|i: int|
        0 <= i < w0.rects@.len() ==> w1.rects@[i] == moved_rect(w0.rects@[i], w0.vels@[i]))
}

/// Integrate velocities into positions for every entity holding both.
pub fn movement_step(w: &mut World)
    requires
        cols_consistent(*old(w)),
    ensures
        cols_consistent(*final(w)),
        movement_rel(*old(w), *final(w)),
{
    let n = w.rects.len();
    let mut i: usize = 0;
    while i < n
        invariant
            cols_consistent(*w),
            n == w.rects@.len(),
            i <= n,
            w.vels@ == old(w).vels@,
            w.pairs@ == old(w).pairs@,
            w.collidable@ == old(w).collidable@,
            w.controllable@ == old(w).controllable@,
            w.counted@ == old(w).counted@,
            w.pending@ == old(w).pending@,
            w.rects@.len() == old(w).rects@.len(),
            forall|j: int|
                0 <= j < i ==> w.rects@[j] == moved_rect(old(w).rects@[j], old(w).vels@[j]),
            forall|j: int| i <= j < n ==> w.rects@[j] == old(w).rects@[j],
        decreases n - i,
    {
        if let Some(r) = w.rects[i] {
            if let Some(v) = w.vels[i] {
                w.rects[i] = Some(
                    Rect {
                        pos_x: add_sat(r.pos_x, v.x),
                        pos_y: add_sat(r.pos_y, v.y),
                        size_x: r.size_x,
                        size_y: r.size_y,
                    },
                );
            }
        }
        i = i + 1;
    }
}

// ---------------------------------------------------------------------
// Collision detection.
// ---------------------------------------------------------------------
/// The controllable, collidable entity `i` strictly overlaps the
/// non-controllable, collidable entity `j`.
pub open spec fn hit_at(w: World, i: int, j: int) -> bool {
    0 <= i < w.rects@.len() && 0 <= j < w.rects@.len() && w.collidable@[i] && w.controllable@[i]
        && w.rects@[i] is Some && w.collidable@[j] && !w.controllable@[j] && w.rects@[j] is Some
        && overlaps(w.rects@[i]->Some_0, w.rects@[j]->Some_0)
}

/// The player overlaps some obstacle or wall this tick.
pub open spec fn player_hits(w: World) -> bool {
    exists|i: int, j: int| hit_at(w, i, j)
}

/// The game-over flag after the collision pass: once true it stays true,
/// and any strict overlap raises it.
pub open spec fn collision_after(w: World, flag: bool) -> bool {
    flag || player_hits(w)
}

/// Raising the flag is idempotent: a second collision pass over the same
/// world, or a second overlap within one pass, leaves it exactly true.
pub proof fn lemma_game_over_idempotent(w: World, flag: bool)
    ensures
        collision_after(w, collision_after(w, flag)) == collision_after(w, flag),
{
}

spec fn hits_upto(w: World, i: int) -> bool {
    exists|a: int, b: int| a < i && hit_at(w, a, b)
}

spec fn hits_row_upto(w: World, i: int, j: int) -> bool {
    exists|b: int| b < j && hit_at(w, i, b)
}

/// Test the controllable entity against every other collidable entity and
/// report the new game-over flag; the store is read, never written.
pub fn collision_step(w: &World, game_over: bool) -> (r: bool)
    requires
        cols_consistent(*w),
    ensures
        r == collision_after(*w, game_over),
{
    let n = w.rects.len();
    let mut found = false;
    let mut i: usize = 0;
    while i < n
        invariant
            cols_consistent(*w),
            n == w.rects@.len(),
            i <= n,
            found == hits_upto(*w, i as int),
        decreases n - i,
    {
        if w.collidable[i] && w.controllable[i] {
            if let Some(rp) = w.rects[i] {
                let mut j: usize = 0;
                while j < n
                    invariant
                        cols_consistent(*w),
                        n == w.rects@.len(),
                        i < n,
                        j <= n,
                        w.collidable@[i as int] && w.controllable@[i as int],
                        w.rects@[i as int] == Some(rp),
                        found == (hits_upto(*w, i as int) || hits_row_upto(*w, i as int, j as int)),
                    decreases n - j,
                {
                    if w.collidable[j] && !w.controllable[j] {
                        if let Some(ro) = w.rects[j] {
                            if crate::geom::rects_overlap(&rp, &ro) {
                                found = true;
                                proof {
                                    assert(hit_at(*w, i as int, j as int));
                                }
                            }
                        }
                    }
                    j = j + 1;
                }
            }
        }
        proof {
            assert forall|a: int, b: int| a < i + 1 && hit_at(*w, a, b) implies found by {
                if a == i as int {
                    assert(hits_row_upto(*w, i as int, n as int));
                }
            }
            if found {
                if !hits_upto(*w, i as int) {
                    assert(hits_row_upto(*w, i as int, n as int));
                    let b = choose|b: int| b < n && hit_at(*w, i as int, b);
                    assert(hit_at(*w, i as int, b));
                }
            }
            assert(found == hits_upto(*w, i + 1int));
        }
        i = i + 1;
    }
    proof {
        if player_hits(*w) {
            let (a, b) = choose|a: int, b: int| hit_at(*w, a, b);
            assert(a < n && hit_at(*w, a, b));
        }
    }
    game_over || found
}

// ---------------------------------------------------------------------
// Score tracking.
// ---------------------------------------------------------------------
/// The first controllable entity at or after `i`; under the store
/// invariant it is the only one.
pub open spec fn first_controllable_from(w: World, i: int) -> Option<int>
    decreases w.controllable@.len() - i,
{
    if !(0 <= i < w.controllable@.len()) {
        None
    } else if w.controllable@[i] {
        Some(i)
    } else {
        first_controllable_from(w, i + 1)
    }
}

pub open spec fn first_controllable(w: World) -> Option<int> {
    first_controllable_from(w, 0)
}

pub proof fn lemma_first_controllable_skip(w: World, i: int)
    requires
        0 <= i <= w.controllable@.len(),
        forall|j: int| 0 <= j < i ==> !w.controllable@[j],
    ensures
        first_controllable(w) == first_controllable_from(w, i),
    decreases i,
{
    if i > 0 {
        lemma_first_controllable_skip(w, i - 1);
    }
}

/// An uncounted obstacle entity the player has strictly passed.
pub open spec fn scoreable_at(w: World, px: int, i: int) -> bool {
    0 <= i < w.rects@.len() && w.pairs@[i] is Some && !w.counted@[i] && (w.rects@[i] matches Some(
        r,
    ) && r.pos_x < px)
}

/// The first scoreable obstacle at or after `i`, in iteration order: at
/// most one pair is credited per tick.
pub open spec fn first_scoreable_from(w: World, px: int, i: int) -> Option<int>
    decreases w.rects@.len() - i,
{
    if !(0 <= i < w.rects@.len()) {
        None
    } else if scoreable_at(w, px, i) {
        Some(i)
    } else {
        first_scoreable_from(w, px, i + 1)
    }
}

pub open spec fn first_scoreable(w: World, px: int) -> Option<int> {
    first_scoreable_from(w, px, 0)
}

pub proof fn lemma_first_scoreable_skip(w: World, px: int, i: int)
    requires
        0 <= i <= w.rects@.len(),
        forall|j: int| 0 <= j < i ==> !scoreable_at(w, px, j),
    ensures
        first_scoreable(w, px) == first_scoreable_from(w, px, i),
    decreases i,
{
    if i > 0 {
        lemma_first_scoreable_skip(w, px, i - 1);
    }
}

/// The counted column after a pair is credited: both members of the pair
/// are marked, everything else is untouched.
pub open spec fn marked(counted: Seq<bool>, pairs: Seq<Option<u64>>, id: u64) -> Seq<bool> {
    Seq::new(counted.len(), |k: int| counted[k] || pairs[k] == Some(id))
}

/// The score after a pair is credited: one more, held at the machine
/// limit.
pub open spec fn bump_score(s: u64) -> u64 {
    if s < u64::MAX {
        (s + 1) as u64
    } else {
        s
    }
}

/// The scoring pass: the first uncounted obstacle strictly behind the
/// player has its whole pair marked counted and the score goes up by one;
/// with no such obstacle, or no readable player, nothing changes.
pub open spec fn score_rel(w0: World, w1: World, s0: u64, s1: u64) -> bool {
    w1.rects@ == w0.rects@ && w1.vels@ == w0.vels@ && w1.pairs@ == w0.pairs@ && w1.collidable@
        == w0.collidable@ && w1.controllable@ == w0.controllable@ && w1.pending@ == w0.pending@
        && match first_controllable(w0) {
        None => w1.counted@ == w0.counted@ && s1 == s0,
        Some(p) => match w0.rects@[p] {
            None => w1.counted@ == w0.counted@ && s1 == s0,
            Some(rp) => match first_scoreable(w0, rp.pos_x as int) {
                None => w1.counted@ == w0.counted@ && s1 == s0,
                Some(si) => w1.counted@ == marked(w0.counted@, w0.pairs@, w0.pairs@[si]->Some_0)
                    && s1 == bump_score(s0),
            },
        },
    }
}

/// Credit at most one passed pair this tick, marking both of its members.
pub fn score_step(w: &mut World, score: &mut u64)
    requires
        cols_consistent(*old(w)),
    ensures
        cols_consistent(*final(w)),
        score_rel(*old(w), *final(w), *old(score), *final(score)),
{
    let n = w.rects.len();
    let mut p: usize = 0;
    while p < n
        invariant
            cols_consistent(*w),
            n == w.rects@.len(),
            p <= n,
            *w == *old(w),
            forall|j: int| 0 <= j < p ==> !w.controllable@[j],
        ensures
            cols_consistent(*w),
            p <= n,
            *w == *old(w),
            forall|j: int| 0 <= j < p ==> !w.controllable@[j],
            p == n || w.controllable@[p as int],
        decreases n - p,
    {
        if w.controllable[p] {
            break ;
        }
        p = p + 1;
    }
    proof {
        lemma_first_controllable_skip(*w, p as int);
    }
    if p == n {
        return ;
    }
    let rp = match w.rects[p] {
        Some(r) => r,
        None => { return ; },
    };
    let px = rp.pos_x;
    let mut si: usize = 0;
    while si < n
        invariant
            cols_consistent(*w),
            n == w.rects@.len(),
            si <= n,
            *w == *old(w),
            forall|j: int| 0 <= j < si ==> !scoreable_at(*w, px as int, j),
        ensures
            cols_consistent(*w),
            si <= n,
            *w == *old(w),
            forall|j: int| 0 <= j < si ==> !scoreable_at(*w, px as int, j),
            si == n || scoreable_at(*w, px as int, si as int),
        decreases n - si,
    {
        let mut ok = false;
        if w.pairs[si].is_some() && !w.counted[si] {
            if let Some(r) = w.rects[si] {
                if r.pos_x < px {
                    ok = true;
                }
            }
        }
        if ok {
            break ;
        }
        si = si + 1;
    }
    proof {
        lemma_first_scoreable_skip(*w, px as int, si as int);
    }
    if si == n {
        return ;
    }
    let id = match w.pairs[si] {
        Some(v) => v,
        None => { return ; },
    };
    let ghost w0 = *w;
    let mut k: usize = 0;
    while k < n
        invariant
            cols_consistent(*w),
            n == w.rects@.len(),
            k <= n,
            w.rects@ == w0.rects@,
            w.vels@ == w0.vels@,
            w.pairs@ == w0.pairs@,
            w.collidable@ == w0.collidable@,
            w.controllable@ == w0.controllable@,
            w.pending@ == w0.pending@,
            w.counted@.len() == w0.counted@.len(),
            forall|j: int| 0 <= j < k ==> w.counted@[j] == (w0.counted@[j] || w0.pairs@[j] == Some(id)),
            forall|j: int| k <= j < n ==> w.counted@[j] == w0.counted@[j],
        decreases n - k,
    {
        let mark = match w.pairs[k] {
            Some(pid) => pid == id,
            None => false,
        };
        if mark {
            let _ = w.attach_counted(k);
        }
        k = k + 1;
    }
    proof {
        assert(w.counted@ =~= marked(w0.counted@, w0.pairs@, id));
    }
    *score = if *score < u64::MAX {
        *score + 1
    } else {
        *score
    };
}

// ---------------------------------------------------------------------
// Obstacle recycling: the reload phase.
// ---------------------------------------------------------------------
/// An actively scrolling obstacle whose geometry has fully left the
/// screen, margin included; the strict inequality is deliberate.
pub open spec fn offscreen_at(w: World, i: int) -> bool {
    0 <= i < w.rects@.len() && w.pairs@[i] is Some && w.vels@[i] is Some && (w.rects@[i] matches Some(
        r,
    ) && r.pos_x + r.size_x + RELOAD_MARGIN < 0)
}

/// A distinct, still scrolling entity of the same pair.
pub open spec fn scroll_partner_at(w: World, i: int, j: int) -> bool {
    0 <= j < w.rects@.len() && j != i && w.pairs@[j] == w.pairs@[i] && w.vels@[j] is Some
        && w.rects@[j] is Some
}

pub open spec fn reloadable_at(w: World, i: int) -> bool {
    offscreen_at(w, i) && exists|j: int| scroll_partner_at(w, i, j)
}

/// The first reloadable obstacle in iteration order: only one pair is
/// reloaded per tick.
pub open spec fn first_reloadable_from(w: World, i: int) -> Option<int>
    decreases w.rects@.len() - i,
{
    if !(0 <= i < w.rects@.len()) {
        None
    } else if reloadable_at(w, i) {
        Some(i)
    } else {
        first_reloadable_from(w, i + 1)
    }
}

pub open spec fn first_reloadable(w: World) -> Option<int> {
    first_reloadable_from(w, 0)
}

pub proof fn lemma_first_reloadable_skip(w: World, i: int)
    requires
        0 <= i <= w.rects@.len(),
        forall|j: int| 0 <= j < i ==> !reloadable_at(w, j),
    ensures
        first_reloadable(w) == first_reloadable_from(w, i),
    decreases i,
{
    if i > 0 {
        lemma_first_reloadable_skip(w, i - 1);
    }
}

/// Where recycled and fresh obstacles respawn: just past the right edge.
pub open spec fn respawn_x(cfg: Config) -> int {
    cfg.window_w + RELOAD_MARGIN
}

/// The recycled upper piece: respawned on the right, hanging from its old
/// ceiling position down to the new gap.
pub open spec fn reloaded_upper(cfg: Config, m: int, prev: Rect) -> Rect {
    Rect {
        pos_x: respawn_x(cfg) as i64,
        pos_y: prev.pos_y,
        size_x: prev.size_x,
        size_y: (gap_center(cfg, m) - cfg.gap_tight_factor / 2) as i64,
    }
}

/// The recycled lower piece: respawned on the right, from below the new
/// gap down to the window bottom.
pub open spec fn reloaded_lower(cfg: Config, m: int, prev: Rect) -> Rect {
    Rect {
        pos_x: respawn_x(cfg) as i64,
        pos_y: (gap_center(cfg, m) + cfg.gap_tight_factor / 2) as i64,
        size_x: prev.size_x,
        size_y: (cfg.window_h - (gap_center(cfg, m) + cfg.gap_tight_factor / 2)) as i64,
    }
}

/// One pair reloaded: for a drawn multiplier `m`, the vertically upper
/// member takes the new upper geometry and its partner the lower, both
/// are parked, and a counted-marker clear for both joins the command
/// buffer.
pub open spec fn reload_pair_rel(w0: World, w1: World, cfg: Config, i: int, j: int, m: i64) -> bool {
    scroll_partner_at(w0, i, j) && cfg.gap_multiplier_low <= m < cfg.gap_multiplier_high && {
        let u = if w0.rects@[i]->Some_0.pos_y < w0.rects@[j]->Some_0.pos_y {
            i
        } else {
            j
        };
        let l = if w0.rects@[i]->Some_0.pos_y < w0.rects@[j]->Some_0.pos_y {
            j
        } else {
            i
        };
        w1.rects@ == w0.rects@.update(u, Some(reloaded_upper(cfg, m as int, w0.rects@[u]->Some_0))).update(
            l,
            Some(reloaded_lower(cfg, m as int, w0.rects@[l]->Some_0)),
        ) && w1.vels@ == w0.vels@.update(i, Option::<Vel>::None).update(j, Option::<Vel>::None)
            && w1.pending@ == w0.pending@.push(Command::ClearCounted(u as usize)).push(
            Command::ClearCounted(l as usize),
        ) && w1.pairs@ == w0.pairs@ && w1.collidable@ == w0.collidable@ && w1.controllable@
            == w0.controllable@ && w1.counted@ == w0.counted@
    }
}

/// The reload phase: the first off-screen scrolling pair, if any, is
/// re-gapped, respawned on the right and parked.
pub open spec fn reload_rel(w0: World, w1: World, cfg: Config) -> bool {
    if first_reloadable(w0) is None {
        same_cols(w0, w1)
    } else {
        exists|j: int, m: i64| reload_pair_rel(w0, w1, cfg, first_reloadable(w0)->Some_0, j, m)
    }
}

/// Reload the first pair that has fully scrolled off the left edge.
pub fn reload_step(w: &mut World, cfg: &Config)
    requires
        cols_consistent(*old(w)),
        cfg.wf(),
    ensures
        cols_consistent(*final(w)),
        reload_rel(*old(w), *final(w), *cfg),
{
    let n = w.rects.len();
    let mut i: usize = 0;
    while i < n
        invariant
            cols_consistent(*w),
            cfg.wf(),
            n == w.rects@.len(),
            i <= n,
            *w == *old(w),
            forall|ii: int| 0 <= ii < i ==> !reloadable_at(*w, ii),
        decreases n - i,
    {
        let mut off = false;
        if w.pairs[i].is_some() && w.vels[i].is_some() {
            if let Some(r) = w.rects[i] {
                if (r.pos_x as i128) + (r.size_x as i128) + (RELOAD_MARGIN as i128) < 0 {
                    off = true;
                }
            }
        }
        if off {
            let mut j: usize = 0;
            while j < n
                invariant
                    cols_consistent(*w),
                    cfg.wf(),
                    n == w.rects@.len(),
                    i < n,
                    j <= n,
                    *w == *old(w),
                    offscreen_at(*w, i as int),
                    forall|ii: int| 0 <= ii < i ==> !reloadable_at(*w, ii),
                    forall|jj: int| 0 <= jj < j ==> !scroll_partner_at(*w, i as int, jj),
                decreases n - j,
            {
                let mut partner = false;
                if j != i && w.vels[j].is_some() && w.rects[j].is_some() {
                    partner = match (w.pairs[i], w.pairs[j]) {
                        (Some(a), Some(b)) => a == b,
                        _ => false,
                    };
                }
                if partner {
                    proof {
                        assert(scroll_partner_at(*w, i as int, j as int));
                        assert(reloadable_at(*w, i as int));
                        lemma_first_reloadable_skip(*w, i as int);
                    }
                    let ri = w.rects[i].unwrap();
                    let rj = w.rects[j].unwrap();
                    let u: usize = if ri.pos_y < rj.pos_y {
                        i
                    } else {
                        j
                    };
                    let l: usize = if ri.pos_y < rj.pos_y {
                        j
                    } else {
                        i
                    };
                    let m = draw_in_range(cfg.gap_multiplier_low, cfg.gap_multiplier_high);
                    let wh2 = cfg.window_h / 2;
                    proof {
                        assert(0 <= wh2 * m <= 500_000_000i64 * 10_000) by (nonlinear_arith)
                            requires
                                0 <= wh2 <= 500_000_000i64,
                                0 <= m <= 10_000i64,
                        ;
                    }
                    let h = wh2 * m / 100;
                    let half = cfg.gap_tight_factor / 2;
                    let ru = if u == i {
                        ri
                    } else {
                        rj
                    };
                    let rl = if u == i {
                        rj
                    } else {
                        ri
                    };
                    w.set_rect(
                        u,
                        Rect {
                            pos_x: cfg.window_w + RELOAD_MARGIN,
                            pos_y: ru.pos_y,
                            size_x: ru.size_x,
                            size_y: h - half,
                        },
                    );
                    w.set_rect(
                        l,
                        Rect {
                            pos_x: cfg.window_w + RELOAD_MARGIN,
                            pos_y: h + half,
                            size_x: rl.size_x,
                            size_y: cfg.window_h - (h + half),
                        },
                    );
                    let _ = w.detach_velocity(i);
                    let _ = w.detach_velocity(j);
                    w.defer_clear_counted(u);
                    w.defer_clear_counted(l);
                    proof {
                        assert(first_reloadable(*old(w)) == Some(i as int));
                        assert(reload_pair_rel(
                            *old(w),
                            *w,
                            *cfg,
                            first_reloadable(*old(w))->Some_0,
                            j as int,
                            m,
                        ));
                    }
                    return ;
                }
                j = j + 1;
            }
            proof {
                assert(!reloadable_at(*w, i as int));
            }
        }
        i = i + 1;
    }
    proof {
        lemma_first_reloadable_skip(*w, n as int);
    }
}

// ---------------------------------------------------------------------
// Obstacle recycling: the activation phase.
// ---------------------------------------------------------------------
/// An obstacle that is actively scrolling.
pub open spec fn scrolling_obstacle_at(w: World, i: int) -> bool {
    0 <= i < w.rects@.len() && w.pairs@[i] is Some && w.vels@[i] is Some && w.rects@[i] is Some
}

/// The greatest horizontal position among the first `i` entities that are
/// scrolling obstacles, from a floor of zero.
pub open spec fn max_scroll_x_upto(w: World, i: int) -> int
    decreases i,
{
    if i <= 0 {
        0
    } else if scrolling_obstacle_at(w, i - 1) && w.rects@[i - 1]->Some_0.pos_x
        > max_scroll_x_upto(w, i - 1) {
        w.rects@[i - 1]->Some_0.pos_x as int
    } else {
        max_scroll_x_upto(w, i - 1)
    }
}

pub open spec fn max_scroll_x(w: World) -> int {
    max_scroll_x_upto(w, w.rects@.len() as int)
}

/// The spacing the activation phase keeps between pairs: an even share of
/// the window per configured obstacle.
pub open spec fn spacing(cfg: Config) -> int {
    cfg.window_w as int / cfg.obstacle_count as int
}

/// A parked obstacle, awaiting activation.
pub open spec fn parked_at(w: World, i: int) -> bool {
    0 <= i < w.rects@.len() && w.pairs@[i] is Some && w.vels@[i] is None && w.rects@[i] is Some
}

/// A distinct, also parked entity of the same pair.
pub open spec fn parked_partner_at(w: World, i: int, j: int) -> bool {
    0 <= j < w.rects@.len() && j != i && w.pairs@[j] == w.pairs@[i] && w.vels@[j] is None
        && w.rects@[j] is Some
}

/// A parked pair far enough ahead of every scrolling obstacle to join the
/// field.
pub open spec fn activatable_at(w: World, cfg: Config, i: int) -> bool {
    parked_at(w, i) && w.rects@[i]->Some_0.pos_x - max_scroll_x(w) > spacing(cfg) && exists|j: int|
        parked_partner_at(w, i, j)
}

pub open spec fn first_activatable_from(w: World, cfg: Config, i: int) -> Option<int>
    decreases w.rects@.len() - i,
{
    if !(0 <= i < w.rects@.len()) {
        None
    } else if activatable_at(w, cfg, i) {
        Some(i)
    } else {
        first_activatable_from(w, cfg, i + 1)
    }
}

pub open spec fn first_activatable(w: World, cfg: Config) -> Option<int> {
    first_activatable_from(w, cfg, 0)
}

pub proof fn lemma_first_activatable_skip(w: World, cfg: Config, i: int)
    requires
        0 <= i <= w.rects@.len(),
        forall|j: int| 0 <= j < i ==> !activatable_at(w, cfg, j),
    ensures
        first_activatable(w, cfg) == first_activatable_from(w, cfg, i),
    decreases i,
{
    if i > 0 {
        lemma_first_activatable_skip(w, cfg, i - 1);
    }
}

/// One pair activated: both members take the constant leftward scroll.
pub open spec fn activate_pair_rel(w0: World, w1: World, cfg: Config, i: int, j: int) -> bool {
    parked_partner_at(w0, i, j) && w1.vels@ == w0.vels@.update(
        i,
        Some(Vel { x: cfg.obstacle_speed, y: 0 }),
    ).update(j, Some(Vel { x: cfg.obstacle_speed, y: 0 })) && w1.rects@ == w0.rects@ && w1.pairs@
        == w0.pairs@ && w1.collidable@ == w0.collidable@ && w1.controllable@ == w0.controllable@
        && w1.counted@ == w0.counted@ && w1.pending@ == w0.pending@
}

/// The activation phase: the first parked pair far enough ahead of the
/// scrolling field, if any, starts scrolling.
pub open spec fn activate_rel(w0: World, w1: World, cfg: Config) -> bool {
    if first_activatable(w0, cfg) is None {
        same_cols(w0, w1)
    } else {
        exists|j: int| activate_pair_rel(w0, w1, cfg, first_activatable(w0, cfg)->Some_0, j)
    }
}

/// Activate the first parked pair that has advanced far enough ahead.
pub fn activate_step(w: &mut World, cfg: &Config)
    requires
        cols_consistent(*old(w)),
        cfg.wf(),
    ensures
        cols_consistent(*final(w)),
        activate_rel(*old(w), *final(w), *cfg),
{
    let n = w.rects.len();
    let mut cur: i64 = 0;
    let mut i: usize = 0;
    while i < n
        invariant
            cols_consistent(*w),
            n == w.rects@.len(),
            i <= n,
            *w == *old(w),
            cur as int == max_scroll_x_upto(*w, i as int),
        decreases n - i,
    {
        if w.pairs[i].is_some() && w.vels[i].is_some() {
            if let Some(r) = w.rects[i] {
                if r.pos_x > cur {
                    cur = r.pos_x;
                }
            }
        }
        i = i + 1;
    }
    let sp = cfg.window_w / (cfg.obstacle_count as i64);
    let mut a: usize = 0;
    while a < n
        invariant
            cols_consistent(*w),
            cfg.wf(),
            n == w.rects@.len(),
            a <= n,
            *w == *old(w),
            cur as int == max_scroll_x(*w),
            sp as int == spacing(*cfg),
            forall|ii: int| 0 <= ii < a ==> !activatable_at(*w, *cfg, ii),
        decreases n - a,
    {
        let mut far = false;
        if w.pairs[a].is_some() && w.vels[a].is_none() {
            if let Some(r) = w.rects[a] {
                if (r.pos_x as i128) - (cur as i128) > (sp as i128) {
                    far = true;
                }
            }
        }
        if far {
            let mut j: usize = 0;
            while j < n
                invariant
                    cols_consistent(*w),
                    cfg.wf(),
                    n == w.rects@.len(),
                    a < n,
                    j <= n,
                    *w == *old(w),
                    parked_at(*w, a as int),
                    cur as int == max_scroll_x(*w),
                    sp as int == spacing(*cfg),
                    w.rects@[a as int]->Some_0.pos_x - max_scroll_x(*w) > spacing(*cfg),
                    forall|ii: int| 0 <= ii < a ==> !activatable_at(*w, *cfg, ii),
                    forall|jj: int| 0 <= jj < j ==> !parked_partner_at(*w, a as int, jj),
                decreases n - j,
            {
                let mut partner = false;
                if j != a && w.vels[j].is_none() && w.rects[j].is_some() {
                    partner = match (w.pairs[a], w.pairs[j]) {
                        (Some(x), Some(y)) => x == y,
                        _ => false,
                    };
                }
                if partner {
                    proof {
                        assert(parked_partner_at(*w, a as int, j as int));
                        assert(activatable_at(*w, *cfg, a as int));
                        lemma_first_activatable_skip(*w, *cfg, a as int);
                    }
                    let v = Vel { x: cfg.obstacle_speed, y: 0 };
                    let _ = w.attach_velocity(a, v);
                    let _ = w.attach_velocity(j, v);
                    proof {
                        assert(first_activatable(*old(w), *cfg) == Some(a as int));
                        assert(activate_pair_rel(
                            *old(w),
                            *w,
                            *cfg,
                            first_activatable(*old(w), *cfg)->Some_0,
                            j as int,
                        ));
                    }
                    return ;
                }
                j = j + 1;
            }
            proof {
                assert(!activatable_at(*w, *cfg, a as int));
            }
        }
        a = a + 1;
    }
    proof {
        lemma_first_activatable_skip(*w, *cfg, n as int);
    }
}

// ---------------------------------------------------------------------
// The maintenance barrier as a relation, and preservation of the store
// invariant by every pass.
// ---------------------------------------------------------------------
/// The maintenance barrier: deferred counted-marker clears applied, the
/// buffer drained, everything else untouched.
pub open spec fn maintain_rel(w0: World, w1: World) -> bool {
    w1.pending@ == Seq::<Command>::empty() && w1.counted@.len() == w0.counted@.len() && (forall|
        i: int,
    |
        0 <= i < w0.counted@.len() ==> w1.counted@[i] == (w0.counted@[i] && !cleared_by(
            w0.pending@,
            i as usize,
        ))) && w1.rects@ == w0.rects@ && w1.vels@ == w0.vels@ && w1.pairs@ == w0.pairs@
        && w1.collidable@ == w0.collidable@ && w1.controllable@ == w0.controllable@
}

/// The store invariant does not read the counted markers or the command
/// buffer: a pass that rewrites only those preserves it.
pub proof fn lemma_wf_same_core(w0: World, w1: World, tight: int)
    requires
        world_wf(w0, tight),
        w1.rects@ == w0.rects@,
        w1.vels@ == w0.vels@,
        w1.pairs@ == w0.pairs@,
        w1.collidable@ == w0.collidable@,
        w1.controllable@ == w0.controllable@,
        w1.counted@.len() == w0.counted@.len(),
    ensures
        world_wf(w1, tight),
{
}

/// Gravity touches only the controllable entity's velocity, which is no
/// obstacle: the store invariant survives.
pub proof fn lemma_physics_preserves_wf(w0: World, w1: World, cfg: Config, dt_ms: u32, tight: int)
    requires
        world_wf(w0, tight),
        physics_rel(w0, w1, cfg, dt_ms),
    ensures
        world_wf(w1, tight),
{
    assert forall|i: int|
        0 <= i < w1.rects@.len() && w1.controllable@[i] implies w1.rects@[i] is Some
        && w1.vels@[i] is Some && w1.pairs@[i] is None by {
        assert(w1.vels@[i] == gravity_applied(w0.vels@[i], w0.controllable@[i], cfg, dt_ms));
    }
    assert forall|i: int|
        0 <= i < w1.rects@.len() && w1.pairs@[i] is Some implies (w1.vels@[i] matches Some(v)
        ==> v.y == 0) by {
        assert(!w0.controllable@[i]);
        assert(w1.vels@[i] == gravity_applied(w0.vels@[i], w0.controllable@[i], cfg, dt_ms));
    }
}

/// Position integration moves obstacles only horizontally and never
/// resizes: the store invariant survives.
pub proof fn lemma_movement_preserves_wf(w0: World, w1: World, tight: int)
    requires
        world_wf(w0, tight),
        movement_rel(w0, w1),
    ensures
        world_wf(w1, tight),
{
    assert forall|i: int| 0 <= i < w1.rects@.len() implies (#[trigger] w1.rects@[i] matches Some(r)
        ==> rect_wf(r)) by {
        assert(w1.rects@[i] == moved_rect(w0.rects@[i], w0.vels@[i]));
    }
    assert forall|i: int|
        0 <= i < w1.rects@.len() && w1.controllable@[i] implies w1.rects@[i] is Some
        && w1.vels@[i] is Some && w1.pairs@[i] is None by {
        assert(w1.rects@[i] == moved_rect(w0.rects@[i], w0.vels@[i]));
    }
    assert forall|i: int|
        0 <= i < w1.rects@.len() && #[trigger] w1.pairs@[i] is Some implies w1.rects@[i] is Some
        && w1.collidable@[i] by {
        assert(w1.rects@[i] == moved_rect(w0.rects@[i], w0.vels@[i]));
    }
    assert forall|i: int, j: int|
        0 <= i < w1.rects@.len() && 0 <= j < w1.rects@.len() && i != j && w1.pairs@[i] is Some
            && #[trigger] w1.pairs@[i] == #[trigger] w1.pairs@[j] implies pair_spans_ok(
        w1.rects@[i]->Some_0,
        w1.rects@[j]->Some_0,
        tight,
    ) || pair_spans_ok(w1.rects@[j]->Some_0, w1.rects@[i]->Some_0, tight) by {
        assert(w1.rects@[i] == moved_rect(w0.rects@[i], w0.vels@[i]));
        assert(w1.rects@[j] == moved_rect(w0.rects@[j], w0.vels@[j]));
        assert(w0.pairs@[i] is Some && w0.pairs@[i] == w0.pairs@[j]);
        assert(w1.rects@[i]->Some_0.pos_y == w0.rects@[i]->Some_0.pos_y
            && w1.rects@[i]->Some_0.size_y == w0.rects@[i]->Some_0.size_y);
        assert(w1.rects@[j]->Some_0.pos_y == w0.rects@[j]->Some_0.pos_y
            && w1.rects@[j]->Some_0.size_y == w0.rects@[j]->Some_0.size_y);
    }
}

/// Whatever the first-reloadable scan returns is indeed reloadable.
pub proof fn lemma_first_reloadable_sound(w: World, k: int)
    ensures
        first_reloadable_from(w, k) matches Some(i) ==> k <= i < w.rects@.len()
            && reloadable_at(w, i),
    decreases w.rects@.len() - k,
{
    if 0 <= k < w.rects@.len() && !reloadable_at(w, k) {
        lemma_first_reloadable_sound(w, k + 1);
    }
}

/// Whatever the first-activatable scan returns is indeed activatable.
pub proof fn lemma_first_activatable_sound(w: World, cfg: Config, k: int)
    ensures
        first_activatable_from(w, cfg, k) matches Some(i) ==> k <= i < w.rects@.len()
            && activatable_at(w, cfg, i),
    decreases w.rects@.len() - k,
{
    if 0 <= k < w.rects@.len() && !activatable_at(w, cfg, k) {
        lemma_first_activatable_sound(w, cfg, k + 1);
    }
}

/// The extreme multipliers of a valid configuration keep the drawn gap
/// inside the window, half a clearance away from either edge.
pub proof fn lemma_gap_center_bounds(cfg: Config, m: i64)
    requires
        cfg.wf(),
        cfg.gap_multiplier_low <= m < cfg.gap_multiplier_high,
    ensures
        cfg.gap_tight_factor / 2 <= gap_center(cfg, m as int),
        gap_center(cfg, m as int) + cfg.gap_tight_factor / 2 <= cfg.window_h,
        gap_center(cfg, m as int) + cfg.gap_tight_factor <= cfg.window_h + cfg.gap_tight_factor / 2,
{
    let wh2 = cfg.window_h as int / 2;
    assert(wh2 * cfg.gap_multiplier_low <= wh2 * m && wh2 * m <= wh2 * (cfg.gap_multiplier_high
        - 1)) by (nonlinear_arith)
        requires
            0 <= wh2,
            cfg.gap_multiplier_low <= m <= cfg.gap_multiplier_high - 1,
    ;
    vstd::arithmetic::div_mod::lemma_div_is_ordered(
        wh2 * cfg.gap_multiplier_low,
        wh2 * m,
        100,
    );
    vstd::arithmetic::div_mod::lemma_div_is_ordered(
        wh2 * m,
        wh2 * (cfg.gap_multiplier_high - 1),
        100,
    );
}

/// An even clearance splits exactly in half.
pub proof fn lemma_even_halves(t: int)
    requires
        t % 2 == 0,
        t >= 0,
    ensures
        2 * (t / 2) == t,
{
    vstd::arithmetic::div_mod::lemma_fundamental_div_mod(t, 2);
}

/// Reloading re-gaps one pair within the window and parks it: the store
/// invariant survives.
pub proof fn lemma_reload_preserves_wf(w0: World, w1: World, cfg: Config)
    requires
        world_wf(w0, cfg.gap_tight_factor as int),
        cfg.wf(),
        reload_rel(w0, w1, cfg),
    ensures
        world_wf(w1, cfg.gap_tight_factor as int),
{
    let tight = cfg.gap_tight_factor as int;
    if first_reloadable(w0) is None {
        lemma_wf_same_core(w0, w1, tight);
    } else {
        let i = first_reloadable(w0)->Some_0;
        lemma_first_reloadable_sound(w0, 0);
        let (j, m) = choose|j: int, m: i64| reload_pair_rel(w0, w1, cfg, i, j, m);
        assert(reload_pair_rel(w0, w1, cfg, i, j, m));
        lemma_gap_center_bounds(cfg, m);
        lemma_even_halves(tight);
        let ri = w0.rects@[i]->Some_0;
        let rj = w0.rects@[j]->Some_0;
        let u = if ri.pos_y < rj.pos_y {
            i
        } else {
            j
        };
        let l = if ri.pos_y < rj.pos_y {
            j
        } else {
            i
        };
        assert(pair_spans_ok(ri, rj, tight) || pair_spans_ok(rj, ri, tight));
        assert(w0.rects@[u]->Some_0.pos_y == 0);
        let gc = gap_center(cfg, m as int);
        let upper = reloaded_upper(cfg, m as int, w0.rects@[u]->Some_0);
        let lower = reloaded_lower(cfg, m as int, w0.rects@[l]->Some_0);
        assert(upper.size_y >= 0 && lower.size_y >= 0);
        assert(pair_spans_ok(upper, lower, tight));
        assert forall|a: int, b: int|
            0 <= a < w1.rects@.len() && 0 <= b < w1.rects@.len() && a != b && w1.pairs@[a] is Some
                && #[trigger] w1.pairs@[a] == #[trigger] w1.pairs@[b] implies pair_spans_ok(
            w1.rects@[a]->Some_0,
            w1.rects@[b]->Some_0,
            tight,
        ) || pair_spans_ok(w1.rects@[b]->Some_0, w1.rects@[a]->Some_0, tight) by {
            if a == u && b == l {
            } else if a == l && b == u {
            } else if a == i || a == j || b == i || b == j {
                if a == i || a == j {
                    let other = if a == i {
                        j
                    } else {
                        i
                    };
                    assert(w0.pairs@[b] == w0.pairs@[a]);
                    lemma_partner_unique(w0, tight, a, other, b);
                } else {
                    let other = if b == i {
                        j
                    } else {
                        i
                    };
                    assert(w0.pairs@[a] == w0.pairs@[b]);
                    lemma_partner_unique(w0, tight, b, other, a);
                }
            } else {
                assert(w1.rects@[a] == w0.rects@[a] && w1.rects@[b] == w0.rects@[b]);
            }
        }
        assert forall|k: int| 0 <= k < w1.rects@.len() implies (#[trigger] w1.rects@[k] matches Some(
            r,
        ) ==> rect_wf(r)) by {
            if k != u && k != l {
                assert(w1.rects@[k] == w0.rects@[k]);
            }
        }
        assert forall|k: int|
            0 <= k < w1.rects@.len() && w1.controllable@[k] implies w1.rects@[k] is Some
            && w1.vels@[k] is Some && w1.pairs@[k] is None by {
            assert(w0.controllable@[k]);
            assert(w0.pairs@[k] is None);
            assert(k != i && k != j);
        }
        assert forall|k: int|
            0 <= k < w1.rects@.len() && #[trigger] w1.pairs@[k] is Some implies w1.rects@[k] is Some
            && w1.collidable@[k] by {
            if k != u && k != l {
                assert(w1.rects@[k] == w0.rects@[k]);
            }
        }
    }
}

/// Activation gives one parked pair a purely horizontal scroll: the store
/// invariant survives.
pub proof fn lemma_activate_preserves_wf(w0: World, w1: World, cfg: Config)
    requires
        world_wf(w0, cfg.gap_tight_factor as int),
        cfg.wf(),
        activate_rel(w0, w1, cfg),
    ensures
        world_wf(w1, cfg.gap_tight_factor as int),
{
    let tight = cfg.gap_tight_factor as int;
    if first_activatable(w0, cfg) is None {
        lemma_wf_same_core(w0, w1, tight);
    } else {
        let i = first_activatable(w0, cfg)->Some_0;
        lemma_first_activatable_sound(w0, cfg, 0);
        let j = choose|j: int| activate_pair_rel(w0, w1, cfg, i, j);
        assert(activate_pair_rel(w0, w1, cfg, i, j));
        assert forall|k: int|
            0 <= k < w1.rects@.len() && w1.controllable@[k] implies w1.rects@[k] is Some
            && w1.vels@[k] is Some && w1.pairs@[k] is None by {
            assert(w0.controllable@[k]);
            assert(w0.pairs@[k] is None);
            assert(k != i && k != j);
        }
        assert forall|k: int|
            0 <= k < w1.rects@.len() && w1.pairs@[k] is Some implies (w1.vels@[k] matches Some(v)
            ==> v.y == 0) by {
            if k != i && k != j {
                assert(w1.vels@[k] == w0.vels@[k]);
            }
        }
    }
}

/// Law: a recycled pair spans the whole window again.  For every
/// multiplier the configured range can produce, the upper piece, the gap
/// clearance and the lower piece add up exactly to the window height,
/// both pieces keep nonnegative extents, and the gap between their spans
/// is exactly the clearance.
pub proof fn lemma_recycled_gap_spans(cfg: Config, m: i64, prev_upper: Rect, prev_lower: Rect)
    requires
        cfg.wf(),
        cfg.gap_multiplier_low <= m < cfg.gap_multiplier_high,
    ensures
        reloaded_upper(cfg, m as int, prev_upper).size_y + cfg.gap_tight_factor + reloaded_lower(
            cfg,
            m as int,
            prev_lower,
        ).size_y == cfg.window_h,
        reloaded_upper(cfg, m as int, prev_upper).size_y >= 0,
        reloaded_lower(cfg, m as int, prev_lower).size_y >= 0,
        reloaded_lower(cfg, m as int, prev_lower).pos_y == reloaded_upper(
            cfg,
            m as int,
            prev_upper,
        ).size_y + cfg.gap_tight_factor,
{
    lemma_gap_center_bounds(cfg, m);
    lemma_even_halves(cfg.gap_tight_factor as int);
}

} // verus!
