//! The entity store: one column per component type, indexed by entity id,
//! plus a command buffer for mutations deferred to the end-of-tick
//! maintenance barrier.

use vstd::prelude::*;

use crate::geom::{rect_wf, Rect, Vel};
use crate::SimError;

verus! {

/// A mutation deferred to the maintenance barrier, so that iteration in
/// progress never observes a partially applied removal.
#[derive(Clone, Copy, PartialEq, Eq, Structural, Debug)]
pub enum Command {
    /// Clear the counted marker of an entity, so its recycled pair can be
    /// scored again on the next pass.
    ClearCounted(usize),
}

/// All simulation entities.  An entity is an index; each column holds its
/// component of one type, `None` (or `false` for the marker columns)
/// standing for absence.
#[derive(Clone, Debug)]
pub struct World {
    /// Geometry rectangles.
    pub rects: Vec<Option<Rect>>,
    /// Per-tick displacements.  An obstacle without one is parked.
    pub vels: Vec<Option<Vel>>,
    /// Obstacle tags: the pair the entity belongs to.
    pub pairs: Vec<Option<u64>>,
    /// Whether the entity takes part in overlap testing.
    pub collidable: Vec<bool>,
    /// Whether the entity is the player-controlled actor.
    pub controllable: Vec<bool>,
    /// Whether the entity's pair was already credited to the score.
    pub counted: Vec<bool>,
    /// The deferred mutations, applied at the maintenance barrier.
    pub pending: Vec<Command>,
}

/// All columns agree on the entity count.
pub open spec fn cols_consistent(w: World) -> bool {
    w.vels@.len() == w.rects@.len() && w.pairs@.len() == w.rects@.len() && w.collidable@.len()
        == w.rects@.len() && w.controllable@.len() == w.rects@.len() && w.counted@.len()
        == w.rects@.len()
}

/// How many entries of a marker column are set.
pub open spec fn count_true(s: Seq<bool>) -> int
    decreases s.len(),
{
    if s.len() == 0 {
        0
    } else {
        count_true(s.drop_last()) + if s.last() {
            1int
        } else {
            0int
        }
    }
}

/// How many entities carry the given pair tag.
pub open spec fn pair_count(pairs: Seq<Option<u64>>, id: u64) -> int
    decreases pairs.len(),
{
    if pairs.len() == 0 {
        0
    } else {
        pair_count(pairs.drop_last(), id) + if pairs.last() == Some(id) {
            1int
        } else {
            0int
        }
    }
}

/// Whether the command buffer holds a counted-marker clear for entity `e`.
pub open spec fn cleared_by(pending: Seq<Command>, e: usize) -> bool {
    exists|k: int| 0 <= k < pending.len() && pending[k] == Command::ClearCounted(e)
}

/// The two pieces of a pair, in upper/lower order: the upper piece hangs
/// from the ceiling, and at least the configured clearance separates its
/// span from the lower piece's.
pub open spec fn pair_spans_ok(upper: Rect, lower: Rect, tight: int) -> bool {
    upper.pos_y == 0 && upper.pos_y + upper.size_y + tight <= lower.pos_y
}

/// The store invariant every tick preserves, for a given gap clearance:
/// consistent columns, well-formed geometry, exactly one controllable
/// entity which moves freely and is no obstacle, obstacles that carry
/// geometry and a collision tag and scroll only horizontally, and pair
/// tags shared by exactly two entities whose vertical spans stay the
/// clearance apart.
pub open spec fn world_wf(w: World, tight: int) -> bool {
    cols_consistent(w) && count_true(w.controllable@) == 1 && (forall|i: int|
        0 <= i < w.rects@.len() ==> (#[trigger] w.rects@[i] matches Some(r) ==> rect_wf(r))) && (
    forall|i: int|
        0 <= i < w.rects@.len() && #[trigger] w.controllable@[i] ==> w.rects@[i] is Some
            && w.vels@[i] is Some && w.pairs@[i] is None) && (forall|i: int|
        0 <= i < w.rects@.len() && #[trigger] w.pairs@[i] is Some ==> w.rects@[i] is Some
            && w.collidable@[i]) && (forall|i: int|
        0 <= i < w.rects@.len() && w.pairs@[i] is Some ==> (#[trigger] w.vels@[i] matches Some(v)
            ==> v.y == 0)) && (forall|i: int|
        0 <= i < w.rects@.len() ==> (#[trigger] w.pairs@[i] matches Some(id) ==> pair_count(
            w.pairs@,
            id,
        ) == 2)) && (forall|i: int, j: int|
        0 <= i < w.rects@.len() && 0 <= j < w.rects@.len() && i != j && w.pairs@[i] is Some
            && #[trigger] w.pairs@[i] == #[trigger] w.pairs@[j] ==> pair_spans_ok(
            w.rects@[i]->Some_0,
            w.rects@[j]->Some_0,
            tight,
        ) || pair_spans_ok(w.rects@[j]->Some_0, w.rects@[i]->Some_0, tight))
}

/// Appending a command reaches an entity exactly when the buffer already
/// did or the new command names it.
pub proof fn lemma_cleared_by_push(s: Seq<Command>, c: Command, e: usize)
    ensures
        cleared_by(s.push(c), e) == (cleared_by(s, e) || c == Command::ClearCounted(e)),
{
    if cleared_by(s.push(c), e) {
        let k = choose|k: int| 0 <= k < s.push(c).len() && s.push(c)[k] == Command::ClearCounted(e);
        if k < s.len() {
            assert(s[k] == Command::ClearCounted(e));
        } else {
            assert(c == Command::ClearCounted(e));
        }
    }
    if cleared_by(s, e) {
        let k = choose|k: int| 0 <= k < s.len() && s[k] == Command::ClearCounted(e);
        assert(s.push(c)[k] == Command::ClearCounted(e));
    }
    if c == Command::ClearCounted(e) {
        assert(s.push(c)[s.len() as int] == Command::ClearCounted(e));
    }
}


/// A marker column with no set entry counts zero.
pub proof fn lemma_count_true_zero(s: Seq<bool>)
    requires
        forall|i: int| 0 <= i < s.len() ==> !s[i],
    ensures
        count_true(s) == 0,
    decreases s.len(),
{
    if s.len() > 0 {
        lemma_count_true_zero(s.drop_last());
    }
}

/// A marker column whose one set entry is `a` counts one.
pub proof fn lemma_count_true_one(s: Seq<bool>, a: int)
    requires
        0 <= a < s.len(),
        s[a],
        forall|i: int| 0 <= i < s.len() && i != a ==> !s[i],
    ensures
        count_true(s) == 1,
    decreases s.len(),
{
    if a == s.len() - 1 {
        lemma_count_true_zero(s.drop_last());
    } else {
        lemma_count_true_one(s.drop_last(), a);
    }
}

/// The count is never negative.
pub proof fn lemma_pair_count_nonneg(pairs: Seq<Option<u64>>, id: u64)
    ensures
        pair_count(pairs, id) >= 0,
    decreases pairs.len(),
{
    if pairs.len() > 0 {
        lemma_pair_count_nonneg(pairs.drop_last(), id);
    }
}

/// No entry tagged with `id` means a count of zero.
pub proof fn lemma_pair_count_zero(pairs: Seq<Option<u64>>, id: u64)
    requires
        forall|i: int| 0 <= i < pairs.len() ==> pairs[i] != Some(id),
    ensures
        pair_count(pairs, id) == 0,
    decreases pairs.len(),
{
    if pairs.len() > 0 {
        lemma_pair_count_zero(pairs.drop_last(), id);
    }
}

/// Exactly one entry tagged with `id` means a count of one.
pub proof fn lemma_pair_count_one(pairs: Seq<Option<u64>>, id: u64, a: int)
    requires
        0 <= a < pairs.len(),
        pairs[a] == Some(id),
        forall|i: int| 0 <= i < pairs.len() && i != a ==> pairs[i] != Some(id),
    ensures
        pair_count(pairs, id) == 1,
    decreases pairs.len(),
{
    if a == pairs.len() - 1 {
        lemma_pair_count_zero(pairs.drop_last(), id);
    } else {
        lemma_pair_count_one(pairs.drop_last(), id, a);
    }
}

/// Exactly the two entries `a` and `b` tagged with `id` mean a count of
/// two.
pub proof fn lemma_pair_count_exact_two(pairs: Seq<Option<u64>>, id: u64, a: int, b: int)
    requires
        0 <= a < b < pairs.len(),
        pairs[a] == Some(id),
        pairs[b] == Some(id),
        forall|i: int| 0 <= i < pairs.len() && i != a && i != b ==> pairs[i] != Some(id),
    ensures
        pair_count(pairs, id) == 2,
    decreases pairs.len(),
{
    if b == pairs.len() - 1 {
        lemma_pair_count_one(pairs.drop_last(), id, a);
    } else {
        lemma_pair_count_exact_two(pairs.drop_last(), id, a, b);
    }
}

/// One tagged witness gives a count of at least one.
pub proof fn lemma_pair_count_min_one(pairs: Seq<Option<u64>>, id: u64, a: int)
    requires
        0 <= a < pairs.len(),
        pairs[a] == Some(id),
    ensures
        pair_count(pairs, id) >= 1,
    decreases pairs.len(),
{
    lemma_pair_count_nonneg(pairs.drop_last(), id);
    if a < pairs.len() - 1 {
        lemma_pair_count_min_one(pairs.drop_last(), id, a);
    }
}

/// Two distinct witnesses give a count of at least two.
pub proof fn lemma_pair_count_min_two(pairs: Seq<Option<u64>>, id: u64, a: int, b: int)
    requires
        0 <= a < b < pairs.len(),
        pairs[a] == Some(id),
        pairs[b] == Some(id),
    ensures
        pair_count(pairs, id) >= 2,
    decreases pairs.len(),
{
    if b == pairs.len() - 1 {
        lemma_pair_count_min_one(pairs.drop_last(), id, a);
    } else {
        lemma_pair_count_min_two(pairs.drop_last(), id, a, b);
    }
}

/// Three distinct witnesses give a count of at least three: with the
/// store invariant's count of two, a third member of a pair is absurd.
pub proof fn lemma_pair_count_min_three(pairs: Seq<Option<u64>>, id: u64, a: int, b: int, c: int)
    requires
        0 <= a < b < c < pairs.len(),
        pairs[a] == Some(id),
        pairs[b] == Some(id),
        pairs[c] == Some(id),
    ensures
        pair_count(pairs, id) >= 3,
    decreases pairs.len(),
{
    if c == pairs.len() - 1 {
        lemma_pair_count_min_two(pairs.drop_last(), id, a, b);
    } else {
        lemma_pair_count_min_three(pairs.drop_last(), id, a, b, c);
    }
}

/// Under the store invariant a pair member's partner is unique.
pub proof fn lemma_partner_unique(w: World, tight: int, i: int, j1: int, j2: int)
    requires
        world_wf(w, tight),
        0 <= i < w.pairs@.len(),
        w.pairs@[i] is Some,
        0 <= j1 < w.pairs@.len(),
        0 <= j2 < w.pairs@.len(),
        j1 != i,
        j2 != i,
        w.pairs@[j1] == w.pairs@[i],
        w.pairs@[j2] == w.pairs@[i],
    ensures
        j1 == j2,
{
    let id = w.pairs@[i]->Some_0;
    if j1 != j2 {
        if i < j1 && j1 < j2 {
            lemma_pair_count_min_three(w.pairs@, id, i, j1, j2);
        } else if i < j2 && j2 < j1 {
            lemma_pair_count_min_three(w.pairs@, id, i, j2, j1);
        } else if j1 < i && i < j2 {
            lemma_pair_count_min_three(w.pairs@, id, j1, i, j2);
        } else if j2 < i && i < j1 {
            lemma_pair_count_min_three(w.pairs@, id, j2, i, j1);
        } else if j1 < j2 && j2 < i {
            lemma_pair_count_min_three(w.pairs@, id, j1, j2, i);
        } else {
            lemma_pair_count_min_three(w.pairs@, id, j2, j1, i);
        }
    }
}

/// Under the store invariant a pair member has a partner.
pub proof fn lemma_partner_exists(w: World, tight: int, i: int)
    requires
        world_wf(w, tight),
        0 <= i < w.pairs@.len(),
        w.pairs@[i] is Some,
    ensures
        exists|j: int| 0 <= j < w.pairs@.len() && j != i && #[trigger] w.pairs@[j] == w.pairs@[i],
{
    let id = w.pairs@[i]->Some_0;
    if forall|j: int| 0 <= j < w.pairs@.len() && j != i ==> #[trigger] w.pairs@[j] != Some(id) {
        lemma_pair_count_one(w.pairs@, id, i);
        assert(false);
    }
}

impl World {
    /// A store with no entities and nothing pending.
    pub fn new() -> (w: World)
        ensures
            w.rects@ =~= Seq::<Option<Rect>>::empty(),
            w.vels@ =~= Seq::<Option<Vel>>::empty(),
            w.pairs@ =~= Seq::<Option<u64>>::empty(),
            w.collidable@ =~= Seq::<bool>::empty(),
            w.controllable@ =~= Seq::<bool>::empty(),
            w.counted@ =~= Seq::<bool>::empty(),
            w.pending@ =~= Seq::<Command>::empty(),
            cols_consistent(w),
    {
        World {
            rects: Vec::new(),
            vels: Vec::new(),
            pairs: Vec::new(),
            collidable: Vec::new(),
            controllable: Vec::new(),
            counted: Vec::new(),
            pending: Vec::new(),
        }
    }

    /// How many entities the store holds.
    pub fn entity_count(&self) -> (n: usize)
        ensures
            n == self.rects@.len(),
    {
        self.rects.len()
    }

    /// Create an entity from an initial component bundle; its id is the
    /// next free index.  It starts uncounted.
    pub fn create(
        &mut self,
        rect: Option<Rect>,
        vel: Option<Vel>,
        pair: Option<u64>,
        collidable: bool,
        controllable: bool,
    ) -> (e: usize)
        ensures
            e == old(self).rects@.len(),
            final(self).rects@ == old(self).rects@.push(rect),
            final(self).vels@ == old(self).vels@.push(vel),
            final(self).pairs@ == old(self).pairs@.push(pair),
            final(self).collidable@ == old(self).collidable@.push(collidable),
            final(self).controllable@ == old(self).controllable@.push(controllable),
            final(self).counted@ == old(self).counted@.push(false),
            final(self).pending@ == old(self).pending@,
    {
        let e = self.rects.len();
        self.rects.push(rect);
        self.vels.push(vel);
        self.pairs.push(pair);
        self.collidable.push(collidable);
        self.controllable.push(controllable);
        self.counted.push(false);
        e
    }

    /// Replace or attach the geometry of an existing entity.
    pub fn set_rect(&mut self, e: usize, r: Rect)
        requires
            e < old(self).rects@.len(),
        ensures
            final(self).rects@ == old(self).rects@.update(e as int, Some(r)),
            final(self).vels@ == old(self).vels@,
            final(self).pairs@ == old(self).pairs@,
            final(self).collidable@ == old(self).collidable@,
            final(self).controllable@ == old(self).controllable@,
            final(self).counted@ == old(self).counted@,
            final(self).pending@ == old(self).pending@,
    {
        self.rects[e] = Some(r);
    }

    /// Attach a velocity.  An entity that already scrolls, or a stale id,
    /// is a mutation conflict: a reported no-op.
    pub fn attach_velocity(&mut self, e: usize, v: Vel) -> (r: Result<(), SimError>)
        ensures
            e < old(self).vels@.len() && old(self).vels@[e as int] is None ==> r == Ok::<
                (),
                SimError,
            >(()) && final(self).vels@ == old(self).vels@.update(e as int, Some(v)),
            !(e < old(self).vels@.len() && old(self).vels@[e as int] is None) ==> r == Err::<
                (),
                SimError,
            >(SimError::ComponentMutationConflict) && final(self).vels@ == old(self).vels@,
            final(self).rects@ == old(self).rects@,
            final(self).pairs@ == old(self).pairs@,
            final(self).collidable@ == old(self).collidable@,
            final(self).controllable@ == old(self).controllable@,
            final(self).counted@ == old(self).counted@,
            final(self).pending@ == old(self).pending@,
    {
        if e < self.vels.len() && self.vels[e].is_none() {
            self.vels[e] = Some(v);
            Ok(())
        } else {
            Err(SimError::ComponentMutationConflict)
        }
    }

    /// Detach a velocity, parking the entity.  A parked entity or a stale
    /// id is a mutation conflict: a reported no-op.
    pub fn detach_velocity(&mut self, e: usize) -> (r: Result<(), SimError>)
        ensures
            e < old(self).vels@.len() && old(self).vels@[e as int] is Some ==> r == Ok::<
                (),
                SimError,
            >(()) && final(self).vels@ == old(self).vels@.update(e as int, None),
            !(e < old(self).vels@.len() && old(self).vels@[e as int] is Some) ==> r == Err::<
                (),
                SimError,
            >(SimError::ComponentMutationConflict) && final(self).vels@ == old(self).vels@,
            final(self).rects@ == old(self).rects@,
            final(self).pairs@ == old(self).pairs@,
            final(self).collidable@ == old(self).collidable@,
            final(self).controllable@ == old(self).controllable@,
            final(self).counted@ == old(self).counted@,
            final(self).pending@ == old(self).pending@,
    {
        if e < self.vels.len() && self.vels[e].is_some() {
            self.vels[e] = None;
            Ok(())
        } else {
            Err(SimError::ComponentMutationConflict)
        }
    }

    /// Set the counted marker.  An already counted entity or a stale id
    /// is a mutation conflict: a reported no-op.
    pub fn attach_counted(&mut self, e: usize) -> (r: Result<(), SimError>)
        ensures
            e < old(self).counted@.len() && !old(self).counted@[e as int] ==> r == Ok::<
                (),
                SimError,
            >(()) && final(self).counted@ == old(self).counted@.update(e as int, true),
            !(e < old(self).counted@.len() && !old(self).counted@[e as int]) ==> r == Err::<
                (),
                SimError,
            >(SimError::ComponentMutationConflict) && final(self).counted@ == old(self).counted@,
            final(self).rects@ == old(self).rects@,
            final(self).vels@ == old(self).vels@,
            final(self).pairs@ == old(self).pairs@,
            final(self).collidable@ == old(self).collidable@,
            final(self).controllable@ == old(self).controllable@,
            final(self).pending@ == old(self).pending@,
    {
        if e < self.counted.len() && !self.counted[e] {
            self.counted[e] = true;
            Ok(())
        } else {
            Err(SimError::ComponentMutationConflict)
        }
    }

    /// Clear the counted marker at once.  An uncounted entity or a stale
    /// id is a mutation conflict: a reported no-op.
    pub fn detach_counted(&mut self, e: usize) -> (r: Result<(), SimError>)
        ensures
            e < old(self).counted@.len() && old(self).counted@[e as int] ==> r == Ok::<
                (),
                SimError,
            >(()) && final(self).counted@ == old(self).counted@.update(e as int, false),
            !(e < old(self).counted@.len() && old(self).counted@[e as int]) ==> r == Err::<
                (),
                SimError,
            >(SimError::ComponentMutationConflict) && final(self).counted@ == old(self).counted@,
            final(self).rects@ == old(self).rects@,
            final(self).vels@ == old(self).vels@,
            final(self).pairs@ == old(self).pairs@,
            final(self).collidable@ == old(self).collidable@,
            final(self).controllable@ == old(self).controllable@,
            final(self).pending@ == old(self).pending@,
    {
        if e < self.counted.len() && self.counted[e] {
            self.counted[e] = false;
            Ok(())
        } else {
            Err(SimError::ComponentMutationConflict)
        }
    }

    /// Queue a counted-marker clear for the maintenance barrier.
    pub fn defer_clear_counted(&mut self, e: usize)
        ensures
            final(self).pending@ == old(self).pending@.push(Command::ClearCounted(e)),
            final(self).rects@ == old(self).rects@,
            final(self).vels@ == old(self).vels@,
            final(self).pairs@ == old(self).pairs@,
            final(self).collidable@ == old(self).collidable@,
            final(self).controllable@ == old(self).controllable@,
            final(self).counted@ == old(self).counted@,
    {
        self.pending.push(Command::ClearCounted(e));
    }

    /// The maintenance barrier: apply every deferred mutation and drain
    /// the buffer.  A command aimed at a stale id or an already cleared
    /// marker is a conflict, skipped so the tick never aborts.
    pub fn maintain(&mut self)
        ensures
            final(self).pending@ =~= Seq::<Command>::empty(),
            final(self).counted@.len() == old(self).counted@.len(),
            forall|i: int|
                0 <= i < old(self).counted@.len() ==> final(self).counted@[i] == (
                old(self).counted@[i] && !cleared_by(old(self).pending@, i as usize)),
            final(self).rects@ == old(self).rects@,
            final(self).vels@ == old(self).vels@,
            final(self).pairs@ == old(self).pairs@,
            final(self).collidable@ == old(self).collidable@,
            final(self).controllable@ == old(self).controllable@,
    {
        let m = self.pending.len();
        let mut k: usize = 0;
        while k < m
            invariant
                m == self.pending@.len(),
                k <= m,
                self.pending@ == old(self).pending@,
                self.rects@ == old(self).rects@,
                self.vels@ == old(self).vels@,
                self.pairs@ == old(self).pairs@,
                self.collidable@ == old(self).collidable@,
                self.controllable@ == old(self).controllable@,
                self.counted@.len() == old(self).counted@.len(),
                forall|i: int|
                    0 <= i < old(self).counted@.len() ==> self.counted@[i] == (
                    old(self).counted@[i] && !cleared_by(old(self).pending@.take(k as int), i as usize)),
            decreases m - k,
        {
            let ghost prefix = old(self).pending@.take(k as int);
            let Command::ClearCounted(e) = self.pending[k];
            if e < self.counted.len() && self.counted[e] {
                self.counted[e] = false;
            }
            proof {
                assert(old(self).pending@.take(k + 1int) =~= prefix.push(old(self).pending@[k as int]));
                assert forall|i: int| 0 <= i < old(self).counted@.len() implies self.counted@[i] == (
                old(self).counted@[i] && !cleared_by(
                    old(self).pending@.take(k + 1int),
                    i as usize,
                )) by {
                    lemma_cleared_by_push(prefix, old(self).pending@[k as int], i as usize);
                }
            }
            k = k + 1;
        }
        proof {
            assert(old(self).pending@.take(m as int) =~= old(self).pending@);
        }
        self.pending.clear();
    }
}

} // verus!
