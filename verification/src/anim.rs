//! Sprite animation: named, loopable frame cycles with per-frame timing,
//! and the animator that owns the clips of one visual entity.
//!
//! Clip identifiers are a small enumeration: the clip set is fixed at
//! compile time, so string lookup is left to the configuration boundary.

use vstd::prelude::*;

use crate::geom::Rect;
use crate::COORD_LIMIT;
use crate::SimError;

verus! {

/// The clips the game knows.  `Idle` is the designated default clip that
/// frame sampling falls back to when nothing is playing.
#[derive(Clone, Copy, PartialEq, Eq, Structural, Debug)]
pub enum ClipId {
    Idle,
    Flap,
}

/// One animation clip: a frame cycle on the sprite sheet with its timing
/// state.
#[derive(Clone, Copy, PartialEq, Eq, Structural, Debug)]
pub struct Clip {
    pub id: ClipId,
    /// Top-left corner of the clip's first frame on the sheet.
    pub origin_x: i64,
    pub origin_y: i64,
    /// Index of the last frame of the cycle.
    pub frame_count: u8,
    pub current_frame_index: u8,
    pub is_playing: bool,
    pub loops: bool,
    /// Ticks per frame: 1 advances the frame every tick.
    pub frame_delay: u8,
    /// Ticks left before the next frame advance.
    pub frames_until_advance: u8,
}

/// A clip is well formed when its sheet origin is a bounded, nonnegative
/// coordinate and its frame cursor has not run past the cycle.
pub open spec fn clip_wf(c: Clip) -> bool {
    0 <= c.origin_x <= COORD_LIMIT && 0 <= c.origin_y <= COORD_LIMIT && c.current_frame_index
        <= c.frame_count
}

/// A freshly registered clip: stopped, at frame zero, ready to advance on
/// the first tick after it starts.
pub open spec fn fresh_clip(
    id: ClipId,
    origin_x: i64,
    origin_y: i64,
    frame_count: u8,
    loops: bool,
    frame_delay: u8,
) -> Clip {
    Clip {
        id,
        origin_x,
        origin_y,
        frame_count,
        current_frame_index: 0,
        is_playing: false,
        loops,
        frame_delay,
        frames_until_advance: 0,
    }
}

/// The delay counter's value right after a frame advance: with a delay of
/// `d` ticks per frame, `d - 1` further ticks pass before the next advance.
pub open spec fn delay_reset(frame_delay: u8) -> u8 {
    if frame_delay == 0 {
        0
    } else {
        (frame_delay - 1) as u8
    }
}

/// One tick of a clip.  A stopped clip is untouched.  A playing clip whose
/// delay counter has reached zero advances its frame index, wrapping to
/// zero at `frame_count` and stopping there unless it loops; otherwise the
/// delay counter goes down by one.
pub open spec fn clip_step(c: Clip) -> Clip {
    if !c.is_playing {
        c
    } else if c.frames_until_advance == 0 {
        if c.current_frame_index == c.frame_count {
            Clip {
                current_frame_index: 0,
                is_playing: c.loops,
                frames_until_advance: delay_reset(c.frame_delay),
                ..c
            }
        } else if c.current_frame_index < c.frame_count {
            Clip {
                current_frame_index: (c.current_frame_index + 1) as u8,
                frames_until_advance: delay_reset(c.frame_delay),
                ..c
            }
        } else {
            Clip { frames_until_advance: delay_reset(c.frame_delay), ..c }
        }
    } else {
        Clip { frames_until_advance: (c.frames_until_advance - 1) as u8, ..c }
    }
}

impl Clip {
    /// Advance this clip by one tick, exactly as `clip_step` says.
    pub fn step(&mut self)
        ensures
            *final(self) == clip_step(*old(self)),
    {
        if self.is_playing {
            if self.frames_until_advance == 0 {
                if self.current_frame_index == self.frame_count {
                    self.current_frame_index = 0;
                    if !self.loops {
                        self.is_playing = false;
                    }
                } else if self.current_frame_index < self.frame_count {
                    self.current_frame_index = self.current_frame_index + 1;
                }
                self.frames_until_advance = if self.frame_delay == 0 {
                    0
                } else {
                    self.frame_delay - 1
                };
            } else {
                self.frames_until_advance = self.frames_until_advance - 1;
            }
        }
    }

    /// Halt the clip and rewind it to its first frame.
    pub fn stop(&mut self)
        ensures
            *final(self) == (Clip {
                is_playing: false,
                current_frame_index: 0,
                ..*old(self)
            }),
    {
        self.is_playing = false;
        self.current_frame_index = 0;
    }
}

/// Whether some registered clip carries the given identifier.
pub open spec fn has_clip(clips: Seq<Clip>, id: ClipId) -> bool {
    exists|i: int| 0 <= i < clips.len() && clips[i].id == id
}

/// Whether some registered clip is currently playing.
pub open spec fn any_playing(clips: Seq<Clip>) -> bool {
    exists|i: int| 0 <= i < clips.len() && clips[i].is_playing
}

/// The first playing clip at or after position `i`, in registration order.
pub open spec fn first_playing_from(clips: Seq<Clip>, i: int) -> Option<int>
    decreases clips.len() - i,
{
    if !(0 <= i < clips.len()) {
        None
    } else if clips[i].is_playing {
        Some(i)
    } else {
        first_playing_from(clips, i + 1)
    }
}

/// The first playing clip in registration order, the one whose frame the
/// sampler prefers.
pub open spec fn first_playing(clips: Seq<Clip>) -> Option<int> {
    first_playing_from(clips, 0)
}

/// A scan that saw no playing clip before `i` has not passed the first
/// playing clip.
pub proof fn lemma_first_playing_skip(clips: Seq<Clip>, i: int)
    requires
        0 <= i <= clips.len(),
        forall|j: int| 0 <= j < i ==> !clips[j].is_playing,
    ensures
        first_playing(clips) == first_playing_from(clips, i),
    decreases i,
{
    if i > 0 {
        lemma_first_playing_skip(clips, i - 1);
    }
}

/// How a registration rewrites the clip list: an existing clip with the
/// same identifier is replaced in place, otherwise the new clip goes to
/// the back.  No other clip is touched.
pub open spec fn registered(before: Seq<Clip>, after: Seq<Clip>, c: Clip) -> bool {
    if has_clip(before, c.id) {
        after.len() == before.len() && (forall|j: int|
            0 <= j < before.len() && before[j].id != c.id ==> after[j] == before[j]) && (forall|
            j: int,
        |
            0 <= j < before.len() && before[j].id == c.id ==> after[j] == c)
    } else {
        after == before.push(c)
    }
}

/// How a successful start rewrites the clip list: the named clip is set
/// playing, every other clip is untouched.
pub open spec fn started(before: Seq<Clip>, after: Seq<Clip>, id: ClipId) -> bool {
    after.len() == before.len() && (forall|j: int|
        0 <= j < before.len() && before[j].id != id ==> after[j] == before[j]) && (forall|j: int|
        0 <= j < before.len() && before[j].id == id ==> after[j] == (Clip {
            is_playing: true,
            ..before[j]
        }))
}

/// The sheet region a clip currently samples: the clip origin shifted
/// right by one frame step per frame index, with the sheet's sprite size.
pub open spec fn sample_rect(s: Spritesheet, c: Clip) -> Rect {
    Rect {
        pos_x: (c.origin_x + s.step_len * c.current_frame_index as int) as i64,
        pos_y: c.origin_y,
        size_x: s.sprite_size_x,
        size_y: s.sprite_size_y,
    }
}


/// One animator tick as a relation: every clip stepped once, the sheet
/// geometry untouched.
pub open spec fn sheet_ticked(before: Spritesheet, after: Spritesheet) -> bool {
    after.clips@.len() == before.clips@.len() && (forall|j: int|
        0 <= j < before.clips@.len() ==> after.clips@[j] == clip_step(before.clips@[j]))
        && after.sprite_size_x == before.sprite_size_x && after.sprite_size_y
        == before.sprite_size_y && after.step_len == before.step_len
}

/// The sprite animator of one visual entity: its registered clips, in
/// registration order with distinct identifiers, and the sheet geometry
/// needed to sample a frame.
#[derive(Clone, Debug)]
pub struct Spritesheet {
    pub clips: Vec<Clip>,
    /// Width and height of one frame on the sheet.
    pub sprite_size_x: i64,
    pub sprite_size_y: i64,
    /// Horizontal distance between consecutive frames of a clip.
    pub step_len: i64,
}

/// The animator's invariant: bounded sheet geometry, well-formed clips,
/// distinct clip identifiers.
pub open spec fn sheet_wf(s: Spritesheet) -> bool {
    0 <= s.sprite_size_x <= COORD_LIMIT && 0 <= s.sprite_size_y <= COORD_LIMIT && 0 <= s.step_len
        <= COORD_LIMIT && (forall|i: int| 0 <= i < s.clips@.len() ==> clip_wf(#[trigger] s.clips@[i]))
        && (forall|i: int, j: int|
        0 <= i < j < s.clips@.len() ==> s.clips@[i].id != s.clips@[j].id)
}

impl Spritesheet {
    /// A new animator with no clips.
    pub fn new(sprite_size_x: i64, sprite_size_y: i64, step_len: i64) -> (s: Spritesheet)
        requires
            0 <= sprite_size_x <= COORD_LIMIT,
            0 <= sprite_size_y <= COORD_LIMIT,
            0 <= step_len <= COORD_LIMIT,
        ensures
            sheet_wf(s),
            s.clips@ == Seq::<Clip>::empty(),
            s.sprite_size_x == sprite_size_x,
            s.sprite_size_y == sprite_size_y,
            s.step_len == step_len,
    {
        Spritesheet { clips: Vec::new(), sprite_size_x, sprite_size_y, step_len }
    }

    /// Register a clip, replacing a previous clip with the same
    /// identifier; it starts stopped.  The general form chooses whether
    /// the clip loops.
    pub fn add_animation_looping(
        &mut self,
        id: ClipId,
        origin_x: i64,
        origin_y: i64,
        frame_count: u8,
        loops: bool,
        frame_delay: u8,
    )
        requires
            sheet_wf(*old(self)),
            0 <= origin_x <= COORD_LIMIT,
            0 <= origin_y <= COORD_LIMIT,
        ensures
            sheet_wf(*final(self)),
            registered(
                old(self).clips@,
                final(self).clips@,
                fresh_clip(id, origin_x, origin_y, frame_count, loops, frame_delay),
            ),
            final(self).sprite_size_x == old(self).sprite_size_x,
            final(self).sprite_size_y == old(self).sprite_size_y,
            final(self).step_len == old(self).step_len,
    {
        let c = Clip {
            id,
            origin_x,
            origin_y,
            frame_count,
            current_frame_index: 0,
            is_playing: false,
            loops,
            frame_delay,
            frames_until_advance: 0,
        };
        let n = self.clips.len();
        let mut i: usize = 0;
        while i < n
            invariant
                n == self.clips@.len(),
                i <= n,
                *self == *old(self),
                sheet_wf(*self),
                c == fresh_clip(id, origin_x, origin_y, frame_count, loops, frame_delay),
                clip_wf(c),
                forall|j: int| 0 <= j < i ==> self.clips@[j].id != id,
            decreases n - i,
        {
            if self.clips[i].id == id {
                proof {
                    assert(has_clip(old(self).clips@, id));
                }
                self.clips[i] = c;
                proof {
                    assert forall|j: int|
                        0 <= j < old(self).clips@.len() && old(self).clips@[j].id
                            == id implies self.clips@[j] == c by {
                        if j < i as int {
                            assert(old(self).clips@[j].id != old(self).clips@[i as int].id);
                        } else if j > i as int {
                            assert(old(self).clips@[i as int].id != old(self).clips@[j].id);
                        }
                    }
                }
                return ;
            }
            i = i + 1;
        }
        self.clips.push(c);
    }

    /// Register a looping clip.
    pub fn add_animation(
        &mut self,
        id: ClipId,
        origin_x: i64,
        origin_y: i64,
        frame_count: u8,
        frame_delay: u8,
    )
        requires
            sheet_wf(*old(self)),
            0 <= origin_x <= COORD_LIMIT,
            0 <= origin_y <= COORD_LIMIT,
        ensures
            sheet_wf(*final(self)),
            registered(
                old(self).clips@,
                final(self).clips@,
                fresh_clip(id, origin_x, origin_y, frame_count, true, frame_delay),
            ),
            final(self).sprite_size_x == old(self).sprite_size_x,
            final(self).sprite_size_y == old(self).sprite_size_y,
            final(self).step_len == old(self).step_len,
    {
        self.add_animation_looping(id, origin_x, origin_y, frame_count, true, frame_delay)
    }

    /// Set the named clip playing.  Asking for an unregistered clip is a
    /// no-op reported to the caller.
    pub fn start_animation(&mut self, id: ClipId) -> (r: Result<(), SimError>)
        requires
            sheet_wf(*old(self)),
        ensures
            sheet_wf(*final(self)),
            final(self).sprite_size_x == old(self).sprite_size_x,
            final(self).sprite_size_y == old(self).sprite_size_y,
            final(self).step_len == old(self).step_len,
            has_clip(old(self).clips@, id) ==> r == Ok::<(), SimError>(()) && started(
                old(self).clips@,
                final(self).clips@,
                id,
            ),
            !has_clip(old(self).clips@, id) ==> r == Err::<(), SimError>(
                SimError::UnknownClipRequested,
            ) && *final(self) == *old(self),
    {
        let n = self.clips.len();
        let mut i: usize = 0;
        while i < n
            invariant
                n == self.clips@.len(),
                i <= n,
                *self == *old(self),
                sheet_wf(*self),
                forall|j: int| 0 <= j < i ==> self.clips@[j].id != id,
            decreases n - i,
        {
            if self.clips[i].id == id {
                proof {
                    assert(has_clip(old(self).clips@, id));
                }
                let c = self.clips[i];
                self.clips[i] = Clip { is_playing: true, ..c };
                proof {
                    assert forall|j: int|
                        0 <= j < old(self).clips@.len() && old(self).clips@[j].id
                            == id implies self.clips@[j] == (Clip {
                            is_playing: true,
                            ..old(self).clips@[j]
                        }) by {
                        if j < i as int {
                            assert(old(self).clips@[j].id != old(self).clips@[i as int].id);
                        } else if j > i as int {
                            assert(old(self).clips@[i as int].id != old(self).clips@[j].id);
                        }
                    }
                }
                return Ok(());
            }
            i = i + 1;
        }
        Err(SimError::UnknownClipRequested)
    }

    /// Advance every clip by one tick; stopped clips are untouched.
    pub fn tick(&mut self)
        ensures
            final(self).clips@.len() == old(self).clips@.len(),
            forall|j: int|
                0 <= j < old(self).clips@.len() ==> final(self).clips@[j] == clip_step(
                    old(self).clips@[j],
                ),
            final(self).sprite_size_x == old(self).sprite_size_x,
            final(self).sprite_size_y == old(self).sprite_size_y,
            final(self).step_len == old(self).step_len,
            sheet_wf(*old(self)) ==> sheet_wf(*final(self)),
    {
        let n = self.clips.len();
        let mut i: usize = 0;
        while i < n
            invariant
                n == self.clips@.len(),
                i <= n,
                self.sprite_size_x == old(self).sprite_size_x,
                self.sprite_size_y == old(self).sprite_size_y,
                self.step_len == old(self).step_len,
                forall|j: int| 0 <= j < i ==> self.clips@[j] == clip_step(old(self).clips@[j]),
                forall|j: int| i <= j < n ==> self.clips@[j] == old(self).clips@[j],
            decreases n - i,
        {
            let mut c = self.clips[i];
            c.step();
            self.clips[i] = c;
            i = i + 1;
        }
        proof {
            if sheet_wf(*old(self)) {
                assert forall|j: int| 0 <= j < self.clips@.len() implies clip_wf(
                    #[trigger] self.clips@[j],
                ) by {
                    assert(clip_wf(old(self).clips@[j]));
                }
            }
        }
    }

    /// Whether a clip with this identifier is registered.
    pub fn contains_clip(&self, id: ClipId) -> (r: bool)
        ensures
            r == has_clip(self.clips@, id),
    {
        let n = self.clips.len();
        let mut i: usize = 0;
        while i < n
            invariant
                n == self.clips@.len(),
                i <= n,
                forall|j: int| 0 <= j < i ==> self.clips@[j].id != id,
            decreases n - i,
        {
            if self.clips[i].id == id {
                return true;
            }
            i = i + 1;
        }
        false
    }

    /// The derived "is any clip playing" flag.
    pub fn is_animating(&self) -> (r: bool)
        ensures
            r == any_playing(self.clips@),
    {
        let n = self.clips.len();
        let mut i: usize = 0;
        while i < n
            invariant
                n == self.clips@.len(),
                i <= n,
                forall|j: int| 0 <= j < i ==> !self.clips@[j].is_playing,
            decreases n - i,
        {
            if self.clips[i].is_playing {
                return true;
            }
            i = i + 1;
        }
        false
    }

    /// The sheet region to sample this frame: the first playing clip in
    /// registration order wins; with nothing playing the designated
    /// default clip is sampled, and its absence is a configuration error.
    pub fn draw(&self) -> (r: Result<Rect, SimError>)
        requires
            sheet_wf(*self),
        ensures
            first_playing(self.clips@) matches Some(i) ==> r == Ok::<Rect, SimError>(
                sample_rect(*self, self.clips@[i]),
            ),
            first_playing(self.clips@) is None && has_clip(self.clips@, ClipId::Idle) ==> exists|
                i: int,
            |
                0 <= i < self.clips@.len() && self.clips@[i].id == ClipId::Idle && r == Ok::<
                    Rect,
                    SimError,
                >(sample_rect(*self, self.clips@[i])),
            first_playing(self.clips@) is None && !has_clip(self.clips@, ClipId::Idle) ==> r
                == Err::<Rect, SimError>(SimError::ConfigurationError),
    {
        let n = self.clips.len();
        let mut i: usize = 0;
        while i < n
            invariant
                n == self.clips@.len(),
                i <= n,
                sheet_wf(*self),
                forall|j: int| 0 <= j < i ==> !self.clips@[j].is_playing,
            decreases n - i,
        {
            if self.clips[i].is_playing {
                proof {
                    lemma_first_playing_skip(self.clips@, i as int);
                }
                return Ok(self.sample(i));
            }
            i = i + 1;
        }
        proof {
            lemma_first_playing_skip(self.clips@, n as int);
        }
        let mut k: usize = 0;
        while k < n
            invariant
                n == self.clips@.len(),
                k <= n,
                sheet_wf(*self),
                first_playing(self.clips@) is None,
                forall|j: int| 0 <= j < k ==> self.clips@[j].id != ClipId::Idle,
            decreases n - k,
        {
            if self.clips[k].id == ClipId::Idle {
                return Ok(self.sample(k));
            }
            k = k + 1;
        }
        Err(SimError::ConfigurationError)
    }

    /// Sample the region of one clip's current frame.
    fn sample(&self, i: usize) -> (r: Rect)
        requires
            sheet_wf(*self),
            i < self.clips@.len(),
        ensures
            r == sample_rect(*self, self.clips@[i as int]),
    {
        let c = self.clips[i];
        let idx = c.current_frame_index as i64;
        proof {
            assert(0 <= self.step_len * idx <= COORD_LIMIT * 255) by (nonlinear_arith)
                requires
                    0 <= self.step_len <= COORD_LIMIT,
                    0 <= idx <= 255,
            ;
        }
        Rect {
            pos_x: c.origin_x + self.step_len * idx,
            pos_y: c.origin_y,
            size_x: self.sprite_size_x,
            size_y: self.sprite_size_y,
        }
    }
}

} // verus!
