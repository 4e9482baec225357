//! A linear series of frames with a constant frame delay.
use vstd::prelude::*;
use std::rc::Rc;

verus! {

/// A linear series of frames with a constant frame delay
///
/// Frames advance by discrete ticks, which should be run in the update section of an
/// application loop rather than the draw section.
pub struct Animation<F> {
    frames: Rc<Vec<F>>,
    current: usize,
    current_time: u32,
    frame_delay: u32,
}

/// The state of an animation as mathematical values.
pub struct AnimationView<F> {
    pub frames: Seq<F>,
    pub current: int,
    pub current_time: int,
    pub frame_delay: int,
}

impl<F> View for Animation<F> {
    type V = AnimationView<F>;

    closed spec fn view(&self) -> AnimationView<F> {
        AnimationView {
            frames: self.frames@,
            current: self.current as int,
            current_time: self.current_time as int,
            frame_delay: self.frame_delay as int,
        }
    }
}

/// The current frame is a frame (or 0 when there are none) and the time since the last
/// frame change is below the delay (or 0).
pub open spec fn animation_wf<F>(a: AnimationView<F>) -> bool {
    &&& 0 <= a.frame_delay <= u32::MAX
    &&& (if a.frames.len() == 0 {
        a.current == 0
    } else {
        0 <= a.current < a.frames.len()
    })
    &&& (a.current_time == 0 || 0 <= a.current_time < a.frame_delay)
}

/// One tick: the time goes up by one, and once it reaches the delay the next frame
/// (wrapping around) becomes current and the time starts again at 0.
pub open spec fn tick_spec<F>(a: AnimationView<F>) -> AnimationView<F> {
    if a.current_time + 1 >= a.frame_delay {
        AnimationView {
            current: (a.current + 1) % (a.frames.len() as int),
            current_time: 0,
            ..a
        }
    } else {
        AnimationView { current_time: a.current_time + 1, ..a }
    }
}

/// The state after `n` ticks.
pub open spec fn ticks_spec<F>(a: AnimationView<F>, n: nat) -> AnimationView<F>
    decreases n,
{
    if n == 0 {
        a
    } else {
        tick_spec(ticks_spec(a, (n - 1) as nat))
    }
}

impl<F> Animation<F> {
    #[verifier::type_invariant]
    spec fn well_formed(self) -> bool {
        animation_wf(self@)
    }

    /// Create a new animation from a series of frames and a frame delay
    pub fn new(frames: Vec<F>, frame_delay: u32) -> (a: Animation<F>)
        ensures
            a@.frames == frames@,
            a@.current == 0,
            a@.current_time == 0,
            a@.frame_delay == frame_delay,
            animation_wf(a@),
    {
        Animation { frames: Rc::new(frames), current: 0, current_time: 0, frame_delay }
    }

    /// Tick the animation forward by one step
    ///
    /// With no frames, a tick that reaches the frame delay has no next frame to go to.
    pub fn tick(&mut self)
        requires
            old(self)@.frames.len() > 0 || old(self)@.current_time + 1 < old(self)@.frame_delay,
        ensures
            final(self)@ == tick_spec(old(self)@),
            animation_wf(final(self)@),
    {
        proof {
            use_type_invariant(&*self);
        }
        let time = self.current_time + 1;
        if time >= self.frame_delay {
            let n = self.frames.len();
            self.current_time = 0;
            self.current = (self.current + 1) % n;
        } else {
            self.current_time = time;
        }
    }

    /// Get the current frame of the animation; there must be at least one frame
    pub fn current_frame(&self) -> (f: &F)
        requires
            self@.frames.len() > 0,
        ensures
            *f == self@.frames[self@.current],
    {
        proof {
            use_type_invariant(self);
        }
        &self.frames[self.current]
    }
}

/// Frames advance at a constant rate: from the start of a frame, `frame_delay` ticks
/// (at least one) lead to the next frame, wrapping around after the last, and start its
/// time again at 0; fewer ticks keep the frame.
pub proof fn lemma_frame_advances_every_delay<F>(a: AnimationView<F>, n: nat)
    requires
        animation_wf(a),
        a.frames.len() > 0,
        a.current_time == 0,
        a.frame_delay >= 1,
        n <= a.frame_delay,
    ensures
        n < a.frame_delay ==> ticks_spec(a, n) == (AnimationView { current_time: n as int, ..a }),
        n == a.frame_delay ==> ticks_spec(a, n) == (AnimationView {
            current: (a.current + 1) % (a.frames.len() as int),
            current_time: 0,
            ..a
        }),
    decreases n,
{
    if n > 0 {
        lemma_frame_advances_every_delay(a, (n - 1) as nat);
    }
}

} // verus!
