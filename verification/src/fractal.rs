//! The fractal and its level.
//!
//! The fractal holds the level that was asked for last and the transition
//! that leads to it. A request for a level outside `0..=ceiling` is refused
//! and changes nothing.

use vstd::prelude::*;
use crate::color::{Color, Palette};
use crate::instances::{built, lemma_built_wf, InstanceSet, InstanceSetView};
use crate::powers::pow4;
use crate::transform::{Similarity, Transform};
use crate::transition::{
    lemma_begin_starts_slots, lemma_frame_wf, lemma_idle_tick_changes_nothing,
    lemma_tick_advances, LevelTransition, Phase, TransitionView,
};

verus! {

/// The deepest level that a fractal can be asked for.
pub const MAX_LEVEL: u32 = 10;

/// Why a request was refused.
#[derive(Clone, Copy, Debug, PartialEq, Eq, Structural)]
pub enum LevelError {
    /// The level is below 0 or above the ceiling.
    InvalidLevel,
}

/// The mathematical value of a fractal.
pub struct FractalView {
    pub level: nat,
    pub ceiling: nat,
    pub base: Similarity,
    pub palette: Seq<Color>,
    pub rate: nat,
    pub transition: TransitionView,
}

impl FractalView {
    /// Whether the level is within the ceiling and the transition leads to
    /// the instance set of that level.
    pub open spec fn wf(self) -> bool {
        &&& self.level <= self.ceiling <= MAX_LEVEL
        &&& self.base.has_room(0)
        &&& self.transition.wf()
        &&& self.transition.target == built(self.base, self.level, self.palette)
    }

    /// The fractal at level 0, at rest.
    pub open spec fn initial(base: Similarity, palette: Seq<Color>, ceiling: nat, rate: nat)
        -> FractalView {
        FractalView {
            level: 0,
            ceiling,
            base,
            palette,
            rate,
            transition: TransitionView::resting(built(base, 0, palette)),
        }
    }

    /// Whether a request for `level` is accepted.
    pub open spec fn accepts(self, level: int) -> bool {
        0 <= level <= self.ceiling
    }

    /// The fractal after an accepted request for `level`: the transition
    /// starts anew from what is shown.
    pub open spec fn at_level(self, level: nat) -> FractalView {
        FractalView {
            level,
            ceiling: self.ceiling,
            base: self.base,
            palette: self.palette,
            rate: self.rate,
            transition: self.transition.begun(built(self.base, level, self.palette), self.rate),
        }
    }

    /// The fractal after a request for `level`, accepted or not.
    pub open spec fn requested(self, level: int) -> FractalView {
        if self.accepts(level) {
            self.at_level(level as nat)
        } else {
            self
        }
    }

    /// The fractal after a request for the next level.
    pub open spec fn incremented(self) -> FractalView {
        self.requested(self.level as int + 1)
    }

    /// The fractal after a request for the level before.
    pub open spec fn decremented(self) -> FractalView {
        self.requested(self.level as int - 1)
    }

    /// The fractal after `elapsed` milliseconds.
    pub open spec fn ticked(self, elapsed: nat) -> FractalView {
        FractalView {
            level: self.level,
            ceiling: self.ceiling,
            base: self.base,
            palette: self.palette,
            rate: self.rate,
            transition: self.transition.ticked(elapsed),
        }
    }

    /// What is shown now.
    pub open spec fn frame(self) -> InstanceSetView {
        self.transition.frame()
    }
}

/// Below the ceiling, going up one level and down again comes back to the
/// level.
pub proof fn lemma_increment_then_decrement(fractal: FractalView)
    requires
        fractal.level < fractal.ceiling,
    ensures
        fractal.incremented().level == fractal.level + 1,
        fractal.incremented().decremented().level == fractal.level,
{
}

/// Above level 0, going down one level and up again comes back to the
/// level.
pub proof fn lemma_decrement_then_increment(fractal: FractalView)
    requires
        0 < fractal.level <= fractal.ceiling,
    ensures
        fractal.decremented().level == fractal.level - 1,
        fractal.decremented().incremented().level == fractal.level,
{
}

/// A request keeps the fractal well formed and its level within the
/// ceiling; a refused one changes nothing.
pub proof fn lemma_request_keeps_wf(fractal: FractalView, level: int)
    requires
        fractal.wf(),
    ensures
        fractal.requested(level).wf(),
        fractal.requested(level).level == (if fractal.accepts(level) {
            level
        } else {
            fractal.level as int
        }),
        !fractal.accepts(level) ==> fractal.requested(level) == fractal,
        fractal.accepts(level) ==> fractal.requested(level).transition.idle()
            || fractal.requested(level).transition.slots.len() == pow4(level as nat),
{
    if fractal.accepts(level) {
        let target = built(fractal.base, level as nat, fractal.palette);
        lemma_built_wf(fractal.base, level as nat, fractal.palette);
        lemma_begin_starts_slots(fractal.transition, target, fractal.rate);
    }
}

/// Time keeps the fractal well formed and its level.
pub proof fn lemma_tick_keeps_wf(fractal: FractalView, elapsed: nat)
    requires
        fractal.wf(),
    ensures
        fractal.ticked(elapsed).wf(),
        fractal.ticked(elapsed).frame().wf(),
{
    lemma_tick_advances(fractal.transition, elapsed);
    lemma_frame_wf(fractal.transition.ticked(elapsed));
}

/// At rest, time changes nothing.
pub proof fn lemma_tick_at_rest(fractal: FractalView, elapsed: nat)
    requires
        fractal.transition.idle(),
    ensures
        fractal.ticked(elapsed) == fractal,
{
    lemma_idle_tick_changes_nothing(fractal.transition, elapsed);
}

/// A fractal whose level can be raised and lowered while it is shown.
#[derive(Clone, Debug, PartialEq, Eq)]
pub struct Fractal {
    level: u32,
    ceiling: u32,
    base: Transform,
    palette: Palette,
    rate: u32,
    transition: LevelTransition,
}

impl View for Fractal {
    type V = FractalView;

    closed spec fn view(&self) -> FractalView {
        FractalView {
            level: self.level as nat,
            ceiling: self.ceiling as nat,
            base: self.base@,
            palette: self.palette.colors@,
            rate: self.rate as nat,
            transition: self.transition@,
        }
    }
}

impl Fractal {
    /// Whether the fractal is well formed.
    pub open spec fn wf(&self) -> bool {
        self@.wf()
    }

    /// The fractal at level 0 below `base`, at rest. Its leaves will move at
    /// `rate` parts of `UNIT` per millisecond; at a rate of 0 they stay where
    /// a request finds them, and a transition never ends. A ceiling above
    /// `MAX_LEVEL` is refused.
    pub fn new(base: Transform, palette: Palette, ceiling: u32, rate: u32) -> (made: Result<
        Fractal,
        LevelError,
    >)
        requires
            base@.has_room(0),
        ensures
            made is Ok <==> ceiling <= MAX_LEVEL,
            made matches Ok(fractal) ==> fractal@ == FractalView::initial(
                base@,
                palette.colors@,
                ceiling as nat,
                rate as nat,
            ) && fractal.wf(),
            made matches Err(error) ==> error == LevelError::InvalidLevel,
    {
        if ceiling > MAX_LEVEL {
            return Err(LevelError::InvalidLevel);
        }
        let target = InstanceSet::build(base, 0, &palette);
        let transition = LevelTransition::new(target);
        Ok(Fractal { level: 0, ceiling, base, palette, rate, transition })
    }

    /// The level asked for last.
    pub fn level(&self) -> (level: u32)
        ensures
            level == self@.level,
    {
        self.level
    }

    /// The deepest level that is accepted.
    pub fn ceiling(&self) -> (ceiling: u32)
        ensures
            ceiling == self@.ceiling,
    {
        self.ceiling
    }

    /// Whether nothing moves.
    pub fn is_idle(&self) -> (idle: bool)
        ensures
            idle == self@.transition.idle(),
    {
        self.transition.is_idle()
    }

    /// The state of the transition.
    pub fn phase(&self) -> (phase: Phase)
        ensures
            phase == (if self@.transition.idle() {
                Phase::Idle
            } else {
                Phase::Transitioning
            }),
    {
        self.transition.phase()
    }

    /// The transition that leads to the level asked for last.
    pub fn transition(&self) -> (transition: &LevelTransition)
        ensures
            transition@ == self@.transition,
    {
        &self.transition
    }

    /// What is shown now.
    pub fn frame(&self) -> (shown: InstanceSet)
        requires
            self.wf(),
        ensures
            shown@ == self@.frame(),
            shown.wf(),
    {
        self.transition.frame()
    }

    /// Asks for `level`. Within `0..=ceiling` the fractal goes to that level
    /// and its leaves start to move from where they are shown; any other
    /// level is refused and nothing changes.
    pub fn set_level(&mut self, level: i32) -> (done: Result<(), LevelError>)
        requires
            old(self).wf(),
        ensures
            final(self)@ == old(self)@.requested(level as int),
            final(self).wf(),
            done is Ok <==> old(self)@.accepts(level as int),
            done matches Err(error) ==> error == LevelError::InvalidLevel,
    {
        proof {
            lemma_request_keeps_wf(self@, level as int);
        }
        if level < 0 || level > self.ceiling as i32 {
            return Err(LevelError::InvalidLevel);
        }
        let asked: u32 = level as u32;
        let target = InstanceSet::build(self.base, asked, &self.palette);
        self.transition.begin(target, self.rate);
        self.level = asked;
        Ok(())
    }

    /// Asks for the next level. At the ceiling the request is refused.
    pub fn increment(&mut self) -> (done: Result<(), LevelError>)
        requires
            old(self).wf(),
        ensures
            final(self)@ == old(self)@.incremented(),
            final(self).wf(),
            done is Ok <==> old(self)@.level < old(self)@.ceiling,
            done matches Err(error) ==> error == LevelError::InvalidLevel,
    {
        let next: i32 = self.level as i32 + 1;
        self.set_level(next)
    }

    /// Asks for the level before. At level 0 the request is refused.
    pub fn decrement(&mut self) -> (done: Result<(), LevelError>)
        requires
            old(self).wf(),
        ensures
            final(self)@ == old(self)@.decremented(),
            final(self).wf(),
            done is Ok <==> old(self)@.level > 0,
            done matches Err(error) ==> error == LevelError::InvalidLevel,
    {
        let before: i32 = self.level as i32 - 1;
        self.set_level(before)
    }

    /// Lets `millis` milliseconds pass and returns what is shown then.
    pub fn tick(&mut self, millis: u32) -> (shown: InstanceSet)
        requires
            old(self).wf(),
        ensures
            final(self)@ == old(self)@.ticked(millis as nat),
            final(self).wf(),
            shown@ == final(self)@.frame(),
            shown.wf(),
    {
        proof {
            lemma_tick_keeps_wf(self@, millis as nat);
        }
        self.transition.tick(millis)
    }
}

} // verus!
