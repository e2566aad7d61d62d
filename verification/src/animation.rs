//! The motion of one leaf from where it was to where it belongs.

use vstd::prelude::*;
use crate::transform::{
    lemma_blend_in_reach, lemma_mix_ends, Similarity, Transform, CORNERS, UNIT,
};

verus! {

/// The progress after `elapsed` milliseconds at `rate` parts of `UNIT` per
/// millisecond: it grows linearly and stops at `UNIT`.
pub open spec fn advanced(progress: nat, rate: nat, elapsed: nat) -> nat {
    if progress + rate * elapsed >= UNIT {
        UNIT as nat
    } else {
        progress + rate * elapsed
    }
}

/// Progress never goes back and never passes `UNIT`.
pub proof fn lemma_advanced_monotone(progress: nat, rate: nat, elapsed: nat)
    requires
        progress <= UNIT,
    ensures
        progress <= advanced(progress, rate, elapsed) <= UNIT,
{
    assert(0 <= rate * elapsed) by (nonlinear_arith);
}

/// Advancing twice is advancing once by the sum of the times.
pub proof fn lemma_advanced_adds(progress: nat, rate: nat, first: nat, second: nat)
    requires
        progress <= UNIT,
    ensures
        advanced(advanced(progress, rate, first), rate, second) == advanced(
            progress,
            rate,
            first + second,
        ),
{
    assert(rate * (first + second) == rate * first + rate * second) by (nonlinear_arith);
    assert(0 <= rate * first) by (nonlinear_arith);
    assert(0 <= rate * second) by (nonlinear_arith);
}

/// The mathematical value of an animation slot.
pub struct SlotView {
    pub from: Similarity,
    pub to: Similarity,
    pub progress: nat,
    pub rate: nat,
}

impl SlotView {
    /// Whether both ends are in reach and the progress is at most `UNIT`.
    pub open spec fn wf(self) -> bool {
        &&& self.from.in_reach()
        &&& self.to.in_reach()
        &&& self.progress <= UNIT
    }

    /// Whether the leaf has arrived.
    pub open spec fn complete(self) -> bool {
        self.progress == UNIT
    }

    /// Where the leaf is now.
    pub open spec fn current(self) -> Similarity {
        self.from.blend(self.to, self.progress)
    }

    /// The slot after `elapsed` milliseconds.
    pub open spec fn stepped(self, elapsed: nat) -> SlotView {
        SlotView {
            from: self.from,
            to: self.to,
            progress: advanced(self.progress, self.rate, elapsed),
            rate: self.rate,
        }
    }
}

/// A slot that has not moved yet is at its start, and a complete one is at
/// its end.
pub proof fn lemma_current_at_ends(slot: SlotView)
    ensures
        slot.progress == 0 ==> slot.current() == slot.from,
        slot.complete() ==> slot.current() == slot.to,
{
    lemma_mix_ends(slot.from.scale as int, slot.to.scale as int);
    lemma_mix_ends(slot.from.x, slot.to.x);
    lemma_mix_ends(slot.from.y, slot.to.y);
    lemma_mix_ends(slot.from.z, slot.to.z);
}

/// A complete slot stays complete, whatever time passes.
pub proof fn lemma_complete_stays(slot: SlotView, elapsed: nat)
    requires
        slot.complete(),
    ensures
        slot.stepped(elapsed) == slot,
{
    assert(0 <= slot.rate * elapsed) by (nonlinear_arith);
}

/// The motion of one leaf: where it comes from, where it goes, and how far
/// it has come.
#[derive(Clone, Copy, Debug, PartialEq, Eq)]
pub struct AnimationSlot {
    from: Transform,
    to: Transform,
    progress: u64,
    rate: u32,
}

impl View for AnimationSlot {
    type V = SlotView;

    closed spec fn view(&self) -> SlotView {
        SlotView {
            from: self.from@,
            to: self.to@,
            progress: self.progress as nat,
            rate: self.rate as nat,
        }
    }
}

impl AnimationSlot {
    /// Whether the slot is well formed.
    pub open spec fn wf(&self) -> bool {
        self@.wf()
    }

    /// A slot at its start. At a rate of 0 the leaf never leaves it.
    pub fn new(from: Transform, to: Transform, rate: u32) -> (slot: AnimationSlot)
        requires
            from.wf(),
            to.wf(),
        ensures
            slot@ == (SlotView { from: from@, to: to@, progress: 0, rate: rate as nat }),
            slot.wf(),
    {
        AnimationSlot { from, to, progress: 0, rate }
    }

    /// Where the leaf comes from.
    pub fn from(&self) -> (from: Transform)
        ensures
            from@ == self@.from,
    {
        self.from
    }

    /// Where the leaf goes.
    pub fn to(&self) -> (to: Transform)
        ensures
            to@ == self@.to,
    {
        self.to
    }

    /// How far the leaf has come, in parts of `UNIT`.
    pub fn progress(&self) -> (progress: u64)
        ensures
            progress == self@.progress,
    {
        self.progress
    }

    /// How fast the leaf moves, in parts of `UNIT` per millisecond.
    pub fn rate(&self) -> (rate: u32)
        ensures
            rate == self@.rate,
    {
        self.rate
    }

    /// Whether the leaf has arrived.
    pub fn is_complete(&self) -> (complete: bool)
        ensures
            complete == self@.complete(),
    {
        self.progress == UNIT
    }

    /// Where the leaf is now.
    pub fn current(&self) -> (now: Transform)
        requires
            self.wf(),
        ensures
            now@ == self@.current(),
            now.wf(),
    {
        self.from.blend(&self.to, self.progress)
    }

    /// Lets `millis` milliseconds pass and returns where the leaf is then.
    pub fn step(&mut self, millis: u32) -> (now: Transform)
        requires
            old(self).wf(),
        ensures
            final(self)@ == old(self)@.stepped(millis as nat),
            final(self).wf(),
            now@ == final(self)@.current(),
            now.wf(),
    {
        assert((self.rate as u64) * (millis as u64) <= 0xffff_ffff * 0xffff_ffff)
            by (nonlinear_arith)
            requires
                self.rate <= 0xffff_ffff,
                millis <= 0xffff_ffff,
        ;
        let gained: u64 = (self.rate as u64) * (millis as u64);
        let room: u64 = UNIT - self.progress;
        if gained >= room {
            self.progress = UNIT;
        } else {
            self.progress = self.progress + gained;
        }
        self.from.blend(&self.to, self.progress)
    }
}

/// The four slots that lead from a placement to each of its children at the
/// first step: from the placement to the placement moved by the whole
/// offset of each corner.
pub fn subdivide_anim(parent: &Transform, rate: u32) -> (slots: Vec<AnimationSlot>)
    requires
        parent@.has_room(0),
    ensures
        slots.len() == CORNERS,
        forall|c: int|
            0 <= c < CORNERS ==> (#[trigger] slots[c])@ == (SlotView {
                from: parent@,
                to: parent@.child(c, 0),
                progress: 0,
                rate: rate as nat,
            }) && slots[c].wf(),
{
    let mut slots: Vec<AnimationSlot> = Vec::new();
    let mut corner: usize = 0;
    while corner < CORNERS
        invariant
            parent@.has_room(0),
            corner <= CORNERS,
            slots.len() == corner,
            forall|c: int|
                0 <= c < corner ==> (#[trigger] slots[c])@ == (SlotView {
                    from: parent@,
                    to: parent@.child(c, 0),
                    progress: 0,
                    rate: rate as nat,
                }) && slots[c].wf(),
        decreases CORNERS - corner,
    {
        slots.push(AnimationSlot::new(*parent, parent.child(corner, 0), rate));
        corner = corner + 1;
    }
    slots
}

} // verus!
