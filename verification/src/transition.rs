//! The transition between two levels.
//!
//! When the level changes, every leaf of the new level gets a slot that
//! moves it from a leaf that was shown before to its own place. A new leaf
//! starts at its ancestor when the level goes up, and at its first
//! descendant when the level goes down; the other leaves of the old level
//! are dropped at once. A request for the very set that is shown starts
//! nothing.

use vstd::prelude::*;
use vstd::arithmetic::div_mod::lemma_div_denominator;
use crate::animation::{lemma_advanced_monotone, lemma_current_at_ends, AnimationSlot, SlotView};
use crate::color::Color;
use crate::generator::{
    descend_from, digits, generated, lemma_digits_are_corners, lemma_generated_len,
    lemma_generated_step, lemma_leaf_follows_digits,
};
use crate::instances::{built, InstanceSet, InstanceSetView};
use crate::powers::{
    leaf_count, lemma_pow4_add, lemma_pow4_bounded, lemma_pow4_positive, pow4, MAX_DEPTH,
};
use crate::transform::{
    all_wf, lemma_blend_in_reach, lemma_child_is_translation, views, Similarity, Transform, UNIT,
};

verus! {

/// The leaf of level `from_level` at which leaf `leaf` of level `to_level`
/// starts: its ancestor if the new level is deeper, else its first
/// descendant.
pub open spec fn source_index(leaf: nat, from_level: nat, to_level: nat) -> nat {
    if to_level >= from_level {
        leaf / pow4((to_level - from_level) as nat)
    } else {
        leaf * pow4((from_level - to_level) as nat)
    }
}

/// Every leaf of the new level starts at a leaf of the old one.
pub proof fn lemma_source_in_range(leaf: nat, from_level: nat, to_level: nat)
    requires
        leaf < pow4(to_level),
    ensures
        source_index(leaf, from_level, to_level) < pow4(from_level),
{
    if to_level >= from_level {
        let gap = (to_level - from_level) as nat;
        let group = pow4(gap);
        let old_count = pow4(from_level);
        lemma_pow4_add(from_level, gap);
        lemma_pow4_positive(gap);
        assert(leaf / group < old_count) by (nonlinear_arith)
            requires
                leaf < old_count * group,
                group >= 1,
        ;
    } else {
        let gap = (from_level - to_level) as nat;
        let group = pow4(gap);
        let new_count = pow4(to_level);
        lemma_pow4_add(to_level, gap);
        lemma_pow4_positive(gap);
        assert(leaf * group < new_count * group) by (nonlinear_arith)
            requires
                leaf < new_count,
                group >= 1,
        ;
    }
}

/// When the level goes up, a leaf starts at its ancestor: the leaf of the
/// old level whose path is the front of its own.
pub proof fn lemma_source_is_ancestor(leaf: nat, from_level: nat, to_level: nat)
    requires
        from_level <= to_level,
        leaf < pow4(to_level),
    ensures
        digits(source_index(leaf, from_level, to_level), from_level) == digits(leaf, to_level).take(
            from_level as int,
        ),
    decreases to_level - from_level,
{
    lemma_digits_are_corners(leaf, to_level);
    if to_level == from_level {
        assert(pow4(0) == 1);
        assert(digits(leaf, to_level).take(from_level as int) =~= digits(leaf, to_level));
    } else {
        let shorter = (to_level - 1) as nat;
        let gap = (to_level - from_level) as nat;
        let group = pow4((gap - 1) as nat);
        lemma_pow4_positive((gap - 1) as nat);
        assert(pow4(gap) == 4 * group);
        assert(pow4(to_level) == 4 * pow4(shorter));
        lemma_div_denominator(leaf as int, 4, group as int);
        assert(source_index(leaf / 4, from_level, shorter) == source_index(
            leaf,
            from_level,
            to_level,
        ));
        lemma_source_is_ancestor(leaf / 4, from_level, shorter);
        lemma_digits_are_corners(leaf / 4, shorter);
        assert(digits(leaf, to_level).take(from_level as int) =~= digits(leaf / 4, shorter).take(
            from_level as int,
        ));
    }
}

/// The path that goes to the first corner `count` times.
pub open spec fn first_corners(count: nat) -> Seq<int> {
    Seq::new(count, |i: int| 0int)
}

/// When the level goes down, a leaf starts at its first descendant: the
/// leaf of the old level whose path is its own, followed by first corners.
pub proof fn lemma_source_is_first_descendant(leaf: nat, from_level: nat, to_level: nat)
    requires
        to_level <= from_level,
        leaf < pow4(to_level),
    ensures
        digits(source_index(leaf, from_level, to_level), from_level) == digits(leaf, to_level)
            + first_corners((from_level - to_level) as nat),
    decreases from_level - to_level,
{
    if from_level == to_level {
        assert(pow4(0) == 1);
        assert(digits(leaf, to_level) + first_corners(0) =~= digits(leaf, to_level));
    } else {
        let shallower = (from_level - 1) as nat;
        let gap = (from_level - to_level) as nat;
        let group = pow4((gap - 1) as nat);
        assert(pow4(gap) == 4 * group);
        assert(pow4(0) == 1);
        let origin = source_index(leaf, from_level, to_level);
        let inner = source_index(leaf, shallower, to_level);
        if shallower == to_level {
            assert(group == 1);
            assert(inner == leaf / 1);
            assert(leaf * group == leaf) by (nonlinear_arith)
                requires
                    group == 1,
            ;
        } else {
            assert((shallower - to_level) as nat == (gap - 1) as nat);
        }
        assert(inner == leaf * group);
        assert(origin == 4 * inner) by (nonlinear_arith)
            requires
                origin == leaf * (4 * group),
                inner == leaf * group,
        ;
        lemma_source_is_first_descendant(leaf, shallower, to_level);
        assert(digits(origin, from_level) == digits(inner, shallower).push(0));
        assert((digits(leaf, to_level) + first_corners((gap - 1) as nat)).push(0) =~= digits(
            leaf,
            to_level,
        ) + first_corners(gap));
    }
}

/// The placements at which the leaves of the new level start.
pub open spec fn reconciled(shown: Seq<Similarity>, from_level: nat, to_level: nat) -> Seq<
    Similarity,
> {
    Seq::new(
        pow4(to_level),
        |leaf: int| shown[source_index(leaf as nat, from_level, to_level) as int],
    )
}

/// Whether every slot has arrived.
pub open spec fn all_complete(slots: Seq<SlotView>) -> bool {
    forall|i: int| 0 <= i < slots.len() ==> (#[trigger] slots[i]).complete()
}

/// The slots that lead from the placements `from` to the placements `to`.
pub open spec fn fresh_slots(from: Seq<Similarity>, to: Seq<Similarity>, rate: nat) -> Seq<
    SlotView,
> {
    Seq::new(to.len(), |i: int| SlotView { from: from[i], to: to[i], progress: 0, rate })
}

/// The slots after `elapsed` milliseconds.
pub open spec fn stepped_slots(slots: Seq<SlotView>, elapsed: nat) -> Seq<SlotView> {
    Seq::new(slots.len(), |i: int| slots[i].stepped(elapsed))
}

/// Where the leaves of the slots are now.
pub open spec fn current_placements(slots: Seq<SlotView>) -> Seq<Similarity> {
    Seq::new(slots.len(), |i: int| slots[i].current())
}

/// The two states of a transition.
#[derive(Clone, Copy, Debug, PartialEq, Eq, Structural)]
pub enum Phase {
    Idle,
    Transitioning,
}

/// The mathematical value of a transition: the set that it leads to, and
/// one slot for each of its leaves while they move.
pub struct TransitionView {
    pub target: InstanceSetView,
    pub slots: Seq<SlotView>,
}

impl TransitionView {
    /// Whether the transition is at rest, or has one slot for each leaf of
    /// its target that leads to that leaf, not all of them complete.
    pub open spec fn wf(self) -> bool {
        &&& self.target.wf()
        &&& self.slots.len() == 0 || self.slots.len() == self.target.transforms.len()
        &&& forall|i: int|
            0 <= i < self.slots.len() ==> (#[trigger] self.slots[i]).wf() && self.slots[i].to
                == self.target.transforms[i]
        &&& self.slots.len() > 0 ==> !all_complete(self.slots)
    }

    /// Whether nothing moves.
    pub open spec fn idle(self) -> bool {
        self.slots.len() == 0
    }

    /// The transition at rest at `target`.
    pub open spec fn resting(target: InstanceSetView) -> TransitionView {
        TransitionView { target, slots: Seq::empty() }
    }

    /// What is shown now: the target at rest, else the leaves of the target
    /// where their slots have brought them.
    pub open spec fn frame(self) -> InstanceSetView {
        if self.idle() {
            self.target
        } else {
            self.target.placed(current_placements(self.slots))
        }
    }

    /// The transition after a request to go to `target`: the leaves start
    /// where the leaves shown now are. If `target` is the very set that is
    /// shown, nothing starts.
    pub open spec fn begun(self, target: InstanceSetView, rate: nat) -> TransitionView {
        let from = reconciled(self.frame().transforms, self.target.level, target.level);
        if self.frame() == target {
            TransitionView::resting(target)
        } else {
            TransitionView { target, slots: fresh_slots(from, target.transforms, rate) }
        }
    }

    /// The transition after `elapsed` milliseconds: every slot advances, and
    /// once all have arrived the transition is at rest.
    pub open spec fn ticked(self, elapsed: nat) -> TransitionView {
        let moved = stepped_slots(self.slots, elapsed);
        if all_complete(moved) {
            TransitionView::resting(self.target)
        } else {
            TransitionView { target: self.target, slots: moved }
        }
    }
}

/// At rest, time changes nothing.
pub proof fn lemma_idle_tick_changes_nothing(transition: TransitionView, elapsed: nat)
    requires
        transition.idle(),
    ensures
        transition.ticked(elapsed) == transition,
{
    assert(transition.slots =~= Seq::empty());
}

/// While leaves move, no slot goes back or passes `UNIT`, and the
/// transition comes to rest exactly when all of them have arrived.
pub proof fn lemma_tick_advances(transition: TransitionView, elapsed: nat)
    requires
        transition.wf(),
    ensures
        transition.ticked(elapsed).wf(),
        transition.ticked(elapsed).target == transition.target,
        transition.ticked(elapsed).idle() <==> all_complete(
            stepped_slots(transition.slots, elapsed),
        ),
        forall|i: int|
            0 <= i < transition.slots.len() ==> transition.slots[i].progress <= (
            #[trigger] stepped_slots(transition.slots, elapsed)[i]).progress <= UNIT,
        !transition.ticked(elapsed).idle() ==> transition.ticked(elapsed).slots == stepped_slots(
            transition.slots,
            elapsed,
        ),
{
    let moved = stepped_slots(transition.slots, elapsed);
    assert forall|i: int| 0 <= i < transition.slots.len() implies transition.slots[i].progress <= (
    #[trigger] moved[i]).progress <= UNIT by {
        lemma_advanced_monotone(
            transition.slots[i].progress,
            transition.slots[i].rate,
            elapsed,
        );
    }
    if !all_complete(moved) {
        let after = transition.ticked(elapsed);
        assert forall|i: int| 0 <= i < after.slots.len() implies (#[trigger] after.slots[i]).wf()
            && after.slots[i].to == after.target.transforms[i] by {
            assert(transition.slots[i].wf());
            assert(moved[i].progress <= UNIT);
        }
    }
}

/// A request starts one slot for each leaf of the new level, none of them
/// advanced, unless the set asked for is the set that is shown.
pub proof fn lemma_begin_starts_slots(transition: TransitionView, target: InstanceSetView, rate: nat)
    requires
        transition.wf(),
        target.wf(),
    ensures
        transition.begun(target, rate).wf(),
        transition.begun(target, rate).target == target,
        transition.begun(target, rate).idle() <==> transition.frame() == target,
        !transition.begun(target, rate).idle() ==> transition.begun(target, rate).slots.len()
            == target.transforms.len(),
        forall|i: int|
            0 <= i < transition.begun(target, rate).slots.len() ==> (#[trigger] transition.begun(
                target,
                rate,
            ).slots[i]).progress == 0,
{
    let shown = transition.frame();
    lemma_frame_wf(transition);
    let from = reconciled(shown.transforms, transition.target.level, target.level);
    let after = transition.begun(target, rate);
    lemma_pow4_positive(target.level);
    if shown != target {
        assert forall|i: int| 0 <= i < after.slots.len() implies (#[trigger] after.slots[i]).wf()
            && after.slots[i].to == after.target.transforms[i] by {
            lemma_source_in_range(i as nat, transition.target.level, target.level);
            let origin = source_index(i as nat, transition.target.level, target.level) as int;
            assert(shown.transforms[origin].in_reach());
            assert(target.transforms[i].in_reach());
        }
        assert(!after.slots[0].complete());
    }
}

/// A request moves nothing by itself: right after it, every leaf of the new
/// level is shown where the leaf that it starts from was shown, also when
/// that leaf was in flight.
pub proof fn lemma_begin_is_continuous(transition: TransitionView, target: InstanceSetView, rate: nat)
    requires
        transition.wf(),
        target.wf(),
    ensures
        transition.begun(target, rate).frame().transforms == reconciled(
            transition.frame().transforms,
            transition.target.level,
            target.level,
        ),
{
    let from = reconciled(transition.frame().transforms, transition.target.level, target.level);
    let after = transition.begun(target, rate);
    lemma_pow4_positive(target.level);
    if transition.frame() != target {
        assert forall|i: int| 0 <= i < from.len() implies after.frame().transforms[i]
            == from[i] by {
            lemma_current_at_ends(after.slots[i]);
        }
        assert(after.frame().transforms =~= from);
    } else {
        assert(pow4(0) == 1);
        assert(after.frame().transforms =~= from);
    }
}

/// From rest, one level up: every new leaf starts where its parent is and
/// goes to its own place, the parent moved to the leaf's corner.
pub proof fn lemma_level_up_starts_at_parents(
    base: Similarity,
    depth: nat,
    palette: Seq<Color>,
    rate: nat,
    leaf: nat,
)
    requires
        leaf < pow4(depth + 1),
    ensures
        ({
            let parents = generated(base, depth);
            let after = TransitionView::resting(built(base, depth, palette)).begun(
                built(base, depth + 1, palette),
                rate,
            );
            &&& after.slots.len() == pow4(depth + 1)
            &&& after.slots[leaf as int] == (SlotView {
                from: parents[leaf as int / 4],
                to: parents[leaf as int / 4].child((leaf % 4) as int, depth),
                progress: 0,
                rate,
            })
        }),
{
    lemma_generated_len(base, 0, depth + 1);
    lemma_generated_len(base, 0, depth);
    lemma_generated_step(base, 0, depth, leaf);
    assert(pow4(1) == 4) by {
        reveal_with_fuel(pow4, 2);
    }
    assert(source_index(leaf, depth, depth + 1) == leaf / 4);
}

/// Going on to first corners moves nothing: the first corner has no
/// offset.
proof fn lemma_first_corners_stay(base: Similarity, level: nat, path: Seq<int>, count: nat)
    ensures
        descend_from(base, level, path + first_corners(count)) == descend_from(base, level, path),
    decreases count,
{
    let longer = path + first_corners(count);
    if count == 0 {
        assert(longer =~= path);
    } else {
        let shorter = path + first_corners((count - 1) as nat);
        assert(longer.drop_last() =~= shorter);
        assert(longer.last() == 0);
        lemma_first_corners_stay(base, level, path, (count - 1) as nat);
        lemma_child_is_translation(
            descend_from(base, level, shorter),
            0,
            level + (longer.len() - 1) as nat,
        );
    }
}

/// When the level goes down, the leaves that survive do not move: a leaf
/// and its first descendant are in the same place.
pub proof fn lemma_level_down_keeps_places(
    base: Similarity,
    from_level: nat,
    to_level: nat,
    leaf: nat,
)
    requires
        to_level <= from_level,
        leaf < pow4(to_level),
    ensures
        generated(base, from_level)[source_index(leaf, from_level, to_level) as int] == generated(
            base,
            to_level,
        )[leaf as int],
{
    let origin = source_index(leaf, from_level, to_level);
    lemma_source_in_range(leaf, from_level, to_level);
    lemma_source_is_first_descendant(leaf, from_level, to_level);
    lemma_leaf_follows_digits(base, from_level, origin);
    lemma_leaf_follows_digits(base, to_level, leaf);
    lemma_first_corners_stay(
        base,
        0,
        digits(leaf, to_level),
        (from_level - to_level) as nat,
    );
}

/// What a well-formed transition shows is a well-formed set of the target's
/// level.
pub proof fn lemma_frame_wf(transition: TransitionView)
    requires
        transition.wf(),
    ensures
        transition.frame().wf(),
        transition.frame().level == transition.target.level,
        transition.frame().colors == transition.target.colors,
{
    if !transition.idle() {
        let shown = transition.frame();
        assert forall|i: int| 0 <= i < shown.transforms.len() implies (
        #[trigger] shown.transforms[i]).in_reach() by {
            let slot = transition.slots[i];
            assert(slot.wf());
            lemma_blend_in_reach(slot.from, slot.to, slot.progress);
        }
    }
}

/// The leaf at which leaf `leaf` of the new level starts.
pub fn source_position(leaf: usize, from_level: u32, to_level: u32) -> (origin: usize)
    requires
        from_level <= MAX_DEPTH,
        to_level <= MAX_DEPTH,
        leaf < pow4(to_level as nat),
    ensures
        origin == source_index(leaf as nat, from_level as nat, to_level as nat),
        origin < pow4(from_level as nat),
{
    proof {
        lemma_source_in_range(leaf as nat, from_level as nat, to_level as nat);
        lemma_pow4_bounded(from_level as nat);
    }
    if to_level >= from_level {
        let group = leaf_count(to_level - from_level);
        proof {
            lemma_pow4_positive((to_level - from_level) as nat);
        }
        leaf / group
    } else {
        let group = leaf_count(from_level - to_level);
        leaf * group
    }
}

/// The transition between the set shown last and the set asked for.
#[derive(Clone, Debug, PartialEq, Eq)]
pub struct LevelTransition {
    target: InstanceSet,
    slots: Vec<AnimationSlot>,
}

impl View for LevelTransition {
    type V = TransitionView;

    closed spec fn view(&self) -> TransitionView {
        TransitionView {
            target: self.target@,
            slots: Seq::new(self.slots@.len(), |i: int| self.slots@[i]@),
        }
    }
}

impl LevelTransition {
    /// Whether the transition is well formed.
    pub open spec fn wf(&self) -> bool {
        self@.wf()
    }

    /// The transition at rest at `target`.
    pub fn new(target: InstanceSet) -> (transition: LevelTransition)
        requires
            target.wf(),
        ensures
            transition@ == TransitionView::resting(target@),
            transition.wf(),
    {
        let transition = LevelTransition { target, slots: Vec::new() };
        assert(transition@.slots =~= Seq::empty());
        transition
    }

    /// Whether nothing moves.
    pub fn is_idle(&self) -> (idle: bool)
        ensures
            idle == self@.idle(),
    {
        self.slots.len() == 0
    }

    /// The state of the transition.
    pub fn phase(&self) -> (phase: Phase)
        ensures
            phase == (if self@.idle() {
                Phase::Idle
            } else {
                Phase::Transitioning
            }),
    {
        if self.slots.len() == 0 {
            Phase::Idle
        } else {
            Phase::Transitioning
        }
    }

    /// The set that the transition leads to.
    pub fn target(&self) -> (target: &InstanceSet)
        ensures
            target@ == self@.target,
    {
        &self.target
    }

    /// The number of slots: none at rest, else one for each leaf of the
    /// target.
    pub fn slot_count(&self) -> (count: usize)
        ensures
            count == self@.slots.len(),
    {
        self.slots.len()
    }

    /// Slot `index`, if there is one.
    pub fn slot(&self, index: usize) -> (found: Option<AnimationSlot>)
        ensures
            found is Some <==> index < self@.slots.len(),
            found matches Some(slot) ==> slot@ == self@.slots[index as int],
    {
        if index < self.slots.len() {
            Some(self.slots[index])
        } else {
            None
        }
    }

    /// What is shown now.
    pub fn frame(&self) -> (shown: InstanceSet)
        requires
            self.wf(),
        ensures
            shown@ == self@.frame(),
            shown.wf(),
    {
        proof {
            lemma_frame_wf(self@);
        }
        if self.slots.len() == 0 {
            let placed = self.target.transforms();
            let shown = self.target.with_transforms(&placed);
            assert(shown@ == self@.target);
            shown
        } else {
            let mut placed: Vec<Transform> = Vec::new();
            let mut leaf: usize = 0;
            while leaf < self.slots.len()
                invariant
                    self.wf(),
                    leaf <= self.slots.len(),
                    placed.len() == leaf,
                    forall|i: int|
                        0 <= i < leaf ==> (#[trigger] placed[i])@ == self.slots[i]@.current()
                            && placed[i].wf(),
                decreases self.slots.len() - leaf,
            {
                assert(self@.slots[leaf as int].wf());
                placed.push(self.slots[leaf].current());
                leaf = leaf + 1;
            }
            assert(views(placed@) =~= current_placements(self@.slots));
            self.target.with_transforms(&placed)
        }
    }

    /// Starts the transition to `target` from what is shown now. Leaves in
    /// flight start where they are, not where they came from. At a rate of 0
    /// the leaves stay where they start and the transition never ends.
    pub fn begin(&mut self, target: InstanceSet, rate: u32)
        requires
            old(self).wf(),
            target.wf(),
        ensures
            final(self)@ == old(self)@.begun(target@, rate as nat),
            final(self).wf(),
    {
        let ghost before = self@;
        let shown = self.frame();
        proof {
            lemma_frame_wf(before);
            lemma_begin_starts_slots(before, target@, rate as nat);
        }
        if shown.same(&target) {
            self.target = target;
            self.slots = Vec::new();
            assert(self@.slots =~= Seq::empty());
            return;
        }
        let sources = shown.transforms();
        let goals = target.transforms();
        let from_level = shown.level();
        let to_level = target.level();
        let mut slots: Vec<AnimationSlot> = Vec::new();
        let mut leaf: usize = 0;
        while leaf < goals.len()
            invariant
                leaf <= goals.len(),
                goals.len() == pow4(to_level as nat),
                sources.len() == pow4(from_level as nat),
                from_level <= MAX_DEPTH,
                to_level <= MAX_DEPTH,
                all_wf(sources@),
                all_wf(goals@),
                slots.len() == leaf,
                forall|i: int|
                    0 <= i < leaf ==> (#[trigger] slots[i])@ == (SlotView {
                        from: sources[source_index(
                            i as nat,
                            from_level as nat,
                            to_level as nat,
                        ) as int]@,
                        to: goals[i]@,
                        progress: 0,
                        rate: rate as nat,
                    }),
            decreases goals.len() - leaf,
        {
            let origin = source_position(leaf, from_level, to_level);
            slots.push(AnimationSlot::new(sources[origin], goals[leaf], rate));
            leaf = leaf + 1;
        }
        self.target = target;
        self.slots = slots;
        proof {
            let from = reconciled(before.frame().transforms, before.target.level, target@.level);
            assert forall|i: int| 0 <= i < goals.len() implies from[i] == sources[source_index(
                i as nat,
                from_level as nat,
                to_level as nat,
            ) as int]@ && target@.transforms[i] == (#[trigger] goals[i])@ by {
                lemma_source_in_range(i as nat, from_level as nat, to_level as nat);
                let origin = source_index(i as nat, from_level as nat, to_level as nat) as int;
                assert(views(sources@)[origin] == sources[origin]@);
                assert(views(goals@)[i] == goals[i]@);
            }
            assert(self@.slots =~= fresh_slots(from, target@.transforms, rate as nat));
        }
    }

    /// Lets `millis` milliseconds pass and returns what is shown then. At
    /// rest nothing changes.
    pub fn tick(&mut self, millis: u32) -> (shown: InstanceSet)
        requires
            old(self).wf(),
        ensures
            final(self)@ == old(self)@.ticked(millis as nat),
            final(self).wf(),
            shown@ == final(self)@.frame(),
            shown.wf(),
    {
        let ghost before = self@;
        let mut moved: Vec<AnimationSlot> = Vec::new();
        let mut arrived = true;
        let mut leaf: usize = 0;
        while leaf < self.slots.len()
            invariant
                self@ == before,
                before.wf(),
                leaf <= self.slots.len(),
                moved.len() == leaf,
                forall|i: int|
                    0 <= i < leaf ==> (#[trigger] moved[i])@ == before.slots[i].stepped(
                        millis as nat,
                    ),
                arrived == (forall|i: int| 0 <= i < leaf ==> (#[trigger] moved[i])@.complete()),
            decreases self.slots.len() - leaf,
        {
            let mut slot = self.slots[leaf];
            assert(slot@ == before.slots[leaf as int]);
            slot.step(millis);
            let ghost earlier = moved@;
            let ghost so_far = arrived;
            if !slot.is_complete() {
                arrived = false;
            }
            moved.push(slot);
            proof {
                assert(moved[leaf as int] == slot);
                if !so_far {
                    let late = choose|i: int| 0 <= i < leaf && !(#[trigger] earlier[i])@.complete();
                    assert(moved[late] == earlier[late]);
                } else if arrived {
                    assert forall|i: int| 0 <= i < leaf + 1 implies (
                    #[trigger] moved[i])@.complete() by {
                        if i < leaf {
                            assert(moved[i] == earlier[i]);
                        }
                    }
                }
            }
            leaf = leaf + 1;
        }
        if arrived {
            self.slots = Vec::new();
        } else {
            self.slots = moved;
        }
        proof {
            let stepped = stepped_slots(before.slots, millis as nat);
            assert(arrived == all_complete(stepped)) by {
                if arrived {
                    assert forall|i: int| 0 <= i < stepped.len() implies (
                    #[trigger] stepped[i]).complete() by {
                        assert(moved[i]@.complete());
                    }
                } else {
                    let i = choose|i: int| 0 <= i < leaf && !(#[trigger] moved[i])@.complete();
                    assert(!stepped[i].complete());
                }
            }
            if arrived {
                assert(self@.slots =~= Seq::empty());
            } else {
                assert(self@.slots =~= stepped);
            }
            lemma_tick_advances(before, millis as nat);
        }
        self.frame()
    }
}

} // verus!
