use sierpinski::animation::{subdivide_anim, AnimationSlot};
use sierpinski::color::Palette;
use sierpinski::generator::generate;
use sierpinski::instances::InstanceSet;
use sierpinski::transform::{Transform, UNIT};
use sierpinski::transition::{source_position, LevelTransition, Phase};

fn at(scale: u64, x: i64, y: i64, z: i64) -> Transform {
    Transform::new(scale, x, y, z).expect("the placement is in reach")
}

fn level_set(depth: u32) -> InstanceSet {
    InstanceSet::build(Transform::identity(), depth, &Palette::classic())
}

#[test]
fn slot_starts_at_its_beginning() {
    let from = Transform::identity();
    let to = at(32_768, 65_536, 0, 0);
    let slot = AnimationSlot::new(from, to, 7);
    assert_eq!(slot.from(), from);
    assert_eq!(slot.to(), to);
    assert_eq!(slot.progress(), 0);
    assert_eq!(slot.rate(), 7);
    assert!(!slot.is_complete());
    assert_eq!(slot.current(), from);
}

#[test]
fn step_advances_by_rate_times_time() {
    let mut slot = AnimationSlot::new(Transform::identity(), at(32_768, 65_536, 0, 0), 100);
    let now = slot.step(10);
    assert_eq!(slot.progress(), 1_000);
    assert_eq!(now, at(65_036, 1_000, 0, 0));
    assert_eq!(slot.current(), now);
    slot.step(5);
    assert_eq!(slot.progress(), 1_500);
    slot.step(0);
    assert_eq!(slot.progress(), 1_500);
}

#[test]
fn step_stops_at_the_end() {
    let to = at(32_768, 32_768, -32_768, 32_768);
    let mut slot = AnimationSlot::new(Transform::identity(), to, 100);
    assert_eq!(slot.step(655), at(32_786, 32_750, -32_750, 32_750));
    assert_eq!(slot.progress(), 65_500);
    assert!(!slot.is_complete());
    assert_eq!(slot.step(1), to);
    assert_eq!(slot.progress(), UNIT);
    assert!(slot.is_complete());
    assert_eq!(slot.step(1_000), to);
    assert_eq!(slot.progress(), UNIT);
    assert_eq!(slot.current(), to);
}

#[test]
fn step_reaches_the_end_exactly() {
    let mut slot = AnimationSlot::new(Transform::identity(), at(1, 2, 3, 4), 64);
    slot.step(1_023);
    assert_eq!(slot.progress(), 65_472);
    assert!(!slot.is_complete());
    slot.step(1);
    assert_eq!(slot.progress(), 65_536);
    assert!(slot.is_complete());
}

#[test]
fn step_never_goes_back_and_never_passes_the_end() {
    let mut slot = AnimationSlot::new(Transform::identity(), at(1, 2, 3, 4), 37);
    let mut before = slot.progress();
    for millis in [0, 1, 16, 17, 33, 250, 0, 1_000, 5_000, 1] {
        slot.step(millis);
        assert!(before <= slot.progress());
        assert!(slot.progress() <= UNIT);
        before = slot.progress();
    }
    assert!(slot.is_complete());
}

#[test]
fn step_with_the_largest_rate_and_time_does_not_overflow() {
    let to = at(1, 2, 3, 4);
    let mut slot = AnimationSlot::new(Transform::identity(), to, u32::MAX);
    assert_eq!(slot.step(u32::MAX), to);
    assert!(slot.is_complete());
}

#[test]
fn step_at_rate_zero_stays_at_the_beginning() {
    let mut slot = AnimationSlot::new(Transform::identity(), at(1, 2, 3, 4), 0);
    assert_eq!(slot.step(u32::MAX), Transform::identity());
    assert_eq!(slot.progress(), 0);
}

#[test]
fn step_in_two_parts_is_step_at_once() {
    let to = at(20_000, -70_000, 123, 45_678);
    let mut parts = AnimationSlot::new(Transform::identity(), to, 13);
    let mut once = AnimationSlot::new(Transform::identity(), to, 13);
    parts.step(1_000);
    parts.step(2_345);
    once.step(3_345);
    assert_eq!(parts, once);
    parts.step(4_000);
    once.step(4_000);
    assert_eq!(parts, once);
    assert!(once.is_complete());
}

#[test]
fn subdivide_anim_leads_from_the_parent_to_each_child() {
    let parent = at(1_024, 10, 20, 30);
    let slots = subdivide_anim(&parent, 9);
    assert_eq!(slots.len(), 4);
    for (corner, slot) in slots.iter().enumerate() {
        assert_eq!(*slot, AnimationSlot::new(parent, parent.child(corner, 0), 9));
        assert_eq!(slot.from(), parent);
        assert_eq!(slot.progress(), 0);
    }
    assert_eq!(slots[0].to(), parent);
    assert_eq!(slots[3].to(), at(1_024, 1_034, -1_004, 1_054));
}

#[test]
fn subdivide_anim_of_the_identity_leads_to_the_whole_offsets() {
    let slots = subdivide_anim(&Transform::identity(), 0);
    assert_eq!(slots[1].from(), Transform::identity());
    assert_eq!(slots[1].to(), at(65_536, 131_072, 0, 0));
    assert_eq!(slots[1].progress(), 0);
    assert_eq!(slots[2].to(), at(65_536, 65_536, 65_536, 65_536));
    assert_eq!(slots[3].to(), at(65_536, 65_536, -65_536, 65_536));
}

#[test]
fn begin_one_level_up_leads_from_every_leaf_to_its_children() {
    let mut transition = LevelTransition::new(level_set(2));
    transition.begin(level_set(3), 5);
    let parents = generate(Transform::identity(), 2);
    for (index, parent) in parents.iter().enumerate() {
        for corner in 0..4 {
            assert_eq!(
                transition.slot(4 * index + corner),
                Some(AnimationSlot::new(*parent, parent.child(corner, 2), 5))
            );
        }
    }
    let mut first = LevelTransition::new(level_set(0));
    first.begin(level_set(1), 5);
    let slots = subdivide_anim(&Transform::identity(), 5);
    for corner in 0..4 {
        assert_eq!(first.slot(corner), Some(slots[corner]));
    }
}

#[test]
fn source_position_is_the_ancestor_when_the_level_goes_up() {
    assert_eq!(source_position(0, 0, 1), 0);
    assert_eq!(source_position(3, 0, 1), 0);
    assert_eq!(source_position(15, 0, 2), 0);
    assert_eq!(source_position(0, 1, 2), 0);
    assert_eq!(source_position(3, 1, 2), 0);
    assert_eq!(source_position(4, 1, 2), 1);
    assert_eq!(source_position(11, 1, 2), 2);
    assert_eq!(source_position(15, 1, 2), 3);
    assert_eq!(source_position(63, 1, 3), 3);
    assert_eq!(source_position(37, 2, 3), 9);
}

#[test]
fn source_position_is_the_first_descendant_when_the_level_goes_down() {
    assert_eq!(source_position(0, 1, 0), 0);
    assert_eq!(source_position(0, 2, 1), 0);
    assert_eq!(source_position(1, 2, 1), 4);
    assert_eq!(source_position(3, 2, 1), 12);
    assert_eq!(source_position(3, 3, 1), 48);
    assert_eq!(source_position(9, 3, 2), 36);
}

#[test]
fn source_position_is_the_leaf_itself_when_the_level_stays() {
    for leaf in 0..64 {
        assert_eq!(source_position(leaf, 3, 3), leaf);
    }
}

#[test]
fn source_position_at_the_deepest_level_does_not_overflow() {
    assert_eq!(source_position(0, 15, 0), 0);
    assert_eq!(source_position(3, 15, 1), 3 << 28);
    assert_eq!(source_position((1 << 30) - 1, 0, 15), 0);
    assert_eq!(source_position((1 << 30) - 1, 14, 15), (1 << 28) - 1);
}

#[test]
fn transition_starts_at_rest() {
    let transition = LevelTransition::new(level_set(2));
    assert!(transition.is_idle());
    assert_eq!(transition.phase(), Phase::Idle);
    assert_eq!(transition.slot_count(), 0);
    assert_eq!(transition.slot(0), None);
    assert_eq!(*transition.target(), level_set(2));
    assert_eq!(transition.frame(), level_set(2));
}

#[test]
fn tick_at_rest_changes_nothing() {
    let mut transition = LevelTransition::new(level_set(1));
    let rested = transition.clone();
    for millis in [0, 1, 16, u32::MAX] {
        assert_eq!(transition.tick(millis), level_set(1));
        assert_eq!(transition, rested);
    }
}

#[test]
fn begin_gives_each_new_leaf_the_place_of_its_ancestor() {
    let mut transition = LevelTransition::new(level_set(1));
    transition.begin(level_set(3), 10);
    assert_eq!(transition.phase(), Phase::Transitioning);
    assert_eq!(transition.slot_count(), 64);
    let parents = generate(Transform::identity(), 1);
    let leaves = generate(Transform::identity(), 3);
    for leaf in 0..64 {
        let slot = transition.slot(leaf).expect("one slot for each new leaf");
        assert_eq!(slot.from(), parents[leaf / 16]);
        assert_eq!(slot.to(), leaves[leaf]);
        assert_eq!(slot.progress(), 0);
        assert_eq!(slot.rate(), 10);
    }
    assert_eq!(transition.slot(64), None);
}

#[test]
fn begin_gives_each_surviving_leaf_the_place_of_its_first_descendant() {
    let mut transition = LevelTransition::new(level_set(3));
    transition.begin(level_set(1), 10);
    assert_eq!(transition.slot_count(), 4);
    let old = generate(Transform::identity(), 3);
    let leaves = generate(Transform::identity(), 1);
    for leaf in 0..4 {
        let slot = transition.slot(leaf).expect("one slot for each new leaf");
        assert_eq!(slot.from(), old[leaf * 16]);
        assert_eq!(slot.to(), leaves[leaf]);
        assert_eq!(slot.from(), slot.to());
        assert_eq!(slot.progress(), 0);
    }
    assert_eq!(transition.phase(), Phase::Transitioning);
    assert_eq!(transition.frame().transforms(), leaves);
    transition.tick(6_554);
    assert_eq!(transition.phase(), Phase::Idle);
}

#[test]
fn begin_shows_the_old_places_in_the_new_colors() {
    let mut transition = LevelTransition::new(level_set(0));
    transition.begin(level_set(1), 10);
    let shown = transition.frame();
    assert_eq!(shown.level(), 1);
    assert_eq!(shown.transforms(), vec![Transform::identity(); 4]);
    assert_eq!(shown.colors(), level_set(1).colors());
}

#[test]
fn begin_with_the_set_that_is_shown_stays_at_rest() {
    let mut transition = LevelTransition::new(level_set(2));
    transition.begin(level_set(2), 10);
    assert!(transition.is_idle());
    assert_eq!(transition.slot_count(), 0);
    assert_eq!(transition.frame(), level_set(2));
}

#[test]
fn begin_between_equal_placements_of_another_level_starts_slots() {
    let still = Transform::new(0, 5, 5, 5).expect("the placement is in reach");
    let mut transition =
        LevelTransition::new(InstanceSet::build(still, 1, &Palette::classic()));
    transition.begin(InstanceSet::build(still, 2, &Palette::classic()), 10);
    assert_eq!(transition.phase(), Phase::Transitioning);
    assert_eq!(transition.slot_count(), 16);
    assert_eq!(transition.target().level(), 2);
    assert_eq!(transition.frame().transforms(), vec![still; 16]);
    transition.tick(6_554);
    assert!(transition.is_idle());
}

#[test]
fn begin_with_other_colors_starts_slots() {
    let mut transition = LevelTransition::new(level_set(1));
    let other = Palette::new(
        sierpinski::color::Color::red(),
        sierpinski::color::Color::red(),
        sierpinski::color::Color::red(),
        sierpinski::color::Color::red(),
    );
    let target = InstanceSet::build(Transform::identity(), 1, &other);
    transition.begin(target.clone(), 10);
    assert_eq!(transition.slot_count(), 4);
    assert_eq!(transition.frame(), target);
}

#[test]
fn tick_moves_every_leaf_by_the_same_share() {
    let mut transition = LevelTransition::new(level_set(0));
    transition.begin(level_set(1), 64);
    let shown = transition.tick(512);
    assert_eq!(transition.phase(), Phase::Transitioning);
    assert_eq!(
        shown.transforms(),
        vec![
            at(65_536, 0, 0, 0),
            at(65_536, 65_536, 0, 0),
            at(65_536, 32_768, 32_768, 32_768),
            at(65_536, 32_768, -32_768, 32_768),
        ]
    );
    assert_eq!(shown, transition.frame());
    for leaf in 0..4 {
        assert_eq!(transition.slot(leaf).expect("in flight").progress(), 32_768);
    }
}

#[test]
fn tick_comes_to_rest_when_all_leaves_have_arrived() {
    let mut transition = LevelTransition::new(level_set(1));
    transition.begin(level_set(2), 64);
    transition.tick(1_023);
    assert_eq!(transition.phase(), Phase::Transitioning);
    assert_eq!(transition.slot_count(), 16);
    let shown = transition.tick(1);
    assert_eq!(transition.phase(), Phase::Idle);
    assert_eq!(transition.slot_count(), 0);
    assert_eq!(shown, level_set(2));
    assert_eq!(transition, LevelTransition::new(level_set(2)));
}

#[test]
fn tick_progress_never_goes_back_during_a_transition() {
    let mut transition = LevelTransition::new(level_set(2));
    transition.begin(level_set(3), 3);
    let mut before = vec![0; 64];
    for millis in [0, 5, 16, 16, 1_000, 0, 7_000, 9_000, 16] {
        transition.tick(millis);
        if transition.is_idle() {
            break;
        }
        for leaf in 0..64 {
            let progress = transition.slot(leaf).expect("in flight").progress();
            assert!(before[leaf] <= progress);
            assert!(progress <= UNIT);
            before[leaf] = progress;
        }
    }
    assert!(!transition.is_idle());
    transition.tick(5_000);
    assert!(transition.is_idle());
    assert_eq!(transition.tick(16), level_set(3));
    assert!(transition.is_idle());
}

#[test]
fn begin_in_flight_starts_from_what_is_shown() {
    let mut transition = LevelTransition::new(level_set(0));
    transition.begin(level_set(1), 64);
    let shown = transition.tick(256).transforms();
    assert_eq!(shown[1], at(65_536, 32_768, 0, 0));
    assert_eq!(shown[3], at(65_536, 16_384, -16_384, 16_384));
    transition.begin(level_set(2), 64);
    assert_eq!(transition.slot_count(), 16);
    let leaves = generate(Transform::identity(), 2);
    for leaf in 0..16 {
        let slot = transition.slot(leaf).expect("one slot for each new leaf");
        assert_eq!(slot.from(), shown[leaf / 4]);
        assert_eq!(slot.to(), leaves[leaf]);
        assert_eq!(slot.progress(), 0);
    }
    assert_eq!(transition.slot(5).map(|slot| slot.from()), Some(at(65_536, 32_768, 0, 0)));
    let again = transition.tick(256).transforms();
    transition.begin(level_set(0), 64);
    assert_eq!(transition.slot_count(), 1);
    let slot = transition.slot(0).expect("one slot");
    assert_eq!(slot.from(), again[0]);
    assert_eq!(slot.to(), Transform::identity());
    assert_eq!(transition.frame().transforms(), vec![again[0]]);
}
