use sierpinski::generator::{generate, generate_from, subdivide, subdivide_at};
use sierpinski::transform::Transform;

fn lattice(scale: u64, x: i64, y: i64, z: i64) -> Transform {
    Transform::new(scale, x, y, z).expect("the placement is in reach")
}

fn moved(x: i64, y: i64, z: i64) -> Transform {
    lattice(65_536, x, y, z)
}

fn along_digits(base: Transform, depth: u32, index: usize) -> Transform {
    let mut at = base;
    for step in 0..depth {
        let digit = (index >> (2 * (depth - 1 - step))) & 3;
        at = at.child(digit, step);
    }
    at
}

#[test]
fn generate_returns_four_to_the_depth_leaves() {
    let mut expected = 1;
    for depth in 0..=7 {
        assert_eq!(generate(Transform::identity(), depth).len(), expected);
        expected *= 4;
    }
}

#[test]
fn generate_at_depth_zero_is_the_base() {
    assert_eq!(generate(Transform::identity(), 0), vec![Transform::identity()]);
    let base = lattice(77, -1, 2, -3);
    assert_eq!(generate(base, 0), vec![base]);
}

#[test]
fn generate_is_deterministic() {
    let base = lattice(40_000, 123, -456, 789);
    for depth in 0..=5 {
        assert_eq!(generate(base, depth), generate(base, depth));
    }
}

#[test]
fn generate_level_one_from_the_identity_is_the_four_whole_offsets() {
    assert_eq!(
        generate(Transform::identity(), 1),
        vec![
            moved(0, 0, 0),
            moved(131_072, 0, 0),
            moved(65_536, 65_536, 65_536),
            moved(65_536, -65_536, 65_536),
        ]
    );
}

#[test]
fn generate_level_two_from_the_identity_adds_half_offsets() {
    let leaves = generate(Transform::identity(), 2);
    assert_eq!(leaves.len(), 16);
    assert_eq!(leaves[0], moved(0, 0, 0));
    assert_eq!(leaves[1], moved(65_536, 0, 0));
    assert_eq!(leaves[2], moved(32_768, 32_768, 32_768));
    assert_eq!(leaves[4], moved(131_072, 0, 0));
    assert_eq!(leaves[5], moved(196_608, 0, 0));
    assert_eq!(leaves[6], moved(163_840, 32_768, 32_768));
    assert_eq!(leaves[9], moved(131_072, 65_536, 65_536));
    assert_eq!(leaves[11], moved(98_304, 32_768, 98_304));
    assert_eq!(leaves[12], moved(65_536, -65_536, 65_536));
    assert_eq!(leaves[15], moved(98_304, -98_304, 98_304));
}

#[test]
fn generate_level_three_adds_quarter_offsets() {
    let leaves = generate(Transform::identity(), 3);
    assert_eq!(leaves[1], moved(32_768, 0, 0));
    assert_eq!(leaves[27], moved(131_072 + 32_768 + 16_384, 32_768 - 16_384, 32_768 + 16_384));
    assert_eq!(leaves[63], moved(114_688, -114_688, 114_688));
}

#[test]
fn generate_first_leaf_is_the_base() {
    let base = moved(655_360, 0, 0);
    for depth in 0..=6 {
        assert_eq!(generate(base, depth)[0], base);
    }
    assert_eq!(generate(base, 2)[0], moved(655_360, 0, 0));
}

#[test]
fn generate_keeps_the_scale_of_the_base() {
    for base in [Transform::identity(), lattice(12_345, 5, 6, 7), lattice(0, 1, 2, 3)] {
        for depth in 0..=5 {
            for leaf in generate(base, depth) {
                assert_eq!(leaf.scale(), base.scale());
            }
        }
    }
}

#[test]
fn generate_moves_with_its_base() {
    let there = moved(1_000, -2_000, 3_000);
    for depth in 0..=4 {
        let at_home = generate(Transform::identity(), depth);
        let away = generate(there, depth);
        for (home, leaf) in at_home.iter().zip(away.iter()) {
            assert_eq!(leaf.x(), home.x() + 1_000);
            assert_eq!(leaf.y(), home.y() - 2_000);
            assert_eq!(leaf.z(), home.z() + 3_000);
        }
    }
}

#[test]
fn generate_moves_in_the_scale_of_its_base() {
    let twice = lattice(131_072, 0, 0, 0);
    let leaves = generate(twice, 2);
    let unit = generate(Transform::identity(), 2);
    for (leaf, small) in leaves.iter().zip(unit.iter()) {
        assert_eq!(leaf.scale(), 131_072);
        assert_eq!((leaf.x(), leaf.y(), leaf.z()), (2 * small.x(), 2 * small.y(), 2 * small.z()));
    }
}

#[test]
fn generate_is_the_leaves_below_the_four_children_in_order() {
    let base = moved(1_000, -2_000, 3_000);
    for depth in 1..=5 {
        let mut expected = Vec::new();
        for corner in 0..4 {
            expected.extend(generate_from(base.child(corner, 0), 1, depth - 1));
        }
        assert_eq!(generate(base, depth), expected);
    }
}

#[test]
fn generate_from_level_zero_is_generate() {
    let base = lattice(999, 1, 2, 3);
    for depth in 0..=4 {
        assert_eq!(generate_from(base, 0, depth), generate(base, depth));
    }
}

#[test]
fn generate_from_a_level_starts_at_the_length_of_that_level() {
    assert_eq!(
        generate_from(Transform::identity(), 2, 1),
        vec![
            moved(0, 0, 0),
            moved(32_768, 0, 0),
            moved(16_384, 16_384, 16_384),
            moved(16_384, -16_384, 16_384),
        ]
    );
    assert_eq!(generate_from(Transform::identity(), 40, 2), vec![Transform::identity(); 16]);
}

#[test]
fn generate_leaf_follows_the_base_four_digits_of_its_index() {
    let base = moved(-5, 6, 7);
    for depth in 0..=5 {
        let leaves = generate(base, depth);
        for (index, leaf) in leaves.iter().enumerate() {
            assert_eq!(*leaf, along_digits(base, depth, index));
        }
    }
}

#[test]
fn generate_next_level_moves_the_leaves_of_this_level_to_their_corners() {
    let base = Transform::identity();
    for depth in 0..=4 {
        let parents = generate(base, depth);
        let leaves = generate(base, depth + 1);
        for (index, leaf) in leaves.iter().enumerate() {
            assert_eq!(*leaf, parents[index / 4].child(index % 4, depth));
        }
    }
}

#[test]
fn generate_keeps_the_leaves_within_four_offsets() {
    for leaf in generate(Transform::identity(), 6) {
        assert!(0 <= leaf.x() && leaf.x() < 4 * 65_536);
        assert!(-2 * 65_536 < leaf.y() && leaf.y() < 2 * 65_536);
        assert!(0 <= leaf.z() && leaf.z() < 2 * 65_536);
    }
}

#[test]
fn generate_gives_distinct_leaves() {
    let leaves = generate(Transform::identity(), 4);
    for a in 0..leaves.len() {
        for b in 0..a {
            assert_ne!(leaves[a], leaves[b]);
        }
    }
}

#[test]
fn generate_below_a_scale_of_zero_stays_at_the_base() {
    let base = lattice(0, 9, 8, 7);
    assert_eq!(generate(base, 3), vec![base; 64]);
}

#[test]
fn subdivide_of_the_identity_is_the_four_whole_offsets() {
    assert_eq!(
        subdivide(&Transform::identity()),
        vec![
            moved(0, 0, 0),
            moved(131_072, 0, 0),
            moved(65_536, 65_536, 65_536),
            moved(65_536, -65_536, 65_536),
        ]
    );
}

#[test]
fn subdivide_has_the_parent_as_its_first_child() {
    let parent = moved(655_360, 0, 0);
    let children = subdivide(&parent);
    assert_eq!(children.len(), 4);
    assert_eq!(children[0], parent);
    assert_eq!(children[1], moved(655_360 + 131_072, 0, 0));
    for level in 0..20 {
        assert_eq!(subdivide_at(&parent, level)[0], parent);
    }
}

#[test]
fn subdivide_moves_in_the_scale_of_the_parent() {
    let parent = lattice(1_024, 10, 20, 30);
    assert_eq!(
        subdivide(&parent),
        vec![
            lattice(1_024, 10, 20, 30),
            lattice(1_024, 2_058, 20, 30),
            lattice(1_024, 1_034, 1_044, 1_054),
            lattice(1_024, 1_034, -1_004, 1_054),
        ]
    );
    assert_eq!(subdivide(&parent), generate(parent, 1));
    assert_eq!(subdivide(&parent), subdivide_at(&parent, 0));
}

#[test]
fn subdivide_at_a_level_halves_the_offsets_of_the_level_before() {
    let parent = moved(100, 200, 300);
    assert_eq!(
        subdivide_at(&parent, 1),
        vec![
            moved(100, 200, 300),
            moved(65_636, 200, 300),
            moved(32_868, 32_968, 33_068),
            moved(32_868, -32_568, 33_068),
        ]
    );
    assert_eq!(subdivide_at(&parent, 16)[1], moved(102, 200, 300));
    assert_eq!(subdivide_at(&parent, 16)[3], moved(101, 199, 301));
    assert_eq!(subdivide_at(&parent, 17), vec![parent; 4]);
    assert_eq!(subdivide_at(&parent, u32::MAX), vec![parent; 4]);
}
