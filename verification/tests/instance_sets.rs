use sierpinski::color::{Color, Palette};
use sierpinski::generator::generate;
use sierpinski::geometry::{mesh, Vertex};
use sierpinski::instances::{Instance, InstanceSet};
use sierpinski::transform::Transform;

fn grey(level: u8) -> Color {
    Color::new(level, level, level, 255)
}

#[test]
fn colors_have_their_channels() {
    assert_eq!(Color::new(1, 2, 3, 4), Color { r: 1, g: 2, b: 3, a: 4 });
    assert_eq!(Color::black(), Color { r: 0, g: 0, b: 0, a: 255 });
    assert_eq!(Color::red(), Color { r: 255, g: 0, b: 0, a: 255 });
    assert_eq!(Color::green(), Color { r: 0, g: 255, b: 0, a: 255 });
    assert_eq!(Color::blue(), Color { r: 0, g: 0, b: 255, a: 255 });
}

#[test]
fn classic_palette_is_black_red_green_blue() {
    let palette = Palette::classic();
    assert_eq!(palette.colors, [Color::black(), Color::red(), Color::green(), Color::blue()]);
    assert_eq!(palette, Palette::new(Color::black(), Color::red(), Color::green(), Color::blue()));
}

#[test]
fn palette_repeats_with_the_last_digit_of_the_leaf() {
    let palette = Palette::new(grey(10), grey(20), grey(30), grey(40));
    assert_eq!(palette.color_of(0), grey(10));
    assert_eq!(palette.color_of(1), grey(20));
    assert_eq!(palette.color_of(2), grey(30));
    assert_eq!(palette.color_of(3), grey(40));
    assert_eq!(palette.color_of(4), grey(10));
    assert_eq!(palette.color_of(1_023), grey(40));
    assert_eq!(palette.color_of(usize::MAX), grey(40));
}

#[test]
fn build_has_four_to_the_depth_instances() {
    let mut expected = 1;
    for depth in 0..=6 {
        let set = InstanceSet::build(Transform::identity(), depth, &Palette::classic());
        assert_eq!(set.len(), expected);
        assert_eq!(set.level(), depth);
        assert_eq!(set.transforms().len(), expected);
        assert_eq!(set.colors().len(), expected);
        expected *= 4;
    }
}

#[test]
fn build_places_the_leaves_as_generated() {
    let base = Transform::new(30_000, 5, -5, 50).expect("the placement is in reach");
    for depth in 0..=4 {
        let set = InstanceSet::build(base, depth, &Palette::classic());
        assert_eq!(set.transforms(), generate(base, depth));
    }
}

#[test]
fn build_colors_each_leaf_by_its_index() {
    let palette = Palette::new(grey(1), grey(2), grey(3), grey(4));
    let set = InstanceSet::build(Transform::identity(), 3, &palette);
    let colors = set.colors();
    for (leaf, color) in colors.iter().enumerate() {
        assert_eq!(*color, palette.colors[leaf % 4]);
    }
    assert_eq!(colors[0], grey(1));
    assert_eq!(colors[5], grey(2));
    assert_eq!(colors[62], grey(3));
    assert_eq!(colors[63], grey(4));
}

#[test]
fn build_at_depth_zero_is_the_base_in_the_first_color() {
    let set = InstanceSet::build(Transform::identity(), 0, &Palette::classic());
    assert_eq!(set.len(), 1);
    assert_eq!(
        set.get(0),
        Some(Instance { transform: Transform::identity(), color: Color::black() })
    );
}

#[test]
fn build_is_deterministic() {
    let first = InstanceSet::build(Transform::identity(), 4, &Palette::classic());
    let second = InstanceSet::build(Transform::identity(), 4, &Palette::classic());
    assert_eq!(first, second);
}

#[test]
fn get_gives_each_leaf_and_nothing_beyond() {
    let set = InstanceSet::build(Transform::identity(), 2, &Palette::classic());
    let leaves = generate(Transform::identity(), 2);
    for leaf in 0..16 {
        let instance = set.get(leaf).expect("the set has sixteen leaves");
        assert_eq!(instance.transform, leaves[leaf]);
        assert_eq!(instance.color, Palette::classic().color_of(leaf));
    }
    assert_eq!(set.get(16), None);
    assert_eq!(set.get(usize::MAX), None);
}

#[test]
fn with_transforms_keeps_level_and_colors() {
    let set = InstanceSet::build(Transform::identity(), 1, &Palette::classic());
    let elsewhere = generate(Transform::identity().child(2, 0), 1);
    let moved = set.with_transforms(&elsewhere);
    assert_eq!(moved.level(), 1);
    assert_eq!(moved.len(), 4);
    assert_eq!(moved.transforms(), elsewhere);
    assert_eq!(moved.colors(), set.colors());
    assert_eq!(set.with_transforms(&set.transforms()), set);
}

#[test]
fn leaf_size_is_the_length_of_the_last_step() {
    let expected = [65_536, 65_536, 32_768, 16_384, 8_192, 4_096];
    for (level, size) in expected.iter().enumerate() {
        let set = InstanceSet::build(Transform::identity(), level as u32, &Palette::classic());
        assert_eq!(set.leaf_size(), *size);
    }
}

#[test]
fn same_compares_level_places_and_colors() {
    let set = InstanceSet::build(Transform::identity(), 2, &Palette::classic());
    assert!(set.same(&set));
    assert!(set.same(&InstanceSet::build(Transform::identity(), 2, &Palette::classic())));
    assert!(!set.same(&InstanceSet::build(Transform::identity(), 1, &Palette::classic())));
    assert!(!set.same(&InstanceSet::build(Transform::identity(), 3, &Palette::classic())));
    let elsewhere = Transform::new(65_536, 1, 0, 0).expect("the placement is in reach");
    assert!(!set.same(&InstanceSet::build(elsewhere, 2, &Palette::classic())));
    let other = Palette::new(Color::black(), Color::red(), Color::green(), Color::red());
    assert!(!set.same(&InstanceSet::build(Transform::identity(), 2, &other)));
    let still = Transform::new(0, 4, 4, 4).expect("the placement is in reach");
    let few = InstanceSet::build(still, 0, &Palette::classic());
    assert!(!few.same(&InstanceSet::build(still, 1, &Palette::classic())));
}

#[test]
fn mesh_is_the_tetrahedron_with_edge_two() {
    let template = mesh();
    assert_eq!(
        template.positions,
        vec![
            Vertex { x: 65_536, y: 0, z: -32_768 },
            Vertex { x: -65_536, y: 0, z: -32_768 },
            Vertex { x: 0, y: 65_536, z: 32_768 },
            Vertex { x: 0, y: -65_536, z: 32_768 },
        ]
    );
    assert_eq!(template.faces, vec![0, 1, 2, 0, 3, 1, 2, 1, 3, 0, 2, 3]);
}

#[test]
fn mesh_corners_are_equally_far_apart() {
    let corners = mesh().positions;
    for a in 0..4 {
        for b in 0..a {
            let (dx, dy, dz) = (
                corners[a].x - corners[b].x,
                corners[a].y - corners[b].y,
                corners[a].z - corners[b].z,
            );
            assert_eq!(dx * dx + dy * dy + 2 * dz * dz, 4 * 65_536 * 65_536);
        }
    }
}

#[test]
fn mesh_faces_leave_out_one_corner_each() {
    let faces = mesh().faces;
    let mut left_out = Vec::new();
    for face in faces.chunks(3) {
        assert!(face.iter().all(|&corner| corner < 4));
        assert_eq!(face[0] + face[1] + face[2] + (6 - face[0] - face[1] - face[2]), 6);
        assert!(face[0] != face[1] && face[1] != face[2] && face[2] != face[0]);
        left_out.push(6 - face[0] - face[1] - face[2]);
    }
    left_out.sort();
    assert_eq!(left_out, vec![0, 1, 2, 3]);
}
