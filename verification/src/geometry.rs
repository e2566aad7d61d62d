//! The tetrahedron that every leaf is a copy of.

use vstd::prelude::*;
use crate::transform::{
    corner_offset, lemma_child_is_translation, shorten, step_unit, Similarity, UNIT,
};

verus! {

/// A point of the lattice: the first two coordinates count multiples of
/// `1 / UNIT`, the third counts multiples of `sqrt(2) / UNIT`.
#[derive(Clone, Copy, Debug, PartialEq, Eq, Structural)]
pub struct Vertex {
    pub x: i64,
    pub y: i64,
    pub z: i64,
}

/// A triangle mesh: its corners, and three indices into them for each face.
#[derive(Clone, Debug, PartialEq, Eq)]
pub struct Mesh {
    pub positions: Vec<Vertex>,
    pub faces: Vec<usize>,
}

/// The square of the distance between two lattice points, in multiples of
/// `1 / UNIT^2`.
pub open spec fn squared_distance(a: Vertex, b: Vertex) -> int {
    (a.x - b.x) * (a.x - b.x) + (a.y - b.y) * (a.y - b.y) + 2 * ((a.z - b.z) * (a.z - b.z))
}

/// The corners of the tetrahedron with edge 2 around the origin.
pub open spec fn template_positions() -> Seq<Vertex> {
    seq![
        Vertex { x: 65_536, y: 0, z: (-32_768) as i64 },
        Vertex { x: (-65_536) as i64, y: 0, z: (-32_768) as i64 },
        Vertex { x: 0, y: 65_536, z: 32_768 },
        Vertex { x: 0, y: (-65_536) as i64, z: 32_768 },
    ]
}

/// The four faces of the tetrahedron, three corners each.
pub open spec fn template_faces() -> Seq<usize> {
    seq![0, 1, 2, 0, 3, 1, 2, 1, 3, 0, 2, 3]
}

/// The corner of the template at which the child of `corner` sits, seen from
/// the second corner of the template.
pub open spec fn template_corner(corner: int) -> int {
    if corner == 0 {
        1
    } else if corner == 1 {
        0
    } else {
        corner
    }
}

/// The squared distance of two points whose coordinates differ by the
/// given amounts.
proof fn lemma_squared_distance(a: Vertex, b: Vertex, dx: int, dy: int, dz: int)
    requires
        a.x - b.x == dx || b.x - a.x == dx,
        a.y - b.y == dy || b.y - a.y == dy,
        a.z - b.z == dz || b.z - a.z == dz,
    ensures
        squared_distance(a, b) == dx * dx + dy * dy + 2 * (dz * dz),
        squared_distance(b, a) == dx * dx + dy * dy + 2 * (dz * dz),
{
    assert((a.x - b.x) * (a.x - b.x) == dx * dx && (b.x - a.x) * (b.x - a.x) == dx * dx)
        by (nonlinear_arith)
        requires
            a.x - b.x == dx || b.x - a.x == dx,
    ;
    assert((a.y - b.y) * (a.y - b.y) == dy * dy && (b.y - a.y) * (b.y - a.y) == dy * dy)
        by (nonlinear_arith)
        requires
            a.y - b.y == dy || b.y - a.y == dy,
    ;
    assert((a.z - b.z) * (a.z - b.z) == dz * dz && (b.z - a.z) * (b.z - a.z) == dz * dz)
        by (nonlinear_arith)
        requires
            a.z - b.z == dz || b.z - a.z == dz,
    ;
}

/// The template is a regular tetrahedron: any two of its corners are 2
/// apart.
pub proof fn lemma_template_is_regular()
    ensures
        template_positions().len() == 4,
        forall|i: int, j: int|
            0 <= i < 4 && 0 <= j < 4 && i != j ==> squared_distance(
                #[trigger] template_positions()[i],
                #[trigger] template_positions()[j],
            ) == 4 * UNIT * UNIT,
{
    let corners = template_positions();
    lemma_squared_distance(corners[0], corners[1], 131_072, 0, 0);
    lemma_squared_distance(corners[0], corners[2], 65_536, 65_536, 65_536);
    lemma_squared_distance(corners[0], corners[3], 65_536, 65_536, 65_536);
    lemma_squared_distance(corners[1], corners[2], 65_536, 65_536, 65_536);
    lemma_squared_distance(corners[1], corners[3], 65_536, 65_536, 65_536);
    lemma_squared_distance(corners[2], corners[3], 0, 131_072, 0);
    assert(131_072int * 131_072 == 4 * UNIT * UNIT);
    assert(65_536int * 65_536 + 65_536int * 65_536 + 2 * (65_536int * 65_536) == 4 * UNIT * UNIT);
}

/// Every face names three different corners of the template.
pub proof fn lemma_faces_name_corners()
    ensures
        template_faces().len() == 12,
        forall|i: int| 0 <= i < 12 ==> #[trigger] template_faces()[i] < 4,
        forall|face: int|
            0 <= face < 4 ==> template_faces()[3 * face] != template_faces()[3 * face + 1]
                && template_faces()[3 * face + 1] != template_faces()[3 * face + 2]
                && #[trigger] template_faces()[3 * face + 2] != template_faces()[3 * face],
{
    let faces = template_faces();
    assert forall|face: int| 0 <= face < 4 implies faces[3 * face] != faces[3 * face + 1]
        && faces[3 * face + 1] != faces[3 * face + 2] && #[trigger] faces[3 * face + 2]
        != faces[3 * face] by {
        if face == 0 {
        } else if face == 1 {
        } else if face == 2 {
        } else {
        }
    }
}

/// The offsets of the four children are the corners of the template, seen
/// from its second corner: the children sit at the corners of a copy of the
/// template.
pub proof fn lemma_offsets_follow_template()
    ensures
        forall|corner: int|
            0 <= corner < 4 ==> {
                let offset = #[trigger] corner_offset(corner);
                let at = template_positions()[template_corner(corner)];
                let seen_from = template_positions()[1];
                &&& offset.dx * UNIT == at.x - seen_from.x
                &&& offset.dy * UNIT == at.y - seen_from.y
                &&& offset.dz * UNIT == at.z - seen_from.z
            },
{
}

/// Where a corner of the template lies when the template is drawn at the
/// given size at a placement, in multiples of `1 / UNIT` (of `sqrt(2) / UNIT`
/// for the third coordinate) and times `UNIT`.
pub open spec fn drawn_corner(placement: Similarity, size: int, corner: Vertex) -> (
    int,
    int,
    int,
) {
    (
        size * corner.x + UNIT * placement.x,
        size * corner.y + UNIT * placement.y,
        size * corner.z + UNIT * placement.z,
    )
}

/// The length of a step in the scale of a parent, where the lattice holds
/// it exactly.
pub open spec fn exact_step(parent: Similarity, level: nat, size: int) -> bool {
    parent.scale * step_unit(level) == UNIT * size
}

/// How far a step of exact length moves a coordinate.
proof fn lemma_exact_move(scale: int, direction: int, unit: int, size: int)
    requires
        scale * unit == UNIT * size,
    ensures
        shorten(scale * (direction * unit)) == direction * size,
{
    assert(scale * (direction * unit) == UNIT * (direction * size)) by (nonlinear_arith)
        requires
            scale * unit == UNIT * size,
    ;
}

/// Where the child at `corner` has a corner of the template, when it is
/// drawn at the length of the step that led to it.
proof fn lemma_corner_of_child(
    parent: Similarity,
    level: nat,
    size: int,
    corner: int,
    point: Vertex,
)
    requires
        exact_step(parent, level, size),
        0 <= corner < 4,
    ensures
        ({
            let toward = template_positions()[template_corner(corner)];
            let seen_from = template_positions()[1];
            let drawn = drawn_corner(parent.child(corner, level), size, point);
            &&& drawn.0 == size * point.x + UNIT * parent.x + size * (toward.x - seen_from.x)
            &&& drawn.1 == size * point.y + UNIT * parent.y + size * (toward.y - seen_from.y)
            &&& drawn.2 == size * point.z + UNIT * parent.z + size * (toward.z - seen_from.z)
        }),
{
    let offset = corner_offset(corner);
    let unit = step_unit(level) as int;
    lemma_child_is_translation(parent, corner, level);
    lemma_exact_move(parent.scale as int, offset.dx as int, unit, size);
    lemma_exact_move(parent.scale as int, offset.dy as int, unit, size);
    lemma_exact_move(parent.scale as int, offset.dz as int, unit, size);
    lemma_offsets_follow_template();
    let toward = template_positions()[template_corner(corner)];
    let seen_from = template_positions()[1];
    assert(corner_offset(corner) == offset);
    assert(UNIT * (offset.dx * size) == size * (toward.x - seen_from.x)) by (nonlinear_arith)
        requires
            offset.dx * UNIT == toward.x - seen_from.x,
    ;
    assert(UNIT * (offset.dy * size) == size * (toward.y - seen_from.y)) by (nonlinear_arith)
        requires
            offset.dy * UNIT == toward.y - seen_from.y,
    ;
    assert(UNIT * (offset.dz * size) == size * (toward.z - seen_from.z)) by (nonlinear_arith)
        requires
            offset.dz * UNIT == toward.z - seen_from.z,
    ;
}

/// Two children meet corner to corner when they are drawn at the length of
/// the step that led to them: the child at `first` has its corner toward
/// `second` where the child at `second` has its corner toward `first`.
pub proof fn lemma_siblings_meet(parent: Similarity, level: nat, size: int, first: int, second: int)
    requires
        exact_step(parent, level, size),
        0 <= first < 4,
        0 <= second < 4,
    ensures
        drawn_corner(
            parent.child(first, level),
            size,
            template_positions()[template_corner(second)],
        ) == drawn_corner(
            parent.child(second, level),
            size,
            template_positions()[template_corner(first)],
        ),
{
    let a = template_positions()[template_corner(first)];
    let b = template_positions()[template_corner(second)];
    let from = template_positions()[1];
    lemma_corner_of_child(parent, level, size, first, b);
    lemma_corner_of_child(parent, level, size, second, a);
    assert(size * b.x + size * (a.x - from.x) == size * a.x + size * (b.x - from.x))
        by (nonlinear_arith);
    assert(size * b.y + size * (a.y - from.y) == size * a.y + size * (b.y - from.y))
        by (nonlinear_arith);
    assert(size * b.z + size * (a.z - from.z) == size * a.z + size * (b.z - from.z))
        by (nonlinear_arith);
}

/// The four children span a tetrahedron of twice their size: the outer
/// corner of each child is the matching corner of the template drawn at
/// twice the size at the parent, moved by the same amount for all four.
pub proof fn lemma_children_span_twice(parent: Similarity, level: nat, size: int, corner: int)
    requires
        exact_step(parent, level, size),
        0 <= corner < 4,
    ensures
        ({
            let outer = template_positions()[template_corner(corner)];
            let of_child = drawn_corner(parent.child(corner, level), size, outer);
            let of_whole = drawn_corner(parent, 2 * size, outer);
            &&& of_child.0 == of_whole.0 + 65_536 * size
            &&& of_child.1 == of_whole.1
            &&& of_child.2 == of_whole.2 + 32_768 * size
        }),
{
    let outer = template_positions()[template_corner(corner)];
    let from = template_positions()[1];
    lemma_corner_of_child(parent, level, size, corner, outer);
    assert(size * outer.x + size * (outer.x - from.x) == (2 * size) * outer.x - size * from.x)
        by (nonlinear_arith);
    assert(size * outer.y + size * (outer.y - from.y) == (2 * size) * outer.y - size * from.y)
        by (nonlinear_arith);
    assert(size * outer.z + size * (outer.z - from.z) == (2 * size) * outer.z - size * from.z)
        by (nonlinear_arith);
    assert(size * from.x == -(65_536 * size) && size * from.y == 0 && size * from.z == -(32_768
        * size)) by (nonlinear_arith)
        requires
            from.x == -65_536,
            from.y == 0,
            from.z == -32_768,
    ;
}

/// The tetrahedron that every leaf is a copy of.
pub fn mesh() -> (template: Mesh)
    ensures
        template.positions@ == template_positions(),
        template.faces@ == template_faces(),
{
    let half: i64 = 32_768;
    let one: i64 = 65_536;
    let mut positions: Vec<Vertex> = Vec::new();
    positions.push(Vertex { x: one, y: 0, z: -half });
    positions.push(Vertex { x: -one, y: 0, z: -half });
    positions.push(Vertex { x: 0, y: one, z: half });
    positions.push(Vertex { x: 0, y: -one, z: half });
    let mut faces: Vec<usize> = Vec::new();
    faces.push(0);
    faces.push(1);
    faces.push(2);
    faces.push(0);
    faces.push(3);
    faces.push(1);
    faces.push(2);
    faces.push(1);
    faces.push(3);
    faces.push(0);
    faces.push(2);
    faces.push(3);
    assert(positions@ =~= template_positions());
    assert(faces@ =~= template_faces());
    Mesh { positions, faces }
}

} // verus!
