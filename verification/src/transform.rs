//! Placements on the fixed-point lattice.
//!
//! A placement scales space uniformly and moves it afterwards. Its scale and its
//! first two coordinates count multiples of `1 / UNIT`; its third coordinate
//! counts multiples of `sqrt(2) / UNIT`. On this lattice every corner of the
//! fractal is a lattice point, so that placing a child is exact.
//!
//! The step from a tetrahedron to one of its children is a translation: it
//! moves the placement by the offset of the corner and keeps its scale. The
//! offsets are whole at level 0 and half as long at every further level.

use vstd::prelude::*;

verus! {

/// Fixed-point one: a scale of `UNIT` keeps sizes, a progress of `UNIT` is
/// complete.
pub const UNIT: u64 = 65_536;

/// How far a placement may lie from the origin along each axis, and how
/// large its scale may be.
pub const REACH: u64 = 1_099_511_627_776;

/// The number of children of a tetrahedron.
pub const CORNERS: usize = 4;

/// The absolute value of an integer.
pub open spec fn magnitude(v: int) -> int {
    if v < 0 {
        -v
    } else {
        v
    }
}

/// The quotient `n / UNIT`, rounded toward zero.
pub open spec fn shorten(n: int) -> int {
    if n >= 0 {
        n / (UNIT as int)
    } else {
        -((-n) / (UNIT as int))
    }
}

/// The linear blend of two lattice values: `from` at progress 0, `to` at
/// progress `UNIT`, rounded toward zero in between.
pub open spec fn mix(from: int, to: int, progress: nat) -> int {
    shorten((UNIT - progress) * from + progress * to)
}

/// The position of one child relative to its parent, in step lengths; the
/// third component counts multiples of `sqrt(2)`.
#[derive(Clone, Copy, Debug, PartialEq, Eq, Structural)]
pub struct CornerOffset {
    pub dx: i64,
    pub dy: i64,
    pub dz: i64,
}

/// The four corners of a regular tetrahedron with edge 2, the first of them
/// at the origin. A corner outside `0..4` counts as the first.
pub open spec fn corner_offset(corner: int) -> CornerOffset {
    if corner == 1 {
        CornerOffset { dx: 2, dy: 0, dz: 0 }
    } else if corner == 2 {
        CornerOffset { dx: 1, dy: 1, dz: 1 }
    } else if corner == 3 {
        CornerOffset { dx: 1, dy: (-1) as i64, dz: 1 }
    } else {
        CornerOffset { dx: 0, dy: 0, dz: 0 }
    }
}

impl CornerOffset {
    /// The offset of the given corner.
    pub fn of(corner: usize) -> (offset: CornerOffset)
        requires
            corner < CORNERS,
        ensures
            offset == corner_offset(corner as int),
    {
        if corner == 1 {
            CornerOffset { dx: 2, dy: 0, dz: 0 }
        } else if corner == 2 {
            CornerOffset { dx: 1, dy: 1, dz: 1 }
        } else if corner == 3 {
            CornerOffset { dx: 1, dy: -1, dz: 1 }
        } else {
            CornerOffset { dx: 0, dy: 0, dz: 0 }
        }
    }
}

/// The mathematical value of a placement: the map that sends a point `p` to
/// `(scale * p + (x, y, z * sqrt(2))) / UNIT`.
pub struct Similarity {
    pub scale: nat,
    pub x: int,
    pub y: int,
    pub z: int,
}

/// The length to which the offsets shrink at a level: `UNIT` at level 0,
/// and half the length before at every further level.
pub open spec fn step_unit(level: nat) -> nat
    decreases level,
{
    if level == 0 {
        UNIT as nat
    } else {
        step_unit((level - 1) as nat) / 2
    }
}

/// The step from a tetrahedron of level `level` to its child at `corner`:
/// the translation by the corner's offset, shrunk to that level. It keeps
/// sizes.
pub open spec fn corner_step(corner: int, level: nat) -> Similarity {
    let offset = corner_offset(corner);
    Similarity {
        scale: UNIT as nat,
        x: offset.dx * step_unit(level),
        y: offset.dy * step_unit(level),
        z: offset.dz * step_unit(level),
    }
}

impl Similarity {
    /// The placement that leaves every point where it is.
    pub open spec fn identity() -> Similarity {
        Similarity { scale: UNIT as nat, x: 0, y: 0, z: 0 }
    }

    /// Whether machine integers hold the placement.
    pub open spec fn in_reach(self) -> bool {
        &&& self.scale <= REACH
        &&& magnitude(self.x) <= REACH
        &&& magnitude(self.y) <= REACH
        &&& magnitude(self.z) <= REACH
    }

    /// Whether one coordinate leaves room for all the steps from `level`
    /// on: together they move a leaf by less than four step lengths.
    pub open spec fn room_along(self, coordinate: int, level: nat) -> bool {
        UNIT * magnitude(coordinate) + 4 * (self.scale * step_unit(level)) <= UNIT * REACH
    }

    /// Whether the placement is in reach and so will be every leaf that is
    /// reached from it by steps of the levels from `level` on.
    pub open spec fn has_room(self, level: nat) -> bool {
        &&& self.in_reach()
        &&& self.room_along(self.x, level)
        &&& self.room_along(self.y, level)
        &&& self.room_along(self.z, level)
    }

    /// The composition of two placements: `inner` takes place in the frame
    /// of `self`. Its scale is rounded down and its position toward `self`.
    pub open spec fn compose(self, inner: Similarity) -> Similarity {
        Similarity {
            scale: (self.scale * inner.scale) / (UNIT as nat),
            x: self.x + shorten(self.scale * inner.x),
            y: self.y + shorten(self.scale * inner.y),
            z: self.z + shorten(self.scale * inner.z),
        }
    }

    /// The placement of the child at `corner` of a tetrahedron of level
    /// `level`: `self` composed with the step to that corner.
    pub open spec fn child(self, corner: int, level: nat) -> Similarity {
        self.compose(corner_step(corner, level))
    }

    /// The placement on the way from `self` to `to`, component by component.
    pub open spec fn blend(self, to: Similarity, progress: nat) -> Similarity {
        Similarity {
            scale: mix(self.scale as int, to.scale as int, progress) as nat,
            x: mix(self.x, to.x, progress),
            y: mix(self.y, to.y, progress),
            z: mix(self.z, to.z, progress),
        }
    }
}

/// A blend starts at `from` and ends at `to`.
pub proof fn lemma_mix_ends(from: int, to: int)
    ensures
        mix(from, to, 0) == from,
        mix(from, to, UNIT as nat) == to,
{
}

/// A blend never leaves the interval between its two ends.
pub proof fn lemma_mix_between(from: int, to: int, progress: nat)
    requires
        progress <= UNIT,
    ensures
        from <= to ==> from <= mix(from, to, progress) <= to,
        to <= from ==> to <= mix(from, to, progress) <= from,
{
    let rest = UNIT - progress;
    let weighted = rest * from + progress * to;
    assert(rest * from + progress * from == UNIT * from && rest * to + progress * to == UNIT * to)
        by (nonlinear_arith)
        requires
            rest + progress == UNIT,
    ;
    if from <= to {
        assert(rest * from + progress * from <= weighted <= rest * to + progress * to)
            by (nonlinear_arith)
            requires
                from <= to,
                0 <= rest,
                0 <= progress,
                weighted == rest * from + progress * to,
        ;
    } else {
        assert(rest * to + progress * to <= weighted <= rest * from + progress * from)
            by (nonlinear_arith)
            requires
                to <= from,
                0 <= rest,
                0 <= progress,
                weighted == rest * from + progress * to,
        ;
    }
}

/// Blending two placements in reach gives a placement in reach.
pub proof fn lemma_blend_in_reach(from: Similarity, to: Similarity, progress: nat)
    requires
        from.in_reach(),
        to.in_reach(),
        progress <= UNIT,
    ensures
        from.blend(to, progress).in_reach(),
        from.blend(to, progress).scale == mix(from.scale as int, to.scale as int, progress),
{
    lemma_mix_between(from.scale as int, to.scale as int, progress);
    lemma_mix_between(from.x, to.x, progress);
    lemma_mix_between(from.y, to.y, progress);
    lemma_mix_between(from.z, to.z, progress);
}

/// The step length never grows: it is at most `UNIT`, at most half the
/// length of the level before, and nothing from level 17 on.
pub proof fn lemma_step_unit_shrinks(level: nat)
    ensures
        step_unit(level) <= UNIT,
        2 * step_unit(level + 1) <= step_unit(level),
        level >= 17 ==> step_unit(level) == 0,
    decreases level,
{
    reveal_with_fuel(step_unit, 2);
    if level > 0 {
        lemma_step_unit_shrinks((level - 1) as nat);
    }
    if level == 17 {
        assert(step_unit(17) == 0) by {
            reveal_with_fuel(step_unit, 18);
        }
    }
}

/// Down to level 16 the steps have a length.
pub proof fn lemma_step_unit_lasts(level: nat)
    requires
        level <= 16,
    ensures
        step_unit(level) >= 1,
    decreases 16 - level,
{
    if level == 16 {
        assert(step_unit(16) == 1) by {
            reveal_with_fuel(step_unit, 17);
        }
    } else {
        lemma_step_unit_lasts(level + 1);
        lemma_step_unit_shrinks(level);
    }
}

/// How one coordinate moves in a step: by less than two step lengths, in
/// the scale of the parent.
proof fn lemma_step_moves_little(scale: int, direction: int, unit: int)
    requires
        0 <= scale,
        0 <= unit,
        -1 <= direction <= 2,
    ensures
        UNIT * magnitude(shorten(scale * (direction * unit))) <= 2 * (scale * unit),
        direction == 0 ==> shorten(scale * (direction * unit)) == 0,
{
    let moved = scale * (direction * unit);
    assert(-(scale * unit) <= moved <= 2 * (scale * unit)) by (nonlinear_arith)
        requires
            moved == scale * (direction * unit),
            0 <= scale,
            0 <= unit,
            -1 <= direction <= 2,
    ;
    assert(direction == 0 ==> moved == 0) by (nonlinear_arith)
        requires
            moved == scale * (direction * unit),
    ;
}

/// A child is its parent moved: it keeps the scale of its parent, and the
/// child at the first corner is the parent itself.
pub proof fn lemma_child_is_translation(parent: Similarity, corner: int, level: nat)
    ensures
        parent.child(corner, level).scale == parent.scale,
        parent.child(corner, level).x == parent.x + shorten(
            parent.scale * (corner_offset(corner).dx * step_unit(level)),
        ),
        parent.child(corner, level).y == parent.y + shorten(
            parent.scale * (corner_offset(corner).dy * step_unit(level)),
        ),
        parent.child(corner, level).z == parent.z + shorten(
            parent.scale * (corner_offset(corner).dz * step_unit(level)),
        ),
        corner == 0 ==> parent.child(corner, level) == parent,
{
    let scale = parent.scale as int;
    let unit = step_unit(level) as int;
    let offset = corner_offset(corner);
    assert((parent.scale * 65_536nat) / 65_536nat == parent.scale);
    lemma_step_moves_little(scale, offset.dx as int, unit);
    lemma_step_moves_little(scale, offset.dy as int, unit);
    lemma_step_moves_little(scale, offset.dz as int, unit);
}

/// A step uses up room: a child of a placement with room from `level` on
/// has room from the next level on.
pub proof fn lemma_child_keeps_room(parent: Similarity, corner: int, level: nat)
    requires
        parent.has_room(level),
    ensures
        parent.child(corner, level).has_room(level + 1),
{
    let scale = parent.scale as int;
    let unit = step_unit(level) as int;
    let next = step_unit(level + 1) as int;
    let offset = corner_offset(corner);
    lemma_child_is_translation(parent, corner, level);
    lemma_step_unit_shrinks(level);
    lemma_step_moves_little(scale, offset.dx as int, unit);
    lemma_step_moves_little(scale, offset.dy as int, unit);
    lemma_step_moves_little(scale, offset.dz as int, unit);
    assert(0 <= 2 * (scale * next) <= scale * unit) by (nonlinear_arith)
        requires
            0 <= scale,
            0 <= next,
            2 * next <= unit,
    ;
}

/// The identity is neutral: composing with it on either side changes
/// nothing.
pub proof fn lemma_compose_identity(placement: Similarity)
    ensures
        Similarity::identity().compose(placement) == placement,
        placement.compose(Similarity::identity()) == placement,
{
    let id = Similarity::identity();
    assert(placement.scale * 0 == 0) by (nonlinear_arith);
    assert(id.compose(placement).scale == placement.scale);
    assert(placement.compose(id).scale == placement.scale);
}

/// Two placements with the same value are the same placement.
pub proof fn lemma_view_decides(a: Transform, b: Transform)
    ensures
        a@ == b@ <==> a == b,
{
}

/// Two sequences of placements with the same values are the same sequence.
pub proof fn lemma_views_decide(a: Seq<Transform>, b: Seq<Transform>)
    ensures
        views(a) == views(b) <==> a == b,
{
    if views(a) == views(b) {
        assert(a.len() == views(a).len());
        assert(b.len() == views(b).len());
        assert forall|i: int| 0 <= i < a.len() implies a[i] == b[i] by {
            assert(views(a)[i] == a[i]@);
            assert(views(b)[i] == b[i]@);
            lemma_view_decides(a[i], b[i]);
        }
        assert(a =~= b);
    }
}

/// A placement held in machine integers.
#[derive(Clone, Copy, Debug, PartialEq, Eq, Structural)]
pub struct Transform {
    scale: u64,
    x: i64,
    y: i64,
    z: i64,
}

impl View for Transform {
    type V = Similarity;

    closed spec fn view(&self) -> Similarity {
        Similarity {
            scale: self.scale as nat,
            x: self.x as int,
            y: self.y as int,
            z: self.z as int,
        }
    }
}

/// The mathematical values of a sequence of placements.
pub open spec fn views(transforms: Seq<Transform>) -> Seq<Similarity> {
    transforms.map_values(|t: Transform| t@)
}

/// Whether every placement of the sequence is well formed.
pub open spec fn all_wf(transforms: Seq<Transform>) -> bool {
    forall|i: int| 0 <= i < transforms.len() ==> (#[trigger] transforms[i]).wf()
}

/// A machine value measured in the given scale.
fn scaled(scale: u64, value: i64) -> (measured: i128)
    requires
        scale <= REACH,
        magnitude(value as int) <= REACH,
    ensures
        measured == shorten(scale * value),
        magnitude(measured as int) <= REACH * REACH,
{
    assert(-(REACH * REACH) <= scale * value <= REACH * REACH) by (nonlinear_arith)
        requires
            0 <= scale <= REACH,
            -REACH <= value <= REACH,
    ;
    let product: i128 = (scale as i128) * (value as i128);
    if product >= 0 {
        product / (UNIT as i128)
    } else {
        -((-product) / (UNIT as i128))
    }
}

/// Whether a machine coordinate is within the given bound.
fn fits(coordinate: i64, room: u64) -> (ok: bool)
    requires
        room <= REACH,
    ensures
        ok == (magnitude(coordinate as int) <= room),
{
    let limit: i64 = room as i64;
    -limit <= coordinate && coordinate <= limit
}

/// The blend of two machine values.
fn mix_values(from: i64, to: i64, progress: u64) -> (mixed: i64)
    requires
        magnitude(from as int) <= REACH,
        magnitude(to as int) <= REACH,
        progress <= UNIT,
    ensures
        mixed == mix(from as int, to as int, progress as nat),
{
    let p: i64 = progress as i64;
    let rest: i64 = UNIT as i64 - p;
    proof {
        assert(-(rest * REACH) <= rest * from <= rest * REACH) by (nonlinear_arith)
            requires
                0 <= rest,
                -REACH <= from <= REACH,
        ;
        assert(-(p * REACH) <= p * to <= p * REACH) by (nonlinear_arith)
            requires
                0 <= p,
                -REACH <= to <= REACH,
        ;
        assert(rest * REACH + p * REACH == UNIT * REACH) by (nonlinear_arith)
            requires
                rest + p == UNIT,
        ;
    }
    let weighted: i64 = rest * from + p * to;
    if weighted >= 0 {
        weighted / (UNIT as i64)
    } else {
        -((-weighted) / (UNIT as i64))
    }
}

/// The length to which the offsets shrink at a level.
pub fn step_length(level: u32) -> (unit: u64)
    ensures
        unit == step_unit(level as nat),
{
    let steps: u32 = if level > 17 {
        17
    } else {
        level
    };
    let mut unit: u64 = UNIT;
    let mut done: u32 = 0;
    while done < steps
        invariant
            done <= steps,
            unit == step_unit(done as nat),
        decreases steps - done,
    {
        unit = unit / 2;
        done = done + 1;
    }
    proof {
        lemma_step_unit_shrinks(17);
        lemma_step_unit_shrinks(level as nat);
    }
    unit
}

/// Whether a machine coordinate leaves room for the steps from a level on.
fn has_room_along(coordinate: i64, span: u128) -> (ok: bool)
    requires
        magnitude(coordinate as int) <= REACH,
        span <= 4 * (REACH * UNIT),
    ensures
        ok == (UNIT * magnitude(coordinate as int) + span <= UNIT * REACH),
{
    let distance: u128 = if coordinate < 0 {
        (-coordinate) as u128
    } else {
        coordinate as u128
    };
    assert(UNIT * distance <= UNIT * REACH) by (nonlinear_arith)
        requires
            distance <= REACH,
    ;
    (UNIT as u128) * distance + span <= (UNIT as u128) * (REACH as u128)
}

impl Transform {
    /// Whether the placement is in reach of the lattice.
    pub open spec fn wf(&self) -> bool {
        self@.in_reach()
    }

    /// The placement with the given scale and coordinates, if the lattice
    /// reaches it.
    pub fn new(scale: u64, x: i64, y: i64, z: i64) -> (made: Option<Transform>)
        ensures
            made is Some <==> (Similarity {
                scale: scale as nat,
                x: x as int,
                y: y as int,
                z: z as int,
            }).in_reach(),
            made matches Some(t) ==> t@ == (Similarity {
                scale: scale as nat,
                x: x as int,
                y: y as int,
                z: z as int,
            }),
    {
        if scale <= REACH && fits(x, REACH) && fits(y, REACH) && fits(z, REACH) {
            Some(Transform { scale, x, y, z })
        } else {
            None
        }
    }

    /// The placement that leaves every point where it is.
    pub fn identity() -> (id: Transform)
        ensures
            id@ == Similarity::identity(),
            id.wf(),
            id@.has_room(0),
    {
        Transform { scale: UNIT, x: 0, y: 0, z: 0 }
    }

    /// The scale, in multiples of `1 / UNIT`.
    pub fn scale(&self) -> (scale: u64)
        ensures
            scale == self@.scale,
    {
        self.scale
    }

    /// The first coordinate, in multiples of `1 / UNIT`.
    pub fn x(&self) -> (x: i64)
        ensures
            x == self@.x,
    {
        self.x
    }

    /// The second coordinate, in multiples of `1 / UNIT`.
    pub fn y(&self) -> (y: i64)
        ensures
            y == self@.y,
    {
        self.y
    }

    /// The third coordinate, in multiples of `sqrt(2) / UNIT`.
    pub fn z(&self) -> (z: i64)
        ensures
            z == self@.z,
    {
        self.z
    }

    /// Whether two placements have the same value.
    pub fn same(&self, other: &Transform) -> (equal: bool)
        ensures
            equal == (self@ == other@),
    {
        self.scale == other.scale && self.x == other.x && self.y == other.y && self.z == other.z
    }

    /// Whether the placement is in reach, and so will be every leaf that is
    /// reached from it by steps of the levels from `level` on.
    pub fn has_room(&self, level: u32) -> (ok: bool)
        ensures
            ok == self@.has_room(level as nat),
    {
        if self.scale > REACH || !fits(self.x, REACH) || !fits(self.y, REACH) || !fits(
            self.z,
            REACH,
        ) {
            return false;
        }
        let unit = step_length(level);
        proof {
            lemma_step_unit_shrinks(level as nat);
            assert(0 <= self.scale * unit <= REACH * UNIT) by (nonlinear_arith)
                requires
                    0 <= self.scale <= REACH,
                    0 <= unit <= UNIT,
            ;
        }
        let span: u128 = 4 * ((self.scale as u128) * (unit as u128));
        has_room_along(self.x, span) && has_room_along(self.y, span) && has_room_along(
            self.z,
            span,
        )
    }

    /// The child at `corner` of a tetrahedron of level `level`: the
    /// placement moved by the corner's offset, shrunk to that level. The
    /// child keeps the scale, and the child at the first corner is the
    /// placement itself.
    pub fn child(&self, corner: usize, level: u32) -> (child: Transform)
        requires
            self@.has_room(level as nat),
            corner < CORNERS,
        ensures
            child@ == self@.child(corner as int, level as nat),
            child@.has_room(level as nat + 1),
            child@.scale == self@.scale,
            corner == 0 ==> child == *self,
    {
        let length = step_length(level);
        let offset = CornerOffset::of(corner);
        proof {
            lemma_step_unit_shrinks(level as nat);
            lemma_child_is_translation(self@, corner as int, level as nat);
            lemma_child_keeps_room(self@, corner as int, level as nat);
            assert(-UNIT <= offset.dx * length <= 2 * UNIT && -UNIT <= offset.dy * length <= 2
                * UNIT && -UNIT <= offset.dz * length <= 2 * UNIT) by (nonlinear_arith)
                requires
                    0 <= length <= UNIT,
                    -1 <= offset.dx <= 2,
                    -1 <= offset.dy <= 2,
                    -1 <= offset.dz <= 2,
            ;
        }
        let unit: i64 = length as i64;
        Transform {
            scale: self.scale,
            x: (self.x as i128 + scaled(self.scale, offset.dx * unit)) as i64,
            y: (self.y as i128 + scaled(self.scale, offset.dy * unit)) as i64,
            z: (self.z as i128 + scaled(self.scale, offset.dz * unit)) as i64,
        }
    }

    /// The composition of `self` with `inner`, if the lattice reaches it.
    pub fn compose(&self, inner: &Transform) -> (composed: Option<Transform>)
        requires
            self.wf(),
            inner.wf(),
        ensures
            composed is Some <==> self@.compose(inner@).in_reach(),
            composed matches Some(t) ==> t@ == self@.compose(inner@),
    {
        assert(0 <= self.scale * inner.scale <= REACH * REACH) by (nonlinear_arith)
            requires
                0 <= self.scale <= REACH,
                0 <= inner.scale <= REACH,
        ;
        let scale: u128 = (self.scale as u128) * (inner.scale as u128) / (UNIT as u128);
        let x: i128 = self.x as i128 + scaled(self.scale, inner.x);
        let y: i128 = self.y as i128 + scaled(self.scale, inner.y);
        let z: i128 = self.z as i128 + scaled(self.scale, inner.z);
        if scale > REACH as u128 {
            return None;
        }
        let room: i128 = REACH as i128;
        if -room <= x && x <= room && -room <= y && y <= room && -room <= z && z <= room {
            Some(Transform { scale: scale as u64, x: x as i64, y: y as i64, z: z as i64 })
        } else {
            None
        }
    }

    /// The placement on the way from `self` to `to` at the given progress.
    pub fn blend(&self, to: &Transform, progress: u64) -> (between: Transform)
        requires
            self.wf(),
            to.wf(),
            progress <= UNIT,
        ensures
            between@ == self@.blend(to@, progress as nat),
            between.wf(),
    {
        proof {
            lemma_blend_in_reach(self@, to@, progress as nat);
        }
        Transform {
            scale: mix_values(self.scale as i64, to.scale as i64, progress) as u64,
            x: mix_values(self.x, to.x, progress),
            y: mix_values(self.y, to.y, progress),
            z: mix_values(self.z, to.z, progress),
        }
    }
}

} // verus!
