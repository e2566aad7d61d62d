//! The recursive placement of the leaves.
//!
//! A tetrahedron at depth 0 is one leaf. At every further level each leaf is
//! replaced by its four children, corner by corner, so that the leaves of a
//! level are numbered by the base-4 digits of the path that leads to them.
//! A child is its parent moved by the offset of its corner: whole offsets at
//! the first level, and half the length of the level before at every
//! further one. No step changes the scale.

use vstd::prelude::*;
use crate::powers::{lemma_pow4_bounded, lemma_pow4_positive, pow4, MAX_DEPTH};
use crate::transform::{
    all_wf, lemma_child_is_translation, lemma_child_keeps_room, lemma_step_unit_shrinks,
    lemma_view_decides, lemma_views_decide, step_unit, views, Similarity, Transform, CORNERS,
    UNIT,
};

verus! {

/// The leaves below a tetrahedron of level `level` after `depth` further
/// subdivisions: the tetrahedron alone at depth 0, else the leaves below its
/// four children, one corner after the other.
pub open spec fn generated_from(base: Similarity, level: nat, depth: nat) -> Seq<Similarity>
    decreases depth,
{
    if depth == 0 {
        seq![base]
    } else {
        let below = (depth - 1) as nat;
        generated_from(base.child(0, level), level + 1, below) + generated_from(
            base.child(1, level),
            level + 1,
            below,
        ) + generated_from(base.child(2, level), level + 1, below) + generated_from(
            base.child(3, level),
            level + 1,
            below,
        )
    }
}

/// The leaves below `base` after `depth` subdivisions.
pub open spec fn generated(base: Similarity, depth: nat) -> Seq<Similarity> {
    generated_from(base, 0, depth)
}

/// The `depth` base-4 digits of `index`, the most significant first.
pub open spec fn digits(index: nat, depth: nat) -> Seq<int>
    decreases depth,
{
    if depth == 0 {
        Seq::empty()
    } else {
        digits(index / 4, (depth - 1) as nat).push((index % 4) as int)
    }
}

/// The placement reached from a tetrahedron of level `level` by going to the
/// corners of `path`, one after the other: the tetrahedron composed with one
/// translation for each corner, each at the length of its level.
pub open spec fn descend_from(base: Similarity, level: nat, path: Seq<int>) -> Similarity
    decreases path.len(),
{
    if path.len() == 0 {
        base
    } else {
        descend_from(base, level, path.drop_last()).child(
            path.last(),
            level + (path.len() - 1) as nat,
        )
    }
}

/// The placement reached from `base` along `path`.
pub open spec fn descend(base: Similarity, path: Seq<int>) -> Similarity {
    descend_from(base, 0, path)
}

/// A level has `4^depth` leaves.
pub proof fn lemma_generated_len(base: Similarity, level: nat, depth: nat)
    ensures
        generated_from(base, level, depth).len() == pow4(depth),
    decreases depth,
{
    if depth > 0 {
        let below = (depth - 1) as nat;
        lemma_generated_len(base.child(0, level), level + 1, below);
        lemma_generated_len(base.child(1, level), level + 1, below);
        lemma_generated_len(base.child(2, level), level + 1, below);
        lemma_generated_len(base.child(3, level), level + 1, below);
    }
}

/// At depth 0 the base is the only leaf.
pub proof fn lemma_generated_zero(base: Similarity)
    ensures
        generated(base, 0) == seq![base],
{
}

/// Every index has as many digits as the level is deep, each of them a
/// corner.
pub proof fn lemma_digits_are_corners(index: nat, depth: nat)
    ensures
        digits(index, depth).len() == depth,
        forall|k: int| 0 <= k < depth ==> 0 <= #[trigger] digits(index, depth)[k] < 4,
    decreases depth,
{
    if depth > 0 {
        lemma_digits_are_corners(index / 4, (depth - 1) as nat);
    }
}

/// Putting a corner in front of an index puts its digit in front of the
/// digits.
proof fn lemma_digits_prepend(corner: int, rest: nat, depth: nat)
    requires
        0 <= corner < 4,
        depth >= 1,
        rest < pow4((depth - 1) as nat),
    ensures
        digits((corner * pow4((depth - 1) as nat) + rest) as nat, depth) == seq![corner] + digits(
            rest,
            (depth - 1) as nat,
        ),
    decreases depth,
{
    let below = (depth - 1) as nat;
    let span = pow4(below);
    let index = (corner * span + rest) as nat;
    assert(0 <= corner * span) by (nonlinear_arith)
        requires
            0 <= corner,
            0 <= span,
    ;
    if depth == 1 {
        assert(span == 1);
        assert(corner * span == corner) by (nonlinear_arith)
            requires
                span == 1,
        ;
        assert(digits(rest, 0) =~= Seq::<int>::empty());
        assert(digits(index / 4, 0) =~= Seq::<int>::empty());
        assert(digits(index, 1) =~= seq![corner] + digits(rest, 0));
    } else {
        let deeper = (depth - 2) as nat;
        let inner = pow4(deeper);
        assert(span == 4 * inner);
        assert(corner * span == 4 * (corner * inner)) by (nonlinear_arith)
            requires
                span == 4 * inner,
        ;
        assert(0 <= corner * inner) by (nonlinear_arith)
            requires
                0 <= corner,
                0 <= inner,
        ;
        assert(index / 4 == corner * inner + rest / 4);
        assert(index % 4 == rest % 4);
        lemma_digits_prepend(corner, rest / 4, below);
        let front = seq![corner] + digits(rest / 4, deeper);
        assert(digits(index / 4, below) == front);
        assert(front.push((rest % 4) as int) =~= seq![corner] + digits(rest / 4, deeper).push(
            (rest % 4) as int,
        ));
    }
}

/// Going to a corner first and then along a path is going along the path
/// with that corner in front.
proof fn lemma_descend_prepend(base: Similarity, level: nat, corner: int, path: Seq<int>)
    ensures
        descend_from(base, level, seq![corner] + path) == descend_from(
            base.child(corner, level),
            level + 1,
            path,
        ),
    decreases path.len(),
{
    let whole = seq![corner] + path;
    if path.len() == 0 {
        assert(whole.drop_last() =~= Seq::<int>::empty());
        assert(whole.last() == corner);
        assert(descend_from(base, level, whole.drop_last()) == base);
    } else {
        assert(whole.drop_last() =~= seq![corner] + path.drop_last());
        assert(whole.last() == path.last());
        lemma_descend_prepend(base, level, corner, path.drop_last());
    }
}

/// Leaf `index` below a tetrahedron of level `level` is the placement
/// reached from it along the base-4 digits of `index`.
pub proof fn lemma_leaf_follows_digits_from(base: Similarity, level: nat, depth: nat, index: nat)
    requires
        index < pow4(depth),
    ensures
        generated_from(base, level, depth)[index as int] == descend_from(
            base,
            level,
            digits(index, depth),
        ),
    decreases depth,
{
    if depth == 0 {
        assert(digits(index, 0) =~= Seq::<int>::empty());
    } else {
        let below = (depth - 1) as nat;
        let at = lemma_leaf_lies_below_child(base, level, depth, index);
        let corner = at.0;
        let rest = at.1;
        lemma_leaf_follows_digits_from(base.child(corner, level), level + 1, below, rest);
        lemma_digits_prepend(corner, rest, depth);
        lemma_descend_prepend(base, level, corner, digits(rest, below));
    }
}

/// Leaf `index` of a level is the base composed with one translation for
/// each base-4 digit of `index`, the most significant first: the offset of
/// that corner at the length of its step.
pub proof fn lemma_leaf_follows_digits(base: Similarity, depth: nat, index: nat)
    requires
        index < pow4(depth),
    ensures
        generated(base, depth)[index as int] == descend(base, digits(index, depth)),
{
    lemma_leaf_follows_digits_from(base, 0, depth, index);
}

/// The leaves of the next level are the leaves of this one, each moved to
/// the four corners at the length of the next step, in order.
pub proof fn lemma_generated_step(base: Similarity, level: nat, depth: nat, index: nat)
    requires
        index < pow4(depth + 1),
    ensures
        index / 4 < pow4(depth),
        generated_from(base, level, depth + 1)[index as int] == generated_from(
            base,
            level,
            depth,
        )[index as int / 4].child((index % 4) as int, level + depth),
{
    assert(pow4(depth + 1) == 4 * pow4(depth));
    lemma_leaf_follows_digits_from(base, level, depth + 1, index);
    lemma_leaf_follows_digits_from(base, level, depth, index / 4);
    lemma_digits_are_corners(index, depth + 1);
    let path = digits(index, depth + 1);
    assert(path.drop_last() =~= digits(index / 4, depth));
    assert(path.last() == (index % 4) as int);
}

/// Every leaf keeps the scale of the base, and below a base with room
/// every leaf is in reach.
pub proof fn lemma_generated_has_room(base: Similarity, level: nat, depth: nat)
    ensures
        forall|i: int|
            0 <= i < pow4(depth) ==> (#[trigger] generated_from(base, level, depth)[i]).scale
                == base.scale,
        base.has_room(level) ==> forall|i: int|
            0 <= i < pow4(depth) ==> (#[trigger] generated_from(base, level, depth)[i]).has_room(
                level + depth,
            ),
    decreases depth,
{
    lemma_generated_len(base, level, depth);
    if depth > 0 {
        let below = (depth - 1) as nat;
        lemma_generated_has_room(base, level, below);
        assert forall|i: int| 0 <= i < pow4(depth) implies (#[trigger] generated_from(
            base,
            level,
            depth,
        )[i]).scale == base.scale && (base.has_room(level) ==> generated_from(
            base,
            level,
            depth,
        )[i].has_room(level + depth)) by {
            assert(depth == below + 1);
            lemma_generated_step(base, level, below, i as nat);
            let parent = generated_from(base, level, below)[i / 4];
            lemma_child_is_translation(parent, i % 4, level + below);
            if base.has_room(level) {
                lemma_child_keeps_room(parent, i % 4, level + below);
            }
        }
    }
}

/// The first leaf is the base: its path goes to the first corner at every
/// step, and the first corner has no offset.
pub proof fn lemma_first_leaf_is_base(base: Similarity, level: nat, depth: nat)
    ensures
        generated_from(base, level, depth)[0] == base,
    decreases depth,
{
    if depth > 0 {
        let below = (depth - 1) as nat;
        lemma_generated_len(base.child(0, level), level + 1, below);
        lemma_pow4_positive(below);
        lemma_first_leaf_is_base(base.child(0, level), level + 1, below);
        lemma_child_is_translation(base, 0, level);
    }
}

/// The leaf at `index` lies below one of the four children: it is the leaf
/// at the rest of the index below the child at the first digit.
proof fn lemma_leaf_lies_below_child(base: Similarity, level: nat, depth: nat, index: nat) -> (at:
    (int, nat))
    requires
        depth >= 1,
        index < pow4(depth),
    ensures
        0 <= at.0 < 4,
        at.1 < pow4((depth - 1) as nat),
        index == at.0 * pow4((depth - 1) as nat) + at.1,
        generated_from(base, level, depth)[index as int] == generated_from(
            base.child(at.0, level),
            level + 1,
            (depth - 1) as nat,
        )[at.1 as int],
{
    let below = (depth - 1) as nat;
    let span = pow4(below);
    lemma_generated_len(base.child(0, level), level + 1, below);
    lemma_generated_len(base.child(1, level), level + 1, below);
    lemma_generated_len(base.child(2, level), level + 1, below);
    lemma_generated_len(base.child(3, level), level + 1, below);
    let corner: int = if index < span {
        0
    } else if index < 2 * span {
        1
    } else if index < 3 * span {
        2
    } else {
        3
    };
    let rest = (index - corner * span) as nat;
    let first = generated_from(base.child(0, level), level + 1, below);
    let second = generated_from(base.child(1, level), level + 1, below);
    let third = generated_from(base.child(2, level), level + 1, below);
    let fourth = generated_from(base.child(3, level), level + 1, below);
    assert(generated_from(base, level, depth) == first + second + third + fourth);
    (corner, rest)
}

/// Where the scale of the parent is a whole multiple of `UNIT`, a step moves
/// by that multiple of the step length, with nothing rounded.
pub proof fn lemma_child_moves_exactly(parent: Similarity, factor: nat, corner: int, level: nat)
    requires
        parent.scale == factor * UNIT,
        0 <= corner < 4,
    ensures
        ({
            let child = parent.child(corner, level);
            let span = (factor * step_unit(level)) as int;
            &&& child.scale == parent.scale
            &&& child.x == parent.x + (if corner == 0 {
                0
            } else if corner == 1 {
                2 * span
            } else {
                span
            })
            &&& child.y == parent.y + (if corner == 2 {
                span
            } else if corner == 3 {
                -span
            } else {
                0
            })
            &&& child.z == parent.z + (if corner >= 2 {
                span
            } else {
                0
            })
        }),
{
    let scale = parent.scale as int;
    let unit = step_unit(level) as int;
    let span = (factor * step_unit(level)) as int;
    lemma_child_is_translation(parent, corner, level);
    assert(scale * (0 * unit) == UNIT * 0 && scale * (1 * unit) == UNIT * span && scale * (2
        * unit) == UNIT * (2 * span) && scale * ((-1) * unit) == UNIT * (-span))
        by (nonlinear_arith)
        requires
            scale == factor * UNIT,
            span == factor * unit,
    ;
}

/// Below a node whose scale is a whole multiple of `UNIT`, no leaf goes
/// far: all the steps together move it by less than four step lengths of
/// the node's level along the first axis, and by less than two along the
/// others.
pub proof fn lemma_leaf_stays_close(
    node: Similarity,
    factor: nat,
    level: nat,
    depth: nat,
    index: nat,
)
    requires
        node.scale == factor * UNIT,
        index < pow4(depth),
    ensures
        ({
            let leaf = generated_from(node, level, depth)[index as int];
            let wide = factor * step_unit(level) - factor * step_unit(level + depth);
            &&& leaf.scale == node.scale
            &&& 0 <= leaf.x - node.x <= 4 * wide
            &&& -2 * wide <= leaf.y - node.y <= 2 * wide
            &&& 0 <= leaf.z - node.z <= 2 * wide
        }),
    decreases depth,
{
    if depth > 0 {
        let below = (depth - 1) as nat;
        assert(depth == below + 1);
        lemma_generated_step(node, level, below, index);
        lemma_leaf_stays_close(node, factor, level, below, index / 4);
        let parent = generated_from(node, level, below)[index as int / 4];
        lemma_child_moves_exactly(parent, factor, (index % 4) as int, level + below);
        lemma_step_unit_shrinks(level + below);
        let unit = step_unit(level + below);
        let next = step_unit(level + depth);
        assert(0 <= 2 * (factor * next) <= factor * unit) by (nonlinear_arith)
            requires
                0 <= next,
                2 * next <= unit,
        ;
    }
}

/// No two leaves coincide, where the scale of the base is a whole multiple
/// of `UNIT` and the steps have not shrunk to nothing: leaves below
/// different children of a node lie apart along one axis.
pub proof fn lemma_leaves_are_distinct(
    node: Similarity,
    factor: nat,
    level: nat,
    depth: nat,
    first: nat,
    second: nat,
)
    requires
        node.scale == factor * UNIT,
        factor >= 1,
        step_unit(level + depth) >= 1,
        first < pow4(depth),
        second < pow4(depth),
        first != second,
    ensures
        generated_from(node, level, depth)[first as int] != generated_from(
            node,
            level,
            depth,
        )[second as int],
    decreases depth,
{
    if depth > 0 {
        let below = (depth - 1) as nat;
        let one = lemma_leaf_lies_below_child(node, level, depth, first);
        let other = lemma_leaf_lies_below_child(node, level, depth, second);
        let near = node.child(one.0, level);
        let far = node.child(other.0, level);
        lemma_child_moves_exactly(node, factor, one.0, level);
        lemma_child_moves_exactly(node, factor, other.0, level);
        if one.0 == other.0 {
            lemma_leaves_are_distinct(near, factor, level + 1, below, one.1, other.1);
        } else {
            lemma_leaf_stays_close(near, factor, level + 1, below, one.1);
            lemma_leaf_stays_close(far, factor, level + 1, below, other.1);
            lemma_step_unit_shrinks(level);
            let unit = step_unit(level);
            let next = step_unit(level + 1);
            let last = step_unit(level + depth);
            assert(0 <= 2 * (factor * next) <= factor * unit && factor * last >= 1)
                by (nonlinear_arith)
                requires
                    0 <= next,
                    2 * next <= unit,
                    factor >= 1,
                    last >= 1,
            ;
            assert(level + 1 + below == level + depth);
        }
    }
}

/// The leaves are a function of the base and the depth: two results for
/// the same base and depth agree placement for placement.
pub proof fn lemma_generate_is_deterministic(
    first: Seq<Transform>,
    second: Seq<Transform>,
    base: Similarity,
    depth: nat,
)
    requires
        views(first) == generated(base, depth),
        views(second) == generated(base, depth),
    ensures
        first == second,
{
    lemma_views_decide(first, second);
}

/// The four children of a tetrahedron of level `level`, corner by corner.
pub fn subdivide_at(parent: &Transform, level: u32) -> (children: Vec<Transform>)
    requires
        parent@.has_room(level as nat),
    ensures
        children.len() == CORNERS,
        forall|c: int|
            0 <= c < CORNERS ==> (#[trigger] children[c])@ == parent@.child(c, level as nat)
                && children[c]@.has_room(level as nat + 1) && children[c]@.scale
                == parent@.scale,
        children[0] == *parent,
{
    let mut children: Vec<Transform> = Vec::new();
    let mut corner: usize = 0;
    while corner < CORNERS
        invariant
            parent@.has_room(level as nat),
            corner <= CORNERS,
            children.len() == corner,
            forall|c: int|
                0 <= c < corner ==> (#[trigger] children[c])@ == parent@.child(c, level as nat)
                    && children[c]@.has_room(level as nat + 1) && children[c]@.scale
                    == parent@.scale,
            corner > 0 ==> children[0] == *parent,
        decreases CORNERS - corner,
    {
        children.push(parent.child(corner, level));
        corner = corner + 1;
    }
    children
}

/// The four children of a placement at the first step: the placement moved
/// by the whole offset of each corner.
pub fn subdivide(parent: &Transform) -> (children: Vec<Transform>)
    requires
        parent@.has_room(0),
    ensures
        children.len() == CORNERS,
        forall|c: int|
            0 <= c < CORNERS ==> (#[trigger] children[c])@ == parent@.child(c, 0)
                && children[c].wf() && children[c]@.scale == parent@.scale,
        children[0] == *parent,
{
    subdivide_at(parent, 0)
}

/// The leaves below a tetrahedron of level `level` after `depth` further
/// subdivisions, in the order of their paths.
pub fn generate_from(base: Transform, level: u32, depth: u32) -> (leaves: Vec<Transform>)
    requires
        base@.has_room(level as nat),
        depth <= MAX_DEPTH,
        level + depth <= u32::MAX,
    ensures
        views(leaves@) == generated_from(base@, level as nat, depth as nat),
        leaves.len() == pow4(depth as nat),
        all_wf(leaves@),
{
    let mut leaves: Vec<Transform> = Vec::new();
    leaves.push(base);
    let mut done: u32 = 0;
    assert(views(leaves@) =~= generated_from(base@, level as nat, 0));
    while done < depth
        invariant
            done <= depth <= MAX_DEPTH,
            level + depth <= u32::MAX,
            views(leaves@) == generated_from(base@, level as nat, done as nat),
            leaves.len() == pow4(done as nat),
            forall|i: int|
                0 <= i < leaves.len() ==> (#[trigger] leaves[i])@.has_room((level + done) as nat),
        decreases depth - done,
    {
        proof {
            lemma_pow4_bounded((done + 1) as nat);
        }
        let mut next: Vec<Transform> = Vec::new();
        let mut parent: usize = 0;
        while parent < leaves.len()
            invariant
                parent <= leaves.len(),
                leaves.len() * 4 <= 0x4000_0000,
                level + done < u32::MAX,
                forall|i: int|
                    0 <= i < leaves.len() ==> (#[trigger] leaves[i])@.has_room(
                        (level + done) as nat,
                    ),
                next.len() == 4 * parent,
                forall|j: int|
                    0 <= j < next.len() ==> (#[trigger] next[j])@ == leaves[j / 4]@.child(
                        j % 4,
                        (level + done) as nat,
                    ) && next[j]@.has_room((level + done + 1) as nat),
            decreases leaves.len() - parent,
        {
            let children = subdivide_at(&leaves[parent], level + done);
            let mut corner: usize = 0;
            while corner < CORNERS
                invariant
                    parent < leaves.len(),
                    leaves.len() * 4 <= 0x4000_0000,
                    corner <= CORNERS,
                    children.len() == CORNERS,
                    forall|c: int|
                        0 <= c < CORNERS ==> (#[trigger] children[c])@ == leaves[parent as int]@.child(
                            c,
                            (level + done) as nat,
                        ) && children[c]@.has_room((level + done) as nat + 1),
                    next.len() == 4 * parent + corner,
                    forall|j: int|
                        0 <= j < next.len() ==> (#[trigger] next[j])@ == leaves[j / 4]@.child(
                            j % 4,
                            (level + done) as nat,
                        ) && next[j]@.has_room((level + done + 1) as nat),
                decreases CORNERS - corner,
            {
                next.push(children[corner]);
                corner = corner + 1;
            }
            parent = parent + 1;
        }
        proof {
            let deeper = generated_from(base@, level as nat, (done + 1) as nat);
            lemma_generated_len(base@, level as nat, (done + 1) as nat);
            assert forall|j: int| 0 <= j < next.len() implies views(next@)[j] == deeper[j] by {
                lemma_generated_step(base@, level as nat, done as nat, j as nat);
                assert(views(leaves@)[j / 4] == leaves[j / 4]@);
            }
            assert(views(next@) =~= deeper);
        }
        leaves = next;
        done = done + 1;
    }
    leaves
}

/// The leaves below `base` after `depth` subdivisions, in the order of
/// their paths. Every leaf has the scale of the base, and the first leaf is
/// the base.
pub fn generate(base: Transform, depth: u32) -> (leaves: Vec<Transform>)
    requires
        base@.has_room(0),
        depth <= MAX_DEPTH,
    ensures
        views(leaves@) == generated(base@, depth as nat),
        leaves.len() == pow4(depth as nat),
        all_wf(leaves@),
        forall|i: int| 0 <= i < leaves.len() ==> (#[trigger] leaves[i])@.scale == base@.scale,
        leaves[0] == base,
{
    let leaves = generate_from(base, 0, depth);
    proof {
        lemma_generated_has_room(base@, 0, depth as nat);
        lemma_first_leaf_is_base(base@, 0, depth as nat);
        lemma_pow4_positive(depth as nat);
        assert forall|i: int| 0 <= i < leaves.len() implies (#[trigger] leaves[i])@.scale
            == base@.scale by {
            assert(views(leaves@)[i] == leaves[i]@);
        }
        assert(views(leaves@)[0] == leaves[0]@);
        lemma_view_decides(leaves[0], base);
    }
    leaves
}

} // verus!
