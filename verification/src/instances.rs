//! The leaves of one level, placed and coloured, as a renderer takes them.

use vstd::prelude::*;
use crate::color::{leaf_color, Color, Palette};
use crate::generator::{generate, generated, lemma_generated_has_room, lemma_generated_len};
use crate::powers::{pow4, MAX_DEPTH};
use crate::transform::{all_wf, step_length, step_unit, views, Similarity, Transform, UNIT};

verus! {

/// One drawable copy of the tetrahedron.
#[derive(Clone, Copy, Debug, PartialEq, Eq)]
pub struct Instance {
    pub transform: Transform,
    pub color: Color,
}

/// The mathematical value of an instance set: its level, and the
/// placements and colours of its leaves in the order of their paths.
pub struct InstanceSetView {
    pub level: nat,
    pub transforms: Seq<Similarity>,
    pub colors: Seq<Color>,
}

impl InstanceSetView {
    /// Whether the set has one placement in reach and one colour for each
    /// leaf of its level.
    pub open spec fn wf(self) -> bool {
        &&& self.level <= MAX_DEPTH
        &&& self.transforms.len() == pow4(self.level)
        &&& self.colors.len() == pow4(self.level)
        &&& forall|i: int| 0 <= i < self.transforms.len() ==> (#[trigger] self.transforms[i]).in_reach()
    }

    /// The same leaves with the same colours, placed elsewhere.
    pub open spec fn placed(self, transforms: Seq<Similarity>) -> InstanceSetView {
        InstanceSetView { level: self.level, transforms, colors: self.colors }
    }
}

/// The colours of the leaves of a level.
pub open spec fn leaf_colors(palette: Seq<Color>, depth: nat) -> Seq<Color> {
    Seq::new(pow4(depth), |i: int| leaf_color(palette, i))
}

/// The instance set of a level: the generated placements, each with the
/// colour of its leaf.
pub open spec fn built(base: Similarity, depth: nat, palette: Seq<Color>) -> InstanceSetView {
    InstanceSetView {
        level: depth,
        transforms: generated(base, depth),
        colors: leaf_colors(palette, depth),
    }
}

/// The size at which a leaf of a level is drawn, in parts of `UNIT` of the
/// size of the base: the length of the step that led to the leaf, at which
/// the four children of a parent meet corner to corner. At level 0 the leaf
/// is the base.
pub open spec fn leaf_size(level: nat) -> nat {
    if level == 0 {
        UNIT as nat
    } else {
        step_unit((level - 1) as nat)
    }
}

/// The instance set of a level up to `MAX_DEPTH` below a base with room is
/// well formed.
pub proof fn lemma_built_wf(base: Similarity, depth: nat, palette: Seq<Color>)
    requires
        base.has_room(0),
        depth <= MAX_DEPTH,
    ensures
        built(base, depth, palette).wf(),
{
    lemma_generated_len(base, 0, depth);
    lemma_generated_has_room(base, 0, depth);
}

/// The leaves of one level, in the order of their paths.
#[derive(Clone, Debug, PartialEq, Eq)]
pub struct InstanceSet {
    level: u32,
    instances: Vec<Instance>,
}

impl View for InstanceSet {
    type V = InstanceSetView;

    closed spec fn view(&self) -> InstanceSetView {
        InstanceSetView {
            level: self.level as nat,
            transforms: Seq::new(self.instances@.len(), |i: int| self.instances@[i].transform@),
            colors: Seq::new(self.instances@.len(), |i: int| self.instances@[i].color),
        }
    }
}

impl InstanceSet {
    /// Whether the set is complete for its level.
    pub open spec fn wf(&self) -> bool {
        self@.wf()
    }

    /// The instance set of level `depth` below `base`, coloured from
    /// `palette`.
    pub fn build(base: Transform, depth: u32, palette: &Palette) -> (set: InstanceSet)
        requires
            base@.has_room(0),
            depth <= MAX_DEPTH,
        ensures
            set@ == built(base@, depth as nat, palette.colors@),
            set.wf(),
    {
        let leaves = generate(base, depth);
        let mut instances: Vec<Instance> = Vec::new();
        let mut leaf: usize = 0;
        while leaf < leaves.len()
            invariant
                leaf <= leaves.len(),
                instances.len() == leaf,
                forall|i: int|
                    0 <= i < leaf ==> (#[trigger] instances[i]).transform == leaves[i]
                        && instances[i].color == leaf_color(palette.colors@, i),
            decreases leaves.len() - leaf,
        {
            instances.push(Instance { transform: leaves[leaf], color: palette.color_of(leaf) });
            leaf = leaf + 1;
        }
        let set = InstanceSet { level: depth, instances };
        proof {
            let goal = built(base@, depth as nat, palette.colors@);
            lemma_built_wf(base@, depth as nat, palette.colors@);
            assert forall|i: int| 0 <= i < leaves.len() implies set@.transforms[i]
                == goal.transforms[i] by {
                assert(views(leaves@)[i] == leaves[i]@);
            }
            assert(set@.transforms =~= goal.transforms);
            assert(set@.colors =~= goal.colors);
        }
        set
    }

    /// The same leaves with the same colours at the given placements.
    pub fn with_transforms(&self, transforms: &Vec<Transform>) -> (set: InstanceSet)
        requires
            self.wf(),
            transforms.len() == self@.transforms.len(),
            all_wf(transforms@),
        ensures
            set@ == self@.placed(views(transforms@)),
            set.wf(),
    {
        let mut instances: Vec<Instance> = Vec::new();
        let mut leaf: usize = 0;
        while leaf < transforms.len()
            invariant
                leaf <= transforms.len(),
                transforms.len() == self.instances.len(),
                instances.len() == leaf,
                forall|i: int|
                    0 <= i < leaf ==> (#[trigger] instances[i]).transform == transforms[i]
                        && instances[i].color == self.instances[i].color,
            decreases transforms.len() - leaf,
        {
            instances.push(
                Instance { transform: transforms[leaf], color: self.instances[leaf].color },
            );
            leaf = leaf + 1;
        }
        let set = InstanceSet { level: self.level, instances };
        proof {
            let goal = self@.placed(views(transforms@));
            assert(set@.transforms =~= goal.transforms);
            assert(set@.colors =~= goal.colors);
            assert forall|i: int| 0 <= i < set@.transforms.len() implies (#[trigger] set@.transforms[i]).in_reach() by {
                assert(transforms@[i].wf());
            }
        }
        set
    }

    /// The number of leaves.
    pub fn len(&self) -> (count: usize)
        ensures
            count == self@.transforms.len(),
            count == self@.colors.len(),
    {
        self.instances.len()
    }

    /// Whether two sets have the same level and the same leaves, placed and
    /// coloured alike.
    pub fn same(&self, other: &InstanceSet) -> (equal: bool)
        ensures
            equal == (self@ == other@),
    {
        if self.level != other.level || self.instances.len() != other.instances.len() {
            assert(self@.level != other@.level || self@.transforms.len()
                != other@.transforms.len());
            return false;
        }
        let mut leaf: usize = 0;
        while leaf < self.instances.len()
            invariant
                leaf <= self.instances.len(),
                self.instances.len() == other.instances.len(),
                forall|i: int|
                    0 <= i < leaf ==> (#[trigger] self.instances[i]).transform@
                        == other.instances[i].transform@ && self.instances[i].color
                        == other.instances[i].color,
            decreases self.instances.len() - leaf,
        {
            let mine = self.instances[leaf];
            let theirs = other.instances[leaf];
            if !mine.transform.same(&theirs.transform) || mine.color != theirs.color {
                assert(self@.transforms[leaf as int] != other@.transforms[leaf as int]
                    || self@.colors[leaf as int] != other@.colors[leaf as int]);
                return false;
            }
            leaf = leaf + 1;
        }
        assert(self@.transforms =~= other@.transforms);
        assert(self@.colors =~= other@.colors);
        true
    }

    /// The size at which the leaves are drawn, in parts of `UNIT` of the
    /// size of the base.
    pub fn leaf_size(&self) -> (size: u64)
        ensures
            size == leaf_size(self@.level),
    {
        if self.level == 0 {
            UNIT
        } else {
            step_length(self.level - 1)
        }
    }

    /// The level that the set was built for.
    pub fn level(&self) -> (level: u32)
        ensures
            level == self@.level,
    {
        self.level
    }

    /// Leaf `index`, if the set has that many.
    pub fn get(&self, index: usize) -> (found: Option<Instance>)
        ensures
            found is Some <==> index < self@.transforms.len(),
            found matches Some(instance) ==> instance.transform@ == self@.transforms[index as int]
                && instance.color == self@.colors[index as int],
            self.wf() ==> (found matches Some(instance) ==> instance.transform.wf()),
    {
        if index < self.instances.len() {
            let instance = self.instances[index];
            assert(instance.transform@ == self@.transforms[index as int]);
            Some(instance)
        } else {
            None
        }
    }

    /// The placements of the leaves, in order.
    pub fn transforms(&self) -> (transforms: Vec<Transform>)
        ensures
            views(transforms@) == self@.transforms,
            self.wf() ==> all_wf(transforms@),
    {
        let mut transforms: Vec<Transform> = Vec::new();
        let mut leaf: usize = 0;
        while leaf < self.instances.len()
            invariant
                leaf <= self.instances.len(),
                transforms.len() == leaf,
                forall|i: int| 0 <= i < leaf ==> #[trigger] transforms[i] == self.instances[i].transform,
            decreases self.instances.len() - leaf,
        {
            transforms.push(self.instances[leaf].transform);
            leaf = leaf + 1;
        }
        proof {
            assert(views(transforms@) =~= self@.transforms);
            if self.wf() {
                assert forall|i: int| 0 <= i < transforms.len() implies (#[trigger] transforms@[i]).wf() by {
                    assert(self@.transforms[i].in_reach());
                }
            }
        }
        transforms
    }

    /// The colours of the leaves, in order.
    pub fn colors(&self) -> (colors: Vec<Color>)
        ensures
            colors@ == self@.colors,
    {
        let mut colors: Vec<Color> = Vec::new();
        let mut leaf: usize = 0;
        while leaf < self.instances.len()
            invariant
                leaf <= self.instances.len(),
                colors.len() == leaf,
                forall|i: int| 0 <= i < leaf ==> #[trigger] colors[i] == self.instances[i].color,
            decreases self.instances.len() - leaf,
        {
            colors.push(self.instances[leaf].color);
            leaf = leaf + 1;
        }
        assert(colors@ =~= self@.colors);
        colors
    }
}

} // verus!
