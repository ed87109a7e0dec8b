use vstd::prelude::*;

use crate::components::Texture;
use crate::timer::DELTA_TIME_NANOS;

verus! {

/// One week of simulated growth, in nanoseconds.
pub const GROWTH_PHASE_NANOS: u64 = 7000000000;

/// Time between two growth stages of a tree, in nanoseconds.
pub const TREE_STAGE_NANOS: u64 = 5000000000;

/// Something that ages and looks older as it does.
pub struct Growable {
    /// Nanoseconds lived.
    pub age: u64,
    /// What it looks like, when it is shown.
    pub texture: Option<Texture>,
}

/// The atlas image for a growable of the given age.
pub open spec fn texture_for_age(age: int) -> u32 {
    if age >= 4 * GROWTH_PHASE_NANOS {
        1
    } else if age >= 3 * GROWTH_PHASE_NANOS {
        10
    } else if age >= 2 * GROWTH_PHASE_NANOS {
        9
    } else if age >= GROWTH_PHASE_NANOS {
        8
    } else {
        7
    }
}

/// Ages every growable by one tick and updates its image.
pub struct GrowthSystem;

impl GrowthSystem {
    pub fn run(&mut self, growables: &mut Vec<Growable>)
        requires
            forall|i: int| 0 <= i < old(growables)@.len() ==> #[trigger] old(growables)@[i].age <= u64::MAX - DELTA_TIME_NANOS,
        ensures
            final(growables)@.len() == old(growables)@.len(),
            forall|i: int| 0 <= i < final(growables)@.len() ==> {
                &&& #[trigger] final(growables)@[i].age == old(growables)@[i].age + DELTA_TIME_NANOS
                &&& final(growables)@[i].texture == match old(growables)@[i].texture {
                    Some(_) => Some(Texture { atlas_index: texture_for_age(final(growables)@[i].age as int) }),
                    None => None::<Texture>,
                }
            },
    {
        let n = growables.len();
        let mut i: usize = 0;
        while i < n
            invariant
                n == growables@.len(),
                n == old(growables)@.len(),
                0 <= i <= n,
                forall|j: int| i <= j < n ==> #[trigger] growables@[j] == old(growables)@[j],
                forall|j: int| 0 <= j < n ==> #[trigger] old(growables)@[j].age <= u64::MAX - DELTA_TIME_NANOS,
                forall|j: int| 0 <= j < i ==> {
                    &&& #[trigger] growables@[j].age == old(growables)@[j].age + DELTA_TIME_NANOS
                    &&& growables@[j].texture == match old(growables)@[j].texture {
                        Some(_) => Some(Texture { atlas_index: texture_for_age(growables@[j].age as int) }),
                        None => None::<Texture>,
                    }
                },
            decreases n - i,
        {
            let g = &mut growables[i];
            g.age = g.age + DELTA_TIME_NANOS;
            let index: u32 = if g.age >= 4 * GROWTH_PHASE_NANOS {
                1
            } else if g.age >= 3 * GROWTH_PHASE_NANOS {
                10
            } else if g.age >= 2 * GROWTH_PHASE_NANOS {
                9
            } else if g.age >= GROWTH_PHASE_NANOS {
                8
            } else {
                7
            };
            if g.texture.is_some() {
                g.texture = Some(Texture { atlas_index: index });
            }
            i += 1;
        }
    }
}

/// How far a tree has grown.
#[derive(Clone, Copy, Debug, PartialEq, Eq, Structural)]
pub enum TreeGrowthStage {
    Stage1,
    Stage2,
    Stage3,
    Stage4,
    Stage5,
}

pub struct Tree {
    pub growth_stage: TreeGrowthStage,
    /// Nanoseconds since the last stage change.
    pub growth_timer: u64,
    pub texture: Texture,
}

/// The stage after `s`, with the atlas image that goes with it; the last
/// stage stays as it is.
pub open spec fn next_stage(s: TreeGrowthStage) -> Option<(TreeGrowthStage, u32)> {
    match s {
        TreeGrowthStage::Stage1 => Some((TreeGrowthStage::Stage2, 3u32)),
        TreeGrowthStage::Stage2 => Some((TreeGrowthStage::Stage3, 4u32)),
        TreeGrowthStage::Stage3 => Some((TreeGrowthStage::Stage4, 5u32)),
        TreeGrowthStage::Stage4 => Some((TreeGrowthStage::Stage5, 6u32)),
        TreeGrowthStage::Stage5 => None,
    }
}

/// The tree after one tick.
pub open spec fn tree_after_tick(t: Tree) -> Tree {
    let timer = t.growth_timer + DELTA_TIME_NANOS;
    if timer >= TREE_STAGE_NANOS {
        match next_stage(t.growth_stage) {
            Some((s, a)) => Tree { growth_stage: s, growth_timer: 0, texture: Texture { atlas_index: a } },
            None => Tree { growth_stage: t.growth_stage, growth_timer: 0, texture: t.texture },
        }
    } else {
        Tree { growth_stage: t.growth_stage, growth_timer: timer as u64, texture: t.texture }
    }
}

/// Grows every tree by one stage each time its timer runs out.
pub struct TreeGrowthSystem;

impl TreeGrowthSystem {
    pub fn run(&mut self, trees: &mut Vec<Tree>)
        requires
            forall|i: int| 0 <= i < old(trees)@.len() ==> #[trigger] old(trees)@[i].growth_timer <= u64::MAX - DELTA_TIME_NANOS,
        ensures
            final(trees)@.len() == old(trees)@.len(),
            forall|i: int| 0 <= i < final(trees)@.len() ==> #[trigger] final(trees)@[i] == tree_after_tick(old(trees)@[i]),
    {
        let n = trees.len();
        let mut i: usize = 0;
        while i < n
            invariant
                n == trees@.len(),
                n == old(trees)@.len(),
                0 <= i <= n,
                forall|j: int| i <= j < n ==> #[trigger] trees@[j] == old(trees)@[j],
                forall|j: int| 0 <= j < n ==> #[trigger] old(trees)@[j].growth_timer <= u64::MAX - DELTA_TIME_NANOS,
                forall|j: int| 0 <= j < i ==> #[trigger] trees@[j] == tree_after_tick(old(trees)@[j]),
            decreases n - i,
        {
            let t = &mut trees[i];
            t.growth_timer = t.growth_timer + DELTA_TIME_NANOS;
            if t.growth_timer >= TREE_STAGE_NANOS {
                t.growth_timer = 0;
                match t.growth_stage {
                    TreeGrowthStage::Stage1 => {
                        t.growth_stage = TreeGrowthStage::Stage2;
                        t.texture.atlas_index = 3;
                    },
                    TreeGrowthStage::Stage2 => {
                        t.growth_stage = TreeGrowthStage::Stage3;
                        t.texture.atlas_index = 4;
                    },
                    TreeGrowthStage::Stage3 => {
                        t.growth_stage = TreeGrowthStage::Stage4;
                        t.texture.atlas_index = 5;
                    },
                    TreeGrowthStage::Stage4 => {
                        t.growth_stage = TreeGrowthStage::Stage5;
                        t.texture.atlas_index = 6;
                    },
                    TreeGrowthStage::Stage5 => {},
                }
            }
            i += 1;
        }
    }
}

} // verus!
