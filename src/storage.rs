use vstd::prelude::*;

verus! {

/// Size and mass of an item.
#[derive(Clone, Copy, Debug, PartialEq, Eq, Structural)]
pub struct PhysicalProperties {
    pub volume: u64,
    pub weight: u64,
}

/// Holds items, named by their entity handles, up to a volume and an
/// optional weight.
pub struct Container {
    pub volume_limit: u64,
    pub weight_limit: Option<u64>,
    pub stored_volume: u64,
    pub stored_weight: u64,
    pub children: Vec<u64>,
}

/// An item of the given size still fits into `c`.
pub open spec fn has_room(c: Container, props: PhysicalProperties) -> bool {
    &&& c.stored_volume + props.volume <= c.volume_limit
    &&& match c.weight_limit {
        Some(limit) => c.stored_weight + props.weight <= limit,
        None => true,
    }
}

/// Position of the first occurrence of `e` in `s`.
pub open spec fn first_index(s: Seq<u64>, e: u64, i: int) -> bool {
    0 <= i < s.len() && s[i] == e && forall|j: int| 0 <= j < i ==> s[j] != e
}

impl Container {
    pub fn has_room_for(&self, props: PhysicalProperties) -> (r: bool)
        ensures
            r == has_room(*self, props),
    {
        let volume_fits = match self.stored_volume.checked_add(props.volume) {
            Some(v) => v <= self.volume_limit,
            None => false,
        };
        let weight_fits = match self.weight_limit {
            Some(limit) => match self.stored_weight.checked_add(props.weight) {
                Some(w) => w <= limit,
                None => false,
            },
            None => true,
        };
        volume_fits && weight_fits
    }

    /// Takes `entity` out of the container, giving back the room it took.
    /// Tells whether it was there.
    pub fn remove_child(&mut self, entity: u64, props: PhysicalProperties) -> (r: bool)
        requires
            old(self).children@.contains(entity) ==> old(self).stored_volume >= props.volume
                && old(self).stored_weight >= props.weight,
        ensures
            r == old(self).children@.contains(entity),
            final(self).volume_limit == old(self).volume_limit,
            final(self).weight_limit == old(self).weight_limit,
            r ==> final(self).stored_volume == old(self).stored_volume - props.volume,
            r ==> final(self).stored_weight == old(self).stored_weight - props.weight,
            r ==> exists|i: int| #[trigger] first_index(old(self).children@, entity, i)
                && final(self).children@ == old(self).children@.remove(i),
            !r ==> final(self).stored_volume == old(self).stored_volume && final(self).stored_weight
                == old(self).stored_weight && final(self).children@ == old(self).children@,
    {
        let mut i: usize = 0;
        while i < self.children.len()
            invariant
                0 <= i <= self.children@.len(),
                self.children@ == old(self).children@,
                self.stored_volume == old(self).stored_volume,
                self.stored_weight == old(self).stored_weight,
                self.volume_limit == old(self).volume_limit,
                self.weight_limit == old(self).weight_limit,
                old(self).children@.contains(entity) ==> old(self).stored_volume >= props.volume
                    && old(self).stored_weight >= props.weight,
                forall|j: int| 0 <= j < i ==> self.children@[j] != entity,
            decreases self.children@.len() - i,
        {
            if self.children[i] == entity {
                proof {
                    assert(old(self).children@.contains(entity));
                    assert(first_index(old(self).children@, entity, i as int));
                }
                self.children.remove(i);
                self.stored_volume = self.stored_volume - props.volume;
                self.stored_weight = self.stored_weight - props.weight;
                return true;
            }
            i += 1;
        }
        false
    }
}

/// Moves an item into a container when it fits.
pub struct InsertIntoContainerSystem;

impl InsertIntoContainerSystem {
    /// Puts `entity` into `containers[target]` when it has room, taking it out
    /// of `containers[parent]` if it was held there. Tells whether the item
    /// moved.
    pub fn run(
        &mut self,
        containers: &mut Vec<Container>,
        target: usize,
        parent: Option<usize>,
        entity: u64,
        props: PhysicalProperties,
    ) -> (moved: bool)
        requires
            target < old(containers)@.len(),
            old(containers)@[target as int].stored_weight + props.weight <= u64::MAX,
            parent matches Some(p) ==> p < old(containers)@.len() && p != target
                && (old(containers)@[p as int].children@.contains(entity) ==> old(containers)@[p as int].stored_volume
                >= props.volume && old(containers)@[p as int].stored_weight >= props.weight),
        ensures
            final(containers)@.len() == old(containers)@.len(),
            moved == has_room(old(containers)@[target as int], props),
            !moved ==> final(containers)@ == old(containers)@,
            moved ==> {
                let (t, t0) = (final(containers)@[target as int], old(containers)@[target as int]);
                &&& t.stored_volume == t0.stored_volume + props.volume
                &&& t.stored_weight == t0.stored_weight + props.weight
                &&& t.children@ == t0.children@.push(entity)
                &&& t.volume_limit == t0.volume_limit
                &&& t.weight_limit == t0.weight_limit
            },
            moved ==> forall|i: int|
                0 <= i < final(containers)@.len() && i != target && (parent is None || parent.unwrap() != i)
                    ==> #[trigger] final(containers)@[i] == old(containers)@[i],
            moved && parent is Some ==> {
                let p = parent.unwrap();
                let (c, c0) = (final(containers)@[p as int], old(containers)@[p as int]);
                &&& c.volume_limit == c0.volume_limit
                &&& c.weight_limit == c0.weight_limit
                &&& c0.children@.contains(entity) ==> c.stored_volume == c0.stored_volume - props.volume
                    && c.stored_weight == c0.stored_weight - props.weight
                    && exists|i: int| #[trigger] first_index(c0.children@, entity, i) && c.children@ == c0.children@.remove(i)
                &&& !c0.children@.contains(entity) ==> c.stored_volume == c0.stored_volume && c.stored_weight
                    == c0.stored_weight && c.children@ == c0.children@
            },
    {
        if !containers[target].has_room_for(props) {
            return false;
        }
        let t = &mut containers[target];
        t.stored_volume = t.stored_volume + props.volume;
        t.stored_weight = t.stored_weight + props.weight;
        t.children.push(entity);
        match parent {
            Some(p) => {
                let c = &mut containers[p];
                c.remove_child(entity, props);
            },
            None => {},
        }
        true
    }
}

} // verus!
