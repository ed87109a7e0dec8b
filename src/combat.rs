use vstd::prelude::*;

use crate::components::Position;
use crate::storage::PhysicalProperties;
use crate::timer::DELTA_TIME_NANOS;

verus! {

/// A tool carried by an agent; `weapon_type` names the kind of target it
/// damages.
#[derive(Clone, Copy, Debug, PartialEq, Eq, Structural)]
pub struct Weapon {
    pub weapon_type: u32,
    pub damage_per_use: u32,
    pub uses_left: u32,
    /// Nanoseconds the wielder needs before striking again.
    pub recovery_time: u64,
    /// Room the weapon takes up in an inventory.
    pub storage: PhysicalProperties,
}

/// Something that can be worn down, such as a tree.
#[derive(Clone, Copy, Debug, PartialEq, Eq, Structural)]
pub struct Attackable {
    pub durability_left: u32,
    pub vulnerable_to: u32,
}

/// What an agent carries: its weapons, in order, and the room left.
pub struct Inventory {
    pub volume_free: u64,
    pub weight_free: u64,
    pub weapons: Vec<Weapon>,
}

/// The result of a strike.
#[derive(Clone, Copy, Debug, PartialEq, Eq, Structural)]
pub struct Strike {
    /// Nanoseconds the attacker must wait before its next strike.
    pub recovery_time: u64,
    /// The target is worn down to nothing and is to be removed.
    pub target_destroyed: bool,
}

/// `i` is the first weapon of `ws` that suits `kind`.
pub open spec fn first_suitable(ws: Seq<Weapon>, kind: u32, i: int) -> bool {
    0 <= i < ws.len() && ws[i].weapon_type == kind && forall|j: int| 0 <= j < i ==> ws[j].weapon_type != kind
}

pub open spec fn worn(v: u32, by: u32) -> u32 {
    if v >= by {
        (v - by) as u32
    } else {
        0
    }
}

/// `target` and `inventory` went from `t0`, `inv0` to `t1`, `inv1` by one
/// strike with outcome `r`.
pub open spec fn strike_result(t0: Attackable, inv0: Inventory, t1: Attackable, inv1: Inventory, r: Option<Strike>) -> bool {
    &&& t1.vulnerable_to == t0.vulnerable_to
    &&& (r is None <==> (t0.durability_left == 0 || forall|j: int|
        0 <= j < inv0.weapons@.len() ==> #[trigger] inv0.weapons@[j].weapon_type != t0.vulnerable_to))
    &&& r is None ==> t1 == t0 && inv1.weapons@ == inv0.weapons@ && inv1.volume_free == inv0.volume_free
        && inv1.weight_free == inv0.weight_free
    &&& r is Some ==> exists|i: int| #[trigger] first_suitable(inv0.weapons@, t0.vulnerable_to, i) && {
            let w = inv0.weapons@[i];
            let (ws0, ws1) = (inv0.weapons@, inv1.weapons@);
            &&& t1.durability_left == worn(t0.durability_left, w.damage_per_use)
            &&& r == Some(Strike { recovery_time: w.recovery_time, target_destroyed: t1.durability_left == 0 })
            &&& w.uses_left <= 1 ==> {
                &&& ws1 == ws0.remove(i)
                &&& inv1.volume_free == inv0.volume_free + w.storage.volume
                &&& inv1.weight_free == inv0.weight_free + w.storage.weight
            }
            &&& w.uses_left > 1 ==> {
                &&& ws1 == ws0.update(i, Weapon { uses_left: (w.uses_left - 1) as u32, ..w })
                &&& inv1.volume_free == inv0.volume_free
                &&& inv1.weight_free == inv0.weight_free
            }
        }
}

/// Strikes targets with the weapons their attackers carry.
pub struct AttackSystem;

impl AttackSystem {
    /// Strikes `target` once with the first weapon in the inventory that
    /// suits it. Nothing happens, and `None` comes back, when the target is
    /// already worn down or no weapon suits. The target loses the weapon's
    /// damage, down to zero; the weapon loses a use, and when it has none
    /// left it is dropped and its room given back to the inventory.
    pub fn run(&mut self, target: &mut Attackable, inventory: &mut Inventory) -> (r: Option<Strike>)
        requires
            forall|j: int|
                0 <= j < old(inventory).weapons@.len() ==> old(inventory).volume_free
                    + (#[trigger] old(inventory).weapons@[j]).storage.volume <= u64::MAX
                    && old(inventory).weight_free + old(inventory).weapons@[j].storage.weight <= u64::MAX,
        ensures
            strike_result(*old(target), *old(inventory), *final(target), *final(inventory), r),
    {
        if target.durability_left == 0 {
            return None;
        }
        let mut i: usize = 0;
        while i < inventory.weapons.len()
            invariant
                0 <= i <= inventory.weapons@.len(),
                inventory.weapons@ == old(inventory).weapons@,
                inventory.volume_free == old(inventory).volume_free,
                inventory.weight_free == old(inventory).weight_free,
                *target == *old(target),
                old(target).durability_left != 0,
                forall|j: int| 0 <= j < i ==> #[trigger] inventory.weapons@[j].weapon_type != target.vulnerable_to,
                forall|j: int|
                    0 <= j < old(inventory).weapons@.len() ==> old(inventory).volume_free
                        + (#[trigger] old(inventory).weapons@[j]).storage.volume <= u64::MAX
                        && old(inventory).weight_free + old(inventory).weapons@[j].storage.weight <= u64::MAX,
            decreases inventory.weapons@.len() - i,
        {
            let w = inventory.weapons[i];
            if w.weapon_type == target.vulnerable_to {
                proof {
                    assert(first_suitable(old(inventory).weapons@, old(target).vulnerable_to, i as int));
                    assert(old(inventory).weapons@[i as int].weapon_type == old(target).vulnerable_to);
                }
                target.durability_left = match target.durability_left.checked_sub(w.damage_per_use) {
                    Some(v) => v,
                    None => 0,
                };
                if w.uses_left <= 1 {
                    inventory.weapons.remove(i);
                    inventory.volume_free = inventory.volume_free + w.storage.volume;
                    inventory.weight_free = inventory.weight_free + w.storage.weight;
                } else {
                    inventory.weapons.set(i, Weapon { uses_left: w.uses_left - 1, ..w });
                }
                return Some(Strike { recovery_time: w.recovery_time, target_destroyed: target.durability_left == 0 });
            }
            i += 1;
        }
        None
    }
}

/// What one tick of an attack did.
#[derive(Clone, Copy, Debug, PartialEq, Eq, Structural)]
pub enum AttackStep {
    /// The attacker is still recovering from its last strike.
    Recovering,
    /// The attacker struck.
    Struck(Strike),
    /// The attack is over: the target is worn down, out of reach, or no
    /// weapon suits it.
    Cancelled,
}

impl AttackSystem {
    /// One tick of an attack by an agent standing at `attacker` on a target
    /// standing at `target_cell`, `recovery_left` nanoseconds before it may
    /// strike again. A worn-down target ends the attack. While recovering,
    /// the wait shrinks by one tick. Once recovered, an agent beside its
    /// target strikes and waits the weapon's recovery time; one that is not
    /// beside it, or has no suitable weapon, ends the attack.
    pub fn step(
        &mut self,
        attacker: Position,
        target_cell: Position,
        recovery_left: &mut u64,
        target: &mut Attackable,
        inventory: &mut Inventory,
    ) -> (r: AttackStep)
        requires
            forall|j: int|
                0 <= j < old(inventory).weapons@.len() ==> old(inventory).volume_free
                    + (#[trigger] old(inventory).weapons@[j]).storage.volume <= u64::MAX
                    && old(inventory).weight_free + old(inventory).weapons@[j].storage.weight <= u64::MAX,
        ensures
            ({
                let striking = old(target).durability_left != 0 && *old(recovery_left) == 0 && attacker.adjacent(target_cell);
                &&& !striking ==> *final(target) == *old(target) && final(inventory).weapons@ == old(inventory).weapons@
                    && final(inventory).volume_free == old(inventory).volume_free
                    && final(inventory).weight_free == old(inventory).weight_free
                &&& old(target).durability_left == 0 ==> r == AttackStep::Cancelled && *final(recovery_left) == *old(recovery_left)
                &&& old(target).durability_left != 0 && *old(recovery_left) > 0 ==> r == AttackStep::Recovering
                    && *final(recovery_left) == (if *old(recovery_left) >= DELTA_TIME_NANOS { (*old(recovery_left) - DELTA_TIME_NANOS) as u64 } else { 0 })
                &&& old(target).durability_left != 0 && *old(recovery_left) == 0 && !attacker.adjacent(target_cell)
                    ==> r == AttackStep::Cancelled && *final(recovery_left) == 0
                &&& striking ==> {
                    &&& strike_result(
                        *old(target),
                        *old(inventory),
                        *final(target),
                        *final(inventory),
                        match r {
                            AttackStep::Struck(s) => Some(s),
                            _ => None,
                        },
                    )
                    &&& r != AttackStep::Recovering
                    &&& *final(recovery_left) == match r {
                        AttackStep::Struck(s) => s.recovery_time,
                        _ => 0,
                    }
                }
            }),
    {
        if target.durability_left == 0 {
            return AttackStep::Cancelled;
        }
        if *recovery_left > 0 {
            *recovery_left = match recovery_left.checked_sub(DELTA_TIME_NANOS) {
                Some(v) => v,
                None => 0,
            };
            return AttackStep::Recovering;
        }
        if !attacker.is_adjacent_to(&target_cell) {
            return AttackStep::Cancelled;
        }
        match self.run(target, inventory) {
            Some(s) => {
                *recovery_left = s.recovery_time;
                AttackStep::Struck(s)
            },
            None => AttackStep::Cancelled,
        }
    }
}

} // verus!
