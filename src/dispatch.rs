use vstd::prelude::*;

use crate::components::Position;

verus! {

/// A task that an agent carries out; entities are named by their handles.
#[derive(Clone, Copy, Debug, PartialEq, Eq, Structural)]
pub enum Action {
    /// Walk to a cell beside the given cell.
    Move(Position),
    /// Put `entity` into the container `destination`.
    Store { entity: u64, destination: u64 },
    /// Attack the given entity.
    Attack(u64),
}

/// A worker agent with the tasks it has still to start, next first.
pub struct Elf {
    pub action_queue: Vec<Action>,
}

/// Hands each idle agent the next task of its queue.
pub struct ElfSystem;

impl ElfSystem {
    /// Takes the next task off the queue of an agent that is not busy with
    /// one already.
    pub fn run(&mut self, elf: &mut Elf, busy: bool) -> (r: Option<Action>)
        ensures
            busy || old(elf).action_queue@.len() == 0 ==> r is None && final(elf).action_queue@ == old(elf).action_queue@,
            !busy && old(elf).action_queue@.len() > 0 ==> r == Some(old(elf).action_queue@[0])
                && final(elf).action_queue@ == old(elf).action_queue@.skip(1),
    {
        if busy || elf.action_queue.len() == 0 {
            return None;
        }
        let a = elf.action_queue.remove(0);
        assert(elf.action_queue@ =~= old(elf).action_queue@.skip(1));
        Some(a)
    }
}

} // verus!
