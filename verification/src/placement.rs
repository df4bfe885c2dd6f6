use crate::machine::{Machine, Tool};
use vstd::prelude::*;

verus! {

/// Why a placement was turned down.
#[derive(Clone, Copy, Debug, PartialEq, Eq, Structural)]
pub enum Rejected {
    /// A machine already stands on the target cell.
    Occupied,
}

/// Whether one of `machines` stands on cell `(x, y)`.
pub open spec fn occupied(machines: Seq<Machine>, x: i32, y: i32) -> bool {
    exists|k: int| 0 <= k < machines.len() && (#[trigger] machines[k]).x == x && machines[k].y == y
}

/// No two of `machines` stand on the same cell.
pub open spec fn one_per_cell(machines: Seq<Machine>) -> bool {
    forall|i: int, j: int|
        0 <= i < j < machines.len() ==> !((#[trigger] machines[i]).x == (#[trigger] machines[j]).x
            && machines[i].y == machines[j].y)
}

/// What a request to place `tool` on `(x, y)` yields beside `machines`.
pub open spec fn placement(machines: Seq<Machine>, tool: Tool, x: i32, y: i32) -> Result<
    Machine,
    Rejected,
> {
    if occupied(machines, x, y) {
        Err(Rejected::Occupied)
    } else {
        Ok(Machine::spec_new(tool, x, y))
    }
}

/// The machines that stand after a request to place `tool` on `(x, y)`.
pub open spec fn after_placement(machines: Seq<Machine>, tool: Tool, x: i32, y: i32) -> Seq<
    Machine,
> {
    match placement(machines, tool, x, y) {
        Ok(m) => machines.push(m),
        Err(_) => machines,
    }
}

/// Whether one of `machines` stands on cell `(x, y)`.
pub fn is_occupied(machines: &Vec<Machine>, x: i32, y: i32) -> (taken: bool)
    ensures
        taken == occupied(machines@, x, y),
{
    let mut k: usize = 0;
    while k < machines.len()
        invariant
            k <= machines@.len(),
            forall|j: int|
                0 <= j < k ==> !((#[trigger] machines@[j]).x == x && machines@[j].y == y),
        decreases machines@.len() - k,
    {
        if machines[k].x == x && machines[k].y == y {
            return true;
        }
        k = k + 1;
    }
    false
}

/// Decides a request to place `tool` on `(x, y)`: rejected exactly when a
/// machine stands there already; otherwise the new machine, with the strength
/// and radius of its kind. Nothing is changed.
pub fn place_machine(tool: Tool, x: i32, y: i32, machines: &Vec<Machine>) -> (placed: Result<
    Machine,
    Rejected,
>)
    ensures
        placed == placement(machines@, tool, x, y),
{
    if is_occupied(machines, x, y) {
        Err(Rejected::Occupied)
    } else {
        Ok(Machine::new(tool, x, y))
    }
}

/// The machines that stand on the field, in the order in which they were
/// placed. Machines are only ever added.
pub struct Registry {
    pub machines: Vec<Machine>,
}

impl Registry {
    /// Every machine has a radius that is not negative, and no two share a cell.
    pub open spec fn wf(&self) -> bool {
        &&& forall|k: int| 0 <= k < self.machines@.len() ==> (#[trigger] self.machines@[k]).wf()
        &&& one_per_cell(self.machines@)
    }

    pub fn new() -> (r: Registry)
        ensures
            r.wf(),
            r.machines@.len() == 0,
    {
        Registry { machines: Vec::new() }
    }

    /// How many machines stand on the field.
    pub fn len(&self) -> (n: usize)
        ensures
            n == self.machines@.len(),
    {
        self.machines.len()
    }

    /// Places `tool` on `(x, y)` unless the cell is taken: then the registry
    /// stays as it was and the request is rejected. Either way the cell is
    /// taken afterwards.
    pub fn place(&mut self, tool: Tool, x: i32, y: i32) -> (placed: Result<Machine, Rejected>)
        requires
            old(self).wf(),
        ensures
            final(self).wf(),
            placed == placement(old(self).machines@, tool, x, y),
            final(self).machines@ == after_placement(old(self).machines@, tool, x, y),
            occupied(final(self).machines@, x, y),
    {
        let placed = place_machine(tool, x, y, &self.machines);
        match placed {
            Ok(m) => {
                self.machines.push(m);
                let ghost last = self.machines@.len() - 1;
                assert(self.machines@[last].x == x && self.machines@[last].y == y);
            },
            Err(_) => {},
        }
        placed
    }
}

/// A cell on which a machine was placed is taken from then on: whatever is
/// asked for there next is rejected, and the machines stay as they were.
pub proof fn lemma_second_placement_rejected(
    machines: Seq<Machine>,
    first: Tool,
    second: Tool,
    x: i32,
    y: i32,
)
    requires
        placement(machines, first, x, y) is Ok,
    ensures
        after_placement(machines, first, x, y).len() == machines.len() + 1,
        placement(after_placement(machines, first, x, y), second, x, y) == Err::<Machine, Rejected>(
            Rejected::Occupied,
        ),
        after_placement(after_placement(machines, first, x, y), second, x, y) == after_placement(
            machines,
            first,
            x,
            y,
        ),
{
    let now = after_placement(machines, first, x, y);
    let k = machines.len() as int;
    assert(now[k].x == x && now[k].y == y);
}

/// A rejected request leaves the machines as they were.
pub proof fn lemma_rejection_changes_nothing(machines: Seq<Machine>, tool: Tool, x: i32, y: i32)
    requires
        placement(machines, tool, x, y) is Err,
    ensures
        after_placement(machines, tool, x, y) == machines,
{
}

} // verus!
