use vstd::prelude::*;

verus! {

/// What a machine does to the field.
#[derive(Clone, Copy, Debug, PartialEq, Eq, Structural)]
pub enum Tool {
    Emitter,
    Sink,
    Stabilizer,
}

impl Tool {
    /// Aether per second that a machine of this kind adds to each cell in reach.
    pub open spec fn spec_strength(self) -> i32 {
        match self {
            Tool::Emitter => 8i32,
            Tool::Sink => -8i32,
            Tool::Stabilizer => 0i32,
        }
    }

    /// The reach of a machine of this kind, in cells.
    pub open spec fn spec_radius(self) -> i32 {
        match self {
            Tool::Emitter => 3i32,
            Tool::Sink => 3i32,
            Tool::Stabilizer => 2i32,
        }
    }

    pub fn strength(self) -> (s: i32)
        ensures
            s == self.spec_strength(),
    {
        match self {
            Tool::Emitter => 8,
            Tool::Sink => -8,
            Tool::Stabilizer => 0,
        }
    }

    pub fn radius(self) -> (r: i32)
        ensures
            r == self.spec_radius(),
            r >= 0,
    {
        match self {
            Tool::Emitter => 3,
            Tool::Sink => 3,
            Tool::Stabilizer => 2,
        }
    }
}

/// A placed machine: its kind, the cell it stands on, its signed strength in
/// whole units of aether per second, and its reach in cells.
#[derive(Clone, Copy, Debug)]
pub struct Machine {
    pub kind: Tool,
    pub x: i32,
    pub y: i32,
    pub strength: i32,
    pub radius: i32,
}

/// A cell in reach lies in the square of side `2 * r + 1` around the machine.
pub proof fn lemma_disk_in_square(dx: int, dy: int, r: int)
    requires
        r >= 0,
        dx * dx + dy * dy <= r * r,
    ensures
        -r <= dx <= r,
        -r <= dy <= r,
{
    assert(-r <= dx <= r && -r <= dy <= r) by (nonlinear_arith)
        requires
            r >= 0,
            dx * dx + dy * dy <= r * r,
    {
        assert(dx * dx >= 0);
        assert(dy * dy >= 0);
        if dx > r {
            assert(dx * dx > r * r);
        }
        if dx < -r {
            assert(dx * dx > r * r);
        }
        if dy > r {
            assert(dy * dy > r * r);
        }
        if dy < -r {
            assert(dy * dy > r * r);
        }
    }
}

impl Machine {
    pub open spec fn wf(&self) -> bool {
        self.radius >= 0
    }

    /// The machine that `kind` gives when placed on `(x, y)`.
    pub open spec fn spec_new(kind: Tool, x: i32, y: i32) -> Machine {
        Machine { kind, x, y, strength: kind.spec_strength(), radius: kind.spec_radius() }
    }

    /// `(x, y)` lies in the disk of the machine's radius around its cell.
    pub open spec fn covers(&self, x: int, y: int) -> bool {
        (x - self.x) * (x - self.x) + (y - self.y) * (y - self.y) <= self.radius * self.radius
    }

    pub fn new(kind: Tool, x: i32, y: i32) -> (m: Machine)
        ensures
            m == Machine::spec_new(kind, x, y),
            m.wf(),
    {
        Machine { kind, x, y, strength: kind.strength(), radius: kind.radius() }
    }

    /// Whether the machine reaches `(x, y)`: the disk test.
    pub fn reaches(&self, x: i32, y: i32) -> (hit: bool)
        requires
            self.wf(),
        ensures
            hit == self.covers(x as int, y as int),
    {
        let r: i64 = self.radius as i64;
        let dx: i64 = x as i64 - self.x as i64;
        let dy: i64 = y as i64 - self.y as i64;
        if dx > r || dx < -r || dy > r || dy < -r {
            proof {
                if self.covers(x as int, y as int) {
                    lemma_disk_in_square(dx as int, dy as int, r as int);
                }
            }
            return false;
        }
        assert(dx * dx <= r * r && dy * dy <= r * r && r * r <= 0x7fff_ffff * 0x7fff_ffff
            && dx * dx >= 0 && dy * dy >= 0) by (nonlinear_arith)
            requires
                -r <= dx <= r,
                -r <= dy <= r,
                0 <= r <= 0x7fff_ffff,
        ;
        dx * dx + dy * dy <= r * r
    }
}

} // verus!
