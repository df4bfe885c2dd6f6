use vstd::prelude::*;

verus! {

/// The aether values of the four cells beside a cell. A side that lies
/// outside the grid is `None`: it is absent, not zero.
pub struct Neighbors<T> {
    pub left: Option<T>,
    pub right: Option<T>,
    pub up: Option<T>,
    pub down: Option<T>,
}

impl<T> Neighbors<T> {
    /// How many of the four sides lie inside the grid.
    pub open spec fn count(&self) -> nat {
        let l: nat = if self.left.is_some() { 1 } else { 0 };
        let r: nat = if self.right.is_some() { 1 } else { 0 };
        let u: nat = if self.up.is_some() { 1 } else { 0 };
        let d: nat = if self.down.is_some() { 1 } else { 0 };
        l + r + u + d
    }
}

/// A `w` by `h` grid. Cell `(x, y)` lives at position `y * w + x` of both
/// `aether` and `crystal`.
pub struct FieldGrid<T> {
    pub w: i32,
    pub h: i32,
    pub aether: Vec<T>,
    pub crystal: Vec<T>,
}

/// The position of cell `(x, y)` in the arrays of a grid that is `w` wide.
pub open spec fn cell_index(w: int, x: int, y: int) -> int {
    y * w + x
}

/// Whether `(x, y)` names a cell of a `w` by `h` grid.
pub open spec fn cell_inside(w: int, h: int, x: int, y: int) -> bool {
    0 <= x < w && 0 <= y < h
}

/// The value of `cells` at `(x, y)`, or `None` outside the grid.
pub open spec fn cell_in<T>(w: int, h: int, cells: Seq<T>, x: int, y: int) -> Option<T> {
    if cell_inside(w, h, x, y) {
        Some(cells[cell_index(w, x, y)])
    } else {
        None
    }
}

/// The four sides of `(x, y)`, read from `cells`.
pub open spec fn neighbors_in<T>(w: int, h: int, cells: Seq<T>, x: int, y: int) -> Neighbors<T> {
    Neighbors {
        left: cell_in(w, h, cells, x - 1, y),
        right: cell_in(w, h, cells, x + 1, y),
        up: cell_in(w, h, cells, x, y - 1),
        down: cell_in(w, h, cells, x, y + 1),
    }
}

/// Two cells of one grid that share a position in the arrays are the same cell.
pub proof fn lemma_idx_injective(w: int, x1: int, y1: int, x2: int, y2: int)
    requires
        0 <= x1 < w,
        0 <= x2 < w,
        y1 * w + x1 == y2 * w + x2,
    ensures
        x1 == x2,
        y1 == y2,
{
    assert(y1 == y2) by (nonlinear_arith)
        requires
            0 <= x1 < w,
            0 <= x2 < w,
            y1 * w + x1 == y2 * w + x2,
    {
        if y1 > y2 {
            assert((y1 - y2) * w >= w);
        } else if y1 < y2 {
            assert((y2 - y1) * w >= w);
        }
    }
}

/// The position of an in-bounds cell lies inside the arrays.
pub proof fn lemma_idx_in_range(w: int, h: int, x: int, y: int)
    requires
        0 <= x < w,
        0 <= y < h,
    ensures
        0 <= y * w + x < w * h,
{
    assert(0 <= y * w + x < w * h) by (nonlinear_arith)
        requires
            0 <= x < w,
            0 <= y < h,
    {
        assert((y + 1) * w <= h * w);
    }
}

/// Where cell `(x, y)` of a `w` by `h` grid stands in the world, in cell
/// spacings along each axis from the cell `(w / 2, h / 2)`.
pub open spec fn world_of(x: int, y: int, w: int, h: int) -> (int, int) {
    (x - w / 2, y - h / 2)
}

/// The world position of an in-bounds cell, in whole cell spacings along each
/// axis; the cell `(w / 2, h / 2)` stands at the origin.
pub fn cell_world(x: i32, y: i32, w: i32, h: i32) -> (at: (i32, i32))
    requires
        cell_inside(w as int, h as int, x as int, y as int),
    ensures
        (at.0 as int, at.1 as int) == world_of(x as int, y as int, w as int, h as int),
{
    (x - w / 2, y - h / 2)
}

/// Different cells stand at different world positions, so a machine's world
/// position tells its cell.
pub proof fn lemma_world_positions_differ(x1: int, y1: int, x2: int, y2: int, w: int, h: int)
    requires
        world_of(x1, y1, w, h) == world_of(x2, y2, w, h),
    ensures
        x1 == x2,
        y1 == y2,
{
}

/// A corner cell of a grid with at least two rows and two columns has exactly
/// two sides inside the grid: the two that point inward. The other two are
/// absent.
pub proof fn lemma_corner_has_two_sides<T>(w: int, h: int, cells: Seq<T>, x: int, y: int)
    requires
        w >= 2,
        h >= 2,
        x == 0 || x == w - 1,
        y == 0 || y == h - 1,
    ensures
        neighbors_in(w, h, cells, x, y).count() == 2,
        neighbors_in(w, h, cells, x, y).left.is_some() <==> x == w - 1,
        neighbors_in(w, h, cells, x, y).right.is_some() <==> x == 0,
        neighbors_in(w, h, cells, x, y).up.is_some() <==> y == h - 1,
        neighbors_in(w, h, cells, x, y).down.is_some() <==> y == 0,
{
}

impl<T: Copy> FieldGrid<T> {
    /// The dimensions are positive, the cell count fits an `i32`, and both
    /// arrays hold one value per cell.
    pub open spec fn wf(&self) -> bool {
        &&& self.w > 0
        &&& self.h > 0
        &&& self.w * self.h <= i32::MAX
        &&& self.aether@.len() == self.w * self.h
        &&& self.crystal@.len() == self.w * self.h
    }

    pub open spec fn spec_in_bounds(&self, x: int, y: int) -> bool {
        cell_inside(self.w as int, self.h as int, x, y)
    }

    pub open spec fn spec_idx(&self, x: int, y: int) -> int {
        cell_index(self.w as int, x, y)
    }

    /// A grid of `w * h` cells that all hold `zero`, or `None` where a
    /// dimension is not positive or the cell count does not fit an `i32`.
    pub fn new(w: i32, h: i32, zero: T) -> (out: Option<Self>)
        ensures
            out.is_some() <==> (w > 0 && h > 0 && w * h <= i32::MAX),
            out matches Some(g) ==> {
                &&& g.wf()
                &&& g.w == w
                &&& g.h == h
                &&& g.aether@ == Seq::new((w * h) as nat, |i: int| zero)
                &&& g.crystal@ == Seq::new((w * h) as nat, |i: int| zero)
            },
    {
        if w <= 0 || h <= 0 {
            return None;
        }
        assert(0 < w * h <= 0x7fff_ffff * 0x7fff_ffff) by (nonlinear_arith)
            requires
                0 < w <= 0x7fff_ffff,
                0 < h <= 0x7fff_ffff,
        ;
        let cells: i64 = (w as i64) * (h as i64);
        if cells > i32::MAX as i64 {
            return None;
        }
        let n: usize = cells as usize;
        let mut aether: Vec<T> = Vec::new();
        let mut crystal: Vec<T> = Vec::new();
        let mut i: usize = 0;
        while i < n
            invariant
                i <= n,
                aether@ == Seq::new(i as nat, |j: int| zero),
                crystal@ == Seq::new(i as nat, |j: int| zero),
            decreases n - i,
        {
            aether.push(zero);
            crystal.push(zero);
            i = i + 1;
            assert(aether@ =~= Seq::new(i as nat, |j: int| zero));
            assert(crystal@ =~= Seq::new(i as nat, |j: int| zero));
        }
        Some(FieldGrid { w, h, aether, crystal })
    }

    /// Whether `(x, y)` names a cell of the grid.
    pub fn in_bounds(&self, x: i32, y: i32) -> (inside: bool)
        ensures
            inside == self.spec_in_bounds(x as int, y as int),
    {
        x >= 0 && y >= 0 && x < self.w && y < self.h
    }

    /// The position of cell `(x, y)` in the arrays.
    pub fn idx(&self, x: i32, y: i32) -> (i: usize)
        requires
            self.wf(),
            self.spec_in_bounds(x as int, y as int),
        ensures
            i == self.spec_idx(x as int, y as int),
            i < self.aether@.len(),
            i < self.crystal@.len(),
    {
        proof {
            lemma_idx_in_range(self.w as int, self.h as int, x as int, y as int);
        }
        let at: i64 = (y as i64) * (self.w as i64) + (x as i64);
        at as usize
    }

    /// The aether values beside `(x, y)`: left, right, up (`y - 1`) and down
    /// (`y + 1`), each present exactly when that cell is in bounds.
    pub fn neighbors(&self, x: i32, y: i32) -> (around: Neighbors<T>)
        requires
            self.wf(),
            self.spec_in_bounds(x as int, y as int),
        ensures
            around == neighbors_in(self.w as int, self.h as int, self.aether@, x as int, y as int),
    {
        let left = if x > 0 {
            Some(self.aether[self.idx(x - 1, y)])
        } else {
            None
        };
        let right = if x < self.w - 1 {
            Some(self.aether[self.idx(x + 1, y)])
        } else {
            None
        };
        let up = if y > 0 {
            Some(self.aether[self.idx(x, y - 1)])
        } else {
            None
        };
        let down = if y < self.h - 1 {
            Some(self.aether[self.idx(x, y + 1)])
        } else {
            None
        };
        Neighbors { left, right, up, down }
    }
}

} // verus!
