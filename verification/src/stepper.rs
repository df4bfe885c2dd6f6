use crate::grid::{
    cell_index, cell_inside, lemma_idx_in_range, lemma_idx_injective, neighbors_in, FieldGrid,
    Neighbors,
};
use crate::machine::{lemma_disk_in_square, Machine, Tool};
use vstd::prelude::*;

verus! {

/// The strengths that one pass pushes onto cell `(x, y)`: one for each
/// emitter or sink whose disk covers the cell, in the order of `machines`.
pub open spec fn pushes(machines: Seq<Machine>, x: int, y: int) -> Seq<i32>
    decreases machines.len(),
{
    if machines.len() == 0 {
        Seq::empty()
    } else {
        let earlier = pushes(machines.drop_last(), x, y);
        let m = machines.last();
        if m.kind != Tool::Stabilizer && m.covers(x, y) {
            earlier.push(m.strength)
        } else {
            earlier
        }
    }
}

/// How many stabilizers of `machines` cover cell `(x, y)`.
pub open spec fn stabilizers_over(machines: Seq<Machine>, x: int, y: int) -> nat
    decreases machines.len(),
{
    if machines.len() == 0 {
        0
    } else {
        let earlier = stabilizers_over(machines.drop_last(), x, y);
        let m = machines.last();
        if m.kind == Tool::Stabilizer && m.covers(x, y) {
            earlier + 1
        } else {
            earlier
        }
    }
}

/// `end` is what `push` can make of `start` when it is applied once for each
/// of `strengths`, in order, each time to the value that the call before gave.
pub open spec fn pushed<T, F: Fn(T, i32) -> T>(
    push: F,
    start: T,
    strengths: Seq<i32>,
    end: T,
) -> bool
    decreases strengths.len(),
{
    if strengths.len() == 0 {
        start == end
    } else {
        exists|mid: T|
            pushed(push, start, strengths.drop_last(), mid) && #[trigger] push.ensures(
                (mid, strengths.last()),
                end,
            )
    }
}

/// `end` is what `convert` can make of the pair `start` when it is applied
/// `times` times, each time to the pair that the call before gave.
pub open spec fn converted<T, F: Fn(T, T) -> (T, T)>(
    convert: F,
    start: (T, T),
    times: nat,
    end: (T, T),
) -> bool
    decreases times,
{
    if times == 0 {
        start == end
    } else {
        exists|mid: (T, T)|
            converted(convert, start, (times - 1) as nat, mid) && #[trigger] convert.ensures(
                mid,
                end,
            )
    }
}

/// What the pass of the emitters and sinks does: every cell's aether went
/// through `push` once for each machine that covers it, in order.
pub open spec fn machines_applied<T, F: Fn(T, i32) -> T>(
    w: int,
    h: int,
    push: F,
    machines: Seq<Machine>,
    before: Seq<T>,
    after: Seq<T>,
) -> bool {
    &&& after.len() == before.len()
    &&& forall|x: int, y: int| #![trigger cell_index(w, x, y)]
        cell_inside(w, h, x, y) ==> pushed(
            push,
            before[cell_index(w, x, y)],
            pushes(machines, x, y),
            after[cell_index(w, x, y)],
        )
}

/// What diffusion and decay do: every cell's new aether is what `rule` gave
/// for the cell's old aether and the old aether of its sides.
pub open spec fn diffused<T, F: Fn(T, Neighbors<T>) -> T>(
    w: int,
    h: int,
    rule: F,
    before: Seq<T>,
    after: Seq<T>,
) -> bool {
    &&& after.len() == before.len()
    &&& forall|x: int, y: int| #![trigger cell_index(w, x, y)]
        cell_inside(w, h, x, y) ==> rule.ensures(
            (before[cell_index(w, x, y)], neighbors_in(w, h, before, x, y)),
            after[cell_index(w, x, y)],
        )
}

/// What the pass of the stabilizers does: every cell's pair of aether and
/// crystal went through `convert` once for each stabilizer that covers it.
pub open spec fn crystallized<T, F: Fn(T, T) -> (T, T)>(
    w: int,
    h: int,
    convert: F,
    machines: Seq<Machine>,
    aether_before: Seq<T>,
    crystal_before: Seq<T>,
    aether_after: Seq<T>,
    crystal_after: Seq<T>,
) -> bool {
    &&& aether_after.len() == aether_before.len()
    &&& crystal_after.len() == crystal_before.len()
    &&& forall|x: int, y: int| #![trigger cell_index(w, x, y)]
        cell_inside(w, h, x, y) ==> converted(
            convert,
            (aether_before[cell_index(w, x, y)], crystal_before[cell_index(w, x, y)]),
            stabilizers_over(machines, x, y),
            (aether_after[cell_index(w, x, y)], crystal_after[cell_index(w, x, y)]),
        )
}

/// Every cell that `m` covers lies in the square around it.
proof fn lemma_covered_in_square(m: Machine)
    requires
        m.wf(),
    ensures
        forall|x: int, y: int| #[trigger]
            m.covers(x, y) ==> m.x - m.radius <= x <= m.x + m.radius && m.y - m.radius <= y
                <= m.y + m.radius,
{
    assert forall|x: int, y: int| #[trigger] m.covers(x, y) implies m.x - m.radius <= x <= m.x
        + m.radius && m.y - m.radius <= y <= m.y + m.radius by {
        lemma_disk_in_square(x - m.x, y - m.y, m.radius as int);
    }
}

/// Applies `push` with the strength of `m` to the aether of every cell of the
/// grid that `m` covers, once each; all other cells keep their values.
fn push_disk<T: Copy, F: Fn(T, i32) -> T>(grid: &mut FieldGrid<T>, m: &Machine, push: &F)
    requires
        old(grid).wf(),
        m.wf(),
        forall|a: T, s: i32| push.requires((a, s)),
    ensures
        final(grid).wf(),
        final(grid).w == old(grid).w,
        final(grid).h == old(grid).h,
        final(grid).crystal@ == old(grid).crystal@,
        forall|x: int, y: int| #![trigger cell_index(old(grid).w as int, x, y)]
            cell_inside(old(grid).w as int, old(grid).h as int, x, y) ==> if m.covers(x, y) {
                push.ensures(
                    (old(grid).aether@[cell_index(old(grid).w as int, x, y)], m.strength),
                    final(grid).aether@[cell_index(old(grid).w as int, x, y)],
                )
            } else {
                final(grid).aether@[cell_index(old(grid).w as int, x, y)] == old(
                    grid,
                ).aether@[cell_index(old(grid).w as int, x, y)]
            },
{
    let ghost before = grid.aether@;
    let ghost w = grid.w as int;
    let ghost h = grid.h as int;
    let r: i64 = m.radius as i64;
    let lo_x: i64 = if m.x as i64 - r < 0 { 0 } else { m.x as i64 - r };
    let hi_x: i64 = if m.x as i64 + r > grid.w as i64 - 1 {
        grid.w as i64 - 1
    } else {
        m.x as i64 + r
    };
    let lo_y: i64 = if m.y as i64 - r < 0 { 0 } else { m.y as i64 - r };
    let hi_y: i64 = if m.y as i64 + r > grid.h as i64 - 1 {
        grid.h as i64 - 1
    } else {
        m.y as i64 + r
    };
    proof {
        lemma_covered_in_square(*m);
    }
    let mut yy: i64 = lo_y;
    while yy <= hi_y
        invariant
            grid.wf(),
            grid.w == w,
            grid.h == h,
            grid.crystal@ == old(grid).crystal@,
            m.wf(),
            r == m.radius,
            forall|a: T, s: i32| push.requires((a, s)),
            0 <= lo_x,
            hi_x <= w - 1,
            lo_x == m.x - r || lo_x == 0,
            hi_x == m.x + r || hi_x == w - 1,
            0 <= lo_y <= yy,
            hi_y <= h - 1,
            lo_y == m.y - r || lo_y == 0,
            hi_y == m.y + r || hi_y == h - 1,
            forall|x: int, y: int| #[trigger]
                m.covers(x, y) ==> m.x - m.radius <= x <= m.x + m.radius && m.y - m.radius <= y
                    <= m.y + m.radius,
            forall|x: int, y: int| #![trigger cell_index(w, x, y)]
                cell_inside(w, h, x, y) ==> if y < yy && m.covers(x, y) {
                    push.ensures(
                        (before[cell_index(w, x, y)], m.strength),
                        grid.aether@[cell_index(w, x, y)],
                    )
                } else {
                    grid.aether@[cell_index(w, x, y)] == before[cell_index(w, x, y)]
                },
        decreases hi_y + 1 - yy,
    {
        let mut xx: i64 = lo_x;
        while xx <= hi_x
            invariant
                grid.wf(),
                grid.w == w,
                grid.h == h,
                grid.crystal@ == old(grid).crystal@,
                m.wf(),
                r == m.radius,
                forall|a: T, s: i32| push.requires((a, s)),
                0 <= lo_x <= xx,
                hi_x <= w - 1,
                0 <= yy <= hi_y,
                hi_y <= h - 1,
                forall|x: int, y: int| #[trigger]
                    m.covers(x, y) ==> m.x - m.radius <= x <= m.x + m.radius && m.y - m.radius
                        <= y <= m.y + m.radius,
                forall|x: int, y: int| #![trigger cell_index(w, x, y)]
                    cell_inside(w, h, x, y) ==> if (y < yy || (y == yy && x < xx)) && m.covers(
                        x,
                        y,
                    ) {
                        push.ensures(
                            (before[cell_index(w, x, y)], m.strength),
                            grid.aether@[cell_index(w, x, y)],
                        )
                    } else {
                        grid.aether@[cell_index(w, x, y)] == before[cell_index(w, x, y)]
                    },
            decreases hi_x + 1 - xx,
        {
            if m.reaches(xx as i32, yy as i32) {
                let i = grid.idx(xx as i32, yy as i32);
                let a = grid.aether[i];
                let b = push(a, m.strength);
                let ghost prev = grid.aether@;
                grid.aether.set(i, b);
                proof {
                    assert(i == cell_index(w, xx as int, yy as int));
                    assert(a == before[cell_index(w, xx as int, yy as int)]);
                    assert forall|x: int, y: int| #![trigger cell_index(w, x, y)]
                        cell_inside(w, h, x, y) implies if (y < yy || (y == yy && x < xx + 1))
                        && m.covers(x, y) {
                        push.ensures(
                            (before[cell_index(w, x, y)], m.strength),
                            grid.aether@[cell_index(w, x, y)],
                        )
                    } else {
                        grid.aether@[cell_index(w, x, y)] == before[cell_index(w, x, y)]
                    } by {
                        lemma_idx_in_range(w, h, x, y);
                        if !(x == xx && y == yy) {
                            if cell_index(w, x, y) == i {
                                lemma_idx_injective(w, x, y, xx as int, yy as int);
                            }
                            assert(grid.aether@[cell_index(w, x, y)] == prev[cell_index(w, x, y)]);
                        }
                    }
                }
            }
            xx = xx + 1;
        }
        yy = yy + 1;
    }
}

/// The pass of the emitters and sinks. Each machine in turn has `push` applied
/// to the aether of every in-bounds cell of its disk, with the machine's
/// strength; a later machine sees what the earlier ones left. Stabilizers and
/// the crystal are left alone.
pub fn apply_machines_to_field<T: Copy, F: Fn(T, i32) -> T>(
    grid: &mut FieldGrid<T>,
    machines: &Vec<Machine>,
    push: F,
)
    requires
        old(grid).wf(),
        forall|k: int| 0 <= k < machines@.len() ==> (#[trigger] machines@[k]).wf(),
        forall|a: T, s: i32| push.requires((a, s)),
    ensures
        final(grid).wf(),
        final(grid).w == old(grid).w,
        final(grid).h == old(grid).h,
        final(grid).crystal@ == old(grid).crystal@,
        machines_applied(
            old(grid).w as int,
            old(grid).h as int,
            push,
            machines@,
            old(grid).aether@,
            final(grid).aether@,
        ),
{
    let ghost start = grid.aether@;
    let ghost w = grid.w as int;
    let ghost h = grid.h as int;
    let mut k: usize = 0;
    while k < machines.len()
        invariant
            grid.wf(),
            grid.w == w,
            grid.h == h,
            grid.crystal@ == old(grid).crystal@,
            k <= machines@.len(),
            forall|k: int| 0 <= k < machines@.len() ==> (#[trigger] machines@[k]).wf(),
            forall|a: T, s: i32| push.requires((a, s)),
            machines_applied(w, h, push, machines@.take(k as int), start, grid.aether@),
        decreases machines@.len() - k,
    {
        let ghost before = grid.aether@;
        let ghost done = machines@.take(k as int);
        let m = &machines[k];
        match m.kind {
            Tool::Emitter | Tool::Sink => {
                push_disk(grid, m, &push);
            },
            Tool::Stabilizer => {},
        }
        proof {
            let now = machines@.take(k + 1);
            assert(now.drop_last() =~= done);
            assert(now.last() == *m);
            assert forall|x: int, y: int| #![trigger cell_index(w, x, y)]
                cell_inside(w, h, x, y) implies pushed(
                push,
                start[cell_index(w, x, y)],
                pushes(now, x, y),
                grid.aether@[cell_index(w, x, y)],
            ) by {
                let c = cell_index(w, x, y);
                if m.kind != Tool::Stabilizer && m.covers(x, y) {
                    lemma_pushed_once_more(
                        push,
                        start[c],
                        pushes(done, x, y),
                        before[c],
                        m.strength,
                        grid.aether@[c],
                    );
                }
            }
        }
        k = k + 1;
    }
    proof {
        assert(machines@.take(k as int) =~= machines@);
    }
}

/// One more application of `push` extends a chain of applications.
pub proof fn lemma_pushed_once_more<T, F: Fn(T, i32) -> T>(
    push: F,
    start: T,
    strengths: Seq<i32>,
    mid: T,
    s: i32,
    end: T,
)
    requires
        pushed(push, start, strengths, mid),
        push.ensures((mid, s), end),
    ensures
        pushed(push, start, strengths.push(s), end),
{
    let longer = strengths.push(s);
    assert(longer.drop_last() =~= strengths);
    assert(pushed(push, start, longer.drop_last(), mid) && push.ensures(
        (mid, longer.last()),
        end,
    ));
}

/// Cells come in the arrays row by row, and from left to right within a row.
pub proof fn lemma_row_major_order(w: int, x1: int, y1: int, x2: int, y2: int)
    requires
        0 <= x1 < w,
        0 <= x2 < w,
        y1 < y2 || (y1 == y2 && x1 < x2),
    ensures
        cell_index(w, x1, y1) < cell_index(w, x2, y2),
{
    assert(y1 * w + x1 < y2 * w + x2) by (nonlinear_arith)
        requires
            0 <= x1 < w,
            0 <= x2 < w,
            y1 < y2 || (y1 == y2 && x1 < x2),
    {
        if y1 < y2 {
            assert((y1 + 1) * w <= y2 * w);
        }
    }
}

/// Diffusion and decay, as one simultaneous update: `rule` is called once for
/// every cell, with the cell's aether and the aether of its in-bounds sides as
/// they were before the pass, and what it returns becomes the cell's aether.
/// The crystal is left alone.
pub fn diffuse_and_decay_field<T: Copy, F: Fn(T, Neighbors<T>) -> T>(
    grid: &mut FieldGrid<T>,
    rule: F,
)
    requires
        old(grid).wf(),
        forall|c: T, around: Neighbors<T>| rule.requires((c, around)),
    ensures
        final(grid).wf(),
        final(grid).w == old(grid).w,
        final(grid).h == old(grid).h,
        final(grid).crystal@ == old(grid).crystal@,
        diffused(
            old(grid).w as int,
            old(grid).h as int,
            rule,
            old(grid).aether@,
            final(grid).aether@,
        ),
{
    let ghost before = grid.aether@;
    let ghost w = grid.w as int;
    let ghost h = grid.h as int;
    let mut next: Vec<T> = Vec::new();
    let mut y: i32 = 0;
    while y < grid.h
        invariant
            grid.wf(),
            grid.w == w,
            grid.h == h,
            grid.aether@ == before,
            grid.crystal@ == old(grid).crystal@,
            0 <= y <= h,
            next@.len() == y * w,
            forall|c: T, around: Neighbors<T>| rule.requires((c, around)),
            forall|cx: int, cy: int| #![trigger cell_index(w, cx, cy)]
                cell_inside(w, h, cx, cy) && cy < y ==> rule.ensures(
                    (before[cell_index(w, cx, cy)], neighbors_in(w, h, before, cx, cy)),
                    next@[cell_index(w, cx, cy)],
                ),
        decreases h - y,
    {
        let mut x: i32 = 0;
        while x < grid.w
            invariant
                grid.wf(),
                grid.w == w,
                grid.h == h,
                grid.aether@ == before,
                grid.crystal@ == old(grid).crystal@,
                0 <= y < h,
                0 <= x <= w,
                next@.len() == y * w + x,
                forall|c: T, around: Neighbors<T>| rule.requires((c, around)),
                forall|cx: int, cy: int| #![trigger cell_index(w, cx, cy)]
                    cell_inside(w, h, cx, cy) && (cy < y || (cy == y && cx < x))
                        ==> rule.ensures(
                        (before[cell_index(w, cx, cy)], neighbors_in(w, h, before, cx, cy)),
                        next@[cell_index(w, cx, cy)],
                    ),
            decreases w - x,
        {
            let i = grid.idx(x, y);
            let c = grid.aether[i];
            let around = grid.neighbors(x, y);
            let v = rule(c, around);
            let ghost prev = next@;
            next.push(v);
            proof {
                assert(i == prev.len());
                assert forall|cx: int, cy: int| #![trigger cell_index(w, cx, cy)]
                    cell_inside(w, h, cx, cy) && (cy < y || (cy == y && cx < x + 1))
                    implies rule.ensures(
                    (before[cell_index(w, cx, cy)], neighbors_in(w, h, before, cx, cy)),
                    next@[cell_index(w, cx, cy)],
                ) by {
                    if !(cx == x && cy == y) {
                        lemma_row_major_order(w, cx, cy, x as int, y as int);
                        assert(next@[cell_index(w, cx, cy)] == prev[cell_index(w, cx, cy)]);
                    }
                }
            }
            x = x + 1;
        }
        proof {
            assert((y + 1) * w == y * w + w) by (nonlinear_arith);
        }
        y = y + 1;
    }
    proof {
        assert(h * w == w * h) by (nonlinear_arith);
    }
    grid.aether = next;
}

/// Applies `convert` to the aether and crystal of every cell of the grid that
/// `m` covers, once each; all other cells keep their values.
fn convert_disk<T: Copy, F: Fn(T, T) -> (T, T)>(grid: &mut FieldGrid<T>, m: &Machine, convert: &F)
    requires
        old(grid).wf(),
        m.wf(),
        forall|a: T, c: T| convert.requires((a, c)),
    ensures
        final(grid).wf(),
        final(grid).w == old(grid).w,
        final(grid).h == old(grid).h,
        forall|x: int, y: int| #![trigger cell_index(old(grid).w as int, x, y)]
            cell_inside(old(grid).w as int, old(grid).h as int, x, y) ==> if m.covers(x, y) {
                convert.ensures(
                    (
                        old(grid).aether@[cell_index(old(grid).w as int, x, y)],
                        old(grid).crystal@[cell_index(old(grid).w as int, x, y)],
                    ),
                    (
                        final(grid).aether@[cell_index(old(grid).w as int, x, y)],
                        final(grid).crystal@[cell_index(old(grid).w as int, x, y)],
                    ),
                )
            } else {
                &&& final(grid).aether@[cell_index(old(grid).w as int, x, y)] == old(
                    grid,
                ).aether@[cell_index(old(grid).w as int, x, y)]
                &&& final(grid).crystal@[cell_index(old(grid).w as int, x, y)] == old(
                    grid,
                ).crystal@[cell_index(old(grid).w as int, x, y)]
            },
{
    let ghost a0 = grid.aether@;
    let ghost c0 = grid.crystal@;
    let ghost w = grid.w as int;
    let ghost h = grid.h as int;
    let r: i64 = m.radius as i64;
    let lo_x: i64 = if m.x as i64 - r < 0 { 0 } else { m.x as i64 - r };
    let hi_x: i64 = if m.x as i64 + r > grid.w as i64 - 1 {
        grid.w as i64 - 1
    } else {
        m.x as i64 + r
    };
    let lo_y: i64 = if m.y as i64 - r < 0 { 0 } else { m.y as i64 - r };
    let hi_y: i64 = if m.y as i64 + r > grid.h as i64 - 1 {
        grid.h as i64 - 1
    } else {
        m.y as i64 + r
    };
    proof {
        lemma_covered_in_square(*m);
    }
    let mut yy: i64 = lo_y;
    while yy <= hi_y
        invariant
            grid.wf(),
            grid.w == w,
            grid.h == h,
            m.wf(),
            r == m.radius,
            forall|a: T, c: T| convert.requires((a, c)),
            0 <= lo_x,
            hi_x <= w - 1,
            lo_x == m.x - r || lo_x == 0,
            hi_x == m.x + r || hi_x == w - 1,
            0 <= lo_y <= yy,
            hi_y <= h - 1,
            lo_y == m.y - r || lo_y == 0,
            hi_y == m.y + r || hi_y == h - 1,
            forall|x: int, y: int| #[trigger]
                m.covers(x, y) ==> m.x - m.radius <= x <= m.x + m.radius && m.y - m.radius <= y
                    <= m.y + m.radius,
            forall|x: int, y: int| #![trigger cell_index(w, x, y)]
                cell_inside(w, h, x, y) ==> if y < yy && m.covers(x, y) {
                    convert.ensures(
                        (a0[cell_index(w, x, y)], c0[cell_index(w, x, y)]),
                        (grid.aether@[cell_index(w, x, y)], grid.crystal@[cell_index(w, x, y)]),
                    )
                } else {
                    &&& grid.aether@[cell_index(w, x, y)] == a0[cell_index(w, x, y)]
                    &&& grid.crystal@[cell_index(w, x, y)] == c0[cell_index(w, x, y)]
                },
        decreases hi_y + 1 - yy,
    {
        let mut xx: i64 = lo_x;
        while xx <= hi_x
            invariant
                grid.wf(),
                grid.w == w,
                grid.h == h,
                m.wf(),
                r == m.radius,
                forall|a: T, c: T| convert.requires((a, c)),
                0 <= lo_x <= xx,
                hi_x <= w - 1,
                0 <= yy <= hi_y,
                hi_y <= h - 1,
                forall|x: int, y: int| #[trigger]
                    m.covers(x, y) ==> m.x - m.radius <= x <= m.x + m.radius && m.y - m.radius
                        <= y <= m.y + m.radius,
                forall|x: int, y: int| #![trigger cell_index(w, x, y)]
                    cell_inside(w, h, x, y) ==> if (y < yy || (y == yy && x < xx)) && m.covers(
                        x,
                        y,
                    ) {
                        convert.ensures(
                            (a0[cell_index(w, x, y)], c0[cell_index(w, x, y)]),
                            (
                                grid.aether@[cell_index(w, x, y)],
                                grid.crystal@[cell_index(w, x, y)],
                            ),
                        )
                    } else {
                        &&& grid.aether@[cell_index(w, x, y)] == a0[cell_index(w, x, y)]
                        &&& grid.crystal@[cell_index(w, x, y)] == c0[cell_index(w, x, y)]
                    },
            decreases hi_x + 1 - xx,
        {
            if m.reaches(xx as i32, yy as i32) {
                let i = grid.idx(xx as i32, yy as i32);
                let a = grid.aether[i];
                let c = grid.crystal[i];
                let (a_new, c_new) = convert(a, c);
                let ghost a_prev = grid.aether@;
                let ghost c_prev = grid.crystal@;
                grid.aether.set(i, a_new);
                grid.crystal.set(i, c_new);
                proof {
                    assert(i == cell_index(w, xx as int, yy as int));
                    assert(a == a0[cell_index(w, xx as int, yy as int)]);
                    assert(c == c0[cell_index(w, xx as int, yy as int)]);
                    assert forall|x: int, y: int| #![trigger cell_index(w, x, y)]
                        cell_inside(w, h, x, y) implies if (y < yy || (y == yy && x < xx + 1))
                        && m.covers(x, y) {
                        convert.ensures(
                            (a0[cell_index(w, x, y)], c0[cell_index(w, x, y)]),
                            (
                                grid.aether@[cell_index(w, x, y)],
                                grid.crystal@[cell_index(w, x, y)],
                            ),
                        )
                    } else {
                        &&& grid.aether@[cell_index(w, x, y)] == a0[cell_index(w, x, y)]
                        &&& grid.crystal@[cell_index(w, x, y)] == c0[cell_index(w, x, y)]
                    } by {
                        lemma_idx_in_range(w, h, x, y);
                        if !(x == xx && y == yy) {
                            if cell_index(w, x, y) == i {
                                lemma_idx_injective(w, x, y, xx as int, yy as int);
                            }
                            assert(grid.aether@[cell_index(w, x, y)] == a_prev[cell_index(
                                w,
                                x,
                                y,
                            )]);
                            assert(grid.crystal@[cell_index(w, x, y)] == c_prev[cell_index(
                                w,
                                x,
                                y,
                            )]);
                        }
                    }
                }
            }
            xx = xx + 1;
        }
        yy = yy + 1;
    }
}

/// One more application of `convert` extends a chain of applications.
pub proof fn lemma_converted_once_more<T, F: Fn(T, T) -> (T, T)>(
    convert: F,
    start: (T, T),
    times: nat,
    mid: (T, T),
    end: (T, T),
)
    requires
        converted(convert, start, times, mid),
        convert.ensures(mid, end),
    ensures
        converted(convert, start, times + 1, end),
{
    assert((times + 1 - 1) as nat == times);
}

/// The pass of the stabilizers. Each stabilizer in turn has `convert` applied
/// to the aether and crystal of every in-bounds cell of its disk; a later
/// stabilizer sees what the earlier ones left. Emitters and sinks do nothing
/// here.
pub fn stabilizers_make_crystal<T: Copy, F: Fn(T, T) -> (T, T)>(
    grid: &mut FieldGrid<T>,
    machines: &Vec<Machine>,
    convert: F,
)
    requires
        old(grid).wf(),
        forall|k: int| 0 <= k < machines@.len() ==> (#[trigger] machines@[k]).wf(),
        forall|a: T, c: T| convert.requires((a, c)),
    ensures
        final(grid).wf(),
        final(grid).w == old(grid).w,
        final(grid).h == old(grid).h,
        crystallized(
            old(grid).w as int,
            old(grid).h as int,
            convert,
            machines@,
            old(grid).aether@,
            old(grid).crystal@,
            final(grid).aether@,
            final(grid).crystal@,
        ),
{
    let ghost a0 = grid.aether@;
    let ghost c0 = grid.crystal@;
    let ghost w = grid.w as int;
    let ghost h = grid.h as int;
    let mut k: usize = 0;
    while k < machines.len()
        invariant
            grid.wf(),
            grid.w == w,
            grid.h == h,
            k <= machines@.len(),
            forall|k: int| 0 <= k < machines@.len() ==> (#[trigger] machines@[k]).wf(),
            forall|a: T, c: T| convert.requires((a, c)),
            crystallized(
                w,
                h,
                convert,
                machines@.take(k as int),
                a0,
                c0,
                grid.aether@,
                grid.crystal@,
            ),
        decreases machines@.len() - k,
    {
        let ghost a1 = grid.aether@;
        let ghost c1 = grid.crystal@;
        let ghost done = machines@.take(k as int);
        let m = &machines[k];
        match m.kind {
            Tool::Stabilizer => {
                convert_disk(grid, m, &convert);
            },
            Tool::Emitter | Tool::Sink => {},
        }
        proof {
            let now = machines@.take(k + 1);
            assert(now.drop_last() =~= done);
            assert(now.last() == *m);
            assert forall|x: int, y: int| #![trigger cell_index(w, x, y)]
                cell_inside(w, h, x, y) implies converted(
                convert,
                (a0[cell_index(w, x, y)], c0[cell_index(w, x, y)]),
                stabilizers_over(now, x, y),
                (grid.aether@[cell_index(w, x, y)], grid.crystal@[cell_index(w, x, y)]),
            ) by {
                let c = cell_index(w, x, y);
                if m.kind == Tool::Stabilizer && m.covers(x, y) {
                    lemma_converted_once_more(
                        convert,
                        (a0[c], c0[c]),
                        stabilizers_over(done, x, y),
                        (a1[c], c1[c]),
                        (grid.aether@[c], grid.crystal@[c]),
                    );
                }
            }
        }
        k = k + 1;
    }
    proof {
        assert(machines@.take(k as int) =~= machines@);
    }
}

/// What one tick does: the pass of the emitters and sinks, then diffusion and
/// decay, then the pass of the stabilizers, each on what the pass before left.
pub open spec fn ticked<T, P: Fn(T, i32) -> T, R: Fn(T, Neighbors<T>) -> T, C: Fn(T, T) -> (T, T)>(
    w: int,
    h: int,
    push: P,
    rule: R,
    convert: C,
    machines: Seq<Machine>,
    aether_before: Seq<T>,
    crystal_before: Seq<T>,
    aether_after: Seq<T>,
    crystal_after: Seq<T>,
) -> bool {
    exists|fed: Seq<T>, spread: Seq<T>|
        {
            &&& machines_applied(w, h, push, machines, aether_before, fed)
            &&& #[trigger] diffused(w, h, rule, fed, spread)
            &&& crystallized(
                w,
                h,
                convert,
                machines,
                spread,
                crystal_before,
                aether_after,
                crystal_after,
            )
        }
}

/// Advances the grid by one tick: the three passes, in their fixed order.
pub fn tick<T: Copy, P: Fn(T, i32) -> T, R: Fn(T, Neighbors<T>) -> T, C: Fn(T, T) -> (T, T)>(
    grid: &mut FieldGrid<T>,
    machines: &Vec<Machine>,
    push: P,
    rule: R,
    convert: C,
)
    requires
        old(grid).wf(),
        forall|k: int| 0 <= k < machines@.len() ==> (#[trigger] machines@[k]).wf(),
        forall|a: T, s: i32| push.requires((a, s)),
        forall|c: T, around: Neighbors<T>| rule.requires((c, around)),
        forall|a: T, c: T| convert.requires((a, c)),
    ensures
        final(grid).wf(),
        final(grid).w == old(grid).w,
        final(grid).h == old(grid).h,
        ticked(
            old(grid).w as int,
            old(grid).h as int,
            push,
            rule,
            convert,
            machines@,
            old(grid).aether@,
            old(grid).crystal@,
            final(grid).aether@,
            final(grid).crystal@,
        ),
{
    apply_machines_to_field(grid, machines, push);
    let ghost fed = grid.aether@;
    diffuse_and_decay_field(grid, rule);
    let ghost spread = grid.aether@;
    stabilizers_make_crystal(grid, machines, convert);
    proof {
        assert(diffused(old(grid).w as int, old(grid).h as int, rule, fed, spread));
    }
}

} // verus!
