use crate::grid::{cell_index, cell_inside, neighbors_in, Neighbors};
use crate::machine::{Machine, Tool};
use crate::stepper::{
    converted, crystallized, diffused, machines_applied, pushed, pushes, stabilizers_over, ticked,
};
use vstd::arithmetic::div_mod::{
    lemma_div_pos_is_pos, lemma_fundamental_div_mod, lemma_mod_pos_bound,
};
use vstd::prelude::*;

verus! {

/// A property that everything `push` returns has holds of the end of every
/// chain of at least one application; the end of an empty chain is its start.
pub proof fn lemma_pushed_keeps<T, F: Fn(T, i32) -> T>(
    push: F,
    start: T,
    strengths: Seq<i32>,
    end: T,
    bound: spec_fn(T) -> bool,
)
    requires
        pushed(push, start, strengths, end),
        strengths.len() == 0 ==> bound(start),
        forall|a: T, s: i32, r: T| #[trigger] push.ensures((a, s), r) ==> bound(r),
    ensures
        bound(end),
        strengths.len() == 0 ==> end == start,
{
}

/// A property that the first value of everything `convert` returns has holds
/// of the first value at the end of every chain of at least one application;
/// the end of an empty chain is its start.
pub proof fn lemma_converted_keeps<T, F: Fn(T, T) -> (T, T)>(
    convert: F,
    start: (T, T),
    times: nat,
    end: (T, T),
    bound: spec_fn(T) -> bool,
)
    requires
        converted(convert, start, times, end),
        times == 0 ==> bound(start.0),
        forall|p: (T, T), r: (T, T)| #[trigger] convert.ensures(p, r) ==> bound(r.0),
    ensures
        bound(end.0),
        times == 0 ==> end == start,
{
}

/// Where each call of `convert` returns a second value that `le` ranks no
/// lower than the one it was given, and `le` is reflexive and transitive, the
/// second value at the end of a chain ranks no lower than at its start.
pub proof fn lemma_converted_grows<T, F: Fn(T, T) -> (T, T)>(
    convert: F,
    start: (T, T),
    times: nat,
    end: (T, T),
    le: spec_fn(T, T) -> bool,
)
    requires
        converted(convert, start, times, end),
        forall|a: T| #[trigger] le(a, a),
        forall|a: T, b: T, c: T| #[trigger] le(a, b) && #[trigger] le(b, c) ==> le(a, c),
        forall|p: (T, T), r: (T, T)| #[trigger] convert.ensures(p, r) ==> le(p.1, r.1),
    ensures
        le(start.1, end.1),
    decreases times,
{
    if times > 0 {
        let mid = choose|mid: (T, T)|
            converted(convert, start, (times - 1) as nat, mid) && #[trigger] convert.ensures(
                mid,
                end,
            );
        lemma_converted_grows(convert, start, (times - 1) as nat, mid, le);
        assert(le(mid.1, end.1));
    }
}

/// The pass of the emitters and sinks keeps every bound that `push` keeps:
/// if the aether of every cell met `bound` before the pass, and everything
/// `push` returns meets it, whatever the strength, then the aether of every
/// cell meets it after the pass.
pub proof fn lemma_machines_applied_keeps_bound<T, F: Fn(T, i32) -> T>(
    w: int,
    h: int,
    push: F,
    machines: Seq<Machine>,
    before: Seq<T>,
    after: Seq<T>,
    bound: spec_fn(T) -> bool,
)
    requires
        machines_applied(w, h, push, machines, before, after),
        forall|x: int, y: int| #![trigger cell_index(w, x, y)]
            cell_inside(w, h, x, y) ==> bound(before[cell_index(w, x, y)]),
        forall|a: T, s: i32, r: T| #[trigger] push.ensures((a, s), r) ==> bound(r),
    ensures
        forall|x: int, y: int| #![trigger cell_index(w, x, y)]
            cell_inside(w, h, x, y) ==> bound(after[cell_index(w, x, y)]),
{
    assert forall|x: int, y: int| #![trigger cell_index(w, x, y)]
        cell_inside(w, h, x, y) implies bound(after[cell_index(w, x, y)]) by {
        let c = cell_index(w, x, y);
        lemma_pushed_keeps(push, before[c], pushes(machines, x, y), after[c], bound);
    }
}

/// Diffusion and decay leave every cell within whatever bound `rule` keeps:
/// if everything `rule` returns meets `bound`, the aether of every cell meets
/// it after the pass, whatever the aether was before.
pub proof fn lemma_diffused_sets_bound<T, F: Fn(T, Neighbors<T>) -> T>(
    w: int,
    h: int,
    rule: F,
    before: Seq<T>,
    after: Seq<T>,
    bound: spec_fn(T) -> bool,
)
    requires
        diffused(w, h, rule, before, after),
        forall|c: T, around: Neighbors<T>, r: T| #[trigger]
            rule.ensures((c, around), r) ==> bound(r),
    ensures
        forall|x: int, y: int| #![trigger cell_index(w, x, y)]
            cell_inside(w, h, x, y) ==> bound(after[cell_index(w, x, y)]),
{
}

/// After a whole tick the aether of every cell meets every bound that both
/// `rule` and `convert` keep, and the crystal of no cell ranks lower than
/// before, where `convert` never lowers it.
pub proof fn lemma_ticked_keeps_bound<
    T,
    P: Fn(T, i32) -> T,
    R: Fn(T, Neighbors<T>) -> T,
    C: Fn(T, T) -> (T, T),
>(
    w: int,
    h: int,
    push: P,
    rule: R,
    convert: C,
    machines: Seq<Machine>,
    aether_before: Seq<T>,
    crystal_before: Seq<T>,
    aether_after: Seq<T>,
    crystal_after: Seq<T>,
    bound: spec_fn(T) -> bool,
    le: spec_fn(T, T) -> bool,
)
    requires
        ticked(
            w,
            h,
            push,
            rule,
            convert,
            machines,
            aether_before,
            crystal_before,
            aether_after,
            crystal_after,
        ),
        forall|c: T, around: Neighbors<T>, r: T| #[trigger]
            rule.ensures((c, around), r) ==> bound(r),
        forall|p: (T, T), r: (T, T)| #[trigger]
            convert.ensures(p, r) ==> bound(r.0) && le(p.1, r.1),
        forall|a: T| #[trigger] le(a, a),
        forall|a: T, b: T, c: T| #[trigger] le(a, b) && #[trigger] le(b, c) ==> le(a, c),
    ensures
        forall|x: int, y: int| #![trigger cell_index(w, x, y)]
            cell_inside(w, h, x, y) ==> bound(aether_after[cell_index(w, x, y)]) && le(
                crystal_before[cell_index(w, x, y)],
                crystal_after[cell_index(w, x, y)],
            ),
{
    let (fed, spread) = choose|fed: Seq<T>, spread: Seq<T>|
        {
            &&& machines_applied(w, h, push, machines, aether_before, fed)
            &&& #[trigger] diffused(w, h, rule, fed, spread)
            &&& crystallized(
                w,
                h,
                convert,
                machines,
                spread,
                crystal_before,
                aether_after,
                crystal_after,
            )
        };
    lemma_diffused_sets_bound(w, h, rule, fed, spread, bound);
    assert forall|x: int, y: int| #![trigger cell_index(w, x, y)]
        cell_inside(w, h, x, y) implies bound(aether_after[cell_index(w, x, y)]) && le(
        crystal_before[cell_index(w, x, y)],
        crystal_after[cell_index(w, x, y)],
    ) by {
        let c = cell_index(w, x, y);
        let n = stabilizers_over(machines, x, y);
        lemma_converted_keeps(
            convert,
            (spread[c], crystal_before[c]),
            n,
            (aether_after[c], crystal_after[c]),
            bound,
        );
        lemma_converted_grows(
            convert,
            (spread[c], crystal_before[c]),
            n,
            (aether_after[c], crystal_after[c]),
            le,
        );
    }
}

/// A machine with a radius of at least one reaches the cell `radius` steps
/// to its right, and does not reach the corner of the square around it: its
/// reach is a disk.
pub proof fn lemma_reach_is_a_disk(m: Machine)
    requires
        m.radius >= 1,
    ensures
        m.covers(m.x + m.radius, m.y as int),
        !m.covers(m.x + m.radius, m.y + m.radius),
        m.kind != Tool::Stabilizer ==> pushes(seq![m], m.x + m.radius, m.y as int) == seq![
            m.strength,
        ] && pushes(seq![m], m.x + m.radius, m.y + m.radius) == Seq::<i32>::empty(),
        m.kind == Tool::Stabilizer ==> stabilizers_over(seq![m], m.x + m.radius, m.y as int) == 1
            && stabilizers_over(seq![m], m.x + m.radius, m.y + m.radius) == 0,
{
    let r = m.radius as int;
    assert(r * r + 0 * 0 <= r * r && r * r + r * r > r * r) by (nonlinear_arith)
        requires
            r >= 1,
    ;
    let one = seq![m];
    assert(one.drop_last() =~= Seq::<Machine>::empty());
    assert(one.last() == m);
    reveal_with_fuel(pushes, 2);
    reveal_with_fuel(stabilizers_over, 2);
    assert(pushes(one.drop_last(), m.x + m.radius, m.y as int) =~= Seq::<i32>::empty());
    assert(pushes(one.drop_last(), m.x + m.radius, m.y + m.radius) =~= Seq::<i32>::empty());
    if m.kind != Tool::Stabilizer {
        assert(pushes(one, m.x + m.radius, m.y as int) =~= seq![m.strength]);
        assert(pushes(one, m.x + m.radius, m.y + m.radius) =~= Seq::<i32>::empty());
    }
}

/// A cell that no emitter or sink covers has nothing pushed onto it, so the
/// pass of the emitters and sinks leaves its aether as it was.
pub proof fn lemma_uncovered_cell_untouched<T, F: Fn(T, i32) -> T>(
    push: F,
    machines: Seq<Machine>,
    x: int,
    y: int,
    start: T,
    end: T,
)
    requires
        forall|k: int|
            0 <= k < machines.len() ==> (#[trigger] machines[k]).kind == Tool::Stabilizer
                || !machines[k].covers(x, y),
        pushed(push, start, pushes(machines, x, y), end),
    ensures
        pushes(machines, x, y) == Seq::<i32>::empty(),
        end == start,
    decreases machines.len(),
{
    if machines.len() > 0 {
        let rest = machines.drop_last();
        assert(machines.last() == machines[machines.len() - 1]);
        assert(pushes(machines, x, y) == pushes(rest, x, y));
        lemma_uncovered_cell_untouched(push, rest, x, y, start, end);
    }
}

/// Every position of the arrays is the position of exactly one cell of the
/// grid: the cell in column `i % w` of row `i / w`.
pub proof fn lemma_every_index_is_a_cell(w: int, h: int, i: int)
    requires
        w > 0,
        h > 0,
        0 <= i < w * h,
    ensures
        cell_inside(w, h, i % w, i / w),
        cell_index(w, i % w, i / w) == i,
{
    lemma_fundamental_div_mod(i, w);
    lemma_mod_pos_bound(i, w);
    lemma_div_pos_is_pos(i, w);
    let q = i / w;
    let r = i % w;
    assert(q < h && q * w + r == i) by (nonlinear_arith)
        requires
            w > 0,
            0 <= r < w,
            0 <= q,
            i == w * q + r,
            i < w * h,
    {
        if q >= h {
            assert(w * q >= w * h);
        }
    }
}

/// `push` returns one value for each pair of a value and a strength.
pub open spec fn push_is_single_valued<T, F: Fn(T, i32) -> T>(push: F) -> bool {
    forall|a: T, s: i32, r1: T, r2: T|
        #![trigger push.ensures((a, s), r1), push.ensures((a, s), r2)]
        push.ensures((a, s), r1) && push.ensures((a, s), r2) ==> r1 == r2
}

/// `rule` returns one value for each pair of a value and its sides.
pub open spec fn rule_is_single_valued<T, F: Fn(T, Neighbors<T>) -> T>(rule: F) -> bool {
    forall|c: T, around: Neighbors<T>, r1: T, r2: T|
        #![trigger rule.ensures((c, around), r1), rule.ensures((c, around), r2)]
        rule.ensures((c, around), r1) && rule.ensures((c, around), r2) ==> r1 == r2
}

/// `convert` returns one pair for each pair of aether and crystal.
pub open spec fn convert_is_single_valued<T, F: Fn(T, T) -> (T, T)>(convert: F) -> bool {
    forall|p: (T, T), r1: (T, T), r2: (T, T)|
        #![trigger convert.ensures(p, r1), convert.ensures(p, r2)]
        convert.ensures(p, r1) && convert.ensures(p, r2) ==> r1 == r2
}

/// With a single-valued `push`, a chain of applications has one end.
pub proof fn lemma_pushed_is_determined<T, F: Fn(T, i32) -> T>(
    push: F,
    start: T,
    strengths: Seq<i32>,
    end1: T,
    end2: T,
)
    requires
        push_is_single_valued(push),
        pushed(push, start, strengths, end1),
        pushed(push, start, strengths, end2),
    ensures
        end1 == end2,
    decreases strengths.len(),
{
    if strengths.len() > 0 {
        let mid1 = choose|mid: T|
            pushed(push, start, strengths.drop_last(), mid) && #[trigger] push.ensures(
                (mid, strengths.last()),
                end1,
            );
        let mid2 = choose|mid: T|
            pushed(push, start, strengths.drop_last(), mid) && #[trigger] push.ensures(
                (mid, strengths.last()),
                end2,
            );
        lemma_pushed_is_determined(push, start, strengths.drop_last(), mid1, mid2);
    }
}

/// With a single-valued `convert`, a chain of applications has one end.
pub proof fn lemma_converted_is_determined<T, F: Fn(T, T) -> (T, T)>(
    convert: F,
    start: (T, T),
    times: nat,
    end1: (T, T),
    end2: (T, T),
)
    requires
        convert_is_single_valued(convert),
        converted(convert, start, times, end1),
        converted(convert, start, times, end2),
    ensures
        end1 == end2,
    decreases times,
{
    if times > 0 {
        let mid1 = choose|mid: (T, T)|
            converted(convert, start, (times - 1) as nat, mid) && #[trigger] convert.ensures(
                mid,
                end1,
            );
        let mid2 = choose|mid: (T, T)|
            converted(convert, start, (times - 1) as nat, mid) && #[trigger] convert.ensures(
                mid,
                end2,
            );
        lemma_converted_is_determined(convert, start, (times - 1) as nat, mid1, mid2);
    }
}

/// With a single-valued `push`, the pass of the emitters and sinks has one
/// outcome: what is stated of it leaves no cell's aether open.
pub proof fn lemma_machines_applied_is_determined<T, F: Fn(T, i32) -> T>(
    w: int,
    h: int,
    push: F,
    machines: Seq<Machine>,
    before: Seq<T>,
    after1: Seq<T>,
    after2: Seq<T>,
)
    requires
        w > 0,
        h > 0,
        before.len() == w * h,
        push_is_single_valued(push),
        machines_applied(w, h, push, machines, before, after1),
        machines_applied(w, h, push, machines, before, after2),
    ensures
        after1 == after2,
{
    assert forall|i: int| 0 <= i < after1.len() implies after1[i] == after2[i] by {
        lemma_every_index_is_a_cell(w, h, i);
        let x = i % w;
        let y = i / w;
        assert(cell_index(w, x, y) == i);
        lemma_pushed_is_determined(push, before[i], pushes(machines, x, y), after1[i], after2[i]);
    }
    assert(after1 =~= after2);
}

/// With a single-valued `rule`, diffusion and decay have one outcome.
pub proof fn lemma_diffused_is_determined<T, F: Fn(T, Neighbors<T>) -> T>(
    w: int,
    h: int,
    rule: F,
    before: Seq<T>,
    after1: Seq<T>,
    after2: Seq<T>,
)
    requires
        w > 0,
        h > 0,
        before.len() == w * h,
        rule_is_single_valued(rule),
        diffused(w, h, rule, before, after1),
        diffused(w, h, rule, before, after2),
    ensures
        after1 == after2,
{
    assert forall|i: int| 0 <= i < after1.len() implies after1[i] == after2[i] by {
        lemma_every_index_is_a_cell(w, h, i);
        let x = i % w;
        let y = i / w;
        assert(cell_index(w, x, y) == i);
    }
    assert(after1 =~= after2);
}

/// With a single-valued `convert`, the pass of the stabilizers has one outcome.
pub proof fn lemma_crystallized_is_determined<T, F: Fn(T, T) -> (T, T)>(
    w: int,
    h: int,
    convert: F,
    machines: Seq<Machine>,
    aether_before: Seq<T>,
    crystal_before: Seq<T>,
    aether1: Seq<T>,
    crystal1: Seq<T>,
    aether2: Seq<T>,
    crystal2: Seq<T>,
)
    requires
        w > 0,
        h > 0,
        aether_before.len() == w * h,
        crystal_before.len() == w * h,
        convert_is_single_valued(convert),
        crystallized(w, h, convert, machines, aether_before, crystal_before, aether1, crystal1),
        crystallized(w, h, convert, machines, aether_before, crystal_before, aether2, crystal2),
    ensures
        aether1 == aether2,
        crystal1 == crystal2,
{
    assert forall|i: int| 0 <= i < w * h implies aether1[i] == aether2[i] && crystal1[i]
        == crystal2[i] by {
        lemma_every_index_is_a_cell(w, h, i);
        let x = i % w;
        let y = i / w;
        assert(cell_index(w, x, y) == i);
        lemma_converted_is_determined(
            convert,
            (aether_before[i], crystal_before[i]),
            stabilizers_over(machines, x, y),
            (aether1[i], crystal1[i]),
            (aether2[i], crystal2[i]),
        );
    }
    assert(aether1 =~= aether2);
    assert(crystal1 =~= crystal2);
}

/// With single-valued `push`, `rule` and `convert`, a tick has one outcome:
/// the grid after it is a function of the grid before it and the machines.
pub proof fn lemma_ticked_is_determined<
    T,
    P: Fn(T, i32) -> T,
    R: Fn(T, Neighbors<T>) -> T,
    C: Fn(T, T) -> (T, T),
>(
    w: int,
    h: int,
    push: P,
    rule: R,
    convert: C,
    machines: Seq<Machine>,
    aether_before: Seq<T>,
    crystal_before: Seq<T>,
    aether1: Seq<T>,
    crystal1: Seq<T>,
    aether2: Seq<T>,
    crystal2: Seq<T>,
)
    requires
        w > 0,
        h > 0,
        aether_before.len() == w * h,
        crystal_before.len() == w * h,
        push_is_single_valued(push),
        rule_is_single_valued(rule),
        convert_is_single_valued(convert),
        ticked(
            w,
            h,
            push,
            rule,
            convert,
            machines,
            aether_before,
            crystal_before,
            aether1,
            crystal1,
        ),
        ticked(
            w,
            h,
            push,
            rule,
            convert,
            machines,
            aether_before,
            crystal_before,
            aether2,
            crystal2,
        ),
    ensures
        aether1 == aether2,
        crystal1 == crystal2,
{
    let (fed1, spread1) = choose|fed: Seq<T>, spread: Seq<T>|
        {
            &&& machines_applied(w, h, push, machines, aether_before, fed)
            &&& #[trigger] diffused(w, h, rule, fed, spread)
            &&& crystallized(w, h, convert, machines, spread, crystal_before, aether1, crystal1)
        };
    let (fed2, spread2) = choose|fed: Seq<T>, spread: Seq<T>|
        {
            &&& machines_applied(w, h, push, machines, aether_before, fed)
            &&& #[trigger] diffused(w, h, rule, fed, spread)
            &&& crystallized(w, h, convert, machines, spread, crystal_before, aether2, crystal2)
        };
    lemma_machines_applied_is_determined(w, h, push, machines, aether_before, fed1, fed2);
    lemma_diffused_is_determined(w, h, rule, fed1, spread1, spread2);
    lemma_crystallized_is_determined(
        w,
        h,
        convert,
        machines,
        spread1,
        crystal_before,
        aether1,
        crystal1,
        aether2,
        crystal2,
    );
}

/// With no machines on the field a tick is diffusion and decay alone: the
/// aether goes through `rule` once and the crystal stays as it was.
pub proof fn lemma_tick_without_machines<
    T,
    P: Fn(T, i32) -> T,
    R: Fn(T, Neighbors<T>) -> T,
    C: Fn(T, T) -> (T, T),
>(
    w: int,
    h: int,
    push: P,
    rule: R,
    convert: C,
    aether_before: Seq<T>,
    crystal_before: Seq<T>,
    aether_after: Seq<T>,
    crystal_after: Seq<T>,
)
    requires
        w > 0,
        h > 0,
        aether_before.len() == w * h,
        crystal_before.len() == w * h,
        ticked(
            w,
            h,
            push,
            rule,
            convert,
            Seq::<Machine>::empty(),
            aether_before,
            crystal_before,
            aether_after,
            crystal_after,
        ),
    ensures
        diffused(w, h, rule, aether_before, aether_after),
        crystal_after == crystal_before,
{
    let none = Seq::<Machine>::empty();
    let (fed, spread) = choose|fed: Seq<T>, spread: Seq<T>|
        {
            &&& machines_applied(w, h, push, none, aether_before, fed)
            &&& #[trigger] diffused(w, h, rule, fed, spread)
            &&& crystallized(
                w,
                h,
                convert,
                none,
                spread,
                crystal_before,
                aether_after,
                crystal_after,
            )
        };
    assert forall|i: int| 0 <= i < w * h implies fed[i] == aether_before[i] && aether_after[i]
        == spread[i] && crystal_after[i] == crystal_before[i] by {
        lemma_every_index_is_a_cell(w, h, i);
        let x = i % w;
        let y = i / w;
        assert(cell_index(w, x, y) == i);
        assert(pushes(none, x, y) =~= Seq::<i32>::empty());
        assert(pushed(push, aether_before[i], pushes(none, x, y), fed[i]));
        assert(stabilizers_over(none, x, y) == 0);
        assert(converted(
            convert,
            (spread[i], crystal_before[i]),
            stabilizers_over(none, x, y),
            (aether_after[i], crystal_after[i]),
        ));
    }
    assert(fed =~= aether_before);
    assert(aether_after =~= spread);
    assert(crystal_after =~= crystal_before);
}

/// Diffusion is even-handed: a cell away from the border is seen by each of
/// its four sides on the side that faces it.
pub proof fn lemma_sides_face_the_cell<T>(w: int, h: int, cells: Seq<T>, x: int, y: int)
    requires
        0 < x < w - 1,
        0 < y < h - 1,
    ensures
        neighbors_in(w, h, cells, x - 1, y).right == Some(cells[cell_index(w, x, y)]),
        neighbors_in(w, h, cells, x + 1, y).left == Some(cells[cell_index(w, x, y)]),
        neighbors_in(w, h, cells, x, y - 1).down == Some(cells[cell_index(w, x, y)]),
        neighbors_in(w, h, cells, x, y + 1).up == Some(cells[cell_index(w, x, y)]),
        neighbors_in(w, h, cells, x, y).count() == 4,
{
}

} // verus!
