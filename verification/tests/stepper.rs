use aether_field::{
    apply_machines_to_field, diffuse_and_decay_field, stabilizers_make_crystal, tick, FieldGrid,
    Machine, Neighbors, Registry, Tool,
};

const DIFFUSION: f32 = 6.0;
const DECAY: f32 = 0.35;
const MAX_AETHER: f32 = 10.0;
const CONVERSION: f32 = 1.2;
const FRAME: f32 = 1.0 / 60.0;

fn push(dt: f32) -> impl Fn(f32, i32) -> f32 {
    move |a, strength| (a + strength as f32 * dt).clamp(0.0, MAX_AETHER)
}

fn rule(dt: f32) -> impl Fn(f32, Neighbors<f32>) -> f32 {
    move |c, around| {
        let mut sum = 0.0f32;
        let mut count = 0.0f32;
        for side in [around.left, around.right, around.up, around.down] {
            if let Some(v) = side {
                sum += v;
                count += 1.0;
            }
        }
        let avg = if count > 0.0 { sum / count } else { c };
        let diff = (avg - c) * DIFFUSION * dt;
        ((c + diff) * (1.0 - DECAY * dt)).clamp(0.0, MAX_AETHER)
    }
}

fn convert(dt: f32) -> impl Fn(f32, f32) -> (f32, f32) {
    move |a, c| {
        if a >= 3.0 && a <= 7.5 {
            let amount = (CONVERSION * dt).min(a);
            (a - amount, c + amount)
        } else {
            (a, c)
        }
    }
}

fn grid(w: i32, h: i32) -> FieldGrid<f32> {
    FieldGrid::new(w, h, 0.0f32).expect("valid grid")
}

fn close(a: f32, b: f32) -> bool {
    (a - b).abs() <= 1e-5
}

#[test]
fn emitter_feeds_its_disk_only() {
    let mut g = grid(24, 24);
    let ms = vec![Machine::new(Tool::Emitter, 12, 12)];
    apply_machines_to_field(&mut g, &ms, push(0.5));
    let mut fed = 0;
    for y in 0..24 {
        for x in 0..24 {
            let v = g.aether[g.idx(x, y)];
            let inside = (x - 12) * (x - 12) + (y - 12) * (y - 12) <= 9;
            if inside {
                assert_eq!(v, 4.0);
                fed += 1;
            } else {
                assert_eq!(v, 0.0);
            }
        }
    }
    assert_eq!(fed, 29);
    assert!(g.crystal.iter().all(|c| *c == 0.0));
}

#[test]
fn disk_edge_is_fed_and_square_corner_is_not() {
    let mut g = grid(24, 24);
    let ms = vec![Machine::new(Tool::Emitter, 10, 10)];
    apply_machines_to_field(&mut g, &ms, push(FRAME));
    assert!(g.aether[g.idx(13, 10)] > 0.0);
    assert!(g.aether[g.idx(10, 13)] > 0.0);
    assert_eq!(g.aether[g.idx(13, 13)], 0.0);
    assert_eq!(g.aether[g.idx(7, 7)], 0.0);
}

#[test]
fn emitter_at_the_border_feeds_only_cells_on_the_grid() {
    let mut g = grid(5, 5);
    let ms = vec![Machine::new(Tool::Emitter, 0, 0)];
    apply_machines_to_field(&mut g, &ms, push(0.25));
    let fed = g.aether.iter().filter(|v| **v == 2.0).count();
    let rest = g.aether.iter().filter(|v| **v == 0.0).count();
    assert_eq!(fed, 11);
    assert_eq!(rest, 14);
    assert_eq!(g.aether[g.idx(3, 0)], 2.0);
    assert_eq!(g.aether[g.idx(2, 2)], 2.0);
    assert_eq!(g.aether[g.idx(3, 1)], 0.0);
    assert_eq!(g.aether[g.idx(4, 0)], 0.0);
}

#[test]
fn machine_off_the_grid_reaches_in() {
    let mut g = grid(4, 4);
    let ms = vec![Machine { kind: Tool::Emitter, x: -2, y: 1, strength: 8, radius: 3 }];
    apply_machines_to_field(&mut g, &ms, push(0.125));
    assert_eq!(g.aether[g.idx(0, 1)], 1.0);
    assert_eq!(g.aether[g.idx(1, 1)], 1.0);
    assert_eq!(g.aether[g.idx(2, 1)], 0.0);
    assert_eq!(g.aether[g.idx(0, 3)], 1.0);
    assert_eq!(g.aether[g.idx(1, 3)], 0.0);

    let mut far = grid(4, 4);
    let away = vec![Machine { kind: Tool::Emitter, x: 100, y: -100, strength: 8, radius: 3 }];
    apply_machines_to_field(&mut far, &away, push(0.125));
    assert!(far.aether.iter().all(|v| *v == 0.0));
}

#[test]
fn aether_stays_within_its_limits() {
    let mut g = grid(8, 8);
    let strong = vec![Machine { kind: Tool::Emitter, x: 4, y: 4, strength: 1_000_000, radius: 3 }];
    apply_machines_to_field(&mut g, &strong, push(1000.0));
    assert!(g.aether.iter().all(|v| *v >= 0.0 && *v <= MAX_AETHER));
    assert_eq!(g.aether[g.idx(4, 4)], MAX_AETHER);

    let drain = vec![Machine { kind: Tool::Sink, x: 4, y: 4, strength: -1_000_000, radius: 3 }];
    apply_machines_to_field(&mut g, &drain, push(1000.0));
    assert!(g.aether.iter().all(|v| *v >= 0.0 && *v <= MAX_AETHER));
    assert_eq!(g.aether[g.idx(4, 4)], 0.0);

    apply_machines_to_field(&mut g, &strong, push(1000.0));
    diffuse_and_decay_field(&mut g, rule(50.0));
    assert!(g.aether.iter().all(|v| *v >= 0.0 && *v <= MAX_AETHER));
}

#[test]
fn later_machines_see_what_earlier_ones_left() {
    let sink = Machine::new(Tool::Sink, 2, 2);
    let emitter = Machine::new(Tool::Emitter, 2, 2);

    let mut g = grid(5, 5);
    apply_machines_to_field(&mut g, &vec![sink, emitter], push(0.5));
    assert_eq!(g.aether[g.idx(2, 2)], 4.0);

    let mut g = grid(5, 5);
    apply_machines_to_field(&mut g, &vec![emitter, sink], push(0.5));
    assert_eq!(g.aether[g.idx(2, 2)], 0.0);
}

#[test]
fn overlapping_emitters_add_up() {
    let mut g = grid(12, 5);
    let ms = vec![Machine::new(Tool::Emitter, 3, 2), Machine::new(Tool::Emitter, 7, 2)];
    apply_machines_to_field(&mut g, &ms, push(0.25));
    assert_eq!(g.aether[g.idx(5, 2)], 4.0);
    assert_eq!(g.aether[g.idx(3, 2)], 2.0);
    assert_eq!(g.aether[g.idx(7, 2)], 2.0);
    assert_eq!(g.aether[g.idx(11, 2)], 0.0);
}

#[test]
fn stabilizer_pushes_nothing() {
    let mut g = grid(6, 6);
    for v in g.aether.iter_mut() {
        *v = 5.0;
    }
    let ms = vec![Machine { kind: Tool::Stabilizer, x: 3, y: 3, strength: 8, radius: 2 }];
    apply_machines_to_field(&mut g, &ms, push(0.5));
    assert!(g.aether.iter().all(|v| *v == 5.0));
}

#[test]
fn no_machines_change_nothing() {
    let mut g = grid(4, 4);
    g.aether[5] = 3.5;
    g.crystal[6] = 1.5;
    let before_a = g.aether.clone();
    let before_c = g.crystal.clone();
    apply_machines_to_field(&mut g, &Vec::new(), push(FRAME));
    stabilizers_make_crystal(&mut g, &Vec::new(), convert(FRAME));
    assert_eq!(g.aether, before_a);
    assert_eq!(g.crystal, before_c);
}

#[test]
fn diffusion_is_symmetric_around_a_lone_cell() {
    let mut g = grid(5, 5);
    let centre = g.idx(2, 2);
    g.aether[centre] = 6.0;
    diffuse_and_decay_field(&mut g, rule(FRAME));
    let left = g.aether[g.idx(1, 2)];
    let right = g.aether[g.idx(3, 2)];
    let up = g.aether[g.idx(2, 1)];
    let down = g.aether[g.idx(2, 3)];
    assert!(left > 0.0);
    assert_eq!(left, right);
    assert_eq!(left, up);
    assert_eq!(left, down);
    assert!(close(left, 0.149125));
    assert!(g.aether[centre] < 6.0);
    assert!(close(g.aether[centre], 5.3685));
    assert_eq!(g.aether[g.idx(1, 1)], 0.0);
    assert_eq!(g.aether[g.idx(0, 2)], 0.0);
}

#[test]
fn corner_averages_over_its_two_sides() {
    let mut g = grid(3, 3);
    let right = g.idx(1, 0);
    let down = g.idx(0, 1);
    g.aether[right] = 4.0;
    g.aether[down] = 2.0;
    diffuse_and_decay_field(&mut g, rule(FRAME));
    let corner = g.aether[g.idx(0, 0)];
    assert!(close(corner, 0.29825));
    assert!(!close(corner, 0.149125));
}

#[test]
fn diffusion_reads_the_values_from_before_the_pass() {
    let mut g = FieldGrid::new(3, 1, 0i64).expect("valid grid");
    g.aether = vec![1, 10, 100];
    diffuse_and_decay_field(&mut g, |c: i64, around: Neighbors<i64>| {
        c + around.left.unwrap_or(0) + around.right.unwrap_or(0)
    });
    assert_eq!(g.aether, vec![11, 111, 110]);
}

#[test]
fn diffusion_leaves_crystal_alone() {
    let mut g = grid(4, 4);
    g.aether[5] = 6.0;
    g.crystal[5] = 2.0;
    g.crystal[9] = 1.0;
    let before = g.crystal.clone();
    diffuse_and_decay_field(&mut g, rule(FRAME));
    assert_eq!(g.crystal, before);
}

#[test]
fn uniform_field_only_decays() {
    let mut g = grid(4, 3);
    for v in g.aether.iter_mut() {
        *v = 6.0;
    }
    diffuse_and_decay_field(&mut g, rule(FRAME));
    let expected = 6.0f32 * (1.0 - DECAY * FRAME);
    assert!(g.aether.iter().all(|v| close(*v, expected)));
}

#[test]
fn without_machines_the_field_decays_towards_zero() {
    let mut g = grid(8, 8);
    for (i, v) in g.aether.iter_mut().enumerate() {
        *v = (i % 11) as f32;
    }
    let mut last: f32 = g.aether.iter().sum();
    assert!(last > 0.0);
    let ms: Vec<Machine> = Vec::new();
    for _ in 0..30 {
        for _ in 0..60 {
            tick(&mut g, &ms, push(FRAME), rule(FRAME), convert(FRAME));
        }
        let now: f32 = g.aether.iter().sum();
        assert!(now < last);
        last = now;
    }
    assert!(g.aether.iter().all(|v| *v >= 0.0 && *v < 0.01));
    assert!(g.crystal.iter().all(|c| *c == 0.0));
}

#[test]
fn conversion_threshold() {
    let mut g = grid(5, 5);
    let cells = [(1, 2), (2, 2), (3, 2), (2, 3), (2, 1)];
    let values = [2.9f32, 3.0, 7.5, 7.6, 5.0];
    for k in 0..5 {
        let i = g.idx(cells[k].0, cells[k].1);
        g.aether[i] = values[k];
    }
    let ms = vec![Machine::new(Tool::Stabilizer, 2, 2)];
    stabilizers_make_crystal(&mut g, &ms, convert(FRAME));
    let amount = CONVERSION * FRAME;

    let low = g.idx(1, 2);
    assert_eq!(g.aether[low], 2.9);
    assert_eq!(g.crystal[low], 0.0);

    let at_low = g.idx(2, 2);
    assert_eq!(g.aether[at_low], 3.0 - amount);
    assert_eq!(g.crystal[at_low], amount);

    let at_high = g.idx(3, 2);
    assert_eq!(g.aether[at_high], 7.5 - amount);
    assert_eq!(g.crystal[at_high], amount);

    let high = g.idx(2, 3);
    assert_eq!(g.aether[high], 7.6);
    assert_eq!(g.crystal[high], 0.0);

    let mid = g.idx(2, 1);
    assert!(close(g.aether[mid], 4.98));
    assert!(close(g.crystal[mid], 0.02));
}

#[test]
fn conversion_never_takes_more_than_there_is() {
    let mut g = grid(3, 3);
    for v in g.aether.iter_mut() {
        *v = 4.0;
    }
    let ms = vec![Machine::new(Tool::Stabilizer, 1, 1)];
    stabilizers_make_crystal(&mut g, &ms, convert(10.0));
    let mid = g.idx(1, 1);
    assert_eq!(g.aether[mid], 0.0);
    assert_eq!(g.crystal[mid], 4.0);
}

#[test]
fn stabilizer_converts_in_its_disk_only() {
    let mut g = grid(7, 7);
    for v in g.aether.iter_mut() {
        *v = 5.0;
    }
    let ms = vec![Machine::new(Tool::Stabilizer, 3, 3)];
    stabilizers_make_crystal(&mut g, &ms, convert(1.0));
    let mut touched = 0;
    for y in 0..7 {
        for x in 0..7 {
            let i = g.idx(x, y);
            let inside = (x - 3) * (x - 3) + (y - 3) * (y - 3) <= 4;
            if inside {
                assert!(close(g.aether[i], 3.8));
                assert!(close(g.crystal[i], 1.2));
                touched += 1;
            } else {
                assert_eq!(g.aether[i], 5.0);
                assert_eq!(g.crystal[i], 0.0);
            }
        }
    }
    assert_eq!(touched, 13);
    assert_eq!(g.crystal[g.idx(5, 5)], 0.0);
    assert!(g.crystal[g.idx(5, 3)] > 0.0);
}

#[test]
fn overlapping_stabilizers_convert_one_after_the_other() {
    let mut g = grid(7, 3);
    for v in g.aether.iter_mut() {
        *v = 3.5;
    }
    let ms = vec![Machine::new(Tool::Stabilizer, 2, 1), Machine::new(Tool::Stabilizer, 4, 1)];
    stabilizers_make_crystal(&mut g, &ms, convert(0.5));
    let both = g.idx(3, 1);
    assert!(close(g.aether[both], 2.9));
    assert!(close(g.crystal[both], 0.6));
    let one = g.idx(1, 1);
    assert!(close(g.aether[one], 2.9));
    assert!(close(g.crystal[one], 0.6));

    let mut g = grid(7, 3);
    for v in g.aether.iter_mut() {
        *v = 5.0;
    }
    stabilizers_make_crystal(&mut g, &ms, convert(0.5));
    assert!(close(g.aether[g.idx(3, 1)], 3.8));
    assert!(close(g.crystal[g.idx(3, 1)], 1.2));
    assert!(close(g.aether[g.idx(1, 1)], 4.4));
    assert!(close(g.crystal[g.idx(1, 1)], 0.6));
}

#[test]
fn emitters_and_sinks_convert_nothing() {
    let mut g = grid(5, 5);
    for v in g.aether.iter_mut() {
        *v = 5.0;
    }
    let ms = vec![Machine::new(Tool::Emitter, 2, 2), Machine::new(Tool::Sink, 1, 1)];
    stabilizers_make_crystal(&mut g, &ms, convert(FRAME));
    assert!(g.aether.iter().all(|v| *v == 5.0));
    assert!(g.crystal.iter().all(|c| *c == 0.0));
}

#[test]
fn crystal_never_shrinks() {
    let mut g = grid(9, 9);
    let mut r = Registry::new();
    assert!(r.place(Tool::Emitter, 4, 4).is_ok());
    assert!(r.place(Tool::Stabilizer, 5, 4).is_ok());
    assert!(r.place(Tool::Sink, 1, 1).is_ok());
    let mut before = g.crystal.clone();
    for _ in 0..300 {
        tick(&mut g, &r.machines, push(FRAME), rule(FRAME), convert(FRAME));
        for i in 0..before.len() {
            assert!(g.crystal[i] >= before[i]);
            assert!(g.aether[i] >= 0.0 && g.aether[i] <= MAX_AETHER);
        }
        before = g.crystal.clone();
    }
    assert!(g.crystal[g.idx(5, 4)] > 0.0);
}

#[test]
fn tick_runs_the_passes_in_order() {
    let ms = vec![Machine::new(Tool::Emitter, 2, 2), Machine::new(Tool::Stabilizer, 2, 2)];
    let mut whole = grid(5, 5);
    let mut parts = grid(5, 5);
    for k in 0..40 {
        let dt = 0.01 * (1 + k % 3) as f32;
        tick(&mut whole, &ms, push(dt), rule(dt), convert(dt));
        apply_machines_to_field(&mut parts, &ms, push(dt));
        diffuse_and_decay_field(&mut parts, rule(dt));
        stabilizers_make_crystal(&mut parts, &ms, convert(dt));
        assert_eq!(whole.aether, parts.aether);
        assert_eq!(whole.crystal, parts.crystal);
    }
    assert!(whole.aether[whole.idx(2, 2)] > 0.0);
}

#[test]
fn tick_order_is_told_by_its_trace() {
    let mut g = FieldGrid::new(1, 1, 0i64).expect("valid grid");
    g.aether[0] = 1;
    let ms = vec![Machine::new(Tool::Emitter, 0, 0), Machine::new(Tool::Stabilizer, 0, 0)];
    tick(
        &mut g,
        &ms,
        |a: i64, _s: i32| a * 10 + 1,
        |c: i64, _n: Neighbors<i64>| c * 10 + 2,
        |a: i64, c: i64| (a * 10 + 3, c + 1),
    );
    assert_eq!(g.aether[0], 1123);
    assert_eq!(g.crystal[0], 1);
}

#[test]
fn single_emitter_settles_below_the_maximum() {
    let mut g = grid(24, 24);
    let mut r = Registry::new();
    assert!(r.place(Tool::Emitter, 12, 12).is_ok());
    let centre = g.idx(12, 12);
    let mut earlier = 0.0f32;
    for t in 0..600 {
        if t == 599 {
            earlier = g.aether[centre];
        }
        tick(&mut g, &r.machines, push(FRAME), rule(FRAME), convert(FRAME));
    }
    let settled = g.aether[centre];
    assert!(settled < MAX_AETHER);
    assert!(settled > 9.0);
    assert!((settled - earlier).abs() < 1e-4);
    for k in 0..24 {
        for i in [g.idx(k, 0), g.idx(k, 23), g.idx(0, k), g.idx(23, k)] {
            assert!(g.aether[i] >= 0.0 && g.aether[i] < 0.2);
        }
    }
    assert!(g.crystal.iter().all(|c| *c == 0.0));
}
