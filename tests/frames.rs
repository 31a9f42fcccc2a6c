use chargefield::{coord_in, neighbor, Coord, Field, ABSORB_RATE, DEFAULT_COST, MAX_CHARGE, UNREACHED};

fn at(x: usize, y: usize) -> Coord {
    Coord { x, y }
}

fn manhattan(a: Coord, b: Coord) -> usize {
    a.x.abs_diff(b.x) + a.y.abs_diff(b.y)
}

fn total(f: &Field) -> u64 {
    let mut t: u64 = 0;
    for y in 0..f.height() {
        for x in 0..f.width() {
            t += f.cell(at(x, y)).charge as u64;
        }
    }
    t
}

#[test]
fn new_field_is_blank() {
    let f = Field::new(3, 2);
    assert_eq!(f.width(), 3);
    assert_eq!(f.height(), 2);
    for y in 0..2 {
        for x in 0..3 {
            let c = f.cell(at(x, y));
            assert!(!c.ground);
            assert!(!c.valid);
            assert_eq!(c.charge, 0);
            assert_eq!(c.cost, DEFAULT_COST);
            assert_eq!(c.distance, UNREACHED);
            assert_eq!(c.forward, at(x, y));
        }
    }
}

#[test]
fn bounds_test() {
    assert_eq!(coord_in(4, 3, 0, 0), Some(at(0, 0)));
    assert_eq!(coord_in(4, 3, 3, 2), Some(at(3, 2)));
    assert_eq!(coord_in(4, 3, 4, 0), None);
    assert_eq!(coord_in(4, 3, 0, 3), None);
    assert_eq!(coord_in(4, 3, -1, 1), None);
    assert_eq!(coord_in(4, 3, 1, -1), None);
}

#[test]
fn neighbors_in_order_without_wraparound() {
    let c = at(1, 1);
    assert_eq!(neighbor(3, 3, c, 0), Some(at(1, 0)));
    assert_eq!(neighbor(3, 3, c, 1), Some(at(1, 2)));
    assert_eq!(neighbor(3, 3, c, 2), Some(at(2, 1)));
    assert_eq!(neighbor(3, 3, c, 3), Some(at(0, 1)));
    assert_eq!(neighbor(3, 3, c, 4), None);
    let corner = at(0, 0);
    assert_eq!(neighbor(3, 3, corner, 0), None);
    assert_eq!(neighbor(3, 3, corner, 3), None);
    let far = at(2, 2);
    assert_eq!(neighbor(3, 3, far, 1), None);
    assert_eq!(neighbor(3, 3, far, 2), None);
}

#[test]
fn paint_source_is_idempotent() {
    let mut f = Field::new(2, 2);
    f.paint_source(at(1, 0));
    f.paint_source(at(1, 0));
    assert!(f.cell(at(1, 0)).ground);
    assert!(!f.cell(at(0, 0)).ground);
    f.step();
    let s = f.cell(at(1, 0));
    assert!(s.valid);
    assert_eq!(s.distance, 0);
    assert_eq!(s.forward, at(1, 0));
}

#[test]
fn inject_overwrites_charge() {
    let mut f = Field::new(2, 2);
    f.inject_charge(at(0, 1), 5);
    assert_eq!(f.cell(at(0, 1)).charge, 5);
    f.inject_charge(at(0, 1), 2);
    assert_eq!(f.cell(at(0, 1)).charge, 2);
    f.inject_charge(at(0, 1), 0);
    assert_eq!(f.cell(at(0, 1)).charge, 0);
}

#[test]
fn source_at_corner_wavefront_on_four_by_four() {
    let mut f = Field::new(4, 4);
    f.paint_source(at(0, 0));
    for frame in 0..4 {
        f.step();
        assert!(!f.cell(at(3, 1)).valid, "frame {}", frame);
    }
    f.step();
    let c = f.cell(at(3, 1));
    assert!(c.valid);
    assert_eq!(c.distance, 4);
    for y in 0..4 {
        for x in 0..4 {
            let d = manhattan(at(x, y), at(0, 0));
            assert_eq!(f.cell(at(x, y)).valid, d <= 4);
        }
    }
    assert!(!f.cell(at(3, 2)).valid);
    assert!(!f.cell(at(3, 3)).valid);
}

#[test]
fn wavefront_law_every_frame() {
    let src = at(2, 3);
    let mut f = Field::new(6, 5);
    f.paint_source(src);
    for k in 0..12 {
        f.step();
        for y in 0..5 {
            for x in 0..6 {
                let d = manhattan(at(x, y), src);
                let c = f.cell(at(x, y));
                assert_eq!(c.valid, d <= k);
                if c.valid {
                    assert_eq!(c.distance, d as u64);
                }
            }
        }
    }
}

#[test]
fn forward_points_to_a_closer_neighbor() {
    let src = at(0, 0);
    let mut f = Field::new(4, 3);
    f.paint_source(src);
    for _ in 0..8 {
        f.step();
    }
    for y in 0..3 {
        for x in 0..4 {
            let c = f.cell(at(x, y));
            if at(x, y) == src {
                assert_eq!(c.forward, src);
            } else {
                assert_eq!(manhattan(c.forward, at(x, y)), 1);
                assert_eq!(manhattan(c.forward, src) + 1, manhattan(at(x, y), src));
            }
        }
    }
    // ties go to the earlier direction: north before west
    assert_eq!(f.cell(at(1, 1)).forward, at(1, 0));
}

#[test]
fn weighted_cost_distances() {
    let mut f = Field::new(3, 1);
    f.paint_source(at(0, 0));
    f.set_cost(at(1, 0), 5);
    f.set_cost(at(2, 0), 2);
    for _ in 0..3 {
        f.step();
    }
    assert_eq!(f.cell(at(1, 0)).distance, 5);
    assert_eq!(f.cell(at(2, 0)).distance, 7);
}

#[test]
fn shorter_route_replaces_longer_one() {
    // the cheap route around the costly cell arrives later but wins
    let mut f = Field::new(3, 2);
    f.set_cost(at(1, 0), 20);
    f.paint_source(at(0, 0));
    for _ in 0..3 {
        f.step();
    }
    assert_eq!(f.cell(at(2, 0)).distance, 21);
    assert_eq!(f.cell(at(2, 0)).forward, at(1, 0));
    for _ in 0..2 {
        f.step();
    }
    assert_eq!(f.cell(at(2, 0)).distance, 4);
    assert_eq!(f.cell(at(2, 0)).forward, at(2, 1));
}

#[test]
fn distance_saturates() {
    let mut f = Field::new(3, 1);
    f.paint_source(at(0, 0));
    f.set_cost(at(1, 0), u32::MAX);
    f.set_cost(at(2, 0), u32::MAX);
    for _ in 0..3 {
        f.step();
    }
    assert!(f.cell(at(2, 0)).valid);
    assert_eq!(f.cell(at(2, 0)).distance, 2 * (u32::MAX as u64));
}

#[test]
fn monotone_flags_and_bounded_charge() {
    let mut f = Field::new(5, 5);
    f.paint_source(at(4, 4));
    f.inject_charge(at(0, 0), MAX_CHARGE);
    f.inject_charge(at(1, 0), MAX_CHARGE);
    f.inject_charge(at(0, 1), MAX_CHARGE);
    let mut valid_before = vec![false; 25];
    for frame in 0..30 {
        if frame == 10 {
            f.paint_source(at(0, 4));
            f.inject_charge(at(2, 2), MAX_CHARGE);
        }
        f.step();
        for y in 0..5 {
            for x in 0..5 {
                let c = f.cell(at(x, y));
                assert!(c.charge <= MAX_CHARGE);
                let i = y * 5 + x;
                if valid_before[i] {
                    assert!(c.valid);
                }
                valid_before[i] = c.valid;
            }
        }
        assert!(f.cell(at(4, 4)).ground);
        if frame >= 10 {
            assert!(f.cell(at(0, 4)).ground);
        }
    }
}

#[test]
fn charge_is_conserved_without_sources() {
    let mut f = Field::new(4, 4);
    f.inject_charge(at(0, 0), 3);
    f.inject_charge(at(2, 1), MAX_CHARGE);
    f.inject_charge(at(3, 3), 7);
    let before = total(&f);
    for _ in 0..10 {
        f.step();
        assert_eq!(total(&f), before);
    }
    assert_eq!(f.cell(at(2, 1)).charge, MAX_CHARGE);
    assert_eq!(before, 26);
}

#[test]
fn charge_drains_in_charge_frames() {
    let mut f = Field::new(5, 1);
    f.paint_source(at(0, 0));
    for _ in 0..5 {
        f.step();
    }
    f.inject_charge(at(4, 0), MAX_CHARGE);
    for j in 1..=MAX_CHARGE {
        f.step();
        assert_eq!(f.cell(at(4, 0)).charge, MAX_CHARGE - j);
        assert!(f.cell(at(3, 0)).charge <= 1);
    }
    assert_eq!(f.cell(at(4, 0)).charge, 0);
    for _ in 0..5 {
        f.step();
    }
    assert_eq!(total(&f), 0);
}

#[test]
fn source_absorbs_at_fixed_rate() {
    let mut f = Field::new(2, 1);
    f.paint_source(at(0, 0));
    f.step();
    f.inject_charge(at(0, 0), 5);
    f.step();
    assert_eq!(f.cell(at(0, 0)).charge, 5 - ABSORB_RATE);
    f.step();
    assert_eq!(f.cell(at(0, 0)).charge, 5 - 2 * ABSORB_RATE);
}

#[test]
fn invalid_cells_do_not_move_charge() {
    let mut f = Field::new(5, 1);
    f.paint_source(at(0, 0));
    f.inject_charge(at(4, 0), 4);
    f.step();
    f.step();
    // (4,0) is four steps away and not yet valid
    assert!(!f.cell(at(4, 0)).valid);
    assert_eq!(f.cell(at(4, 0)).charge, 4);
}

#[test]
fn transfer_blocked_by_full_neighbor() {
    let mut f = Field::new(4, 1);
    f.paint_source(at(0, 0));
    for _ in 0..4 {
        f.step();
    }
    assert_eq!(f.cell(at(3, 0)).forward, at(2, 0));
    assert_eq!(f.cell(at(2, 0)).forward, at(1, 0));
    f.inject_charge(at(1, 0), MAX_CHARGE);
    f.inject_charge(at(2, 0), MAX_CHARGE);
    f.inject_charge(at(3, 0), 3);
    let staged = f.transport();
    assert_eq!(staged[0][3], 3);
    assert_eq!(staged[0][2], MAX_CHARGE);
    f.step();
    assert_eq!(f.cell(at(3, 0)).charge, 3);
    assert_eq!(f.cell(at(2, 0)).charge, MAX_CHARGE);
    assert_eq!(f.cell(at(1, 0)).charge, MAX_CHARGE - 1);
    assert_eq!(f.cell(at(0, 0)).charge, 1);
}

#[test]
fn contention_overshoots_then_clamps() {
    let mut f = Field::new(3, 2);
    f.set_cost(at(0, 1), 10);
    f.set_cost(at(2, 1), 10);
    f.paint_source(at(1, 1));
    for _ in 0..3 {
        f.step();
    }
    let dest = at(1, 0);
    assert_eq!(f.cell(at(0, 0)).forward, dest);
    assert_eq!(f.cell(at(2, 0)).forward, dest);
    assert_eq!(f.cell(dest).forward, at(1, 1));
    f.inject_charge(at(1, 1), MAX_CHARGE);
    f.inject_charge(dest, MAX_CHARGE - 1);
    f.inject_charge(at(0, 0), 3);
    f.inject_charge(at(2, 0), 3);
    f.propagate();
    let staged = f.transport();
    assert_eq!(staged[0][1], MAX_CHARGE + 1);
    assert_eq!(staged[0][0], 2);
    assert_eq!(staged[0][2], 2);
    assert_eq!(staged[1][1], MAX_CHARGE - ABSORB_RATE);
    f.commit(&staged);
    assert_eq!(f.cell(dest).charge, MAX_CHARGE);
    assert_eq!(f.cell(at(0, 0)).charge, 2);
    assert_eq!(f.cell(at(2, 0)).charge, 2);
    assert_eq!(f.cell(at(1, 1)).charge, MAX_CHARGE - ABSORB_RATE);
}

#[test]
fn single_cell_field() {
    let mut f = Field::new(1, 1);
    f.inject_charge(at(0, 0), 2);
    f.step();
    assert!(!f.cell(at(0, 0)).valid);
    assert_eq!(f.cell(at(0, 0)).charge, 2);
    f.paint_source(at(0, 0));
    f.step();
    assert!(f.cell(at(0, 0)).valid);
    assert_eq!(f.cell(at(0, 0)).charge, 1);
}
