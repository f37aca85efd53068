use warmpt::tile::Tile;
use warmpt::world::{surounding, World, WorldBuilder};

fn line(tiles: &[Tile]) -> World {
    let mut b = WorldBuilder::new(tiles.len(), 1);
    for (x, t) in tiles.iter().enumerate() {
        b.set(x, 0, *t);
    }
    b.build()
}

fn heats(w: &World, width: usize, height: usize) -> Vec<i64> {
    let mut r = Vec::new();
    for x in 0..width {
        for y in 0..height {
            r.push(w.get(x, y).get_heat());
        }
    }
    r
}

#[test]
fn neighbours_in_fixed_order() {
    assert_eq!(surounding(1, 1, 3, 3), vec![(2, 1), (1, 2), (0, 1), (1, 0)]);
    assert_eq!(surounding(0, 0, 3, 3), vec![(1, 0), (0, 1)]);
    assert_eq!(surounding(2, 2, 3, 3), vec![(1, 2), (2, 1)]);
    assert_eq!(surounding(0, 0, 1, 1), vec![]);
}

#[test]
fn neighbour_counts_by_position() {
    let (n, m) = (4usize, 5usize);
    for x in 0..n {
        for y in 0..m {
            let on_x_edge = x == 0 || x == n - 1;
            let on_y_edge = y == 0 || y == m - 1;
            let expected = if on_x_edge && on_y_edge {
                2
            } else if on_x_edge || on_y_edge {
                3
            } else {
                4
            };
            let r = surounding(x, y, n, m);
            assert_eq!(r.len(), expected);
            for (a, b) in r {
                assert!(a < n && b < m);
            }
        }
    }
}

#[test]
fn two_tile_line() {
    let mut w = line(&[Tile::new_source(10, 100), Tile::new_conductor(0, 50)]);
    w.tick();
    assert_eq!(w.get(1, 0).get_heat(), 10);
    assert_eq!(w.get(0, 0).get_heat(), 100);
}

#[test]
fn three_tile_line_with_sink() {
    let mut w = line(&[
        Tile::new_conductor(50, 100),
        Tile::new_conductor(0, 100),
        Tile::new_sink(5, 0),
    ]);
    w.tick();
    // The left conductor hands all 50 to the middle one. The middle one then
    // passes 25 into the sink and 12 back to the left; the sink takes 5 of
    // the remaining 13.
    assert_eq!(w.get(0, 0).get_heat(), 12);
    assert_eq!(w.get(1, 0).get_heat(), 8);
    assert_eq!(w.get(2, 0).get_heat(), 0);
}

#[test]
fn single_tile_never_changes() {
    for t in [Tile::new_source(7, 30), Tile::new_sink(3, -4), Tile::new_conductor(12, 80)] {
        let mut w = WorldBuilder::with_default_tile(1, 1, t).build();
        for _ in 0..5 {
            w.tick();
            assert_eq!(w.get(0, 0), t);
        }
    }
}

#[test]
fn source_raises_cooler_neighbour_past_ceiling() {
    let mut w = line(&[Tile::new_source(10, 100), Tile::new_conductor(95, 0)]);
    w.tick();
    assert_eq!(w.get(1, 0).get_heat(), 105);
    w.tick();
    assert_eq!(w.get(1, 0).get_heat(), 105);
    assert_eq!(w.get(0, 0).get_heat(), 100);
}

#[test]
fn source_leaves_warmer_neighbour() {
    let mut w = line(&[Tile::new_source(10, 100), Tile::new_conductor(100, 0)]);
    w.tick();
    assert_eq!(w.get(1, 0).get_heat(), 100);
}

#[test]
fn sink_lowers_warmer_neighbour_past_floor() {
    let mut w = line(&[Tile::new_sink(5, 0), Tile::new_conductor(3, 0)]);
    w.tick();
    assert_eq!(w.get(1, 0).get_heat(), -2);
    w.tick();
    assert_eq!(w.get(1, 0).get_heat(), -2);
    assert_eq!(w.get(0, 0).get_heat(), 0);
}

#[test]
fn source_saturates() {
    let mut w = line(&[Tile::new_source(i64::MAX, 100), Tile::new_conductor(10, 0)]);
    w.tick();
    assert_eq!(w.get(1, 0).get_heat(), i64::MAX);
}

#[test]
fn conductor_balance_between_conductors() {
    let mut w = line(&[
        Tile::new_conductor(0, 0),
        Tile::new_conductor(100, 50),
        Tile::new_conductor(0, 0),
    ]);
    w.tick();
    let h = heats(&w, 3, 1);
    assert_eq!(h, vec![18, 57, 25]);
    assert_eq!((h[0] - 0) + (h[2] - 0), 100 - h[1]);
}

#[test]
fn conductor_gives_nothing_to_source() {
    let mut w = line(&[Tile::new_conductor(100, 100), Tile::new_source(1, 0)]);
    w.tick();
    // the whole surplus leaves the conductor; the source keeps its ceiling
    assert_eq!(w.get(0, 0).get_heat(), 0);
    assert_eq!(w.get(1, 0).get_heat(), 0);
}

#[test]
fn tick_is_deterministic() {
    let build = || {
        let mut b = WorldBuilder::new(4, 3);
        b.set(0, 0, Tile::new_source(7, 90));
        b.set(3, 2, Tile::new_sink(4, -20));
        b.set_sect_y(0, 2, 2, Tile::new_conductor(30, 60));
        b.build()
    };
    let mut a = build();
    let mut b = build();
    for _ in 0..10 {
        a.tick();
        b.tick();
        assert_eq!(heats(&a, 4, 3), heats(&b, 4, 3));
    }
}

#[test]
fn builder_range_on_row() {
    let t = Tile::new_source(1, 2);
    let mut b = WorldBuilder::new(10, 10);
    b.set_sect_x(2, 5, 3, t);
    for x in 0..10 {
        for y in 0..10 {
            if y == 3 && (2..=5).contains(&x) {
                assert_eq!(b.get(x, y), t);
            } else {
                assert_eq!(b.get(x, y), Tile::default());
            }
        }
    }
}

#[test]
fn builder_empty_range_changes_nothing() {
    let t = Tile::new_source(1, 2);
    let mut b = WorldBuilder::new(10, 10);
    b.set_sect_x(5, 2, 3, t);
    b.set_sect_y(5, 2, 3, t);
    for x in 0..10 {
        for y in 0..10 {
            assert_eq!(b.get(x, y), Tile::default());
        }
    }
}

#[test]
fn builder_range_on_column() {
    let t = Tile::new_sink(1, 2);
    let d = Tile::new_conductor(3, 4);
    let mut b = WorldBuilder::with_default_tile(6, 7, d);
    b.set_sect_y(1, 6, 4, t);
    for x in 0..6 {
        for y in 0..7 {
            let want = if x == 4 && y >= 1 { t } else { d };
            assert_eq!(b.get(x, y), want);
        }
    }
}

#[test]
fn builder_set_and_get() {
    let mut b = WorldBuilder::new(3, 2);
    let t = Tile::new_conductor(9, 9);
    b.set(2, 1, t);
    assert_eq!(b.get(2, 1), t);
    assert_eq!(b.get(1, 1), Tile::default());
    let w = b.build();
    assert_eq!(w.get(2, 1), t);
}

#[test]
fn render_row_major() {
    let mut b = WorldBuilder::new(2, 2);
    b.set(0, 0, Tile::new_conductor(100, 0));
    b.set(1, 0, Tile::new_conductor(-50, 0));
    b.set(0, 1, Tile::new_conductor(50, 0));
    let w = b.build();
    assert_eq!(
        w.render(100),
        vec![255, 0, 0, 0, 0, 127, 127, 0, 0, 0, 0, 0]
    );
}

#[test]
fn empty_grid_is_inert() {
    let mut w = WorldBuilder::new(0, 5).build();
    w.tick();
    assert_eq!(w.render(10), Vec::<u8>::new());
}

#[test]
fn world_from_builder() {
    let mut b = WorldBuilder::new(2, 2);
    let t = Tile::new_sink(2, 8);
    b.set(1, 0, t);
    let w = World::from(b);
    assert_eq!(w.get(1, 0), t);
    assert_eq!(w.get(0, 1), Tile::default());
}

#[test]
fn cloned_grids_tick_alike() {
    let mut b = WorldBuilder::new(5, 4);
    b.set(2, 2, Tile::new_source(9, 70));
    b.set_sect_x(0, 4, 0, Tile::new_conductor(40, 35));
    b.set(4, 3, Tile::new_sink(6, -10));
    let mut a = b.build();
    let mut c = a.clone();
    assert!(a == c);
    for _ in 0..8 {
        a.tick();
        c.tick();
        assert!(a == c);
    }
}

#[test]
fn source_after_conductor_raises_it() {
    let mut w = line(&[Tile::new_conductor(40, 0), Tile::new_source(15, 50)]);
    w.tick();
    assert_eq!(w.get(0, 0).get_heat(), 55);
    assert_eq!(w.get(1, 0).get_heat(), 50);
}

#[test]
fn sink_after_conductor_lowers_it() {
    let mut w = line(&[Tile::new_conductor(-1, 0), Tile::new_sink(4, -3)]);
    w.tick();
    assert_eq!(w.get(0, 0).get_heat(), -5);
    assert_eq!(w.get(1, 0).get_heat(), -3);
}

#[test]
fn single_active_conductor_balances_over_tick() {
    let mut b = WorldBuilder::new(3, 3);
    b.set(1, 1, Tile::new_conductor(100, 50));
    let mut w = b.build();
    w.tick();
    assert_eq!(heats(&w, 3, 3), vec![0, 9, 0, 8, 60, 11, 0, 12, 0]);
    let gained: i64 = heats(&w, 3, 3).iter().sum::<i64>() - 60;
    assert_eq!(gained, 100 - 60);
}

#[test]
fn isolated_source_and_sink_keep_their_heat() {
    let mut b = WorldBuilder::with_default_tile(4, 3, Tile::new_conductor(20, 40));
    b.set(0, 0, Tile::new_source(6, 90));
    b.set(3, 2, Tile::new_sink(2, -15));
    let mut w = b.build();
    for _ in 0..6 {
        w.tick();
        assert_eq!(w.get(0, 0).get_heat(), 90);
        assert_eq!(w.get(3, 2).get_heat(), -15);
    }
}

#[test]
fn source_beside_source_is_raised() {
    let mut w = line(&[Tile::new_source(5, 100), Tile::new_source(1, 30)]);
    w.tick();
    assert_eq!(w.get(1, 0).get_heat(), 35);
    assert_eq!(w.get(0, 0).get_heat(), 100);
}
