use warmpt::heat::Heat;
use warmpt::tile::Tile;

#[test]
fn constructors_set_behaviour_and_heat() {
    let s = Tile::new_source(10, 100);
    assert_eq!(s.get_type(), Heat::Source { produced_per_tick: 10 });
    assert_eq!(s.get_heat(), 100);
    let k = Tile::new_sink(5, -3);
    assert_eq!(k.get_type(), Heat::Sink { absorbed_per_tick: 5 });
    assert_eq!(k.get_heat(), -3);
    let c = Tile::new_conductor(7, 50);
    assert_eq!(c.get_type(), Heat::Conductor { rate: 50 });
    assert_eq!(c.get_heat(), 7);
    let n = Tile::new(Heat::Conductor { rate: 20 }, 4);
    assert_eq!(n, Tile::new_conductor(4, 20));
}

#[test]
fn default_tile_is_idle_conductor() {
    let d = Tile::default();
    assert_eq!(d, Tile::const_default());
    assert_eq!(d.get_type(), Heat::Conductor { rate: 0 });
    assert_eq!(d.get_heat(), 0);
}

#[test]
fn set_heat_keeps_behaviour() {
    let mut t = Tile::new_sink(3, 9);
    t.set_heat(-40);
    assert_eq!(t.get_heat(), -40);
    assert_eq!(t.get_type(), Heat::Sink { absorbed_per_tick: 3 });
}

#[test]
fn zero_heat_is_black() {
    assert_eq!(Tile::new_conductor(0, 10).color_for_heat(100), [0, 0, 0]);
    assert_eq!(Tile::new_source(5, 0).view(1).0, [0, 0, 0]);
}

#[test]
fn positive_heat_is_red_and_negative_is_blue() {
    assert_eq!(Tile::new_conductor(50, 0).color_for_heat(100), [127, 0, 0]);
    assert_eq!(Tile::new_conductor(-50, 0).color_for_heat(100), [0, 0, 127]);
    assert_eq!(Tile::new_conductor(100, 0).view(100).0, [255, 0, 0]);
    assert_eq!(Tile::new_conductor(-100, 0).view(100).0, [0, 0, 255]);
}

#[test]
fn color_never_mixes_red_and_blue() {
    for h in -600i64..600 {
        let c = Tile::new_conductor(h, 0).color_for_heat(37);
        assert!(c[0] == 0 || c[2] == 0);
        assert_eq!(c[1], 0);
    }
}

#[test]
fn color_caps_at_full_intensity() {
    // 255 * 300 / 100 = 765, which is capped at 255
    assert_eq!(Tile::new_conductor(300, 0).color_for_heat(100), [255, 0, 0]);
    assert_eq!(Tile::new_conductor(-300, 0).color_for_heat(100), [0, 0, 255]);
    assert_eq!(Tile::new_conductor(20, 0).view(10).0, [255, 0, 0]);
}

#[test]
fn red_grows_with_heat() {
    let mut last = 0u8;
    for h in 1i64..100 {
        let c = Tile::new_conductor(h, 0).color_for_heat(10);
        assert!(c[0] >= last);
        last = c[0];
    }
    assert_eq!(last, 255);
}
