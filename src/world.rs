use vstd::arithmetic::div_mod::{
    lemma_div_is_ordered_by_denominator,
    lemma_div_pos_is_pos,
    lemma_fundamental_div_mod,
    lemma_mod_bound,
};
use vstd::prelude::*;

use crate::heat::Heat;
use crate::neighbors::{
    flat,
    keep_in_bounds,
    lemma_flat_bound,
    lemma_flat_unique,
    lemma_neighbors_distinct,
    lemma_neighbors_in_bounds,
    neighbors,
};
use crate::rules::{
    adjacent,
    conduct_pass,
    lemma_sweep_spares_fixed,
    exchanges_fit,
    heat_sum,
    idle_except,
    lemma_conductor_balance,
    lemma_idle_sweep,
    lemma_idle_conductor_step,
    lemma_sink_step,
    lemma_source_step,
    lemma_step_keeps_kinds,
    lowered,
    raised,
    touched,
    lemma_sweep_keeps_kinds,
    lower_by,
    map_pass,
    raise_by,
    saturate,
    share,
    step_cell,
    sweep,
    sweep_column,
};
use crate::tile::{color_of, Tile};

verus! {

broadcast use {
    Tile::lemma_with_energy_kind,
    Tile::lemma_with_energy_energy,
    Tile::lemma_with_same_energy,
};

/// Lists the in-bounds orthogonal neighbours of `(x, y)` in an `mx` by `my`
/// grid, east, south, west, north.
pub fn surounding(x: usize, y: usize, mx: usize, my: usize) -> (r: Vec<(usize, usize)>)
    ensures
        r@ == neighbors(x as int, y as int, mx as int, my as int),
{
    let mut res: Vec<(usize, usize)> = Vec::new();
    if x < mx && x + 1 < mx && y < my {
        res.push((x + 1, y));
    }
    assert(res@ =~= keep_in_bounds((x + 1, y as int), mx as int, my as int));
    let ghost east = res@;
    if x < mx && y < my && y + 1 < my {
        res.push((x, y + 1));
    }
    assert(res@ =~= east + keep_in_bounds((x as int, y + 1), mx as int, my as int));
    let ghost south = res@;
    if x >= 1 && x - 1 < mx && y < my {
        res.push((x - 1, y));
    }
    assert(res@ =~= south + keep_in_bounds((x - 1, y as int), mx as int, my as int));
    let ghost west = res@;
    if x < mx && y >= 1 && y - 1 < my {
        res.push((x, y - 1));
    }
    assert(res@ =~= west + keep_in_bounds((x as int, y - 1), mx as int, my as int));
    res
}

fn clamp_i64(v: i128) -> (r: i64)
    ensures
        r == saturate(v as int),
{
    if v > i64::MAX as i128 {
        i64::MAX
    } else if v < i64::MIN as i128 {
        i64::MIN
    } else {
        v as i64
    }
}

fn share_of(diff: i128, rate: i64, n: usize) -> (r: i128)
    requires
        0 < diff <= u64::MAX,
        1 <= n <= 4,
    ensures
        r == share(diff as int, rate as int, n as int),
        -0x4000_0000_0000_0000_0000_0000_0000_0000 < r < 0x4000_0000_0000_0000_0000_0000_0000_0000,
{
    let m: i128 = if rate < 0 { -(rate as i128) } else { rate as i128 };
    assert(diff * m <= 0x7fff_ffff_ffff_ffff_8000_0000_0000_0000) by (nonlinear_arith)
        requires
            0 < diff <= 0xffff_ffff_ffff_ffff,
            0 <= m <= 0x8000_0000_0000_0000,
    ;
    assert(0 <= diff * m) by (nonlinear_arith)
        requires
            0 < diff,
            0 <= m,
    ;
    let d: i128 = 100 * n as i128;
    let q: i128 = diff * m / d;
    proof {
        lemma_div_pos_is_pos(diff * m, d as int);
        lemma_div_is_ordered_by_denominator(diff * m, 100, d as int);
    }
    if rate < 0 {
        -q
    } else {
        q
    }
}

/// A rectangular grid of tiles.
#[derive(Clone, Debug, PartialEq)]
pub struct World {
    tiles: Vec<Tile>,
    x_len: usize,
    y_len: usize,
}

impl World {
    /// The tiles, column by column.
    pub closed spec fn cells(self) -> Seq<Tile> {
        self.tiles@
    }

    /// The number of columns.
    pub closed spec fn width(self) -> int {
        self.x_len as int
    }

    /// The number of rows.
    pub closed spec fn height(self) -> int {
        self.y_len as int
    }

    /// The grid holds one tile per column and row.
    pub open spec fn wf(self) -> bool {
        &&& self.width() >= 0
        &&& self.height() >= 0
        &&& self.cells().len() == self.width() * self.height()
    }

    /// The tile at column `x`, row `y`.
    pub open spec fn tile_at(self, x: int, y: int) -> Tile {
        self.cells()[x * self.height() + y]
    }

    /// `next` is the grid after one tick of this one.
    pub open spec fn ticked(self, next: World) -> bool {
        &&& next.width() == self.width()
        &&& next.height() == self.height()
        &&& next.cells() == sweep(self.cells(), self.width(), self.height(), self.width())
    }

    /// Lets the tile at `(x, y)` act on its neighbours.
    fn step(&mut self, x: usize, y: usize)
        requires
            old(self).wf(),
            x < old(self).width(),
            y < old(self).height(),
        ensures
            final(self).wf(),
            final(self).width() == old(self).width(),
            final(self).height() == old(self).height(),
            final(self).cells() == step_cell(
                old(self).cells(),
                old(self).width(),
                old(self).height(),
                x as int,
                y as int,
            ),
    {
        let w = self.x_len;
        let h = self.y_len;
        let ghost start = self.tiles@;
        let total = self.tiles.len();
        proof {
            lemma_flat_bound(x as int, y as int, w as int, h as int);
            lemma_neighbors_in_bounds(x as int, y as int, w as int, h as int);
        }
        let at = x * h + y;
        let heat_at = self.tiles[at].get_heat();
        let nb = surounding(x, y, w, h);
        match self.tiles[at].get_type() {
            Heat::Source { produced_per_tick } => {
                let mut i: usize = 0;
                while i < nb.len()
                    invariant
                        self.x_len == w,
                        self.y_len == h,
                        self.tiles@.len() == w * h,
                        total == w * h,
                        nb@ == neighbors(x as int, y as int, w as int, h as int),
                        forall|j: int|
                            0 <= j < nb@.len() ==> (#[trigger] nb@[j]).0 < w && nb@[j].1 < h,
                        i <= nb.len(),
                        self.tiles@ == map_pass(
                            start,
                            h as int,
                            nb@,
                            raise_by(heat_at, produced_per_tick),
                            i as int,
                        ),
                    decreases nb.len() - i,
                {
                    let (a, b) = nb[i];
                    proof {
                        lemma_flat_bound(a as int, b as int, w as int, h as int);
                    }
                    let k = a * h + b;
                    let mut t = self.tiles[k];
                    let e = t.get_heat();
                    if e < heat_at {
                        t.set_heat(clamp_i64(e as i128 + produced_per_tick as i128));
                        self.tiles.set(k, t);
                    }
                    assert(self.tiles@ =~= map_pass(
                        start,
                        h as int,
                        nb@,
                        raise_by(heat_at, produced_per_tick),
                        i + 1,
                    ));
                    i += 1;
                }
            },
            Heat::Sink { absorbed_per_tick } => {
                let mut i: usize = 0;
                while i < nb.len()
                    invariant
                        self.x_len == w,
                        self.y_len == h,
                        self.tiles@.len() == w * h,
                        total == w * h,
                        nb@ == neighbors(x as int, y as int, w as int, h as int),
                        forall|j: int|
                            0 <= j < nb@.len() ==> (#[trigger] nb@[j]).0 < w && nb@[j].1 < h,
                        i <= nb.len(),
                        self.tiles@ == map_pass(
                            start,
                            h as int,
                            nb@,
                            lower_by(heat_at, absorbed_per_tick),
                            i as int,
                        ),
                    decreases nb.len() - i,
                {
                    let (a, b) = nb[i];
                    proof {
                        lemma_flat_bound(a as int, b as int, w as int, h as int);
                    }
                    let k = a * h + b;
                    let mut t = self.tiles[k];
                    let e = t.get_heat();
                    if e > heat_at {
                        t.set_heat(clamp_i64(e as i128 - absorbed_per_tick as i128));
                        self.tiles.set(k, t);
                    }
                    assert(self.tiles@ =~= map_pass(
                        start,
                        h as int,
                        nb@,
                        lower_by(heat_at, absorbed_per_tick),
                        i + 1,
                    ));
                    i += 1;
                }
            },
            Heat::Conductor { rate } => {
                let n = nb.len();
                let mut own: i64 = heat_at;
                let mut i: usize = 0;
                while i < n
                    invariant
                        self.x_len == w,
                        self.y_len == h,
                        self.tiles@.len() == w * h,
                        total == w * h,
                        n == nb@.len(),
                        n <= 4,
                        nb@ == neighbors(x as int, y as int, w as int, h as int),
                        forall|j: int|
                            0 <= j < nb@.len() ==> (#[trigger] nb@[j]).0 < w && nb@[j].1 < h,
                        i <= n,
                        (self.tiles@, own) == conduct_pass(
                            start,
                            h as int,
                            nb@,
                            rate,
                            heat_at,
                            i as int,
                        ),
                    decreases n - i,
                {
                    let (a, b) = nb[i];
                    proof {
                        lemma_flat_bound(a as int, b as int, w as int, h as int);
                    }
                    let k = a * h + b;
                    let mut t = self.tiles[k];
                    let e = t.get_heat();
                    let diff: i128 = own as i128 - e as i128;
                    if diff > 0 {
                        let change = share_of(diff, rate, n);
                        if let Heat::Conductor { .. } = t.get_type() {
                            t.set_heat(clamp_i64(e as i128 + change));
                            self.tiles.set(k, t);
                        }
                        own = clamp_i64(own as i128 - change);
                    }
                    i += 1;
                }
                let mut t = self.tiles[at];
                t.set_heat(own);
                self.tiles.set(at, t);
            },
        }
    }

    /// The tile at column `x`, row `y`.
    pub fn get(&self, x: usize, y: usize) -> (r: Tile)
        requires
            self.wf(),
            x < self.width(),
            y < self.height(),
        ensures
            r == self.tile_at(x as int, y as int),
    {
        let total = self.tiles.len();
        proof {
            lemma_flat_bound(x as int, y as int, self.width(), self.height());
        }
        self.tiles[x * self.y_len + y]
    }

    /// Byte `i` of the picture of the grid: three bytes (red, green, blue)
    /// per tile, rows of `width` tiles one after another.
    pub open spec fn pixel_byte(self, max_heat: int, i: int) -> u8 {
        let p = i / 3;
        color_of(
            self.tile_at(p % self.width(), p / self.width()).energy() as int,
            max_heat,
        )[i % 3]
    }

    /// The bytes of the picture of the grid.
    pub open spec fn picture(self, max_heat: int) -> Seq<u8> {
        self.picture_prefix(max_heat, (3 * self.width() * self.height()) as nat)
    }

    /// The first `n` bytes of the picture of the grid.
    pub open spec fn picture_prefix(self, max_heat: int, n: nat) -> Seq<u8> {
        Seq::new(n, |i: int| self.pixel_byte(max_heat, i))
    }

    /// The picture of the grid as raw RGB bytes, row by row, each tile's
    /// heat scaled so that `max_heat` is full intensity.
    pub fn render(&self, max_heat: i64) -> (r: Vec<u8>)
        requires
            self.wf(),
            max_heat > 0,
            3 * self.width() * self.height() <= usize::MAX,
        ensures
            r@ == self.picture(max_heat as int),
    {
        let w = self.x_len;
        let h = self.y_len;
        let total = self.tiles.len();
        let ghost wi = self.width();
        let ghost hi = self.height();
        assert(3 * wi * hi == 3 * (wi * hi)) by (nonlinear_arith);
        let mut r: Vec<u8> = Vec::new();
        let mut p: usize = 0;
        while p < total
            invariant
                self.wf(),
                w == self.width(),
                h == self.height(),
                total == w * h,
                3 * total <= usize::MAX,
                0 < max_heat,
                p <= total,
                r@ == self.picture_prefix(max_heat as int, (3 * p) as nat),
            decreases total - p,
        {
            proof {
                if w == 0 {
                    assert(w * h == 0);
                }
                let pi = p as int;
                let wi = w as int;
                lemma_fundamental_div_mod(pi, wi);
                lemma_mod_bound(pi, wi);
                let q = pi / wi;
                let m = pi % wi;
                assert(q < h) by (nonlinear_arith)
                    requires
                        pi == wi * q + m,
                        0 <= m,
                        wi > 0,
                        pi < wi * h,
                ;
                assert(q >= 0) by (nonlinear_arith)
                    requires
                        pi == wi * q + m,
                        m < wi,
                        wi > 0,
                        pi >= 0,
                ;
                lemma_flat_bound(m, q, wi, h as int);
            }
            let x = p % w;
            let y = p / w;
            let c = self.tiles[x * h + y].color_for_heat(max_heat);
            r.push(c[0]);
            r.push(c[1]);
            r.push(c[2]);
            p += 1;
            assert(r@ =~= self.picture_prefix(max_heat as int, (3 * p) as nat));
        }
        r
    }

    /// Advances the simulation by one step: every tile acts on its
    /// neighbours once, column by column and top to bottom within a column,
    /// and each tile sees the changes made before it in the same step.
    pub fn tick(&mut self)
        requires
            old(self).wf(),
        ensures
            final(self).wf(),
            old(self).ticked(*final(self)),
    {
        let w = self.x_len;
        let h = self.y_len;
        let ghost start = self.tiles@;
        let mut x: usize = 0;
        while x < w
            invariant
                self.x_len == w,
                self.y_len == h,
                self.tiles@.len() == w * h,
                x <= w,
                start == old(self).cells(),
                w == old(self).width(),
                h == old(self).height(),
                self.tiles@ == sweep(start, w as int, h as int, x as int),
            decreases w - x,
        {
            let mut y: usize = 0;
            while y < h
                invariant
                    self.x_len == w,
                    self.y_len == h,
                    self.tiles@.len() == w * h,
                    x < w,
                    y <= h,
                    self.tiles@ == sweep_column(
                        sweep(start, w as int, h as int, x as int),
                        w as int,
                        h as int,
                        x as int,
                        y as int,
                    ),
                decreases h - y,
            {
                self.step(x, y);
                y += 1;
            }
            x += 1;
        }
    }
}


/// `n` copies of `t`.
pub open spec fn uniform(n: nat, t: Tile) -> Seq<Tile> {
    Seq::new(n, |i: int| t)
}

/// A grid under construction.
#[derive(Clone, Debug, PartialEq)]
pub struct WorldBuilder {
    world: World,
}

impl WorldBuilder {
    /// The grid built so far.
    pub closed spec fn grid(self) -> World {
        self.world
    }

    /// A `x` by `y` grid of `dt`.
    fn filled(x: usize, y: usize, dt: Tile) -> (r: World)
        requires
            x * y <= usize::MAX,
        ensures
            r.wf(),
            r.width() == x,
            r.height() == y,
            r.cells() == uniform((x * y) as nat, dt),
    {
        let n = x * y;
        let mut tiles: Vec<Tile> = Vec::new();
        let mut i: usize = 0;
        while i < n
            invariant
                i <= n,
                tiles@ == Seq::new(i as nat, |j: int| dt),
            decreases n - i,
        {
            tiles.push(dt);
            i += 1;
            assert(tiles@ =~= Seq::new(i as nat, |j: int| dt));
        }
        World { tiles, x_len: x, y_len: y }
    }

    /// An `x` by `y` grid of conductors that hold no heat and pass none on.
    pub fn new(x: usize, y: usize) -> (r: Self)
        requires
            x * y <= usize::MAX,
        ensures
            r.grid().wf(),
            r.grid().width() == x,
            r.grid().height() == y,
            forall|i: int|
                0 <= i < r.grid().cells().len() ==> (#[trigger] r.grid().cells()[i]).kind() == (
                Heat::Conductor { rate: 0 }) && r.grid().cells()[i].energy() == 0,
    {
        Self { world: Self::filled(x, y, Tile::default()) }
    }

    /// An `x` by `y` grid in which every tile is `dt`.
    pub fn with_default_tile(x: usize, y: usize, dt: Tile) -> (r: Self)
        requires
            x * y <= usize::MAX,
        ensures
            r.grid().wf(),
            r.grid().width() == x,
            r.grid().height() == y,
            r.grid().cells() == uniform((x * y) as nat, dt),
    {
        Self { world: Self::filled(x, y, dt) }
    }

    /// Puts `t` at column `x`, row `y`.
    pub fn set(&mut self, x: usize, y: usize, t: Tile)
        requires
            old(self).grid().wf(),
            x < old(self).grid().width(),
            y < old(self).grid().height(),
        ensures
            final(self).grid().wf(),
            final(self).grid().width() == old(self).grid().width(),
            final(self).grid().height() == old(self).grid().height(),
            final(self).grid().cells() == old(self).grid().cells().update(
                x * old(self).grid().height() + y,
                t,
            ),
            forall|a: int, b: int|
                0 <= a < old(self).grid().width() && 0 <= b < old(self).grid().height()
                    ==> #[trigger] final(self).grid().tile_at(a, b) == if a == x && b == y {
                    t
                } else {
                    old(self).grid().tile_at(a, b)
                },
    {
        let ghost before = self.world;
        let w = self.world.x_len;
        let h = self.world.y_len;
        let total = self.world.tiles.len();
        proof {
            lemma_flat_bound(x as int, y as int, w as int, h as int);
        }
        let k = x * h + y;
        self.world.tiles.set(k, t);
        assert forall|a: int, b: int| 0 <= a < w && 0 <= b < h implies #[trigger] self.world.tile_at(
            a,
            b,
        ) == if a == x && b == y {
            t
        } else {
            before.tile_at(a, b)
        } by {
            lemma_flat_bound(a, b, w as int, h as int);
            if a * h + b == k {
                lemma_flat_unique(a, b, x as int, y as int, h as int);
            }
        }
    }

    /// The tile at column `x`, row `y`.
    pub fn get(&self, x: usize, y: usize) -> (r: Tile)
        requires
            self.grid().wf(),
            x < self.grid().width(),
            y < self.grid().height(),
        ensures
            r == self.grid().tile_at(x as int, y as int),
    {
        self.world.get(x, y)
    }

    /// Puts `t` at columns `x_s` to `x_e` inclusive of row `y`; nothing
    /// changes when `x_s > x_e`.
    pub fn set_sect_x(&mut self, x_s: usize, x_e: usize, y: usize, t: Tile)
        requires
            old(self).grid().wf(),
            x_s <= x_e ==> x_e < old(self).grid().width() && y < old(self).grid().height(),
        ensures
            final(self).grid().wf(),
            final(self).grid().width() == old(self).grid().width(),
            final(self).grid().height() == old(self).grid().height(),
            forall|a: int, b: int|
                0 <= a < old(self).grid().width() && 0 <= b < old(self).grid().height()
                    ==> #[trigger] final(self).grid().tile_at(a, b) == if b == y && x_s <= a
                    <= x_e {
                    t
                } else {
                    old(self).grid().tile_at(a, b)
                },
    {
        let ghost start = self.world;
        let w = self.world.x_len;
        let h = self.world.y_len;
        if x_s > x_e {
            return;
        }
        let mut x: usize = x_s;
        while x <= x_e
            invariant
                self.world.wf(),
                self.world.width() == w,
                self.world.height() == h,
                start.wf(),
                start.width() == w,
                start.height() == h,
                x_s <= x <= x_e + 1,
                x_e < w,
                y < h,
                forall|a: int, b: int|
                    0 <= a < w && 0 <= b < h ==> #[trigger] self.world.tile_at(a, b) == if b == y
                        && x_s <= a < x {
                        t
                    } else {
                        start.tile_at(a, b)
                    },
            decreases x_e + 1 - x,
        {
            self.set(x, y, t);
            x += 1;
        }
    }

    /// Puts `t` at rows `y_s` to `y_e` inclusive of column `x`; nothing
    /// changes when `y_s > y_e`.
    pub fn set_sect_y(&mut self, y_s: usize, y_e: usize, x: usize, t: Tile)
        requires
            old(self).grid().wf(),
            y_s <= y_e ==> y_e < old(self).grid().height() && x < old(self).grid().width(),
        ensures
            final(self).grid().wf(),
            final(self).grid().width() == old(self).grid().width(),
            final(self).grid().height() == old(self).grid().height(),
            forall|a: int, b: int|
                0 <= a < old(self).grid().width() && 0 <= b < old(self).grid().height()
                    ==> #[trigger] final(self).grid().tile_at(a, b) == if a == x && y_s <= b
                    <= y_e {
                    t
                } else {
                    old(self).grid().tile_at(a, b)
                },
    {
        let ghost start = self.world;
        let w = self.world.x_len;
        let h = self.world.y_len;
        if y_s > y_e {
            return;
        }
        let mut y: usize = y_s;
        while y <= y_e
            invariant
                self.world.wf(),
                self.world.width() == w,
                self.world.height() == h,
                start.wf(),
                start.width() == w,
                start.height() == h,
                y_s <= y <= y_e + 1,
                y_e < h,
                x < w,
                forall|a: int, b: int|
                    0 <= a < w && 0 <= b < h ==> #[trigger] self.world.tile_at(a, b) == if a == x
                        && y_s <= b < y {
                        t
                    } else {
                        start.tile_at(a, b)
                    },
            decreases y_e + 1 - y,
        {
            self.set(x, y, t);
            y += 1;
        }
    }

    /// The finished grid.
    pub fn build(self) -> (r: World)
        ensures
            r == self.grid(),
    {
        self.world
    }
}

impl From<WorldBuilder> for World {
    fn from(wb: WorldBuilder) -> (r: World) {
        wb.build()
    }
}

impl vstd::std_specs::convert::FromSpecImpl<WorldBuilder> for World {
    open spec fn obeys_from_spec() -> bool {
        true
    }

    open spec fn from_spec(wb: WorldBuilder) -> World {
        wb.grid()
    }
}

/// Ticking two grids with the same size and the same tiles gives the same
/// result.
pub proof fn lemma_tick_deterministic(a: World, b: World, a2: World, b2: World)
    requires
        a.wf(),
        b.wf(),
        a.width() == b.width(),
        a.height() == b.height(),
        a.cells() == b.cells(),
        a.ticked(a2),
        b.ticked(b2),
    ensures
        a2.width() == b2.width(),
        a2.height() == b2.height(),
        a2.cells() == b2.cells(),
{
}

/// A tick leaves the single tile of a one by one grid as it was, whatever
/// its behaviour.
pub proof fn lemma_single_tile_tick(a: World, a2: World)
    requires
        a.wf(),
        a.width() == 1,
        a.height() == 1,
        a.ticked(a2),
    ensures
        a2.tile_at(0, 0) == a.tile_at(0, 0),
{
    let c = a.cells();
    assert(neighbors(0, 0, 1, 1) =~= Seq::<(usize, usize)>::empty());
    assert(sweep(c, 1, 1, 1) == sweep_column(sweep(c, 1, 1, 0), 1, 1, 0, 1));
    assert(sweep_column(c, 1, 1, 0, 1) == step_cell(sweep_column(c, 1, 1, 0, 0), 1, 1, 0, 0));
    let t = c[0];
    match t.kind() {
        Heat::Conductor { rate } => {
            let nb = neighbors(0, 0, 1, 1);
            assert(conduct_pass(c, 1, nb, rate, t.energy(), 0) == (c, t.energy()));
            assert(c.len() == 1);
            assert(t.with_energy(t.energy()) == t);
            assert(c.update(0, t) =~= c);
        },
        _ => {},
    }
}

/// A tick changes the heat of tiles only: every tile keeps its behaviour.
pub proof fn lemma_tick_keeps_behaviour(a: World, a2: World)
    requires
        a.wf(),
        a.ticked(a2),
    ensures
        a2.wf(),
        forall|x: int, y: int|
            0 <= x < a.width() && 0 <= y < a.height() ==> (#[trigger] a2.tile_at(x, y)).kind()
                == a.tile_at(x, y).kind(),
{
    lemma_sweep_keeps_kinds(a.cells(), a.width(), a.height(), a.width());
    assert forall|x: int, y: int| 0 <= x < a.width() && 0 <= y < a.height() implies (
    #[trigger] a2.tile_at(x, y)).kind() == a.tile_at(x, y).kind() by {
        lemma_flat_bound(x, y, a.width(), a.height());
    }
}

/// On a line of two tiles, one of which is a conductor with rate 0, a tick
/// does exactly what the other tile does when it acts.
proof fn lemma_line_tick_is_one_step(a: World, a2: World, sx: int)
    requires
        a.wf(),
        a.width() == 2,
        a.height() == 1,
        0 <= sx < 2,
        a.tile_at(1 - sx, 0).kind() == (Heat::Conductor { rate: 0 }),
        a.ticked(a2),
    ensures
        a2.cells() == step_cell(a.cells(), 2, 1, sx, 0),
{
    let c = a.cells();
    let s1 = step_cell(c, 2, 1, 0, 0);
    assert(sweep(c, 2, 1, 0) == c);
    assert(sweep_column(c, 2, 1, 0, 0) == c);
    assert(sweep_column(c, 2, 1, 0, 1) == s1);
    assert(sweep(c, 2, 1, 1) == s1);
    assert(sweep_column(s1, 2, 1, 1, 0) == s1);
    assert(sweep_column(s1, 2, 1, 1, 1) == step_cell(s1, 2, 1, 1, 0));
    assert(sweep(c, 2, 1, 2) == step_cell(s1, 2, 1, 1, 0));
    if sx == 0 {
        lemma_step_keeps_kinds(c, 2, 1, 0, 0);
        lemma_idle_conductor_step(step_cell(c, 2, 1, 0, 0), 2, 1, 1, 0);
    } else {
        lemma_idle_conductor_step(c, 2, 1, 0, 0);
    }
}

/// On a line of a source and a conductor with rate 0, in either order, a
/// tick raises the conductor by exactly what the source produces (held to
/// the range of `i64`) when it is cooler than the source, leaves it as it
/// was otherwise, and leaves the source as it was.
pub proof fn lemma_source_line_tick(a: World, a2: World, sx: int, p: i64)
    requires
        a.wf(),
        a.width() == 2,
        a.height() == 1,
        0 <= sx < 2,
        a.tile_at(sx, 0).kind() == (Heat::Source { produced_per_tick: p }),
        a.tile_at(1 - sx, 0).kind() == (Heat::Conductor { rate: 0 }),
        a.ticked(a2),
    ensures
        a2.tile_at(sx, 0) == a.tile_at(sx, 0),
        a2.tile_at(1 - sx, 0) == raised(a.tile_at(1 - sx, 0), a.tile_at(sx, 0).energy(), p),
{
    lemma_line_tick_is_one_step(a, a2, sx);
    lemma_line_neighbors(sx);
    lemma_source_step(a.cells(), 2, 1, sx, 0, p);
}

/// On a line of a sink and a conductor with rate 0, in either order, a tick
/// lowers the conductor by exactly what the sink absorbs (held to the range
/// of `i64`) when it is warmer than the sink, leaves it as it was otherwise,
/// and leaves the sink as it was.
pub proof fn lemma_sink_line_tick(a: World, a2: World, sx: int, q: i64)
    requires
        a.wf(),
        a.width() == 2,
        a.height() == 1,
        0 <= sx < 2,
        a.tile_at(sx, 0).kind() == (Heat::Sink { absorbed_per_tick: q }),
        a.tile_at(1 - sx, 0).kind() == (Heat::Conductor { rate: 0 }),
        a.ticked(a2),
    ensures
        a2.tile_at(sx, 0) == a.tile_at(sx, 0),
        a2.tile_at(1 - sx, 0) == lowered(a.tile_at(1 - sx, 0), a.tile_at(sx, 0).energy(), q),
{
    lemma_line_tick_is_one_step(a, a2, sx);
    lemma_line_neighbors(sx);
    lemma_sink_step(a.cells(), 2, 1, sx, 0, q);
}

/// On a line of two tiles, each tile has the other as its only neighbour.
proof fn lemma_line_neighbors(sx: int)
    requires
        0 <= sx < 2,
    ensures
        neighbors(sx, 0, 2, 1) =~= seq![((1 - sx) as usize, 0usize)],
        !touched(neighbors(sx, 0, 2, 1), 1, 1, sx),
{
    assert(flat(neighbors(sx, 0, 2, 1)[0], 1) == 1 - sx);
}

/// In a grid where every tile but the one at `(x, y)` is a conductor with
/// rate 0, and that one is a conductor too, a tick moves heat between that
/// tile and its neighbours only. When every exchange stays within the range
/// of `i64`, what the neighbours gain together is exactly what the tile
/// loses, and every other tile keeps its value.
pub proof fn lemma_conductor_balance_tick(a: World, a2: World, x: int, y: int, rate: i64)
    requires
        a.wf(),
        0 <= x < a.width(),
        0 <= y < a.height(),
        a.tile_at(x, y).kind() == (Heat::Conductor { rate }),
        idle_except(a.cells(), x * a.height() + y),
        exchanges_fit(
            a.cells(),
            a.height(),
            neighbors(x, y, a.width(), a.height()),
            rate,
            a.tile_at(x, y).energy(),
            neighbors(x, y, a.width(), a.height()).len() as int,
        ),
        a.ticked(a2),
    ensures
        heat_sum(
            a2.cells(),
            a.height(),
            neighbors(x, y, a.width(), a.height()),
            neighbors(x, y, a.width(), a.height()).len() as int,
        ) - heat_sum(
            a.cells(),
            a.height(),
            neighbors(x, y, a.width(), a.height()),
            neighbors(x, y, a.width(), a.height()).len() as int,
        ) == a.tile_at(x, y).energy() - a2.tile_at(x, y).energy(),
        forall|k: int|
            0 <= k < a.cells().len() && k != x * a.height() + y && !touched(
                neighbors(x, y, a.width(), a.height()),
                a.height(),
                neighbors(x, y, a.width(), a.height()).len() as int,
                k,
            ) ==> #[trigger] a2.cells()[k] == a.cells()[k],
{
    lemma_idle_sweep(a.cells(), a.width(), a.height(), x, y);
    lemma_neighbors_distinct(x, y, a.width(), a.height());
    lemma_conductor_balance(a.cells(), a.width(), a.height(), x, y, rate);
}

/// A source or sink none of whose neighbours is a source or sink keeps its
/// heat through a tick.
pub proof fn lemma_tick_spares_fixed_tile(a: World, a2: World, x: int, y: int)
    requires
        a.wf(),
        0 <= x < a.width(),
        0 <= y < a.height(),
        !(a.tile_at(x, y).kind() is Conductor),
        forall|x2: int, y2: int|
            0 <= x2 < a.width() && 0 <= y2 < a.height() && #[trigger] adjacent(x, y, x2, y2)
                ==> (a.tile_at(x2, y2).kind() is Conductor),
        a.ticked(a2),
    ensures
        a2.tile_at(x, y) == a.tile_at(x, y),
{
    lemma_sweep_spares_fixed(a.cells(), a.width(), a.height(), x, y);
}

} // verus!
