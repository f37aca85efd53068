//! What one tile does to its neighbours, and a whole sweep of the grid,
//! stated over sequences of tiles stored column by column.

use vstd::prelude::*;

use crate::heat::Heat;
use crate::neighbors::{
    flat,
    lemma_flat_bound,
    lemma_flat_unique,
    lemma_neighbor_at,
    lemma_neighbors_distinct,
    lemma_neighbors_in_bounds,
    neighbors,
};
use crate::tile::Tile;

verus! {

broadcast use {
    Tile::lemma_with_energy_kind,
    Tile::lemma_with_energy_energy,
    Tile::lemma_with_same_energy,
};

/// `v` held to the range of `i64`.
pub open spec fn saturate(v: int) -> i64 {
    if v > i64::MAX {
        i64::MAX
    } else if v < i64::MIN {
        i64::MIN
    } else {
        v as i64
    }
}

/// The part of a surplus `diff` that a conductor with transfer rate `rate`
/// (in percent) hands to each of its `n` neighbours, truncated toward zero.
pub open spec fn share(diff: int, rate: int, n: int) -> int {
    if rate >= 0 {
        (diff * rate) / (100 * n)
    } else {
        -((diff * -rate) / (100 * n))
    }
}

/// The grid after each of the first `i` neighbours in `nb`, one after
/// another, has been replaced by what `f` makes of it.
pub open spec fn map_pass(
    cells: Seq<Tile>,
    h: int,
    nb: Seq<(usize, usize)>,
    f: spec_fn(Tile) -> Tile,
    i: int,
) -> Seq<Tile>
    decreases i,
{
    if i <= 0 {
        cells
    } else {
        let c = map_pass(cells, h, nb, f, i - 1);
        let k = flat(nb[i - 1], h);
        c.update(k, f(c[k]))
    }
}

/// What a source with heat `ceiling` that produces `p` does to a neighbour.
pub open spec fn raise_by(ceiling: i64, p: i64) -> spec_fn(Tile) -> Tile {
    |t: Tile| raised(t, ceiling, p)
}

/// What a sink with heat `floor` that absorbs `a` does to a neighbour.
pub open spec fn lower_by(floor: i64, a: i64) -> spec_fn(Tile) -> Tile {
    |t: Tile| lowered(t, floor, a)
}

/// A conductor that starts with heat `own` exchanges heat with the first `i`
/// neighbours in `nb`; the result is the grid and the conductor's running
/// heat.
pub open spec fn conduct_pass(
    cells: Seq<Tile>,
    h: int,
    nb: Seq<(usize, usize)>,
    rate: i64,
    own: i64,
    i: int,
) -> (Seq<Tile>, i64)
    decreases i,
{
    if i <= 0 {
        (cells, own)
    } else {
        let (c, o) = conduct_pass(cells, h, nb, rate, own, i - 1);
        let k = flat(nb[i - 1], h);
        let t = c[k];
        let diff = o - t.energy();
        if diff > 0 {
            let change = share(diff, rate as int, nb.len() as int);
            let c2 = if t.kind() is Conductor {
                c.update(k, t.with_energy(saturate(t.energy() + change)))
            } else {
                c
            };
            (c2, saturate(o - change))
        } else {
            (c, o)
        }
    }
}

/// The grid after the tile at `(x, y)` has acted on its neighbours.
pub open spec fn step_cell(cells: Seq<Tile>, w: int, h: int, x: int, y: int) -> Seq<Tile> {
    let at = x * h + y;
    let t = cells[at];
    let nb = neighbors(x, y, w, h);
    match t.kind() {
        Heat::Source { produced_per_tick } => map_pass(
            cells,
            h,
            nb,
            raise_by(t.energy(), produced_per_tick),
            nb.len() as int,
        ),
        Heat::Sink { absorbed_per_tick } => map_pass(
            cells,
            h,
            nb,
            lower_by(t.energy(), absorbed_per_tick),
            nb.len() as int,
        ),
        Heat::Conductor { rate } => {
            let (c, o) = conduct_pass(cells, h, nb, rate, t.energy(), nb.len() as int);
            c.update(at, c[at].with_energy(o))
        },
    }
}

/// The grid after the first `y` tiles of column `x` have acted, in order.
pub open spec fn sweep_column(cells: Seq<Tile>, w: int, h: int, x: int, y: int) -> Seq<Tile>
    decreases y,
{
    if y <= 0 {
        cells
    } else {
        step_cell(sweep_column(cells, w, h, x, y - 1), w, h, x, y - 1)
    }
}

/// The grid after the first `x` columns have acted, in order.
pub open spec fn sweep(cells: Seq<Tile>, w: int, h: int, x: int) -> Seq<Tile>
    decreases x,
{
    if x <= 0 {
        cells
    } else {
        sweep_column(sweep(cells, w, h, x - 1), w, h, x - 1, h)
    }
}

/// Some of the first `i` neighbours in `nb` lies at position `k`.
pub open spec fn touched(nb: Seq<(usize, usize)>, h: int, i: int, k: int) -> bool {
    exists|j: int| 0 <= j < i && flat(nb[j], h) == k
}

/// `t` after a source with heat `ceiling` that produces `p` has acted on it.
pub open spec fn raised(t: Tile, ceiling: i64, p: i64) -> Tile {
    if t.energy() < ceiling {
        t.with_energy(saturate(t.energy() + p))
    } else {
        t
    }
}

/// `t` after a sink with heat `floor` that absorbs `a` has acted on it.
pub open spec fn lowered(t: Tile, floor: i64, a: i64) -> Tile {
    if t.energy() > floor {
        t.with_energy(saturate(t.energy() - a))
    } else {
        t
    }
}

/// The positions of `nb` in a grid of `len` tiles are inside it and all
/// different.
pub open spec fn distinct_in(nb: Seq<(usize, usize)>, h: int, len: int) -> bool {
    &&& forall|j: int| 0 <= j < nb.len() ==> 0 <= #[trigger] flat(nb[j], h) < len
    &&& forall|i: int, j: int|
        0 <= i < j < nb.len() ==> #[trigger] flat(nb[i], h) != #[trigger] flat(nb[j], h)
}

proof fn lemma_map_pass(
    cells: Seq<Tile>,
    h: int,
    nb: Seq<(usize, usize)>,
    f: spec_fn(Tile) -> Tile,
    i: int,
)
    requires
        0 <= i <= nb.len(),
        distinct_in(nb, h, cells.len() as int),
    ensures
        map_pass(cells, h, nb, f, i).len() == cells.len(),
        forall|j: int|
            0 <= j < i ==> map_pass(cells, h, nb, f, i)[#[trigger] flat(nb[j], h)] == f(
                cells[flat(nb[j], h)],
            ),
        forall|k: int|
            0 <= k < cells.len() && !touched(nb, h, i, k) ==> #[trigger] map_pass(
                cells,
                h,
                nb,
                f,
                i,
            )[k] == cells[k],
    decreases i,
{
    if i > 0 {
        lemma_map_pass(cells, h, nb, f, i - 1);
        let k0 = flat(nb[i - 1], h);
        assert(!touched(nb, h, i - 1, k0));
        assert forall|k: int| 0 <= k < cells.len() && !touched(nb, h, i, k) implies !touched(
            nb,
            h,
            i - 1,
            k,
        ) && k != k0 by {
            assert(flat(nb[i - 1], h) == k0);
        }
    }
}

/// When a source acts, each neighbour cooler than the source gains exactly
/// what the source produces, held to the range of `i64`; warmer neighbours,
/// the source itself and every other tile keep their value.
pub proof fn lemma_source_step(cells: Seq<Tile>, w: int, h: int, x: int, y: int, p: i64)
    requires
        0 <= x < w <= usize::MAX,
        0 <= y < h <= usize::MAX,
        cells.len() == w * h,
        cells[x * h + y].kind() == (Heat::Source { produced_per_tick: p }),
    ensures
        step_cell(cells, w, h, x, y).len() == cells.len(),
        forall|j: int|
            0 <= j < neighbors(x, y, w, h).len() ==> step_cell(cells, w, h, x, y)[#[trigger] flat(
                neighbors(x, y, w, h)[j],
                h,
            )] == raised(cells[flat(neighbors(x, y, w, h)[j], h)], cells[x * h + y].energy(), p),
        forall|k: int|
            0 <= k < cells.len() && !touched(neighbors(x, y, w, h), h, neighbors(
                x,
                y,
                w,
                h,
            ).len() as int, k) ==> #[trigger] step_cell(cells, w, h, x, y)[k] == cells[k],
{
    lemma_neighbors_distinct(x, y, w, h);
    let nb = neighbors(x, y, w, h);
    lemma_map_pass(cells, h, nb, raise_by(cells[x * h + y].energy(), p), nb.len() as int);
}

/// When a sink acts, each neighbour warmer than the sink loses exactly what
/// the sink absorbs, held to the range of `i64`; cooler neighbours, the sink
/// itself and every other tile keep their value.
pub proof fn lemma_sink_step(cells: Seq<Tile>, w: int, h: int, x: int, y: int, a: i64)
    requires
        0 <= x < w <= usize::MAX,
        0 <= y < h <= usize::MAX,
        cells.len() == w * h,
        cells[x * h + y].kind() == (Heat::Sink { absorbed_per_tick: a }),
    ensures
        step_cell(cells, w, h, x, y).len() == cells.len(),
        forall|j: int|
            0 <= j < neighbors(x, y, w, h).len() ==> step_cell(cells, w, h, x, y)[#[trigger] flat(
                neighbors(x, y, w, h)[j],
                h,
            )] == lowered(cells[flat(neighbors(x, y, w, h)[j], h)], cells[x * h + y].energy(), a),
        forall|k: int|
            0 <= k < cells.len() && !touched(neighbors(x, y, w, h), h, neighbors(
                x,
                y,
                w,
                h,
            ).len() as int, k) ==> #[trigger] step_cell(cells, w, h, x, y)[k] == cells[k],
{
    lemma_neighbors_distinct(x, y, w, h);
    let nb = neighbors(x, y, w, h);
    lemma_map_pass(cells, h, nb, lower_by(cells[x * h + y].energy(), a), nb.len() as int);
}

/// Total heat of the tiles at the first `m` positions of `nb`.
pub open spec fn heat_sum(cells: Seq<Tile>, h: int, nb: Seq<(usize, usize)>, m: int) -> int
    decreases m,
{
    if m <= 0 {
        0
    } else {
        heat_sum(cells, h, nb, m - 1) + cells[flat(nb[m - 1], h)].energy()
    }
}

/// Every exchange of a conductor with its first `i` neighbours, as
/// `conduct_pass` makes them, stays within the range of `i64`.
pub open spec fn exchanges_fit(
    cells: Seq<Tile>,
    h: int,
    nb: Seq<(usize, usize)>,
    rate: i64,
    own: i64,
    i: int,
) -> bool
    decreases i,
{
    if i <= 0 {
        true
    } else {
        let (c, o) = conduct_pass(cells, h, nb, rate, own, i - 1);
        let t = c[flat(nb[i - 1], h)];
        let diff = o - t.energy();
        let change = share(diff, rate as int, nb.len() as int);
        &&& exchanges_fit(cells, h, nb, rate, own, i - 1)
        &&& diff > 0 ==> i64::MIN <= t.energy() + change <= i64::MAX && i64::MIN <= o - change
            <= i64::MAX
    }
}

proof fn lemma_heat_sum_update(
    c: Seq<Tile>,
    h: int,
    nb: Seq<(usize, usize)>,
    m: int,
    k: int,
    v: Tile,
)
    requires
        0 <= m <= nb.len(),
        distinct_in(nb, h, c.len() as int),
        0 <= k < c.len(),
    ensures
        heat_sum(c.update(k, v), h, nb, m) == heat_sum(c, h, nb, m) + if touched(nb, h, m, k) {
            v.energy() - c[k].energy()
        } else {
            0
        },
    decreases m,
{
    if m > 0 {
        lemma_heat_sum_update(c, h, nb, m - 1, k, v);
        let k1 = flat(nb[m - 1], h);
        if k1 == k {
            assert(touched(nb, h, m, k));
            assert(!touched(nb, h, m - 1, k));
        } else {
            assert(touched(nb, h, m, k) == touched(nb, h, m - 1, k));
        }
    }
}

proof fn lemma_conduct_pass(
    cells: Seq<Tile>,
    h: int,
    nb: Seq<(usize, usize)>,
    rate: i64,
    own: i64,
    i: int,
)
    requires
        0 <= i <= nb.len(),
        distinct_in(nb, h, cells.len() as int),
        forall|j: int|
            0 <= j < nb.len() ==> (cells[#[trigger] flat(nb[j], h)].kind() is Conductor),
        exchanges_fit(cells, h, nb, rate, own, i),
    ensures
        conduct_pass(cells, h, nb, rate, own, i).0.len() == cells.len(),
        heat_sum(conduct_pass(cells, h, nb, rate, own, i).0, h, nb, nb.len() as int) - heat_sum(
            cells,
            h,
            nb,
            nb.len() as int,
        ) == own - conduct_pass(cells, h, nb, rate, own, i).1,
        forall|k: int|
            0 <= k < cells.len() && !touched(nb, h, nb.len() as int, k) ==> #[trigger] conduct_pass(
                cells,
                h,
                nb,
                rate,
                own,
                i,
            ).0[k] == cells[k],
        forall|k: int|
            0 <= k < cells.len() ==> (#[trigger] conduct_pass(cells, h, nb, rate, own, i).0[k]).kind()
                == cells[k].kind(),
    decreases i,
{
    if i > 0 {
        lemma_conduct_pass(cells, h, nb, rate, own, i - 1);
        let (c, o) = conduct_pass(cells, h, nb, rate, own, i - 1);
        let k0 = flat(nb[i - 1], h);
        let t = c[k0];
        let diff = o - t.energy();
        if diff > 0 {
            let change = share(diff, rate as int, nb.len() as int);
            assert(cells[k0].kind() is Conductor);
            assert(c[k0].kind() == cells[k0].kind());
            let v = t.with_energy(saturate(t.energy() + change));
            assert(touched(nb, h, nb.len() as int, k0));
            lemma_heat_sum_update(c, h, nb, nb.len() as int, k0, v);
        }
    }
}

/// When a conductor whose neighbours are all conductors acts, and every
/// exchange stays within the range of `i64`, the heat its neighbours gain
/// together is exactly the heat it loses.
pub proof fn lemma_conductor_balance(cells: Seq<Tile>, w: int, h: int, x: int, y: int, rate: i64)
    requires
        0 <= x < w <= usize::MAX,
        0 <= y < h <= usize::MAX,
        cells.len() == w * h,
        cells[x * h + y].kind() == (Heat::Conductor { rate }),
        forall|j: int|
            0 <= j < neighbors(x, y, w, h).len() ==> (cells[#[trigger] flat(
                neighbors(x, y, w, h)[j],
                h,
            )].kind() is Conductor),
        exchanges_fit(
            cells,
            h,
            neighbors(x, y, w, h),
            rate,
            cells[x * h + y].energy(),
            neighbors(x, y, w, h).len() as int,
        ),
    ensures
        heat_sum(
            step_cell(cells, w, h, x, y),
            h,
            neighbors(x, y, w, h),
            neighbors(x, y, w, h).len() as int,
        ) - heat_sum(cells, h, neighbors(x, y, w, h), neighbors(x, y, w, h).len() as int)
            == cells[x * h + y].energy() - step_cell(cells, w, h, x, y)[x * h + y].energy(),
        forall|k: int|
            0 <= k < cells.len() && k != x * h + y && !touched(
                neighbors(x, y, w, h),
                h,
                neighbors(x, y, w, h).len() as int,
                k,
            ) ==> #[trigger] step_cell(cells, w, h, x, y)[k] == cells[k],
{
    let nb = neighbors(x, y, w, h);
    let at = x * h + y;
    lemma_neighbors_distinct(x, y, w, h);
    lemma_flat_bound(x, y, w, h);
    lemma_conduct_pass(cells, h, nb, rate, cells[at].energy(), nb.len() as int);
    let (c, o) = conduct_pass(cells, h, nb, rate, cells[at].energy(), nb.len() as int);
    assert(!touched(nb, h, nb.len() as int, at));
    lemma_heat_sum_update(c, h, nb, nb.len() as int, at, c[at].with_energy(o));
}

proof fn lemma_conduct_pass_kinds(
    cells: Seq<Tile>,
    h: int,
    nb: Seq<(usize, usize)>,
    rate: i64,
    own: i64,
    i: int,
)
    requires
        0 <= i <= nb.len(),
        distinct_in(nb, h, cells.len() as int),
    ensures
        conduct_pass(cells, h, nb, rate, own, i).0.len() == cells.len(),
        forall|k: int|
            0 <= k < cells.len() ==> (#[trigger] conduct_pass(cells, h, nb, rate, own, i).0[k]).kind()
                == cells[k].kind(),
    decreases i,
{
    if i > 0 {
        lemma_conduct_pass_kinds(cells, h, nb, rate, own, i - 1);
    }
}

/// When a tile acts, no tile changes its behaviour.
pub proof fn lemma_step_keeps_kinds(cells: Seq<Tile>, w: int, h: int, x: int, y: int)
    requires
        0 <= x < w <= usize::MAX,
        0 <= y < h <= usize::MAX,
        cells.len() == w * h,
    ensures
        step_cell(cells, w, h, x, y).len() == cells.len(),
        forall|k: int|
            0 <= k < cells.len() ==> (#[trigger] step_cell(cells, w, h, x, y)[k]).kind()
                == cells[k].kind(),
{
    let nb = neighbors(x, y, w, h);
    let at = x * h + y;
    lemma_neighbors_distinct(x, y, w, h);
    lemma_flat_bound(x, y, w, h);
    match cells[at].kind() {
        Heat::Source { produced_per_tick } => {
            lemma_map_pass(
                cells,
                h,
                nb,
                raise_by(cells[at].energy(), produced_per_tick),
                nb.len() as int,
            );
        },
        Heat::Sink { absorbed_per_tick } => {
            lemma_map_pass(
                cells,
                h,
                nb,
                lower_by(cells[at].energy(), absorbed_per_tick),
                nb.len() as int,
            );
        },
        Heat::Conductor { rate } => {
            lemma_conduct_pass_kinds(cells, h, nb, rate, cells[at].energy(), nb.len() as int);
        },
    }
}

/// A sweep keeps the number of tiles and the behaviour of every tile.
pub proof fn lemma_sweep_keeps_kinds(cells: Seq<Tile>, w: int, h: int, x: int)
    requires
        0 <= x <= w <= usize::MAX,
        0 <= h <= usize::MAX,
        cells.len() == w * h,
    ensures
        sweep(cells, w, h, x).len() == cells.len(),
        forall|k: int|
            0 <= k < cells.len() ==> (#[trigger] sweep(cells, w, h, x)[k]).kind()
                == cells[k].kind(),
    decreases x,
{
    if x > 0 {
        lemma_sweep_keeps_kinds(cells, w, h, x - 1);
        lemma_sweep_column_keeps_kinds(sweep(cells, w, h, x - 1), w, h, x - 1, h);
    }
}

proof fn lemma_sweep_column_keeps_kinds(cells: Seq<Tile>, w: int, h: int, x: int, y: int)
    requires
        0 <= x < w <= usize::MAX,
        0 <= y <= h <= usize::MAX,
        cells.len() == w * h,
    ensures
        sweep_column(cells, w, h, x, y).len() == cells.len(),
        forall|k: int|
            0 <= k < cells.len() ==> (#[trigger] sweep_column(cells, w, h, x, y)[k]).kind()
                == cells[k].kind(),
    decreases y,
{
    if y > 0 {
        lemma_sweep_column_keeps_kinds(cells, w, h, x, y - 1);
        lemma_step_keeps_kinds(sweep_column(cells, w, h, x, y - 1), w, h, x, y - 1);
    }
}

proof fn lemma_idle_conduct_pass(
    cells: Seq<Tile>,
    h: int,
    nb: Seq<(usize, usize)>,
    own: i64,
    i: int,
)
    requires
        0 <= i <= nb.len(),
        distinct_in(nb, h, cells.len() as int),
    ensures
        conduct_pass(cells, h, nb, 0, own, i) == (cells, own),
    decreases i,
{
    if i > 0 {
        lemma_idle_conduct_pass(cells, h, nb, own, i - 1);
        let k = flat(nb[i - 1], h);
        let t = cells[k];
        let diff = own - t.energy();
        assert(share(diff, 0, nb.len() as int) == 0);
        assert(cells.update(k, t) =~= cells);
    }
}

/// A conductor with rate 0 changes nothing when it acts.
pub proof fn lemma_idle_conductor_step(cells: Seq<Tile>, w: int, h: int, x: int, y: int)
    requires
        0 <= x < w <= usize::MAX,
        0 <= y < h <= usize::MAX,
        cells.len() == w * h,
        cells[x * h + y].kind() == (Heat::Conductor { rate: 0 }),
    ensures
        step_cell(cells, w, h, x, y) == cells,
{
    let nb = neighbors(x, y, w, h);
    let at = x * h + y;
    lemma_neighbors_distinct(x, y, w, h);
    lemma_flat_bound(x, y, w, h);
    lemma_idle_conduct_pass(cells, h, nb, cells[at].energy(), nb.len() as int);
    assert(cells.update(at, cells[at]) =~= cells);
}

/// Every tile but the one at position `at` is a conductor with rate 0.
pub open spec fn idle_except(cells: Seq<Tile>, at: int) -> bool {
    forall|k: int|
        0 <= k < cells.len() && k != at ==> (#[trigger] cells[k]).kind() == (Heat::Conductor {
            rate: 0,
        })
}

/// When every tile but the one at `(x0, y0)` is a conductor with rate 0, the
/// first `y` steps of column `x` leave the grid as it was until that tile
/// has acted, and as that one step left it afterwards.
proof fn lemma_idle_sweep_column(
    cells: Seq<Tile>,
    w: int,
    h: int,
    x0: int,
    y0: int,
    x: int,
    y: int,
)
    requires
        0 <= x0 < w <= usize::MAX,
        0 <= y0 < h <= usize::MAX,
        cells.len() == w * h,
        idle_except(cells, x0 * h + y0),
        0 <= x < w,
        0 <= y <= h,
    ensures
        sweep_column(sweep(cells, w, h, x), w, h, x, y) == if x * h + y <= x0 * h + y0 {
            cells
        } else {
            step_cell(cells, w, h, x0, y0)
        },
    decreases x, y,
{
    let at0 = x0 * h + y0;
    let g = sweep(cells, w, h, x);
    lemma_flat_bound(x0, y0, w, h);
    if y == 0 {
        assert(sweep_column(g, w, h, x, 0) == g);
        if x > 0 {
            lemma_idle_sweep_column(cells, w, h, x0, y0, x - 1, h);
            assert((x - 1) * h + h == x * h) by (nonlinear_arith);
            assert(g == sweep_column(sweep(cells, w, h, x - 1), w, h, x - 1, h));
        } else {
            assert(g == cells);
            assert(x * h == 0) by (nonlinear_arith)
                requires
                    x == 0,
            ;
        }
    } else {
        assert(sweep_column(g, w, h, x, y) == step_cell(
            sweep_column(g, w, h, x, y - 1),
            w,
            h,
            x,
            y - 1,
        ));
        lemma_idle_sweep_column(cells, w, h, x0, y0, x, y - 1);
        let before = sweep_column(g, w, h, x, y - 1);
        let k = x * h + (y - 1);
        lemma_flat_bound(x, y - 1, w, h);
        if k < at0 {
            assert(before == cells);
            lemma_idle_conductor_step(cells, w, h, x, y - 1);
            assert(step_cell(before, w, h, x, y - 1) == cells);
        } else if k > at0 {
            assert(before == step_cell(cells, w, h, x0, y0));
            lemma_step_keeps_kinds(cells, w, h, x0, y0);
            lemma_idle_conductor_step(step_cell(cells, w, h, x0, y0), w, h, x, y - 1);
            assert(step_cell(before, w, h, x, y - 1) == step_cell(cells, w, h, x0, y0));
        } else {
            assert(before == cells);
            lemma_flat_unique(x, y - 1, x0, y0, h);
            assert(step_cell(before, w, h, x, y - 1) == step_cell(cells, w, h, x0, y0));
        }
    }
}

/// When every tile but the one at `(x0, y0)` is a conductor with rate 0, a
/// whole sweep does exactly what that one tile does when it acts.
pub proof fn lemma_idle_sweep(cells: Seq<Tile>, w: int, h: int, x0: int, y0: int)
    requires
        0 <= x0 < w <= usize::MAX,
        0 <= y0 < h <= usize::MAX,
        cells.len() == w * h,
        idle_except(cells, x0 * h + y0),
    ensures
        sweep(cells, w, h, w) == step_cell(cells, w, h, x0, y0),
{
    lemma_idle_sweep_column(cells, w, h, x0, y0, w - 1, h);
    lemma_flat_bound(x0, y0, w, h);
    assert((w - 1) * h + h == w * h) by (nonlinear_arith);
}

/// `(x1, y1)` is one of the four orthogonal neighbours of `(x, y)`.
pub open spec fn adjacent(x: int, y: int, x1: int, y1: int) -> bool {
    ||| (x1 == x + 1 || x1 == x - 1) && y1 == y
    ||| (y1 == y + 1 || y1 == y - 1) && x1 == x
}

proof fn lemma_conduct_pass_spares_fixed(
    cells: Seq<Tile>,
    h: int,
    nb: Seq<(usize, usize)>,
    rate: i64,
    own: i64,
    i: int,
    k: int,
)
    requires
        0 <= i <= nb.len(),
        distinct_in(nb, h, cells.len() as int),
        0 <= k < cells.len(),
        !(cells[k].kind() is Conductor),
    ensures
        conduct_pass(cells, h, nb, rate, own, i).0.len() == cells.len(),
        conduct_pass(cells, h, nb, rate, own, i).0[k] == cells[k],
    decreases i,
{
    if i > 0 {
        lemma_conduct_pass_spares_fixed(cells, h, nb, rate, own, i - 1, k);
    }
}

/// A source or sink none of whose neighbours is a source or sink keeps its
/// value when any tile acts.
pub proof fn lemma_step_spares_fixed(
    cells: Seq<Tile>,
    w: int,
    h: int,
    x: int,
    y: int,
    x1: int,
    y1: int,
)
    requires
        0 <= x < w <= usize::MAX,
        0 <= y < h <= usize::MAX,
        0 <= x1 < w,
        0 <= y1 < h,
        cells.len() == w * h,
        !(cells[x1 * h + y1].kind() is Conductor),
        adjacent(x1, y1, x, y) ==> (cells[x * h + y].kind() is Conductor),
    ensures
        step_cell(cells, w, h, x, y)[x1 * h + y1] == cells[x1 * h + y1],
{
    let nb = neighbors(x, y, w, h);
    let at = x * h + y;
    let k = x1 * h + y1;
    lemma_neighbors_distinct(x, y, w, h);
    lemma_flat_bound(x, y, w, h);
    lemma_flat_bound(x1, y1, w, h);
    match cells[at].kind() {
        Heat::Conductor { rate } => {
            lemma_conduct_pass_spares_fixed(cells, h, nb, rate, cells[at].energy(), nb.len() as int, k);
        },
        _ => {
            assert(!touched(nb, h, nb.len() as int, k)) by {
                if touched(nb, h, nb.len() as int, k) {
                    let j = choose|j: int| 0 <= j < nb.len() && flat(nb[j], h) == k;
                    lemma_neighbors_in_bounds(x, y, w, h);
                    lemma_neighbor_at(x, y, w, h, j);
                    lemma_flat_unique(nb[j].0 as int, nb[j].1 as int, x1, y1, h);
                }
            }
            match cells[at].kind() {
                Heat::Source { produced_per_tick } => {
                    lemma_map_pass(
                        cells,
                        h,
                        nb,
                        raise_by(cells[at].energy(), produced_per_tick),
                        nb.len() as int,
                    );
                },
                Heat::Sink { absorbed_per_tick } => {
                    lemma_map_pass(
                        cells,
                        h,
                        nb,
                        lower_by(cells[at].energy(), absorbed_per_tick),
                        nb.len() as int,
                    );
                },
                _ => {},
            }
        },
    }
}

/// A source or sink none of whose neighbours is a source or sink keeps its
/// value through the first `y` steps of column `x`, and through the whole
/// columns before it.
proof fn lemma_sweep_column_spares_fixed(
    cells: Seq<Tile>,
    w: int,
    h: int,
    x1: int,
    y1: int,
    x: int,
    y: int,
)
    requires
        0 <= x1 < w <= usize::MAX,
        0 <= y1 < h <= usize::MAX,
        cells.len() == w * h,
        !(cells[x1 * h + y1].kind() is Conductor),
        forall|x2: int, y2: int|
            0 <= x2 < w && 0 <= y2 < h && #[trigger] adjacent(x1, y1, x2, y2) ==> (cells[x2 * h
                + y2].kind() is Conductor),
        0 <= x < w,
        0 <= y <= h,
    ensures
        sweep_column(sweep(cells, w, h, x), w, h, x, y)[x1 * h + y1] == cells[x1 * h + y1],
    decreases x, y,
{
    let g = sweep(cells, w, h, x);
    if y == 0 {
        if x > 0 {
            lemma_sweep_column_spares_fixed(cells, w, h, x1, y1, x - 1, h);
        }
    } else {
        lemma_sweep_column_spares_fixed(cells, w, h, x1, y1, x, y - 1);
        let before = sweep_column(g, w, h, x, y - 1);
        lemma_sweep_keeps_kinds(cells, w, h, x);
        lemma_sweep_column_keeps_kinds(g, w, h, x, y - 1);
        lemma_flat_bound(x, y - 1, w, h);
        lemma_flat_bound(x1, y1, w, h);
        if adjacent(x1, y1, x, y - 1) {
            assert(cells[x * h + (y - 1)].kind() is Conductor);
        }
        lemma_step_spares_fixed(before, w, h, x, y - 1, x1, y1);
    }
}

/// A source or sink none of whose neighbours is a source or sink keeps its
/// value through a whole sweep.
pub proof fn lemma_sweep_spares_fixed(cells: Seq<Tile>, w: int, h: int, x1: int, y1: int)
    requires
        0 <= x1 < w <= usize::MAX,
        0 <= y1 < h <= usize::MAX,
        cells.len() == w * h,
        !(cells[x1 * h + y1].kind() is Conductor),
        forall|x2: int, y2: int|
            0 <= x2 < w && 0 <= y2 < h && #[trigger] adjacent(x1, y1, x2, y2) ==> (cells[x2 * h
                + y2].kind() is Conductor),
    ensures
        sweep(cells, w, h, w)[x1 * h + y1] == cells[x1 * h + y1],
{
    lemma_sweep_column_spares_fixed(cells, w, h, x1, y1, w - 1, h);
}

} // verus!
