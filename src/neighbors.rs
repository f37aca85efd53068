//! The orthogonal neighbourhood of a tile and where tiles sit in the
//! column-by-column storage of a grid.

use vstd::prelude::*;

verus! {

/// `p` as a one-element sequence when it lies inside an `mx` by `my` grid.
pub open spec fn keep_in_bounds(p: (int, int), mx: int, my: int) -> Seq<(usize, usize)> {
    if 0 <= p.0 < mx && 0 <= p.1 < my {
        seq![(p.0 as usize, p.1 as usize)]
    } else {
        seq![]
    }
}

/// The orthogonal neighbours of `(x, y)` inside an `mx` by `my` grid, in the
/// order east, south, west, north.
pub open spec fn neighbors(x: int, y: int, mx: int, my: int) -> Seq<(usize, usize)> {
    keep_in_bounds((x + 1, y), mx, my) + keep_in_bounds((x, y + 1), mx, my) + keep_in_bounds(
        (x - 1, y),
        mx,
        my,
    ) + keep_in_bounds((x, y - 1), mx, my)
}

/// Every neighbour lies inside the grid and differs from the cell itself.
pub proof fn lemma_neighbors_in_bounds(x: int, y: int, mx: int, my: int)
    requires
        mx <= usize::MAX,
        my <= usize::MAX,
    ensures
        neighbors(x, y, mx, my).len() <= 4,
        forall|i: int|
            0 <= i < neighbors(x, y, mx, my).len() ==> {
                let p = #[trigger] neighbors(x, y, mx, my)[i];
                &&& p.0 < mx
                &&& p.1 < my
                &&& (p.0 != x || p.1 != y)
            },
{
    let e = keep_in_bounds((x + 1, y), mx, my);
    let s = keep_in_bounds((x, y + 1), mx, my);
    let w = keep_in_bounds((x - 1, y), mx, my);
    let n = keep_in_bounds((x, y - 1), mx, my);
    assert forall|i: int| 0 <= i < neighbors(x, y, mx, my).len() implies {
        let p = #[trigger] neighbors(x, y, mx, my)[i];
        &&& p.0 < mx
        &&& p.1 < my
        &&& (p.0 != x || p.1 != y)
    } by {
        let es = e + s;
        let esw = es + w;
        if i < e.len() {
            assert(neighbors(x, y, mx, my)[i] == e[i]);
            assert(0 <= x + 1 < mx && 0 <= y < my);
            assert(e[i] == ((x + 1) as usize, y as usize));
        } else if i < es.len() {
            assert(neighbors(x, y, mx, my)[i] == s[i - e.len()]);
            assert(0 <= x < mx && 0 <= y + 1 < my);
            assert(s[i - e.len()] == (x as usize, (y + 1) as usize));
        } else if i < esw.len() {
            assert(neighbors(x, y, mx, my)[i] == w[i - es.len()]);
            assert(0 <= x - 1 < mx && 0 <= y < my);
            assert(w[i - es.len()] == ((x - 1) as usize, y as usize));
        } else {
            assert(neighbors(x, y, mx, my)[i] == n[i - esw.len()]);
            assert(0 <= x < mx && 0 <= y - 1 < my);
            assert(n[i - esw.len()] == (x as usize, (y - 1) as usize));
        }
    }
}

/// A corner tile has two neighbours, another tile on the edge three, and an
/// interior tile four.
pub proof fn lemma_neighbor_count(x: int, y: int, mx: int, my: int)
    requires
        mx >= 2,
        my >= 2,
        0 <= x < mx,
        0 <= y < my,
    ensures
        (x == 0 || x == mx - 1) && (y == 0 || y == my - 1) ==> neighbors(x, y, mx, my).len()
            == 2,
        (x == 0 || x == mx - 1) != (y == 0 || y == my - 1) ==> neighbors(x, y, mx, my).len()
            == 3,
        0 < x < mx - 1 && 0 < y < my - 1 ==> neighbors(x, y, mx, my).len() == 4,
{
}

/// Position of `p` in a grid stored column by column, `h` tiles per column.
pub open spec fn flat(p: (usize, usize), h: int) -> int {
    p.0 * h + p.1
}

pub(crate) proof fn lemma_flat_bound(a: int, b: int, w: int, h: int)
    requires
        0 <= a < w,
        0 <= b < h,
    ensures
        0 <= a * h + b < w * h,
{
    assert(a * h + b < w * h) by (nonlinear_arith)
        requires
            0 <= a < w,
            0 <= b < h,
    ;
    assert(0 <= a * h) by (nonlinear_arith)
        requires
            0 <= a,
            0 <= b < h,
    ;
}

pub(crate) proof fn lemma_flat_unique(a: int, b: int, c: int, d: int, h: int)
    requires
        0 <= a,
        0 <= c,
        0 <= b < h,
        0 <= d < h,
        a * h + b == c * h + d,
    ensures
        a == c,
        b == d,
{
    if a < c {
        assert(a * h + b < c * h) by (nonlinear_arith)
            requires
                a < c,
                0 <= b < h,
        ;
    } else if c < a {
        assert(c * h + d < a * h) by (nonlinear_arith)
            requires
                c < a,
                0 <= d < h,
        ;
    }
}

/// The neighbour at position `i` is, in order, the east, south, west or
/// north cell.
pub(crate) proof fn lemma_neighbor_at(x: int, y: int, mx: int, my: int, i: int)
    requires
        mx <= usize::MAX,
        my <= usize::MAX,
        0 <= i < neighbors(x, y, mx, my).len(),
    ensures
        ({
            let p = neighbors(x, y, mx, my)[i];
            let e = keep_in_bounds((x + 1, y), mx, my).len();
            let es = e + keep_in_bounds((x, y + 1), mx, my).len();
            let esw = es + keep_in_bounds((x - 1, y), mx, my).len();
            ||| (i < e && p.0 == x + 1 && p.1 == y)
            ||| (e <= i < es && p.0 == x && p.1 == y + 1)
            ||| (es <= i < esw && p.0 == x - 1 && p.1 == y)
            ||| (esw <= i && p.0 == x && p.1 == y - 1)
        }),
{
    let e = keep_in_bounds((x + 1, y), mx, my);
    let s = keep_in_bounds((x, y + 1), mx, my);
    let w = keep_in_bounds((x - 1, y), mx, my);
    let n = keep_in_bounds((x, y - 1), mx, my);
    let es = e + s;
    let esw = es + w;
    if i < e.len() {
        assert(neighbors(x, y, mx, my)[i] == e[i]);
    } else if i < es.len() {
        assert(neighbors(x, y, mx, my)[i] == s[i - e.len()]);
    } else if i < esw.len() {
        assert(neighbors(x, y, mx, my)[i] == w[i - es.len()]);
    } else {
        assert(neighbors(x, y, mx, my)[i] == n[i - esw.len()]);
    }
}

/// Different neighbours of a tile, and the tile itself, lie at different
/// positions of the grid.
pub(crate) proof fn lemma_neighbors_distinct(x: int, y: int, mx: int, my: int)
    requires
        0 <= x < mx <= usize::MAX,
        0 <= y < my <= usize::MAX,
    ensures
        forall|i: int, j: int|
            0 <= i < j < neighbors(x, y, mx, my).len() ==> #[trigger] flat(
                neighbors(x, y, mx, my)[i],
                my,
            ) != #[trigger] flat(neighbors(x, y, mx, my)[j], my),
        forall|i: int|
            0 <= i < neighbors(x, y, mx, my).len() ==> 0 <= #[trigger] flat(
                neighbors(x, y, mx, my)[i],
                my,
            ) < mx * my && flat(neighbors(x, y, mx, my)[i], my) != x * my + y,
{
    let nb = neighbors(x, y, mx, my);
    lemma_neighbors_in_bounds(x, y, mx, my);
    assert forall|i: int, j: int| 0 <= i < j < nb.len() implies #[trigger] flat(nb[i], my)
        != #[trigger] flat(nb[j], my) by {
        lemma_neighbor_at(x, y, mx, my, i);
        lemma_neighbor_at(x, y, mx, my, j);
        if flat(nb[i], my) == flat(nb[j], my) {
            lemma_flat_unique(nb[i].0 as int, nb[i].1 as int, nb[j].0 as int, nb[j].1 as int, my);
        }
    }
    assert forall|i: int| 0 <= i < nb.len() implies 0 <= #[trigger] flat(nb[i], my) < mx * my
        && flat(nb[i], my) != x * my + y by {
        lemma_flat_bound(nb[i].0 as int, nb[i].1 as int, mx, my);
        if flat(nb[i], my) == x * my + y {
            lemma_flat_unique(nb[i].0 as int, nb[i].1 as int, x, y, my);
        }
    }
}

} // verus!
