use vstd::prelude::*;
use crate::cell::Cell;

verus! {

/// A grid is a sequence of rows; position `(x, y)` is `g[y][x]`.
pub open spec fn in_bounds(w: int, h: int, x: int, y: int) -> bool {
    0 <= x < w && 0 <= y < h
}

/// Every row of `g` has `w` cells, and there are `h` rows.
pub open spec fn shaped(g: Seq<Seq<Cell>>, w: int, h: int) -> bool {
    &&& g.len() == h
    &&& forall|y: int| 0 <= y < h ==> #[trigger] g[y].len() == w
}

/// Two distinct positions whose coordinates differ by at most one each way.
pub open spec fn adjacent(x1: int, y1: int, x2: int, y2: int) -> bool {
    &&& (x1 != x2 || y1 != y2)
    &&& -1 <= x1 - x2 <= 1
    &&& -1 <= y1 - y2 <= 1
}

/// 1 where `(x, y)` lies on the grid and holds a mine, 0 elsewhere.
pub open spec fn mine_at(g: Seq<Seq<Cell>>, w: int, h: int, x: int, y: int) -> int {
    if in_bounds(w, h, x, y) && g[y][x].is_mine() {
        1
    } else {
        0
    }
}

/// The number of mines among the (up to eight) neighbours of `(x, y)`, clipped at the edges.
pub open spec fn adjacent_mines(g: Seq<Seq<Cell>>, w: int, h: int, x: int, y: int) -> int {
    mine_at(g, w, h, x - 1, y - 1) + mine_at(g, w, h, x, y - 1) + mine_at(g, w, h, x + 1, y - 1)
        + mine_at(g, w, h, x - 1, y) + mine_at(g, w, h, x + 1, y)
        + mine_at(g, w, h, x - 1, y + 1) + mine_at(g, w, h, x, y + 1) + mine_at(g, w, h, x + 1, y + 1)
}

/// Every cell that is not a mine carries the exact count of its neighbouring mines.
pub open spec fn counts_correct(g: Seq<Seq<Cell>>, w: int, h: int) -> bool {
    forall|x: int, y: int|
        in_bounds(w, h, x, y) && !(#[trigger] g[y][x]).is_mine() ==> g[y][x].count()
            == adjacent_mines(g, w, h, x, y)
}

/// Two grids of one shape with mines at the same positions.
pub open spec fn same_mines(g1: Seq<Seq<Cell>>, g2: Seq<Seq<Cell>>, w: int, h: int) -> bool {
    &&& shaped(g1, w, h)
    &&& shaped(g2, w, h)
    &&& forall|x: int, y: int| in_bounds(w, h, x, y) ==> (#[trigger] g1[y][x]).is_mine() == g2[y][x].is_mine()
}

/// The grid after toggling the flag at `(x, y)`.
pub open spec fn flag_result(g: Seq<Seq<Cell>>, x: int, y: int) -> Seq<Seq<Cell>> {
    g.update(y, g[y].update(x, g[y][x].toggled()))
}

pub open spec fn row_mines(r: Seq<Cell>) -> nat
    decreases r.len(),
{
    if r.len() == 0 {
        0
    } else {
        row_mines(r.drop_last()) + if r.last().is_mine() { 1nat } else { 0nat }
    }
}

pub open spec fn row_free(r: Seq<Cell>) -> nat
    decreases r.len(),
{
    if r.len() == 0 {
        0
    } else {
        row_free(r.drop_last()) + if r.last().is_mine() { 0nat } else { 1nat }
    }
}

/// The number of mine cells in the grid.
pub open spec fn grid_mines(g: Seq<Seq<Cell>>) -> nat
    decreases g.len(),
{
    if g.len() == 0 {
        0
    } else {
        grid_mines(g.drop_last()) + row_mines(g.last())
    }
}

/// The number of cells of the grid that hold no mine.
pub open spec fn grid_free(g: Seq<Seq<Cell>>) -> nat
    decreases g.len(),
{
    if g.len() == 0 {
        0
    } else {
        grid_free(g.drop_last()) + row_free(g.last())
    }
}

pub proof fn lemma_row_split(r: Seq<Cell>)
    ensures
        row_mines(r) + row_free(r) == r.len(),
    decreases r.len(),
{
    if r.len() > 0 {
        lemma_row_split(r.drop_last());
    }
}

/// Mines and free cells together fill the grid.
pub proof fn lemma_grid_split(g: Seq<Seq<Cell>>, w: int, h: int)
    requires
        shaped(g, w, h),
    ensures
        grid_mines(g) + grid_free(g) == w * h,
    decreases h,
{
    if h > 0 {
        let g0 = g.drop_last();
        assert(shaped(g0, w, h - 1));
        lemma_grid_split(g0, w, h - 1);
        lemma_row_split(g.last());
        assert(g.last().len() == w);
        assert(w * (h - 1) + w == w * h) by (nonlinear_arith);
    } else {
        assert(w * h == 0) by (nonlinear_arith) requires h == 0;
    }
}

pub proof fn lemma_row_same(r1: Seq<Cell>, r2: Seq<Cell>)
    requires
        r1.len() == r2.len(),
        forall|i: int| 0 <= i < r1.len() ==> (#[trigger] r1[i]).is_mine() == r2[i].is_mine(),
    ensures
        row_mines(r1) == row_mines(r2),
        row_free(r1) == row_free(r2),
    decreases r1.len(),
{
    if r1.len() > 0 {
        let (a, b) = (r1.drop_last(), r2.drop_last());
        assert forall|i: int| 0 <= i < a.len() implies (#[trigger] a[i]).is_mine() == b[i].is_mine() by {
            assert(a[i] == r1[i] && b[i] == r2[i]);
        }
        lemma_row_same(a, b);
    }
}

/// Grids with mines at the same positions have the same totals and the same neighbour counts.
pub proof fn lemma_same_mines(g1: Seq<Seq<Cell>>, g2: Seq<Seq<Cell>>, w: int, h: int)
    requires
        same_mines(g1, g2, w, h),
    ensures
        grid_mines(g1) == grid_mines(g2),
        grid_free(g1) == grid_free(g2),
        forall|x: int, y: int| #[trigger] mine_at(g1, w, h, x, y) == mine_at(g2, w, h, x, y),
        forall|x: int, y: int| #[trigger] adjacent_mines(g1, w, h, x, y) == adjacent_mines(g2, w, h, x, y),
    decreases h,
{
    assert forall|x: int, y: int| #[trigger] mine_at(g1, w, h, x, y) == mine_at(g2, w, h, x, y) by {
        if in_bounds(w, h, x, y) {
            assert(g1[y][x].is_mine() == g2[y][x].is_mine());
        }
    }
    if h > 0 {
        let (a, b) = (g1.drop_last(), g2.drop_last());
        assert forall|x: int, y: int| in_bounds(w, h - 1, x, y) implies (#[trigger] a[y][x]).is_mine()
            == b[y][x].is_mine() by {
            assert(a[y] == g1[y] && b[y] == g2[y]);
            assert(in_bounds(w, h, x, y));
        }
        assert(shaped(a, w, h - 1));
        assert(shaped(b, w, h - 1));
        lemma_same_mines(a, b, w, h - 1);
        let (r1, r2) = (g1.last(), g2.last());
        assert forall|i: int| 0 <= i < r1.len() implies (#[trigger] r1[i]).is_mine() == r2[i].is_mine() by {
            assert(in_bounds(w, h, i, h - 1));
        }
        lemma_row_same(r1, r2);
    }
}

pub proof fn lemma_row_update(r: Seq<Cell>, i: int, c: Cell)
    requires
        0 <= i < r.len(),
    ensures
        row_mines(r.update(i, c)) + (if r[i].is_mine() { 1int } else { 0 }) == row_mines(r) + (if c.is_mine() { 1int } else { 0 }),
    decreases r.len(),
{
    let u = r.update(i, c);
    if i == r.len() - 1 {
        assert(u.drop_last() =~= r.drop_last());
    } else {
        lemma_row_update(r.drop_last(), i, c);
        assert(u.drop_last() =~= r.drop_last().update(i, c));
    }
}

/// Writing one cell changes the mine total by what the new cell adds and the old one took away.
pub proof fn lemma_grid_update(g: Seq<Seq<Cell>>, x: int, y: int, c: Cell)
    requires
        0 <= y < g.len(),
        0 <= x < g[y].len(),
    ensures
        grid_mines(g.update(y, g[y].update(x, c))) + (if g[y][x].is_mine() { 1int } else { 0 })
            == grid_mines(g) + (if c.is_mine() { 1int } else { 0 }),
    decreases g.len(),
{
    let u = g.update(y, g[y].update(x, c));
    lemma_row_update(g[y], x, c);
    if y == g.len() - 1 {
        assert(u.drop_last() =~= g.drop_last());
    } else {
        lemma_grid_update(g.drop_last(), x, y, c);
        assert(u.drop_last() =~= g.drop_last().update(y, g[y].update(x, c)));
    }
}

pub open spec fn row_hidden(r: Seq<Cell>) -> nat
    decreases r.len(),
{
    if r.len() == 0 {
        0
    } else {
        row_hidden(r.drop_last()) + if r.last().is_hidden() { 1nat } else { 0nat }
    }
}

/// The number of hidden cells in the grid.
pub open spec fn grid_hidden(g: Seq<Seq<Cell>>) -> nat
    decreases g.len(),
{
    if g.len() == 0 {
        0
    } else {
        grid_hidden(g.drop_last()) + row_hidden(g.last())
    }
}

pub proof fn lemma_row_hidden_update(r: Seq<Cell>, i: int, c: Cell)
    requires
        0 <= i < r.len(),
    ensures
        row_hidden(r.update(i, c)) + (if r[i].is_hidden() { 1int } else { 0 }) == row_hidden(r) + (if c.is_hidden() { 1int } else { 0 }),
    decreases r.len(),
{
    let u = r.update(i, c);
    if i == r.len() - 1 {
        assert(u.drop_last() =~= r.drop_last());
    } else {
        lemma_row_hidden_update(r.drop_last(), i, c);
        assert(u.drop_last() =~= r.drop_last().update(i, c));
    }
}

/// Writing one cell changes the hidden total by what the new cell adds and the old one took away.
pub proof fn lemma_grid_hidden_update(g: Seq<Seq<Cell>>, x: int, y: int, c: Cell)
    requires
        0 <= y < g.len(),
        0 <= x < g[y].len(),
    ensures
        grid_hidden(g.update(y, g[y].update(x, c))) + (if g[y][x].is_hidden() { 1int } else { 0 })
            == grid_hidden(g) + (if c.is_hidden() { 1int } else { 0 }),
    decreases g.len(),
{
    let u = g.update(y, g[y].update(x, c));
    lemma_row_hidden_update(g[y], x, c);
    if y == g.len() - 1 {
        assert(u.drop_last() =~= g.drop_last());
    } else {
        lemma_grid_hidden_update(g.drop_last(), x, y, c);
        assert(u.drop_last() =~= g.drop_last().update(y, g[y].update(x, c)));
    }
}

/// A cell has at most eight neighbours.
pub proof fn lemma_adjacent_mines_bound(g: Seq<Seq<Cell>>, w: int, h: int, x: int, y: int)
    requires
        counts_correct(g, w, h),
        in_bounds(w, h, x, y),
        !g[y][x].is_mine(),
    ensures
        0 <= g[y][x].count() <= 8,
{
}

} // verus!
