use vstd::prelude::*;
use crate::cell::Cell;
use crate::grid::{adjacent, in_bounds, shaped};

verus! {

/// Revealing the zero-count hidden cell `(x1, y1)` of `g` spreads to its hidden neighbour `(x2, y2)`.
pub open spec fn spreads(g: Seq<Seq<Cell>>, w: int, h: int, x1: int, y1: int, x2: int, y2: int) -> bool {
    &&& in_bounds(w, h, x1, y1)
    &&& in_bounds(w, h, x2, y2)
    &&& adjacent(x1, y1, x2, y2)
    &&& g[y1][x1] == (Cell::Hidden { adjacent_mines: 0 })
    &&& g[y2][x2].is_hidden()
}

/// A set of positions that spreading never leaves.
pub open spec fn closed_region(g: Seq<Seq<Cell>>, w: int, h: int, s: Set<(int, int)>) -> bool {
    forall|x1: int, y1: int, x2: int, y2: int|
        s.contains((x1, y1)) && #[trigger] spreads(g, w, h, x1, y1, x2, y2) ==> s.contains((x2, y2))
}

/// Revealing `(x, y)` on `g` reveals `(qx, qy)`: the position lies in every closed region
/// that holds `(x, y)`, that is in the smallest one.
pub open spec fn in_flood(g: Seq<Seq<Cell>>, w: int, h: int, x: int, y: int, qx: int, qy: int) -> bool {
    forall|s: Set<(int, int)>| #[trigger] closed_region(g, w, h, s) && s.contains((x, y)) ==> s.contains((qx, qy))
}

/// The grid that revealing `(x, y)` on `g` leaves: every position of the flood revealed,
/// every other one as it was.
pub open spec fn flood_result(g: Seq<Seq<Cell>>, w: int, h: int, x: int, y: int) -> Seq<Seq<Cell>> {
    Seq::new(
        h as nat,
        |j: int|
            Seq::new(
                w as nat,
                |i: int|
                    if in_flood(g, w, h, x, y, i, j) {
                        g[j][i].revealed()
                    } else {
                        g[j][i]
                    },
            ),
    )
}

/// `(x, y)` was hidden in `g0` and is revealed in `g`.
pub open spec fn flooded(g0: Seq<Seq<Cell>>, g: Seq<Seq<Cell>>, x: int, y: int) -> bool {
    &&& g0[y][x].is_hidden()
    &&& g[y][x] == g0[y][x].revealed()
}

pub open spec fn pending(s: Seq<(usize, usize)>, x: int, y: int) -> bool {
    exists|i: int| 0 <= i < s.len() && (#[trigger] s[i]).0 == x && s[i].1 == y
}

/// What holds while a flood from `(px, py)` is under way, with `s` the positions still to expand.
pub open spec fn flood_state(
    g0: Seq<Seq<Cell>>,
    g: Seq<Seq<Cell>>,
    w: int,
    h: int,
    px: int,
    py: int,
    s: Seq<(usize, usize)>,
) -> bool {
    &&& shaped(g0, w, h)
    &&& shaped(g, w, h)
    &&& in_bounds(w, h, px, py)
    &&& flooded(g0, g, px, py)
    &&& forall|x: int, y: int| in_bounds(w, h, x, y) ==> #[trigger] g[y][x] == g0[y][x] || flooded(g0, g, x, y)
    &&& forall|x: int, y: int|
        in_bounds(w, h, x, y) && #[trigger] flooded(g0, g, x, y) ==> in_flood(g0, w, h, px, py, x, y)
    &&& forall|i: int|
        0 <= i < s.len() ==> in_bounds(w, h, (#[trigger] s[i]).0 as int, s[i].1 as int) && flooded(
            g0,
            g,
            s[i].0 as int,
            s[i].1 as int,
        ) && g0[s[i].1 as int][s[i].0 as int] == (Cell::Hidden { adjacent_mines: 0 })
}

/// Every flooded position but `(ex, ey)` from which spreading would flood more is still to expand.
pub open spec fn settled_except(
    g0: Seq<Seq<Cell>>,
    g: Seq<Seq<Cell>>,
    w: int,
    h: int,
    s: Seq<(usize, usize)>,
    ex: int,
    ey: int,
) -> bool {
    forall|ax: int, ay: int, bx: int, by: int|
        #[trigger] spreads(g0, w, h, ax, ay, bx, by) && flooded(g0, g, ax, ay) && !flooded(g0, g, bx, by)
            && (ax != ex || ay != ey) ==> pending(s, ax, ay)
}

/// Revealing a cell that is not hidden changes nothing.
pub proof fn lemma_flood_of_shown(g: Seq<Seq<Cell>>, w: int, h: int, x: int, y: int)
    requires
        shaped(g, w, h),
        in_bounds(w, h, x, y),
        !g[y][x].is_hidden(),
    ensures
        flood_result(g, w, h, x, y) == g,
{
    let s = set![(x, y)];
    assert(closed_region(g, w, h, s));
    assert forall|i: int, j: int| in_bounds(w, h, i, j) implies #[trigger] flood_result(g, w, h, x, y)[j][i] == g[j][i] by {
        if in_flood(g, w, h, x, y, i, j) {
            assert(s.contains((i, j)));
        }
    }
    assert(flood_result(g, w, h, x, y) =~~= g);
}

} // verus!
