use vstd::prelude::*;
use crate::board::{flag_outcome, reveal_outcome};
use crate::cell::Cell;
use crate::command::command_of;
use crate::flood::{flood_result, in_flood, lemma_flood_of_shown};
use crate::grid::{flag_result, in_bounds, shaped};

verus! {

/// Toggling a flag twice at one position gives back the grid it started from; in particular a
/// hidden cell that is flagged and unflagged keeps its neighbour count.
pub proof fn lemma_flag_round_trip(g: Seq<Seq<Cell>>, w: int, h: int, x: int, y: int)
    requires
        shaped(g, w, h),
        in_bounds(w, h, x, y),
    ensures
        flag_result(flag_result(g, x, y), x, y) == g,
{
    let once = flag_result(g, x, y);
    assert(once[y][x] == g[y][x].toggled());
    assert(flag_result(once, x, y) =~~= g);
}

/// The grid after toggling the flag at `(x, y)` `n` times.
pub open spec fn flag_repeated(g: Seq<Seq<Cell>>, x: int, y: int, n: nat) -> Seq<Seq<Cell>>
    decreases n,
{
    if n == 0 {
        g
    } else {
        flag_result(flag_repeated(g, x, y, (n - 1) as nat), x, y)
    }
}

/// Flagging and unflagging `n` times over leaves the grid as it was.
pub proof fn lemma_flag_cycles(g: Seq<Seq<Cell>>, w: int, h: int, x: int, y: int, n: nat)
    requires
        shaped(g, w, h),
        in_bounds(w, h, x, y),
    ensures
        flag_repeated(g, x, y, 2 * n) == g,
    decreases n,
{
    if n > 0 {
        lemma_flag_cycles(g, w, h, x, y, (n - 1) as nat);
        let k = (2 * (n - 1)) as nat;
        assert(flag_repeated(g, x, y, k) == g);
        assert(flag_repeated(g, x, y, k + 1) == flag_result(g, x, y));
        assert(flag_repeated(g, x, y, 2 * n) == flag_result(flag_result(g, x, y), x, y));
        lemma_flag_round_trip(g, w, h, x, y);
    }
}

/// Revealing a revealed or flagged cell changes nothing.
pub proof fn lemma_reveal_shown(g: Seq<Seq<Cell>>, w: int, h: int, x: int, y: int)
    requires
        shaped(g, w, h),
        in_bounds(w, h, x, y),
        g[y][x] is Revealed || g[y][x] is Flagged,
    ensures
        flood_result(g, w, h, x, y) == g,
{
    lemma_flood_of_shown(g, w, h, x, y);
}

/// Revealing the same cell a second time changes nothing more.
pub proof fn lemma_reveal_twice(g: Seq<Seq<Cell>>, w: int, h: int, x: int, y: int)
    requires
        shaped(g, w, h),
        in_bounds(w, h, x, y),
    ensures
        flood_result(flood_result(g, w, h, x, y), w, h, x, y) == flood_result(g, w, h, x, y),
{
    let once = flood_result(g, w, h, x, y);
    assert(in_flood(g, w, h, x, y, x, y));
    assert(once[y][x] == g[y][x].revealed());
    assert(shaped(once, w, h));
    lemma_flood_of_shown(once, w, h, x, y);
}

/// A line is taken as a command only when its position lies on the board; one that names a
/// position off the board is refused as out of bounds, or earlier as malformed.
pub proof fn lemma_commands_in_bounds(line: Seq<char>, w: int, h: int)
    ensures
        command_of(line, w, h) matches Ok(c) ==> in_bounds(w, h, c.x as int, c.y as int),
{
}

/// Once a mine has gone off, neither revealing nor flagging changes the grid, and the game
/// stays over.
pub proof fn lemma_terminal_freeze(g: Seq<Seq<Cell>>, w: int, h: int, x: int, y: int)
    ensures
        reveal_outcome(g, w, h, true, x, y) == (g, true),
        flag_outcome(g, true, x, y) == (g, true),
{
}

} // verus!
