use vstd::prelude::*;
use crate::cell::Cell;
use crate::command::{command_of, parse_command, Action, Command, InputError};
use crate::grid::{
    adjacent_mines, counts_correct, flag_result, grid_free, grid_hidden, grid_mines, in_bounds,
    lemma_grid_hidden_update, lemma_grid_split, lemma_grid_update, lemma_same_mines, mine_at,
    row_free, row_mines, same_mines, shaped,
};
use crate::flood::{
    closed_region, flood_result, flood_state, flooded, in_flood, lemma_flood_of_shown, pending,
    settled_except, spreads,
};
use crate::random::random_below;

verus! {

/// The layout has `h` rows of `w` entries each.
pub open spec fn layout_fits(l: Seq<Vec<bool>>, w: int, h: int) -> bool {
    &&& l.len() == h
    &&& forall|y: int| 0 <= y < h ==> (#[trigger] l[y])@.len() == w
}

/// The cells that a layout describes before neighbour counts are filled in.
pub open spec fn layout_grid(l: Seq<Vec<bool>>) -> Seq<Seq<Cell>> {
    Seq::new(
        l.len(),
        |y: int|
            Seq::new(
                l[y]@.len(),
                |x: int|
                    if l[y]@[x] {
                        Cell::Mine
                    } else {
                        Cell::Hidden { adjacent_mines: 0 }
                    },
            ),
    )
}

/// The digit that shows a neighbour count from one to eight.
pub open spec fn digit_spec(n: usize) -> char {
    if n == 1 {
        '1'
    } else if n == 2 {
        '2'
    } else if n == 3 {
        '3'
    } else if n == 4 {
        '4'
    } else if n == 5 {
        '5'
    } else if n == 6 {
        '6'
    } else if n == 7 {
        '7'
    } else {
        '8'
    }
}

/// How a cell is drawn: hidden and flagged cells covered, a revealed count as its digit (blank
/// for zero), and mines covered until the game is over.
pub open spec fn glyph_spec(c: Cell, over: bool) -> char {
    match c {
        Cell::Hidden { .. } => '\u{25a1}',
        Cell::Revealed { adjacent_mines } => if adjacent_mines == 0 {
            ' '
        } else {
            digit_spec(adjacent_mines)
        },
        Cell::Flagged { .. } => '\u{2691}',
        Cell::Mine => if over {
            '*'
        } else {
            '\u{25a1}'
        },
    }
}

pub open spec fn render_row(r: Seq<Cell>, over: bool) -> Seq<char>
    decreases r.len(),
{
    if r.len() == 0 {
        seq![]
    } else {
        render_row(r.drop_last(), over) + seq![glyph_spec(r.last(), over), ' ']
    }
}

/// The text of a grid: each row's glyphs, each followed by a space, then a line break.
pub open spec fn render_grid(g: Seq<Seq<Cell>>, over: bool) -> Seq<char>
    decreases g.len(),
{
    if g.len() == 0 {
        seq![]
    } else {
        render_grid(g.drop_last(), over) + render_row(g.last(), over) + seq!['\n']
    }
}

fn glyph(c: Cell, over: bool) -> (r: char)
    requires
        c.count() <= 8,
    ensures
        r == glyph_spec(c, over),
{
    match c {
        Cell::Hidden { .. } => '\u{25a1}',
        Cell::Revealed { adjacent_mines } => match adjacent_mines {
            0 => ' ',
            1 => '1',
            2 => '2',
            3 => '3',
            4 => '4',
            5 => '5',
            6 => '6',
            7 => '7',
            _ => '8',
        },
        Cell::Flagged { .. } => '\u{2691}',
        Cell::Mine => if over {
            '*'
        } else {
            '\u{25a1}'
        },
    }
}

/// Relies on `String::push`: appends one character.
#[verifier::external_body]
fn push_char(s: &mut String, c: char)
    ensures
        final(s)@ == old(s)@.push(c),
{
    s.push(c);
}

/// The grid and the game-over mark after revealing `(x, y)`.
pub open spec fn reveal_outcome(g: Seq<Seq<Cell>>, w: int, h: int, over: bool, x: int, y: int) -> (Seq<Seq<Cell>>, bool) {
    if over || g[y][x].is_mine() {
        (g, true)
    } else {
        (flood_result(g, w, h, x, y), false)
    }
}

/// The grid and the game-over mark after toggling the flag at `(x, y)`.
pub open spec fn flag_outcome(g: Seq<Seq<Cell>>, over: bool, x: int, y: int) -> (Seq<Seq<Cell>>, bool) {
    if over {
        (g, over)
    } else {
        (flag_result(g, x, y), over)
    }
}

/// Why a board could not be built.
#[derive(Clone, Copy, Debug, PartialEq, Eq, Structural)]
pub enum BoardError {
    /// The width or the height is zero.
    EmptyBoard,
    /// There are as many mines as cells, or more.
    TooManyMines,
    /// The rows of a layout differ in length.
    RaggedLayout,
}

/// The whole game state: a grid of cells, row by row, and whether a mine went off.
pub struct Board {
    width: usize,
    height: usize,
    cells: Vec<Vec<Cell>>,
    mine_count: usize,
    game_over: bool,
}

impl Board {
    pub closed spec fn spec_width(&self) -> int {
        self.width as int
    }

    pub closed spec fn spec_height(&self) -> int {
        self.height as int
    }

    pub closed spec fn spec_mine_count(&self) -> int {
        self.mine_count as int
    }

    pub closed spec fn spec_over(&self) -> bool {
        self.game_over
    }

    /// The cells, row by row: `(x, y)` is `grid()[y][x]`.
    pub closed spec fn grid(&self) -> Seq<Seq<Cell>> {
        self.cells@.map_values(|r: Vec<Cell>| r@)
    }

    /// The board's dimensions fit its cells.
    pub open spec fn shaped(&self) -> bool {
        &&& 0 < self.spec_width()
        &&& 0 < self.spec_height()
        &&& self.spec_width() * self.spec_height() <= usize::MAX
        &&& shaped(self.grid(), self.spec_width(), self.spec_height())
    }

    /// The board's invariant: as many mines as asked for, fewer than the cells, and every
    /// other cell carrying its exact neighbour count.
    pub open spec fn wf(&self) -> bool {
        &&& self.shaped()
        &&& grid_mines(self.grid()) == self.spec_mine_count()
        &&& self.spec_mine_count() < self.spec_width() * self.spec_height()
        &&& counts_correct(self.grid(), self.spec_width(), self.spec_height())
    }

    pub open spec fn in_board(&self, x: int, y: int) -> bool {
        in_bounds(self.spec_width(), self.spec_height(), x, y)
    }

    pub open spec fn cell_at(&self, x: int, y: int) -> Cell {
        self.grid()[y][x]
    }

    /// The position `(x + dx - 1, y + dy - 1)`, if it lies on the board.
    fn neighbor(&self, x: usize, y: usize, dx: usize, dy: usize) -> (r: Option<(usize, usize)>)
        requires
            self.shaped(),
            self.in_board(x as int, y as int),
            dx <= 2,
            dy <= 2,
        ensures
            match r {
                Some((nx, ny)) => nx == x + dx - 1 && ny == y + dy - 1 && self.in_board(
                    nx as int,
                    ny as int,
                ),
                None => !self.in_board(x + dx - 1, y + dy - 1),
            },
    {
        if (dx == 0 && x == 0) || (dy == 0 && y == 0) {
            return None;
        }
        let nx = if dx == 0 {
            x - 1
        } else if dx == 1 {
            x
        } else {
            x + 1
        };
        let ny = if dy == 0 {
            y - 1
        } else if dy == 1 {
            y
        } else {
            y + 1
        };
        if nx < self.width && ny < self.height {
            Some((nx, ny))
        } else {
            None
        }
    }

    /// 1 if `(x + dx - 1, y + dy - 1)` lies on the board and holds a mine, else 0.
    fn mine_near(&self, x: usize, y: usize, dx: usize, dy: usize) -> (r: usize)
        requires
            self.shaped(),
            self.in_board(x as int, y as int),
            dx <= 2,
            dy <= 2,
        ensures
            r == mine_at(self.grid(), self.spec_width(), self.spec_height(), x + dx - 1, y + dy - 1),
    {
        match self.neighbor(x, y, dx, dy) {
            Some((nx, ny)) => {
                assert(self.grid()[ny as int] == self.cells@[ny as int]@);
                if matches!(self.cells[ny][nx], Cell::Mine) {
                    1
                } else {
                    0
                }
            },
            None => 0,
        }
    }

    /// Counts the mines among the neighbours of `(x, y)` that lie on the board.
    pub fn count_adjacent_mines(&self, x: usize, y: usize) -> (r: usize)
        requires
            self.shaped(),
            self.in_board(x as int, y as int),
        ensures
            r == adjacent_mines(self.grid(), self.spec_width(), self.spec_height(), x as int, y as int),
            r <= 8,
    {
        self.mine_near(x, y, 0, 0) + self.mine_near(x, y, 1, 0) + self.mine_near(x, y, 2, 0)
            + self.mine_near(x, y, 0, 1) + self.mine_near(x, y, 2, 1)
            + self.mine_near(x, y, 0, 2) + self.mine_near(x, y, 1, 2) + self.mine_near(x, y, 2, 2)
    }

    /// A freshly built board: the invariant holds, no mine went off, and every cell that is
    /// not a mine is hidden.
    pub open spec fn is_fresh(&self) -> bool {
        &&& self.wf()
        &&& !self.spec_over()
        &&& forall|x: int, y: int|
            self.in_board(x, y) ==> (#[trigger] self.cell_at(x, y)).is_mine() || self.cell_at(x, y).is_hidden()
    }

    /// A board of hidden, mine-free cells.
    fn blank(width: usize, height: usize) -> (b: Board)
        requires
            0 < width,
            0 < height,
            width * height <= usize::MAX,
        ensures
            b.shaped(),
            b.spec_width() == width,
            b.spec_height() == height,
            b.spec_mine_count() == 0,
            !b.spec_over(),
            grid_mines(b.grid()) == 0,
            forall|x: int, y: int| b.in_board(x, y) ==> #[trigger] b.cell_at(x, y) == (Cell::Hidden { adjacent_mines: 0 }),
    {
        let mut cells: Vec<Vec<Cell>> = Vec::new();
        let mut y: usize = 0;
        while y < height
            invariant
                y <= height,
                cells@.len() == y,
                forall|j: int, i: int| 0 <= j < y && 0 <= i < width ==> #[trigger] cells@[j]@[i] == (Cell::Hidden { adjacent_mines: 0 }),
                forall|j: int| 0 <= j < y ==> #[trigger] cells@[j]@.len() == width,
                grid_mines(cells@.map_values(|r: Vec<Cell>| r@)) == 0,
            decreases height - y,
        {
            let mut row: Vec<Cell> = Vec::new();
            let mut x: usize = 0;
            while x < width
                invariant
                    x <= width,
                    row@.len() == x,
                    forall|i: int| 0 <= i < x ==> #[trigger] row@[i] == (Cell::Hidden { adjacent_mines: 0 }),
                    row_mines(row@) == 0,
                decreases width - x,
            {
                let ghost before = row@;
                row.push(Cell::Hidden { adjacent_mines: 0 });
                assert(row@.drop_last() =~= before);
                x += 1;
            }
            let ghost before = cells@.map_values(|r: Vec<Cell>| r@);
            cells.push(row);
            assert(cells@.map_values(|r: Vec<Cell>| r@).drop_last() =~= before);
            y += 1;
        }
        let b = Board { width, height, cells, mine_count: 0, game_over: false };
        assert forall|x: int, y: int| b.in_board(x, y) implies #[trigger] b.cell_at(x, y) == (Cell::Hidden { adjacent_mines: 0 }) by {
            assert(b.grid()[y] == b.cells@[y]@);
        }
        assert forall|j: int| 0 <= j < height implies #[trigger] b.grid()[j].len() == width by {
            assert(b.grid()[j] == b.cells@[j]@);
        }
        b
    }

    /// The number of mines on the board.
    fn total_mines(&self) -> (r: usize)
        requires
            self.shaped(),
        ensures
            r == grid_mines(self.grid()),
    {
        let ghost g = self.grid();
        let ghost w = self.spec_width();
        let ghost h = self.spec_height();
        let mut count: usize = 0;
        let mut y: usize = 0;
        while y < self.height
            invariant
                self.shaped(),
                g == self.grid(),
                w == self.width,
                h == self.height,
                y <= h,
                count == grid_mines(g.take(y as int)),
            decreases h - y,
        {
            assert(g[y as int] == self.cells@[y as int]@);
            let mut x: usize = 0;
            while x < self.width
                invariant
                    self.shaped(),
                    g == self.grid(),
                    w == self.width,
                    h == self.height,
                    y < h,
                    x <= w,
                    g[y as int] == self.cells@[y as int]@,
                    count == grid_mines(g.take(y as int)) + row_mines(g[y as int].take(x as int)),
                decreases w - x,
            {
                proof {
                    assert(shaped(g.take(y as int), w, y as int));
                    lemma_grid_split(g.take(y as int), w, y as int);
                    crate::grid::lemma_row_split(g[y as int].take(x as int));
                    assert(y * w + x < w * h) by (nonlinear_arith)
                        requires
                            y < h,
                            x < w,
                    ;
                    assert(g[y as int].take(x + 1).drop_last() =~= g[y as int].take(x as int));
                }
                if matches!(self.cells[y][x], Cell::Mine) {
                    count += 1;
                }
                x += 1;
            }
            proof {
                assert(g.take(y + 1).drop_last() =~= g.take(y as int));
                assert(g[y as int].take(w) =~= g[y as int]);
            }
            y += 1;
        }
        assert(g.take(h) =~= g);
        count
    }

    /// The position of the cell numbered `r` among the cells without a mine, row by row.
    fn nth_free(&self, r: usize) -> (p: (usize, usize))
        requires
            self.shaped(),
            r < grid_free(self.grid()),
        ensures
            self.in_board(p.0 as int, p.1 as int),
            !self.cell_at(p.0 as int, p.1 as int).is_mine(),
    {
        let ghost g = self.grid();
        let ghost w = self.spec_width();
        let ghost h = self.spec_height();
        let mut seen: usize = 0;
        let mut y: usize = 0;
        while y < self.height
            invariant
                self.shaped(),
                g == self.grid(),
                w == self.width,
                h == self.height,
                y <= h,
                r < grid_free(g),
                seen <= r,
                seen == grid_free(g.take(y as int)),
            decreases h - y,
        {
            assert(g[y as int] == self.cells@[y as int]@);
            let mut x: usize = 0;
            while x < self.width
                invariant
                    self.shaped(),
                    g == self.grid(),
                    w == self.width,
                    h == self.height,
                    y < h,
                    x <= w,
                    r < grid_free(g),
                    seen <= r,
                    g[y as int] == self.cells@[y as int]@,
                    seen == grid_free(g.take(y as int)) + row_free(g[y as int].take(x as int)),
                decreases w - x,
            {
                proof {
                    assert(g[y as int].take(x + 1).drop_last() =~= g[y as int].take(x as int));
                }
                if !matches!(self.cells[y][x], Cell::Mine) {
                    if seen == r {
                        return (x, y);
                    }
                    seen += 1;
                }
                x += 1;
            }
            proof {
                assert(g.take(y + 1).drop_last() =~= g.take(y as int));
                assert(g[y as int].take(w) =~= g[y as int]);
            }
            y += 1;
        }
        assert(g.take(h) =~= g);
        (0, 0)
    }

    /// Writes one cell.
    fn set_cell(&mut self, x: usize, y: usize, c: Cell)
        requires
            old(self).shaped(),
            old(self).in_board(x as int, y as int),
        ensures
            final(self).shaped(),
            final(self).spec_width() == old(self).spec_width(),
            final(self).spec_height() == old(self).spec_height(),
            final(self).spec_mine_count() == old(self).spec_mine_count(),
            final(self).spec_over() == old(self).spec_over(),
            final(self).grid() == old(self).grid().update(
                y as int,
                old(self).grid()[y as int].update(x as int, c),
            ),
    {
        let ghost g = self.grid();
        assert(g[y as int] == self.cells@[y as int]@);
        self.cells[y][x] = c;
        assert(self.grid() =~= g.update(y as int, g[y as int].update(x as int, c)));
        assert forall|j: int| 0 <= j < self.height implies #[trigger] self.grid()[j].len() == self.width by {
            assert(g[j].len() == self.width);
        }
    }

    /// Gives every cell without a mine its neighbour count, as a hidden cell.
    fn fill_counts(&mut self)
        requires
            old(self).shaped(),
        ensures
            final(self).shaped(),
            final(self).spec_width() == old(self).spec_width(),
            final(self).spec_height() == old(self).spec_height(),
            final(self).spec_mine_count() == old(self).spec_mine_count(),
            final(self).spec_over() == old(self).spec_over(),
            same_mines(old(self).grid(), final(self).grid(), old(self).spec_width(), old(self).spec_height()),
            counts_correct(final(self).grid(), final(self).spec_width(), final(self).spec_height()),
            forall|x: int, y: int|
                final(self).in_board(x, y) ==> (#[trigger] final(self).cell_at(x, y)).is_mine()
                    || final(self).cell_at(x, y).is_hidden(),
    {
        let ghost g0 = self.grid();
        let ghost w = self.spec_width();
        let ghost h = self.spec_height();
        let ghost m = self.spec_mine_count();
        let ghost o = self.spec_over();
        let mut y: usize = 0;
        while y < self.height
            invariant
                self.shaped(),
                w == self.width,
                h == self.height,
                m == self.mine_count,
                o == self.game_over,
                y <= h,
                same_mines(g0, self.grid(), w, h),
                forall|i: int, j: int|
                    0 <= i < w && 0 <= j < y && !g0[j][i].is_mine() ==> #[trigger] self.grid()[j][i]
                        == (Cell::Hidden { adjacent_mines: adjacent_mines(g0, w, h, i, j) as usize }),
            decreases h - y,
        {
            let mut x: usize = 0;
            while x < self.width
                invariant
                    self.shaped(),
                    w == self.width,
                    h == self.height,
                    m == self.mine_count,
                    o == self.game_over,
                    y < h,
                    x <= w,
                    same_mines(g0, self.grid(), w, h),
                    forall|i: int, j: int|
                        0 <= i < w && (0 <= j < y || (j == y && i < x)) && !g0[j][i].is_mine()
                            ==> #[trigger] self.grid()[j][i] == (Cell::Hidden {
                            adjacent_mines: adjacent_mines(g0, w, h, i, j) as usize,
                        }),
                decreases w - x,
            {
                assert(self.grid()[y as int] == self.cells@[y as int]@);
                if !matches!(self.cells[y][x], Cell::Mine) {
                    proof {
                        lemma_same_mines(g0, self.grid(), w, h);
                    }
                    let n = self.count_adjacent_mines(x, y);
                    let ghost before = self.grid();
                    self.set_cell(x, y, Cell::Hidden { adjacent_mines: n });
                    assert forall|i: int, j: int| in_bounds(w, h, i, j) implies (#[trigger] g0[j][i]).is_mine()
                        == self.grid()[j][i].is_mine() by {
                        assert(g0[j][i].is_mine() == before[j][i].is_mine());
                    }
                }
                x += 1;
            }
            y += 1;
        }
        proof {
            lemma_same_mines(g0, self.grid(), w, h);
        }
    }

    /// Places `count` mines on cells without one, each drawn uniformly among those still free.
    fn place_mines(&mut self, count: usize)
        requires
            old(self).shaped(),
            grid_mines(old(self).grid()) == 0,
            count < old(self).spec_width() * old(self).spec_height(),
        ensures
            final(self).shaped(),
            final(self).spec_width() == old(self).spec_width(),
            final(self).spec_height() == old(self).spec_height(),
            final(self).spec_mine_count() == old(self).spec_mine_count(),
            final(self).spec_over() == old(self).spec_over(),
            grid_mines(final(self).grid()) == count,
    {
        let ghost w = self.spec_width();
        let ghost h = self.spec_height();
        let ghost m = self.spec_mine_count();
        let ghost o = self.spec_over();
        let area = self.width * self.height;
        let mut placed: usize = 0;
        while placed < count
            invariant
                self.shaped(),
                w == self.width,
                h == self.height,
                m == self.mine_count,
                o == self.game_over,
                area == w * h,
                placed <= count,
                count < area,
                grid_mines(self.grid()) == placed,
            decreases count - placed,
        {
            proof {
                lemma_grid_split(self.grid(), w, h);
            }
            let free = area - placed;
            let r = random_below(free);
            let (x, y) = self.nth_free(r);
            let ghost before = self.grid();
            self.set_cell(x, y, Cell::Mine);
            proof {
                lemma_grid_update(before, x as int, y as int, Cell::Mine);
            }
            placed += 1;
        }
    }

    /// Builds a `width` x `height` board with `mine_count` mines at random positions.
    pub fn new(width: usize, height: usize, mine_count: usize) -> (r: Result<Board, BoardError>)
        requires
            width * height <= usize::MAX,
        ensures
            (width == 0 || height == 0) <==> r == Err::<Board, BoardError>(BoardError::EmptyBoard),
            (width > 0 && height > 0 && mine_count >= width * height) <==> r == Err::<Board, BoardError>(
                BoardError::TooManyMines,
            ),
            r is Ok <==> (width > 0 && height > 0 && mine_count < width * height),
            r matches Ok(b) ==> b.is_fresh() && b.spec_width() == width && b.spec_height() == height
                && b.spec_mine_count() == mine_count && grid_mines(b.grid()) == mine_count && counts_correct(
                b.grid(),
                width as int,
                height as int,
            ),
    {
        if width == 0 || height == 0 {
            return Err(BoardError::EmptyBoard);
        }
        if mine_count >= width * height {
            return Err(BoardError::TooManyMines);
        }
        let mut board = Board::blank(width, height);
        board.place_mines(mine_count);
        board.mine_count = mine_count;
        let ghost placed = board.grid();
        board.fill_counts();
        proof {
            lemma_same_mines(placed, board.grid(), width as int, height as int);
        }
        Ok(board)
    }

    /// Builds a `width` x `height` board with a mine wherever `layout[y][x]` is true.
    pub fn from_layout(width: usize, height: usize, layout: &Vec<Vec<bool>>) -> (r: Result<Board, BoardError>)
        requires
            width * height <= usize::MAX,
        ensures
            (width == 0 || height == 0) <==> r == Err::<Board, BoardError>(BoardError::EmptyBoard),
            (width > 0 && height > 0 && !layout_fits(layout@, width as int, height as int)) <==> r
                == Err::<Board, BoardError>(BoardError::RaggedLayout),
            (width > 0 && height > 0 && layout_fits(layout@, width as int, height as int) && grid_mines(
                layout_grid(layout@),
            ) >= width * height) <==> r == Err::<Board, BoardError>(BoardError::TooManyMines),
            r matches Ok(b) ==> b.is_fresh() && b.spec_width() == width && b.spec_height() == height
                && b.spec_mine_count() == grid_mines(layout_grid(layout@)) && forall|x: int, y: int|
                b.in_board(x, y) ==> (#[trigger] b.cell_at(x, y)).is_mine() == layout@[y]@[x],
    {
        if width == 0 || height == 0 {
            return Err(BoardError::EmptyBoard);
        }
        if layout.len() != height {
            return Err(BoardError::RaggedLayout);
        }
        let mut j: usize = 0;
        while j < height
            invariant
                0 < width,
                0 < height,
                j <= height,
                layout@.len() == height,
                forall|k: int| 0 <= k < j ==> (#[trigger] layout@[k])@.len() == width,
            decreases height - j,
        {
            if layout[j].len() != width {
                return Err(BoardError::RaggedLayout);
            }
            j += 1;
        }
        let ghost w = width as int;
        let ghost h = height as int;
        let mut board = Board::blank(width, height);
        assert forall|i: int, j: int| in_bounds(w, h, i, j) implies !(#[trigger] board.grid()[j][i]).is_mine()
            && board.grid()[j][i].is_hidden() by {
            assert(board.cell_at(i, j) == (Cell::Hidden { adjacent_mines: 0 }));
        }
        let mut y: usize = 0;
        while y < height
            invariant
                board.shaped(),
                board.width == width,
                board.height == height,
                board.mine_count == 0,
                !board.game_over,
                w == width,
                h == height,
                layout_fits(layout@, w, h),
                y <= h,
                forall|i: int, j: int|
                    in_bounds(w, h, i, j) ==> (#[trigger] board.grid()[j][i]).is_mine() == (j < y
                        && layout@[j]@[i]) && (board.grid()[j][i].is_mine() || board.grid()[j][i].is_hidden()),
            decreases h - y,
        {
            let mut x: usize = 0;
            while x < width
                invariant
                    board.shaped(),
                    board.width == width,
                    board.height == height,
                    board.mine_count == 0,
                    !board.game_over,
                    w == width,
                    h == height,
                    layout_fits(layout@, w, h),
                    y < h,
                    x <= w,
                    forall|i: int, j: int|
                        in_bounds(w, h, i, j) ==> (#[trigger] board.grid()[j][i]).is_mine() == ((j < y || (
                        j == y && i < x)) && layout@[j]@[i]) && (board.grid()[j][i].is_mine()
                            || board.grid()[j][i].is_hidden()),
                decreases w - x,
            {
                assert(layout@[y as int]@.len() == width);
                if layout[y][x] {
                    board.set_cell(x, y, Cell::Mine);
                }
                x += 1;
            }
            y += 1;
        }
        assert(same_mines(board.grid(), layout_grid(layout@), w, h));
        proof {
            lemma_same_mines(board.grid(), layout_grid(layout@), w, h);
        }
        let total = board.total_mines();
        if total >= width * height {
            return Err(BoardError::TooManyMines);
        }
        board.mine_count = total;
        let ghost placed = board.grid();
        board.fill_counts();
        proof {
            lemma_same_mines(placed, board.grid(), w, h);
        }
        assert forall|x: int, y: int| board.in_board(x, y) implies (#[trigger] board.cell_at(x, y)).is_mine()
            == layout@[y]@[x] by {
            assert(placed[y][x].is_mine() == layout@[y]@[x]);
        }
        Ok(board)
    }

    /// Reveals the neighbour `(ax + dx - 1, ay + dy - 1)` of the expanded position `(ax, ay)`
    /// if it is hidden, and queues it for expansion when its count is zero.
    fn flood_step(
        &mut self,
        stack: &mut Vec<(usize, usize)>,
        ax: usize,
        ay: usize,
        dx: usize,
        dy: usize,
        Ghost(g0): Ghost<Seq<Seq<Cell>>>,
        Ghost(px): Ghost<int>,
        Ghost(py): Ghost<int>,
    )
        requires
            old(self).shaped(),
            flood_state(g0, old(self).grid(), old(self).spec_width(), old(self).spec_height(), px, py, old(stack)@),
            settled_except(g0, old(self).grid(), old(self).spec_width(), old(self).spec_height(), old(stack)@, ax as int, ay as int),
            old(self).in_board(ax as int, ay as int),
            flooded(g0, old(self).grid(), ax as int, ay as int),
            g0[ay as int][ax as int] == (Cell::Hidden { adjacent_mines: 0 }),
            dx <= 2,
            dy <= 2,
        ensures
            final(self).shaped(),
            final(self).spec_width() == old(self).spec_width(),
            final(self).spec_height() == old(self).spec_height(),
            final(self).spec_mine_count() == old(self).spec_mine_count(),
            final(self).spec_over() == old(self).spec_over(),
            flood_state(g0, final(self).grid(), old(self).spec_width(), old(self).spec_height(), px, py, final(stack)@),
            settled_except(g0, final(self).grid(), old(self).spec_width(), old(self).spec_height(), final(stack)@, ax as int, ay as int),
            forall|i: int, j: int|
                old(self).in_board(i, j) && #[trigger] flooded(g0, old(self).grid(), i, j) ==> flooded(g0, final(self).grid(), i, j),
            spreads(g0, old(self).spec_width(), old(self).spec_height(), ax as int, ay as int, ax + dx - 1, ay + dy - 1)
                ==> flooded(g0, final(self).grid(), ax + dx - 1, ay + dy - 1),
            grid_hidden(final(self).grid()) + final(stack)@.len() <= grid_hidden(old(self).grid()) + old(stack)@.len(),
    {
        let ghost w = self.spec_width();
        let ghost h = self.spec_height();
        match self.neighbor(ax, ay, dx, dy) {
            Some((bx, by)) => {
                assert(self.grid()[by as int] == self.cells@[by as int]@);
                match self.cells[by][bx] {
                    Cell::Hidden { adjacent_mines } => {
                        let ghost g = self.grid();
                        let ghost s = stack@;
                        assert(g[by as int][bx as int] == g0[by as int][bx as int]);
                        self.set_cell(bx, by, Cell::Revealed { adjacent_mines });
                        if adjacent_mines == 0 {
                            stack.push((bx, by));
                        }
                        proof {
                            let ng = self.grid();
                            lemma_grid_hidden_update(g, bx as int, by as int, Cell::Revealed { adjacent_mines });
                            assert(spreads(g0, w, h, ax as int, ay as int, bx as int, by as int));
                            assert forall|t: Set<(int, int)>| #[trigger] closed_region(g0, w, h, t) && t.contains((px, py))
                                implies t.contains((bx as int, by as int)) by {
                                assert(in_flood(g0, w, h, px, py, ax as int, ay as int));
                                assert(t.contains((ax as int, ay as int)));
                            }
                            assert forall|qx: int, qy: int| #[trigger] pending(s, qx, qy) implies pending(stack@, qx, qy) by {
                                let i = choose|i: int| 0 <= i < s.len() && (#[trigger] s[i]).0 == qx && s[i].1 == qy;
                                assert(stack@[i] == s[i]);
                            }
                            assert forall|i: int, j: int| in_bounds(w, h, i, j) && #[trigger] flooded(g0, g, i, j) implies flooded(g0, ng, i, j) by {
                                if i == bx && j == by {
                                    assert(!g[j][i].is_hidden());
                                }
                            }
                            assert forall|i: int|
                                0 <= i < stack@.len() implies in_bounds(w, h, (#[trigger] stack@[i]).0 as int, stack@[i].1 as int)
                                && flooded(g0, ng, stack@[i].0 as int, stack@[i].1 as int)
                                && g0[stack@[i].1 as int][stack@[i].0 as int] == (Cell::Hidden { adjacent_mines: 0 }) by {
                                if i < s.len() {
                                    assert(stack@[i] == s[i]);
                                    assert(flooded(g0, g, s[i].0 as int, s[i].1 as int));
                                }
                            }
                            assert forall|x: int, y: int| in_bounds(w, h, x, y) && #[trigger] flooded(g0, ng, x, y)
                                implies in_flood(g0, w, h, px, py, x, y) by {
                                if x != bx || y != by {
                                    assert(flooded(g0, g, x, y));
                                }
                            }
                            assert forall|x: int, y: int| in_bounds(w, h, x, y) implies #[trigger] ng[y][x] == g0[y][x] || flooded(g0, ng, x, y) by {
                                if x != bx || y != by {
                                    assert(g[y][x] == g0[y][x] || flooded(g0, g, x, y));
                                }
                            }
                            assert forall|qx: int, qy: int, rx: int, ry: int|
                                #[trigger] spreads(g0, w, h, qx, qy, rx, ry) && flooded(g0, ng, qx, qy) && !flooded(g0, ng, rx, ry)
                                && (qx != ax || qy != ay) implies pending(stack@, qx, qy) by {
                                if qx == bx && qy == by {
                                    assert(stack@[stack@.len() - 1] == (bx, by));
                                } else {
                                    assert(flooded(g0, g, qx, qy));
                                    assert(!flooded(g0, g, rx, ry));
                                    assert(pending(s, qx, qy));
                                }
                            }
                        }
                    },
                    _ => {},
                }
            },
            None => {},
        }
    }

    /// Reveals the hidden cell `(x, y)`, whose count is `n`, and every cell that spreading from
    /// it reaches, using an explicit stack of positions still to expand.
    fn flood(&mut self, x: usize, y: usize, n: usize)
        requires
            old(self).wf(),
            old(self).in_board(x as int, y as int),
            old(self).cell_at(x as int, y as int) == (Cell::Hidden { adjacent_mines: n }),
        ensures
            final(self).wf(),
            final(self).spec_width() == old(self).spec_width(),
            final(self).spec_height() == old(self).spec_height(),
            final(self).spec_mine_count() == old(self).spec_mine_count(),
            final(self).spec_over() == old(self).spec_over(),
            final(self).grid() == flood_result(old(self).grid(), old(self).spec_width(), old(self).spec_height(), x as int, y as int),
    {
        let ghost g0 = self.grid();
        let ghost w = self.spec_width();
        let ghost h = self.spec_height();
        let ghost m = self.spec_mine_count();
        let ghost o = self.spec_over();
        let ghost p = (x as int, y as int);
        self.set_cell(x, y, Cell::Revealed { adjacent_mines: n });
        let mut stack: Vec<(usize, usize)> = Vec::new();
        if n == 0 {
            stack.push((x, y));
        }
        proof {
            let g = self.grid();
            assert forall|i: int, j: int| in_bounds(w, h, i, j) && #[trigger] flooded(g0, g, i, j)
                implies in_flood(g0, w, h, x as int, y as int, i, j) by {
                assert(i == x && j == y);
            }
            assert forall|qx: int, qy: int, rx: int, ry: int|
                #[trigger] spreads(g0, w, h, qx, qy, rx, ry) && flooded(g0, g, qx, qy) && !flooded(g0, g, rx, ry)
                && (qx != -1 || qy != -1) implies pending(stack@, qx, qy) by {
                assert(stack@[0] == (x, y));
            }
            assert(forall|i: int, j: int| in_bounds(w, h, i, j) ==> #[trigger] g[j][i] == g0[j][i] || flooded(g0, g, i, j));
        }
        while stack.len() > 0
            invariant
                self.shaped(),
                w == self.width,
                h == self.height,
                m == self.mine_count,
                o == self.game_over,
                flood_state(g0, self.grid(), w, h, x as int, y as int, stack@),
                settled_except(g0, self.grid(), w, h, stack@, -1, -1),
            decreases grid_hidden(self.grid()) + stack@.len(),
        {
            let ghost before = grid_hidden(self.grid()) + stack@.len();
            let ghost s0 = stack@;
            match stack.pop() {
                Some((ax, ay)) => {
                    proof {
                        assert(s0[s0.len() - 1] == (ax, ay));
                        assert forall|i: int| 0 <= i < stack@.len() implies #[trigger] stack@[i] == s0[i] by {}
                        assert forall|qx: int, qy: int| #[trigger] pending(s0, qx, qy) && (qx != ax || qy != ay)
                            implies pending(stack@, qx, qy) by {
                            let i = choose|i: int| 0 <= i < s0.len() && (#[trigger] s0[i]).0 == qx && s0[i].1 == qy;
                            assert(i != s0.len() - 1);
                            assert(stack@[i] == s0[i]);
                        }
                        let g = self.grid();
                        assert forall|qx: int, qy: int, rx: int, ry: int|
                            #[trigger] spreads(g0, w, h, qx, qy, rx, ry) && flooded(g0, g, qx, qy) && !flooded(g0, g, rx, ry)
                            && (qx != ax || qy != ay) implies pending(stack@, qx, qy) by {
                            assert(pending(s0, qx, qy));
                        }
                    }
                    let mut dy: usize = 0;
                    while dy < 3
                        invariant
                            self.shaped(),
                            w == self.width,
                            h == self.height,
                            m == self.mine_count,
                            o == self.game_over,
                            dy <= 3,
                            in_bounds(w, h, ax as int, ay as int),
                            flooded(g0, self.grid(), ax as int, ay as int),
                            g0[ay as int][ax as int] == (Cell::Hidden { adjacent_mines: 0 }),
                            flood_state(g0, self.grid(), w, h, x as int, y as int, stack@),
                            settled_except(g0, self.grid(), w, h, stack@, ax as int, ay as int),
                            grid_hidden(self.grid()) + stack@.len() < before,
                            forall|bx: int, by: int|
                                #[trigger] spreads(g0, w, h, ax as int, ay as int, bx, by) && by - ay + 1 < dy
                                    ==> flooded(g0, self.grid(), bx, by),
                        decreases 3 - dy,
                    {
                        let mut dx: usize = 0;
                        while dx < 3
                            invariant
                                self.shaped(),
                                w == self.width,
                                h == self.height,
                                m == self.mine_count,
                                o == self.game_over,
                                dy < 3,
                                dx <= 3,
                                in_bounds(w, h, ax as int, ay as int),
                                flooded(g0, self.grid(), ax as int, ay as int),
                                g0[ay as int][ax as int] == (Cell::Hidden { adjacent_mines: 0 }),
                                flood_state(g0, self.grid(), w, h, x as int, y as int, stack@),
                                settled_except(g0, self.grid(), w, h, stack@, ax as int, ay as int),
                                grid_hidden(self.grid()) + stack@.len() < before,
                                forall|bx: int, by: int|
                                    #[trigger] spreads(g0, w, h, ax as int, ay as int, bx, by) && (by - ay + 1 < dy || (
                                    by - ay + 1 == dy && bx - ax + 1 < dx)) ==> flooded(g0, self.grid(), bx, by),
                            decreases 3 - dx,
                        {
                            let ghost g = self.grid();
                            self.flood_step(&mut stack, ax, ay, dx, dy, Ghost(g0), Ghost(x as int), Ghost(y as int));
                            proof {
                                assert forall|bx: int, by: int|
                                    #[trigger] spreads(g0, w, h, ax as int, ay as int, bx, by) && (by - ay + 1 < dy || (
                                    by - ay + 1 == dy && bx - ax + 1 < dx + 1)) implies flooded(g0, self.grid(), bx, by) by {
                                    if by - ay + 1 < dy || bx - ax + 1 < dx {
                                        assert(flooded(g0, g, bx, by));
                                    }
                                }
                            }
                            dx += 1;
                        }
                        dy += 1;
                    }
                    proof {
                        let g = self.grid();
                        assert forall|qx: int, qy: int, rx: int, ry: int|
                            #[trigger] spreads(g0, w, h, qx, qy, rx, ry) && flooded(g0, g, qx, qy) && !flooded(g0, g, rx, ry)
                            && (qx != -1 || qy != -1) implies pending(stack@, qx, qy) by {
                            if qx == ax && qy == ay {
                                assert(flooded(g0, g, rx, ry));
                            }
                        }
                    }
                },
                None => {},
            }
        }
        proof {
            let g = self.grid();
            let c = Set::new(|q: (int, int)| in_bounds(w, h, q.0, q.1) && flooded(g0, g, q.0, q.1));
            assert forall|x1: int, y1: int, x2: int, y2: int|
                c.contains((x1, y1)) && #[trigger] spreads(g0, w, h, x1, y1, x2, y2) implies c.contains((x2, y2)) by {
                if !flooded(g0, g, x2, y2) {
                    assert(pending(stack@, x1, y1));
                }
            }
            assert(closed_region(g0, w, h, c));
            assert(c.contains((x as int, y as int)));
            let r = flood_result(g0, w, h, x as int, y as int);
            assert forall|i: int, j: int| in_bounds(w, h, i, j) implies #[trigger] g[j][i] == r[j][i] by {
                if in_flood(g0, w, h, x as int, y as int, i, j) {
                    assert(c.contains((i, j)));
                } else {
                    assert(!flooded(g0, g, i, j));
                    assert(g[j][i] == g0[j][i]);
                }
            }
            assert(g =~~= r);
            assert forall|i: int, j: int| in_bounds(w, h, i, j) implies (#[trigger] g0[j][i]).is_mine() == g[j][i].is_mine() by {
                assert(g[j][i] == g0[j][i] || flooded(g0, g, i, j));
            }
            lemma_same_mines(g0, g, w, h);
            assert forall|i: int, j: int| in_bounds(w, h, i, j) && !(#[trigger] g[j][i]).is_mine() implies g[j][i].count()
                == adjacent_mines(g, w, h, i, j) by {
                assert(g[j][i] == g0[j][i] || flooded(g0, g, i, j));
                assert(!g0[j][i].is_mine());
            }
        }
    }

    /// Reveals the cell at `(x, y)`. A hidden cell becomes revealed, and when none of its
    /// neighbours holds a mine the reveal spreads to its hidden neighbours in turn. A mine ends
    /// the game. Revealed and flagged cells, and any cell once the game is over, stay as they are.
    pub fn reveal_cell(&mut self, x: usize, y: usize)
        requires
            old(self).wf(),
            old(self).in_board(x as int, y as int),
        ensures
            final(self).wf(),
            final(self).spec_width() == old(self).spec_width(),
            final(self).spec_height() == old(self).spec_height(),
            final(self).spec_mine_count() == old(self).spec_mine_count(),
            old(self).spec_over() ==> final(self).grid() == old(self).grid() && final(self).spec_over(),
            !old(self).spec_over() && old(self).cell_at(x as int, y as int).is_mine() ==> final(self).grid()
                == old(self).grid() && final(self).spec_over(),
            !old(self).spec_over() && !old(self).cell_at(x as int, y as int).is_mine() ==> !final(self).spec_over()
                && final(self).grid() == flood_result(
                old(self).grid(),
                old(self).spec_width(),
                old(self).spec_height(),
                x as int,
                y as int,
            ),
            (final(self).grid(), final(self).spec_over()) == reveal_outcome(
                old(self).grid(),
                old(self).spec_width(),
                old(self).spec_height(),
                old(self).spec_over(),
                x as int,
                y as int,
            ),
    {
        if self.game_over {
            return;
        }
        assert(self.grid()[y as int] == self.cells@[y as int]@);
        match self.cells[y][x] {
            Cell::Hidden { adjacent_mines } => {
                self.flood(x, y, adjacent_mines);
            },
            Cell::Mine => {
                self.game_over = true;
            },
            _ => {
                proof {
                    lemma_flood_of_shown(self.grid(), self.spec_width(), self.spec_height(), x as int, y as int);
                }
            },
        }
    }

    /// Flags a hidden cell or unflags a flagged one, keeping its neighbour count either way.
    /// Revealed cells and mines, and any cell once the game is over, stay as they are.
    pub fn toggle_flag(&mut self, x: usize, y: usize)
        requires
            old(self).wf(),
            old(self).in_board(x as int, y as int),
        ensures
            final(self).wf(),
            final(self).spec_width() == old(self).spec_width(),
            final(self).spec_height() == old(self).spec_height(),
            final(self).spec_mine_count() == old(self).spec_mine_count(),
            final(self).spec_over() == old(self).spec_over(),
            old(self).spec_over() ==> final(self).grid() == old(self).grid(),
            !old(self).spec_over() ==> final(self).grid() == flag_result(old(self).grid(), x as int, y as int),
            (final(self).grid(), final(self).spec_over()) == flag_outcome(
                old(self).grid(),
                old(self).spec_over(),
                x as int,
                y as int,
            ),
    {
        if self.game_over {
            return;
        }
        let ghost g0 = self.grid();
        assert(self.grid()[y as int] == self.cells@[y as int]@);
        match self.cells[y][x] {
            Cell::Hidden { adjacent_mines } => {
                self.set_cell(x, y, Cell::Flagged { adjacent_mines });
            },
            Cell::Flagged { adjacent_mines } => {
                self.set_cell(x, y, Cell::Hidden { adjacent_mines });
            },
            _ => {
                assert(g0.update(y as int, g0[y as int].update(x as int, g0[y as int][x as int])) =~~= g0);
            },
        }
        proof {
            let g = self.grid();
            let w = self.spec_width();
            let h = self.spec_height();
            assert forall|i: int, j: int| in_bounds(w, h, i, j) implies (#[trigger] g0[j][i]).is_mine() == g[j][i].is_mine()
                && g0[j][i].count() == g[j][i].count() by {}
            lemma_same_mines(g0, g, w, h);
        }
    }

    /// The board as text: one line per row, each cell drawn as its glyph and a space.
    pub fn render(&self) -> (r: String)
        requires
            self.wf(),
        ensures
            r@ == render_grid(self.grid(), self.spec_over()),
    {
        let ghost g = self.grid();
        let ghost w = self.spec_width();
        let ghost h = self.spec_height();
        let mut out = String::new();
        let mut y: usize = 0;
        while y < self.height
            invariant
                self.wf(),
                g == self.grid(),
                w == self.width,
                h == self.height,
                y <= h,
                out@ == render_grid(g.take(y as int), self.game_over),
            decreases h - y,
        {
            assert(g[y as int] == self.cells@[y as int]@);
            let mut x: usize = 0;
            while x < self.width
                invariant
                    self.wf(),
                    g == self.grid(),
                    w == self.width,
                    h == self.height,
                    y < h,
                    x <= w,
                    g[y as int] == self.cells@[y as int]@,
                    out@ == render_grid(g.take(y as int), self.game_over) + render_row(g[y as int].take(x as int), self.game_over),
                decreases w - x,
            {
                let c = self.cells[y][x];
                proof {
                    assert(in_bounds(w, h, x as int, y as int));
                    assert(g[y as int][x as int] == c);
                    assert(g[y as int].take(x + 1).drop_last() =~= g[y as int].take(x as int));
                    if !c.is_mine() {
                        crate::grid::lemma_adjacent_mines_bound(g, w, h, x as int, y as int);
                    }
                }
                let ghost before = out@;
                push_char(&mut out, glyph(c, self.game_over));
                push_char(&mut out, ' ');
                assert(out@ =~= before + seq![glyph_spec(c, self.game_over), ' ']);
                x += 1;
            }
            let ghost before = out@;
            push_char(&mut out, '\n');
            proof {
                assert(g.take(y + 1).drop_last() =~= g.take(y as int));
                assert(g[y as int].take(w) =~= g[y as int]);
                assert(out@ =~= before + seq!['\n']);
            }
            y += 1;
        }
        assert(g.take(h) =~= g);
        out
    }

    pub fn width(&self) -> (r: usize)
        ensures
            r == self.spec_width(),
    {
        self.width
    }

    pub fn height(&self) -> (r: usize)
        ensures
            r == self.spec_height(),
    {
        self.height
    }

    pub fn mine_count(&self) -> (r: usize)
        ensures
            r == self.spec_mine_count(),
    {
        self.mine_count
    }

    /// Whether a mine has been revealed.
    pub fn is_over(&self) -> (r: bool)
        ensures
            r == self.spec_over(),
    {
        self.game_over
    }

    /// The cell at `(x, y)`.
    pub fn cell(&self, x: usize, y: usize) -> (r: Cell)
        requires
            self.shaped(),
            self.in_board(x as int, y as int),
        ensures
            r == self.cell_at(x as int, y as int),
    {
        assert(self.grid()[y as int] == self.cells@[y as int]@);
        self.cells[y][x]
    }

    /// Plays one line of input. A line that is not a command on this board leaves the board as
    /// it was and says why; a command reveals or flags its position.
    pub fn play_turn(&mut self, line: &str) -> (r: Result<Command, InputError>)
        requires
            old(self).wf(),
        ensures
            final(self).wf(),
            final(self).spec_width() == old(self).spec_width(),
            final(self).spec_height() == old(self).spec_height(),
            final(self).spec_mine_count() == old(self).spec_mine_count(),
            r == command_of(line@, old(self).spec_width(), old(self).spec_height()),
            r is Err ==> final(self).grid() == old(self).grid() && final(self).spec_over() == old(self).spec_over(),
            r matches Ok(c) ==> (final(self).grid(), final(self).spec_over()) == match c.action {
                Action::Reveal => reveal_outcome(
                    old(self).grid(),
                    old(self).spec_width(),
                    old(self).spec_height(),
                    old(self).spec_over(),
                    c.x as int,
                    c.y as int,
                ),
                Action::Flag => flag_outcome(old(self).grid(), old(self).spec_over(), c.x as int, c.y as int),
            },
    {
        let r = parse_command(line, self.width, self.height);
        if let Ok(c) = r {
            match c.action {
                Action::Reveal => self.reveal_cell(c.x, c.y),
                Action::Flag => self.toggle_flag(c.x, c.y),
            }
        }
        r
    }
}

} // verus!
