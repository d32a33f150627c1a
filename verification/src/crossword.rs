//! The crossword board: a fixed rectangle of cells, slot extraction from the
//! blocked-cell layout, pattern access along slots, and the backtracking
//! filler that commits dictionary words and restores the board on failure.

use vstd::prelude::*;

use crate::matcher::{Matcher, is_uppercase_letter};
use rand::rngs::StdRng;

verus! {

/// One board cell: open and unfilled, blocked, or filled with one letter.
#[derive(Clone, Copy, Debug, PartialEq, Eq, Structural)]
pub enum Cell {
    Empty,
    Black,
    Letter(char),
}

/// A board coordinate: column then row, both zero-based.
#[derive(Clone, Copy, Debug, PartialEq, Eq, Hash, Structural)]
pub struct Pos(pub usize, pub usize);

/// The direction a slot runs in: left to right, or top to bottom.
#[derive(Clone, Copy, Debug, PartialEq, Eq, Hash, Structural)]
pub enum Direction {
    Across,
    Down,
}

/// The crossword board.
pub struct Crossword {
    /// Number of columns.
    pub width: usize,
    /// Number of rows.
    pub height: usize,
    /// The cells, one inner vector per row.
    pub grid: Vec<Vec<Cell>>,
}

impl View for Crossword {
    type V = Seq<Seq<Cell>>;

    open spec fn view(&self) -> Seq<Seq<Cell>> {
        Seq::new(self.grid@.len(), |y: int| self.grid@[y]@)
    }
}

/// A rectangle of `h` rows, each `w` cells wide.
pub open spec fn grid_wf(g: Seq<Seq<Cell>>, w: int, h: int) -> bool {
    &&& g.len() == h
    &&& forall|y: int| 0 <= y < h ==> (#[trigger] g[y]).len() == w
}

/// The number of columns a grid view has.
pub open spec fn grid_width(g: Seq<Seq<Cell>>) -> int {
    if g.len() > 0 {
        g[0].len() as int
    } else {
        0
    }
}

/// Two grids with the same dimensions and `Black` cells in the same places;
/// their open cells may hold different letters or be empty.
pub open spec fn same_blacks(a: Seq<Seq<Cell>>, b: Seq<Seq<Cell>>) -> bool {
    &&& a.len() == b.len()
    &&& forall|y: int| 0 <= y < a.len() ==> (#[trigger] a[y]).len() == b[y].len()
    &&& forall|y: int, x: int|
        0 <= y < a.len() && 0 <= x < a[y].len() ==> ((#[trigger] a[y][x]) is Black <==> b[y][x]
            is Black)
}

/// Every letter of `a` still stands, unchanged, in `b`.
pub open spec fn letters_preserved(a: Seq<Seq<Cell>>, b: Seq<Seq<Cell>>) -> bool {
    forall|y: int, x: int|
        0 <= y < a.len() && 0 <= x < a[y].len() && (#[trigger] a[y][x]) is Letter ==> b[y][x]
            == a[y][x]
}

/// Every filled cell holds an uppercase ASCII letter.
pub open spec fn letters_uppercase(g: Seq<Seq<Cell>>) -> bool {
    forall|y: int, x: int|
        0 <= y < g.len() && 0 <= x < g[y].len() && (#[trigger] g[y][x]) is Letter
            ==> is_uppercase_letter(g[y][x]->0)
}

/// The cell `i` steps along a slot that starts at `pos`.
pub open spec fn cell_at(g: Seq<Seq<Cell>>, pos: Pos, i: int, dir: Direction) -> Cell {
    match dir {
        Direction::Across => g[pos.1 as int][pos.0 + i],
        Direction::Down => g[pos.1 + i][pos.0 as int],
    }
}

/// Whether a slot of `len` cells from `pos` lies inside the grid.
pub open spec fn slot_in_bounds(g: Seq<Seq<Cell>>, pos: Pos, len: int, dir: Direction) -> bool {
    match dir {
        Direction::Across => pos.1 < g.len() && pos.0 + len <= g[pos.1 as int].len(),
        Direction::Down => pos.1 + len <= g.len() && pos.0 < grid_width(g),
    }
}

/// Whether no cell of the slot is blocked.
pub open spec fn slot_open(g: Seq<Seq<Cell>>, pos: Pos, len: int, dir: Direction) -> bool {
    forall|i: int| 0 <= i < len ==> !(#[trigger] cell_at(g, pos, i, dir) is Black)
}

/// How an open cell reads as a pattern entry: a letter is fixed, an empty
/// cell is a wildcard.
pub open spec fn cell_as_pattern(c: Cell) -> Option<char> {
    match c {
        Cell::Empty => None,
        Cell::Black => None,
        Cell::Letter(ch) => Some(ch),
    }
}

/// How a pattern entry writes back into a cell.
pub open spec fn pattern_as_cell(o: Option<char>) -> Cell {
    match o {
        Some(c) => Cell::Letter(c),
        None => Cell::Empty,
    }
}

/// The pattern a slot currently shows.
pub open spec fn read_pattern(g: Seq<Seq<Cell>>, pos: Pos, len: int, dir: Direction) -> Seq<
    Option<char>,
> {
    Seq::new(len as nat, |i: int| cell_as_pattern(cell_at(g, pos, i, dir)))
}

/// Whether coordinate `(x, y)` lies on the slot of length `len` at `pos`.
pub open spec fn on_slot(pos: Pos, len: int, dir: Direction, x: int, y: int) -> bool {
    match dir {
        Direction::Across => y == pos.1 && pos.0 <= x < pos.0 + len,
        Direction::Down => x == pos.0 && pos.1 <= y < pos.1 + len,
    }
}

/// The offset of `(x, y)` along the slot at `pos`.
pub open spec fn slot_offset(pos: Pos, dir: Direction, x: int, y: int) -> int {
    match dir {
        Direction::Across => x - pos.0,
        Direction::Down => y - pos.1,
    }
}

/// The grid after a pattern is written over the slot: fixed entries become
/// letters, wildcards empty the cell; all other cells keep their value.
pub open spec fn write_pattern(
    g: Seq<Seq<Cell>>,
    pos: Pos,
    dir: Direction,
    p: Seq<Option<char>>,
) -> Seq<Seq<Cell>> {
    Seq::new(
        g.len(),
        |y: int|
            Seq::new(
                g[y].len(),
                |x: int|
                    if on_slot(pos, p.len() as int, dir, x, y) {
                        pattern_as_cell(p[slot_offset(pos, dir, x, y)])
                    } else {
                        g[y][x]
                    },
            ),
    )
}

/// The grid after a word is written over the slot, one letter per cell.
pub open spec fn write_word(g: Seq<Seq<Cell>>, pos: Pos, dir: Direction, w: Seq<char>) -> Seq<
    Seq<Cell>,
> {
    Seq::new(
        g.len(),
        |y: int|
            Seq::new(
                g[y].len(),
                |x: int|
                    if on_slot(pos, w.len() as int, dir, x, y) {
                        pattern_as_cell(Some(w[slot_offset(pos, dir, x, y)]))
                    } else {
                        g[y][x]
                    },
            ),
    )
}

/// Reading a slot back right after writing a pattern over it returns
/// exactly that pattern.
pub proof fn lemma_pattern_round_trip(
    g: Seq<Seq<Cell>>,
    w: int,
    h: int,
    pos: Pos,
    dir: Direction,
    p: Seq<Option<char>>,
)
    requires
        grid_wf(g, w, h),
        slot_in_bounds(g, pos, p.len() as int, dir),
    ensures
        read_pattern(write_pattern(g, pos, dir, p), pos, p.len() as int, dir) == p,
{
    let g2 = write_pattern(g, pos, dir, p);
    assert forall|i: int| 0 <= i < p.len() implies read_pattern(g2, pos, p.len() as int, dir)[i]
        == p[i] by {
        match dir {
            Direction::Across => {
                assert(cell_at(g2, pos, i, dir) == g2[pos.1 as int][pos.0 + i]);
            },
            Direction::Down => {
                assert(cell_at(g2, pos, i, dir) == g2[pos.1 + i][pos.0 as int]);
            },
        }
    }
    assert(read_pattern(write_pattern(g, pos, dir, p), pos, p.len() as int, dir) =~= p);
}

impl Crossword {
    /// The board is a rectangle of its declared dimensions.
    pub open spec fn wf(self) -> bool {
        grid_wf(self@, self.width as int, self.height as int)
    }

    /// A board of the given size with every cell open and unfilled.
    pub fn new(width: usize, height: usize) -> (c: Crossword)
        ensures
            c.wf(),
            c.width == width,
            c.height == height,
            forall|y: int, x: int| 0 <= y < height && 0 <= x < width ==> c@[y][x] == Cell::Empty,
    {
        let mut grid: Vec<Vec<Cell>> = Vec::new();
        let mut y: usize = 0;
        while y < height
            invariant
                y <= height,
                grid@.len() == y,
                forall|r: int| 0 <= r < y ==> (#[trigger] grid@[r])@.len() == width,
                forall|r: int, x: int|
                    0 <= r < y && 0 <= x < width ==> (#[trigger] grid@[r]@[x]) == Cell::Empty,
            decreases height - y,
        {
            let mut row: Vec<Cell> = Vec::new();
            let mut x: usize = 0;
            while x < width
                invariant
                    x <= width,
                    row@.len() == x,
                    forall|k: int| 0 <= k < x ==> (#[trigger] row@[k]) == Cell::Empty,
                decreases width - x,
            {
                row.push(Cell::Empty);
                x += 1;
            }
            grid.push(row);
            y += 1;
        }
        Crossword { width, height, grid }
    }

    /// The cell at column `x`, row `y`.
    pub fn get_cell(&self, x: usize, y: usize) -> (c: Cell)
        requires
            self.wf(),
            x < self.width,
            y < self.height,
        ensures
            c == self@[y as int][x as int],
    {
        self.grid[y][x]
    }

    /// Replaces the cell at column `x`, row `y`.
    pub fn set_cell(&mut self, x: usize, y: usize, c: Cell)
        requires
            old(self).wf(),
            x < old(self).width,
            y < old(self).height,
        ensures
            final(self).wf(),
            final(self).width == old(self).width,
            final(self).height == old(self).height,
            final(self)@ == old(self)@.update(y as int, old(self)@[y as int].update(x as int, c)),
    {
        proof {
            assert(self.grid@[y as int]@ == self@[y as int]);
        }
        let row = &mut self.grid[y];
        row[x] = c;
        proof {
            assert(self@ =~~= old(self)@.update(
                y as int,
                old(self)@[y as int].update(x as int, c),
            ));
        }
    }

    /// Reads the pattern of an across slot: `length` cells rightward from
    /// `pos`, none of them blocked.
    pub fn get_across(&self, pos: Pos, length: usize) -> (r: Vec<Option<char>>)
        requires
            self.wf(),
            pos.1 < self.height,
            pos.0 + length <= self.width,
            slot_open(self@, pos, length as int, Direction::Across),
        ensures
            r@ == read_pattern(self@, pos, length as int, Direction::Across),
    {
        let mut r: Vec<Option<char>> = Vec::new();
        let mut i: usize = 0;
        while i < length
            invariant
                self.wf(),
                pos.1 < self.height,
                pos.0 + length <= self.width,
                i <= length,
                r@.len() == i,
                forall|k: int|
                    0 <= k < i ==> r@[k] == cell_as_pattern(
                        #[trigger] cell_at(self@, pos, k, Direction::Across),
                    ),
            decreases length - i,
        {
            let c = self.get_cell(pos.0 + i, pos.1);
            r.push(
                match c {
                    Cell::Empty => None,
                    Cell::Letter(ch) => Some(ch),
                    Cell::Black => None,
                },
            );
            i += 1;
        }
        proof {
            assert(r@ =~= read_pattern(self@, pos, length as int, Direction::Across));
        }
        r
    }

    /// Reads the pattern of a down slot: `length` cells downward from
    /// `pos`, none of them blocked.
    pub fn get_down(&self, pos: Pos, length: usize) -> (r: Vec<Option<char>>)
        requires
            self.wf(),
            pos.0 < self.width,
            pos.1 + length <= self.height,
            slot_open(self@, pos, length as int, Direction::Down),
        ensures
            r@ == read_pattern(self@, pos, length as int, Direction::Down),
    {
        let mut r: Vec<Option<char>> = Vec::new();
        let mut i: usize = 0;
        while i < length
            invariant
                self.wf(),
                pos.0 < self.width,
                pos.1 + length <= self.height,
                i <= length,
                r@.len() == i,
                forall|k: int|
                    0 <= k < i ==> r@[k] == cell_as_pattern(
                        #[trigger] cell_at(self@, pos, k, Direction::Down),
                    ),
            decreases length - i,
        {
            let c = self.get_cell(pos.0, pos.1 + i);
            r.push(
                match c {
                    Cell::Empty => None,
                    Cell::Letter(ch) => Some(ch),
                    Cell::Black => None,
                },
            );
            i += 1;
        }
        proof {
            assert(r@ =~= read_pattern(self@, pos, length as int, Direction::Down));
        }
        r
    }

    /// Reads the pattern of an across slot; same as [`Crossword::get_across`].
    pub fn get_pattern_across(&self, pos: Pos, length: usize) -> (r: Vec<Option<char>>)
        requires
            self.wf(),
            pos.1 < self.height,
            pos.0 + length <= self.width,
            slot_open(self@, pos, length as int, Direction::Across),
        ensures
            r@ == read_pattern(self@, pos, length as int, Direction::Across),
    {
        self.get_across(pos, length)
    }

    /// Reads the pattern of a down slot; same as [`Crossword::get_down`].
    pub fn get_pattern_down(&self, pos: Pos, length: usize) -> (r: Vec<Option<char>>)
        requires
            self.wf(),
            pos.0 < self.width,
            pos.1 + length <= self.height,
            slot_open(self@, pos, length as int, Direction::Down),
        ensures
            r@ == read_pattern(self@, pos, length as int, Direction::Down),
    {
        self.get_down(pos, length)
    }

    /// Reads the pattern of the slot at `pos` in the given direction.
    pub fn get_pattern(&self, direction: Direction, pos: Pos, length: usize) -> (r: Vec<
        Option<char>,
    >)
        requires
            self.wf(),
            slot_in_bounds(self@, pos, length as int, direction),
            slot_open(self@, pos, length as int, direction),
        ensures
            r@ == read_pattern(self@, pos, length as int, direction),
    {
        match direction {
            Direction::Across => self.get_pattern_across(pos, length),
            Direction::Down => self.get_pattern_down(pos, length),
        }
    }

    /// Writes a pattern over an across slot: fixed entries become letters,
    /// wildcards empty the cells.
    pub fn set_pattern_across(&mut self, pos: Pos, pattern: &[Option<char>])
        requires
            old(self).wf(),
            pos.1 < old(self).height,
            pos.0 + pattern@.len() <= old(self).width,
        ensures
            final(self).wf(),
            final(self).width == old(self).width,
            final(self).height == old(self).height,
            final(self)@ == write_pattern(old(self)@, pos, Direction::Across, pattern@),
    {
        let n = pattern.len();
        let ghost target = write_pattern(old(self)@, pos, Direction::Across, pattern@);
        proof {
            assert(target.len() == old(self)@.len());
        }
        let mut i: usize = 0;
        while i < n
            invariant
                self.wf(),
                self.width == old(self).width,
                self.height == old(self).height,
                n == pattern@.len(),
                pos.1 < self.height,
                pos.0 + n <= self.width,
                i <= n,
                target == write_pattern(old(self)@, pos, Direction::Across, pattern@),
                forall|y: int| 0 <= y < self@.len() ==> (#[trigger] self@[y]).len() == target[y].len(),
                self@.len() == target.len(),
                forall|y: int, x: int|
                    0 <= y < self@.len() && 0 <= x < self@[y].len() ==> #[trigger] self@[y][x] == (
                    if on_slot(pos, i as int, Direction::Across, x, y) {
                        target[y][x]
                    } else {
                        old(self)@[y][x]
                    }),
            decreases n - i,
        {
            let c = match pattern[i] {
                Some(ch) => Cell::Letter(ch),
                None => Cell::Empty,
            };
            self.set_cell(pos.0 + i, pos.1, c);
            proof {
                assert(c == pattern_as_cell(pattern@[i as int]));
                assert forall|y: int, x: int|
                    0 <= y < self@.len() && 0 <= x < self@[y].len() implies #[trigger] self@[y][x]
                    == (if on_slot(pos, i + 1, Direction::Across, x, y) {
                    target[y][x]
                } else {
                    old(self)@[y][x]
                }) by {
                    if y == pos.1 && x == pos.0 + i {
                        assert(target[y][x] == pattern_as_cell(pattern@[i as int]));
                    }
                }
            }
            i += 1;
        }
        proof {
            assert(self@ =~~= target);
        }
    }

    /// Writes a pattern over a down slot: fixed entries become letters,
    /// wildcards empty the cells.
    pub fn set_pattern_down(&mut self, pos: Pos, pattern: &[Option<char>])
        requires
            old(self).wf(),
            pos.0 < old(self).width,
            pos.1 + pattern@.len() <= old(self).height,
        ensures
            final(self).wf(),
            final(self).width == old(self).width,
            final(self).height == old(self).height,
            final(self)@ == write_pattern(old(self)@, pos, Direction::Down, pattern@),
    {
        let n = pattern.len();
        let ghost target = write_pattern(old(self)@, pos, Direction::Down, pattern@);
        proof {
            assert(target.len() == old(self)@.len());
        }
        let mut i: usize = 0;
        while i < n
            invariant
                self.wf(),
                self.width == old(self).width,
                self.height == old(self).height,
                n == pattern@.len(),
                pos.0 < self.width,
                pos.1 + n <= self.height,
                i <= n,
                target == write_pattern(old(self)@, pos, Direction::Down, pattern@),
                forall|y: int| 0 <= y < self@.len() ==> (#[trigger] self@[y]).len() == target[y].len(),
                self@.len() == target.len(),
                forall|y: int, x: int|
                    0 <= y < self@.len() && 0 <= x < self@[y].len() ==> #[trigger] self@[y][x] == (
                    if on_slot(pos, i as int, Direction::Down, x, y) {
                        target[y][x]
                    } else {
                        old(self)@[y][x]
                    }),
            decreases n - i,
        {
            let c = match pattern[i] {
                Some(ch) => Cell::Letter(ch),
                None => Cell::Empty,
            };
            self.set_cell(pos.0, pos.1 + i, c);
            proof {
                assert(c == pattern_as_cell(pattern@[i as int]));
                assert forall|y: int, x: int|
                    0 <= y < self@.len() && 0 <= x < self@[y].len() implies #[trigger] self@[y][x]
                    == (if on_slot(pos, i + 1, Direction::Down, x, y) {
                    target[y][x]
                } else {
                    old(self)@[y][x]
                }) by {
                    if x == pos.0 && y == pos.1 + i {
                        assert(target[y][x] == pattern_as_cell(pattern@[i as int]));
                    }
                }
            }
            i += 1;
        }
        proof {
            assert(self@ =~~= target);
        }
    }

    /// Writes a pattern over the slot at `pos` in the given direction.
    pub fn set_pattern(&mut self, direction: Direction, pos: Pos, pattern: &[Option<char>])
        requires
            old(self).wf(),
            slot_in_bounds(old(self)@, pos, pattern@.len() as int, direction),
        ensures
            final(self).wf(),
            final(self).width == old(self).width,
            final(self).height == old(self).height,
            final(self)@ == write_pattern(old(self)@, pos, direction, pattern@),
    {
        match direction {
            Direction::Across => self.set_pattern_across(pos, pattern),
            Direction::Down => self.set_pattern_down(pos, pattern),
        }
    }

    /// Writes a word along the slot at `pos`, one letter per cell.
    pub fn set_word(&mut self, word: &str, pos: Pos, direction: Direction)
        requires
            old(self).wf(),
            slot_in_bounds(old(self)@, pos, word@.len() as int, direction),
        ensures
            final(self).wf(),
            final(self).width == old(self).width,
            final(self).height == old(self).height,
            final(self)@ == write_word(old(self)@, pos, direction, word@),
    {
        let n = word.unicode_len();
        let ghost target = write_word(old(self)@, pos, direction, word@);
        proof {
            assert(target.len() == old(self)@.len());
        }
        let mut i: usize = 0;
        while i < n
            invariant
                old(self).wf(),
                self.wf(),
                self.width == old(self).width,
                self.height == old(self).height,
                n == word@.len(),
                slot_in_bounds(old(self)@, pos, n as int, direction),
                i <= n,
                target == write_word(old(self)@, pos, direction, word@),
                self@.len() == target.len(),
                forall|y: int| 0 <= y < self@.len() ==> (#[trigger] self@[y]).len() == target[y].len(),
                forall|y: int, x: int|
                    0 <= y < self@.len() && 0 <= x < self@[y].len() ==> #[trigger] self@[y][x] == (
                    if on_slot(pos, i as int, direction, x, y) {
                        target[y][x]
                    } else {
                        old(self)@[y][x]
                    }),
            decreases n - i,
        {
            let c = word.get_char(i);
            match direction {
                Direction::Across => {
                    self.set_cell(pos.0 + i, pos.1, Cell::Letter(c));
                },
                Direction::Down => {
                    self.set_cell(pos.0, pos.1 + i, Cell::Letter(c));
                },
            }
            proof {
                assert forall|y: int, x: int|
                    0 <= y < self@.len() && 0 <= x < self@[y].len() implies #[trigger] self@[y][x]
                    == (if on_slot(pos, i + 1, direction, x, y) {
                    target[y][x]
                } else {
                    old(self)@[y][x]
                }) by {
                    if on_slot(pos, i + 1, direction, x, y) && !on_slot(
                        pos,
                        i as int,
                        direction,
                        x,
                        y,
                    ) {
                        assert(slot_offset(pos, direction, x, y) == i);
                        assert(target[y][x] == Cell::Letter(word@[i as int]));
                    }
                }
            }
            i += 1;
        }
        proof {
            assert(self@ =~~= target);
        }
    }
}

/// How many open cells run rightward from index `x` before a blocked cell
/// or the end of the line.
pub open spec fn run_len(line: Seq<Cell>, x: int) -> nat
    decreases line.len() - x,
{
    if 0 <= x < line.len() && !(line[x] is Black) {
        1 + run_len(line, x + 1)
    } else {
        0
    }
}

/// A run of open cells never reaches past the end of its line.
pub proof fn lemma_run_len_max(line: Seq<Cell>, x: int)
    requires
        0 <= x <= line.len(),
    ensures
        x + run_len(line, x) <= line.len(),
    decreases line.len() - x,
{
    if x < line.len() && !(line[x] is Black) {
        lemma_run_len_max(line, x + 1);
    }
}

/// The maximal open runs of a line from index `x` on, as `(start, length)`
/// pairs in scan order.
pub open spec fn line_slots_from(line: Seq<Cell>, x: int) -> Seq<(int, int)>
    decreases line.len() - x,
    via line_slots_from_decreases
{
    if !(0 <= x < line.len()) {
        Seq::<(int, int)>::empty()
    } else if line[x] is Black {
        line_slots_from(line, x + 1)
    } else {
        let n = 1 + run_len(line, x + 1);
        seq![(x, n as int)] + line_slots_from(line, x + n)
    }
}

#[via_fn]
proof fn line_slots_from_decreases(line: Seq<Cell>, x: int) {
    if 0 <= x < line.len() && !(line[x] is Black) {
        lemma_run_len_max(line, x + 1);
    }
}

/// The across slots of row `y`, as board positions.
pub open spec fn row_slot_list(line: Seq<Cell>, y: int) -> Seq<(Pos, usize)> {
    line_slots_from(line, 0).map_values(
        |pr: (int, int)| (Pos(pr.0 as usize, y as usize), pr.1 as usize),
    )
}

/// The across slots of rows `y` and below, in row order.
pub open spec fn across_slots_from(g: Seq<Seq<Cell>>, y: int) -> Seq<(Pos, usize)>
    decreases g.len() - y,
{
    if 0 <= y < g.len() {
        row_slot_list(g[y], y) + across_slots_from(g, y + 1)
    } else {
        Seq::<(Pos, usize)>::empty()
    }
}

/// Every across slot of the grid: the maximal horizontal runs of open
/// cells, scanned row by row.  Depends only on where the `Black` cells are.
pub open spec fn across_slots(g: Seq<Seq<Cell>>) -> Seq<(Pos, usize)> {
    across_slots_from(g, 0)
}

/// Column `x` of the grid, read top to bottom.
pub open spec fn col_seq(g: Seq<Seq<Cell>>, x: int) -> Seq<Cell> {
    Seq::new(g.len(), |y: int| g[y][x])
}

/// The down slots of column `x`, as board positions.
pub open spec fn col_slot_list(g: Seq<Seq<Cell>>, x: int) -> Seq<(Pos, usize)> {
    line_slots_from(col_seq(g, x), 0).map_values(
        |pr: (int, int)| (Pos(x as usize, pr.0 as usize), pr.1 as usize),
    )
}

/// The down slots of columns `x` and rightward, in column order.
pub open spec fn down_slots_from(g: Seq<Seq<Cell>>, x: int) -> Seq<(Pos, usize)>
    decreases grid_width(g) - x,
{
    if 0 <= x < grid_width(g) {
        col_slot_list(g, x) + down_slots_from(g, x + 1)
    } else {
        Seq::<(Pos, usize)>::empty()
    }
}

/// Every down slot of the grid: the maximal vertical runs of open cells,
/// scanned column by column.  Depends only on where the `Black` cells are.
pub open spec fn down_slots(g: Seq<Seq<Cell>>) -> Seq<(Pos, usize)> {
    down_slots_from(g, 0)
}

/// A run of open cells from `s` that is stopped at `x` has length `x - s`.
proof fn lemma_run_len_between(line: Seq<Cell>, s: int, x: int)
    requires
        0 <= s <= x <= line.len(),
        forall|i: int| s <= i < x ==> !((#[trigger] line[i]) is Black),
        x == line.len() || line[x] is Black,
    ensures
        run_len(line, s) == x - s,
    decreases x - s,
{
    if s < x {
        lemma_run_len_between(line, s + 1, x);
    }
}

impl Crossword {
    /// Lists every across slot: the maximal horizontal runs of open cells,
    /// scanned row by row, each as its start position and length.
    pub fn across_positions(&self) -> (r: Vec<(Pos, usize)>)
        requires
            self.wf(),
        ensures
            r@ == across_slots(self@),
    {
        let mut r: Vec<(Pos, usize)> = Vec::new();
        let mut y: usize = 0;
        while y < self.height
            invariant
                self.wf(),
                y <= self.height,
                across_slots(self@) == r@ + across_slots_from(self@, y as int),
            decreases self.height - y,
        {
            let ghost line = self@[y as int];
            let ghost r_entry = r@;
            let mut run_start: Option<usize> = None;
            let ghost mut done: Seq<(int, int)> = Seq::<(int, int)>::empty();
            let mut row_vec: Vec<(Pos, usize)> = Vec::new();
            let mut x: usize = 0;
            proof {
                assert(row_vec@ =~= done.map_values(
                    |pr: (int, int)| (Pos(pr.0 as usize, y as usize), pr.1 as usize),
                ));
            }
            while x < self.width
                invariant
                    self.wf(),
                    y < self.height,
                    x <= self.width,
                    line == self@[y as int],
                    line.len() == self.width,
                    row_vec@ == done.map_values(
                        |pr: (int, int)| (Pos(pr.0 as usize, y as usize), pr.1 as usize),
                    ),
                    match run_start {
                        None => {
                            &&& line_slots_from(line, 0) == done + line_slots_from(line, x as int)
                            &&& (x == self.width || x == 0 || line[x - 1] is Black)
                        },
                        Some(s) => {
                            &&& 0 <= s < x
                            &&& line_slots_from(line, 0) == done + line_slots_from(line, s as int)
                            &&& forall|i: int| s <= i < x ==> !((#[trigger] line[i]) is Black)
                        },
                    },
                decreases self.width - x,
            {
                let c = self.get_cell(x, y);
                let is_black = matches!(c, Cell::Black);
                match run_start {
                    None => {
                        if !is_black {
                            run_start = Some(x);
                        } else {
                            proof {
                                assert(line_slots_from(line, x as int) == line_slots_from(
                                    line,
                                    x + 1,
                                ));
                            }
                        }
                    },
                    Some(s) => {
                        if is_black {
                            row_vec.push((Pos(s, y), x - s));
                            proof {
                                lemma_run_len_between(line, s as int, x as int);
                                assert(line_slots_from(line, s as int) == seq![
                                    (s as int, (x - s) as int),
                                ] + line_slots_from(line, x as int));
                                assert(line_slots_from(line, x as int) == line_slots_from(
                                    line,
                                    x + 1,
                                ));
                                done = done.push((s as int, (x - s) as int));
                                assert(line_slots_from(line, 0) =~= done + line_slots_from(
                                    line,
                                    x + 1,
                                ));
                                assert(row_vec@ =~= done.map_values(
                                    |pr: (int, int)| (Pos(pr.0 as usize, y as usize), pr.1 as usize),
                                ));
                            }
                            run_start = None;
                        }
                    },
                }
                x += 1;
            }
            match run_start {
                Some(s) => {
                    row_vec.push((Pos(s, y), self.width - s));
                    proof {
                        lemma_run_len_between(line, s as int, self.width as int);
                        assert(line_slots_from(line, s as int) == seq![
                            (s as int, (self.width - s) as int),
                        ] + line_slots_from(line, self.width as int));
                        assert(line_slots_from(line, self.width as int) =~= Seq::<
                            (int, int),
                        >::empty());
                        done = done.push((s as int, (self.width - s) as int));
                        assert(line_slots_from(line, 0) =~= done);
                        assert(row_vec@ =~= done.map_values(
                            |pr: (int, int)| (Pos(pr.0 as usize, y as usize), pr.1 as usize),
                        ));
                    }
                },
                None => {
                    proof {
                        assert(line_slots_from(line, self.width as int) =~= Seq::<
                            (int, int),
                        >::empty());
                        assert(line_slots_from(line, 0) =~= done);
                    }
                },
            }
            proof {
                assert(row_vec@ == row_slot_list(line, y as int));
            }
            r.append(&mut row_vec);
            proof {
                assert(across_slots_from(self@, y as int) == row_slot_list(line, y as int)
                    + across_slots_from(self@, y + 1));
                assert(r@ =~= r_entry + row_slot_list(line, y as int));
                assert(across_slots(self@) =~= r@ + across_slots_from(self@, y + 1));
            }
            y += 1;
        }
        proof {
            assert(across_slots_from(self@, self.height as int) =~= Seq::<(Pos, usize)>::empty());
            assert(r@ =~= across_slots(self@));
        }
        r
    }

    /// Lists every down slot: the maximal vertical runs of open cells,
    /// scanned column by column, each as its start position and length.
    pub fn down_positions(&self) -> (r: Vec<(Pos, usize)>)
        requires
            self.wf(),
        ensures
            r@ == down_slots(self@),
    {
        let mut r: Vec<(Pos, usize)> = Vec::new();
        proof {
            if self.height == 0 {
                assert(grid_width(self@) == 0);
            }
            if self.height > 0 {
                assert(grid_width(self@) == self.width as int);
            }
        }
        let mut x: usize = 0;
        if self.height == 0 {
            proof {
                assert(down_slots_from(self@, 0) =~= Seq::<(Pos, usize)>::empty());
                assert(r@ =~= down_slots(self@));
            }
            return r;
        }
        while x < self.width
            invariant
                self.wf(),
                self.height > 0,
                grid_width(self@) == self.width as int,
                x <= self.width,
                down_slots(self@) == r@ + down_slots_from(self@, x as int),
            decreases self.width - x,
        {
            let ghost line = col_seq(self@, x as int);
            let ghost r_entry = r@;
            let mut run_start: Option<usize> = None;
            let ghost mut done: Seq<(int, int)> = Seq::<(int, int)>::empty();
            let mut col_vec: Vec<(Pos, usize)> = Vec::new();
            let mut y: usize = 0;
            proof {
                assert(col_vec@ =~= done.map_values(
                    |pr: (int, int)| (Pos(x as usize, pr.0 as usize), pr.1 as usize),
                ));
            }
            while y < self.height
                invariant
                    self.wf(),
                    x < self.width,
                    y <= self.height,
                    line == col_seq(self@, x as int),
                    line.len() == self.height,
                    col_vec@ == done.map_values(
                        |pr: (int, int)| (Pos(x as usize, pr.0 as usize), pr.1 as usize),
                    ),
                    match run_start {
                        None => {
                            &&& line_slots_from(line, 0) == done + line_slots_from(line, y as int)
                            &&& (y == self.height || y == 0 || line[y - 1] is Black)
                        },
                        Some(s) => {
                            &&& 0 <= s < y
                            &&& line_slots_from(line, 0) == done + line_slots_from(line, s as int)
                            &&& forall|i: int| s <= i < y ==> !((#[trigger] line[i]) is Black)
                        },
                    },
                decreases self.height - y,
            {
                let c = self.get_cell(x, y);
                let is_black = matches!(c, Cell::Black);
                proof {
                    assert(line[y as int] == self@[y as int][x as int]);
                }
                match run_start {
                    None => {
                        if !is_black {
                            run_start = Some(y);
                        } else {
                            proof {
                                assert(line_slots_from(line, y as int) == line_slots_from(
                                    line,
                                    y + 1,
                                ));
                            }
                        }
                    },
                    Some(s) => {
                        if is_black {
                            col_vec.push((Pos(x, s), y - s));
                            proof {
                                lemma_run_len_between(line, s as int, y as int);
                                assert(line_slots_from(line, s as int) == seq![
                                    (s as int, (y - s) as int),
                                ] + line_slots_from(line, y as int));
                                assert(line_slots_from(line, y as int) == line_slots_from(
                                    line,
                                    y + 1,
                                ));
                                done = done.push((s as int, (y - s) as int));
                                assert(line_slots_from(line, 0) =~= done + line_slots_from(
                                    line,
                                    y + 1,
                                ));
                                assert(col_vec@ =~= done.map_values(
                                    |pr: (int, int)| (Pos(x as usize, pr.0 as usize), pr.1 as usize),
                                ));
                            }
                            run_start = None;
                        }
                    },
                }
                y += 1;
            }
            match run_start {
                Some(s) => {
                    col_vec.push((Pos(x, s), self.height - s));
                    proof {
                        lemma_run_len_between(line, s as int, self.height as int);
                        assert(line_slots_from(line, s as int) == seq![
                            (s as int, (self.height - s) as int),
                        ] + line_slots_from(line, self.height as int));
                        assert(line_slots_from(line, self.height as int) =~= Seq::<
                            (int, int),
                        >::empty());
                        done = done.push((s as int, (self.height - s) as int));
                        assert(line_slots_from(line, 0) =~= done);
                        assert(col_vec@ =~= done.map_values(
                            |pr: (int, int)| (Pos(x as usize, pr.0 as usize), pr.1 as usize),
                        ));
                    }
                },
                None => {
                    proof {
                        assert(line_slots_from(line, self.height as int) =~= Seq::<
                            (int, int),
                        >::empty());
                        assert(line_slots_from(line, 0) =~= done);
                    }
                },
            }
            proof {
                assert(col_vec@ == col_slot_list(self@, x as int));
            }
            r.append(&mut col_vec);
            proof {
                assert(down_slots_from(self@, x as int) == col_slot_list(self@, x as int)
                    + down_slots_from(self@, x + 1));
                assert(r@ =~= r_entry + col_slot_list(self@, x as int));
                assert(down_slots(self@) =~= r@ + down_slots_from(self@, x + 1));
            }
            x += 1;
        }
        proof {
            assert(down_slots_from(self@, self.width as int) =~= Seq::<(Pos, usize)>::empty());
            assert(r@ =~= down_slots(self@));
        }
        r
    }
}

/// A usable slot: at least one cell, inside the grid, no cell blocked.
pub open spec fn slot_ok(g: Seq<Seq<Cell>>, pos: Pos, len: usize, dir: Direction) -> bool {
    &&& len >= 1
    &&& slot_in_bounds(g, pos, len as int, dir)
    &&& slot_open(g, pos, len as int, dir)
}

/// Every cell of the slot holds a letter, and those letters spell a word
/// the dictionary holds.
pub open spec fn slot_spells_word(
    g: Seq<Seq<Cell>>,
    m: Matcher,
    pos: Pos,
    len: usize,
    dir: Direction,
) -> bool {
    &&& forall|i: int| 0 <= i < len ==> (#[trigger] cell_at(g, pos, i, dir)) is Letter
    &&& m.has_word(Seq::new(len as nat, |i: int| cell_at(g, pos, i, dir)->0))
}

/// Open runs only pass over open cells.
proof fn lemma_run_len_open(line: Seq<Cell>, x: int)
    ensures
        forall|i: int| x <= i < x + run_len(line, x) ==> !((#[trigger] line[i]) is Black),
    decreases line.len() - x,
{
    if 0 <= x < line.len() && !(line[x] is Black) {
        lemma_run_len_open(line, x + 1);
    }
}

/// Two lines with blocked cells in the same places have equal runs.
proof fn lemma_run_len_same_blacks(a: Seq<Cell>, b: Seq<Cell>, x: int)
    requires
        a.len() == b.len(),
        forall|i: int| 0 <= i < a.len() ==> ((#[trigger] a[i]) is Black <==> b[i] is Black),
    ensures
        run_len(a, x) == run_len(b, x),
    decreases a.len() - x,
{
    if 0 <= x < a.len() && !(a[x] is Black) {
        lemma_run_len_same_blacks(a, b, x + 1);
    }
}

/// Two lines with blocked cells in the same places have equal slot lists.
proof fn lemma_line_slots_same_blacks(a: Seq<Cell>, b: Seq<Cell>, x: int)
    requires
        a.len() == b.len(),
        forall|i: int| 0 <= i < a.len() ==> ((#[trigger] a[i]) is Black <==> b[i] is Black),
    ensures
        line_slots_from(a, x) == line_slots_from(b, x),
    decreases a.len() - x,
{
    if !(0 <= x < a.len()) {
    } else if a[x] is Black {
        lemma_line_slots_same_blacks(a, b, x + 1);
    } else {
        lemma_run_len_same_blacks(a, b, x);
        lemma_run_len_same_blacks(a, b, x + 1);
        lemma_run_len_max(a, x + 1);
        lemma_line_slots_same_blacks(a, b, x + run_len(a, x));
    }
}

/// Row induction for [`lemma_slots_same_blacks`].
proof fn lemma_across_from_same_blacks(a: Seq<Seq<Cell>>, b: Seq<Seq<Cell>>, y: int)
    requires
        same_blacks(a, b),
    ensures
        across_slots_from(a, y) == across_slots_from(b, y),
    decreases a.len() - y,
{
    if 0 <= y < a.len() {
        lemma_line_slots_same_blacks(a[y], b[y], 0);
        lemma_across_from_same_blacks(a, b, y + 1);
    }
}

/// Column induction for [`lemma_slots_same_blacks`].
proof fn lemma_down_from_same_blacks(
    a: Seq<Seq<Cell>>,
    b: Seq<Seq<Cell>>,
    w: int,
    h: int,
    x: int,
)
    requires
        same_blacks(a, b),
        grid_wf(a, w, h),
        grid_wf(b, w, h),
    ensures
        down_slots_from(a, x) == down_slots_from(b, x),
    decreases grid_width(a) - x,
{
    if 0 <= x < grid_width(a) {
        assert(grid_width(a) == grid_width(b));
        assert forall|i: int|
            0 <= i < col_seq(a, x).len() implies ((#[trigger] col_seq(a, x)[i]) is Black
            <==> col_seq(b, x)[i] is Black) by {
            assert(col_seq(a, x)[i] == a[i][x]);
            assert(col_seq(b, x)[i] == b[i][x]);
        }
        lemma_line_slots_same_blacks(col_seq(a, x), col_seq(b, x), 0);
        lemma_down_from_same_blacks(a, b, w, h, x + 1);
    } else {
        assert(grid_width(a) == grid_width(b));
    }
}

/// Slot extraction depends only on where the `Black` cells are: two grids
/// of the same shape whose open cells differ only in letters or emptiness
/// yield exactly the same across and down slot lists.
pub proof fn lemma_slots_same_blacks(a: Seq<Seq<Cell>>, b: Seq<Seq<Cell>>, w: int, h: int)
    requires
        same_blacks(a, b),
        grid_wf(a, w, h),
        grid_wf(b, w, h),
    ensures
        across_slots(a) == across_slots(b),
        down_slots(a) == down_slots(b),
{
    lemma_across_from_same_blacks(a, b, 0);
    lemma_down_from_same_blacks(a, b, w, h, 0);
}

/// Every recorded run of a line starts at or after the scan start, stays
/// inside the line, has at least one cell, and covers no blocked cell.
proof fn lemma_line_slots_entries(line: Seq<Cell>, x0: int)
    requires
        0 <= x0,
    ensures
        forall|k: int|
            0 <= k < line_slots_from(line, x0).len() ==> {
                let e = #[trigger] line_slots_from(line, x0)[k];
                &&& x0 <= e.0
                &&& e.0 + e.1 <= line.len()
                &&& e.1 >= 1
                &&& forall|i: int| e.0 <= i < e.0 + e.1 ==> !((#[trigger] line[i]) is Black)
            },
    decreases line.len() - x0,
{
    if !(0 <= x0 < line.len()) {
    } else if line[x0] is Black {
        lemma_line_slots_entries(line, x0 + 1);
        assert forall|k: int| 0 <= k < line_slots_from(line, x0).len() implies {
            let e = #[trigger] line_slots_from(line, x0)[k];
            &&& x0 <= e.0
            &&& e.0 + e.1 <= line.len()
            &&& e.1 >= 1
            &&& forall|i: int| e.0 <= i < e.0 + e.1 ==> !((#[trigger] line[i]) is Black)
        } by {
            assert(line_slots_from(line, x0)[k] == line_slots_from(line, x0 + 1)[k]);
        }
    } else {
        let n = run_len(line, x0) as int;
        lemma_run_len_max(line, x0 + 1);
        lemma_run_len_open(line, x0);
        lemma_line_slots_entries(line, x0 + n);
        let whole = line_slots_from(line, x0);
        let rest = line_slots_from(line, x0 + n);
        assert(whole == seq![(x0, n)] + rest);
        assert forall|k: int| 0 <= k < whole.len() implies {
            let e = #[trigger] whole[k];
            &&& x0 <= e.0
            &&& e.0 + e.1 <= line.len()
            &&& e.1 >= 1
            &&& forall|i: int| e.0 <= i < e.0 + e.1 ==> !((#[trigger] line[i]) is Black)
        } by {
            if k == 0 {
                assert(whole[0] == (x0, n));
            } else {
                assert(whole[k] == rest[k - 1]);
            }
        }
    }
}

/// Every open cell at or after the scan start lies on a recorded run.
proof fn lemma_line_slots_cover(line: Seq<Cell>, x0: int, x: int)
    requires
        0 <= x0 <= x < line.len(),
        !(line[x] is Black),
    ensures
        exists|k: int|
            0 <= k < line_slots_from(line, x0).len() && (#[trigger] line_slots_from(line, x0)[k]).0
                <= x < line_slots_from(line, x0)[k].0 + line_slots_from(line, x0)[k].1,
    decreases line.len() - x0,
{
    let whole = line_slots_from(line, x0);
    if line[x0] is Black {
        lemma_line_slots_cover(line, x0 + 1, x);
        let k = choose|k: int|
            0 <= k < line_slots_from(line, x0 + 1).len() && (#[trigger] line_slots_from(
                line,
                x0 + 1,
            )[k]).0 <= x < line_slots_from(line, x0 + 1)[k].0 + line_slots_from(line, x0 + 1)[k].1;
        assert(whole[k] == line_slots_from(line, x0 + 1)[k]);
    } else {
        let n = run_len(line, x0) as int;
        lemma_run_len_max(line, x0 + 1);
        let rest = line_slots_from(line, x0 + n);
        assert(whole == seq![(x0, n)] + rest);
        if x < x0 + n {
            assert(whole[0] == (x0, n));
        } else {
            lemma_line_slots_cover(line, x0 + n, x);
            let k = choose|k: int|
                0 <= k < rest.len() && (#[trigger] rest[k]).0 <= x < rest[k].0 + rest[k].1;
            assert(whole[k + 1] == rest[k]);
        }
    }
}

/// Every listed across slot is usable, and every open cell lies on one.
pub proof fn lemma_across_slots_good(g: Seq<Seq<Cell>>, w: int, h: int)
    requires
        grid_wf(g, w, h),
        w <= usize::MAX,
        h <= usize::MAX,
    ensures
        forall|k: int|
            0 <= k < across_slots(g).len() ==> slot_ok(
                g,
                (#[trigger] across_slots(g)[k]).0,
                across_slots(g)[k].1,
                Direction::Across,
            ),
        forall|x: int, y: int|
            0 <= y < h && 0 <= x < w && !((#[trigger] g[y][x]) is Black) ==> exists|k: int|
                0 <= k < across_slots(g).len() && (#[trigger] across_slots(g)[k]).0.1 == y
                    && across_slots(g)[k].0.0 <= x < across_slots(g)[k].0.0 + across_slots(g)[k].1,
{
    lemma_across_slots_good_from(g, w, h, 0);
    let slots = across_slots(g);
    assert forall|x: int, y: int|
        0 <= y < h && 0 <= x < w && !((#[trigger] g[y][x]) is Black) implies exists|k: int|
        0 <= k < slots.len() && (#[trigger] slots[k]).0.1 == y && slots[k].0.0 <= x < slots[k].0.0
        + slots[k].1 by {
        let k = choose|k: int|
            0 <= k < across_slots_from(g, 0).len() && (#[trigger] across_slots_from(g, 0)[k]).0.1
                == y && across_slots_from(g, 0)[k].0.0 <= x < across_slots_from(g, 0)[k].0.0
                + across_slots_from(g, 0)[k].1;
        assert(0 <= k < slots.len() && (slots[k]).0.1 == y && slots[k].0.0 <= x < slots[k].0.0
            + slots[k].1);
    }
}

/// Row induction for [`lemma_across_slots_good`].
proof fn lemma_across_slots_good_from(g: Seq<Seq<Cell>>, w: int, h: int, y0: int)
    requires
        grid_wf(g, w, h),
        w <= usize::MAX,
        h <= usize::MAX,
        0 <= y0,
    ensures
        forall|k: int|
            0 <= k < across_slots_from(g, y0).len() ==> slot_ok(
                g,
                (#[trigger] across_slots_from(g, y0)[k]).0,
                across_slots_from(g, y0)[k].1,
                Direction::Across,
            ) && y0 <= (across_slots_from(g, y0)[k]).0.1 < h,
        forall|x: int, y: int|
            y0 <= y < h && 0 <= x < w && !((#[trigger] g[y][x]) is Black) ==> exists|k: int|
                0 <= k < across_slots_from(g, y0).len() && (#[trigger] across_slots_from(
                    g,
                    y0,
                )[k]).0.1 == y && across_slots_from(g, y0)[k].0.0 <= x < across_slots_from(
                    g,
                    y0,
                )[k].0.0 + across_slots_from(g, y0)[k].1,
    decreases g.len() - y0,
{
    if 0 <= y0 < g.len() {
        let line = g[y0];
        let row = row_slot_list(line, y0);
        let rest = across_slots_from(g, y0 + 1);
        let whole = across_slots_from(g, y0);
        assert(whole == row + rest);
        lemma_line_slots_entries(line, 0);
        lemma_across_slots_good_from(g, w, h, y0 + 1);
        assert forall|k: int| 0 <= k < whole.len() implies slot_ok(
            g,
            (#[trigger] whole[k]).0,
            whole[k].1,
            Direction::Across,
        ) && y0 <= whole[k].0.1 < h by {
            if k < row.len() {
                assert(whole[k] == row[k]);
                let e = line_slots_from(line, 0)[k];
                assert(0 <= e.0 && e.0 + e.1 <= line.len() && e.1 >= 1);
                assert(row[k] == (Pos(e.0 as usize, y0 as usize), e.1 as usize));
                assert(whole[k].0.0 == e.0 && whole[k].0.1 == y0 && whole[k].1 == e.1);
                assert forall|i: int|
                    0 <= i < whole[k].1 implies !((#[trigger] cell_at(
                    g,
                    whole[k].0,
                    i,
                    Direction::Across,
                )) is Black) by {
                    assert(cell_at(g, whole[k].0, i, Direction::Across) == line[e.0 + i]);
                }
            } else {
                assert(whole[k] == rest[k - row.len()]);
            }
        }
        assert forall|x: int, y: int|
            y0 <= y < h && 0 <= x < w && !((#[trigger] g[y][x]) is Black) implies exists|k: int|
            0 <= k < whole.len() && (#[trigger] whole[k]).0.1 == y && whole[k].0.0 <= x < whole[
            k
        ].0.0 + whole[k].1 by {
            if y == y0 {
                lemma_line_slots_cover(line, 0, x);
                let j = choose|j: int|
                    0 <= j < line_slots_from(line, 0).len() && (#[trigger] line_slots_from(
                        line,
                        0,
                    )[j]).0 <= x < line_slots_from(line, 0)[j].0 + line_slots_from(line, 0)[j].1;
                let e = line_slots_from(line, 0)[j];
                assert(0 <= e.0 && e.0 + e.1 <= line.len() && e.1 >= 1);
                assert(whole[j] == row[j]);
                assert(row[j] == (Pos(e.0 as usize, y0 as usize), e.1 as usize));
                assert(whole[j].0.1 == y && whole[j].0.0 <= x < whole[j].0.0 + whole[j].1);
            } else {
                let k = choose|k: int|
                    0 <= k < rest.len() && (#[trigger] rest[k]).0.1 == y && rest[k].0.0 <= x < rest[
                    k
                ].0.0 + rest[k].1;
                assert(whole[k + row.len()] == rest[k]);
                assert(whole[k + row.len()].0.1 == y && whole[k + row.len()].0.0 <= x < whole[k
                    + row.len()].0.0 + whole[k + row.len()].1);
            }
        }
    }
}

/// Every listed down slot is usable, and every open cell lies on one.
pub proof fn lemma_down_slots_good(g: Seq<Seq<Cell>>, w: int, h: int)
    requires
        grid_wf(g, w, h),
        w <= usize::MAX,
        h <= usize::MAX,
        h > 0,
    ensures
        forall|k: int|
            0 <= k < down_slots(g).len() ==> slot_ok(
                g,
                (#[trigger] down_slots(g)[k]).0,
                down_slots(g)[k].1,
                Direction::Down,
            ),
        forall|x: int, y: int|
            0 <= y < h && 0 <= x < w && !((#[trigger] g[y][x]) is Black) ==> exists|k: int|
                0 <= k < down_slots(g).len() && (#[trigger] down_slots(g)[k]).0.0 == x
                    && down_slots(g)[k].0.1 <= y < down_slots(g)[k].0.1 + down_slots(g)[k].1,
{
    lemma_down_slots_good_from(g, w, h, 0);
    let slots = down_slots(g);
    assert forall|x: int, y: int|
        0 <= y < h && 0 <= x < w && !((#[trigger] g[y][x]) is Black) implies exists|k: int|
        0 <= k < slots.len() && (#[trigger] slots[k]).0.0 == x && slots[k].0.1 <= y < slots[k].0.1
        + slots[k].1 by {
        let k = choose|k: int|
            0 <= k < down_slots_from(g, 0).len() && (#[trigger] down_slots_from(g, 0)[k]).0.0 == x
                && down_slots_from(g, 0)[k].0.1 <= y < down_slots_from(g, 0)[k].0.1
                + down_slots_from(g, 0)[k].1;
        assert(0 <= k < slots.len() && (slots[k]).0.0 == x && slots[k].0.1 <= y < slots[k].0.1
            + slots[k].1);
    }
}

/// Column induction for [`lemma_down_slots_good`].
proof fn lemma_down_slots_good_from(g: Seq<Seq<Cell>>, w: int, h: int, x0: int)
    requires
        grid_wf(g, w, h),
        w <= usize::MAX,
        h <= usize::MAX,
        h > 0,
        0 <= x0,
    ensures
        forall|k: int|
            0 <= k < down_slots_from(g, x0).len() ==> slot_ok(
                g,
                (#[trigger] down_slots_from(g, x0)[k]).0,
                down_slots_from(g, x0)[k].1,
                Direction::Down,
            ) && x0 <= (down_slots_from(g, x0)[k]).0.0 < w,
        forall|x: int, y: int|
            0 <= y < h && x0 <= x < w && !((#[trigger] g[y][x]) is Black) ==> exists|k: int|
                0 <= k < down_slots_from(g, x0).len() && (#[trigger] down_slots_from(
                    g,
                    x0,
                )[k]).0.0 == x && down_slots_from(g, x0)[k].0.1 <= y < down_slots_from(
                    g,
                    x0,
                )[k].0.1 + down_slots_from(g, x0)[k].1,
    decreases grid_width(g) - x0,
{
    assert(grid_width(g) == w);
    if 0 <= x0 < w {
        let line = col_seq(g, x0);
        let col = col_slot_list(g, x0);
        let rest = down_slots_from(g, x0 + 1);
        let whole = down_slots_from(g, x0);
        assert(whole == col + rest);
        lemma_line_slots_entries(line, 0);
        lemma_down_slots_good_from(g, w, h, x0 + 1);
        assert forall|k: int| 0 <= k < whole.len() implies slot_ok(
            g,
            (#[trigger] whole[k]).0,
            whole[k].1,
            Direction::Down,
        ) && x0 <= whole[k].0.0 < w by {
            if k < col.len() {
                assert(whole[k] == col[k]);
                let e = line_slots_from(line, 0)[k];
                assert(0 <= e.0 && e.0 + e.1 <= line.len() && e.1 >= 1);
                assert(col[k] == (Pos(x0 as usize, e.0 as usize), e.1 as usize));
                assert(whole[k].0.0 == x0 && whole[k].0.1 == e.0 && whole[k].1 == e.1);
                assert forall|i: int|
                    0 <= i < whole[k].1 implies !((#[trigger] cell_at(
                    g,
                    whole[k].0,
                    i,
                    Direction::Down,
                )) is Black) by {
                    assert(line[e.0 + i] == g[e.0 + i][x0]);
                    assert(cell_at(g, whole[k].0, i, Direction::Down) == g[e.0 + i][x0]);
                }
            } else {
                assert(whole[k] == rest[k - col.len()]);
            }
        }
        assert forall|x: int, y: int|
            0 <= y < h && x0 <= x < w && !((#[trigger] g[y][x]) is Black) implies exists|k: int|
            0 <= k < whole.len() && (#[trigger] whole[k]).0.0 == x && whole[k].0.1 <= y < whole[
            k
        ].0.1 + whole[k].1 by {
            if x == x0 {
                assert(line[y] == g[y][x0]);
                lemma_line_slots_cover(line, 0, y);
                let j = choose|j: int|
                    0 <= j < line_slots_from(line, 0).len() && (#[trigger] line_slots_from(
                        line,
                        0,
                    )[j]).0 <= y < line_slots_from(line, 0)[j].0 + line_slots_from(line, 0)[j].1;
                let e = line_slots_from(line, 0)[j];
                assert(0 <= e.0 && e.0 + e.1 <= line.len() && e.1 >= 1);
                assert(whole[j] == col[j]);
                assert(col[j] == (Pos(x0 as usize, e.0 as usize), e.1 as usize));
                assert(whole[j].0.0 == x && whole[j].0.1 <= y < whole[j].0.1 + whole[j].1);
            } else {
                let k = choose|k: int|
                    0 <= k < rest.len() && (#[trigger] rest[k]).0.0 == x && rest[k].0.1 <= y < rest[
                    k
                ].0.1 + rest[k].1;
                assert(whole[k + col.len()] == rest[k]);
                assert(whole[k + col.len()].0.0 == x && whole[k + col.len()].0.1 <= y < whole[k
                    + col.len()].0.1 + whole[k + col.len()].1);
            }
        }
    }
}

/// How many dictionary words fit the slot's current pattern.
pub open spec fn slot_count(
    g: Seq<Seq<Cell>>,
    m: Matcher,
    pos: Pos,
    len: usize,
    dir: Direction,
) -> nat {
    m.found_strings(read_pattern(g, pos, len as int, dir)).len()
}

/// A sound match-count cache: every entry maps a pattern to its exact match
/// count under this dictionary.  Sound to keep across a whole fill, since
/// the dictionary never changes during one.
pub open spec fn cache_ok(c: Seq<(Vec<Option<char>>, usize)>, m: Matcher) -> bool {
    forall|k: int|
        0 <= k < c.len() ==> (#[trigger] c[k]).1 == m.found_strings(c[k].0@).len()
}

/// Whether two letter patterns hold the same entries.
fn pattern_eq(a: &Vec<Option<char>>, b: &Vec<Option<char>>) -> (r: bool)
    ensures
        r <==> a@ == b@,
{
    if a.len() != b.len() {
        proof {
            assert(a@ != b@);
        }
        return false;
    }
    let n = a.len();
    let mut i: usize = 0;
    while i < n
        invariant
            n == a@.len() && n == b@.len(),
            i <= n,
            forall|k: int| 0 <= k < i ==> a@[k] == b@[k],
        decreases n - i,
    {
        let same = match (a[i], b[i]) {
            (None, None) => true,
            (Some(x), Some(y)) => x == y,
            _ => false,
        };
        if !same {
            proof {
                assert(a@[i as int] != b@[i as int]);
            }
            return false;
        }
        i += 1;
    }
    proof {
        assert(a@ =~= b@);
    }
    true
}

/// The cached count for this pattern, if one was stored.
fn cache_lookup(cache: &Vec<(Vec<Option<char>>, usize)>, pattern: &Vec<Option<char>>) -> (r:
    Option<usize>)
    ensures
        match r {
            Some(s) => exists|k: int|
                0 <= k < cache@.len() && (#[trigger] cache@[k]).0@ == pattern@ && cache@[k].1 == s,
            None => true,
        },
{
    let n = cache.len();
    let mut i: usize = 0;
    while i < n
        invariant
            n == cache@.len(),
            i <= n,
        decreases n - i,
    {
        if pattern_eq(&cache[i].0, pattern) {
            let s = cache[i].1;
            proof {
                assert(cache@[i as int].0@ == pattern@ && cache@[i as int].1 == s);
            }
            return Some(s);
        }
        i += 1;
    }
    None
}

impl Crossword {
    /// The match count of one slot, from the cache where it already holds
    /// the pattern, from the dictionary otherwise (and then cached).
    fn slot_score(
        &self,
        matcher: &Matcher,
        pos: Pos,
        length: usize,
        dir: Direction,
        cache: &mut Vec<(Vec<Option<char>>, usize)>,
    ) -> (score: usize)
        requires
            self.wf(),
            matcher.wf(),
            matcher.trie.size() < usize::MAX,
            letters_uppercase(self@),
            slot_ok(self@, pos, length, dir),
            cache_ok(old(cache)@, *matcher),
        ensures
            cache_ok(final(cache)@, *matcher),
            score == slot_count(self@, *matcher, pos, length, dir),
            score < usize::MAX,
    {
        let cells = self.get_pattern(dir, pos, length);
        proof {
            assert forall|k: int|
                0 <= k < cells@.len() implies match #[trigger] cells@[k] {
                Some(c) => crate::matcher::is_ascii_letter(c),
                None => true,
            } by {
                assert(cells@[k] == cell_as_pattern(cell_at(self@, pos, k, dir)));
                match dir {
                    Direction::Across => {
                        assert(cell_at(self@, pos, k, dir) == self@[pos.1 as int][pos.0 + k]);
                    },
                    Direction::Down => {
                        assert(cell_at(self@, pos, k, dir) == self@[pos.1 + k][pos.0 as int]);
                    },
                }
            }
            crate::trie::lemma_found_le_size(
                matcher.trie,
                crate::matcher::pattern_indices(cells@),
            );
        }
        let cached = cache_lookup(cache, &cells);
        match cached {
            Some(s) => s,
            None => {
                let s = matcher.count_matches(cells.as_slice());
                cache.push((cells, s));
                s
            },
        }
    }

    /// Picks the next slot to fill: the one with the fewest matching words
    /// over both lists, across lists searched first and winning ties, the
    /// first slot seen winning ties within a list.  `None` exactly when
    /// both lists are empty.
    fn choice_pos(
        &self,
        matcher: &Matcher,
        across: &Vec<(Pos, usize)>,
        down: &Vec<(Pos, usize)>,
        cache: &mut Vec<(Vec<Option<char>>, usize)>,
    ) -> (r: Option<(Pos, usize, usize, Direction)>)
        requires
            self.wf(),
            matcher.wf(),
            matcher.trie.size() < usize::MAX,
            letters_uppercase(self@),
            forall|k: int|
                0 <= k < across@.len() ==> slot_ok(
                    self@,
                    (#[trigger] across@[k]).0,
                    across@[k].1,
                    Direction::Across,
                ),
            forall|k: int|
                0 <= k < down@.len() ==> slot_ok(
                    self@,
                    (#[trigger] down@[k]).0,
                    down@[k].1,
                    Direction::Down,
                ),
            cache_ok(old(cache)@, *matcher),
        ensures
            cache_ok(final(cache)@, *matcher),
            match r {
                None => across@.len() == 0 && down@.len() == 0,
                Some((pos, length, index, dir)) => {
                    let chosen = slot_count(self@, *matcher, pos, length, dir);
                    match dir {
                        Direction::Across => {
                            &&& index < across@.len()
                            &&& across@[index as int] == (pos, length)
                            &&& forall|k: int|
                                0 <= k < across@.len() ==> slot_count(
                                    self@,
                                    *matcher,
                                    (#[trigger] across@[k]).0,
                                    across@[k].1,
                                    Direction::Across,
                                ) >= chosen
                            &&& forall|k: int|
                                0 <= k < index ==> slot_count(
                                    self@,
                                    *matcher,
                                    (#[trigger] across@[k]).0,
                                    across@[k].1,
                                    Direction::Across,
                                ) > chosen
                            &&& forall|k: int|
                                0 <= k < down@.len() ==> slot_count(
                                    self@,
                                    *matcher,
                                    (#[trigger] down@[k]).0,
                                    down@[k].1,
                                    Direction::Down,
                                ) >= chosen
                        },
                        Direction::Down => {
                            &&& index < down@.len()
                            &&& down@[index as int] == (pos, length)
                            &&& forall|k: int|
                                0 <= k < down@.len() ==> slot_count(
                                    self@,
                                    *matcher,
                                    (#[trigger] down@[k]).0,
                                    down@[k].1,
                                    Direction::Down,
                                ) >= chosen
                            &&& forall|k: int|
                                0 <= k < index ==> slot_count(
                                    self@,
                                    *matcher,
                                    (#[trigger] down@[k]).0,
                                    down@[k].1,
                                    Direction::Down,
                                ) > chosen
                            &&& forall|k: int|
                                0 <= k < across@.len() ==> slot_count(
                                    self@,
                                    *matcher,
                                    (#[trigger] across@[k]).0,
                                    across@[k].1,
                                    Direction::Across,
                                ) > chosen
                        },
                    }
                },
            },
    {
        let mut a_best: Option<(Pos, usize, usize)> = None;
        let mut a_score: usize = usize::MAX;
        let an = across.len();
        let mut i: usize = 0;
        while i < an
            invariant
                self.wf(),
                matcher.wf(),
                matcher.trie.size() < usize::MAX,
                letters_uppercase(self@),
                an == across@.len(),
                i <= an,
                forall|k: int|
                    0 <= k < across@.len() ==> slot_ok(
                        self@,
                        (#[trigger] across@[k]).0,
                        across@[k].1,
                        Direction::Across,
                    ),
                cache_ok(cache@, *matcher),
                match a_best {
                    None => i == 0 && a_score == usize::MAX,
                    Some((bp, bl, bi)) => {
                        &&& bi < i
                        &&& across@[bi as int] == (bp, bl)
                        &&& a_score == slot_count(self@, *matcher, bp, bl, Direction::Across)
                        &&& a_score < usize::MAX
                        &&& forall|k: int|
                            0 <= k < i ==> slot_count(
                                self@,
                                *matcher,
                                (#[trigger] across@[k]).0,
                                across@[k].1,
                                Direction::Across,
                            ) >= a_score
                        &&& forall|k: int|
                            0 <= k < bi ==> slot_count(
                                self@,
                                *matcher,
                                (#[trigger] across@[k]).0,
                                across@[k].1,
                                Direction::Across,
                            ) > a_score
                    },
                },
            decreases an - i,
        {
            let (pos, length) = across[i];
            let score = self.slot_score(matcher, pos, length, Direction::Across, cache);
            if a_best.is_none() || score < a_score {
                a_best = Some((pos, length, i));
                a_score = score;
            }
            i += 1;
        }
        let mut d_best: Option<(Pos, usize, usize)> = None;
        let mut d_score: usize = usize::MAX;
        let dn = down.len();
        let mut j: usize = 0;
        while j < dn
            invariant
                self.wf(),
                matcher.wf(),
                matcher.trie.size() < usize::MAX,
                letters_uppercase(self@),
                dn == down@.len(),
                j <= dn,
                forall|k: int|
                    0 <= k < down@.len() ==> slot_ok(
                        self@,
                        (#[trigger] down@[k]).0,
                        down@[k].1,
                        Direction::Down,
                    ),
                cache_ok(cache@, *matcher),
                match d_best {
                    None => j == 0 && d_score == usize::MAX,
                    Some((bp, bl, bi)) => {
                        &&& bi < j
                        &&& down@[bi as int] == (bp, bl)
                        &&& d_score == slot_count(self@, *matcher, bp, bl, Direction::Down)
                        &&& d_score < usize::MAX
                        &&& forall|k: int|
                            0 <= k < j ==> slot_count(
                                self@,
                                *matcher,
                                (#[trigger] down@[k]).0,
                                down@[k].1,
                                Direction::Down,
                            ) >= d_score
                        &&& forall|k: int|
                            0 <= k < bi ==> slot_count(
                                self@,
                                *matcher,
                                (#[trigger] down@[k]).0,
                                down@[k].1,
                                Direction::Down,
                            ) > d_score
                    },
                },
            decreases dn - j,
        {
            let (pos, length) = down[j];
            let score = self.slot_score(matcher, pos, length, Direction::Down, cache);
            if d_best.is_none() || score < d_score {
                d_best = Some((pos, length, j));
                d_score = score;
            }
            j += 1;
        }
        if a_score <= d_score {
            match a_best {
                Some((pos, length, index)) => Some((pos, length, index, Direction::Across)),
                None => {
                    proof {
                        if down@.len() > 0 {
                            assert(d_best is Some);
                            assert(d_score < usize::MAX);
                        }
                    }
                    None
                },
            }
        } else {
            match d_best {
                Some((pos, length, index)) => Some((pos, length, index, Direction::Down)),
                None => None,
            }
        }
    }
}

/// `gf` solves the remaining constraint problem on `g`: it has the same
/// blocks, keeps every letter already placed, writes only uppercase
/// letters, and spells a dictionary word over every slot still listed.
pub open spec fn solves(
    g: Seq<Seq<Cell>>,
    m: Matcher,
    across: Seq<(Pos, usize)>,
    down: Seq<(Pos, usize)>,
    gf: Seq<Seq<Cell>>,
) -> bool {
    &&& same_blacks(g, gf)
    &&& letters_preserved(g, gf)
    &&& letters_uppercase(gf)
    &&& forall|k: int|
        0 <= k < across.len() ==> slot_spells_word(
            gf,
            m,
            (#[trigger] across[k]).0,
            across[k].1,
            Direction::Across,
        )
    &&& forall|k: int|
        0 <= k < down.len() ==> slot_spells_word(
            gf,
            m,
            (#[trigger] down[k]).0,
            down[k].1,
            Direction::Down,
        )
}

/// Some board solves the remaining constraint problem on `g`.
pub open spec fn fillable(
    g: Seq<Seq<Cell>>,
    m: Matcher,
    across: Seq<(Pos, usize)>,
    down: Seq<(Pos, usize)>,
) -> bool {
    exists|gf: Seq<Seq<Cell>>| #[trigger] solves(g, m, across, down, gf)
}

/// Some board with this one's blocks and letters spells a dictionary word
/// over every slot: the exact condition under which a fill can succeed.
pub open spec fn board_fillable(g: Seq<Seq<Cell>>, m: Matcher) -> bool {
    fillable(g, m, across_slots(g), down_slots(g))
}

/// The word a solution spells over a slot is among the candidates that the
/// dictionary lists for the slot's current pattern.
proof fn lemma_solution_word_is_candidate(
    g: Seq<Seq<Cell>>,
    m: Matcher,
    gf: Seq<Seq<Cell>>,
    w: int,
    h: int,
    pos: Pos,
    length: usize,
    dir: Direction,
)
    requires
        m.wf(),
        grid_wf(g, w, h),
        slot_ok(g, pos, length, dir),
        same_blacks(g, gf),
        letters_preserved(g, gf),
        letters_uppercase(gf),
        slot_spells_word(gf, m, pos, length, dir),
    ensures
        m.found_strings(read_pattern(g, pos, length as int, dir)).contains(
            Seq::new(length as nat, |i: int| cell_at(gf, pos, i, dir)->0),
        ),
{
    let p = read_pattern(g, pos, length as int, dir);
    let wrd = Seq::new(length as nat, |i: int| cell_at(gf, pos, i, dir)->0);
    assert forall|i: int|
        0 <= i < length implies (#[trigger] cell_at(gf, pos, i, dir)) is Letter
        && is_uppercase_letter(cell_at(gf, pos, i, dir)->0) && (cell_at(g, pos, i, dir) is Letter
        ==> cell_at(gf, pos, i, dir) == cell_at(g, pos, i, dir)) by {
        assert(cell_at(gf, pos, i, dir) is Letter);
        match dir {
            Direction::Across => {
                let y = pos.1 as int;
                let x = pos.0 + i;
                assert(g[y].len() == gf[y].len());
                assert(cell_at(gf, pos, i, dir) == gf[y][x]);
                assert(cell_at(g, pos, i, dir) == g[y][x]);
                assert(gf[y][x] is Letter);
                assert(is_uppercase_letter(gf[y][x]->0));
                if g[y][x] is Letter {
                    assert(gf[y][x] == g[y][x]);
                }
            },
            Direction::Down => {
                let y = pos.1 + i;
                let x = pos.0 as int;
                assert(g[y].len() == w);
                assert(g[y].len() == gf[y].len());
                assert(cell_at(gf, pos, i, dir) == gf[y][x]);
                assert(cell_at(g, pos, i, dir) == g[y][x]);
                assert(gf[y][x] is Letter);
                assert(is_uppercase_letter(gf[y][x]->0));
                if g[y][x] is Letter {
                    assert(gf[y][x] == g[y][x]);
                }
            },
        }
    }
    assert forall|i: int|
        0 <= i < p.len() implies match #[trigger] p[i] {
        Some(c) => wrd[i] == c,
        None => true,
    } by {
        assert(p[i] == cell_as_pattern(cell_at(g, pos, i, dir)));
    }
    crate::matcher::lemma_found_string_complete(m, p, wrd);
}

/// Removing one entry keeps every other value in the list.
proof fn lemma_seq_remove_contains<T>(v: Seq<T>, i: int, x: T)
    requires
        0 <= i < v.len(),
        v.contains(x),
        x != v[i],
    ensures
        v.remove(i).contains(x),
{
    let k = choose|k: int| 0 <= k < v.len() && v[k] == x;
    if k < i {
        assert(v.remove(i)[k] == x);
    } else {
        assert(v.remove(i)[k - 1] == x);
    }
}

/// Writing a word that agrees with every letter already on the slot keeps
/// the board's shape, blocks and letters, and leaves the word spelled out.
proof fn lemma_write_word_effects(
    g: Seq<Seq<Cell>>,
    w: int,
    h: int,
    pos: Pos,
    len: usize,
    dir: Direction,
    word: Seq<char>,
)
    requires
        grid_wf(g, w, h),
        slot_ok(g, pos, len, dir),
        word.len() == len,
        forall|i: int|
            0 <= i < len ==> ((#[trigger] cell_at(g, pos, i, dir)) is Letter ==> word[i] == cell_at(
                g,
                pos,
                i,
                dir,
            )->0),
    ensures
        grid_wf(write_word(g, pos, dir, word), w, h),
        same_blacks(g, write_word(g, pos, dir, word)),
        letters_preserved(g, write_word(g, pos, dir, word)),
        forall|i: int|
            0 <= i < len ==> #[trigger] cell_at(write_word(g, pos, dir, word), pos, i, dir)
                == Cell::Letter(word[i]),
{
    let g1 = write_word(g, pos, dir, word);
    assert forall|y: int, x: int|
        0 <= y < g.len() && 0 <= x < g[y].len() implies ((#[trigger] g[y][x]) is Black <==> g1[y][x]
        is Black) && (g[y][x] is Letter ==> g1[y][x] == g[y][x]) by {
        if on_slot(pos, len as int, dir, x, y) {
            let i = slot_offset(pos, dir, x, y);
            assert(cell_at(g, pos, i, dir) == g[y][x]);
            assert(g1[y][x] == pattern_as_cell(Some(word[i])));
        }
    }
    assert forall|i: int| 0 <= i < len implies #[trigger] cell_at(g1, pos, i, dir) == Cell::Letter(
        word[i],
    ) by {
        match dir {
            Direction::Across => {
                assert(cell_at(g1, pos, i, dir) == g1[pos.1 as int][pos.0 + i]);
            },
            Direction::Down => {
                assert(cell_at(g1, pos, i, dir) == g1[pos.1 + i][pos.0 as int]);
            },
        }
    }
}

/// A slot that spells a dictionary word keeps spelling it in any board
/// of the same shape whose letters all survived.
proof fn lemma_spelled_preserved(
    g: Seq<Seq<Cell>>,
    g1: Seq<Seq<Cell>>,
    m: Matcher,
    w: int,
    h: int,
    pos: Pos,
    len: usize,
    dir: Direction,
)
    requires
        grid_wf(g, w, h),
        g.len() == g1.len(),
        forall|y: int| 0 <= y < g.len() ==> (#[trigger] g[y]).len() == g1[y].len(),
        slot_in_bounds(g, pos, len as int, dir),
        letters_preserved(g, g1),
        slot_spells_word(g, m, pos, len, dir),
    ensures
        slot_spells_word(g1, m, pos, len, dir),
{
    assert forall|i: int| 0 <= i < len implies #[trigger] cell_at(g1, pos, i, dir) == cell_at(
        g,
        pos,
        i,
        dir,
    ) by {
        assert(cell_at(g, pos, i, dir) is Letter);
        match dir {
            Direction::Across => {
                assert(cell_at(g, pos, i, dir) == g[pos.1 as int][pos.0 + i]);
                assert(g[pos.1 as int][pos.0 + i] is Letter);
                assert(g1[pos.1 as int][pos.0 + i] == g[pos.1 as int][pos.0 + i]);
                assert(cell_at(g1, pos, i, dir) == g1[pos.1 as int][pos.0 + i]);
            },
            Direction::Down => {
                assert(cell_at(g, pos, i, dir) == g[pos.1 + i][pos.0 as int]);
                assert(g[pos.1 + i][pos.0 as int] is Letter);
                assert(g1[pos.1 + i][pos.0 as int] == g[pos.1 + i][pos.0 as int]);
                assert(cell_at(g1, pos, i, dir) == g1[pos.1 + i][pos.0 as int]);
            },
        }
    }
    assert(Seq::new(len as nat, |i: int| cell_at(g1, pos, i, dir)->0) =~= Seq::new(
        len as nat,
        |i: int| cell_at(g, pos, i, dir)->0,
    ));
}

/// Writing back the pattern that a slot showed before a word was written
/// over it restores the board exactly.
proof fn lemma_restore(g: Seq<Seq<Cell>>, w: int, h: int, pos: Pos, len: usize, dir: Direction, word: Seq<char>)
    requires
        grid_wf(g, w, h),
        slot_ok(g, pos, len, dir),
        word.len() == len,
    ensures
        write_pattern(
            write_word(g, pos, dir, word),
            pos,
            dir,
            read_pattern(g, pos, len as int, dir),
        ) == g,
{
    let p = read_pattern(g, pos, len as int, dir);
    let g1 = write_word(g, pos, dir, word);
    let g2 = write_pattern(g1, pos, dir, p);
    assert forall|y: int, x: int|
        0 <= y < g.len() && 0 <= x < g[y].len() implies #[trigger] g2[y][x] == g[y][x] by {
        if on_slot(pos, len as int, dir, x, y) {
            let i = slot_offset(pos, dir, x, y);
            assert(cell_at(g, pos, i, dir) == g[y][x]);
            assert(g2[y][x] == pattern_as_cell(p[i]));
            assert(p[i] == cell_as_pattern(g[y][x]));
        }
    }
    assert(g2 =~~= g);
}

/// A copy of a slot list.
fn clone_list(v: &Vec<(Pos, usize)>) -> (r: Vec<(Pos, usize)>)
    ensures
        r@ == v@,
{
    let mut r: Vec<(Pos, usize)> = Vec::new();
    let n = v.len();
    let mut i: usize = 0;
    while i < n
        invariant
            n == v@.len(),
            i <= n,
            r@.len() == i,
            forall|k: int| 0 <= k < i ==> r@[k] == v@[k],
        decreases n - i,
    {
        r.push(v[i]);
        i += 1;
    }
    proof {
        assert(r@ =~= v@);
    }
    r
}

/// A copy of a slot list with the entry at `idx` left out.
fn remove_entry(v: &Vec<(Pos, usize)>, idx: usize) -> (r: Vec<(Pos, usize)>)
    requires
        idx < v@.len(),
    ensures
        r@ == v@.remove(idx as int),
{
    let mut r: Vec<(Pos, usize)> = Vec::new();
    let n = v.len();
    let mut i: usize = 0;
    while i < n
        invariant
            n == v@.len(),
            idx < n,
            i <= n,
            r@.len() == (if i <= idx {
                i as int
            } else {
                i - 1
            }),
            forall|k: int| 0 <= k < i && k < idx ==> r@[k] == v@[k],
            forall|k: int| idx < k < i ==> r@[k - 1] == v@[k],
        decreases n - i,
    {
        if i != idx {
            r.push(v[i]);
        }
        i += 1;
    }
    proof {
        assert(r@ =~= v@.remove(idx as int));
    }
    r
}

impl Crossword {
    /// One level of the backtracking search: picks the most constrained
    /// unresolved slot, tries each fitting word in randomized order, and
    /// undoes every try that does not lead to a full solution.  Succeeds
    /// exactly when the remaining slot lists can still be solved; on
    /// success every slot of the board spells a dictionary word, on
    /// failure the board is exactly as it was.
    fn fill_recursive(
        &mut self,
        matcher: &Matcher,
        across: &Vec<(Pos, usize)>,
        down: &Vec<(Pos, usize)>,
        rng: &mut StdRng,
        cache: &mut Vec<(Vec<Option<char>>, usize)>,
    ) -> (r: bool)
        requires
            old(self).wf(),
            matcher.wf(),
            matcher.trie.size() < usize::MAX,
            letters_uppercase(old(self)@),
            forall|k: int|
                0 <= k < across@.len() ==> slot_ok(
                    old(self)@,
                    (#[trigger] across@[k]).0,
                    across@[k].1,
                    Direction::Across,
                ),
            forall|k: int|
                0 <= k < down@.len() ==> slot_ok(
                    old(self)@,
                    (#[trigger] down@[k]).0,
                    down@[k].1,
                    Direction::Down,
                ),
            forall|k: int|
                0 <= k < across@.len() ==> across_slots(old(self)@).contains(
                    #[trigger] across@[k],
                ),
            forall|k: int|
                0 <= k < down@.len() ==> down_slots(old(self)@).contains(#[trigger] down@[k]),
            forall|k: int|
                0 <= k < across_slots(old(self)@).len() ==> across@.contains(
                    #[trigger] across_slots(old(self)@)[k],
                ) || slot_spells_word(
                    old(self)@,
                    *matcher,
                    across_slots(old(self)@)[k].0,
                    across_slots(old(self)@)[k].1,
                    Direction::Across,
                ),
            forall|k: int|
                0 <= k < down_slots(old(self)@).len() ==> down@.contains(
                    #[trigger] down_slots(old(self)@)[k],
                ) || slot_spells_word(
                    old(self)@,
                    *matcher,
                    down_slots(old(self)@)[k].0,
                    down_slots(old(self)@)[k].1,
                    Direction::Down,
                ),
            cache_ok(old(cache)@, *matcher),
        ensures
            final(self).wf(),
            final(self).width == old(self).width,
            final(self).height == old(self).height,
            cache_ok(final(cache)@, *matcher),
            r <==> fillable(old(self)@, *matcher, across@, down@),
            !r ==> final(self)@ == old(self)@,
            r ==> same_blacks(old(self)@, final(self)@),
            r ==> letters_preserved(old(self)@, final(self)@),
            r ==> letters_uppercase(final(self)@),
            r ==> forall|k: int|
                0 <= k < across_slots(old(self)@).len() ==> slot_spells_word(
                    final(self)@,
                    *matcher,
                    (#[trigger] across_slots(old(self)@)[k]).0,
                    across_slots(old(self)@)[k].1,
                    Direction::Across,
                ),
            r ==> forall|k: int|
                0 <= k < down_slots(old(self)@).len() ==> slot_spells_word(
                    final(self)@,
                    *matcher,
                    (#[trigger] down_slots(old(self)@)[k]).0,
                    down_slots(old(self)@)[k].1,
                    Direction::Down,
                ),
        decreases across@.len() + down@.len(),
    {
        let choice = self.choice_pos(matcher, across, down, cache);
        match choice {
            None => {
                proof {
                    assert(across@.len() == 0 && down@.len() == 0);
                    assert forall|k: int|
                        0 <= k < across_slots(old(self)@).len() implies slot_spells_word(
                        self@,
                        *matcher,
                        (#[trigger] across_slots(old(self)@)[k]).0,
                        across_slots(old(self)@)[k].1,
                        Direction::Across,
                    ) by {
                        assert(!across@.contains(across_slots(old(self)@)[k]));
                    }
                    assert forall|k: int|
                        0 <= k < down_slots(old(self)@).len() implies slot_spells_word(
                        self@,
                        *matcher,
                        (#[trigger] down_slots(old(self)@)[k]).0,
                        down_slots(old(self)@)[k].1,
                        Direction::Down,
                    ) by {
                        assert(!down@.contains(down_slots(old(self)@)[k]));
                    }
                    assert(solves(old(self)@, *matcher, across@, down@, self@));
                }
                true
            },
            Some((pos, length, index, direction)) => {
                proof {
                    match direction {
                        Direction::Across => {
                            assert(across@[index as int] == (pos, length));
                            assert(slot_ok(old(self)@, pos, length, Direction::Across));
                        },
                        Direction::Down => {
                            assert(down@[index as int] == (pos, length));
                            assert(slot_ok(old(self)@, pos, length, Direction::Down));
                        },
                    }
                }
                let pattern = self.get_pattern(direction, pos, length);
                proof {
                    assert forall|k: int|
                        0 <= k < pattern@.len() implies match #[trigger] pattern@[k] {
                        Some(c) => is_uppercase_letter(c),
                        None => true,
                    } by {
                        assert(pattern@[k] == cell_as_pattern(cell_at(self@, pos, k, direction)));
                        match direction {
                            Direction::Across => {
                                assert(cell_at(self@, pos, k, direction) == self@[pos.1 as int][pos.0
                                    + k]);
                            },
                            Direction::Down => {
                                assert(cell_at(self@, pos, k, direction) == self@[pos.1 + k][pos.0
                                    as int]);
                            },
                        }
                    }
                }
                let matches_list = matcher.find_vec_random(pattern.as_slice(), rng);
                if matches_list.len() == 0 {
                    proof {
                        broadcast use vstd::seq_lib::group_to_multiset_ensures;

                        if fillable(old(self)@, *matcher, across@, down@) {
                            let gf = choose|gf: Seq<Seq<Cell>>|
                                solves(old(self)@, *matcher, across@, down@, gf);
                            assert(slot_spells_word(gf, *matcher, pos, length, direction)) by {
                                match direction {
                                    Direction::Across => {
                                        assert(across@[index as int] == (pos, length));
                                    },
                                    Direction::Down => {
                                        assert(down@[index as int] == (pos, length));
                                    },
                                }
                            }
                            lemma_solution_word_is_candidate(
                                old(self)@,
                                *matcher,
                                gf,
                                old(self).width as int,
                                old(self).height as int,
                                pos,
                                length,
                                direction,
                            );
                            let wstar = Seq::new(
                                length as nat,
                                |i: int| cell_at(gf, pos, i, direction)->0,
                            );
                            assert(matcher.found_strings(pattern@).contains(wstar));
                            assert(matcher.found_strings(pattern@).to_multiset().count(wstar) > 0);
                            assert(matches_list.deep_view().to_multiset().count(wstar) > 0);
                            assert(matches_list.deep_view().len() > 0);
                            assert(false);
                        }
                    }
                    return false;
                }
                let new_across = match direction {
                    Direction::Across => remove_entry(across, index),
                    Direction::Down => clone_list(across),
                };
                let new_down = match direction {
                    Direction::Across => clone_list(down),
                    Direction::Down => remove_entry(down, index),
                };
                let mut w_i: usize = 0;
                let wn = matches_list.len();
                while w_i < wn
                    invariant
                        old(self).wf(),
                        self.wf(),
                        self.width == old(self).width,
                        self.height == old(self).height,
                        self@ == old(self)@,
                        matcher.wf(),
                        matcher.trie.size() < usize::MAX,
                        letters_uppercase(old(self)@),
                        cache_ok(cache@, *matcher),
                        w_i <= wn,
                        wn == matches_list@.len(),
                        matches_list.deep_view().to_multiset() == matcher.found_strings(
                            pattern@,
                        ).to_multiset(),
                        pattern@ == read_pattern(old(self)@, pos, length as int, direction),
                        pattern@.len() == length,
                        forall|k: int|
                            0 <= k < pattern@.len() ==> match #[trigger] pattern@[k] {
                                Some(c) => is_uppercase_letter(c),
                                None => true,
                            },
                        slot_ok(old(self)@, pos, length, direction),
                        forall|k: int|
                            0 <= k < across@.len() ==> slot_ok(
                                old(self)@,
                                (#[trigger] across@[k]).0,
                                across@[k].1,
                                Direction::Across,
                            ),
                        forall|k: int|
                            0 <= k < down@.len() ==> slot_ok(
                                old(self)@,
                                (#[trigger] down@[k]).0,
                                down@[k].1,
                                Direction::Down,
                            ),
                        forall|k: int|
                            0 <= k < across_slots(old(self)@).len() ==> across@.contains(
                                #[trigger] across_slots(old(self)@)[k],
                            ) || slot_spells_word(
                                old(self)@,
                                *matcher,
                                across_slots(old(self)@)[k].0,
                                across_slots(old(self)@)[k].1,
                                Direction::Across,
                            ),
                        forall|k: int|
                            0 <= k < down_slots(old(self)@).len() ==> down@.contains(
                                #[trigger] down_slots(old(self)@)[k],
                            ) || slot_spells_word(
                                old(self)@,
                                *matcher,
                                down_slots(old(self)@)[k].0,
                                down_slots(old(self)@)[k].1,
                                Direction::Down,
                            ),
                        direction is Across ==> index < across@.len() && across@[index as int] == (
                        pos,
                        length,
                        ) && new_across@ == across@.remove(index as int) && new_down@ == down@,
                        direction is Down ==> index < down@.len() && down@[index as int] == (
                        pos,
                        length,
                        ) && new_down@ == down@.remove(index as int) && new_across@ == across@,
                        forall|k: int|
                            0 <= k < across@.len() ==> across_slots(old(self)@).contains(
                                #[trigger] across@[k],
                            ),
                        forall|k: int|
                            0 <= k < down@.len() ==> down_slots(old(self)@).contains(
                                #[trigger] down@[k],
                            ),
                        forall|k: int|
                            0 <= k < w_i ==> !fillable(
                                write_word(
                                    old(self)@,
                                    pos,
                                    direction,
                                    #[trigger] matches_list.deep_view()[k],
                                ),
                                *matcher,
                                new_across@,
                                new_down@,
                            ),
                    decreases wn - w_i,
                {
                    let word = &matches_list[w_i];
                    proof {
                        crate::matcher::lemma_found_string_member(
                            *matcher,
                            pattern@,
                            matches_list.deep_view(),
                            w_i as int,
                        );
                        assert(matches_list.deep_view()[w_i as int] == word@);
                        assert(word@.len() == length);
                        assert forall|i: int|
                            0 <= i < length && (#[trigger] cell_at(
                            old(self)@,
                            pos,
                            i,
                            direction,
                        )) is Letter implies word@[i] == cell_at(old(self)@, pos, i, direction)->0
                            by {
                            assert(pattern@[i] == cell_as_pattern(
                                cell_at(old(self)@, pos, i, direction),
                            ));
                        }
                        lemma_write_word_effects(
                            old(self)@,
                            old(self).width as int,
                            old(self).height as int,
                            pos,
                            length,
                            direction,
                            word@,
                        );
                    }
                    let ghost g0 = old(self)@;
                    let ghost gw = write_word(old(self)@, pos, direction, word@);
                    self.set_word(word.as_str(), pos, direction);
                    proof {
                        assert(self@ == gw);
                        lemma_slots_same_blacks(
                            g0,
                            gw,
                            old(self).width as int,
                            old(self).height as int,
                        );
                        // the board after the write is well formed and in
                        // uppercase letters
                        assert forall|y: int, x: int|
                            0 <= y < gw.len() && 0 <= x < gw[y].len() && (#[trigger] gw[y][x])
                                is Letter implies is_uppercase_letter(gw[y][x]->0) by {
                            if on_slot(pos, length as int, direction, x, y) {
                                let i = slot_offset(pos, direction, x, y);
                                assert(gw[y][x] == pattern_as_cell(Some(word@[i])));
                            } else {
                                assert(gw[y][x] == g0[y][x]);
                            }
                        }
                        // every slot of the reduced lists is still usable
                        assert forall|k: int|
                            0 <= k < new_across@.len() implies slot_ok(
                            gw,
                            (#[trigger] new_across@[k]).0,
                            new_across@[k].1,
                            Direction::Across,
                        ) by {
                            let e = new_across@[k];
                            assert(across@.contains(e)) by {
                                if direction is Across {
                                    if k < index {
                                        assert(across@[k] == e);
                                    } else {
                                        assert(across@[k + 1] == e);
                                    }
                                } else {
                                    assert(across@[k] == e);
                                }
                            }
                            let k0 = choose|k0: int|
                                0 <= k0 < across@.len() && across@[k0] == e;
                            assert(slot_ok(g0, e.0, e.1, Direction::Across));
                            assert forall|i: int|
                                0 <= i < e.1 implies !((#[trigger] cell_at(
                                gw,
                                e.0,
                                i,
                                Direction::Across,
                            )) is Black) by {
                                assert(cell_at(gw, e.0, i, Direction::Across) == gw[e.0.1 as int][e.0.0
                                    + i]);
                                assert(cell_at(g0, e.0, i, Direction::Across) == g0[e.0.1 as int][e.0.0
                                    + i]);
                            }
                        }
                        assert forall|k: int|
                            0 <= k < new_down@.len() implies slot_ok(
                            gw,
                            (#[trigger] new_down@[k]).0,
                            new_down@[k].1,
                            Direction::Down,
                        ) by {
                            let e = new_down@[k];
                            assert(down@.contains(e)) by {
                                if direction is Down {
                                    if k < index {
                                        assert(down@[k] == e);
                                    } else {
                                        assert(down@[k + 1] == e);
                                    }
                                } else {
                                    assert(down@[k] == e);
                                }
                            }
                            let k0 = choose|k0: int| 0 <= k0 < down@.len() && down@[k0] == e;
                            assert(slot_ok(g0, e.0, e.1, Direction::Down));
                            assert forall|i: int|
                                0 <= i < e.1 implies !((#[trigger] cell_at(
                                gw,
                                e.0,
                                i,
                                Direction::Down,
                            )) is Black) by {
                                assert(cell_at(gw, e.0, i, Direction::Down) == gw[e.0.1 + i][e.0.0
                                    as int]);
                                assert(cell_at(g0, e.0, i, Direction::Down) == g0[e.0.1 + i][e.0.0
                                    as int]);
                            }
                        }
                        // the chosen slot now spells the committed word
                        assert(slot_spells_word(gw, *matcher, pos, length, direction)) by {
                            assert(Seq::new(
                                length as nat,
                                |i: int| cell_at(gw, pos, i, direction)->0,
                            ) =~= word@);
                        }
                        // the slot lists still cover everything unspelled
                        lemma_across_slots_good(
                            g0,
                            old(self).width as int,
                            old(self).height as int,
                        );
                        if old(self).height > 0 {
                            lemma_down_slots_good(
                                g0,
                                old(self).width as int,
                                old(self).height as int,
                            );
                        }
                        assert forall|k: int|
                            0 <= k < across_slots(gw).len() implies new_across@.contains(
                            #[trigger] across_slots(gw)[k],
                        ) || slot_spells_word(
                            gw,
                            *matcher,
                            across_slots(gw)[k].0,
                            across_slots(gw)[k].1,
                            Direction::Across,
                        ) by {
                            let s = across_slots(gw)[k];
                            assert(across_slots(gw) == across_slots(g0));
                            assert(across_slots(g0)[k] == s);
                            if across@.contains(s) {
                                if direction is Across && s == (pos, length) {
                                    assert(slot_spells_word(
                                        gw,
                                        *matcher,
                                        pos,
                                        length,
                                        Direction::Across,
                                    ));
                                } else {
                                    if direction is Across {
                                        lemma_seq_remove_contains(across@, index as int, s);
                                    }
                                    assert(new_across@.contains(s));
                                }
                            } else {
                                assert(slot_spells_word(
                                    g0,
                                    *matcher,
                                    s.0,
                                    s.1,
                                    Direction::Across,
                                ));
                                assert(slot_ok(g0, s.0, s.1, Direction::Across));
                                lemma_spelled_preserved(
                                    g0,
                                    gw,
                                    *matcher,
                                    old(self).width as int,
                                    old(self).height as int,
                                    s.0,
                                    s.1,
                                    Direction::Across,
                                );
                            }
                        }
                        assert forall|k: int|
                            0 <= k < down_slots(gw).len() implies new_down@.contains(
                            #[trigger] down_slots(gw)[k],
                        ) || slot_spells_word(
                            gw,
                            *matcher,
                            down_slots(gw)[k].0,
                            down_slots(gw)[k].1,
                            Direction::Down,
                        ) by {
                            let s = down_slots(gw)[k];
                            assert(down_slots(gw) == down_slots(g0));
                            assert(down_slots(g0)[k] == s);
                            if down@.contains(s) {
                                if direction is Down && s == (pos, length) {
                                    assert(slot_spells_word(
                                        gw,
                                        *matcher,
                                        pos,
                                        length,
                                        Direction::Down,
                                    ));
                                } else {
                                    if direction is Down {
                                        lemma_seq_remove_contains(down@, index as int, s);
                                    }
                                    assert(new_down@.contains(s));
                                }
                            } else {
                                assert(slot_spells_word(g0, *matcher, s.0, s.1, Direction::Down));
                                assert(slot_ok(g0, s.0, s.1, Direction::Down));
                                lemma_spelled_preserved(
                                    g0,
                                    gw,
                                    *matcher,
                                    old(self).width as int,
                                    old(self).height as int,
                                    s.0,
                                    s.1,
                                    Direction::Down,
                                );
                            }
                        }
                    }
                    proof {
                        assert forall|k: int|
                            0 <= k < new_across@.len() implies across_slots(gw).contains(
                            #[trigger] new_across@[k],
                        ) by {
                            let e = new_across@[k];
                            if direction is Across {
                                if k < index {
                                    assert(across@[k] == e);
                                } else {
                                    assert(across@[k + 1] == e);
                                }
                            } else {
                                assert(across@[k] == e);
                            }
                            assert(across_slots(gw) == across_slots(g0));
                        }
                        assert forall|k: int|
                            0 <= k < new_down@.len() implies down_slots(gw).contains(
                            #[trigger] new_down@[k],
                        ) by {
                            let e = new_down@[k];
                            if direction is Down {
                                if k < index {
                                    assert(down@[k] == e);
                                } else {
                                    assert(down@[k + 1] == e);
                                }
                            } else {
                                assert(down@[k] == e);
                            }
                            assert(down_slots(gw) == down_slots(g0));
                        }
                    }
                    let ok = self.fill_recursive(matcher, &new_across, &new_down, rng, cache);
                    if ok {
                        proof {
                            let gf = self@;
                            lemma_slots_same_blacks(
                                g0,
                                gw,
                                old(self).width as int,
                                old(self).height as int,
                            );
                            assert(same_blacks(g0, gf));
                            assert(letters_preserved(g0, gf));
                            assert forall|k: int|
                                0 <= k < across_slots(g0).len() implies slot_spells_word(
                                gf,
                                *matcher,
                                (#[trigger] across_slots(g0)[k]).0,
                                across_slots(g0)[k].1,
                                Direction::Across,
                            ) by {
                                assert(across_slots(gw)[k] == across_slots(g0)[k]);
                            }
                            assert forall|k: int|
                                0 <= k < down_slots(g0).len() implies slot_spells_word(
                                gf,
                                *matcher,
                                (#[trigger] down_slots(g0)[k]).0,
                                down_slots(g0)[k].1,
                                Direction::Down,
                            ) by {
                                assert(down_slots(gw)[k] == down_slots(g0)[k]);
                            }
                            assert forall|k: int|
                                0 <= k < across@.len() implies slot_spells_word(
                                gf,
                                *matcher,
                                (#[trigger] across@[k]).0,
                                across@[k].1,
                                Direction::Across,
                            ) by {
                                assert(across_slots(g0).contains(across@[k]));
                                let j = choose|j: int|
                                    0 <= j < across_slots(g0).len() && across_slots(g0)[j]
                                        == across@[k];
                                assert(slot_spells_word(
                                    gf,
                                    *matcher,
                                    across_slots(g0)[j].0,
                                    across_slots(g0)[j].1,
                                    Direction::Across,
                                ));
                            }
                            assert forall|k: int|
                                0 <= k < down@.len() implies slot_spells_word(
                                gf,
                                *matcher,
                                (#[trigger] down@[k]).0,
                                down@[k].1,
                                Direction::Down,
                            ) by {
                                assert(down_slots(g0).contains(down@[k]));
                                let j = choose|j: int|
                                    0 <= j < down_slots(g0).len() && down_slots(g0)[j] == down@[k];
                                assert(slot_spells_word(
                                    gf,
                                    *matcher,
                                    down_slots(g0)[j].0,
                                    down_slots(g0)[j].1,
                                    Direction::Down,
                                ));
                            }
                            assert(solves(g0, *matcher, across@, down@, gf));
                        }
                        return true;
                    }
                    proof {
                        assert(self@ == gw);
                        lemma_restore(
                            g0,
                            old(self).width as int,
                            old(self).height as int,
                            pos,
                            length,
                            direction,
                            word@,
                        );
                    }
                    self.set_pattern(direction, pos, pattern.as_slice());
                    proof {
                        assert(self@ == g0);
                        assert(!fillable(
                            write_word(
                                old(self)@,
                                pos,
                                direction,
                                matches_list.deep_view()[w_i as int],
                            ),
                            *matcher,
                            new_across@,
                            new_down@,
                        ));
                    }
                    w_i += 1;
                }
                proof {
                    broadcast use vstd::seq_lib::group_to_multiset_ensures;

                    let g0 = old(self)@;
                    if fillable(g0, *matcher, across@, down@) {
                        let gf = choose|gf: Seq<Seq<Cell>>|
                            solves(g0, *matcher, across@, down@, gf);
                        assert(slot_spells_word(gf, *matcher, pos, length, direction)) by {
                            match direction {
                                Direction::Across => {
                                    assert(across@[index as int] == (pos, length));
                                },
                                Direction::Down => {
                                    assert(down@[index as int] == (pos, length));
                                },
                            }
                        }
                        lemma_solution_word_is_candidate(
                            g0,
                            *matcher,
                            gf,
                            old(self).width as int,
                            old(self).height as int,
                            pos,
                            length,
                            direction,
                        );
                        let wstar = Seq::new(
                            length as nat,
                            |i: int| cell_at(gf, pos, i, direction)->0,
                        );
                        assert(matcher.found_strings(pattern@).contains(wstar));
                        assert(matcher.found_strings(pattern@).to_multiset().count(wstar) > 0);
                        assert(matches_list.deep_view().to_multiset().count(wstar) > 0);
                        assert(matches_list.deep_view().contains(wstar));
                        let j = choose|j: int|
                            0 <= j < matches_list.deep_view().len() && matches_list.deep_view()[j]
                                == wstar;
                        // writing that word leaves a board the same solution
                        // still solves, so that candidate cannot have failed
                        assert forall|i: int|
                            0 <= i < length && (#[trigger] cell_at(
                            g0,
                            pos,
                            i,
                            direction,
                        )) is Letter implies wstar[i] == cell_at(g0, pos, i, direction)->0 by {
                            {
                                match direction {
                                    Direction::Across => {
                                        assert(cell_at(gf, pos, i, direction) == gf[pos.1 as int][pos.0
                                            + i]);
                                        assert(cell_at(g0, pos, i, direction) == g0[pos.1 as int][pos.0
                                            + i]);
                                    },
                                    Direction::Down => {
                                        assert(cell_at(gf, pos, i, direction) == gf[pos.1 + i][pos.0
                                            as int]);
                                        assert(cell_at(g0, pos, i, direction) == g0[pos.1 + i][pos.0
                                            as int]);
                                    },
                                }
                            }
                        }
                        lemma_write_word_effects(
                            g0,
                            old(self).width as int,
                            old(self).height as int,
                            pos,
                            length,
                            direction,
                            wstar,
                        );
                        let gws = write_word(g0, pos, direction, wstar);
                        assert(same_blacks(gws, gf)) by {
                            assert forall|y: int, x: int|
                                0 <= y < gws.len() && 0 <= x < gws[y].len() implies ((
                            #[trigger] gws[y][x]) is Black <==> gf[y][x] is Black) by {
                                assert(g0[y][x] is Black <==> gws[y][x] is Black);
                                assert(g0[y][x] is Black <==> gf[y][x] is Black);
                            }
                        }
                        assert(letters_preserved(gws, gf)) by {
                            assert forall|y: int, x: int|
                                0 <= y < gws.len() && 0 <= x < gws[y].len() && (#[trigger] gws[y][x])
                                    is Letter implies gf[y][x] == gws[y][x] by {
                                if on_slot(pos, length as int, direction, x, y) {
                                    let i = slot_offset(pos, direction, x, y);
                                    assert(cell_at(gws, pos, i, direction) == Cell::Letter(
                                        wstar[i],
                                    ));
                                    assert(cell_at(gf, pos, i, direction) is Letter);
                                    assert(cell_at(gf, pos, i, direction) == Cell::Letter(
                                        wstar[i],
                                    ));
                                    match direction {
                                        Direction::Across => {
                                            assert(cell_at(gws, pos, i, direction) == gws[pos.1
                                                as int][pos.0 + i]);
                                            assert(cell_at(gf, pos, i, direction) == gf[pos.1
                                                as int][pos.0 + i]);
                                        },
                                        Direction::Down => {
                                            assert(cell_at(gws, pos, i, direction) == gws[pos.1
                                                + i][pos.0 as int]);
                                            assert(cell_at(gf, pos, i, direction) == gf[pos.1
                                                + i][pos.0 as int]);
                                        },
                                    }
                                } else {
                                    assert(gws[y][x] == g0[y][x]);
                                }
                            }
                        }
                        assert forall|k: int|
                            0 <= k < new_across@.len() implies slot_spells_word(
                            gf,
                            *matcher,
                            (#[trigger] new_across@[k]).0,
                            new_across@[k].1,
                            Direction::Across,
                        ) by {
                            if direction is Across {
                                if k < index {
                                    assert(across@[k] == new_across@[k]);
                                } else {
                                    assert(across@[k + 1] == new_across@[k]);
                                }
                            } else {
                                assert(across@[k] == new_across@[k]);
                            }
                        }
                        assert forall|k: int|
                            0 <= k < new_down@.len() implies slot_spells_word(
                            gf,
                            *matcher,
                            (#[trigger] new_down@[k]).0,
                            new_down@[k].1,
                            Direction::Down,
                        ) by {
                            if direction is Down {
                                if k < index {
                                    assert(down@[k] == new_down@[k]);
                                } else {
                                    assert(down@[k + 1] == new_down@[k]);
                                }
                            } else {
                                assert(down@[k] == new_down@[k]);
                            }
                        }
                        assert(solves(gws, *matcher, new_across@, new_down@, gf));
                        assert(fillable(gws, *matcher, new_across@, new_down@));
                        assert(!fillable(
                            write_word(g0, pos, direction, matches_list.deep_view()[j]),
                            *matcher,
                            new_across@,
                            new_down@,
                        ));
                        assert(false);
                    }
                }
                false
            },
        }
    }

    /// Fills the whole board.  Returns `true` exactly when some board
    /// with the same blocks and letters spells a dictionary word over
    /// every slot; then every slot of this board spells a dictionary word
    /// and every open cell holds a letter.  Otherwise returns `false`
    /// with the board exactly as it was.  The generator only shuffles
    /// which solution is found, never whether one is found.
    pub fn fill(&mut self, matcher: &Matcher, rng: &mut StdRng) -> (r: bool)
        requires
            old(self).wf(),
            matcher.wf(),
            matcher.trie.size() < usize::MAX,
            letters_uppercase(old(self)@),
        ensures
            final(self).wf(),
            final(self).width == old(self).width,
            final(self).height == old(self).height,
            !r ==> final(self)@ == old(self)@,
            r ==> same_blacks(old(self)@, final(self)@),
            r ==> letters_preserved(old(self)@, final(self)@),
            r ==> letters_uppercase(final(self)@),
            r ==> forall|k: int|
                0 <= k < across_slots(old(self)@).len() ==> slot_spells_word(
                    final(self)@,
                    *matcher,
                    (#[trigger] across_slots(old(self)@)[k]).0,
                    across_slots(old(self)@)[k].1,
                    Direction::Across,
                ),
            r ==> forall|k: int|
                0 <= k < down_slots(old(self)@).len() ==> slot_spells_word(
                    final(self)@,
                    *matcher,
                    (#[trigger] down_slots(old(self)@)[k]).0,
                    down_slots(old(self)@)[k].1,
                    Direction::Down,
                ),
            r ==> forall|y: int, x: int|
                0 <= y < old(self).height && 0 <= x < old(self).width
                    ==> !((#[trigger] final(self)@[y][x]) is Empty),
            r == board_fillable(old(self)@, *matcher),
    {
        let across = self.across_positions();
        let down = self.down_positions();
        let mut cache: Vec<(Vec<Option<char>>, usize)> = Vec::new();
        proof {
            lemma_across_slots_good(self@, self.width as int, self.height as int);
            if self.height > 0 {
                lemma_down_slots_good(self@, self.width as int, self.height as int);
            }
            assert forall|k: int|
                0 <= k < across_slots(self@).len() implies across@.contains(
                #[trigger] across_slots(self@)[k],
            ) by {
                assert(across@[k] == across_slots(self@)[k]);
            }
            assert forall|k: int|
                0 <= k < down_slots(self@).len() implies down@.contains(
                #[trigger] down_slots(self@)[k],
            ) by {
                assert(down@[k] == down_slots(self@)[k]);
            }
            assert forall|k: int|
                0 <= k < across@.len() implies across_slots(self@).contains(
                #[trigger] across@[k],
            ) by {
                assert(across_slots(self@)[k] == across@[k]);
            }
            assert forall|k: int|
                0 <= k < down@.len() implies down_slots(self@).contains(
                #[trigger] down@[k],
            ) by {
                assert(down_slots(self@)[k] == down@[k]);
            }
            if self.height == 0 {
                assert(down_slots(self@).len() == 0);
            }
        }
        let r = self.fill_recursive(matcher, &across, &down, rng, &mut cache);
        proof {
            if r {
                let g0 = old(self)@;
                let gf = self@;
                lemma_across_slots_good(g0, old(self).width as int, old(self).height as int);
                assert forall|y: int, x: int|
                    0 <= y < old(self).height && 0 <= x < old(self).width implies !((
                    #[trigger] gf[y][x]) is Empty) by {
                    if g0[y][x] is Black {
                        assert(gf[y][x] is Black);
                    } else {
                        let k = choose|k: int|
                            0 <= k < across_slots(g0).len() && (#[trigger] across_slots(
                                g0,
                            )[k]).0.1 == y && across_slots(g0)[k].0.0 <= x < across_slots(
                                g0,
                            )[k].0.0 + across_slots(g0)[k].1;
                        let s = across_slots(g0)[k];
                        assert(slot_spells_word(gf, *matcher, s.0, s.1, Direction::Across));
                        let i = x - s.0.0;
                        assert(cell_at(gf, s.0, i, Direction::Across) is Letter);
                        assert(cell_at(gf, s.0, i, Direction::Across) == gf[y][x]);
                    }
                }
            }
        }
        r
    }
}

/// Whitespace that may pad a line of the board text.
pub open spec fn is_line_ws(c: char) -> bool {
    c == ' ' || c == '\t' || c == '\r'
}

/// Any whitespace the board text may carry, line breaks included.
pub open spec fn is_layout_ws(c: char) -> bool {
    is_line_ws(c) || c == '\n'
}

/// A character that stands for one cell: an open square, a blocked square,
/// or a letter of either case.
pub open spec fn is_glyph(c: char) -> bool {
    c == '\u{25a1}' || c == '\u{25a0}' || crate::matcher::is_ascii_letter(c)
}

/// The cell a glyph stands for; letters are folded to upper case.
pub open spec fn glyph_cell(c: char) -> Cell {
    if c == '\u{25a1}' {
        Cell::Empty
    } else if c == '\u{25a0}' {
        Cell::Black
    } else if crate::matcher::is_ascii_letter(c) {
        Cell::Letter(crate::matcher::index_char(crate::matcher::char_index(c) as int))
    } else {
        Cell::Empty
    }
}

/// The text without its leading whitespace.
pub open spec fn ltrim(s: Seq<char>) -> Seq<char>
    decreases s.len(),
{
    if s.len() > 0 && is_layout_ws(s[0]) {
        ltrim(s.skip(1))
    } else {
        s
    }
}

/// The text without its trailing whitespace.
pub open spec fn rtrim(s: Seq<char>) -> Seq<char>
    decreases s.len(),
{
    if s.len() > 0 && is_layout_ws(s.last()) {
        rtrim(s.drop_last())
    } else {
        s
    }
}

/// The text without leading and trailing whitespace.
pub open spec fn text_trim(s: Seq<char>) -> Seq<char> {
    rtrim(ltrim(s))
}

/// The position of the first line break, or the text's length if none.
pub open spec fn nl_index(t: Seq<char>) -> int
    decreases t.len(),
{
    if t.len() == 0 {
        0
    } else if t[0] == '\n' {
        0
    } else {
        1 + nl_index(t.skip(1))
    }
}

/// The first line break comes no later than the end of the text, and what
/// stands before it is no line break.
pub proof fn lemma_nl_index(t: Seq<char>)
    ensures
        0 <= nl_index(t) <= t.len(),
        nl_index(t) < t.len() ==> t[nl_index(t)] == '\n',
    decreases t.len(),
{
    if t.len() > 0 && t[0] != '\n' {
        lemma_nl_index(t.skip(1));
    }
}

/// The lines of the text, split on line breaks; always at least one line.
pub open spec fn split_lines(t: Seq<char>) -> Seq<Seq<char>>
    decreases t.len(),
    via split_lines_decreases
{
    let i = nl_index(t);
    if i >= t.len() {
        seq![t]
    } else {
        seq![t.take(i)] + split_lines(t.skip(i + 1))
    }
}

#[via_fn]
proof fn split_lines_decreases(t: Seq<char>) {
    lemma_nl_index(t);
}

/// The cells one line of text stands for, padding whitespace dropped.
pub open spec fn row_of_line(line: Seq<char>) -> Seq<Cell> {
    line.filter(|c: char| !is_line_ws(c)).map_values(|c: char| glyph_cell(c))
}

/// The cell rows the trimmed board text stands for.
pub open spec fn parse_grid(t: Seq<char>) -> Seq<Seq<Cell>> {
    split_lines(t).map_values(|l: Seq<char>| row_of_line(l))
}

/// Board text this module accepts: after trimming it is non-empty, holds
/// only cell glyphs and whitespace, and every line carries the same
/// positive number of glyphs.
pub open spec fn valid_grid_text(s: Seq<char>) -> bool {
    let t = text_trim(s);
    &&& t.len() > 0
    &&& forall|i: int| 0 <= i < t.len() ==> is_glyph(#[trigger] t[i]) || is_layout_ws(t[i])
    &&& parse_grid(t)[0].len() >= 1
    &&& forall|k: int|
        0 <= k < parse_grid(t).len() ==> (#[trigger] parse_grid(t)[k]).len() == parse_grid(
            t,
        )[0].len()
}

/// There is always at least one line.
proof fn lemma_split_lines_nonempty(t: Seq<char>)
    ensures
        split_lines(t).len() >= 1,
{
    lemma_nl_index(t);
}

/// How the line split advances over one leading character.
proof fn lemma_split_step(t: Seq<char>)
    requires
        t.len() > 0,
    ensures
        t[0] == '\n' ==> split_lines(t) == seq![Seq::<char>::empty()] + split_lines(t.skip(1)),
        t[0] != '\n' ==> split_lines(t).len() == split_lines(t.skip(1)).len() && split_lines(t)[0]
            == seq![t[0]] + split_lines(t.skip(1))[0] && split_lines(t).skip(1) == split_lines(
            t.skip(1),
        ).skip(1),
{
    lemma_nl_index(t);
    lemma_nl_index(t.skip(1));
    if t[0] == '\n' {
        assert(nl_index(t) == 0);
        assert(t.take(0) =~= Seq::<char>::empty());
    } else {
        let i1 = nl_index(t.skip(1));
        let i = nl_index(t);
        assert(i == 1 + i1);
        if i >= t.len() {
            assert(split_lines(t) == seq![t]);
            assert(split_lines(t.skip(1)) == seq![t.skip(1)]);
            assert(t =~= seq![t[0]] + t.skip(1));
            assert(split_lines(t).skip(1) =~= split_lines(t.skip(1)).skip(1));
        } else {
            assert(split_lines(t) == seq![t.take(i)] + split_lines(t.skip(i + 1)));
            assert(split_lines(t.skip(1)) == seq![t.skip(1).take(i1)] + split_lines(
                t.skip(1).skip(i1 + 1),
            ));
            assert(t.take(i) =~= seq![t[0]] + t.skip(1).take(i1));
            assert(t.skip(i + 1) =~= t.skip(1).skip(i1 + 1));
            assert(split_lines(t).skip(1) =~= split_lines(t.skip(i + 1)));
            assert(split_lines(t.skip(1)).skip(1) =~= split_lines(t.skip(1).skip(i1 + 1)));
        }
    }
}

/// Whether the character is whitespace of the board text.
fn is_ws_char(c: char) -> (r: bool)
    ensures
        r == is_layout_ws(c),
{
    c == ' ' || c == '\t' || c == '\r' || c == '\n'
}

impl Crossword {
    /// Reads a board from its textual form: one line of glyphs per row, an
    /// open square for an open cell, a filled square for a blocked cell, a
    /// letter of either case for a pre-filled cell (stored in upper case);
    /// spaces between glyphs and around the text are ignored.
    pub fn from_str(s: &str) -> (c: Crossword)
        requires
            valid_grid_text(s@),
        ensures
            c.wf(),
            c@ == parse_grid(text_trim(s@)),
            c.height as int == parse_grid(text_trim(s@)).len(),
            c.width as int == parse_grid(text_trim(s@))[0].len(),
            letters_uppercase(c@),
    {
        let total = s.unicode_len();
        let mut start: usize = 0;
        proof {
            assert(s@.skip(0) =~= s@);
        }
        while start < total && is_ws_char(s.get_char(start))
            invariant
                total == s@.len(),
                start <= total,
                ltrim(s@) == ltrim(s@.skip(start as int)),
            decreases total - start,
        {
            proof {
                assert(s@.skip(start as int)[0] == s@[start as int]);
                assert(s@.skip(start as int).skip(1) =~= s@.skip(start + 1));
            }
            start += 1;
        }
        proof {
            assert(ltrim(s@) == s@.skip(start as int));
        }
        let mut end: usize = total;
        while end > start && is_ws_char(s.get_char(end - 1))
            invariant
                total == s@.len(),
                start <= end <= total,
                ltrim(s@) == s@.skip(start as int),
                text_trim(s@) == rtrim(s@.subrange(start as int, end as int)),
            decreases end,
        {
            proof {
                let sub = s@.subrange(start as int, end as int);
                assert(sub.last() == s@[end - 1]);
                assert(sub.drop_last() =~= s@.subrange(start as int, end - 1));
            }
            end -= 1;
        }
        let ghost t = s@.subrange(start as int, end as int);
        proof {
            assert(text_trim(s@) == t);
            assert(t.len() > 0);
        }
        let mut grid: Vec<Vec<Cell>> = Vec::new();
        let mut cur: Vec<Cell> = Vec::new();
        let mut i: usize = start;
        proof {
            assert(t.skip(0) =~= t);
            assert(grid@.map_values(|r: Vec<Cell>| r@) =~= Seq::<Seq<Cell>>::empty());
            assert(Seq::<Seq<Cell>>::empty() + seq![
                cur@ + row_of_line(split_lines(t)[0]),
            ] + split_lines(t).skip(1).map_values(|l: Seq<char>| row_of_line(l)) =~= seq![
                cur@ + row_of_line(split_lines(t)[0]),
            ] + split_lines(t).skip(1).map_values(|l: Seq<char>| row_of_line(l)));
            assert(cur@ + row_of_line(split_lines(t)[0]) =~= row_of_line(split_lines(t)[0]));
            lemma_split_lines_nonempty(t);
            assert(parse_grid(t) =~= seq![parse_grid(t)[0]] + parse_grid(t).skip(1));
            assert(parse_grid(t)[0] == row_of_line(split_lines(t)[0]));
            assert(parse_grid(t).skip(1) =~= split_lines(t).skip(1).map_values(
                |l: Seq<char>| row_of_line(l),
            ));
        }
        while i < end
            invariant
                total == s@.len(),
                start <= i <= end <= total,
                t == s@.subrange(start as int, end as int),
                forall|k: int| 0 <= k < t.len() ==> is_glyph(#[trigger] t[k]) || is_layout_ws(t[k]),
                parse_grid(t) == grid@.map_values(|r: Vec<Cell>| r@) + seq![
                    cur@ + row_of_line(split_lines(t.skip(i - start as int))[0]),
                ] + split_lines(t.skip(i - start as int)).skip(1).map_values(
                    |l: Seq<char>| row_of_line(l),
                ),
            decreases end - i,
        {
            let c = s.get_char(i);
            let ghost rem = t.skip(i - start as int);
            let ghost rem1 = t.skip(i + 1 - start as int);
            proof {
                assert(rem[0] == t[i - start as int]);
                assert(t[i - start as int] == s@[i as int]);
                assert(rem.skip(1) =~= rem1);
                lemma_split_step(rem);
                lemma_split_lines_nonempty(rem);
                lemma_split_lines_nonempty(rem1);
            }
            if c == '\n' {
                let row = cur;
                cur = Vec::new();
                grid.push(row);
                proof {
                    assert(split_lines(rem)[0] =~= Seq::<char>::empty());
                    Seq::<char>::empty().lemma_filter_len(|ch: char| !is_line_ws(ch));
                    assert(row_of_line(Seq::<char>::empty()) =~= Seq::<Cell>::empty());
                    assert(row@ + row_of_line(split_lines(rem)[0]) =~= row@);
                    assert(split_lines(rem).skip(1) =~= split_lines(rem1));
                    assert(grid@.map_values(|r: Vec<Cell>| r@) =~= grid@.map_values(
                        |r: Vec<Cell>| r@,
                    ).take(grid@.len() - 1) + seq![row@]);
                    assert(cur@ + row_of_line(split_lines(rem1)[0]) =~= row_of_line(
                        split_lines(rem1)[0],
                    ));
                    assert(split_lines(rem1) =~= seq![split_lines(rem1)[0]] + split_lines(
                        rem1,
                    ).skip(1));
                    assert(split_lines(rem1).map_values(|l: Seq<char>| row_of_line(l)) =~= seq![
                        row_of_line(split_lines(rem1)[0]),
                    ] + split_lines(rem1).skip(1).map_values(|l: Seq<char>| row_of_line(l)));
                    assert(parse_grid(t) =~= grid@.map_values(|r: Vec<Cell>| r@) + seq![
                        cur@ + row_of_line(split_lines(rem1)[0]),
                    ] + split_lines(rem1).skip(1).map_values(|l: Seq<char>| row_of_line(l)));
                }
            } else {
                let u = c as u32;
                let is_letter = (65 <= u && u <= 90) || (97 <= u && u <= 122);
                proof {
                    assert(split_lines(rem)[0] == seq![rem[0]] + split_lines(rem1)[0]);
                    assert(split_lines(rem).skip(1) == split_lines(rem1).skip(1));
                    split_lines(rem1)[0].lemma_filter_prepend(rem[0], |ch: char| !is_line_ws(ch));
                }
                if c == ' ' || c == '\t' || c == '\r' {
                    proof {
                        assert(is_line_ws(rem[0]));
                        assert(row_of_line(split_lines(rem)[0]) =~= row_of_line(
                            split_lines(rem1)[0],
                        )) by {
                            assert(split_lines(rem)[0].filter(|ch: char| !is_line_ws(ch))
                                =~= (Seq::<char>::empty()) + split_lines(rem1)[0].filter(
                                |ch: char| !is_line_ws(ch),
                            ));
                            assert((Seq::<char>::empty()) + split_lines(rem1)[0].filter(
                                |ch: char| !is_line_ws(ch),
                            ) =~= split_lines(rem1)[0].filter(|ch: char| !is_line_ws(ch)));
                        }
                    }
                } else {
                    let cell = if c == '\u{25a1}' {
                        Cell::Empty
                    } else if c == '\u{25a0}' {
                        Cell::Black
                    } else if is_letter {
                        Cell::Letter(crate::matcher::int_to_char(crate::matcher::char_to_int(c)))
                    } else {
                        Cell::Empty
                    };
                    let ghost cur_before = cur@;
                    cur.push(cell);
                    proof {
                        assert(cell == glyph_cell(rem[0]));
                        assert(!is_line_ws(rem[0]));
                        assert(split_lines(rem)[0].filter(|ch: char| !is_line_ws(ch)) =~= seq![
                            rem[0],
                        ] + split_lines(rem1)[0].filter(|ch: char| !is_line_ws(ch)));
                        assert(row_of_line(split_lines(rem)[0]) =~= seq![glyph_cell(rem[0])]
                            + row_of_line(split_lines(rem1)[0]));
                        assert(cur@ + row_of_line(split_lines(rem1)[0]) =~= cur_before
                            + row_of_line(split_lines(rem)[0]));
                    }
                }
            }
            i += 1;
        }
        let ghost cur_final = cur@;
        grid.push(cur);
        proof {
            let rem = t.skip(end - start as int);
            assert(rem =~= Seq::<char>::empty());
            assert(nl_index(rem) == 0);
            assert(split_lines(rem) == seq![rem]);
            rem.lemma_filter_len(|ch: char| !is_line_ws(ch));
            assert(row_of_line(rem) =~= Seq::<Cell>::empty());
            assert(split_lines(rem).skip(1) =~= Seq::<Seq<char>>::empty());
            assert(cur_final + row_of_line(split_lines(rem)[0]) =~= cur_final);
            assert(parse_grid(t) =~= grid@.map_values(|r: Vec<Cell>| r@));
        }
        let height = grid.len();
        proof {
            lemma_split_lines_nonempty(t);
            assert(parse_grid(t).len() >= 1);
            assert(grid@.len() >= 1);
            assert(parse_grid(t)[0] == grid@.map_values(|r: Vec<Cell>| r@)[0]);
        }
        let width = grid[0].len();
        let result = Crossword { width, height, grid };
        proof {
            assert(result@ =~~= parse_grid(t));
            assert forall|y: int| 0 <= y < height implies (#[trigger] result@[y]).len()
                == width by {
                assert(parse_grid(t)[y].len() == parse_grid(t)[0].len());
            }
            assert forall|y: int, x: int|
                0 <= y < result@.len() && 0 <= x < result@[y].len() && (#[trigger] result@[y][x])
                    is Letter implies is_uppercase_letter(result@[y][x]->0) by {
                let line = split_lines(t)[y];
                assert(parse_grid(t)[y] == row_of_line(line));
                let fline = line.filter(|ch: char| !is_line_ws(ch));
                assert(row_of_line(line)[x] == glyph_cell(fline[x]));
                let cc = fline[x];
                if glyph_cell(cc) is Letter {
                    assert(crate::matcher::is_ascii_letter(cc));
                    assert(crate::matcher::char_index(cc) < 26);
                }
            }
        }
        result
    }
}

} // verus!