//! The board text format: one character per cell, rows separated by
//! newlines.  `.` is a hidden empty cell, `m` a hidden mine, a digit an
//! opened empty cell showing its adjacent mine count, `M` an opened mine,
//! `f` a flag on an empty cell and `F` a flag on a mine.  Parsing skips
//! blanks inside lines and whitespace around the text; formatting is the
//! exact inverse.

use vstd::prelude::*;

use crate::minefield::{BoardView, Cell, CellKind, CellState, Minefield};

verus! {

/// The character a cell formats to.
pub open spec fn cell_to_char(b: BoardView, x: int, y: int) -> char {
    match (b.cell_at(x, y).state, b.cell_at(x, y).kind) {
        (CellState::Hidden, CellKind::Empty) => '.',
        (CellState::Hidden, CellKind::Mine) => 'm',
        (CellState::Opened, CellKind::Empty) => digit_char(b.count_mines(x, y)),
        (CellState::Opened, CellKind::Mine) => 'M',
        (CellState::Flagged, CellKind::Empty) => 'f',
        (CellState::Flagged, CellKind::Mine) => 'F',
    }
}

/// The digit character for a neighborhood mine count.
pub open spec fn digit_char(n: int) -> char {
    if n == 0 {
        '0'
    } else if n == 1 {
        '1'
    } else if n == 2 {
        '2'
    } else if n == 3 {
        '3'
    } else if n == 4 {
        '4'
    } else if n == 5 {
        '5'
    } else if n == 6 {
        '6'
    } else if n == 7 {
        '7'
    } else {
        '8'
    }
}

/// The first `x` characters of the formatted row `y`.
pub open spec fn row_prefix(b: BoardView, y: int, x: int) -> Seq<char>
    decreases x,
{
    if x <= 0 {
        Seq::empty()
    } else {
        row_prefix(b, y, x - 1).push(cell_to_char(b, x - 1, y))
    }
}

/// One formatted row, newline included.
pub open spec fn row_chars(b: BoardView, y: int) -> Seq<char> {
    row_prefix(b, y, b.width as int).push('\n')
}

/// The first `y` formatted rows.
pub open spec fn rows_upto(b: BoardView, y: int) -> Seq<char>
    decreases y,
{
    if y <= 0 {
        Seq::empty()
    } else {
        rows_upto(b, y - 1) + row_chars(b, y - 1)
    }
}

/// The whole board as text.
pub open spec fn format_spec(b: BoardView) -> Seq<char> {
    rows_upto(b, b.height as int)
}

/// A character that stands for one cell.
pub open spec fn is_cell_char(c: char) -> bool {
    c == '.' || c == 'm' || c == 'M' || c == 'f' || c == 'F' || is_digit_char(c)
}

pub open spec fn is_digit_char(c: char) -> bool {
    48 <= c as u32 <= 57
}

/// Whitespace that parsing skips: blanks inside lines, and the newline.
pub open spec fn is_blank(c: char) -> bool {
    c == ' ' || c == '\t' || c == '\n'
}

/// The cell a character parses to.
pub open spec fn cell_of_char(c: char) -> Cell {
    if c == '.' {
        Cell { kind: CellKind::Empty, state: CellState::Hidden }
    } else if c == 'm' {
        Cell { kind: CellKind::Mine, state: CellState::Hidden }
    } else if c == 'M' {
        Cell { kind: CellKind::Mine, state: CellState::Opened }
    } else if c == 'f' {
        Cell { kind: CellKind::Empty, state: CellState::Flagged }
    } else if c == 'F' {
        Cell { kind: CellKind::Mine, state: CellState::Flagged }
    } else {
        Cell { kind: CellKind::Empty, state: CellState::Opened }
    }
}

/// The cells that the text's cell characters spell, in order.
pub open spec fn cells_of(t: Seq<char>) -> Seq<Cell>
    decreases t.len(),
{
    if t.len() == 0 {
        Seq::empty()
    } else {
        cells_of(t.drop_last()) + if is_cell_char(t.last()) {
            seq![cell_of_char(t.last())]
        } else {
            Seq::empty()
        }
    }
}

/// How many newlines the text holds.
pub open spec fn newline_count(t: Seq<char>) -> int
    decreases t.len(),
{
    if t.len() == 0 {
        0
    } else {
        newline_count(t.drop_last()) + if t.last() == '\n' {
            1int
        } else {
            0int
        }
    }
}

/// The length of the first line: the characters before the first newline.
pub open spec fn line_width(s: Seq<char>) -> int
    decreases s.len(),
{
    if s.len() == 0 {
        0
    } else if s[0] == '\n' {
        0
    } else {
        1 + line_width(s.drop_first())
    }
}

/// How many whitespace characters the text starts with.
pub open spec fn leading_blanks(s: Seq<char>) -> int
    decreases s.len(),
{
    if s.len() == 0 {
        0
    } else if is_blank(s[0]) {
        1 + leading_blanks(s.drop_first())
    } else {
        0
    }
}

/// How many whitespace characters the text ends with.
pub open spec fn trailing_blanks(s: Seq<char>) -> int
    decreases s.len(),
{
    if s.len() == 0 {
        0
    } else if is_blank(s.last()) {
        1 + trailing_blanks(s.drop_last())
    } else {
        0
    }
}

/// The text with surrounding whitespace removed.
pub open spec fn trimmed(s: Seq<char>) -> Seq<char> {
    if leading_blanks(s) == s.len() {
        Seq::empty()
    } else {
        s.subrange(leading_blanks(s), s.len() - trailing_blanks(s))
    }
}

/// A text that parses into a board: it is nonempty, every character after
/// trimming is a cell character or whitespace, and the cell count fills a
/// `width * height` grid exactly.
pub open spec fn parse_ok(s: Seq<char>) -> bool {
    &&& 0 < s.len() < usize::MAX
    &&& forall|i: int|
        0 <= i < trimmed(s).len() ==> is_cell_char(#[trigger] trimmed(s)[i]) || is_blank(
            trimmed(s)[i],
        )
    &&& cells_of(trimmed(s)).len() == line_width(s) * (1 + newline_count(trimmed(s)))
}

/// The board a text parses to: the cells its cell characters spell, the
/// first line's length as the width, and one more row than there are
/// newlines after trimming.
pub open spec fn parse_spec(s: Seq<char>) -> BoardView {
    BoardView {
        cells: cells_of(trimmed(s)),
        width: line_width(s) as nat,
        height: (1 + newline_count(trimmed(s))) as nat,
    }
}

/// Relies on String::from_iter: collecting characters yields the string
/// of exactly those characters, in order.
#[verifier::external_body]
fn chars_to_string(v: Vec<char>) -> (r: String)
    ensures
        r@ == v@,
{
    String::from_iter(v)
}

/// The digit character for a count of at most eight.
fn digit_char_of(n: usize) -> (r: char)
    requires
        n <= 8,
    ensures
        r == digit_char(n as int),
{
    if n == 0 {
        '0'
    } else if n == 1 {
        '1'
    } else if n == 2 {
        '2'
    } else if n == 3 {
        '3'
    } else if n == 4 {
        '4'
    } else if n == 5 {
        '5'
    } else if n == 6 {
        '6'
    } else if n == 7 {
        '7'
    } else {
        '8'
    }
}

impl Minefield {
    /// Renders the board as text, one row per line.
    pub fn format(&self) -> (r: String)
        requires
            self@.wf(),
        ensures
            r@ == format_spec(self@),
    {
        let mut out: Vec<char> = Vec::new();
        let mut y: usize = 0;
        while y < self.height
            invariant
                y <= self.height,
                self@.wf(),
                out@ == rows_upto(self@, y as int),
            decreases self.height - y,
        {
            let mut x: usize = 0;
            while x < self.width
                invariant
                    x <= self.width,
                    y < self.height,
                    self@.wf(),
                    out@ == rows_upto(self@, y as int) + row_prefix(self@, y as int, x as int),
                decreases self.width - x,
            {
                let cell = self.cells[self.flat_index(x, y)];
                let c = match (cell.state, cell.kind) {
                    (CellState::Hidden, CellKind::Empty) => '.',
                    (CellState::Hidden, CellKind::Mine) => 'm',
                    (CellState::Opened, CellKind::Empty) => digit_char_of(
                        self.count_mines(x, y),
                    ),
                    (CellState::Opened, CellKind::Mine) => 'M',
                    (CellState::Flagged, CellKind::Empty) => 'f',
                    (CellState::Flagged, CellKind::Mine) => 'F',
                };
                out.push(c);
                proof {
                    assert(c == cell_to_char(self@, x as int, y as int));
                    assert(out@ =~= rows_upto(self@, y as int) + row_prefix(
                        self@,
                        y as int,
                        x + 1 as int,
                    ));
                }
                x = x + 1;
            }
            out.push('\n');
            proof {
                assert(out@ =~= rows_upto(self@, y + 1 as int));
            }
            y = y + 1;
        }
        chars_to_string(out)
    }

    /// Reads a board back from its text form.
    pub fn parse(s: &str) -> (r: Minefield)
        requires
            parse_ok(s@),
        ensures
            r@ == parse_spec(s@),
            r@.wf(),
    {
        let n = s.unicode_len();
        proof {
            assert(s@.skip(0) =~= s@);
            assert(s@.take(n as int) =~= s@);
        }
        let mut width: usize = 0;
        while width < n && s.get_char(width) != '\n'
            invariant
                width <= n,
                n == s@.len(),
                line_width(s@) == width + line_width(s@.skip(width as int)),
            decreases n - width,
        {
            proof {
                assert(s@.skip(width as int)[0] == s@[width as int]);
                assert(s@.skip(width as int).drop_first() =~= s@.skip(width + 1 as int));
            }
            width = width + 1;
        }
        proof {
            if width < n {
                assert(s@.skip(width as int)[0] == '\n');
            }
            assert(line_width(s@) == width);
        }
        let mut lo: usize = 0;
        while lo < n && is_blank_char(s.get_char(lo))
            invariant
                lo <= n,
                n == s@.len(),
                leading_blanks(s@) == lo + leading_blanks(s@.skip(lo as int)),
            decreases n - lo,
        {
            proof {
                assert(s@.skip(lo as int)[0] == s@[lo as int]);
                assert(s@.skip(lo as int).drop_first() =~= s@.skip(lo + 1 as int));
            }
            lo = lo + 1;
        }
        if lo == n {
            proof {
                assert(s@.skip(n as int).len() == 0);
                assert(leading_blanks(s@) == s@.len());
                assert(trimmed(s@).len() == 0);
                assert(cells_of(trimmed(s@)).len() == 0);
                assert(newline_count(trimmed(s@)) == 0);
                assert(line_width(s@) * 1 == line_width(s@));
            }
            let cells: Vec<Cell> = Vec::new();
            let r = Minefield { cells, width, height: 1 };
            proof {
                assert(r@.cells =~= parse_spec(s@).cells);
                assert(r@ =~= parse_spec(s@));
                assert(width * 1 == width);
            }
            return r;
        }
        proof {
            assert(s@.skip(lo as int)[0] == s@[lo as int]);
            assert(!is_blank(s@[lo as int]));
            assert(leading_blanks(s@) == lo);
        }
        let mut hi: usize = n;
        while hi > lo && is_blank_char(s.get_char(hi - 1))
            invariant
                lo <= hi <= n,
                n == s@.len(),
                !is_blank(s@[lo as int]),
                trailing_blanks(s@) == (n - hi) + trailing_blanks(s@.take(hi as int)),
            decreases hi,
        {
            proof {
                assert(s@.take(hi as int).last() == s@[hi - 1 as int]);
                assert(s@.take(hi as int).drop_last() =~= s@.take(hi - 1 as int));
            }
            hi = hi - 1;
        }
        proof {
            if hi == lo {
                lemma_trailing_blanks_bound(s@, lo as int);
                lemma_trailing_blanks_nonneg(s@.take(lo as int));
                assert(false);
            }
            assert(s@.take(hi as int).last() == s@[hi - 1 as int]);
            assert(trailing_blanks(s@) == n - hi);
            assert(trimmed(s@) =~= s@.subrange(lo as int, hi as int));
        }
        let ghost t = trimmed(s@);
        let mut cells: Vec<Cell> = Vec::new();
        let mut height: usize = 1;
        let mut i: usize = lo;
        while i < hi
            invariant
                lo <= i <= hi <= n,
                n == s@.len(),
                n < usize::MAX,
                t == trimmed(s@),
                t.len() == hi - lo,
                forall|k: int| 0 <= k < t.len() ==> t[k] == s@[lo + k],
                forall|k: int| 0 <= k < t.len() ==> is_cell_char(#[trigger] t[k]) || is_blank(
                    t[k],
                ),
                cells@ == cells_of(t.take(i - lo)),
                height == 1 + newline_count(t.take(i - lo)),
                height <= 1 + (i - lo),
            decreases hi - i,
        {
            let c = s.get_char(i);
            proof {
                assert(t[i - lo] == c);
                assert(t.take(i + 1 - lo).drop_last() =~= t.take(i - lo));
                assert(t.take(i + 1 - lo).last() == c);
            }
            if c == '\n' {
                height = height + 1;
            } else if c == ' ' || c == '\t' {
            } else {
                let cell = if c == '.' {
                    Cell { kind: CellKind::Empty, state: CellState::Hidden }
                } else if c == 'm' {
                    Cell { kind: CellKind::Mine, state: CellState::Hidden }
                } else if c == 'M' {
                    Cell { kind: CellKind::Mine, state: CellState::Opened }
                } else if c == 'f' {
                    Cell { kind: CellKind::Empty, state: CellState::Flagged }
                } else if c == 'F' {
                    Cell { kind: CellKind::Mine, state: CellState::Flagged }
                } else {
                    proof {
                        assert(is_cell_char(c) || is_blank(c));
                        assert(is_digit_char(c));
                    }
                    Cell { kind: CellKind::Empty, state: CellState::Opened }
                };
                cells.push(cell);
                proof {
                    assert(cells@ =~= cells_of(t.take(i + 1 - lo)));
                }
            }
            i = i + 1;
        }
        proof {
            assert(t.take(hi - lo as int) =~= t);
        }
        let r = Minefield { cells, width, height };
        proof {
            assert(r@ =~= parse_spec(s@));
            assert(r@.cells.len() == line_width(s@) * (1 + newline_count(t)));
        }
        r
    }
}

/// Trailing blanks never count below zero or past the whole text.
proof fn lemma_trailing_blanks_nonneg(s: Seq<char>)
    ensures
        0 <= trailing_blanks(s) <= s.len(),
    decreases s.len(),
{
    if s.len() > 0 {
        lemma_trailing_blanks_nonneg(s.drop_last());
    }
}

/// A text cannot end in more blanks than follow its last non-blank
/// character.
proof fn lemma_trailing_blanks_bound(s: Seq<char>, j: int)
    requires
        0 <= j < s.len(),
        !is_blank(s[j]),
    ensures
        trailing_blanks(s) <= s.len() - 1 - j,
    decreases s.len(),
{
    if is_blank(s.last()) {
        lemma_trailing_blanks_bound(s.drop_last(), j);
    }
}

/// Whether parsing skips this character.
fn is_blank_char(c: char) -> (r: bool)
    ensures
        r == is_blank(c),
{
    c == ' ' || c == '\t' || c == '\n'
}

/// Formatted rows take `width + 1` characters each.
proof fn lemma_rows_upto_len(b: BoardView, y: int)
    requires
        0 <= y,
    ensures
        rows_upto(b, y).len() == y * (b.width + 1),
    decreases y,
{
    if y > 0 {
        lemma_rows_upto_len(b, y - 1);
        lemma_row_prefix_len(b, y - 1, b.width as int);
        assert(y * (b.width + 1) == (y - 1) * (b.width + 1) + (b.width + 1)) by (nonlinear_arith);
    } else {
        assert(y * (b.width + 1) == 0) by (nonlinear_arith)
            requires
                y == 0,
        ;
    }
}

/// Characters of the formatted prefix stay put as more rows follow.
proof fn lemma_rows_upto_stable(b: BoardView, y1: int, y2: int, p: int)
    requires
        0 <= y1 <= y2,
        0 <= p < rows_upto(b, y1).len(),
    ensures
        rows_upto(b, y2)[p] == rows_upto(b, y1)[p],
    decreases y2 - y1,
{
    if y1 < y2 {
        lemma_rows_upto_stable(b, y1, y2 - 1, p);
        lemma_rows_upto_len(b, y1);
        lemma_rows_upto_len(b, y2 - 1);
        assert(y1 * (b.width + 1) <= (y2 - 1) * (b.width + 1)) by (nonlinear_arith)
            requires
                y1 <= y2 - 1,
                b.width + 1 >= 0,
        ;
    }
}

/// The character of column `x` in the formatted row `y`.
proof fn lemma_row_prefix_index(b: BoardView, y: int, x: int, n: int)
    requires
        0 <= x < n,
    ensures
        row_prefix(b, y, n).len() == n,
        row_prefix(b, y, n)[x] == cell_to_char(b, x, y),
    decreases n,
{
    lemma_row_prefix_len(b, y, n);
    if x < n - 1 {
        lemma_row_prefix_index(b, y, x, n - 1);
    }
}

proof fn lemma_row_prefix_len(b: BoardView, y: int, n: int)
    ensures
        row_prefix(b, y, n).len() == if n >= 0 {
            n
        } else {
            0
        },
    decreases n,
{
    if n > 0 {
        lemma_row_prefix_len(b, y, n - 1);
    }
}

/// Where each character of the whole formatted text comes from.
proof fn lemma_format_index(b: BoardView, y: int, x: int)
    requires
        0 <= y < b.height,
        0 <= x <= b.width,
    ensures
        format_spec(b).len() == b.height * (b.width + 1),
        format_spec(b)[y * (b.width + 1) + x] == if x < b.width {
            cell_to_char(b, x, y)
        } else {
            '\n'
        },
{
    let w1 = b.width + 1 as int;
    lemma_rows_upto_len(b, b.height as int);
    lemma_rows_upto_len(b, y);
    lemma_rows_upto_len(b, y + 1);
    lemma_row_prefix_len(b, y, b.width as int);
    assert((y + 1) * w1 == y * w1 + w1) by (nonlinear_arith);
    let p = y * w1 + x;
    assert(rows_upto(b, y + 1)[p] == row_chars(b, y)[x]);
    if x < b.width {
        lemma_row_prefix_index(b, y, x, b.width as int);
        assert(row_chars(b, y)[x] == cell_to_char(b, x, y));
    } else {
        assert(row_chars(b, y)[x] == '\n');
    }
    lemma_rows_upto_stable(b, y + 1, b.height as int, p);
}

/// Every character a cell formats to stands for a cell and is not
/// whitespace, and parses back to the very same cell.
proof fn lemma_cell_char_roundtrip(b: BoardView, x: int, y: int)
    ensures
        is_cell_char(cell_to_char(b, x, y)),
        !is_blank(cell_to_char(b, x, y)),
        cell_to_char(b, x, y) != '\n',
        cell_of_char(cell_to_char(b, x, y)) == b.cell_at(x, y),
{
    let c = b.cell_at(x, y);
    match (c.state, c.kind) {
        (CellState::Opened, CellKind::Empty) => {
            let n = b.count_mines(x, y);
            assert(is_digit_char(digit_char(n)));
        },
        _ => {},
    }
}

/// Concatenation splits the spelled cells.
proof fn lemma_cells_of_concat(s: Seq<char>, t: Seq<char>)
    ensures
        cells_of(s + t) == cells_of(s) + cells_of(t),
    decreases t.len(),
{
    if t.len() == 0 {
        assert(s + t =~= s);
        assert(cells_of(s) + cells_of(t) =~= cells_of(s));
    } else {
        lemma_cells_of_concat(s, t.drop_last());
        assert((s + t).drop_last() =~= s + t.drop_last());
        assert((s + t).last() == t.last());
        if is_cell_char(t.last()) {
            assert(cells_of(s) + cells_of(t) =~= cells_of(s) + cells_of(t.drop_last()) + seq![
                cell_of_char(t.last()),
            ]);
        } else {
            assert(cells_of(s) + cells_of(t) =~= cells_of(s) + cells_of(t.drop_last()));
        }
    }
}

/// Concatenation splits the newline count.
proof fn lemma_newline_count_concat(s: Seq<char>, t: Seq<char>)
    ensures
        newline_count(s + t) == newline_count(s) + newline_count(t),
    decreases t.len(),
{
    if t.len() == 0 {
        assert(s + t =~= s);
    } else {
        lemma_newline_count_concat(s, t.drop_last());
        assert((s + t).drop_last() =~= s + t.drop_last());
        assert((s + t).last() == t.last());
    }
}

/// A formatted row spells exactly the cells of that row, in order.
proof fn lemma_row_prefix_cells(b: BoardView, y: int, n: int)
    requires
        b.wf(),
        0 <= y < b.height,
        0 <= n <= b.width,
    ensures
        cells_of(row_prefix(b, y, n)) == Seq::new(n as nat, |x: int| b.cell_at(x, y)),
        newline_count(row_prefix(b, y, n)) == 0,
    decreases n,
{
    if n == 0 {
        assert(cells_of(row_prefix(b, y, 0)) =~= Seq::new(0, |x: int| b.cell_at(x, y)));
    } else {
        lemma_row_prefix_cells(b, y, n - 1);
        lemma_cell_char_roundtrip(b, n - 1, y);
        let pre = row_prefix(b, y, n - 1);
        let c = cell_to_char(b, n - 1, y);
        assert(row_prefix(b, y, n) == pre.push(c));
        assert(pre.push(c).drop_last() =~= pre);
        assert(cells_of(row_prefix(b, y, n)) =~= Seq::new(n as nat, |x: int| b.cell_at(x, y)));
    }
}

/// The first `y` formatted rows spell the first `y` rows of cells and
/// hold one newline per row.
proof fn lemma_rows_upto_cells(b: BoardView, y: int)
    requires
        b.wf(),
        0 <= y <= b.height,
    ensures
        cells_of(rows_upto(b, y)) == b.cells.take(y * b.width),
        newline_count(rows_upto(b, y)) == y,
    decreases y,
{
    let w = b.width as int;
    if y == 0 {
        assert(y * w == 0) by (nonlinear_arith)
            requires
                y == 0,
        ;
        assert(cells_of(rows_upto(b, 0)) =~= b.cells.take(0));
    } else {
        lemma_rows_upto_cells(b, y - 1);
        lemma_row_prefix_cells(b, y - 1, w);
        let row = row_chars(b, y - 1);
        let pre = row_prefix(b, y - 1, w);
        lemma_cells_of_concat(rows_upto(b, y - 1), row);
        lemma_newline_count_concat(rows_upto(b, y - 1), row);
        assert(pre.push('\n').drop_last() =~= pre);
        assert(cells_of(row) == cells_of(pre));
        assert(newline_count(row) == newline_count(pre) + 1);
        lemma_row_prefix_cells(b, y - 1, w);
        assert((y - 1) * w + w == y * w) by (nonlinear_arith);
        assert(0 <= (y - 1) * w && y * w <= b.cells.len()) by (nonlinear_arith)
            requires
                0 <= y - 1,
                y <= b.height,
                0 <= w,
                b.cells.len() == b.width * b.height,
                w == b.width,
        ;
        assert forall|k: int| 0 <= k < w implies cells_of(pre)[k] == b.cells[(y - 1) * w + k] by {
            assert(cells_of(pre)[k] == b.cell_at(k, y - 1));
        }
        assert(cells_of(rows_upto(b, y)) =~= b.cells.take(y * w));
    }
}

/// The length of the first line of a text whose first newline sits at
/// position `k`.
proof fn lemma_line_width_at(s: Seq<char>, k: int)
    requires
        0 <= k <= s.len(),
        forall|j: int| 0 <= j < k ==> s[j] != '\n',
        k < s.len() ==> s[k] == '\n',
    ensures
        line_width(s) == k,
    decreases k,
{
    if k > 0 {
        lemma_line_width_at(s.drop_first(), k - 1);
    }
}

/// Formatting and parsing are inverse to each other: the text a board
/// renders to parses back to exactly that board.
pub proof fn lemma_parse_format_roundtrip(b: BoardView)
    requires
        b.wf(),
        b.width >= 1,
        b.height >= 1,
        b.height * (b.width + 1) < usize::MAX,
    ensures
        parse_ok(format_spec(b)),
        parse_spec(format_spec(b)) == b,
{
    let w = b.width as int;
    let h = b.height as int;
    let w1 = w + 1;
    let f = format_spec(b);
    lemma_rows_upto_len(b, h);
    assert(f.len() == h * w1);
    assert(h * w1 >= 1 * 2) by (nonlinear_arith)
        requires
            h >= 1,
            w1 >= 2,
    ;

    // where every character comes from
    assert forall|p: int| 0 <= p < f.len() implies {
        &&& f[p] == (if p % w1 < w {
            cell_to_char(b, p % w1, p / w1)
        } else {
            '\n'
        })
        &&& 0 <= p / w1 < h
        &&& 0 <= p % w1 <= w
    } by {
        vstd::arithmetic::div_mod::lemma_fundamental_div_mod(p, w1);
        vstd::arithmetic::div_mod::lemma_mod_bound(p, w1);
        let py = p / w1;
        let px = p % w1;
        assert(0 <= py < h) by (nonlinear_arith)
            requires
                w1 > 0,
                h >= 1,
                0 <= p < h * w1,
                p == w1 * py + px,
                0 <= px < w1,
        ;
        assert(py * w1 + px == p) by (nonlinear_arith)
            requires
                p == w1 * py + px,
        ;
        lemma_format_index(b, py, px);
    }

    // every character is a cell character or whitespace, and the blank
    // ones are exactly the newlines
    assert forall|p: int| 0 <= p < f.len() implies is_cell_char(#[trigger] f[p]) || f[p]
        == '\n' by {
        if p % w1 < w {
            lemma_cell_char_roundtrip(b, p % w1, p / w1);
        }
    }

    // no surrounding whitespace but the final newline
    assert(f[0] == cell_to_char(b, 0, 0)) by {
        lemma_format_index(b, 0, 0);
        assert(0 * w1 + 0 == 0) by (nonlinear_arith);
    }
    lemma_cell_char_roundtrip(b, 0, 0);
    assert(leading_blanks(f) == 0);
    assert(f[f.len() - 1] == '\n') by {
        lemma_format_index(b, h - 1, w);
        assert((h - 1) * w1 + w == h * w1 - 1) by (nonlinear_arith)
            requires
                w1 == w + 1,
        ;
    }
    assert(f[f.len() - 2] != '\n' && !is_blank(f[f.len() - 2])) by {
        lemma_format_index(b, h - 1, w - 1);
        assert((h - 1) * w1 + (w - 1) == h * w1 - 2) by (nonlinear_arith)
            requires
                w1 == w + 1,
        ;
        lemma_cell_char_roundtrip(b, w - 1, h - 1);
    }
    assert(trailing_blanks(f) == 1) by {
        assert(f.drop_last().last() == f[f.len() - 2]);
        assert(trailing_blanks(f.drop_last()) == 0);
    }
    let t = trimmed(f);
    assert(t =~= f.drop_last());

    // the first line is one formatted row
    assert(line_width(f) == w) by {
        assert forall|j: int| 0 <= j < w implies f[j] != '\n' by {
            assert(0 * w1 + j == j) by (nonlinear_arith);
            lemma_format_index(b, 0, j);
            lemma_cell_char_roundtrip(b, j, 0);
        }
        assert(f[w] == '\n') by {
            lemma_format_index(b, 0, w);
            assert(0 * w1 + w == w) by (nonlinear_arith);
        }
        lemma_line_width_at(f, w);
    }

    // the spelled cells and the newline count
    lemma_rows_upto_cells(b, h);
    assert(b.cells.take(h * w) =~= b.cells) by {
        assert(h * w == b.width * b.height) by (nonlinear_arith)
            requires
                w == b.width,
                h == b.height,
        ;
    }
    assert(cells_of(f) == b.cells);
    assert(newline_count(f) == h);
    assert(cells_of(t) == cells_of(f) && newline_count(t) == newline_count(f) - 1) by {
        assert(f.last() == '\n');
    }

    assert(cells_of(t).len() == line_width(f) * (1 + newline_count(t))) by {
        assert(w * h == b.width * b.height) by (nonlinear_arith)
            requires
                w == b.width,
                h == b.height,
        ;
    }
    assert(parse_ok(f)) by {
        assert forall|i: int| 0 <= i < t.len() implies is_cell_char(#[trigger] t[i]) || is_blank(
            t[i],
        ) by {
            assert(t[i] == f[i]);
        }
    }
    assert(parse_spec(f) =~= b) by {
        assert(w * h == b.width * b.height) by (nonlinear_arith)
            requires
                w == b.width,
                h == b.height,
        ;
    }
}

} // verus!
