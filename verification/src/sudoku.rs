use crate::generator::{peers, Board, SudokuGenerator};
use vstd::prelude::*;

verus! {

/// A finished grid of digits: each cell empty or holding a number.
#[derive(Debug, Clone)]
pub struct Sudoku([[Option<u8>; 9]; 9]);

/// A puzzle together with its solution.
#[derive(Debug, Clone)]
pub struct Puzzle {
    puzzle: Sudoku,
    solution: Sudoku,
}

impl View for Sudoku {
    type V = Seq<Option<u8>>;

    /// The 81 cells in row-major order.
    closed spec fn view(&self) -> Seq<Option<u8>> {
        Seq::new(81, |i: int| self.0@[i / 9]@[i % 9])
    }
}

/// The grid's cells as numbers: a digit `n` becomes its value.
pub open spec fn digits_of(b: Board) -> Seq<Option<u8>> {
    Seq::new(
        81,
        |i: int|
            match b.cells[i] {
                Some(n) => Some(n@ as u8),
                None => None,
            },
    )
}

/// Every cell holds a value from 1 to 9, and no two peers hold the same.
pub open spec fn is_solved_grid(s: Seq<Option<u8>>) -> bool {
    &&& s.len() == 81
    &&& forall|i: int| 0 <= i < 81 ==> (#[trigger] s[i] matches Some(v) && 1 <= v <= 9)
    &&& forall|i: int, j: int| 0 <= i < 81 && 0 <= j < 81 && peers(i, j) ==> #[trigger] s[i] != #[trigger] s[j]
}

/// Every value that `puzzle` gives stands in the same cell of `grid`.
pub open spec fn agrees_with(puzzle: Seq<Option<u8>>, grid: Seq<Option<u8>>) -> bool {
    forall|i: int| 0 <= i < 81 && (#[trigger] puzzle[i]) is Some ==> puzzle[i] == grid[i]
}

/// Calls std's `String::push`. Claimed, as its documentation says: the
/// string afterwards is the old one with `c` appended.
#[verifier::external_body]
fn push_char(s: &mut String, c: char)
    ensures
        final(s)@ == old(s)@.push(c),
{
    s.push(c)
}

/// The decimal digit character for `v` (0..10).
pub open spec fn digit_char(v: int) -> char {
    if v == 0 {
        '0'
    } else if v == 1 {
        '1'
    } else if v == 2 {
        '2'
    } else if v == 3 {
        '3'
    } else if v == 4 {
        '4'
    } else if v == 5 {
        '5'
    } else if v == 6 {
        '6'
    } else if v == 7 {
        '7'
    } else if v == 8 {
        '8'
    } else {
        '9'
    }
}

fn decimal_digit(v: u8) -> (c: char)
    requires
        v < 10,
    ensures
        c == digit_char(v as int),
{
    match v {
        0 => '0',
        1 => '1',
        2 => '2',
        3 => '3',
        4 => '4',
        5 => '5',
        6 => '6',
        7 => '7',
        8 => '8',
        _ => '9',
    }
}

/// The line form of a grid: one character per cell, row-major, the cell's
/// digit or `'0'` for an empty cell.
pub open spec fn line_of(s: Seq<Option<u8>>) -> Seq<char> {
    Seq::new(
        81,
        |i: int|
            match s[i] {
                Some(v) => digit_char(v as int),
                None => '0',
            },
    )
}

impl Sudoku {
    /// Every grid has 81 cells.
    pub proof fn lemma_len(&self)
        ensures
            self@.len() == 81,
    {
    }

    proof fn lemma_view_cell(&self, r: int, c: int)
        requires
            0 <= r < 9,
            0 <= c < 9,
        ensures
            self@[r * 9 + c] == self.0@[r]@[c],
            self@.len() == 81,
    {
        crate::generator::lemma_row_col(r, c);
    }

    /// The grid with the given cells (rows of columns).
    pub fn from_cells(cells: [[Option<u8>; 9]; 9]) -> (r: Self)
        ensures
            r@.len() == 81,
            forall|i: int| 0 <= i < 81 ==> #[trigger] r@[i] == cells@[i / 9]@[i % 9],
    {
        Sudoku(cells)
    }

    /// The cells (rows of columns).
    pub fn cells(&self) -> (r: [[Option<u8>; 9]; 9])
        ensures
            self@.len() == 81,
            forall|i: int| 0 <= i < 81 ==> #[trigger] self@[i] == r@[i / 9]@[i % 9],
    {
        self.0
    }

    /// One character per cell in row-major order: the cell's digit, or `'0'`
    /// for an empty cell. Every value must be a single decimal digit.
    pub fn to_line(&self) -> (r: String)
        requires
            forall|i: int| 0 <= i < 81 ==> (#[trigger] self@[i] matches Some(v) ==> v < 10),
        ensures
            r@ == line_of(self@),
    {
        let mut string = String::new();
        for row_i in 0..9usize
            invariant
                string@ == line_of(self@).take(row_i * 9),
                forall|i: int| 0 <= i < 81 ==> (#[trigger] self@[i] matches Some(v) ==> v < 10),
        {
            for col_i in 0..9usize
                invariant
                    row_i < 9,
                    string@ == line_of(self@).take(row_i * 9 + col_i),
                    forall|i: int| 0 <= i < 81 ==> (#[trigger] self@[i] matches Some(v) ==> v < 10),
            {
                proof {
                    self.lemma_view_cell(row_i as int, col_i as int);
                }
                let c = match self.0[row_i][col_i] {
                    Some(v) => decimal_digit(v),
                    None => '0',
                };
                push_char(&mut string, c);
                assert(string@ =~= line_of(self@).take(row_i * 9 + col_i + 1));
            }
        }
        assert(string@ =~= line_of(self@));
        string
    }
}

/// Eight horizontal box-drawing strokes.
pub open spec fn strokes() -> Seq<char> {
    Seq::new(8, |i: int| '─')
}

/// A border line: `left`, three runs of strokes split by `mid`, `right`,
/// and a newline.
pub open spec fn border(left: char, mid: char, right: char) -> Seq<char> {
    seq![left] + strokes() + seq![mid] + strokes() + seq![mid] + strokes() + seq![right, '\n']
}

/// The decimal form of `v`.
pub open spec fn decimal(v: u8) -> Seq<char> {
    if v < 10 {
        seq![digit_char(v as int)]
    } else if v < 100 {
        seq![digit_char((v / 10) as int), digit_char((v % 10) as int)]
    } else {
        seq![digit_char((v / 100) as int), digit_char(((v / 10) % 10) as int), digit_char((v % 10) as int)]
    }
}

/// The text of the cell in column `col`: a box wall before every third
/// column and a space elsewhere, then a space and the value, or two spaces.
pub open spec fn cell_text(col: int, cell: Option<u8>) -> Seq<char> {
    (if col % 3 == 0 {
        seq!['│']
    } else {
        seq![' ']
    }) + match cell {
        Some(v) => seq![' '] + decimal(v),
        None => seq![' ', ' '],
    }
}

/// The text of the first `n` cells of row `r`.
pub open spec fn row_cells_text(s: Seq<Option<u8>>, r: int, n: int) -> Seq<char>
    decreases n,
{
    if n <= 0 {
        Seq::empty()
    } else {
        row_cells_text(s, r, n - 1) + cell_text(n - 1, s[r * 9 + n - 1])
    }
}

/// The lines of row `r`: a box divider above rows 3 and 6, then the cells
/// and a closing wall.
pub open spec fn row_lines(s: Seq<Option<u8>>, r: int) -> Seq<char> {
    (if 0 < r < 9 && r % 3 == 0 {
        border('├', '┼', '┤')
    } else {
        Seq::empty()
    }) + row_cells_text(s, r, 9) + seq!['│', '\n']
}

/// The lines of the first `n` rows.
pub open spec fn rows_text(s: Seq<Option<u8>>, n: int) -> Seq<char>
    decreases n,
{
    if n <= 0 {
        Seq::empty()
    } else {
        rows_text(s, n - 1) + row_lines(s, n - 1)
    }
}

/// The grid drawn with box-drawing characters, one line per row.
pub open spec fn grid_text(s: Seq<Option<u8>>) -> Seq<char> {
    border('┌', '┬', '┐') + rows_text(s, 9) + border('└', '┴', '┘')
}

fn push_border(string: &mut String, left: char, mid: char, right: char)
    ensures
        final(string)@ == old(string)@ + border(left, mid, right),
{
    let ghost start = string@;
    push_char(string, left);
    for part in 0..3usize
        invariant
            string@.len() == start.len() + 1 + part * 9,
            string@ == start + border(left, mid, right).take(1 + part * 9),
    {
        for i in 0..8usize
            invariant
                part < 3,
                string@ == start + border(left, mid, right).take(1 + part * 9 + i),
        {
            push_char(string, '─');
            assert(string@ =~= start + border(left, mid, right).take(1 + part * 9 + i + 1));
        }
        if part < 2 {
            push_char(string, mid);
        } else {
            push_char(string, right);
        }
        assert(string@ =~= start + border(left, mid, right).take(1 + (part + 1) * 9));
    }
    push_char(string, '\n');
    assert(string@ =~= start + border(left, mid, right));
}

fn push_decimal(string: &mut String, v: u8)
    ensures
        final(string)@ == old(string)@ + decimal(v),
{
    let ghost start = string@;
    if v < 10 {
        push_char(string, decimal_digit(v));
    } else if v < 100 {
        push_char(string, decimal_digit(v / 10));
        push_char(string, decimal_digit(v % 10));
    } else {
        push_char(string, decimal_digit(v / 100));
        push_char(string, decimal_digit((v / 10) % 10));
        push_char(string, decimal_digit(v % 10));
    }
    assert(string@ =~= start + decimal(v));
}

/// Whether `c` is one of the characters `'0'` through `'9'`.
pub open spec fn is_digit_char(c: char) -> bool {
    '0' as int <= c as int <= '9' as int
}

/// The number that a decimal digit character stands for: its distance from `'0'`.
pub open spec fn digit_value(c: char) -> int {
    c as int - '0' as int
}

/// The number that a string of decimal digit characters denotes, most
/// significant digit first.
pub open spec fn decimal_value(s: Seq<char>) -> int
    decreases s.len(),
{
    if s.len() == 0 {
        0
    } else {
        decimal_value(s.drop_last()) * 10 + digit_value(s.last())
    }
}

/// Every value is written in plain decimal: one to three digit characters,
/// no leading zero, reading back as the value; a value below ten is a single
/// character.
pub proof fn lemma_decimal(v: u8)
    ensures
        1 <= decimal(v).len() <= 3,
        forall|i: int| 0 <= i < decimal(v).len() ==> is_digit_char(#[trigger] decimal(v)[i]),
        decimal(v).len() > 1 ==> decimal(v)[0] != '0',
        decimal_value(decimal(v)) == v,
        decimal(v).len() == 1 <==> v < 10,
{
    reveal_with_fuel(decimal_value, 4);
    let d = decimal(v);
    if v < 10 {
        assert(d.drop_last() =~= Seq::<char>::empty());
    } else if v < 100 {
        assert(d.drop_last() =~= seq![d[0]]);
        assert(seq![d[0]].drop_last() =~= Seq::<char>::empty());
    } else {
        assert(d.drop_last() =~= seq![d[0], d[1]]);
        assert(seq![d[0], d[1]].drop_last() =~= seq![d[0]]);
        assert(seq![d[0]].drop_last() =~= Seq::<char>::empty());
    }
}

/// Every cell whose value is a single digit is three characters wide: its
/// wall or a space, then a space, then the value's digit, or a second space
/// for an empty cell.
pub proof fn lemma_cell_text(col: int, cell: Option<u8>)
    requires
        cell matches Some(v) ==> v < 10,
    ensures
        cell_text(col, cell).len() == 3,
        cell_text(col, cell)[0] == (if col % 3 == 0 { '│' } else { ' ' }),
        cell_text(col, cell)[1] == ' ',
        match cell {
            Some(v) => is_digit_char(cell_text(col, cell)[2]) && digit_value(cell_text(col, cell)[2]) == v,
            None => cell_text(col, cell)[2] == ' ',
        },
{
    if let Some(v) = cell {
        lemma_decimal(v);
        reveal_with_fuel(decimal_value, 2);
        assert(decimal(v).drop_last() =~= Seq::<char>::empty());
    }
}

/// In a row whose values are single digits, the first `n` cells take three
/// characters each, cell `c` filling characters `3c` to `3c + 2`; so the walls
/// of such rows line up under the frame's corners and dividers.
pub proof fn lemma_row_cells_width(s: Seq<Option<u8>>, r: int, n: int)
    requires
        0 <= n <= 9,
        forall|c: int| 0 <= c < n ==> (#[trigger] s[r * 9 + c] matches Some(v) ==> v < 10),
    ensures
        row_cells_text(s, r, n).len() == 3 * n,
        forall|c: int|
            0 <= c < n ==> #[trigger] row_cells_text(s, r, n).subrange(3 * c, 3 * c + 3) == cell_text(c, s[r * 9 + c]),
    decreases n,
{
    if n > 0 {
        lemma_row_cells_width(s, r, n - 1);
        lemma_cell_text(n - 1, s[r * 9 + n - 1]);
        let prev = row_cells_text(s, r, n - 1);
        let t = row_cells_text(s, r, n);
        assert(t == prev + cell_text(n - 1, s[r * 9 + n - 1]));
        assert forall|c: int| 0 <= c < n implies #[trigger] t.subrange(3 * c, 3 * c + 3) == cell_text(c, s[r * 9 + c]) by {
            if c < n - 1 {
                assert(t.subrange(3 * c, 3 * c + 3) =~= prev.subrange(3 * c, 3 * c + 3));
            } else {
                assert(t.subrange(3 * c, 3 * c + 3) =~= cell_text(n - 1, s[r * 9 + n - 1]));
            }
        }
    }
}

impl Sudoku {
    /// The grid drawn with box-drawing characters: a frame around it, walls
    /// between boxes, each given shown after a space, each empty cell as two
    /// spaces.
    pub fn to_grid_string(&self) -> (r: String)
        ensures
            r@ == grid_text(self@),
    {
        let mut f = String::new();
        push_border(&mut f, '┌', '┬', '┐');
        let ghost top = f@;
        for row_i in 0..9usize
            invariant
                top == border('┌', '┬', '┐'),
                f@ == top + rows_text(self@, row_i as int),
        {
            let ghost before_row = f@;
            if row_i < 9 && row_i > 0 && row_i % 3 == 0 {
                push_border(&mut f, '├', '┼', '┤');
            }
            let ghost head = f@;
            for col_i in 0..9usize
                invariant
                    row_i < 9,
                    f@ == head + row_cells_text(self@, row_i as int, col_i as int),
            {
                proof {
                    self.lemma_view_cell(row_i as int, col_i as int);
                }
                let ghost before_cell = f@;
                if col_i % 3 == 0 {
                    push_char(&mut f, '│');
                } else {
                    push_char(&mut f, ' ');
                }
                if let Some(c) = self.0[row_i][col_i] {
                    push_char(&mut f, ' ');
                    push_decimal(&mut f, c);
                } else {
                    push_char(&mut f, ' ');
                    push_char(&mut f, ' ');
                }
                assert(f@ =~= before_cell + cell_text(col_i as int, self@[row_i * 9 + col_i]));
                assert(f@ =~= head + row_cells_text(self@, row_i as int, col_i + 1));
            }
            push_char(&mut f, '│');
            push_char(&mut f, '\n');
            assert(f@ =~= before_row + row_lines(self@, row_i as int));
            assert(f@ =~= top + rows_text(self@, row_i + 1));
        }
        push_border(&mut f, '└', '┴', '┘');
        assert(f@ =~= grid_text(self@));
        f
    }
}

impl From<SudokuGenerator> for Sudoku {
    /// The board's cells as numbers.
    fn from(value: SudokuGenerator) -> (r: Self)
        ensures
            r@ == digits_of(value@),
    {
        let mut sudoku = Sudoku([[None;9];9]);
        for row_i in 0..9usize
            invariant
                forall|i: int| 0 <= i < row_i * 9 ==> #[trigger] sudoku@[i] == digits_of(value@)[i],
        {
            for col_i in 0..9usize
                invariant
                    row_i < 9,
                    forall|i: int| 0 <= i < row_i * 9 + col_i ==> #[trigger] sudoku@[i] == digits_of(value@)[i],
            {
                proof {
                    crate::generator::lemma_row_col(row_i as int, col_i as int);
                }
                let cell = match value.get_cell(row_i, col_i) {
                    Some(n) => Some(u8::from(n)),
                    None => None,
                };
                let ghost prev = sudoku;
                sudoku.0[row_i][col_i] = cell;
                proof {
                    assert forall|i: int| 0 <= i < row_i * 9 + col_i + 1 implies #[trigger] sudoku@[i] == digits_of(value@)[i] by {
                        crate::generator::lemma_row_col(i / 9, i % 9);
                        if i < row_i * 9 + col_i {
                            assert(prev@[i] == digits_of(value@)[i]);
                            assert(i / 9 != row_i || i % 9 != col_i);
                        }
                    }
                }
            }
        }
        proof {
            value.lemma_shaped();
        }
        assert(sudoku@ =~= digits_of(value@));
        sudoku
    }
}

impl vstd::std_specs::convert::FromSpecImpl<SudokuGenerator> for Sudoku {
    open spec fn obeys_from_spec() -> bool {
        false
    }

    open spec fn from_spec(v: SudokuGenerator) -> Sudoku {
        vstd::pervasive::arbitrary()
    }
}

impl View for Puzzle {
    type V = (Seq<Option<u8>>, Seq<Option<u8>>);

    /// The grid with the givens, and the solved grid.
    closed spec fn view(&self) -> (Seq<Option<u8>>, Seq<Option<u8>>) {
        (self.puzzle@, self.solution@)
    }
}

impl Puzzle {
    /// Pairs a puzzle with its solution.
    pub fn new_from(puzzle: Sudoku, solution: Sudoku) -> (r: Self)
        ensures
            r@ == (puzzle@, solution@),
    {
        Self { puzzle, solution }
    }

    /// The grid with the givens.
    pub fn puzzle(&self) -> (r: &Sudoku)
        ensures
            r@ == self@.0,
    {
        &self.puzzle
    }

    /// The solved grid.
    pub fn solution(&self) -> (r: &Sudoku)
        ensures
            r@ == self@.1,
    {
        &self.solution
    }
}

} // verus!
