//! The board as text: a line of column letters, a line for each row from
//! the top row down with the number of the row at both ends, and the
//! column letters again.

use vstd::prelude::*;
use crate::game::board::{star_points_of, vertex_at, Board, State};
use crate::game::grid::index_of;
use crate::game::vertex::{column_letter, letter_of_column, Vertex};
use crate::text::{digit_char, digit_to_char, push_char};

verus! {

/// The character at place `c` of the line of column letters: two spaces,
/// then a space and a letter for each column, then three spaces.
pub open spec fn letters_char(size: int, c: int) -> char {
    if 2 <= c < 2 + 2 * size && (c - 2) % 2 == 1 {
        column_letter((c - 2) / 2)
    } else {
        ' '
    }
}

/// The line of column letters, without the end of the line.
pub open spec fn letters_line(size: int) -> Seq<char> {
    Seq::new((2 * size + 5) as nat, |c: int| letters_char(size, c))
}

/// The character that stands for a cell: `x` for a black stone, `o` for a
/// white one, and for an empty cell `+` on a star point and `.` elsewhere.
pub open spec fn stone_char(cells: Seq<State>, size: int, x: int, y: int) -> char {
    match cells[index_of(size, x, y)] {
        State::Empty => if star_points_of(size).contains(vertex_at(x, y)) {
            '+'
        } else {
            '.'
        },
        State::Black => 'x',
        State::White => 'o',
    }
}

/// The character at place `c` of the line of row `y`: the number of the
/// row in two digits, a space and a stone for each column, a space, the
/// number again, and the end of the line.
pub open spec fn row_char(cells: Seq<State>, size: int, y: int, c: int) -> char {
    let number = y + 1;
    if c == 0 || c == 2 * size + 3 {
        digit_char((number / 10) as nat)
    } else if c == 1 || c == 2 * size + 4 {
        digit_char((number % 10) as nat)
    } else if 2 <= c < 2 + 2 * size && (c - 2) % 2 == 1 {
        stone_char(cells, size, (c - 2) / 2, y)
    } else if c == 2 * size + 5 {
        '\r'
    } else if c == 2 * size + 6 {
        '\n'
    } else {
        ' '
    }
}

/// The line of row `y`, with the end of the line.
pub open spec fn row_line(cells: Seq<State>, size: int, y: int) -> Seq<char> {
    Seq::new((2 * size + 7) as nat, |c: int| row_char(cells, size, y, c))
}

/// The lines of the `count` rows at the top, from the top row down.
pub open spec fn rows_text(cells: Seq<State>, size: int, count: int) -> Seq<char>
    decreases count,
{
    if count <= 0 {
        Seq::empty()
    } else {
        rows_text(cells, size, count - 1) + row_line(cells, size, size - count)
    }
}

/// The board as text.
pub open spec fn render(cells: Seq<State>, size: int) -> Seq<char> {
    letters_line(size) + seq!['\r', '\n'] + rows_text(cells, size, size) + letters_line(size)
}

/// The place of the cell in column `x` of row `y` in the text of the board.
pub open spec fn stone_offset(size: int, x: int, y: int) -> int {
    (2 * size + 7) * (size - y) + 3 + 2 * x
}

/// The stone that the text of a board shows in column `x` of row `y`.
pub open spec fn read_stone(text: Seq<char>, size: int, x: int, y: int) -> State {
    let c = text[stone_offset(size, x, y)];
    if c == 'x' {
        State::Black
    } else if c == 'o' {
        State::White
    } else {
        State::Empty
    }
}

/// The characters of the rows lie one row after the other.
proof fn lemma_rows_text(cells: Seq<State>, size: int, count: int, row: int, c: int)
    requires
        0 <= size,
        0 <= row < count,
        0 <= c < 2 * size + 7,
    ensures
        rows_text(cells, size, count).len() == count * (2 * size + 7),
        row * (2 * size + 7) + c < count * (2 * size + 7),
        rows_text(cells, size, count)[row * (2 * size + 7) + c] == row_char(
            cells,
            size,
            size - 1 - row,
            c,
        ),
    decreases count,
{
    let width = 2 * size + 7;
    lemma_rows_len(cells, size, count);
    lemma_rows_len(cells, size, count - 1);
    assert(row * width + c < count * width) by (nonlinear_arith)
        requires
            0 <= row < count,
            0 <= c < width,
    ;
    assert((count - 1) * width == count * width - width) by (nonlinear_arith);
    if row < count - 1 {
        lemma_rows_text(cells, size, count - 1, row, c);
    } else {
        assert(rows_text(cells, size, count)[row * width + c] == row_line(
            cells,
            size,
            size - count,
        )[c]);
    }
}

/// The length of the lines of the rows.
proof fn lemma_rows_len(cells: Seq<State>, size: int, count: int)
    requires
        0 <= size,
        0 <= count,
    ensures
        rows_text(cells, size, count).len() == count * (2 * size + 7),
    decreases count,
{
    let width = 2 * size + 7;
    if count > 0 {
        lemma_rows_len(cells, size, count - 1);
        assert((count - 1) * width + width == count * width) by (nonlinear_arith);
    } else {
        assert(count * width == 0) by (nonlinear_arith)
            requires
                count == 0,
        ;
    }
}

/// The text of a board shows each of its stones: reading the text back
/// where a cell stands gives what the cell holds.
pub proof fn lemma_render_reads_back(cells: Seq<State>, size: int, x: int, y: int)
    requires
        0 <= x < size,
        0 <= y < size,
    ensures
        0 <= stone_offset(size, x, y) < render(cells, size).len(),
        read_stone(render(cells, size), size, x, y) == cells[index_of(size, x, y)],
{
    let width = 2 * size + 7;
    let row = size - 1 - y;
    let c = 3 + 2 * x;
    lemma_rows_text(cells, size, size, row, c);
    let head = letters_line(size) + seq!['\r', '\n'];
    assert(head.len() == width);
    let text = render(cells, size);
    assert(width * (size - y) == width + row * width) by (nonlinear_arith)
        requires
            row == size - 1 - y,
    ;
    assert(stone_offset(size, x, y) == width + (row * width + c));
    assert(text[width + (row * width + c)] == rows_text(cells, size, size)[row * width + c]);
    assert((c - 2) % 2 == 1 && (c - 2) / 2 == x);
    assert(row_char(cells, size, y, c) == stone_char(cells, size, x, y));
}

/// Whether the list holds the vertex.
fn holds_vertex(list: &Vec<Vertex>, vertex: Vertex) -> (r: bool)
    ensures
        r == list@.contains(vertex),
{
    let mut i: usize = 0;
    while i < list.len()
        invariant
            i <= list@.len(),
            forall|k: int| 0 <= k < i ==> list@[k] != vertex,
        decreases list@.len() - i,
    {
        if list[i] == vertex {
            return true;
        }
        i += 1;
    }
    false
}

impl Board {
    /// Adds the line of column letters to the text.
    fn push_letters(&self, board: &mut String)
        requires
            self.wf(),
        ensures
            final(board)@ == old(board)@ + letters_line(self.spec_size() as int),
    {
        let size = self.size();
        let ghost line = letters_line(size as int);
        push_char(board, ' ');
        push_char(board, ' ');
        assert(board@ =~= old(board)@ + line.take(2));
        let mut x: usize = 0;
        while x < size
            invariant
                size == self.spec_size() <= 19,
                line == letters_line(size as int),
                x <= size,
                board@ == old(board)@ + line.take(2 + 2 * x),
            decreases size - x,
        {
            push_char(board, ' ');
            push_char(board, letter_of_column(x));
            assert(board@ =~= old(board)@ + line.take(2 + 2 * (x + 1))) by {
                let c = 2 + 2 * x as int;
                assert((c - 2) % 2 == 0);
                assert((c + 1 - 2) % 2 == 1 && (c + 1 - 2) / 2 == x);
                assert(line[c] == ' ');
                assert(line[c + 1] == column_letter(x as int));
                assert(line.take(c + 2) =~= line.take(c).push(line[c]).push(line[c + 1]));
            }
            x += 1;
        }
        push_char(board, ' ');
        push_char(board, ' ');
        push_char(board, ' ');
        assert(board@ =~= old(board)@ + line) by {
            let c = 2 + 2 * size as int;
            assert(line =~= line.take(c).push(' ').push(' ').push(' '));
        }
    }

    /// Adds the number of the row to the text, in two digits.
    fn push_row_number(board: &mut String, y: usize)
        requires
            y < 19,
        ensures
            final(board)@ == old(board)@.push(digit_char(((y + 1) / 10) as nat)).push(
                digit_char(((y + 1) % 10) as nat),
            ),
    {
        let number = y + 1;
        push_char(board, digit_to_char((number / 10) as u8));
        push_char(board, digit_to_char((number % 10) as u8));
    }

    /// Adds the line of the row to the text.
    fn push_row(&self, board: &mut String, y: usize, star_points: &Vec<Vertex>)
        requires
            self.wf(),
            y < self.spec_size(),
            star_points@ == star_points_of(self.spec_size() as int),
        ensures
            final(board)@ == old(board)@ + row_line(self@, self.spec_size() as int, y as int),
    {
        let size = self.size();
        let ghost line = row_line(self@, size as int, y as int);
        Board::push_row_number(board, y);
        assert(board@ =~= old(board)@ + line.take(2));
        let mut x: usize = 0;
        while x < size
            invariant
                self.wf(),
                size == self.spec_size() <= 19,
                y < size,
                star_points@ == star_points_of(size as int),
                line == row_line(self@, size as int, y as int),
                x <= size,
                board@ == old(board)@ + line.take(2 + 2 * x),
            decreases size - x,
        {
            push_char(board, ' ');
            let vertex = Vertex { x, y };
            let state = match self.get(vertex) {
                Some(state) => state,
                None => State::Empty,
            };
            let c = match state {
                State::Empty => {
                    if holds_vertex(star_points, vertex) {
                        '+'
                    } else {
                        '.'
                    }
                },
                State::Black => 'x',
                State::White => 'o',
            };
            push_char(board, c);
            assert(board@ =~= old(board)@ + line.take(2 + 2 * (x + 1))) by {
                let at = 2 + 2 * x as int;
                assert((at - 2) % 2 == 0);
                assert((at + 1 - 2) % 2 == 1 && (at + 1 - 2) / 2 == x);
                assert(vertex == vertex_at(x as int, y as int));
                assert(line[at] == ' ');
                assert(line[at + 1] == stone_char(self@, size as int, x as int, y as int));
                assert(line.take(at + 2) =~= line.take(at).push(line[at]).push(line[at + 1]));
            }
            x += 1;
        }
        push_char(board, ' ');
        Board::push_row_number(board, y);
        push_char(board, '\r');
        push_char(board, '\n');
        assert(board@ =~= old(board)@ + line) by {
            let at = 2 + 2 * size as int;
            assert((at - 2) % 2 == 0);
            assert(line =~= line.take(at).push(line[at]).push(line[at + 1]).push(
                line[at + 2],
            ).push(line[at + 3]).push(line[at + 4]));
        }
    }

    /// Returns a human readable ASCII representation of the board.
    pub fn to_ascii(&self) -> (r: String)
        requires
            self.wf(),
        ensures
            r@ == render(self@, self.spec_size() as int),
    {
        let size = self.size();
        let star_points = self.star_points();
        let mut board = String::new();
        self.push_letters(&mut board);
        push_char(&mut board, '\r');
        push_char(&mut board, '\n');
        let ghost head = letters_line(size as int) + seq!['\r', '\n'];
        assert(board@ =~= head + rows_text(self@, size as int, 0));
        let mut count: usize = 0;
        while count < size
            invariant
                self.wf(),
                size == self.spec_size(),
                star_points@ == star_points_of(size as int),
                head == letters_line(size as int) + seq!['\r', '\n'],
                count <= size,
                board@ == head + rows_text(self@, size as int, count as int),
            decreases size - count,
        {
            let y = size - 1 - count;
            self.push_row(&mut board, y, &star_points);
            assert(board@ =~= head + rows_text(self@, size as int, count + 1));
            count += 1;
        }
        self.push_letters(&mut board);
        assert(board@ =~= render(self@, size as int));
        board
    }
}

} // verus!
