//! The coordinates of a board cell, and how they are written: a column
//! letter and a row number, as in `D4`.

use vstd::prelude::*;
use crate::text::{
    chars_of, decimal, decimal_digits, decimal_u32, lemma_decimal_number, parse_u32, push_char,
    push_chars,
};

verus! {

/// A structure for storing the x and y coordinates of a board cell.
///
/// (0, 0) is the bottom left corner of the board.
#[derive(Clone, Copy, Debug, PartialEq, Eq, Hash, Structural)]
pub struct Vertex {
    /// The x coordinate.
    pub x: usize,
    /// The y coordinate.
    pub y: usize,
}

/// A collection of Vertices, in the order in which they are written out.
#[derive(Debug)]
pub struct Vertices(pub Vec<Vertex>);

/// Why a text is not a vertex.
#[derive(Clone, Copy, Debug, PartialEq, Eq, Structural)]
pub enum VertexError {
    /// The text is too short to hold a letter and a number.
    TooShort,
    /// The first character is not a column letter.
    InvalidLetter,
    /// What follows the letter is not a number that fits 32 bits.
    NotANumber,
    /// The row number is zero. Rows are counted from one.
    ZeroRow,
}

/// The number of column letters.
pub const COLUMNS: usize = 19;

/// The letter of the column `x`: the capital letters from A to T, without I.
pub open spec fn column_letter(x: int) -> char {
    if x < 8 {
        (65 + x) as char
    } else {
        (66 + x) as char
    }
}

/// The letters that name the columns, ABCDEFGHJKLMNOPQRST. There is no I.
pub open spec fn column_letters() -> Seq<char> {
    Seq::new(COLUMNS as nat, |x: int| column_letter(x))
}

/// The column that the letter names, if it names one.
pub open spec fn column_of(letter: char) -> Option<usize> {
    if 'A' <= letter <= 'H' {
        Some((letter as u32 - 65) as usize)
    } else if 'J' <= letter <= 'T' {
        Some((letter as u32 - 66) as usize)
    } else {
        None
    }
}

/// The vertex as text: the letter of its column, then the number of its
/// row, counted from one.
pub open spec fn vertex_text(vertex: Vertex) -> Seq<char> {
    seq![column_letter(vertex.x as int)] + decimal((vertex.y + 1) as nat)
}

/// The vertex that a text names, or why it names none.
///
/// A text of no character, or of one character of one byte, is too short.
/// The first character has to be a column letter, and the rest a number
/// above zero, written as the standard library reads a `u32`.
pub open spec fn parse_vertex(text: Seq<char>) -> Result<Vertex, VertexError> {
    if text.len() == 0 || (text.len() == 1 && (text[0] as u32) < 128) {
        Err(VertexError::TooShort)
    } else {
        match column_of(text[0]) {
            None => Err(VertexError::InvalidLetter),
            Some(x) => match decimal_u32(text.drop_first()) {
                None => Err(VertexError::NotANumber),
                Some(row) => if row == 0 {
                    Err(VertexError::ZeroRow)
                } else {
                    Ok(Vertex { x, y: (row - 1) as usize })
                },
            },
        }
    }
}

/// A vertex that is written out and read again is the same vertex.
pub proof fn lemma_vertex_text_parses(vertex: Vertex)
    requires
        vertex.x < COLUMNS,
        vertex.y < u32::MAX,
    ensures
        parse_vertex(vertex_text(vertex)) == Ok::<Vertex, VertexError>(vertex),
{
    let text = vertex_text(vertex);
    let row = (vertex.y + 1) as nat;
    lemma_decimal_number(row);
    assert(text.drop_first() =~= decimal(row));
    assert(text[0] == column_letter(vertex.x as int));
    assert(crate::text::unsigned(decimal(row)) == decimal(row));
}

/// The letter of the column.
pub fn letter_of_column(x: usize) -> (r: char)
    requires
        x < COLUMNS,
    ensures
        r == column_letter(x as int),
        r == column_letters()[x as int],
{
    if x < 8 {
        (65u8 + x as u8) as char
    } else {
        (66u8 + x as u8) as char
    }
}

impl Vertex {
    /// The vertex as text, as in `D4`.
    pub fn to_string(&self) -> (r: String)
        requires
            self.x < COLUMNS,
            self.y < usize::MAX,
        ensures
            r@ == vertex_text(*self),
    {
        let mut text = String::new();
        push_char(&mut text, letter_of_column(self.x));
        let number = decimal_digits((self.y + 1) as u64);
        push_chars(&mut text, &number);
        assert(text@ =~= vertex_text(*self));
        text
    }

    /// Reads a vertex from text, as in `D4`.
    pub fn from_str(vertex: &str) -> (r: Result<Vertex, VertexError>)
        ensures
            r == parse_vertex(vertex@),
    {
        let chars = chars_of(vertex);
        if chars.len() == 0 || (chars.len() == 1 && (chars[0] as u32) < 128) {
            return Err(VertexError::TooShort);
        }
        let letter = chars[0];
        let x: usize = if 'A' <= letter && letter <= 'H' {
            (letter as u32 - 65) as usize
        } else if 'J' <= letter && letter <= 'T' {
            (letter as u32 - 66) as usize
        } else {
            return Err(VertexError::InvalidLetter);
        };
        assert(chars@.subrange(1, chars@.len() as int) =~= vertex@.drop_first());
        let y = match parse_u32(&chars, 1, chars.len()) {
            Some(y) => y as usize,
            None => {
                return Err(VertexError::NotANumber);
            },
        };
        if y == 0 {
            return Err(VertexError::ZeroRow);
        }
        Ok(Vertex { x, y: y - 1 })
    }
}

impl core::str::FromStr for Vertex {
    type Err = VertexError;

    /// Reads a vertex from text, as in `D4`.
    fn from_str(vertex: &str) -> (r: Result<Vertex, VertexError>)
        ensures
            r == parse_vertex(vertex@),
    {
        Vertex::from_str(vertex)
    }
}

/// The vertices as text, with a space between one and the next.
pub open spec fn vertices_text(verts: Seq<Vertex>) -> Seq<char>
    decreases verts.len(),
{
    if verts.len() == 0 {
        Seq::empty()
    } else if verts.len() == 1 {
        vertex_text(verts[0])
    } else {
        vertices_text(verts.drop_last()) + seq![' '] + vertex_text(verts.last())
    }
}

impl Vertices {
    /// The vertices as text, with a space between one and the next.
    pub fn to_string(&self) -> (r: String)
        requires
            forall|i: int|
                0 <= i < self.0@.len() ==> (#[trigger] self.0@[i]).x < COLUMNS && self.0@[i].y
                    < usize::MAX,
        ensures
            r@ == vertices_text(self.0@),
    {
        let mut text = String::new();
        let mut index: usize = 0;
        assert(self.0@.take(0) =~= Seq::<Vertex>::empty());
        while index < self.0.len()
            invariant
                index <= self.0@.len(),
                forall|i: int|
                    0 <= i < self.0@.len() ==> (#[trigger] self.0@[i]).x < COLUMNS && self.0@[i].y
                        < usize::MAX,
                text@ == vertices_text(self.0@.take(index as int)),
            decreases self.0@.len() - index,
        {
            let ghost next = self.0@.take(index + 1);
            proof {
                assert(next.drop_last() =~= self.0@.take(index as int));
                assert(next.last() == self.0@[index as int]);
                assert(next[0] == self.0@[0]);
            }
            let vert = self.0[index];
            if index > 0 {
                push_char(&mut text, ' ');
            }
            let one = vert.to_string();
            let chars = chars_of(one.as_str());
            push_chars(&mut text, &chars);
            proof {
                if index == 0 {
                    assert(text@ =~= vertex_text(vert));
                } else {
                    assert(text@ =~= vertices_text(self.0@.take(index as int)) + seq![' ']
                        + vertex_text(vert));
                }
            }
            index += 1;
        }
        assert(self.0@.take(self.0@.len() as int) =~= self.0@);
        text
    }
}

} // verus!
