use libgo::game::vertex::{Vertex, VertexError, Vertices};
use libgo::text::{chars_of, decimal_digits, parse_u32, string_of, word_bounds};

fn at(x: usize, y: usize) -> Vertex {
    Vertex { x, y }
}

#[test]
fn vertex_from_text() {
    assert_eq!(Vertex::from_str("A1"), Ok(at(0, 0)));
    assert_eq!(Vertex::from_str("D4"), Ok(at(3, 3)));
    assert_eq!(Vertex::from_str("H8"), Ok(at(7, 7)));
    assert_eq!(Vertex::from_str("J9"), Ok(at(8, 8)));
    assert_eq!(Vertex::from_str("T19"), Ok(at(18, 18)));
    assert_eq!(Vertex::from_str("B4294967295"), Ok(at(1, 4294967294)));
    assert_eq!(Vertex::from_str("C+7"), Ok(at(2, 6)));
    assert_eq!(Vertex::from_str("C007"), Ok(at(2, 6)));
}

#[test]
fn vertex_from_text_that_is_none() {
    assert_eq!(Vertex::from_str(""), Err(VertexError::TooShort));
    assert_eq!(Vertex::from_str("A"), Err(VertexError::TooShort));
    assert_eq!(Vertex::from_str("4"), Err(VertexError::TooShort));
    assert_eq!(Vertex::from_str("\u{e9}"), Err(VertexError::InvalidLetter));
    assert_eq!(Vertex::from_str("I5"), Err(VertexError::InvalidLetter));
    assert_eq!(Vertex::from_str("U5"), Err(VertexError::InvalidLetter));
    assert_eq!(Vertex::from_str("d4"), Err(VertexError::InvalidLetter));
    assert_eq!(Vertex::from_str("44"), Err(VertexError::InvalidLetter));
    assert_eq!(Vertex::from_str("PASS"), Err(VertexError::NotANumber));
    assert_eq!(Vertex::from_str("A-1"), Err(VertexError::NotANumber));
    assert_eq!(Vertex::from_str("A+"), Err(VertexError::NotANumber));
    assert_eq!(Vertex::from_str("A1 "), Err(VertexError::NotANumber));
    assert_eq!(Vertex::from_str("A4294967296"), Err(VertexError::NotANumber));
    assert_eq!(Vertex::from_str("A0"), Err(VertexError::ZeroRow));
    assert_eq!(Vertex::from_str("T000"), Err(VertexError::ZeroRow));
}

#[test]
fn vertex_to_text() {
    assert_eq!(at(0, 0).to_string(), "A1");
    assert_eq!(at(7, 3).to_string(), "H4");
    assert_eq!(at(8, 9).to_string(), "J10");
    assert_eq!(at(18, 18).to_string(), "T19");
    assert_eq!(at(3, 122).to_string(), "D123");
    for x in 0..19 {
        for y in [0, 8, 9, 18, 99, 4294967294] {
            assert_eq!(Vertex::from_str(&at(x, y).to_string()), Ok(at(x, y)));
        }
    }
}

#[test]
fn vertices_to_text() {
    assert_eq!(Vertices(Vec::new()).to_string(), "");
    assert_eq!(Vertices(vec![at(3, 3)]).to_string(), "D4");
    assert_eq!(Vertices(vec![at(3, 3), at(15, 15), at(8, 0)]).to_string(), "D4 Q16 J1");
}

#[test]
fn numbers() {
    let text: String = decimal_digits(0).into_iter().collect();
    assert_eq!(text, "0");
    let text: String = decimal_digits(907).into_iter().collect();
    assert_eq!(text, "907");
    let text: String = decimal_digits(u64::MAX).into_iter().collect();
    assert_eq!(text, "18446744073709551615");
    let chars = chars_of("x+12y");
    assert_eq!(parse_u32(&chars, 1, 4), Some(12));
    assert_eq!(parse_u32(&chars, 2, 4), Some(12));
    assert_eq!(parse_u32(&chars, 1, 2), None);
    assert_eq!(parse_u32(&chars, 2, 2), None);
    assert_eq!(parse_u32(&chars, 0, 4), None);
    assert_eq!(parse_u32(&chars, 2, 5), None);
    assert_eq!(parse_u32(&chars_of("99999999999999999999999999"), 0, 26), None);
    assert_eq!(parse_u32(&chars_of("00000000000000000000000001"), 0, 26), Some(1));
}

#[test]
fn words_of_a_text() {
    let chars = chars_of("  one two\u{a0}three ");
    let bounds = word_bounds(&chars);
    let words: Vec<String> = bounds.iter().map(|&(from, to)| string_of(&chars, from, to)).collect();
    assert_eq!(words, vec!["one", "two", "three"]);
    assert_eq!(word_bounds(&chars_of("")), Vec::new());
    assert_eq!(word_bounds(&chars_of(" \t ")), Vec::new());
    assert_eq!(word_bounds(&chars_of("x")), vec![(0, 1)]);
}

#[test]
fn a_vertex_parses_from_text() {
    assert_eq!("Q16".parse::<Vertex>(), Ok(at(15, 15)));
    assert_eq!("I1".parse::<Vertex>(), Err(VertexError::InvalidLetter));
}
