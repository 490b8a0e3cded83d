//! The reply to a command of the Go Text Protocol.

use vstd::prelude::*;
use crate::text::{chars_of, decimal, decimal_digits, push_char, push_chars};

verus! {

/// The GTP result of issuing a command to a driver.
pub type CommandResult = Result<Option<String>, String>;

/// A Go Text Protocol response.
#[derive(Debug)]
pub struct Response {
    /// A sequence id.
    pub id: Option<u32>,
    /// The result of running the command.
    pub result: CommandResult,
}

/// A result with its texts as lists of characters: what the contracts
/// speak of.
pub open spec fn result_text(result: CommandResult) -> Result<Option<Seq<char>>, Seq<char>> {
    match result {
        Ok(Some(reply)) => Ok(Some(reply@)),
        Ok(None) => Ok(None),
        Err(error) => Err(error@),
    }
}

/// The id as text. No id is no text.
pub open spec fn id_text(id: Option<u32>) -> Seq<char> {
    match id {
        Some(id) => decimal(id as nat),
        None => Seq::empty(),
    }
}

/// A properly formatted reply: an equals sign for success or a question
/// mark for failure, the id, a space, the message if there is one, and two
/// ends of line.
pub open spec fn response_text(id: Option<u32>, result: Result<Option<Seq<char>>, Seq<char>>) -> Seq<
    char,
> {
    let (mark, message) = match result {
        Ok(Some(reply)) => ('=', reply),
        Ok(None) => ('=', Seq::empty()),
        Err(error) => ('?', error),
    };
    seq![mark] + id_text(id) + seq![' '] + message + seq!['\r', '\n', '\r', '\n']
}

/// Returns a properly formatted GTP response.
pub fn display(id: Option<u32>, result: CommandResult) -> (r: String)
    ensures
        r@ == response_text(id, result_text(result)),
{
    write_response(id, &result)
}

/// Writes out the reply to a command.
fn write_response(id: Option<u32>, result: &CommandResult) -> (r: String)
    ensures
        r@ == response_text(id, result_text(*result)),
{
    let mut text = String::new();
    match result {
        Ok(_) => push_char(&mut text, '='),
        Err(_) => push_char(&mut text, '?'),
    }
    match id {
        Some(id) => {
            let digits = decimal_digits(id as u64);
            push_chars(&mut text, &digits);
        },
        None => {},
    }
    push_char(&mut text, ' ');
    match result {
        Ok(Some(reply)) => {
            let chars = chars_of(reply.as_str());
            push_chars(&mut text, &chars);
        },
        Ok(None) => {},
        Err(error) => {
            let chars = chars_of(error.as_str());
            push_chars(&mut text, &chars);
        },
    }
    push_char(&mut text, '\r');
    push_char(&mut text, '\n');
    push_char(&mut text, '\r');
    push_char(&mut text, '\n');
    assert(text@ =~= response_text(id, result_text(*result)));
    text
}

impl Response {
    /// Returns a properly formatted GTP response.
    pub fn to_string(&self) -> (r: String)
        ensures
            r@ == response_text(self.id, result_text(self.result)),
    {
        write_response(self.id, &self.result)
    }
}

} // verus!
