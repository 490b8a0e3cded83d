//! A command of the Go Text Protocol, and how it is read from a line.

use vstd::prelude::*;
use crate::text::{
    char_is_control, char_is_whitespace, chars_of, decimal_u32, is_control, is_whitespace,
    parse_u32, push_char, string_of, word_bounds, words,
};

verus! {

/// A GTP command.
#[derive(Clone, Debug, PartialEq, Eq)]
pub struct Command {
    /// A sequence id.
    pub id: Option<u32>,
    /// The name.
    pub name: String,
    /// Arguments to the command.
    pub args: Vec<String>,
}

/// A command with its texts as lists of characters: what the contracts
/// speak of.
pub struct CommandText {
    /// The sequence id.
    pub id: Option<u32>,
    /// The name.
    pub name: Seq<char>,
    /// The arguments.
    pub args: Seq<Seq<char>>,
}

/// The texts as lists of characters.
pub open spec fn texts(list: Seq<String>) -> Seq<Seq<char>> {
    Seq::new(list.len(), |i: int| list[i]@)
}

impl View for Command {
    type V = CommandText;

    open spec fn view(&self) -> CommandText {
        CommandText { id: self.id, name: self.name@, args: texts(self.args@) }
    }
}

/// The line up to its first hash sign: the rest is a comment.
pub open spec fn before_comment(line: Seq<char>) -> Seq<char>
    decreases line.len(),
{
    if line.len() == 0 || line[0] == '#' {
        Seq::empty()
    } else {
        seq![line[0]] + before_comment(line.drop_first())
    }
}

/// What is kept of a character: a tab becomes a space, another control
/// character is dropped, and any other character stays.
pub open spec fn kept_of(c: char) -> Seq<char> {
    if c == '\t' {
        seq![' ']
    } else if is_control(c) {
        Seq::empty()
    } else {
        seq![c]
    }
}

/// The text with its tabs turned into spaces and its other control
/// characters dropped.
pub open spec fn cleaned(text: Seq<char>) -> Seq<char>
    decreases text.len(),
{
    if text.len() == 0 {
        Seq::empty()
    } else {
        cleaned(text.drop_last()) + kept_of(text.last())
    }
}

/// The character says something: it is no control character, a tab
/// neither, and no white space.
pub open spec fn speaks(c: char) -> bool {
    c != '\t' && !is_control(c) && !is_whitespace(c)
}

/// Some character of the text says something.
pub open spec fn says_something(text: Seq<char>) -> bool {
    exists|i: int| 0 <= i < text.len() && speaks(#[trigger] text[i])
}

/// The line as the protocol wants it before it is read: without its
/// comment, with spaces for tabs and no other control characters. A line
/// that says nothing gives nothing.
pub open spec fn preprocessed(line: Seq<char>) -> Option<Seq<char>> {
    let text = before_comment(line);
    if says_something(text) {
        Some(cleaned(text))
    } else {
        None
    }
}

/// The command that the words make: a first word that is a number is the
/// id, the next word is the name, and the rest are the arguments. Where
/// there is no word for the name, the name is empty.
pub open spec fn command_of(list: Seq<Seq<char>>) -> CommandText {
    let id = if list.len() > 0 {
        decimal_u32(list[0])
    } else {
        None
    };
    let rest = if id is Some {
        list.drop_first()
    } else {
        list
    };
    if rest.len() > 0 {
        CommandText { id, name: rest[0], args: rest.drop_first() }
    } else {
        CommandText { id, name: Seq::empty(), args: Seq::empty() }
    }
}

/// The command that a line holds, if it holds one.
pub open spec fn parse_line(line: Seq<char>) -> Option<CommandText> {
    match preprocessed(line) {
        Some(text) => Some(command_of(words(text))),
        None => None,
    }
}

/// The comment begins where it begins in the rest of the line.
proof fn lemma_before_comment(line: Seq<char>, i: int)
    requires
        0 <= i <= line.len(),
        forall|k: int| 0 <= k < i ==> line[k] != '#',
    ensures
        before_comment(line) == line.take(i) + before_comment(line.skip(i)),
    decreases i,
{
    if i == 0 {
        assert(line.skip(0) =~= line);
        assert(line.take(0) + before_comment(line) =~= before_comment(line));
    } else {
        lemma_before_comment(line, i - 1);
        let rest = line.skip(i - 1);
        assert(rest[0] == line[i - 1]);
        assert(rest.drop_first() =~= line.skip(i));
        assert(line.take(i - 1) + (seq![rest[0]] + before_comment(line.skip(i))) =~= line.take(i)
            + before_comment(line.skip(i)));
    }
}

// The Go Text Protocol, version 2, says under 3.1, Preprocessing:
//
//     3.1 Preprocessing
//
//     When a command string arrives to an engine, it is expected to perform the
//     following four operations before any further parsing takes place:
//
//     1. Remove all occurrences of CR and other control characters except for HT and LF.
//     2. For each line with a hash sign (#), remove all text following and including this character.
//     3. Convert all occurrences of HT to SPACE.
//     4. Discard any empty or white-space only lines.
//
//     When a response arrives to a controller, it is expected only to do steps 1 and 3 above.
//
// We assume input is parsed one line at a time rather than include special newline logic here.
/// Prepares a line of input for reading, or finds that it holds nothing.
pub fn preprocess_line(line: &str) -> (r: Option<String>)
    ensures
        match preprocessed(line@) {
            Some(text) => r matches Some(out) && out@ == text,
            None => r is None,
        },
{
    let chars = chars_of(line);
    let mut out = String::new();
    let mut keep = false;
    let n = chars.len();
    let mut i: usize = 0;
    assert(chars@.take(0) =~= Seq::<char>::empty());
    while i < n && chars[i] != '#'
        invariant
            n == chars@.len(),
            i <= n,
            forall|k: int| 0 <= k < i ==> chars@[k] != '#',
            out@ == cleaned(chars@.take(i as int)),
            keep == says_something(chars@.take(i as int)),
        decreases n - i,
    {
        let c = chars[i];
        let ghost before = chars@.take(i as int);
        let ghost after = chars@.take(i + 1);
        proof {
            assert(after.drop_last() =~= before);
            assert(after.last() == c);
            if says_something(before) {
                let k = choose|k: int| 0 <= k < before.len() && speaks(#[trigger] before[k]);
                assert(after[k] == before[k]);
            }
            if says_something(after) && !speaks(c) {
                let k = choose|k: int| 0 <= k < after.len() && speaks(#[trigger] after[k]);
                assert(before[k] == after[k]);
            }
            if speaks(c) {
                assert(after[i as int] == c);
            }
        }
        if c == '\t' {
            push_char(&mut out, ' ');
        } else if !char_is_control(c) {
            if !keep && !char_is_whitespace(c) {
                keep = true;
            }
            push_char(&mut out, c);
        }
        proof {
            assert(out@ =~= cleaned(before) + kept_of(c));
        }
        i += 1;
    }
    proof {
        lemma_before_comment(chars@, i as int);
        let rest = chars@.skip(i as int);
        if i < n {
            assert(rest[0] == '#');
        }
        assert(before_comment(rest) =~= Seq::<char>::empty());
        assert(chars@.take(i as int) + Seq::<char>::empty() =~= chars@.take(i as int));
    }
    if keep {
        Some(out)
    } else {
        None
    }
}

impl Command {
    /// Converts a line of input into a Command. Returns None if there was no command.
    pub fn from_line(line: &str) -> (r: Option<Self>)
        ensures
            match parse_line(line@) {
                Some(command) => r matches Some(read) && read@ == command,
                None => r is None,
            },
    {
        let text = match preprocess_line(line) {
            Some(text) => text,
            None => {
                return None;
            },
        };
        let chars = chars_of(text.as_str());
        let bounds = word_bounds(&chars);
        let ghost list = words(chars@);
        let mut next: usize = 0;
        let mut id: Option<u32> = None;
        if bounds.len() > 0 {
            let (from, to) = bounds[0];
            id = parse_u32(&chars, from, to);
            if id.is_some() {
                next = 1;
            }
        }
        // If there was just an id, we will end up with a malformed command, but the GTP
        // protocol does not say how to handle this, so just create the command anyway and
        // let it fail later with "unknown command".

        let ghost rest = if id is Some {
            list.drop_first()
        } else {
            list
        };
        let mut name = String::new();
        let mut args: Vec<String> = Vec::new();
        if next < bounds.len() {
            let (from, to) = bounds[next];
            name = string_of(&chars, from, to);
            assert(name@ == rest[0]);
            next += 1;
            let first = next;
            while next < bounds.len()
                invariant
                    first <= next <= bounds@.len(),
                    bounds@.len() == list.len(),
                    forall|k: int|
                        0 <= k < bounds@.len() ==> (#[trigger] bounds@[k]).0 <= bounds@[k].1
                            <= chars@.len() && chars@.subrange(
                            bounds@[k].0 as int,
                            bounds@[k].1 as int,
                        ) == list[k],
                    args@.len() == next - first,
                    forall|k: int| 0 <= k < args@.len() ==> (#[trigger] args@[k])@ == list[first + k],
                decreases bounds@.len() - next,
            {
                let (from, to) = bounds[next];
                args.push(string_of(&chars, from, to));
                next += 1;
            }
            assert(texts(args@) =~= rest.drop_first());
        } else {
            assert(texts(args@) =~= Seq::<Seq<char>>::empty());
        }
        Some(Command { id, name, args })
    }
}

} // verus!
