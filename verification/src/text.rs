//! Text as lists of characters: decimal numbers, words, and the few
//! questions about a character that the standard library answers.

use vstd::prelude::*;

verus! {

/// Whether the character is a control character, as the standard library
/// has it.
pub uninterp spec fn is_control(c: char) -> bool;

/// Whether the character is white space, as the standard library has it.
pub uninterp spec fn is_whitespace(c: char) -> bool;

/// The text in lower case, as the standard library has it.
pub uninterp spec fn lowercase(text: Seq<char>) -> Seq<char>;

/// The text in upper case, as the standard library has it.
pub uninterp spec fn uppercase(text: Seq<char>) -> Seq<char>;

/// Asks `char::is_control` of the standard library whether the character
/// has the general category of control codes.
#[verifier::external_body]
pub(crate) fn char_is_control(c: char) -> (r: bool)
    ensures
        r == is_control(c),
{
    c.is_control()
}

/// Asks `char::is_whitespace` of the standard library whether the character
/// has the property of white space.
#[verifier::external_body]
pub(crate) fn char_is_whitespace(c: char) -> (r: bool)
    ensures
        r == is_whitespace(c),
{
    c.is_whitespace()
}

/// The text in lower case, by `str::to_lowercase` of the standard library.
#[verifier::external_body]
pub(crate) fn to_lowercase(text: &str) -> (r: String)
    ensures
        r@ == lowercase(text@),
{
    text.to_lowercase()
}

/// The text in upper case, by `str::to_uppercase` of the standard library.
#[verifier::external_body]
pub(crate) fn to_uppercase(text: &str) -> (r: String)
    ensures
        r@ == uppercase(text@),
{
    text.to_uppercase()
}

/// Adds a character to the end of the text, by `String::push` of the
/// standard library.
#[verifier::external_body]
pub(crate) fn push_char(text: &mut String, c: char)
    ensures
        final(text)@ == old(text)@.push(c),
{
    text.push(c)
}

/// The characters of the text.
pub fn chars_of(text: &str) -> (r: Vec<char>)
    ensures
        r@ == text@,
{
    let mut out: Vec<char> = Vec::new();
    for c in it: text.chars()
        invariant
            out@ == text@.take(it.index() as int),
            it.seq() == text@,
    {
        out.push(c);
        assert(text@.take(it.index() + 1) =~= text@.take(it.index() as int).push(c));
    }
    assert(text@.take(text@.len() as int) =~= text@);
    out
}

/// The text made of the characters from place `from` up to place `to`.
pub fn string_of(chars: &Vec<char>, from: usize, to: usize) -> (r: String)
    requires
        from <= to <= chars@.len(),
    ensures
        r@ == chars@.subrange(from as int, to as int),
{
    let mut out = String::new();
    let mut i: usize = from;
    while i < to
        invariant
            from <= i <= to <= chars@.len(),
            out@ == chars@.subrange(from as int, i as int),
        decreases to - i,
    {
        push_char(&mut out, chars[i]);
        assert(chars@.subrange(from as int, i + 1) =~= chars@.subrange(from as int, i as int).push(
            chars@[i as int],
        ));
        i += 1;
    }
    out
}

/// Adds the characters to the end of the text.
pub fn push_chars(text: &mut String, chars: &Vec<char>)
    ensures
        final(text)@ == old(text)@ + chars@,
{
    let mut i: usize = 0;
    assert(text@ =~= old(text)@ + chars@.take(0));
    while i < chars.len()
        invariant
            i <= chars@.len(),
            text@ == old(text)@ + chars@.take(i as int),
        decreases chars@.len() - i,
    {
        push_char(text, chars[i]);
        assert(old(text)@ + chars@.take(i + 1) =~= (old(text)@ + chars@.take(i as int)).push(
            chars@[i as int],
        ));
        i += 1;
    }
    assert(chars@.take(chars@.len() as int) =~= chars@);
}

/// The character is one of the ten digits.
pub open spec fn is_digit(c: char) -> bool {
    '0' <= c <= '9'
}

/// The digit as a number.
pub open spec fn digit_value(c: char) -> nat {
    (c as u32 - '0' as u32) as nat
}

/// The character of a digit.
pub open spec fn digit_char(d: nat) -> char {
    (('0' as u8) + (d as u8)) as char
}

/// Every character of the text is a digit.
pub open spec fn all_digits(text: Seq<char>) -> bool {
    forall|i: int| 0 <= i < text.len() ==> is_digit(#[trigger] text[i])
}

/// The number that the digits write, read from the left. No digits write
/// zero.
pub open spec fn number(digits: Seq<char>) -> nat
    decreases digits.len(),
{
    if digits.len() == 0 {
        0
    } else {
        number(digits.drop_last()) * 10 + digit_value(digits.last())
    }
}

/// The text without a plus sign in front.
pub open spec fn unsigned(text: Seq<char>) -> Seq<char> {
    if text.len() > 0 && text[0] == '+' {
        text.drop_first()
    } else {
        text
    }
}

/// The number that the text writes, as the standard library reads a `u32`:
/// a plus sign or none, then one digit or more, and a number that is not
/// too large. Any other text writes no number.
pub open spec fn decimal_u32(text: Seq<char>) -> Option<u32> {
    let digits = unsigned(text);
    if digits.len() > 0 && all_digits(digits) && number(digits) <= u32::MAX {
        Some(number(digits) as u32)
    } else {
        None
    }
}

/// The digits of a number, without zeros in front. Zero is one digit.
pub open spec fn decimal(n: nat) -> Seq<char>
    decreases n,
{
    if n < 10 {
        seq![digit_char(n)]
    } else {
        decimal(n / 10).push(digit_char(n % 10))
    }
}

/// The digits of a number write the number.
pub proof fn lemma_decimal_number(n: nat)
    ensures
        all_digits(decimal(n)),
        number(decimal(n)) == n,
        decimal(n).len() > 0,
        decimal(n)[0] != '+',
    decreases n,
{
    let d = decimal(n);
    if n < 10 {
        assert(d.drop_last() =~= Seq::<char>::empty());
        assert(number(d.drop_last()) == 0);
        assert(d.last() == digit_char(n));
        lemma_digit_chars(n);
    } else {
        lemma_decimal_number(n / 10);
        assert(d.drop_last() =~= decimal(n / 10));
        assert(d.last() == digit_char(n % 10));
        lemma_digit_chars(n % 10);
        assert(d[0] == decimal(n / 10)[0]);
        assert forall|i: int| 0 <= i < d.len() implies is_digit(#[trigger] d[i]) by {
            if i < d.len() - 1 {
                assert(d[i] == decimal(n / 10)[i]);
            }
        }
    }
}

/// The character of a digit is a digit, and stands for it.
pub proof fn lemma_digit_chars(d: nat)
    requires
        d < 10,
    ensures
        is_digit(digit_char(d)),
        digit_value(digit_char(d)) == d,
        digit_char(d) != '+',
{
    assert('0' as u8 == 48);
    assert('9' as u32 == 57);
    assert('+' as u32 == 43);
}

/// The character of a digit.
pub fn digit_to_char(d: u8) -> (r: char)
    requires
        d < 10,
    ensures
        r == digit_char(d as nat),
{
    (48u8 + d) as char
}

/// The digits of the number.
pub fn decimal_digits(n: u64) -> (r: Vec<char>)
    ensures
        r@ == decimal(n as nat),
    decreases n,
{
    if n < 10 {
        let mut digits: Vec<char> = Vec::new();
        digits.push(digit_to_char(n as u8));
        assert(digits@ =~= seq![digit_char(n as nat)]);
        digits
    } else {
        let mut digits = decimal_digits(n / 10);
        digits.push(digit_to_char((n % 10) as u8));
        digits
    }
}

/// Reads the characters from place `from` up to place `to` as a `u32`.
#[verifier::loop_isolation(false)]
pub fn parse_u32(chars: &Vec<char>, from: usize, to: usize) -> (r: Option<u32>)
    requires
        from <= to <= chars@.len(),
    ensures
        r == decimal_u32(chars@.subrange(from as int, to as int)),
{
    let ghost text = chars@.subrange(from as int, to as int);
    let n = to;
    let mut i: usize = from;
    if i < n && chars[i] == '+' {
        i += 1;
    }
    let start = i;
    let ghost digits = unsigned(text);
    assert(text.len() > 0 ==> text[0] == chars@[from as int]);
    assert(digits =~= chars@.subrange(start as int, n as int));
    if start == n {
        return None;
    }
    let mut value: u64 = 0;
    let mut fits = true;
    assert(digits.take(0) =~= Seq::<char>::empty());
    while i < n
        invariant
            start <= i <= n,
            all_digits(digits.take(i - start)),
            fits ==> value == number(digits.take(i - start)) && value <= u32::MAX,
            !fits ==> number(digits.take(i - start)) > u32::MAX,
        decreases n - i,
    {
        let c = chars[i];
        let ghost before = digits.take(i - start);
        let ghost after = digits.take(i - start + 1);
        proof {
            assert(after.drop_last() =~= before);
            assert(after.last() == c);
        }
        if !('0' <= c && c <= '9') {
            proof {
                assert(digits[i - start] == c);
                assert(!all_digits(digits));
            }
            return None;
        }
        assert forall|k: int| 0 <= k < after.len() implies is_digit(#[trigger] after[k]) by {
            if k < before.len() {
                assert(after[k] == before[k]);
            }
        }
        if fits {
            value = value * 10 + (c as u32 - '0' as u32) as u64;
            if value > u32::MAX as u64 {
                fits = false;
            }
        }
        i += 1;
    }
    assert(digits.take(n - start) =~= digits);
    if fits {
        Some(value as u32)
    } else {
        None
    }
}

/// The words of a text, and the letters of the word that the text ends in:
/// a word is a run of characters that are not white space.
pub open spec fn split(text: Seq<char>) -> (Seq<Seq<char>>, Seq<char>)
    decreases text.len(),
{
    if text.len() == 0 {
        (Seq::empty(), Seq::empty())
    } else {
        let (done, word) = split(text.drop_last());
        let c = text.last();
        if !is_whitespace(c) {
            (done, word.push(c))
        } else if word.len() > 0 {
            (done.push(word), Seq::empty())
        } else {
            (done, word)
        }
    }
}

/// The words of a text: its runs of characters that are not white space.
pub open spec fn words(text: Seq<char>) -> Seq<Seq<char>> {
    let (done, word) = split(text);
    if word.len() > 0 {
        done.push(word)
    } else {
        done
    }
}

/// The places where the words of the text begin and end.
pub fn word_bounds(chars: &Vec<char>) -> (r: Vec<(usize, usize)>)
    ensures
        r@.len() == words(chars@).len(),
        forall|k: int|
            0 <= k < r@.len() ==> (#[trigger] r@[k]).0 <= r@[k].1 <= chars@.len() && chars@.subrange(
                r@[k].0 as int,
                r@[k].1 as int,
            ) == words(chars@)[k],
{
    let mut bounds: Vec<(usize, usize)> = Vec::new();
    let n = chars.len();
    let mut begin: usize = 0;
    let mut i: usize = 0;
    assert(chars@.take(0) =~= Seq::<char>::empty());
    while i < n
        invariant
            n == chars@.len(),
            begin <= i <= n,
            bounds@.len() == split(chars@.take(i as int)).0.len(),
            forall|k: int|
                0 <= k < bounds@.len() ==> (#[trigger] bounds@[k]).0 <= bounds@[k].1 <= i
                    && chars@.subrange(bounds@[k].0 as int, bounds@[k].1 as int) == split(
                    chars@.take(i as int),
                ).0[k],
            chars@.subrange(begin as int, i as int) == split(chars@.take(i as int)).1,
        decreases n - i,
    {
        let c = chars[i];
        let ghost before = chars@.take(i as int);
        let ghost after = chars@.take(i + 1);
        proof {
            assert(after.drop_last() =~= before);
            assert(after.last() == c);
        }
        if !char_is_whitespace(c) {
            proof {
                assert(chars@.subrange(begin as int, i + 1) =~= chars@.subrange(
                    begin as int,
                    i as int,
                ).push(c));
            }
        } else {
            if begin < i {
                bounds.push((begin, i));
            }
            begin = i + 1;
            proof {
                assert(chars@.subrange(begin as int, i + 1) =~= Seq::<char>::empty());
            }
        }
        i += 1;
    }
    assert(chars@.take(n as int) =~= chars@);
    if begin < n {
        bounds.push((begin, n));
    }
    bounds
}

} // verus!
