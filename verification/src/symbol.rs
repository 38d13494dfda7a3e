//! Input characters together with their Unicode classification.
//!
//! The matcher never consults the Unicode tables itself. Each character of
//! the input line is classified once, and the matcher reads the recorded
//! answers. The classification is the only place where the engine relies
//! on `std` behaviour that is not verified here.

use vstd::prelude::*;

verus! {

/// One character of the input line and what is known about it.
#[derive(Clone, Copy, Debug, PartialEq, Eq)]
pub struct Symbol {
    /// The character itself.
    pub ch: char,
    /// Whether the character counts as a digit.
    pub digit: bool,
    /// Whether the character counts as a letter or a digit.
    pub alphanumeric: bool,
}

/// Whether `char::is_numeric` holds of `c`.
pub uninterp spec fn char_is_numeric(c: char) -> bool;

/// Whether `char::is_alphanumeric` holds of `c`.
pub uninterp spec fn char_is_alphanumeric(c: char) -> bool;

/// `char::is_numeric` from `std`: true for characters in one of the Unicode
/// number categories. The tables are not restated; the result is only given
/// the name [`char_is_numeric`], so all that is assumed is that it depends on
/// the character alone.
pub assume_specification[ char::is_numeric ](c: char) -> (r: bool)
    ensures
        r == char_is_numeric(c),
;

/// `char::is_alphanumeric` from `std`: true for characters that are
/// alphabetic or numeric. The result is only named
/// ([`char_is_alphanumeric`]); of what it is, no more is assumed than that
/// it depends on the character alone and holds of every character of which
/// `char::is_numeric` holds.
pub assume_specification[ char::is_alphanumeric ](c: char) -> (r: bool)
    ensures
        r == char_is_alphanumeric(c),
        char_is_numeric(c) ==> r,
;

/// The classification that `std` gives to `c`.
pub open spec fn classified(c: char) -> Symbol {
    Symbol { ch: c, digit: char_is_numeric(c), alphanumeric: char_is_alphanumeric(c) }
}

/// The classification of every character of `line`, in order.
pub open spec fn classified_line(line: Seq<char>) -> Seq<Symbol> {
    Seq::new(line.len(), |i: int| classified(line[i]))
}

/// Classifies one character. What counts as a digit counts as
/// alphanumeric too.
pub fn classify(c: char) -> (s: Symbol)
    ensures
        s == classified(c),
        s.digit ==> s.alphanumeric,
{
    Symbol { ch: c, digit: c.is_numeric(), alphanumeric: c.is_alphanumeric() }
}

/// Classifies every character of a line.
pub fn classify_line(line: &str) -> (input: Vec<Symbol>)
    ensures
        input@ == classified_line(line@),
        forall|i: int| 0 <= i < input.len() ==> (#[trigger] input[i]).digit ==> input[i].alphanumeric,
{
    let chars = chars_of(line);
    let mut input: Vec<Symbol> = Vec::new();
    let mut i: usize = 0;
    while i < chars.len()
        invariant
            chars@ == line@,
            i <= chars.len(),
            input@ == classified_line(line@.take(i as int)),
            forall|j: int| 0 <= j < input.len() ==> (#[trigger] input[j]).digit ==> input[j].alphanumeric,
        decreases chars.len() - i,
    {
        input.push(classify(chars[i]));
        i += 1;
        assert(input@ =~= classified_line(line@.take(i as int)));
    }
    assert(line@.take(i as int) =~= line@);
    input
}

/// The characters of `text`, in order.
pub fn chars_of(text: &str) -> (out: Vec<char>)
    ensures
        out@ == text@,
{
    let mut out: Vec<char> = Vec::new();
    for c in it: text.chars()
        invariant
            out@ == it.seq().take(it.index()),
            it.seq() == text@,
    {
        out.push(c);
    }
    out
}

/// Every `char` is a Unicode scalar value: a code point that is no surrogate.
pub proof fn lemma_char_is_scalar(c: char)
    ensures
        0 <= c as int <= 0xD7FF || 0xE000 <= c as int <= 0x10FFFF,
{
}

} // verus!
