//! The shape of source text: lines, words and number literals.

use vstd::prelude::*;

verus! {

/// White space separates words. These are the characters that Unicode gives
/// the property `White_Space`.
pub open spec fn is_space(c: char) -> bool {
    let u = c as u32;
    ||| 0x09 <= u <= 0x0d
    ||| u == 0x20
    ||| u == 0x85
    ||| u == 0xa0
    ||| u == 0x1680
    ||| 0x2000 <= u <= 0x200a
    ||| u == 0x2028
    ||| u == 0x2029
    ||| u == 0x202f
    ||| u == 0x205f
    ||| u == 0x3000
}

/// The lines of a text. A line ends at a line feed, which is not part of it;
/// what follows the last line feed is a line unless it is empty.
///
/// Read from left to right: the first character of the text and each
/// character after a line feed opens a line, and every other character but a
/// line feed extends the line that is open.
pub open spec fn lines(text: Seq<char>) -> Seq<Seq<char>>
    decreases text.len(),
{
    if text.len() == 0 {
        Seq::empty()
    } else {
        let before = text.drop_last();
        let done = lines(before);
        let c = text.last();
        if before.len() == 0 || before.last() == '\n' {
            if c == '\n' {
                done.push(Seq::empty())
            } else {
                done.push(seq![c])
            }
        } else {
            if c == '\n' {
                done
            } else {
                done.drop_last().push(done.last().push(c))
            }
        }
    }
}

/// The words of a text: its maximal runs of characters that are not white
/// space, in order.
///
/// Read from left to right: white space adds nothing, a character after
/// another one of a word extends that word, and any other character opens a
/// word.
pub open spec fn words(text: Seq<char>) -> Seq<Seq<char>>
    decreases text.len(),
{
    if text.len() == 0 {
        Seq::empty()
    } else {
        let before = text.drop_last();
        let done = words(before);
        let c = text.last();
        if is_space(c) {
            done
        } else if before.len() > 0 && !is_space(before.last()) {
            done.drop_last().push(done.last().push(c))
        } else {
            done.push(seq![c])
        }
    }
}

/// A decimal digit.
pub open spec fn is_digit(c: char) -> bool {
    '0' <= c <= '9'
}

/// Whether a text is made of decimal digits only.
pub open spec fn all_digits(text: Seq<char>) -> bool {
    forall|i: int| 0 <= i < text.len() ==> is_digit(#[trigger] text[i])
}

/// The number that a run of decimal digits spells.
pub open spec fn digits_value(text: Seq<char>) -> nat
    decreases text.len(),
{
    if text.len() == 0 {
        0
    } else {
        (10 * digits_value(text.drop_last()) + (text.last() as u32 - '0' as u32)) as nat
    }
}

/// The digits of a literal: the literal without its sign.
pub open spec fn literal_digits(word: Seq<char>) -> Seq<char> {
    if word.len() > 0 && (word[0] == '-' || word[0] == '+') {
        word.skip(1)
    } else {
        word
    }
}

/// The value of a signed decimal literal: an optional `+` or `-`, then one
/// digit or more. No value for any other text.
pub open spec fn literal_value(word: Seq<char>) -> Option<int> {
    let digits = literal_digits(word);
    if digits.len() == 0 || !all_digits(digits) {
        None
    } else if word[0] == '-' {
        Some(-(digits_value(digits) as int))
    } else {
        Some(digits_value(digits) as int)
    }
}

/// The number that a word stands for: the value of the literal, if the word
/// is one and the value fits the machine's signed word.
pub open spec fn number_value(word: Seq<char>) -> Option<isize> {
    match literal_value(word) {
        Some(v) => if isize::MIN <= v <= isize::MAX {
            Some(v as isize)
        } else {
            None
        },
        None => None,
    }
}

/// A run of digits spells at least what any of its prefixes spells.
proof fn lemma_digits_value_grows(text: Seq<char>, n: int)
    requires
        0 <= n <= text.len(),
        all_digits(text),
    ensures
        digits_value(text.take(n)) <= digits_value(text),
    decreases text.len(),
{
    if n == text.len() {
        assert(text.take(n) =~= text);
    } else {
        lemma_digits_value_grows(text.drop_last(), n);
        assert(text.drop_last().take(n) =~= text.take(n));
    }
}

/// Tells whether `c` is white space.
pub fn is_whitespace(c: char) -> (space: bool)
    ensures
        space == is_space(c),
{
    let u: u32 = c as u32;
    (0x09 <= u && u <= 0x0d) || u == 0x20 || u == 0x85 || u == 0xa0 || u == 0x1680 || (0x2000 <= u
        && u <= 0x200a) || u == 0x2028 || u == 0x2029 || u == 0x202f || u == 0x205f || u == 0x3000
}

/// Splits a text into its lines.
pub fn split_lines(text: &str) -> (out: Vec<String>)
    ensures
        out.deep_view() == lines(text@),
{
    let mut out: Vec<String> = Vec::new();
    let mut line = String::new();
    let mut open = false;
    for c in it: text.chars()
        invariant
            it.seq() == text@,
            open == (it.index() > 0 && text@[it.index() - 1] != '\n'),
            open ==> out.deep_view().push(line@) == lines(text@.take(it.index())),
            !open ==> out.deep_view() == lines(text@.take(it.index())) && line@.len() == 0,
    {
        let ghost i = it.index();
        let ghost held = line@;
        assert(text@.take(i + 1).drop_last() =~= text@.take(i));
        if c == '\n' {
            out.push(line);
            line = String::new();
            open = false;
            assert(held.len() == 0 ==> held =~= Seq::<char>::empty());
        } else {
            line.push(c);
            open = true;
            assert(held.len() == 0 ==> held.push(c) =~= seq![c]);
        }
    }
    assert(text@.take(text@.len() as int) =~= text@);
    if open {
        out.push(line);
    }
    out
}

/// Reads a word as a signed decimal number; `None` if the word is not a
/// literal or its value does not fit.
pub fn parse_number(word: &str) -> (number: Option<isize>)
    ensures
        number == number_value(word@),
{
    let mut negative = false;
    let mut signed = false;
    let mut started = false;
    let mut any_digit = false;
    let mut value: isize = 0;
    for c in it: word.chars()
        invariant
            it.seq() == word@,
            started == (it.index() > 0),
            signed == (started && (word@[0] == '-' || word@[0] == '+')),
            negative == (started && word@[0] == '-'),
            any_digit == (literal_digits(word@.take(it.index())).len() > 0),
            all_digits(literal_digits(word@.take(it.index()))),
            value == if negative {
                -(digits_value(literal_digits(word@.take(it.index()))) as int)
            } else {
                digits_value(literal_digits(word@.take(it.index()))) as int
            },
    {
        let ghost count = it.index();
        let ghost seen = word@.take(count);
        let ghost next = word@.take(count + 1);
        if !started && (c == '-' || c == '+') {
            negative = c == '-';
            signed = true;
        } else {
            proof {
                if signed {
                    assert(literal_digits(next) =~= literal_digits(seen).push(c));
                }
                assert(literal_digits(next).drop_last() =~= literal_digits(seen));
            }
            if !('0' <= c && c <= '9') {
                proof {
                    let digits = literal_digits(word@);
                    let at = digits.len() - (word@.len() - count);
                    assert(digits[at] == c);
                }
                return None;
            }
            let digit: isize = (c as u32 - '0' as u32) as isize;
            let scaled = value.checked_mul(10);
            let grown = match scaled {
                Some(tens) => if negative {
                    tens.checked_sub(digit)
                } else {
                    tens.checked_add(digit)
                },
                None => None,
            };
            match grown {
                Some(sum) => {
                    value = sum;
                },
                None => {
                    proof {
                        // The digits read so far already spell too much, and
                        // more digits only add to it.
                        let digits = literal_digits(word@);
                        let read = literal_digits(next);
                        assert(digits.take(read.len() as int) =~= read);
                        if all_digits(digits) {
                            lemma_digits_value_grows(digits, read.len() as int);
                        }
                    }
                    return None;
                },
            }
            any_digit = true;
        }
        started = true;
    }
    assert(word@.take(word@.len() as int) =~= word@);
    if any_digit {
        Some(value)
    } else {
        None
    }
}

} // verus!
