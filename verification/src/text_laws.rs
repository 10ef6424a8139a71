//! Lines and words, said another way: what the lines of a text are in terms
//! of its first line, and what the words of a text are in terms of its parts.

use crate::text::{is_space, lines, words};
use vstd::prelude::*;

verus! {

/// Whether a text holds no line feed.
pub open spec fn one_line(text: Seq<char>) -> bool {
    forall|i: int| 0 <= i < text.len() ==> #[trigger] text[i] != '\n'
}

/// Whether a text holds no white space.
pub open spec fn one_word(text: Seq<char>) -> bool {
    forall|i: int| 0 <= i < text.len() ==> !is_space(#[trigger] text[i])
}

/// Whether a text holds white space only.
pub open spec fn blank(text: Seq<char>) -> bool {
    forall|i: int| 0 <= i < text.len() ==> is_space(#[trigger] text[i])
}

/// A text without a line feed is one line, or none if it is empty.
pub proof fn lemma_lines_of_one_line(text: Seq<char>)
    requires
        one_line(text),
    ensures
        lines(text) == (if text.len() == 0 {
            Seq::<Seq<char>>::empty()
        } else {
            seq![text]
        }),
    decreases text.len(),
{
    if text.len() > 0 {
        let before = text.drop_last();
        lemma_lines_of_one_line(before);
        if before.len() > 0 {
            assert(before.push(text.last()) =~= text);
        } else {
            assert(seq![text.last()] =~= text);
        }
    }
}

/// The first line of a text ends at its first line feed, and the other lines
/// are the lines of what follows that line feed.
pub proof fn lemma_lines_after_first(first: Seq<char>, rest: Seq<char>)
    requires
        one_line(first),
    ensures
        lines(first + seq!['\n'] + rest) == seq![first] + lines(rest),
    decreases rest.len(),
{
    let head = first + seq!['\n'];
    if rest.len() == 0 {
        assert(head.drop_last() =~= first);
        lemma_lines_of_one_line(first);
        if first.len() == 0 {
            assert(first =~= Seq::<char>::empty());
        }
    } else {
        let before = rest.drop_last();
        lemma_lines_after_first(first, before);
        assert((head + rest).drop_last() =~= head + before);
    }
}

/// A text of white space has no words.
pub proof fn lemma_words_of_blank(text: Seq<char>)
    requires
        blank(text),
    ensures
        words(text) == Seq::<Seq<char>>::empty(),
    decreases text.len(),
{
    if text.len() > 0 {
        lemma_words_of_blank(text.drop_last());
    }
}

/// A text without white space is one word, unless it is empty.
pub proof fn lemma_words_of_one_word(text: Seq<char>)
    requires
        one_word(text),
        text.len() > 0,
    ensures
        words(text) == seq![text],
    decreases text.len(),
{
    let before = text.drop_last();
    if before.len() > 0 {
        lemma_words_of_one_word(before);
        assert(before.push(text.last()) =~= text);
    } else {
        assert(seq![text.last()] =~= text);
        assert(words(before) == Seq::<Seq<char>>::empty());
    }
}

/// Where white space stands between two texts (at the end of the first or at
/// the start of the second), the words of the two together are the words of
/// the first and then the words of the second.
pub proof fn lemma_words_of_parts(left: Seq<char>, right: Seq<char>)
    requires
        left.len() == 0 || right.len() == 0 || is_space(left.last()) || is_space(right[0]),
    ensures
        words(left + right) == words(left) + words(right),
    decreases right.len(),
{
    if right.len() > 0 {
        let before = right.drop_last();
        lemma_words_of_parts(left, before);
        assert((left + right).drop_last() =~= left + before);
    }
}

} // verus!
