//! The fill area as the command line states it.

use vstd::prelude::*;

use crate::dbu::{nearest_dbu, round_dbu};
use crate::geometry::Rect;
use crate::text::{chars_of, texts};

verus! {

/// Whether a character separates words.
pub open spec fn separates(c: char) -> bool {
    c == ' ' || c == ','
}

/// The word, if there is any of it.
pub open spec fn if_any(word: Seq<char>) -> Seq<Seq<char>> {
    if word.len() == 0 {
        Seq::empty()
    } else {
        seq![word]
    }
}

/// The words of a text, where `word` stands before it and belongs to the first one.
pub open spec fn words_from(word: Seq<char>, text: Seq<char>) -> Seq<Seq<char>>
    decreases text.len(),
{
    if text.len() == 0 {
        if_any(word)
    } else if separates(text[0]) {
        if_any(word) + words_from(Seq::empty(), text.skip(1))
    } else {
        words_from(word.push(text[0]), text.skip(1))
    }
}

/// The words of a text: the longest runs of characters between spaces and commas.
pub open spec fn words(text: Seq<char>) -> Seq<Seq<char>> {
    words_from(Seq::empty(), text)
}

/// The words of a text.
pub fn area_words(text: &str) -> (r: Vec<String>)
    ensures
        texts(r@) == words(text@),
{
    let chars = chars_of(text);
    let n: usize = chars.len();
    let mut out: Vec<String> = Vec::new();
    let mut start: usize = 0;
    let mut i: usize = 0;
    assert(text@.skip(0) =~= text@);
    assert(text@.subrange(0, 0) =~= Seq::empty());
    assert(texts(out@) + words(text@) =~= words(text@));
    while i < n
        invariant
            chars@ == text@,
            n == text@.len(),
            start <= i <= n,
            words(text@) == texts(out@) + words_from(
                text@.subrange(start as int, i as int),
                text@.skip(i as int),
            ),
        decreases n - i,
    {
        let c: char = chars[i];
        let ghost rest = text@.skip(i as int);
        let ghost word = text@.subrange(start as int, i as int);
        let ghost before = out@;
        assert(rest[0] == c);
        assert(rest.skip(1) =~= text@.skip(i + 1));
        if c == ' ' || c == ',' {
            if start < i {
                out.push(text.substring_char(start, i).to_owned());
                assert(texts(out@) =~= texts(before).push(word));
            }
            start = i + 1;
            assert(text@.subrange(i + 1, i + 1) =~= Seq::empty());
            assert(texts(out@) =~= texts(before) + if_any(word));
            assert(texts(before) + (if_any(word) + words_from(Seq::empty(), text@.skip(i + 1)))
                =~= texts(out@) + words_from(Seq::empty(), text@.skip(i + 1)));
        } else {
            assert(word.push(c) =~= text@.subrange(start as int, i + 1));
        }
        i = i + 1;
    }
    let ghost before = out@;
    let ghost word = text@.subrange(start as int, n as int);
    assert(words(text@) == texts(before) + if_any(word));
    if start < n {
        out.push(text.substring_char(start, n).to_owned());
        assert(texts(out@) =~= texts(before).push(word));
    }
    assert(texts(out@) =~= texts(before) + if_any(word));
    out
}

/// The rectangle of four lengths in microns: left, bottom, right and top. There is none of fewer or
/// more.
pub open spec fn area_of(numbers: Seq<u64>, dbu: i32) -> Option<Rect> {
    if numbers.len() == 4 {
        Some(
            Rect {
                x0: nearest_dbu(numbers[0], dbu),
                y0: nearest_dbu(numbers[1], dbu),
                x1: nearest_dbu(numbers[2], dbu),
                y1: nearest_dbu(numbers[3], dbu),
            },
        )
    } else {
        None
    }
}

/// The rectangle of four lengths in microns.
pub fn area_rect(numbers: &Vec<u64>, dbu: i32) -> (r: Option<Rect>)
    ensures
        r == area_of(numbers@, dbu),
{
    if numbers.len() != 4 {
        return None;
    }
    Some(
        Rect::new(
            round_dbu(numbers[0], dbu),
            round_dbu(numbers[1], dbu),
            round_dbu(numbers[2], dbu),
            round_dbu(numbers[3], dbu),
        ),
    )
}

} // verus!
