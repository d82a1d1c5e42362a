//! What is promised of text that is shown and typed.

use crate::text::compacted;
use crate::text::decimal_digits;
use crate::text::is_digit;
use crate::text::joined;
use crate::text::lemma_decimal_digits;
use crate::text::lemma_last_word;
use crate::text::signed_digits;
use crate::text::trimmed;
use crate::text::typed_number;
use crate::text::unsigned_part;
use crate::text::white_space;
use crate::text::words;
use vstd::prelude::*;

verus! {

/// Whether a text is made of white space alone.
pub open spec fn all_white(text: Seq<char>) -> bool {
    forall|i: int| 0 <= i < text.len() ==> white_space(#[trigger] text[i])
}

/// Whether a text has no white space.
pub open spec fn none_white(text: Seq<char>) -> bool {
    forall|i: int| 0 <= i < text.len() ==> !white_space(#[trigger] text[i])
}

/// White space is what Unicode calls so: tabs and line ends, blanks of all widths, and the marks
/// between lines and paragraphs. What is printed in English is not.
pub proof fn law_blanks_are_white(c: char)
    ensures
        ({
            let code = c as u32;
            &&& white_space(c) <==> 9 <= code <= 13 || code == 32 || code == 0x85 || code == 0xa0
                || code == 0x1680 || 0x2000 <= code <= 0x200a || code == 0x2028 || code == 0x2029
                || code == 0x202f || code == 0x205f || code == 0x3000
            &&& '!' <= c <= '~' ==> !white_space(c)
        }),
{
}

/// A text without white space is one word.
proof fn lemma_one_word(text: Seq<char>)
    requires
        text.len() > 0,
        none_white(text),
    ensures
        words(text) == seq![text],
    decreases text.len(),
{
    if text.len() == 1 {
        assert(words(text.drop_last()) == Seq::<Seq<char>>::empty());
        assert(text =~= seq![text.last()]);
        assert(words(text) =~= seq![text]);
    } else {
        let shorter = text.drop_last();
        assert forall|i: int| 0 <= i < shorter.len() implies !white_space(#[trigger] shorter[i]) by {
            assert(shorter[i] == text[i]);
        }
        lemma_one_word(shorter);
        assert(shorter.push(text.last()) =~= text);
        assert(words(text) =~= seq![text]);
    }
}

/// White space divides a text into words: on either side of it the words are found on their own. A
/// text without white space is one word, and an empty one is none.
pub proof fn law_white_space_divides_words(before: Seq<char>, white: char, after: Seq<char>)
    requires
        white_space(white),
    ensures
        words(before.push(white) + after) == words(before) + words(after),
        none_white(before) && before.len() > 0 ==> words(before) == seq![before],
        before.len() == 0 ==> words(before).len() == 0,
    decreases after.len(),
{
    if none_white(before) && before.len() > 0 {
        lemma_one_word(before);
    }
    let text = before.push(white) + after;
    if after.len() == 0 {
        assert(text.drop_last() =~= before);
        assert(words(text) =~= words(before) + words(after));
    } else {
        let rest = after.drop_last();
        law_white_space_divides_words(before, white, rest);
        assert(text.drop_last() =~= before.push(white) + rest);
        let c = after.last();
        if !white_space(c) && rest.len() > 0 && !white_space(rest.last()) {
            lemma_last_word(rest);
            assert(text[text.len() - 2] == rest.last());
        } else if !white_space(c) && rest.len() > 0 {
            assert(text[text.len() - 2] == rest.last());
        } else if !white_space(c) {
            assert(text[text.len() - 2] == white);
        }
        assert(words(text) =~= words(before) + words(after));
    }
}

/// Words are joined in their order with one blank between each two.
pub proof fn law_words_are_joined_by_blanks(parts: Seq<Seq<char>>, more: Seq<Seq<char>>)
    requires
        parts.len() > 0,
    ensures
        more.len() > 0 ==> joined(parts + more) == joined(parts).push(' ') + joined(more),
        parts.len() == 1 ==> joined(parts) == parts[0],
    decreases more.len(),
{
    if more.len() == 1 {
        assert((parts + more).drop_last() =~= parts);
    } else if more.len() > 1 {
        law_words_are_joined_by_blanks(parts, more.drop_last());
        assert((parts + more).drop_last() =~= parts + more.drop_last());
        assert(joined(parts + more) =~= joined(parts).push(' ') + joined(more));
    }
}

/// A text is shown as its words with one blank between each two; where that is too long, as many
/// characters of it as are allowed are shown, and an ellipsis.
pub proof fn law_excerpts_begin_like_the_text(text: Seq<char>, max_chars: nat)
    ensures
        ({
            let whole = joined(words(text));
            let excerpt = compacted(text, max_chars);
            &&& whole.len() <= max_chars ==> excerpt == whole
            &&& whole.len() > max_chars ==> {
                &&& excerpt.len() == max_chars + 1
                &&& excerpt[max_chars as int] == '…'
                &&& forall|i: int| 0 <= i < max_chars ==> #[trigger] excerpt[i] == whole[i]
            }
        }),
{
}

/// White space before a text does not count.
proof fn lemma_trimmed_before(before: Seq<char>, text: Seq<char>)
    requires
        all_white(before),
    ensures
        trimmed(before + text) == trimmed(text),
    decreases before.len() + text.len(),
{
    let whole = before + text;
    if before.len() == 0 {
        assert(whole =~= text);
    } else if text.len() == 0 {
        assert(whole =~= before);
        assert(white_space(before[before.len() - 1]));
        lemma_trimmed_before(before.drop_last(), text);
        assert(before.drop_last() + text =~= before.drop_last());
    } else if white_space(text.last()) {
        lemma_trimmed_before(before, text.drop_last());
        assert(whole.drop_last() =~= before + text.drop_last());
    } else {
        assert(whole.first() == before[0]);
        assert(whole.last() == text.last());
        lemma_trimmed_before(before.drop_first(), text);
        assert(whole.drop_first() =~= before.drop_first() + text);
    }
}

/// White space around a text is taken away, and nothing else is: a text that begins and ends
/// otherwise stays as it is.
pub proof fn law_white_space_around_is_taken_away(
    before: Seq<char>,
    text: Seq<char>,
    after: Seq<char>,
)
    requires
        all_white(before),
        all_white(after),
    ensures
        trimmed(before + text + after) == trimmed(text),
        text.len() > 0 && !white_space(text.first()) && !white_space(text.last()) ==> trimmed(text)
            == text,
        trimmed(before).len() == 0,
    decreases after.len(),
{
    lemma_trimmed_before(before, text);
    lemma_trimmed_before(before, Seq::empty());
    assert(before + Seq::<char>::empty() =~= before);
    let whole = before + text + after;
    if after.len() == 0 {
        assert(whole =~= before + text);
    } else {
        assert(white_space(after[after.len() - 1]));
        assert(whole.drop_last() =~= before + text + after.drop_last());
        law_white_space_around_is_taken_away(before, text, after.drop_last());
    }
}

/// White space around a typed number does not matter, nor does a plus sign before it.
pub proof fn law_numbers_are_read_with_blanks(before: Seq<char>, n: usize, after: Seq<char>)
    requires
        all_white(before),
        all_white(after),
    ensures
        typed_number(before + decimal_digits(n as nat) + after) == Some(n),
        typed_number(before + (seq!['+'] + decimal_digits(n as nat)) + after) == Some(n),
{
    let digits = decimal_digits(n as nat);
    lemma_decimal_digits(n as nat);
    assert(is_digit(digits[0]));
    assert(is_digit(digits[digits.len() - 1]));
    law_white_space_around_is_taken_away(before, digits, after);
    assert(unsigned_part(digits) == digits);
    let signed = seq!['+'] + digits;
    assert(signed.first() == '+');
    assert(signed.last() == digits[digits.len() - 1]);
    law_white_space_around_is_taken_away(before, signed, after);
    assert(unsigned_part(signed) =~= digits);
}

/// Text with a character in it that is no digit is no number, but for a plus sign at its beginning;
/// neither is white space alone.
pub proof fn law_other_text_is_no_number(text: Seq<char>, i: int)
    requires
        0 <= i < text.len(),
        !is_digit(text[i]),
        !white_space(text.first()),
        !white_space(text.last()),
        i > 0 || text[0] != '+',
    ensures
        typed_number(text) is None,
{
    let digits = unsigned_part(text);
    if text[0] == '+' {
        assert(digits[i - 1] == text[i]);
    } else {
        assert(digits[i] == text[i]);
    }
}

/// Numbers are written in tens: the last digit stands for what is left by ten, and those before it
/// are the digits of the tens.
pub proof fn law_numbers_are_written_in_tens(tens: nat, ones: nat)
    requires
        ones < 10,
    ensures
        tens > 0 ==> decimal_digits(10 * tens + ones) == decimal_digits(tens) + decimal_digits(ones),
        decimal_digits(ones).len() == 1,
        decimal_digits(ones)[0] as nat == '0' as nat + ones,
{
    assert((10 * tens + ones) / 10 == tens);
    assert((10 * tens + ones) % 10 == ones);
    if tens > 0 {
        assert(decimal_digits(10 * tens + ones) =~= decimal_digits(tens) + decimal_digits(ones));
    }
}

/// A number below zero is written with a minus sign and the digits of its opposite.
pub proof fn law_minus_signs_are_written(n: nat)
    requires
        n > 0,
    ensures
        signed_digits(-n) == seq!['-'] + decimal_digits(n),
        signed_digits(n as int) == decimal_digits(n),
{
}

} // verus!
