//! Text as it is shown and typed: white space, shortened excerpts and page numbers.

pub mod laws;

use vstd::prelude::*;

verus! {

/// Appends one character: `std::string::String::push` leaves the text followed by it.
pub assume_specification[ String::push ](text: &mut String, c: char)
    ensures
        final(text)@ == old(text)@.push(c),
;

/// The characters with the Unicode property White_Space.
pub open spec fn white_space(c: char) -> bool {
    ||| '\u{9}' <= c <= '\u{d}'
    ||| c == ' '
    ||| c == '\u{85}'
    ||| c == '\u{a0}'
    ||| c == '\u{1680}'
    ||| '\u{2000}' <= c <= '\u{200a}'
    ||| c == '\u{2028}'
    ||| c == '\u{2029}'
    ||| c == '\u{202f}'
    ||| c == '\u{205f}'
    ||| c == '\u{3000}'
}

/// Whether a character separates words.
pub fn is_white_space(c: char) -> (r: bool)
    ensures
        r == white_space(c),
{
    ('\u{9}' <= c && c <= '\u{d}') || c == ' ' || c == '\u{85}' || c == '\u{a0}' || c == '\u{1680}'
        || ('\u{2000}' <= c && c <= '\u{200a}') || c == '\u{2028}' || c == '\u{2029}' || c
        == '\u{202f}' || c == '\u{205f}' || c == '\u{3000}'
}

/// The words of a text: its longest stretches without white space, in order.
pub open spec fn words(text: Seq<char>) -> Seq<Seq<char>>
    decreases text.len(),
{
    if text.len() == 0 {
        Seq::empty()
    } else {
        let before = words(text.drop_last());
        let c = text.last();
        if white_space(c) {
            before
        } else if text.len() == 1 || white_space(text[text.len() - 2]) {
            before.push(seq![c])
        } else {
            before.update(before.len() - 1, before.last().push(c))
        }
    }
}

/// Words with one blank between each two.
pub open spec fn joined(parts: Seq<Seq<char>>) -> Seq<char>
    decreases parts.len(),
{
    if parts.len() == 0 {
        Seq::empty()
    } else if parts.len() == 1 {
        parts[0]
    } else {
        joined(parts.drop_last()).push(' ') + parts.last()
    }
}

/// The words of a text with one blank between each two, cut off after `max_chars` characters
/// with an ellipsis where there are more.
pub open spec fn compacted(text: Seq<char>, max_chars: nat) -> Seq<char> {
    let normalized = joined(words(text));
    if normalized.len() > max_chars {
        normalized.take(max_chars as int).push('…')
    } else {
        normalized
    }
}

/// A text that ends in a word has a word.
pub proof fn lemma_last_word(text: Seq<char>)
    requires
        text.len() > 0,
        !white_space(text.last()),
    ensures
        words(text).len() > 0,
    decreases text.len(),
{
    if text.len() > 1 && !white_space(text[text.len() - 2]) {
        assert(text.drop_last().last() == text[text.len() - 2]);
        lemma_last_word(text.drop_last());
    }
}

/// Joining parts is adding to what the parts before the last are joined to.
proof fn lemma_joined_push(parts: Seq<Seq<char>>, part: Seq<char>)
    ensures
        joined(parts.push(part)) == (if parts.len() == 0 {
            part
        } else {
            joined(parts).push(' ') + part
        }),
{
    assert(parts.push(part).drop_last() == parts);
}

/// A longer last part makes the joined text longer at its end.
proof fn lemma_joined_extend(parts: Seq<Seq<char>>, c: char)
    requires
        parts.len() > 0,
    ensures
        joined(parts.update(parts.len() - 1, parts.last().push(c))) == joined(parts).push(c),
{
    let longer = parts.update(parts.len() - 1, parts.last().push(c));
    assert(longer.drop_last() == parts.drop_last());
    if parts.len() > 1 {
        assert(joined(parts.drop_last()).push(' ') + parts.last().push(c) == (joined(
            parts.drop_last(),
        ).push(' ') + parts.last()).push(c));
    }
}

/// The text with its words joined by single blanks.
fn normalize(text: &str) -> (r: Vec<char>)
    ensures
        r@ == joined(words(text@)),
{
    let mut result: Vec<char> = Vec::new();
    let mut in_word: bool = false;
    let mut any_word: bool = false;
    for c in iter: text.chars()
        invariant
            iter.seq() == text@,
            result@ == joined(words(text@.take(iter.index()))),
            in_word == (iter.index() > 0 && !white_space(text@[iter.index() - 1])),
            any_word == (words(text@.take(iter.index())).len() > 0),
    {
        let ghost i = iter.index();
        let ghost before = text@.take(i);
        proof {
            assert(text@.take(i + 1).drop_last() == before);
            assert(text@.take(i + 1).last() == c);
            if i > 0 {
                assert(text@.take(i + 1)[i - 1] == text@[i - 1]);
                assert(before.last() == text@[i - 1]);
            }
        }
        if is_white_space(c) {
            in_word = false;
        } else {
            if !in_word {
                proof {
                    lemma_joined_push(words(before), seq![c]);
                }
                if any_word {
                    result.push(' ');
                }
                result.push(c);
                proof {
                    if any_word {
                        assert(joined(words(before)).push(' ') + seq![c] == joined(
                            words(before),
                        ).push(' ').push(c));
                    } else {
                        assert(joined(words(before)) == Seq::<char>::empty());
                        assert(Seq::<char>::empty().push(c) == seq![c]);
                    }
                }
            } else {
                proof {
                    lemma_last_word(before);
                    lemma_joined_extend(words(before), c);
                }
                result.push(c);
            }
            in_word = true;
            any_word = true;
        }
    }
    proof {
        assert(text@.take(text@.len() as int) == text@);
    }
    result
}

/// The text on one line with at most `max_chars` characters, and an ellipsis where more
/// follows.
pub fn compact_text(text: &str, max_chars: usize) -> (r: String)
    ensures
        r@ == compacted(text@, max_chars as nat),
{
    let normalized: Vec<char> = normalize(text);
    let kept: usize = if normalized.len() > max_chars {
        max_chars
    } else {
        normalized.len()
    };
    let mut compact: String = String::new();
    let mut i: usize = 0;
    while i < kept
        invariant
            i <= kept <= normalized@.len(),
            compact@ == normalized@.take(i as int),
        decreases kept - i,
    {
        compact.push(normalized[i]);
        proof {
            assert(normalized@.take(i + 1) == normalized@.take(i as int).push(normalized@[i as int]));
        }
        i = i + 1;
    }
    if normalized.len() > max_chars {
        compact.push('…');
    } else {
        proof {
            assert(normalized@.take(normalized@.len() as int) == normalized@);
        }
    }
    compact
}

/// The text without the white space before its first and behind its last word.
pub open spec fn trimmed(text: Seq<char>) -> Seq<char>
    decreases text.len(),
{
    if text.len() == 0 {
        text
    } else if white_space(text.last()) {
        trimmed(text.drop_last())
    } else if white_space(text.first()) {
        trimmed(text.drop_first())
    } else {
        text
    }
}

/// Whether a character is one of the ten decimal digits.
pub open spec fn is_digit(c: char) -> bool {
    '0' <= c <= '9'
}

/// The number that decimal digits stand for.
pub open spec fn digits_value(digits: Seq<char>) -> nat
    decreases digits.len(),
{
    if digits.len() == 0 {
        0
    } else {
        10 * digits_value(digits.drop_last()) + (digits.last() as nat - '0' as nat) as nat
    }
}

/// The digits behind a plus sign, if there is one.
pub open spec fn unsigned_part(text: Seq<char>) -> Seq<char> {
    if text.len() > 0 && text[0] == '+' {
        text.drop_first()
    } else {
        text
    }
}

/// What a typed number means: decimal digits, with a plus sign or none before them and white
/// space around them, of a number that fits.
pub open spec fn typed_number(text: Seq<char>) -> Option<usize> {
    let digits = unsigned_part(trimmed(text));
    if digits.len() > 0 && (forall|i: int| 0 <= i < digits.len() ==> is_digit(#[trigger] digits[i]))
        && digits_value(digits) <= usize::MAX {
        Some(digits_value(digits) as usize)
    } else {
        None
    }
}

/// A number in decimal digits, without zeros before it.
pub open spec fn decimal_digits(n: nat) -> Seq<char>
    decreases n,
{
    let digit = ('0' as nat + n % 10) as char;
    if n < 10 {
        seq![digit]
    } else {
        decimal_digits(n / 10).push(digit)
    }
}

/// The characters of a text.
fn characters(text: &str) -> (r: Vec<char>)
    ensures
        r@ == text@,
{
    let mut result: Vec<char> = Vec::new();
    for c in iter: text.chars()
        invariant
            iter.seq() == text@,
            result@ == text@.take(iter.index()),
    {
        proof {
            assert(text@.take(iter.index() + 1) == text@.take(iter.index()).push(c));
        }
        result.push(c);
    }
    proof {
        assert(text@.take(text@.len() as int) == text@);
    }
    result
}

/// Where the text without the white space around it begins and ends.
fn trim_range(text: &Vec<char>) -> (r: (usize, usize))
    ensures
        r.0 <= r.1 <= text@.len(),
        text@.subrange(r.0 as int, r.1 as int) == trimmed(text@),
{
    let mut start: usize = 0;
    let mut end: usize = text.len();
    proof {
        assert(text@.subrange(0, text@.len() as int) == text@);
    }
    while start < end && is_white_space(text[end - 1])
        invariant
            start <= end <= text@.len(),
            trimmed(text@.subrange(start as int, end as int)) == trimmed(text@),
        decreases end,
    {
        proof {
            assert(text@.subrange(start as int, end as int).drop_last() == text@.subrange(
                start as int,
                end - 1,
            ));
        }
        end = end - 1;
    }
    while start < end && is_white_space(text[start])
        invariant
            start <= end <= text@.len(),
            start < end ==> !white_space(text@[end - 1]),
            trimmed(text@.subrange(start as int, end as int)) == trimmed(text@),
        decreases end - start,
    {
        proof {
            assert(text@.subrange(start as int, end as int).drop_first() == text@.subrange(
                start + 1,
                end as int,
            ));
        }
        start = start + 1;
    }
    (start, end)
}

/// Whether a text consists of white space alone.
pub fn is_blank(text: &str) -> (r: bool)
    ensures
        r == (trimmed(text@).len() == 0),
{
    let all: Vec<char> = characters(text);
    let (start, end): (usize, usize) = trim_range(&all);
    start == end
}

/// The text without the white space before its first and behind its last word.
pub fn trim_text(text: &str) -> (r: String)
    ensures
        r@ == trimmed(text@),
{
    let all: Vec<char> = characters(text);
    let (start, end): (usize, usize) = trim_range(&all);
    let mut result: String = String::new();
    let mut i: usize = start;
    while i < end
        invariant
            start <= i <= end <= all@.len(),
            result@ == all@.subrange(start as int, i as int),
        decreases end - i,
    {
        result.push(all[i]);
        proof {
            assert(all@.subrange(start as int, i + 1) == all@.subrange(start as int, i as int).push(
                all@[i as int],
            ));
        }
        i = i + 1;
    }
    result
}

/// More digits do not make a number smaller.
proof fn lemma_digits_grow(digits: Seq<char>, i: int)
    requires
        0 <= i <= digits.len(),
    ensures
        digits_value(digits.take(i)) <= digits_value(digits),
    decreases digits.len() - i,
{
    if i < digits.len() {
        lemma_digits_grow(digits, i + 1);
        assert(digits.take(i + 1).drop_last() == digits.take(i));
    } else {
        assert(digits.take(i) == digits);
    }
}

/// Reads a typed number.
pub fn parse_number(text: &str) -> (r: Option<usize>)
    ensures
        r == typed_number(text@),
{
    let all: Vec<char> = characters(text);
    let (begin, end): (usize, usize) = trim_range(&all);
    let ghost inner = trimmed(text@);
    let start: usize = if begin < end && all[begin] == '+' {
        begin + 1
    } else {
        begin
    };
    let ghost digits = unsigned_part(inner);
    proof {
        assert(digits == all@.subrange(start as int, end as int));
    }
    if start == end {
        return None;
    }
    let mut value: usize = 0;
    let mut i: usize = start;
    while i < end
        invariant
            start <= i <= end <= all@.len(),
            start < end,
            digits == all@.subrange(start as int, end as int),
            digits == unsigned_part(trimmed(text@)),
            forall|k: int| 0 <= k < i - start ==> is_digit(#[trigger] digits[k]),
            value == digits_value(digits.take(i - start)),
        decreases end - i,
    {
        let c: char = all[i];
        proof {
            assert(digits[i - start] == c);
            assert(digits.take(i - start + 1).drop_last() == digits.take(i - start));
            assert(digits.take(i - start + 1).last() == c);
            lemma_digits_grow(digits, i - start + 1);
        }
        if !('0' <= c && c <= '9') {
            return None;
        }
        let digit: usize = (c as u32 - '0' as u32) as usize;
        match value.checked_mul(10) {
            None => {
                return None;
            },
            Some(tens) => {
                match tens.checked_add(digit) {
                    None => {
                        return None;
                    },
                    Some(next) => {
                        value = next;
                    },
                }
            },
        }
        i = i + 1;
    }
    proof {
        assert(digits.take(digits.len() as int) == digits);
    }
    Some(value)
}

/// Writes a number in decimal digits.
pub fn decimal(n: u64) -> (r: String)
    ensures
        r@ == decimal_digits(n as nat),
    decreases n,
{
    let mut text: String = if n < 10 {
        String::new()
    } else {
        decimal(n / 10)
    };
    let code: u8 = 48 + (n % 10) as u8;
    text.push(code as char);
    proof {
        if n < 10 {
            assert(Seq::<char>::empty().push(code as char) == seq![code as char]);
        }
    }
    text
}

/// An integer in decimal digits, with a minus sign where it is negative.
pub open spec fn signed_digits(n: int) -> Seq<char> {
    if n < 0 {
        seq!['-'] + decimal_digits((-n) as nat)
    } else {
        decimal_digits(n as nat)
    }
}

/// Writes an integer in decimal digits.
pub fn signed_decimal(n: i32) -> (r: String)
    ensures
        r@ == signed_digits(n as int),
{
    if n < 0 {
        let mut text: String = String::new();
        text.push('-');
        assert(text@ =~= seq!['-']);
        text.concat(decimal((-(n as i64)) as u64).as_str())
    } else {
        decimal(n as u64)
    }
}

/// Decimal digits are digits, at least one of them, and stand for the number they were
/// written for.
pub proof fn lemma_decimal_digits(n: nat)
    ensures
        decimal_digits(n).len() > 0,
        forall|i: int|
            0 <= i < decimal_digits(n).len() ==> is_digit(#[trigger] decimal_digits(n)[i]),
        digits_value(decimal_digits(n)) == n,
    decreases n,
{
    let digit = ('0' as nat + n % 10) as char;
    assert(is_digit(digit));
    if n < 10 {
        assert(seq![digit].drop_last() == Seq::<char>::empty());
        assert(digits_value(seq![digit].drop_last()) == 0);
    } else {
        lemma_decimal_digits(n / 10);
        assert(decimal_digits(n).drop_last() == decimal_digits(n / 10));
    }
}

/// Reading a written number gives the number back.
pub proof fn law_written_numbers_are_read_back(n: usize)
    ensures
        typed_number(decimal_digits(n as nat)) == Some(n),
{
    let digits = decimal_digits(n as nat);
    lemma_decimal_digits(n as nat);
    assert(is_digit(digits[0]));
    assert(is_digit(digits[digits.len() - 1]));
    assert(trimmed(digits) == digits);
    assert(unsigned_part(digits) == digits);
}

/// A shortened text is the text where that is short enough, and else longer by the ellipsis
/// than asked for.
pub proof fn law_compact_text_is_short(text: Seq<char>, max_chars: nat)
    ensures
        compacted(text, max_chars).len() <= max_chars + 1,
        joined(words(text)).len() <= max_chars ==> compacted(text, max_chars) == joined(
            words(text),
        ),
{
}

} // verus!
