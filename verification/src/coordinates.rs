//! Which texts are decimal numbers, as the coordinates of the feed are.
use vstd::prelude::*;

use crate::text::{characters, is_digit, same_text, text_of, uppercase};

verus! {

/// Whether a character is a sign.
pub open spec fn sign(ch: char) -> bool {
    ch == '+' || ch == '-'
}

/// Whether the characters from `from` up to `to` are digits.
pub open spec fn digits_between(text: Seq<char>, from: int, to: int) -> bool {
    forall|i: int| from <= i < to ==> crate::text::digit(#[trigger] text[i])
}

/// Where the digits of an exponent start, after the letter at `at` and a sign.
pub open spec fn exponent_start(text: Seq<char>, at: int) -> int {
    if at + 1 < text.len() && sign(text[at + 1]) {
        at + 2
    } else {
        at + 1
    }
}

/// Whether the text from `at` on is an exponent: the letter, a sign or none, and digits.
pub open spec fn exponent(text: Seq<char>, at: int) -> bool {
    &&& text[at] == 'e' || text[at] == 'E'
    &&& exponent_start(text, at) < text.len()
    &&& digits_between(text, exponent_start(text, at), text.len() as int)
}

/// Whether the text from `from` on is a number: digits up to `whole`, a point or none and
/// digits up to `end`, at least one digit before or after the point, and an exponent or none.
pub open spec fn number_parts(text: Seq<char>, from: int, whole: int, end: int) -> bool {
    &&& from <= whole <= end <= text.len()
    &&& digits_between(text, from, whole)
    &&& end == whole || text[whole] == '.' && digits_between(text, whole + 1, end)
    &&& whole > from || end > whole + 1
    &&& end == text.len() || exponent(text, end)
}

/// Where a number starts, after a sign or none.
pub open spec fn number_start(text: Seq<char>) -> int {
    if text.len() > 0 && sign(text[0]) {
        1
    } else {
        0
    }
}

/// Whether a text is a decimal number, or one of the words for infinity and for no number.
pub open spec fn number_text(text: Seq<char>) -> bool {
    let from = number_start(text);
    let word = crate::text::uppercased(text.subrange(from, text.len() as int));
    ||| word == "INF"@
    ||| word == "INFINITY"@
    ||| word == "NAN"@
    ||| exists|whole: int, end: int| #[trigger] number_parts(text, from, whole, end)
}

/// Where the digits from `from` on end.
fn digits_end(chars: &Vec<char>, from: usize) -> (end: usize)
    requires
        from <= chars@.len(),
    ensures
        from <= end <= chars@.len(),
        digits_between(chars@, from as int, end as int),
        end == chars@.len() || !crate::text::digit(chars@[end as int]),
{
    let mut end: usize = from;
    while end < chars.len() && is_digit(chars[end])
        invariant
            from <= end <= chars@.len(),
            digits_between(chars@, from as int, end as int),
        decreases chars@.len() - end,
    {
        end += 1;
    }
    end
}

/// Whether a text is a decimal number, or one of the words for infinity and for no number.
pub fn is_number_text(text: &str) -> (answer: bool)
    ensures
        answer == number_text(text@),
{
    let chars = characters(text);
    let mut from: usize = 0;
    if chars.len() > 0 && (chars[0] == '+' || chars[0] == '-') {
        from = 1;
    }
    let word = uppercase(text_of(&chars, from, chars.len()).as_str());
    if same_text(word.as_str(), "INF") || same_text(word.as_str(), "INFINITY") || same_text(
        word.as_str(),
        "NAN",
    ) {
        return true;
    }
    let whole = digits_end(&chars, from);
    let mut end: usize = whole;
    if whole < chars.len() && chars[whole] == '.' {
        end = digits_end(&chars, whole + 1);
    }
    proof {
        assert forall|w: int, e: int| #[trigger]
            number_parts(text@, from as int, w, e) implies w == whole && e == end by {
            lemma_digits_stop(text@, from as int, w, whole as int);
            if e > w {
                lemma_digits_stop(text@, w + 1, e, end as int);
            }
        }
    }
    if whole == from && end <= whole + 1 {
        return false;
    }
    if end == chars.len() {
        proof {
            assert(number_parts(text@, from as int, whole as int, end as int));
        }
        return true;
    }
    if chars[end] != 'e' && chars[end] != 'E' {
        return false;
    }
    let mut start: usize = end + 1;
    if start < chars.len() && (chars[start] == '+' || chars[start] == '-') {
        start += 1;
    }
    let stop = digits_end(&chars, start);
    proof {
        if stop > start && stop == chars.len() {
            assert(number_parts(text@, from as int, whole as int, end as int));
        } else {
            assert(!exponent(text@, end as int));
        }
    }
    stop > start && stop == chars.len()
}

/// Digits that stop in front of something else stop there only.
proof fn lemma_digits_stop(text: Seq<char>, from: int, one: int, other: int)
    requires
        from <= one <= text.len(),
        from <= other <= text.len(),
        digits_between(text, from, one),
        digits_between(text, from, other),
        one == text.len() || !crate::text::digit(text[one]),
        other == text.len() || !crate::text::digit(text[other]),
    ensures
        one == other,
{
    if one < other {
        assert(crate::text::digit(text[one]));
    } else if other < one {
        assert(crate::text::digit(text[other]));
    }
}

/// The parts of a decimal number: its sign, the digits before the point, whether there is a
/// point, the digits after it, and the letter, the sign and the digits of its exponent.
pub struct Decimal {
    pub sign: Seq<char>,
    pub whole: Seq<char>,
    pub point: bool,
    pub fraction: Seq<char>,
    pub exponent: Option<(char, Seq<char>, Seq<char>)>,
}

/// Whether a text is a sign or nothing.
pub open spec fn optional_sign(text: Seq<char>) -> bool {
    text == Seq::<char>::empty() || text == seq!['+'] || text == seq!['-']
}

impl Decimal {
    /// The parts make a number: there is a digit before or after the point, digits after it only
    /// where there is one, and a digit in the exponent.
    pub open spec fn is_number(self) -> bool {
        &&& optional_sign(self.sign)
        &&& crate::text::only_digits(self.whole) && crate::text::only_digits(self.fraction)
        &&& !self.point ==> self.fraction.len() == 0
        &&& self.whole.len() > 0 || self.fraction.len() > 0
        &&& self.exponent matches Some((letter, sign, digits)) ==> {
            &&& letter == 'e' || letter == 'E'
            &&& optional_sign(sign)
            &&& digits.len() > 0 && crate::text::only_digits(digits)
        }
    }

    /// The parts one after the other.
    pub open spec fn text(self) -> Seq<char> {
        self.sign + self.whole + (if self.point {
            seq!['.'] + self.fraction
        } else {
            Seq::empty()
        }) + (match self.exponent {
            Some((letter, sign, digits)) => seq![letter] + sign + digits,
            None => Seq::empty(),
        })
    }
}

/// Every decimal number, however it is written, is told to be one.
pub proof fn decimals_are_numbers(number: Decimal)
    requires
        number.is_number(),
    ensures
        number_text(number.text()),
{
    let text = number.text();
    let from = number.sign.len() as int;
    let whole = from + number.whole.len();
    let end = if number.point {
        whole + 1 + number.fraction.len()
    } else {
        whole
    };
    if from == 0 {
        if number.whole.len() > 0 {
            assert(text[0] == number.whole[0]);
        } else {
            assert(text[0] == '.');
        }
    } else {
        assert(text[0] == number.sign[0]);
    }
    assert(number_start(text) == from);
    assert forall|i: int| from <= i < whole implies crate::text::digit(#[trigger] text[i]) by {
        assert(text[i] == number.whole[i - from]);
    }
    if number.point {
        assert(text[whole] == '.');
        assert forall|i: int| whole + 1 <= i < end implies crate::text::digit(
            #[trigger] text[i],
        ) by {
            assert(text[i] == number.fraction[i - whole - 1]);
        }
    }
    if number.exponent is Some {
        let (letter, sign, digits) = number.exponent->0;
        let start = end + 1 + sign.len();
        assert(text[end] == letter);
        if sign.len() > 0 {
            assert(text[end + 1] == sign[0]);
        } else {
            assert(text[end + 1] == digits[0]);
        }
        assert(exponent_start(text, end) == start);
        assert forall|i: int| start <= i < text.len() implies crate::text::digit(
            #[trigger] text[i],
        ) by {
            assert(text[i] == digits[i - start]);
        }
        assert(exponent(text, end));
    }
    assert(number_parts(text, from, whole, end));
}

/// Whether a sign or none and a word make one of the words for infinity and for no number.
pub open spec fn is_number_word(sign_text: Seq<char>, word: Seq<char>) -> bool {
    &&& optional_sign(sign_text)
    &&& crate::text::uppercased(word) == "INF"@ || crate::text::uppercased(word) == "INFINITY"@
        || crate::text::uppercased(word) == "NAN"@
}

/// The words for infinity and for no number, in either case of letters and after a sign or none,
/// are told to be numbers.
pub proof fn words_are_numbers(sign_text: Seq<char>, word: Seq<char>)
    requires
        is_number_word(sign_text, word),
    ensures
        number_text(sign_text + word),
{
    reveal_strlit("INF");
    reveal_strlit("INFINITY");
    reveal_strlit("NAN");
    let text = sign_text + word;
    assert(crate::text::uppercased(word).len() > 0);
    assert(crate::text::uppercased(word)[0] == crate::text::upper(word[0]));
    assert(text.subrange(sign_text.len() as int, text.len() as int) =~= word);
    if sign_text.len() == 0 {
        assert(text[0] == word[0]);
    } else {
        assert(text[0] == sign_text[0]);
    }
}

/// Nothing but a decimal number or one of these words is told to be a number.
pub proof fn numbers_are_decimals(text: Seq<char>)
    requires
        number_text(text),
    ensures
        (exists|number: Decimal| #[trigger] number.is_number() && number.text() == text) || exists|
            sign_text: Seq<char>,
            word: Seq<char>,
        | #[trigger] is_number_word(sign_text, word) && text == sign_text + word,
{
    let from = number_start(text);
    let sign_text = text.subrange(0, from);
    if from == 0 {
        assert(sign_text =~= Seq::<char>::empty());
    } else {
        assert(sign_text =~= seq![text[0]]);
    }
    if exists|whole: int, end: int| #[trigger] number_parts(text, from, whole, end) {
        let (whole, end) = choose|whole: int, end: int| #[trigger]
            number_parts(text, from, whole, end);
        let point = end > whole;
        let fraction = if point {
            text.subrange(whole + 1, end)
        } else {
            Seq::empty()
        };
        let parts: Option<(char, Seq<char>, Seq<char>)> = if end == text.len() {
            None
        } else {
            let start = exponent_start(text, end);
            Some(
                (
                    text[end],
                    text.subrange(end + 1, start),
                    text.subrange(start, text.len() as int),
                ),
            )
        };
        let number = Decimal {
            sign: sign_text,
            whole: text.subrange(from, whole),
            point,
            fraction,
            exponent: parts,
        };
        if end < text.len() {
            let start = exponent_start(text, end);
            let sign = text.subrange(end + 1, start);
            if start == end + 1 {
                assert(sign =~= Seq::<char>::empty());
            } else {
                assert(sign =~= seq![text[end + 1]]);
            }
            let digits = text.subrange(start, text.len() as int);
            assert forall|i: int| 0 <= i < digits.len() implies crate::text::digit(
                #[trigger] digits[i],
            ) by {
                assert(digits[i] == text[start + i]);
            }
        }
        assert forall|i: int| 0 <= i < number.whole.len() implies crate::text::digit(
            #[trigger] number.whole[i],
        ) by {
            assert(number.whole[i] == text[from + i]);
        }
        assert forall|i: int| 0 <= i < fraction.len() implies crate::text::digit(
            #[trigger] fraction[i],
        ) by {
            assert(fraction[i] == text[whole + 1 + i]);
        }
        assert(number.is_number());
        assert(number.text() =~= text);
    } else {
        let word = text.subrange(from, text.len() as int);
        assert(is_number_word(sign_text, word));
        assert(sign_text + word =~= text);
    }
}

} // verus!
