//! The delay that the arrival feed reports for a train, such as `T348S` or `PT1M30S`.
use vstd::prelude::*;

use crate::text::{characters, is_digit, parse_digits, parse_i64, trim, uppercase};

verus! {

/// What a delay text says.
#[derive(Clone, Copy, Debug, PartialEq, Eq, Structural)]
pub enum DelayReading {
    /// It is not a delay.
    Malformed,
    /// Its units add up to more seconds than 64 bits hold.
    TooLarge,
    /// It is a delay of this many seconds; a negative number is an early train.
    Seconds(i64),
}

/// The seconds in one unit of a delay.
pub open spec fn unit_seconds(unit: char) -> Option<int> {
    if unit == 'H' {
        Some(3600)
    } else if unit == 'M' {
        Some(60)
    } else if unit == 'S' {
        Some(1)
    } else {
        None
    }
}

/// How many digits `text` begins with.
pub open spec fn leading_digits(text: Seq<char>) -> nat
    decreases text.len(),
{
    if text.len() > 0 && crate::text::digit(text[0]) {
        1 + leading_digits(text.drop_first())
    } else {
        0
    }
}

/// What the amounts in `text` say when `seconds` were read before them; `seen` says whether any
/// amount was. An amount is a number and its unit; the last one may lack the unit and then counts
/// seconds.
pub open spec fn amounts_reading(text: Seq<char>, seconds: int, seen: bool) -> DelayReading
    decreases text.len(),
{
    let width = leading_digits(text) as int;
    if text.len() == 0 {
        if seen {
            DelayReading::Seconds(seconds as i64)
        } else {
            DelayReading::Malformed
        }
    } else if width == 0 || width > text.len() {
        DelayReading::Malformed
    } else {
        match crate::text::i64_text(text.take(width)) {
            None => DelayReading::Malformed,
            Some(amount) => if width == text.len() {
                if seconds + amount > i64::MAX {
                    DelayReading::TooLarge
                } else {
                    DelayReading::Seconds((seconds + amount) as i64)
                }
            } else {
                match unit_seconds(text[width]) {
                    None => DelayReading::Malformed,
                    Some(unit) => if seconds + amount * unit > i64::MAX {
                        DelayReading::TooLarge
                    } else {
                        amounts_reading(text.skip(width + 1), seconds + amount * unit, true)
                    },
                }
            },
        }
    }
}

/// `text` without the character `mark` at its beginning, if it begins so.
pub open spec fn without_mark(text: Seq<char>, mark: char) -> Seq<char> {
    if text.len() > 0 && text[0] == mark {
        text.skip(1)
    } else {
        text
    }
}

/// What a delay text says: a number of seconds, or an optional `P`, an optional `T`, an
/// optional sign and amounts.
pub open spec fn delay_reading(value: Seq<char>) -> DelayReading {
    let text = crate::text::uppercased(crate::text::trimmed(value));
    match crate::text::i64_text(text) {
        Some(seconds) => DelayReading::Seconds(seconds),
        None => {
            let signed = without_mark(without_mark(text, 'P'), 'T');
            if signed.len() > 0 && signed[0] == '-' {
                match amounts_reading(signed.skip(1), 0, false) {
                    DelayReading::Seconds(seconds) => DelayReading::Seconds((-seconds) as i64),
                    other => other,
                }
            } else {
                amounts_reading(without_mark(signed, '+'), 0, false)
            }
        },
    }
}

/// The delay in seconds that a text says, if it says one.
pub open spec fn delay_seconds(value: Seq<char>) -> Option<i64> {
    match delay_reading(value) {
        DelayReading::Seconds(seconds) => Some(seconds),
        _ => None,
    }
}

proof fn lemma_leading_digits(text: Seq<char>, width: int)
    requires
        0 <= width <= text.len(),
        forall|i: int| 0 <= i < width ==> crate::text::digit(#[trigger] text[i]),
        width == text.len() || !crate::text::digit(text[width]),
    ensures
        leading_digits(text) == width,
    decreases text.len(),
{
    if width > 0 {
        assert(crate::text::digit(text[0]));
        assert forall|i: int| 0 <= i < width - 1 implies crate::text::digit(
            #[trigger] text.drop_first()[i],
        ) by {
            assert(text.drop_first()[i] == text[i + 1]);
        }
        lemma_leading_digits(text.drop_first(), width - 1);
    }
}

/// Reads the amounts from position `from` on.
fn read_amounts(chars: &Vec<char>, from: usize) -> (reading: DelayReading)
    requires
        from <= chars@.len(),
    ensures
        reading == amounts_reading(chars@.skip(from as int), 0, false),
        reading matches DelayReading::Seconds(seconds) ==> seconds >= 0,
{
    let mut at: usize = from;
    let mut seconds: i64 = 0;
    let mut seen: bool = false;
    while at < chars.len()
        invariant
            from <= at <= chars@.len(),
            0 <= seconds,
            amounts_reading(chars@.skip(from as int), 0, false) == amounts_reading(
                chars@.skip(at as int),
                seconds as int,
                seen,
            ),
        decreases chars@.len() - at,
    {
        let ghost rest = chars@.skip(at as int);
        let mut digits: Vec<char> = Vec::new();
        let mut end: usize = at;
        while end < chars.len() && is_digit(chars[end])
            invariant
                at <= end <= chars@.len(),
                digits@ == chars@.subrange(at as int, end as int),
                crate::text::all_digits(digits@),
            decreases chars@.len() - end,
        {
            digits.push(chars[end]);
            end += 1;
            proof {
                assert(digits@ =~= chars@.subrange(at as int, end as int));
            }
        }
        proof {
            assert forall|i: int| 0 <= i < end - at implies crate::text::digit(
                #[trigger] rest[i],
            ) by {
                assert(rest[i] == digits@[i]);
            }
            lemma_leading_digits(rest, end - at);
            assert(rest.take(end - at) =~= digits@);
        }
        if digits.len() == 0 {
            return DelayReading::Malformed;
        }
        let amount: i64 = match parse_digits(&digits) {
            Some(amount) => amount,
            None => {
                return DelayReading::Malformed;
            },
        };
        proof {
            crate::text::lemma_digits_not_negative(digits@);
        }
        if end == chars.len() {
            let total: i128 = seconds as i128 + amount as i128;
            if total > i64::MAX as i128 {
                return DelayReading::TooLarge;
            }
            return DelayReading::Seconds(total as i64);
        }
        let unit = chars[end];
        let factor: i128 = if unit == 'H' {
            3600
        } else if unit == 'M' {
            60
        } else if unit == 'S' {
            1
        } else {
            return DelayReading::Malformed;
        };
        let total: i128 = seconds as i128 + amount as i128 * factor;
        proof {
            assert(unit_seconds(rest[end - at]) == Some(factor as int));
        }
        if total > i64::MAX as i128 {
            return DelayReading::TooLarge;
        }
        proof {
            assert(rest.skip(end - at + 1) =~= chars@.skip(end + 1));
        }
        seconds = total as i64;
        seen = true;
        at = end + 1;
    }
    if seen {
        DelayReading::Seconds(seconds)
    } else {
        DelayReading::Malformed
    }
}

/// Reads a delay text.
pub fn read_delay(value: &str) -> (reading: DelayReading)
    ensures
        reading == delay_reading(value@),
{
    let text = uppercase(trim(value).as_str());
    if let Some(seconds) = parse_i64(text.as_str()) {
        return DelayReading::Seconds(seconds);
    }
    let chars = characters(text.as_str());
    let mut at: usize = 0;
    proof {
        assert(chars@.skip(0) =~= chars@);
    }
    if at < chars.len() && chars[at] == 'P' {
        at += 1;
    }
    let ghost after_p = chars@.skip(at as int);
    proof {
        assert(after_p == without_mark(text@, 'P'));
    }
    if at < chars.len() && chars[at] == 'T' {
        at += 1;
        proof {
            assert(after_p.skip(1) =~= chars@.skip(at as int));
        }
    }
    let ghost signed = chars@.skip(at as int);
    proof {
        assert(signed == without_mark(after_p, 'T'));
    }
    if at < chars.len() && chars[at] == '-' {
        proof {
            assert(signed.skip(1) =~= chars@.skip(at + 1));
        }
        return match read_amounts(&chars, at + 1) {
            DelayReading::Seconds(seconds) => DelayReading::Seconds(-seconds),
            other => other,
        };
    }
    if at < chars.len() && chars[at] == '+' {
        at += 1;
        proof {
            assert(signed.skip(1) =~= chars@.skip(at as int));
        }
    }
    read_amounts(&chars, at)
}

/// The delay in seconds that a text says, if it says one.
pub fn parse_delay_seconds(value: &str) -> (result: Option<i64>)
    requires
        delay_reading(value@) != DelayReading::TooLarge,
    ensures
        result == delay_seconds(value@),
{
    match read_delay(value) {
        DelayReading::Seconds(seconds) => Some(seconds),
        _ => None,
    }
}

/// The text of a delay of one amount, as the feed writes it: `T`, a minus sign for an early
/// train, digits and a unit.
pub open spec fn amount_text(digits: Seq<char>, unit: char, early: bool) -> Seq<char> {
    if early {
        seq!['T', '-'] + digits + seq![unit]
    } else {
        seq!['T'] + digits + seq![unit]
    }
}

/// A delay of one amount is read back as its seconds.
pub proof fn amount_is_read(digits: Seq<char>, unit: char, early: bool)
    requires
        digits.len() > 0,
        crate::text::all_digits(digits),
        unit_seconds(unit) is Some,
        crate::text::digits_value(digits) * unit_seconds(unit)->0 <= i64::MAX,
    ensures
        delay_seconds(amount_text(digits, unit, early)) == Some(
            (if early {
                -(crate::text::digits_value(digits) * unit_seconds(unit)->0)
            } else {
                crate::text::digits_value(digits) * unit_seconds(unit)->0
            }) as i64,
        ),
{
    let value = amount_text(digits, unit, early);
    let width = digits.len() as int;
    let text = crate::text::uppercased(value);
    assert(crate::text::trimmed(value) == value);
    assert(text =~= value) by {
        assert forall|i: int| 0 <= i < value.len() implies crate::text::upper(
            #[trigger] value[i],
        ) == value[i] by {
            let shift: int = if early {
                2
            } else {
                1
            };
            if shift <= i < shift + width {
                assert(value[i] == digits[i - shift]);
            }
        }
    }
    assert(crate::text::i64_text(text) is None) by {
        assert(!crate::text::digit(text[0]));
    }
    let signed = without_mark(without_mark(text, 'P'), 'T');
    let amount = digits + seq![unit];
    if early {
        assert(signed.skip(1) =~= amount);
    } else {
        assert(crate::text::digit(digits[0]));
        assert(signed =~= amount);
        assert(signed[0] == digits[0]);
    }
    assert forall|i: int| 0 <= i < width implies crate::text::digit(#[trigger] amount[i]) by {
        assert(amount[i] == digits[i]);
    }
    lemma_leading_digits(amount, width);
    assert(amount.take(width) =~= digits);
    crate::text::lemma_digits_not_negative(digits);
    let number = crate::text::digits_value(digits);
    let seconds = unit_seconds(unit)->0;
    assert(number <= number * seconds) by (nonlinear_arith)
        requires
            number >= 0,
            seconds >= 1,
    ;
    assert(crate::text::i64_text(digits) == Some(number as i64)) by {
        assert(crate::text::digit(digits[0]));
    }
    assert(amount.skip(width + 1) =~= Seq::<char>::empty());
    assert(amounts_reading(amount.skip(width + 1), 0 + number * seconds, true)
        == DelayReading::Seconds((number * seconds) as i64));
    assert(amounts_reading(amount, 0, false) == DelayReading::Seconds((number * seconds) as i64));
}

/// An amount of a delay: its digits and its unit.
pub struct Amount {
    pub digits: Seq<char>,
    pub unit: char,
}

/// The seconds that amounts say together, in hours, minutes and seconds, and with them the
/// seconds that the last digits say.
pub open spec fn total_seconds(amounts: Seq<Amount>, last: Seq<char>) -> int
    decreases amounts.len(),
{
    if amounts.len() == 0 {
        crate::text::digits_value(last)
    } else {
        let value = crate::text::digits_value(amounts[0].digits);
        total_seconds(amounts.drop_first(), last) + if amounts[0].unit == 'H' {
            value * 3600
        } else if amounts[0].unit == 'M' {
            value * 60
        } else {
            value
        }
    }
}

/// The amounts one after the other, and then the last digits.
pub open spec fn amounts_text(amounts: Seq<Amount>, last: Seq<char>) -> Seq<char>
    decreases amounts.len(),
{
    if amounts.len() == 0 {
        last
    } else {
        amounts[0].digits.push(amounts[0].unit) + amounts_text(amounts.drop_first(), last)
    }
}

/// Whether amounts have digits and a unit each, and what comes last are digits.
pub open spec fn are_amounts(amounts: Seq<Amount>, last: Seq<char>) -> bool {
    &&& forall|i: int|
        0 <= i < amounts.len() ==> {
            let amount = #[trigger] amounts[i];
            &&& amount.digits.len() > 0 && crate::text::only_digits(amount.digits)
            &&& amount.unit == 'H' || amount.unit == 'M' || amount.unit == 'S'
        }
    &&& crate::text::only_digits(last)
}

/// Whether the number of each amount fits 64 bits.
pub open spec fn each_fits(amounts: Seq<Amount>, last: Seq<char>) -> bool {
    &&& forall|i: int|
        0 <= i < amounts.len() ==> crate::text::digits_value((#[trigger] amounts[i]).digits)
            <= i64::MAX
    &&& crate::text::digits_value(last) <= i64::MAX
}

proof fn lemma_total_not_negative(amounts: Seq<Amount>, last: Seq<char>)
    requires
        are_amounts(amounts, last),
    ensures
        total_seconds(amounts, last) >= 0,
    decreases amounts.len(),
{
    if amounts.len() == 0 {
        crate::text::lemma_digits_not_negative(last);
    } else {
        lemma_rest_are_amounts(amounts, last);
        lemma_total_not_negative(amounts.drop_first(), last);
        crate::text::lemma_digits_not_negative(amounts[0].digits);
    }
}

proof fn lemma_rest_are_amounts(amounts: Seq<Amount>, last: Seq<char>)
    requires
        are_amounts(amounts, last),
        amounts.len() > 0,
    ensures
        are_amounts(amounts.drop_first(), last),
        amounts[0].digits.len() > 0 && crate::text::only_digits(amounts[0].digits),
        unit_seconds(amounts[0].unit) is Some,
{
    let rest = amounts.drop_first();
    assert(amounts[0].digits.len() > 0);
    assert forall|i: int| 0 <= i < rest.len() implies ({
        let amount = #[trigger] rest[i];
        &&& amount.digits.len() > 0 && crate::text::only_digits(amount.digits)
        &&& amount.unit == 'H' || amount.unit == 'M' || amount.unit == 'S'
    }) by {
        assert(rest[i] == amounts[i + 1]);
    }
}

proof fn lemma_unit_counts(value: int, unit: char)
    requires
        unit_seconds(unit) is Some,
        value >= 0,
    ensures
        value * unit_seconds(unit)->0 == if unit == 'H' {
            value * 3600
        } else if unit == 'M' {
            value * 60
        } else {
            value
        },
        value * unit_seconds(unit)->0 >= value,
{
    if unit == 'H' {
        assert(unit_seconds(unit)->0 == 3600);
    } else if unit == 'M' {
        assert(unit_seconds(unit)->0 == 60);
    } else {
        assert(unit_seconds(unit)->0 == 1);
    }
}

/// Amounts are read as the seconds that they say together.
proof fn lemma_amounts_read(amounts: Seq<Amount>, last: Seq<char>, seconds: int, seen: bool)
    requires
        are_amounts(amounts, last),
        seen || amounts.len() > 0 || last.len() > 0,
        0 <= seconds <= i64::MAX,
    ensures
        ({
            let end = seconds + total_seconds(amounts, last);
            let reading = amounts_reading(amounts_text(amounts, last), seconds, seen);
            &&& end <= i64::MAX ==> reading == DelayReading::Seconds(end as i64)
            &&& end > i64::MAX ==> !(reading is Seconds)
            &&& end > i64::MAX && each_fits(amounts, last) ==> reading is TooLarge
        }),
    decreases amounts.len(),
{
    let text = amounts_text(amounts, last);
    if amounts.len() == 0 {
        if last.len() > 0 {
            lemma_leading_digits(last, last.len() as int);
            assert(last.take(last.len() as int) =~= last);
            crate::text::signed_digits_are_read(last);
            crate::text::lemma_digits_not_negative(last);
        }
    } else {
        lemma_rest_are_amounts(amounts, last);
        let digits = amounts[0].digits;
        let unit = amounts[0].unit;
        let rest = amounts.drop_first();
        let width = digits.len() as int;
        let value = crate::text::digits_value(digits);
        assert forall|i: int| 0 <= i < width implies crate::text::digit(#[trigger] text[i]) by {
            assert(text[i] == digits[i]);
        }
        assert(text[width] == unit);
        lemma_leading_digits(text, width);
        assert(text.take(width) =~= digits);
        assert(text.skip(width + 1) =~= amounts_text(rest, last));
        crate::text::signed_digits_are_read(digits);
        crate::text::lemma_digits_not_negative(digits);
        lemma_total_not_negative(rest, last);
        let more = value * unit_seconds(unit)->0;
        lemma_unit_counts(value, unit);
        if value <= i64::MAX && seconds + more <= i64::MAX {
            lemma_amounts_read(rest, last, seconds + more, true);
            if each_fits(amounts, last) {
                assert forall|i: int| 0 <= i < rest.len() implies crate::text::digits_value(
                    (#[trigger] rest[i]).digits,
                ) <= i64::MAX by {
                    assert(rest[i] == amounts[i + 1]);
                }
            }
        }
        assert(each_fits(amounts, last) ==> value <= i64::MAX);
    }
}

/// What is read as seconds are amounts.
proof fn lemma_read_amounts(text: Seq<char>, seconds: int, seen: bool) -> (found: (
    Seq<Amount>,
    Seq<char>,
))
    requires
        amounts_reading(text, seconds, seen) is Seconds,
        0 <= seconds <= i64::MAX,
    ensures
        are_amounts(found.0, found.1),
        text == amounts_text(found.0, found.1),
        amounts_reading(text, seconds, seen) == DelayReading::Seconds(
            (seconds + total_seconds(found.0, found.1)) as i64,
        ),
        seconds + total_seconds(found.0, found.1) <= i64::MAX,
        seen || found.0.len() > 0 || found.1.len() > 0,
    decreases text.len(),
{
    let width = leading_digits(text) as int;
    if text.len() == 0 {
        (Seq::empty(), text)
    } else {
        lemma_digits_lead(text);
        let digits = text.take(width);
        assert(crate::text::only_digits(digits));
        crate::text::numbers_are_signed_digits(digits);
        assert(crate::text::digit(digits[0]));
        crate::text::signed_digits_are_read(digits);
        crate::text::lemma_digits_not_negative(digits);
        if width == text.len() {
            assert(digits =~= text);
            (Seq::empty(), text)
        } else {
            let unit = text[width];
            let value = crate::text::digits_value(digits);
            let more = value * unit_seconds(unit)->0;
            lemma_unit_counts(value, unit);
            let (rest, last) = lemma_read_amounts(text.skip(width + 1), seconds + more, true);
            let amounts = seq![Amount { digits, unit }] + rest;
            assert(amounts.drop_first() =~= rest);
            assert(text =~= digits.push(unit) + text.skip(width + 1));
            assert forall|i: int| 0 <= i < amounts.len() implies ({
                let amount = #[trigger] amounts[i];
                &&& amount.digits.len() > 0 && crate::text::only_digits(amount.digits)
                &&& amount.unit == 'H' || amount.unit == 'M' || amount.unit == 'S'
            }) by {
                if i > 0 {
                    assert(amounts[i] == rest[i - 1]);
                }
            }
            (amounts, last)
        }
    }
}

proof fn lemma_digits_lead(text: Seq<char>)
    ensures
        leading_digits(text) <= text.len(),
        forall|i: int| 0 <= i < leading_digits(text) ==> crate::text::digit(#[trigger] text[i]),
    decreases text.len(),
{
    if text.len() > 0 && crate::text::digit(text[0]) {
        let rest = text.drop_first();
        lemma_digits_lead(rest);
        assert forall|i: int| 0 <= i < leading_digits(text) implies crate::text::digit(
            #[trigger] text[i],
        ) by {
            if i > 0 {
                assert(rest[i - 1] == text[i]);
            }
        }
    }
}

/// How a delay is written: a `P` or none, a `T` or none, a sign or none, amounts, and digits
/// without a unit or none.
pub open spec fn delay_text(
    period: bool,
    time: bool,
    sign: Option<char>,
    amounts: Seq<Amount>,
    last: Seq<char>,
) -> Seq<char> {
    (if period {
        seq!['P']
    } else {
        Seq::empty()
    }) + (if time {
        seq!['T']
    } else {
        Seq::empty()
    }) + (match sign {
        Some(ch) => seq![ch],
        None => Seq::empty(),
    }) + amounts_text(amounts, last)
}

/// A delay, however it is written and in either case of letters, is read as the seconds that its
/// hours, minutes and seconds make together, below zero after a minus sign. One whose seconds do
/// not fit 64 bits is not read: it is too large where each of its numbers fits.
pub proof fn amounts_add_up(
    value: Seq<char>,
    period: bool,
    time: bool,
    sign: Option<char>,
    amounts: Seq<Amount>,
    last: Seq<char>,
)
    requires
        crate::text::uppercased(crate::text::trimmed(value)) == delay_text(
            period,
            time,
            sign,
            amounts,
            last,
        ),
        are_amounts(amounts, last),
        amounts.len() > 0 || last.len() > 0,
        sign == Some('+') || sign == Some('-') || sign is None,
    ensures
        ({
            let total = total_seconds(amounts, last);
            &&& total <= i64::MAX && sign != Some('-') ==> delay_seconds(value) == Some(
                total as i64,
            )
            &&& total <= i64::MAX && sign == Some('-') ==> delay_seconds(value) == Some(
                (-total) as i64,
            )
            &&& total > i64::MAX + 1 ==> delay_seconds(value) is None
            &&& total > i64::MAX + 1 && each_fits(amounts, last) ==> delay_reading(value)
                is TooLarge
        }),
{
    let text = crate::text::uppercased(crate::text::trimmed(value));
    let body = amounts_text(amounts, last);
    lemma_body_starts_with_digit(amounts, last);
    lemma_amounts_read(amounts, last, 0, false);
    lemma_total_not_negative(amounts, last);
    let marked = without_mark(text, 'P');
    let signed = without_mark(marked, 'T');
    let sign_text = match sign {
        Some(ch) => seq![ch],
        None => Seq::<char>::empty(),
    };
    assert(signed =~= sign_text + body) by {
        if period {
            assert(text[0] == 'P');
        }
        assert(marked =~= (if time {
            seq!['T']
        } else {
            Seq::empty()
        }) + sign_text + body);
    }
    if sign is Some {
        assert(signed[0] == sign->0);
        assert(signed.skip(1) =~= body);
    } else {
        assert(signed =~= body);
    }
    if period || time {
        assert(text[0] == 'P' || text[0] == 'T');
        assert(!crate::text::digit(text[0]));
        if crate::text::i64_text(text) is Some {
            crate::text::numbers_are_signed_digits(text);
        }
    } else {
        assert(text =~= signed);
        if amounts.len() > 0 {
            lemma_rest_are_amounts(amounts, last);
            let width = amounts[0].digits.len() as int;
            assert(body[width] == amounts[0].unit);
            assert(text[sign_text.len() + width] == body[width]);
            if crate::text::i64_text(text) is Some {
                crate::text::numbers_are_signed_digits(text);
                assert(sign is Some ==> text.skip(1)[width] == body[width]);
            }
        } else {
            crate::text::signed_digits_are_read(last);
            assert(sign is Some ==> text =~= seq![sign->0] + last);
        }
    }
}

proof fn lemma_body_starts_with_digit(amounts: Seq<Amount>, last: Seq<char>)
    requires
        are_amounts(amounts, last),
        amounts.len() > 0 || last.len() > 0,
    ensures
        amounts_text(amounts, last).len() > 0,
        crate::text::digit(amounts_text(amounts, last)[0]),
{
    if amounts.len() > 0 {
        lemma_rest_are_amounts(amounts, last);
        assert(amounts_text(amounts, last)[0] == amounts[0].digits[0]);
    }
}

/// Nothing but a delay so written is read as one, and its seconds are those of its amounts.
pub proof fn delays_are_amounts(value: Seq<char>)
    requires
        delay_seconds(value) is Some,
    ensures
        exists|period: bool, time: bool, sign: Option<char>, amounts: Seq<Amount>, last: Seq<char>|
            #[trigger] says_delay(value, period, time, sign, amounts, last),
{
    let text = crate::text::uppercased(crate::text::trimmed(value));
    let none = Seq::<Amount>::empty();
    if crate::text::i64_text(text) is Some {
        crate::text::numbers_are_signed_digits(text);
        if crate::text::only_digits(text) {
            assert(delay_text(false, false, None, none, text) =~= text);
            assert(says_delay(value, false, false, None, none, text));
        } else {
            let last = text.skip(1);
            assert(delay_text(false, false, Some(text[0]), none, last) =~= text);
            assert(says_delay(value, false, false, Some(text[0]), none, last));
        }
    } else {
        let marked = without_mark(text, 'P');
        let signed = without_mark(marked, 'T');
        let period = text.len() > 0 && text[0] == 'P';
        let time = marked.len() > 0 && marked[0] == 'T';
        let sign: Option<char> = if signed.len() > 0 && (signed[0] == '-' || signed[0] == '+') {
            Some(signed[0])
        } else {
            None
        };
        let body = if sign is Some {
            signed.skip(1)
        } else {
            signed
        };
        let (amounts, last) = lemma_read_amounts(body, 0, false);
        lemma_total_not_negative(amounts, last);
        assert(delay_text(period, time, sign, amounts, last) =~= text);
        assert(says_delay(value, period, time, sign, amounts, last));
    }
}

/// Whether a text is a delay written with these amounts, and is read as their seconds.
pub open spec fn says_delay(
    value: Seq<char>,
    period: bool,
    time: bool,
    sign: Option<char>,
    amounts: Seq<Amount>,
    last: Seq<char>,
) -> bool {
    &&& crate::text::uppercased(crate::text::trimmed(value)) == delay_text(
        period,
        time,
        sign,
        amounts,
        last,
    )
    &&& are_amounts(amounts, last)
    &&& amounts.len() > 0 || last.len() > 0
    &&& sign == Some('+') || sign == Some('-') || sign is None
    &&& delay_seconds(value) matches Some(seconds) && seconds == if sign == Some('-') {
        -total_seconds(amounts, last)
    } else {
        total_seconds(amounts, last)
    }
}

} // verus!
