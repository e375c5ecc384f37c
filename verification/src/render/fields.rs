//! The display forms of single fields.

use vstd::prelude::*;
use vstd::string::StringExecFns;

use crate::text::{
    all_digits, all_white, decimal, digits_to_u64, digits_value, from_range, is_ascii_digit,
    lemma_nothing_to_trim, lemma_trimmed, lemma_trimmed_of, only_digits, sub_chars, to_chars, to_decimal, trim,
    trimmed,
};

verus! {

/// The number that digits denote, or zero where it is not below two to the power of 32.
pub open spec fn short_number(digits: Seq<char>) -> nat {
    if digits_value(digits) <= u32::MAX {
        digits_value(digits)
    } else {
        0
    }
}

/// The display form of a 조문번호: the last two of at least four digits count the articles that were
/// put in behind the one that the other digits number.
pub open spec fn article_number(raw: Seq<char>) -> Seq<char> {
    let number = trimmed(raw);
    if number.len() >= 4 && all_digits(number) {
        let main = short_number(number.take(number.len() - 2));
        let sub = short_number(number.skip(number.len() - 2));
        if sub == 0 {
            decimal(main)
        } else {
            decimal(main) + "의"@ + decimal(sub)
        }
    } else {
        number
    }
}

fn read_short_number(digits: &Vec<char>) -> (r: u64)
    requires
        all_digits(digits@),
    ensures
        r == short_number(digits@),
{
    match digits_to_u64(digits) {
        Some(value) => if value <= u32::MAX as u64 {
            value
        } else {
            0
        },
        None => 0,
    }
}

/// Normalizes a raw 조문번호 like `"000100"` → `"1"`, `"000102"` → `"1의2"`.
pub fn format_article_number(raw: &str) -> (r: String)
    ensures
        r@ == article_number(raw@),
{
    let number = trim(raw);
    let chars = to_chars(number.as_str());
    if chars.len() >= 4 && only_digits(&chars) {
        let split: usize = chars.len() - 2;
        let main_digits = sub_chars(&chars, 0, split);
        let sub_digits = sub_chars(&chars, split, chars.len());
        proof {
            let all = chars@;
            assert(main_digits@ =~= all.take(all.len() - 2));
            assert(sub_digits@ =~= all.skip(all.len() - 2));
            assert forall|i: int| 0 <= i < main_digits@.len() implies is_ascii_digit(
                #[trigger] main_digits@[i],
            ) by {
                assert(is_ascii_digit(all[i]));
            }
            assert forall|i: int| 0 <= i < sub_digits@.len() implies is_ascii_digit(
                #[trigger] sub_digits@[i],
            ) by {
                assert(is_ascii_digit(all[split + i]));
            }
        }
        let main: u64 = read_short_number(&main_digits);
        let sub: u64 = read_short_number(&sub_digits);
        let mut out = to_decimal(main);
        if sub != 0 {
            out.append("의");
            out.append(to_decimal(sub).as_str());
        }
        return out;
    }
    number
}

/// The display form of a date: `YYYYMMDD` as `YYYY-MM-DD`, anything else without outer white space.
pub open spec fn display_date(raw: Seq<char>) -> Seq<char> {
    let date = trimmed(raw);
    if date.len() == 8 && all_digits(date) {
        date.subrange(0, 4) + "-"@ + date.subrange(4, 6) + "-"@ + date.subrange(6, 8)
    } else {
        date
    }
}

/// Converts a `YYYYMMDD` string to `YYYY-MM-DD`; any other value is only trimmed.
pub fn format_date(raw: &str) -> (r: String)
    ensures
        r@ == display_date(raw@),
{
    let date = trim(raw);
    let chars = to_chars(date.as_str());
    if chars.len() == 8 && only_digits(&chars) {
        let mut out = from_range(&chars, 0, 4);
        out.append("-");
        out.append(from_range(&chars, 4, 6).as_str());
        out.append("-");
        out.append(from_range(&chars, 6, 8).as_str());
        return out;
    }
    date
}

/// A date that is in its display form stays in it.
pub proof fn lemma_display_date_again(raw: Seq<char>)
    ensures
        display_date(display_date(raw)) == display_date(raw),
{
    reveal_strlit("-");
    lemma_trimmed(raw);
    let date = trimmed(raw);
    let shown = display_date(raw);
    if date.len() == 8 && all_digits(date) {
        assert(shown.len() == 10);
        assert(shown[0] == date[0] && shown.last() == date[7]);
        assert(is_ascii_digit(date[0]) && is_ascii_digit(date[7]));
        lemma_nothing_to_trim(shown);
    }
}

/// A leading zero more or less in a 조문번호 does not show.
pub proof fn lemma_leading_zeros(number: Seq<char>)
    requires
        number.len() >= 4,
        all_digits(number),
    ensures
        article_number(seq!['0'] + number) == article_number(number),
{
    let longer = seq!['0'] + number;
    assert(is_ascii_digit('0'));
    assert forall|i: int| 0 <= i < longer.len() implies is_ascii_digit(#[trigger] longer[i]) by {
        if i > 0 {
            assert(is_ascii_digit(number[i - 1]));
        }
    }
    assert(is_ascii_digit(number[0]) && is_ascii_digit(number.last()));
    assert(longer.last() == number.last());
    lemma_nothing_to_trim(number);
    lemma_nothing_to_trim(longer);
    let main = number.take(number.len() - 2);
    assert(longer.take(longer.len() - 2) =~= seq!['0'] + main);
    assert(longer.skip(longer.len() - 2) =~= number.skip(number.len() - 2));
    lemma_zero_in_front(main);
}

proof fn lemma_zero_in_front(digits: Seq<char>)
    ensures
        digits_value(seq!['0'] + digits) == digits_value(digits),
    decreases digits.len(),
{
    let longer = seq!['0'] + digits;
    if digits.len() == 0 {
        reveal_with_fuel(digits_value, 2);
        assert(longer.drop_last() =~= Seq::<char>::empty());
    } else {
        lemma_zero_in_front(digits.drop_last());
        assert(longer.drop_last() =~= seq!['0'] + digits.drop_last());
    }
}

/// The number of an article is its digits but the last two, without leading zeros. The last two
/// count the articles put in behind it, and show behind a `의` unless they are zero. A number that is
/// too large shows as zero.
pub proof fn lemma_article_numbers(a: Seq<char>, main: Seq<char>, sub: Seq<char>, b: Seq<char>)
    requires
        all_white(a),
        all_white(b),
        main.len() >= 2,
        all_digits(main),
        sub.len() == 2,
        all_digits(sub),
    ensures
        ({
            let shown = article_number(a + (main + sub) + b);
            let first = if digits_value(main) < 0x1_0000_0000 {
                decimal(digits_value(main))
            } else {
                "0"@
            };
            &&& digits_value(sub) == 0 ==> shown == first
            &&& digits_value(sub) > 0 ==> shown == first + "의"@ + decimal(digits_value(sub))
        }),
{
    reveal_strlit("0");
    let number = main + sub;
    assert(is_ascii_digit(main[0]) && is_ascii_digit(sub[0]) && is_ascii_digit(sub[1]));
    assert(number[0] == main[0] && number.last() == sub[1]);
    lemma_trimmed_of(a, number, b);
    assert forall|i: int| 0 <= i < number.len() implies is_ascii_digit(#[trigger] number[i]) by {
        if i < main.len() {
            assert(is_ascii_digit(main[i]));
        } else {
            assert(is_ascii_digit(sub[i - main.len()]));
        }
    }
    assert(number.take(number.len() - 2) =~= main);
    assert(number.skip(number.len() - 2) =~= sub);
    assert(digits_value(sub) < 100) by {
        reveal_with_fuel(digits_value, 3);
    }
    assert(decimal(0) =~= "0"@);
}

/// A number that has fewer than four digits, or anything else in it, shows as it is, but for outer
/// white space.
pub proof fn lemma_other_numbers(raw: Seq<char>)
    ensures
        trimmed(raw).len() < 4 || !all_digits(trimmed(raw)) ==> article_number(raw) == trimmed(raw),
{
}

/// A date of eight digits shows as year, month and day with hyphens between them. Anything else shows
/// as it is, but for outer white space.
pub proof fn lemma_dates(
    a: Seq<char>,
    year: Seq<char>,
    month: Seq<char>,
    day: Seq<char>,
    b: Seq<char>,
    raw: Seq<char>,
)
    requires
        all_white(a),
        all_white(b),
        year.len() == 4 && all_digits(year),
        month.len() == 2 && all_digits(month),
        day.len() == 2 && all_digits(day),
    ensures
        display_date(a + (year + month + day) + b) == year + seq!['-'] + month + seq!['-'] + day,
        trimmed(raw).len() != 8 || !all_digits(trimmed(raw)) ==> display_date(raw) == trimmed(raw),
{
    reveal_strlit("-");
    let date = year + month + day;
    assert(is_ascii_digit(year[0]) && is_ascii_digit(day[1]));
    assert(date[0] == year[0] && date.last() == day[1]);
    lemma_trimmed_of(a, date, b);
    assert forall|i: int| 0 <= i < date.len() implies is_ascii_digit(#[trigger] date[i]) by {
        if i < 4 {
            assert(is_ascii_digit(year[i]));
        } else if i < 6 {
            assert(is_ascii_digit(month[i - 4]));
        } else {
            assert(is_ascii_digit(day[i - 6]));
        }
    }
    assert(date.subrange(0, 4) =~= year);
    assert(date.subrange(4, 6) =~= month);
    assert(date.subrange(6, 8) =~= day);
    assert("-"@ =~= seq!['-']);
}

} // verus!
