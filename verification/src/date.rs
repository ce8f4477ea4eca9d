//! The date grammar: a fixed-width `YYYY-MM-DD` literal, decoded left to
//! right. Digit counts are checked; calendar validity deliberately is not.

use vstd::prelude::*;

verus! {

/// A calendar date exactly as it stands in a changelog heading: four digits
/// of year, two of month, two of day.
///
/// The grammar checks widths only, never ranges: `month == 99` or `day == 99`
/// are accepted as long as each group is the right number of ASCII digits.
#[derive(Clone, Copy, Debug, PartialEq, Eq, Structural)]
pub struct Date {
    pub year: u16,
    pub month: u8,
    pub day: u8,
}

/// Why a date literal failed to parse.
#[derive(Clone, Copy, Debug, PartialEq, Eq, Structural)]
pub enum DateParseError {
    /// The text ended before a fixed-width group was complete.
    Eof,
    /// A fixed-width group held a character that is not an ASCII digit.
    Digit,
    /// The character after the year or the month group was not `-`.
    Separator,
}

/// An ASCII decimal digit, by code point.
pub open spec fn is_digit_char(c: char) -> bool {
    48 <= c as int <= 57
}

/// The numeric value of one ASCII digit.
pub open spec fn digit_val(c: char) -> int {
    c as int - 48
}

pub open spec fn all_digits(s: Seq<char>) -> bool {
    forall|i: int| 0 <= i < s.len() ==> is_digit_char(#[trigger] s[i])
}

/// The number written by a string of decimal digits, most significant first.
pub open spec fn decimal_value(s: Seq<char>) -> int
    decreases s.len(),
{
    if s.len() == 0 {
        0
    } else {
        decimal_value(s.drop_last()) * 10 + digit_val(s.last())
    }
}

pub open spec fn pow10(n: nat) -> int
    decreases n,
{
    if n == 0 {
        1
    } else {
        10 * pow10((n - 1) as nat)
    }
}

pub proof fn lemma_pow10_small(n: nat)
    requires
        n <= 4,
    ensures
        1 <= pow10(n) <= 10000,
{
    reveal_with_fuel(pow10, 5);
    if n == 0 {
    } else if n == 1 {
    } else if n == 2 {
    } else if n == 3 {
    } else {
        assert(n == 4);
    }
}

pub proof fn lemma_decimal_value_bound(s: Seq<char>)
    requires
        all_digits(s),
    ensures
        0 <= decimal_value(s) < pow10(s.len()),
    decreases s.len(),
{
    if s.len() > 0 {
        assert(all_digits(s.drop_last()));
        lemma_decimal_value_bound(s.drop_last());
    }
}

/// Does `s` begin with a well-formed `YYYY-MM-DD` literal?
pub open spec fn date_text_valid(s: Seq<char>) -> bool {
    &&& s.len() >= 10
    &&& all_digits(s.subrange(0, 4))
    &&& s[4] == '-'
    &&& all_digits(s.subrange(5, 7))
    &&& s[7] == '-'
    &&& all_digits(s.subrange(8, 10))
}

/// The date written by the first ten characters of `s`.
pub open spec fn date_of_text(s: Seq<char>) -> Date {
    Date {
        year: decimal_value(s.subrange(0, 4)) as u16,
        month: decimal_value(s.subrange(5, 7)) as u8,
        day: decimal_value(s.subrange(8, 10)) as u8,
    }
}

/// The error reported for a text that does not begin with a date literal,
/// positioned at the leftmost group that fails.
pub open spec fn date_parse_error(s: Seq<char>) -> DateParseError {
    if s.len() < 4 {
        DateParseError::Eof
    } else if !all_digits(s.subrange(0, 4)) {
        DateParseError::Digit
    } else if s.len() < 5 || s[4] != '-' {
        DateParseError::Separator
    } else if s.len() < 7 {
        DateParseError::Eof
    } else if !all_digits(s.subrange(5, 7)) {
        DateParseError::Digit
    } else if s.len() < 8 || s[7] != '-' {
        DateParseError::Separator
    } else if s.len() < 10 {
        DateParseError::Eof
    } else {
        DateParseError::Digit
    }
}

/// The ASCII digit that writes `v`.
pub open spec fn digit_char(v: int) -> char {
    if v == 0 {
        '0'
    } else if v == 1 {
        '1'
    } else if v == 2 {
        '2'
    } else if v == 3 {
        '3'
    } else if v == 4 {
        '4'
    } else if v == 5 {
        '5'
    } else if v == 6 {
        '6'
    } else if v == 7 {
        '7'
    } else if v == 8 {
        '8'
    } else {
        '9'
    }
}

pub proof fn lemma_digit_char_val(c: char)
    requires
        is_digit_char(c),
    ensures
        digit_char(digit_val(c)) == c,
{
}

/// The ten characters `YYYY-MM-DD` that write `d`, each numeric field
/// zero-padded to its fixed width.
pub open spec fn date_text(d: Date) -> Seq<char> {
    seq![
        digit_char(d.year as int / 1000),
        digit_char((d.year as int / 100) % 10),
        digit_char((d.year as int / 10) % 10),
        digit_char(d.year as int % 10),
        '-',
        digit_char(d.month as int / 10),
        digit_char(d.month as int % 10),
        '-',
        digit_char(d.day as int / 10),
        digit_char(d.day as int % 10),
    ]
}

/// Decode the fixed-width digit group `i@[from .. from + width]`, or report
/// the first non-digit in it.
fn decimal_group(i: &str, from: usize, width: usize) -> (r: Option<u32>)
    requires
        from + width <= i@.len(),
        i@.len() <= usize::MAX,
        width <= 4,
    ensures
        all_digits(i@.subrange(from as int, from as int + width as int)) ==> r == Some(
            decimal_value(i@.subrange(from as int, from as int + width as int)) as u32,
        ),
        !all_digits(i@.subrange(from as int, from as int + width as int)) ==> r is None,
{
    let ghost g = i@.subrange(from as int, from as int + width as int);
    let mut acc: u32 = 0;
    let mut j: usize = 0;
    while j < width
        invariant
            from + width <= i@.len(),
            i@.len() <= usize::MAX,
            width <= 4,
            j <= width,
            g == i@.subrange(from as int, from as int + width as int),
            all_digits(g.subrange(0, j as int)),
            acc == decimal_value(g.subrange(0, j as int)),
            acc < 10000,
        decreases width - j,
    {
        let c = i.get_char(from + j);
        let cv = c as u32;
        assert(c == g[j as int]);
        if cv < 48 || cv > 57 {
            assert(!is_digit_char(g[j as int]));
            return None;
        }
        proof {
            assert(g.subrange(0, j as int + 1).drop_last() =~= g.subrange(0, j as int));
            assert(all_digits(g.subrange(0, j as int + 1)));
            lemma_decimal_value_bound(g.subrange(0, j as int + 1));
            lemma_pow10_small((j + 1) as nat);
        }
        acc = acc * 10 + (cv - 48);
        j = j + 1;
    }
    proof {
        assert(g.subrange(0, width as int) =~= g);
    }
    Some(acc)
}

impl Date {
    /// Parse a `YYYY-MM-DD` literal from the start of `i`; on success, also
    /// hand back the text that follows the ten consumed characters (trailing
    /// text is legal and left for the caller).
    pub fn parse<'a>(i: &'a str) -> (r: Result<(Date, &'a str), DateParseError>)
        ensures
            date_text_valid(i@) ==> {
                &&& r is Ok
                &&& r->Ok_0.0 == date_of_text(i@)
                &&& r->Ok_0.1@ == i@.skip(10)
            },
            !date_text_valid(i@) ==> r is Err && r->Err_0 == date_parse_error(i@),
    {
        let n = i.unicode_len();
        if n < 4 {
            return Err(DateParseError::Eof);
        }
        let year = match decimal_group(i, 0, 4) {
            Some(v) => v,
            None => return Err(DateParseError::Digit),
        };
        if n < 5 || i.get_char(4) != '-' {
            return Err(DateParseError::Separator);
        }
        if n < 7 {
            return Err(DateParseError::Eof);
        }
        let month = match decimal_group(i, 5, 2) {
            Some(v) => v,
            None => return Err(DateParseError::Digit),
        };
        if n < 8 || i.get_char(7) != '-' {
            return Err(DateParseError::Separator);
        }
        if n < 10 {
            return Err(DateParseError::Eof);
        }
        let day = match decimal_group(i, 8, 2) {
            Some(v) => v,
            None => return Err(DateParseError::Digit),
        };
        proof {
            reveal_with_fuel(pow10, 5);
            lemma_decimal_value_bound(i@.subrange(0, 4));
            lemma_decimal_value_bound(i@.subrange(5, 7));
            lemma_decimal_value_bound(i@.subrange(8, 10));
        }
        let rest = i.substring_char(10, n);
        Ok((Date { year: year as u16, month: month as u8, day: day as u8 }, rest))
    }

    /// Write the date back as the ten characters `YYYY-MM-DD`, each field
    /// zero-padded to the fixed width the grammar reads.
    pub fn encode(&self) -> (r: String)
        requires
            self.year <= 9999,
            self.month <= 99,
            self.day <= 99,
        ensures
            r@ == date_text(*self),
    {
        let mut r = String::new();
        r.append(digit_str((self.year / 1000) as u8));
        r.append(digit_str(((self.year / 100) % 10) as u8));
        r.append(digit_str(((self.year / 10) % 10) as u8));
        r.append(digit_str((self.year % 10) as u8));
        r.append(dash_str());
        r.append(digit_str(self.month / 10));
        r.append(digit_str(self.month % 10));
        r.append(dash_str());
        r.append(digit_str(self.day / 10));
        r.append(digit_str(self.day % 10));
        proof {
            assert(r@ =~= date_text(*self));
        }
        r
    }
}

/// The one-character text that writes `v`.
fn digit_str(v: u8) -> (r: &'static str)
    requires
        v <= 9,
    ensures
        r@ =~= seq![digit_char(v as int)],
{
    match v {
        0 => {
            proof {
                reveal_strlit("0");
            }
            "0"
        },
        1 => {
            proof {
                reveal_strlit("1");
            }
            "1"
        },
        2 => {
            proof {
                reveal_strlit("2");
            }
            "2"
        },
        3 => {
            proof {
                reveal_strlit("3");
            }
            "3"
        },
        4 => {
            proof {
                reveal_strlit("4");
            }
            "4"
        },
        5 => {
            proof {
                reveal_strlit("5");
            }
            "5"
        },
        6 => {
            proof {
                reveal_strlit("6");
            }
            "6"
        },
        7 => {
            proof {
                reveal_strlit("7");
            }
            "7"
        },
        8 => {
            proof {
                reveal_strlit("8");
            }
            "8"
        },
        _ => {
            proof {
                reveal_strlit("9");
            }
            "9"
        },
    }
}

fn dash_str() -> (r: &'static str)
    ensures
        r@ =~= seq!['-'],
{
    proof {
        reveal_strlit("-");
    }
    "-"
}

/// Parsing a date and writing it back reproduces the ten consumed
/// characters exactly: the grammar loses nothing, not even out-of-range
/// months or days.
pub proof fn lemma_date_round_trip(s: Seq<char>)
    requires
        date_text_valid(s),
    ensures
        date_text(date_of_text(s)) == s.take(10),
{
    reveal_with_fuel(pow10, 5);
    let a = s.subrange(0, 4);
    lemma_decimal_value_bound(a);
    assert(a.drop_last() =~= s.subrange(0, 3));
    assert(s.subrange(0, 3).drop_last() =~= s.subrange(0, 2));
    assert(s.subrange(0, 2).drop_last() =~= s.subrange(0, 1));
    assert(s.subrange(0, 1).drop_last() =~= s.subrange(0, 0));
    let y = decimal_value(a);
    assert(decimal_value(s.subrange(0, 0)) == 0);
    assert(s.subrange(0, 1).last() == s[0]);
    assert(decimal_value(s.subrange(0, 1)) == digit_val(s[0]));
    assert(s.subrange(0, 2).last() == s[1]);
    assert(decimal_value(s.subrange(0, 2)) == digit_val(s[0]) * 10 + digit_val(s[1]));
    assert(s.subrange(0, 3).last() == s[2]);
    assert(decimal_value(s.subrange(0, 3)) == (digit_val(s[0]) * 10 + digit_val(s[1])) * 10
        + digit_val(s[2]));
    assert(a.last() == s[3]);
    assert(y == ((digit_val(s[0]) * 10 + digit_val(s[1])) * 10 + digit_val(s[2])) * 10 + digit_val(
        s[3],
    ));
    let b = s.subrange(5, 7);
    lemma_decimal_value_bound(b);
    assert(b.drop_last() =~= s.subrange(5, 6));
    assert(s.subrange(5, 6).drop_last() =~= s.subrange(5, 5));
    let m = decimal_value(b);
    assert(decimal_value(s.subrange(5, 5)) == 0);
    assert(s.subrange(5, 6).last() == s[5]);
    assert(decimal_value(s.subrange(5, 6)) == digit_val(s[5]));
    assert(b.last() == s[6]);
    assert(m == digit_val(s[5]) * 10 + digit_val(s[6]));
    let c = s.subrange(8, 10);
    lemma_decimal_value_bound(c);
    assert(c.drop_last() =~= s.subrange(8, 9));
    assert(s.subrange(8, 9).drop_last() =~= s.subrange(8, 8));
    let d = decimal_value(c);
    assert(decimal_value(s.subrange(8, 8)) == 0);
    assert(s.subrange(8, 9).last() == s[8]);
    assert(decimal_value(s.subrange(8, 9)) == digit_val(s[8]));
    assert(c.last() == s[9]);
    assert(d == digit_val(s[8]) * 10 + digit_val(s[9]));
    let dt = date_of_text(s);
    assert(dt.year == y && dt.month == m && dt.day == d);
    assert(y / 1000 == digit_val(s[0]) && (y / 100) % 10 == digit_val(s[1]) && (y / 10) % 10
        == digit_val(s[2]) && y % 10 == digit_val(s[3]));
    assert(m / 10 == digit_val(s[5]) && m % 10 == digit_val(s[6]));
    assert(d / 10 == digit_val(s[8]) && d % 10 == digit_val(s[9]));
    assert forall|i: int| 0 <= i < 10 && i != 4 && i != 7 implies is_digit_char(s[i]) by {
        if i < 4 {
            assert(is_digit_char(a[i]));
        } else if i < 7 {
            assert(is_digit_char(b[i - 5]));
        } else {
            assert(is_digit_char(c[i - 8]));
        }
    }
    assert forall|i: int| 0 <= i < 10 && i != 4 && i != 7 implies digit_char(
        digit_val(s[i]),
    ) == s[i] by {
        lemma_digit_char_val(s[i]);
    }
    assert(date_text(dt) =~= s.take(10));
}

} // verus!
