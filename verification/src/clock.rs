//! The local time, as it is written into the log, into file names and for the model.

use vstd::prelude::*;

use crate::number;

verus! {

/// A local date and time of day, to the millisecond.
#[derive(Clone, Copy, Debug, PartialEq, Eq, Structural)]
pub struct LocalTime {
    pub year: i32,
    pub month: u32,
    pub day: u32,
    pub hour: u32,
    pub minute: u32,
    pub second: u32,
    /// From 1000 on in a leap second, which is then the second 59.
    pub milli: u32,
}

pub open spec fn is_leap_year(year: int) -> bool {
    year % 4 == 0 && (year % 100 != 0 || year % 400 == 0)
}

pub open spec fn days_in_month(year: int, month: int) -> int {
    if month == 2 {
        if is_leap_year(year) {
            29
        } else {
            28
        }
    } else if month == 4 || month == 6 || month == 9 || month == 11 {
        30
    } else {
        31
    }
}

impl LocalTime {
    /// The date exists in the calendar, within the years that `chrono` knows, and so does
    /// the time of day.
    pub open spec fn valid(self) -> bool {
        &&& -262143 <= self.year <= 262142
        &&& 1 <= self.month <= 12
        &&& 1 <= self.day <= days_in_month(self.year as int, self.month as int)
        &&& self.hour < 24
        &&& self.minute < 60
        &&& self.second < 60
        &&& self.milli < 1000 || (self.milli < 2000 && self.second == 59)
    }

    /// The time with these parts, where there is such a time.
    pub fn new(
        year: i32,
        month: u32,
        day: u32,
        hour: u32,
        minute: u32,
        second: u32,
        milli: u32,
    ) -> (r: Option<LocalTime>)
        ensures
            ({
                let t = LocalTime { year, month, day, hour, minute, second, milli };
                r == (if t.valid() {
                    Some(t)
                } else {
                    None
                })
            }),
    {
        if year < -262143 || year > 262142 || month < 1 || month > 12 {
            return None;
        }
        let y: u32 = (year + 262400) as u32;
        assert(y % 4 == 0 <==> year as int % 4 == 0);
        assert(y % 100 == 0 <==> year as int % 100 == 0);
        assert(y % 400 == 0 <==> year as int % 400 == 0);
        let leap = y % 4 == 0 && (y % 100 != 0 || y % 400 == 0);
        let days: u32 = if month == 2 {
            if leap {
                29
            } else {
                28
            }
        } else if month == 4 || month == 6 || month == 9 || month == 11 {
            30
        } else {
            31
        };
        if day < 1 || day > days || hour >= 24 || minute >= 60 || second >= 60 {
            return None;
        }
        if milli < 1000 || (milli < 2000 && second == 59) {
            Some(LocalTime { year, month, day, hour, minute, second, milli })
        } else {
            None
        }
    }
}

/// A year, with a sign outside the years 0 to 9999.
pub open spec fn year_text(year: int) -> Seq<char> {
    if 0 <= year <= 9999 {
        number::padded(year as nat, 4)
    } else if year < 0 {
        seq!['-'] + number::padded((-year) as nat, 4)
    } else {
        seq!['+'] + number::padded(year as nat, 4)
    }
}

/// What stands for the specifier `%` followed by `c`.
pub open spec fn field_text(t: LocalTime, c: char) -> Seq<char> {
    if c == 'Y' {
        year_text(t.year as int)
    } else if c == 'm' {
        number::padded(t.month as nat, 2)
    } else if c == 'd' {
        number::padded(t.day as nat, 2)
    } else if c == 'H' {
        number::padded(t.hour as nat, 2)
    } else if c == 'M' {
        number::padded(t.minute as nat, 2)
    } else {
        number::padded((t.second + t.milli / 1000) as nat, 2)
    }
}

pub open spec fn is_field(c: char) -> bool {
    c == 'Y' || c == 'm' || c == 'd' || c == 'H' || c == 'M' || c == 'S'
}

/// The pattern holds no specifier but `%Y`, `%m`, `%d`, `%H`, `%M`, `%S` and `%3f`.
pub open spec fn is_pattern(p: Seq<char>) -> bool
    decreases p.len(),
{
    if p.len() == 0 {
        true
    } else if p[0] != '%' {
        is_pattern(p.skip(1))
    } else if p.len() >= 3 && p[1] == '3' && p[2] == 'f' {
        is_pattern(p.skip(3))
    } else {
        p.len() >= 2 && is_field(p[1]) && is_pattern(p.skip(2))
    }
}

/// A time written after a pattern: each specifier is replaced by a part of the time, in
/// decimal with leading zeros, and all else stays.
pub open spec fn formatted(t: LocalTime, p: Seq<char>) -> Seq<char>
    decreases p.len(),
{
    if p.len() == 0 {
        seq![]
    } else if p[0] != '%' {
        seq![p[0]] + formatted(t, p.skip(1))
    } else if p.len() >= 3 && p[1] == '3' && p[2] == 'f' {
        number::padded((t.milli % 1000) as nat, 3) + formatted(t, p.skip(3))
    } else if p.len() >= 2 {
        field_text(t, p[1]) + formatted(t, p.skip(2))
    } else {
        seq![]
    }
}

/// Calls `NaiveDateTime::format` of `chrono` on the date and time of day of `t`, made by
/// `NaiveDate::from_ymd_opt` and `NaiveDate::and_hms_milli_opt`, which give a value for
/// every time that is valid. Claims that each specifier is replaced as `chrono` documents
/// it: `%Y` by the year in four digits, with a sign outside the years 0 to 9999; `%m`,
/// `%d`, `%H`, `%M` and `%S` by two digits, where a leap second is the second 60; `%3f` by
/// the milliseconds in three digits.
#[verifier::external_body]
fn format_time(t: &LocalTime, pattern: &str) -> (r: String)
    requires
        t.valid(),
        is_pattern(pattern@),
    ensures
        r@ == formatted(*t, pattern@),
{
    let date = chrono::NaiveDate::from_ymd_opt(t.year, t.month, t.day).unwrap();
    let time = date.and_hms_milli_opt(t.hour, t.minute, t.second, t.milli).unwrap();
    time.format(pattern).to_string()
}

/// The time of a log entry, as in `2024-01-31 09:05:00`.
pub fn log_time(t: &LocalTime) -> (r: String)
    requires
        t.valid(),
    ensures
        r@ == formatted(*t, "%Y-%m-%d %H:%M:%S"@),
{
    proof {
        reveal_strlit("%Y-%m-%d %H:%M:%S");
        reveal_with_fuel(is_pattern, 12);
    }
    format_time(t, "%Y-%m-%d %H:%M:%S")
}

/// The time in the name of a saved attachment, as in `20240131_090500`.
pub fn file_time(t: &LocalTime) -> (r: String)
    requires
        t.valid(),
    ensures
        r@ == formatted(*t, "%Y%m%d_%H%M%S"@),
{
    proof {
        reveal_strlit("%Y%m%d_%H%M%S");
        reveal_with_fuel(is_pattern, 12);
    }
    format_time(t, "%Y%m%d_%H%M%S")
}

/// The time in the name of an image from the web form, as in `20240131_090500_042`.
pub fn web_file_time(t: &LocalTime) -> (r: String)
    requires
        t.valid(),
    ensures
        r@ == formatted(*t, "%Y%m%d_%H%M%S_%3f"@),
{
    proof {
        reveal_strlit("%Y%m%d_%H%M%S_%3f");
        reveal_with_fuel(is_pattern, 12);
    }
    format_time(t, "%Y%m%d_%H%M%S_%3f")
}

/// The time that the model is told, as in `2024年01月31日 09:05`.
pub fn chat_time(t: &LocalTime) -> (r: String)
    requires
        t.valid(),
    ensures
        r@ == formatted(*t, "%Y年%m月%d日 %H:%M"@),
{
    proof {
        reveal_strlit("%Y年%m月%d日 %H:%M");
        reveal_with_fuel(is_pattern, 12);
    }
    format_time(t, "%Y年%m月%d日 %H:%M")
}

/// The characters of a time: digits and signs, and what the pattern has besides its
/// specifiers.
pub open spec fn is_time_char(c: char, p: Seq<char>) -> bool {
    number::is_digit(c) || c == '+' || c == '-' || (c != '%' && p.contains(c))
}

proof fn lemma_padded_chars(n: nat, width: nat)
    ensures
        number::all_digits(number::padded(n, width)),
{
    number::lemma_decimal_digits(n);
    let d = number::decimal(n);
    let r = number::padded(n, width);
    assert forall|i: int| 0 <= i < r.len() implies number::is_digit(#[trigger] r[i]) by {
        if d.len() < width {
            if i >= width - d.len() {
                assert(r[i] == d[i - (width - d.len())]);
            }
        }
    }
}

/// A time holds no character but digits, signs and what its pattern has besides the
/// specifiers.
pub proof fn law_formatted_chars(t: LocalTime, p: Seq<char>)
    requires
        is_pattern(p),
    ensures
        forall|i: int|
            0 <= i < formatted(t, p).len() ==> is_time_char(#[trigger] formatted(t, p)[i], p),
    decreases p.len(),
{
    if p.len() > 0 {
        let r = formatted(t, p);
        let k: int = if p[0] != '%' {
            1
        } else if p.len() >= 3 && p[1] == '3' && p[2] == 'f' {
            3
        } else {
            2
        };
        let rest = p.skip(k);
        let tail = formatted(t, rest);
        law_formatted_chars(t, rest);
        lemma_padded_chars((t.milli % 1000) as nat, 3);
        lemma_padded_chars(t.month as nat, 2);
        lemma_padded_chars(t.day as nat, 2);
        lemma_padded_chars(t.hour as nat, 2);
        lemma_padded_chars(t.minute as nat, 2);
        lemma_padded_chars((t.second + t.milli / 1000) as nat, 2);
        lemma_padded_chars(t.year as nat, 4);
        lemma_padded_chars((-t.year) as nat, 4);
        let head = r.len() - tail.len();
        assert forall|i: int| 0 <= i < r.len() implies is_time_char(#[trigger] r[i], p) by {
            if i >= head {
                assert(r[i] == tail[i - head]);
                if rest.contains(r[i]) {
                    let j = choose|j: int| 0 <= j < rest.len() && rest[j] == r[i];
                    assert(p[j + k] == r[i]);
                }
            } else if k == 1 {
                assert(p[0] == r[i]);
            } else if k == 2 {
                assert(r[i] == field_text(t, p[1])[i]);
                if p[1] == 'Y' {
                    lemma_year_chars(t.year as int);
                }
            } else {
                assert(r[i] == number::padded((t.milli % 1000) as nat, 3)[i]);
            }
        }
    }
}

proof fn lemma_year_chars(year: int)
    ensures
        forall|i: int|
            0 <= i < year_text(year).len() ==> {
                let c = #[trigger] year_text(year)[i];
                number::is_digit(c) || c == '+' || c == '-'
            },
{
    let n: nat = if year < 0 {
        (-year) as nat
    } else {
        year as nat
    };
    lemma_padded_chars(n, 4);
    let r = year_text(year);
    assert forall|i: int| 0 <= i < r.len() implies ({
        let c = #[trigger] r[i];
        number::is_digit(c) || c == '+' || c == '-'
    }) by {
        if 0 <= year <= 9999 {
            assert(r[i] == number::padded(n, 4)[i]);
        } else if i > 0 {
            assert(r[i] == number::padded(n, 4)[i - 1]);
        }
    }
}

/// A time by itself, then the rest of the pattern.
proof fn lemma_field_first(t: LocalTime, c: char, rest: Seq<char>)
    requires
        is_field(c),
    ensures
        formatted(t, seq!['%', c] + rest) == field_text(t, c) + formatted(t, rest),
{
    assert((seq!['%', c] + rest).skip(2) =~= rest);
}

proof fn lemma_plain_first(t: LocalTime, c: char, rest: Seq<char>)
    requires
        c != '%',
    ensures
        formatted(t, seq![c] + rest) == seq![c] + formatted(t, rest),
{
    assert((seq![c] + rest).skip(1) =~= rest);
}

proof fn lemma_milli_first(t: LocalTime, rest: Seq<char>)
    ensures
        formatted(t, seq!['%', '3', 'f'] + rest) == number::padded((t.milli % 1000) as nat, 3)
            + formatted(t, rest),
{
    assert((seq!['%', '3', 'f'] + rest).skip(3) =~= rest);
}

/// The parts of a time in the name of a file.
spec fn web_file_parts(t: LocalTime) -> Seq<char> {
    year_text(t.year as int) + (field_text(t, 'm') + (field_text(t, 'd') + (seq!['_'] + (field_text(
        t,
        'H',
    ) + (field_text(t, 'M') + (field_text(t, 'S') + (seq!['_'] + number::padded(
        (t.milli % 1000) as nat,
        3,
    ))))))))
}

proof fn lemma_web_file_parts(t: LocalTime)
    ensures
        formatted(t, "%Y%m%d_%H%M%S_%3f"@) == web_file_parts(t),
{
    reveal_strlit("%Y%m%d_%H%M%S_%3f");
    let none: Seq<char> = seq![];
    let p8 = seq!['%', '3', 'f'] + none;
    let p7 = seq!['_'] + p8;
    let p6 = seq!['%', 'S'] + p7;
    let p5 = seq!['%', 'M'] + p6;
    let p4 = seq!['%', 'H'] + p5;
    let p3 = seq!['_'] + p4;
    let p2 = seq!['%', 'd'] + p3;
    let p1 = seq!['%', 'm'] + p2;
    let p0 = seq!['%', 'Y'] + p1;
    assert("%Y%m%d_%H%M%S_%3f"@ =~= p0);
    lemma_field_first(t, 'Y', p1);
    lemma_field_first(t, 'm', p2);
    lemma_field_first(t, 'd', p3);
    lemma_plain_first(t, '_', p4);
    lemma_field_first(t, 'H', p5);
    lemma_field_first(t, 'M', p6);
    lemma_field_first(t, 'S', p7);
    lemma_plain_first(t, '_', p8);
    lemma_milli_first(t, none);
    let milli = number::padded((t.milli % 1000) as nat, 3);
    assert(milli + formatted(t, none) =~= milli);
}

/// Two times that are written in the same way in the name of a file are the same.
pub proof fn law_web_file_times_differ(a: LocalTime, b: LocalTime)
    requires
        a.valid(),
        b.valid(),
        formatted(a, "%Y%m%d_%H%M%S_%3f"@) == formatted(b, "%Y%m%d_%H%M%S_%3f"@),
    ensures
        a == b,
{
    lemma_web_file_parts(a);
    lemma_web_file_parts(b);
    let fa = web_file_parts(a);
    let fb = web_file_parts(b);
    lemma_part_sizes(a);
    lemma_part_sizes(b);
    let y = year_text(a.year as int).len() as int;
    assert(y == year_text(b.year as int).len());
    assert(fa.subrange(0, y) =~= year_text(a.year as int));
    assert(fb.subrange(0, y) =~= year_text(b.year as int));
    lemma_year_text(a.year as int);
    lemma_year_text(b.year as int);
    assert(fa.subrange(y, y + 2) =~= field_text(a, 'm'));
    assert(fb.subrange(y, y + 2) =~= field_text(b, 'm'));
    assert(fa.subrange(y + 2, y + 4) =~= field_text(a, 'd'));
    assert(fb.subrange(y + 2, y + 4) =~= field_text(b, 'd'));
    assert(fa.subrange(y + 5, y + 7) =~= field_text(a, 'H'));
    assert(fb.subrange(y + 5, y + 7) =~= field_text(b, 'H'));
    assert(fa.subrange(y + 7, y + 9) =~= field_text(a, 'M'));
    assert(fb.subrange(y + 7, y + 9) =~= field_text(b, 'M'));
    assert(fa.subrange(y + 9, y + 11) =~= field_text(a, 'S'));
    assert(fb.subrange(y + 9, y + 11) =~= field_text(b, 'S'));
    assert(fa.subrange(y + 12, y + 15) =~= number::padded((a.milli % 1000) as nat, 3));
    assert(fb.subrange(y + 12, y + 15) =~= number::padded((b.milli % 1000) as nat, 3));
}

/// A year can be told from how it is written.
proof fn lemma_year_text(year: int)
    ensures
        ({
            let s = year_text(year);
            &&& s.len() > 0
            &&& 0 <= year <= 9999 ==> number::is_digit(s[0]) && number::digits_value(s) == year
            &&& year < 0 ==> s[0] == '-' && number::digits_value(s.skip(1)) == -year
            &&& year > 9999 ==> s[0] == '+' && number::digits_value(s.skip(1)) == year
        }),
{
    let n: nat = if year < 0 {
        (-year) as nat
    } else {
        year as nat
    };
    let digits = number::padded(n, 4);
    lemma_padded_chars(n, 4);
    number::lemma_padded(n, 4);
    number::lemma_decimal_digits(n);
    let s = year_text(year);
    if 0 <= year <= 9999 {
        assert(number::is_digit(digits[0]));
    } else {
        assert(s.skip(1) =~= digits);
    }
}

proof fn lemma_part_sizes(t: LocalTime)
    requires
        t.valid(),
    ensures
        field_text(t, 'm').len() == 2,
        number::digits_value(field_text(t, 'm')) == t.month,
        field_text(t, 'd').len() == 2,
        number::digits_value(field_text(t, 'd')) == t.day,
        field_text(t, 'H').len() == 2,
        number::digits_value(field_text(t, 'H')) == t.hour,
        field_text(t, 'M').len() == 2,
        number::digits_value(field_text(t, 'M')) == t.minute,
        field_text(t, 'S').len() == 2,
        number::digits_value(field_text(t, 'S')) == t.second + t.milli / 1000,
        number::padded((t.milli % 1000) as nat, 3).len() == 3,
        number::digits_value(number::padded((t.milli % 1000) as nat, 3)) == t.milli % 1000,
        web_file_parts(t).len() == year_text(t.year as int).len() + 15,
{
    number::lemma_padded(t.month as nat, 2);
    number::lemma_padded(t.day as nat, 2);
    number::lemma_padded(t.hour as nat, 2);
    number::lemma_padded(t.minute as nat, 2);
    number::lemma_padded((t.second + t.milli / 1000) as nat, 2);
    number::lemma_padded((t.milli % 1000) as nat, 3);
}

/// How a time in the name of a file ends: with an underscore and three digits, and four
/// places in front of the underscore stands a digit.
pub proof fn lemma_web_file_time_end(t: LocalTime)
    requires
        t.valid(),
    ensures
        ({
            let f = formatted(t, "%Y%m%d_%H%M%S_%3f"@);
            let n = f.len() as int;
            &&& n > 8
            &&& f[n - 4] == '_'
            &&& number::is_digit(f[n - 3])
            &&& number::is_digit(f[n - 2])
            &&& number::is_digit(f[n - 1])
            &&& number::is_digit(f[n - 8])
        }),
{
    lemma_web_file_parts(t);
    lemma_part_sizes(t);
    let f = web_file_parts(t);
    let y = year_text(t.year as int).len() as int;
    let minute = field_text(t, 'M');
    let milli = number::padded((t.milli % 1000) as nat, 3);
    lemma_padded_chars(t.minute as nat, 2);
    lemma_padded_chars((t.milli % 1000) as nat, 3);
    assert(f[y + 7] == minute[0]);
    assert(f[y + 12] == milli[0]);
    assert(f[y + 13] == milli[1]);
    assert(f[y + 14] == milli[2]);
}

/// How a year is written: in four digits at least, with a sign outside the years 0 to 9999.
pub proof fn law_year_text(year: int)
    ensures
        0 <= year <= 9999 ==> year_text(year) == number::padded(year as nat, 4),
        year > 9999 ==> year_text(year) == seq!['+'] + number::padded(year as nat, 4),
        year < 0 ==> year_text(year) == seq!['-'] + number::padded((-year) as nat, 4),
{
}

/// How a time is written in the log, in the names of files and in a question: its parts from
/// the year down, in two digits but for the year and the milliseconds, with what stands
/// between them.
pub proof fn law_times_are_written(t: LocalTime)
    ensures
        ({
            let y = year_text(t.year as int);
            let mo = number::padded(t.month as nat, 2);
            let d = number::padded(t.day as nat, 2);
            let h = number::padded(t.hour as nat, 2);
            let mi = number::padded(t.minute as nat, 2);
            let s = number::padded((t.second + t.milli / 1000) as nat, 2);
            let ms = number::padded((t.milli % 1000) as nat, 3);
            &&& formatted(t, "%Y-%m-%d %H:%M:%S"@) == y + (seq!['-'] + (mo + (seq!['-'] + (d
            + (seq![' '] + (h + (seq![':'] + (mi + (seq![':'] + s)))))))))
            &&& formatted(t, "%Y%m%d_%H%M%S"@) == y + (mo + (d + (seq!['_'] + (h + (mi
            + s)))))
            &&& formatted(t, "%Y%m%d_%H%M%S_%3f"@) == y + (mo + (d + (seq!['_'] + (h + (mi
            + (s + (seq!['_'] + ms)))))))
            &&& formatted(t, "%Y年%m月%d日 %H:%M"@) == y + (seq!['年'] + (mo + (seq!['月'] + (d
            + (seq!['日'] + (seq![' '] + (h + (seq![':'] + mi))))))))
        }),
{
    lemma_log_parts(t);
    lemma_file_parts(t);
    lemma_chat_parts(t);
    lemma_web_file_parts(t);
}

proof fn lemma_log_parts(t: LocalTime)
    ensures
        formatted(t, "%Y-%m-%d %H:%M:%S"@) == year_text(t.year as int) + (seq!['-']
            + (field_text(t, 'm') + (seq!['-'] + (field_text(t, 'd') + (seq![' ']
            + (field_text(t, 'H') + (seq![':'] + (field_text(t, 'M') + (seq![':']
            + field_text(t, 'S')))))))))),
{
    reveal_strlit("%Y-%m-%d %H:%M:%S");
    let none: Seq<char> = seq![];
    let p10 = seq!['%', 'S'] + none;
    let p9 = seq![':'] + p10;
    let p8 = seq!['%', 'M'] + p9;
    let p7 = seq![':'] + p8;
    let p6 = seq!['%', 'H'] + p7;
    let p5 = seq![' '] + p6;
    let p4 = seq!['%', 'd'] + p5;
    let p3 = seq!['-'] + p4;
    let p2 = seq!['%', 'm'] + p3;
    let p1 = seq!['-'] + p2;
    let p0 = seq!['%', 'Y'] + p1;
    assert("%Y-%m-%d %H:%M:%S"@ =~= p0);
    lemma_field_first(t, 'S', none);
    lemma_plain_first(t, ':', p10);
    lemma_field_first(t, 'M', p9);
    lemma_plain_first(t, ':', p8);
    lemma_field_first(t, 'H', p7);
    lemma_plain_first(t, ' ', p6);
    lemma_field_first(t, 'd', p5);
    lemma_plain_first(t, '-', p4);
    lemma_field_first(t, 'm', p3);
    lemma_plain_first(t, '-', p2);
    lemma_field_first(t, 'Y', p1);
    assert(field_text(t, 'S') + formatted(t, none) =~= field_text(t, 'S'));
}

proof fn lemma_file_parts(t: LocalTime)
    ensures
        formatted(t, "%Y%m%d_%H%M%S"@) == year_text(t.year as int) + (field_text(t, 'm')
            + (field_text(t, 'd') + (seq!['_'] + (field_text(t, 'H') + (field_text(t, 'M')
            + field_text(t, 'S')))))),
{
    reveal_strlit("%Y%m%d_%H%M%S");
    let none: Seq<char> = seq![];
    let p6 = seq!['%', 'S'] + none;
    let p5 = seq!['%', 'M'] + p6;
    let p4 = seq!['%', 'H'] + p5;
    let p3 = seq!['_'] + p4;
    let p2 = seq!['%', 'd'] + p3;
    let p1 = seq!['%', 'm'] + p2;
    let p0 = seq!['%', 'Y'] + p1;
    assert("%Y%m%d_%H%M%S"@ =~= p0);
    lemma_field_first(t, 'S', none);
    lemma_field_first(t, 'M', p6);
    lemma_field_first(t, 'H', p5);
    lemma_plain_first(t, '_', p4);
    lemma_field_first(t, 'd', p3);
    lemma_field_first(t, 'm', p2);
    lemma_field_first(t, 'Y', p1);
    assert(field_text(t, 'S') + formatted(t, none) =~= field_text(t, 'S'));
}

proof fn lemma_chat_parts(t: LocalTime)
    ensures
        formatted(t, "%Y年%m月%d日 %H:%M"@) == year_text(t.year as int) + (seq!['年']
            + (field_text(t, 'm') + (seq!['月'] + (field_text(t, 'd') + (seq!['日']
            + (seq![' '] + (field_text(t, 'H') + (seq![':'] + field_text(t, 'M'))))))))),
{
    reveal_strlit("%Y年%m月%d日 %H:%M");
    let none: Seq<char> = seq![];
    let p9 = seq!['%', 'M'] + none;
    let p8 = seq![':'] + p9;
    let p7 = seq!['%', 'H'] + p8;
    let p6 = seq![' '] + p7;
    let p5 = seq!['日'] + p6;
    let p4 = seq!['%', 'd'] + p5;
    let p3 = seq!['月'] + p4;
    let p2 = seq!['%', 'm'] + p3;
    let p1 = seq!['年'] + p2;
    let p0 = seq!['%', 'Y'] + p1;
    assert("%Y年%m月%d日 %H:%M"@ =~= p0);
    lemma_field_first(t, 'M', none);
    lemma_plain_first(t, ':', p9);
    lemma_field_first(t, 'H', p8);
    lemma_plain_first(t, ' ', p7);
    lemma_plain_first(t, '日', p6);
    lemma_field_first(t, 'd', p5);
    lemma_plain_first(t, '月', p4);
    lemma_field_first(t, 'm', p3);
    lemma_plain_first(t, '年', p2);
    lemma_field_first(t, 'Y', p1);
    assert(field_text(t, 'M') + formatted(t, none) =~= field_text(t, 'M'));
}

/// Which times there are: those of the calendar, in the years that are known, from midnight to
/// the last second of a day, which may be a leap second at the end of a minute.
pub proof fn law_calendar(t: LocalTime)
    ensures
        is_leap_year(t.year as int) <==> (t.year as int % 4 == 0 && t.year as int % 100 != 0)
            || t.year as int % 400 == 0,
        t.valid() <==> {
            &&& -262143 <= t.year <= 262142
            &&& 1 <= t.month <= 12
            &&& 1 <= t.day <= 31
            &&& t.month == 4 || t.month == 6 || t.month == 9 || t.month == 11 ==> t.day <= 30
            &&& t.month == 2 ==> t.day <= 29
            &&& t.month == 2 && t.day == 29 ==> is_leap_year(t.year as int)
            &&& t.hour <= 23
            &&& t.minute <= 59
            &&& t.second <= 59
            &&& t.milli <= 999 || (t.milli <= 1999 && t.second == 59)
        },
{
}

}
