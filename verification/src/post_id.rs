//! The identity of a post: a timestamp with second precision whose canonical
//! textual form, `YYYY-MM-DD_HH-MM-SS`, is both the externally visible
//! identifier and the on-disk filename stem. Parsing and formatting round-trip
//! exactly, and the canonical form orders lexicographically exactly as the
//! timestamps order chronologically.

use vstd::prelude::*;

use crate::text::lex_lt;
use crate::text::lemma_lex_lt_append;
use crate::text::lemma_lex_lt_common_prefix;

verus! {

/// A post identity: a calendar timestamp, truncated to seconds.
#[derive(Clone, Copy, Debug, PartialEq, Eq, Structural)]
pub struct PostId {
    pub year: u16,
    pub month: u8,
    pub day: u8,
    pub hour: u8,
    pub minute: u8,
    pub second: u8,
}

/// Leap years according to the proleptic Gregorian calendar.
pub open spec fn is_leap_year(y: int) -> bool {
    y % 4 == 0 && (y % 100 != 0 || y % 400 == 0)
}

/// Number of days of month `m` of year `y`.
pub open spec fn days_in_month(y: int, m: int) -> int {
    if m == 2 {
        if is_leap_year(y) {
            29
        } else {
            28
        }
    } else if m == 4 || m == 6 || m == 9 || m == 11 {
        30
    } else {
        31
    }
}

impl PostId {
    /// A well-formed identity: a real calendar date, with the year small
    /// enough for the fixed-width canonical form.
    pub open spec fn wf(self) -> bool {
        &&& self.year <= 9999
        &&& 1 <= self.month <= 12
        &&& 1 <= self.day <= days_in_month(self.year as int, self.month as int)
        &&& self.hour < 24
        &&& self.minute < 60
        &&& self.second < 60
    }
}

/// The character for one decimal digit.
pub open spec fn digit_char(d: int) -> char {
    if d == 0 {
        '0'
    } else if d == 1 {
        '1'
    } else if d == 2 {
        '2'
    } else if d == 3 {
        '3'
    } else if d == 4 {
        '4'
    } else if d == 5 {
        '5'
    } else if d == 6 {
        '6'
    } else if d == 7 {
        '7'
    } else if d == 8 {
        '8'
    } else {
        '9'
    }
}

/// The value of a decimal digit character; 10 marks a non-digit.
pub open spec fn digit_val(c: char) -> int {
    if c == '0' {
        0
    } else if c == '1' {
        1
    } else if c == '2' {
        2
    } else if c == '3' {
        3
    } else if c == '4' {
        4
    } else if c == '5' {
        5
    } else if c == '6' {
        6
    } else if c == '7' {
        7
    } else if c == '8' {
        8
    } else if c == '9' {
        9
    } else {
        10
    }
}

pub open spec fn is_digit(c: char) -> bool {
    digit_val(c) < 10
}

/// A number below 100 as two digits.
pub open spec fn pad2(n: int) -> Seq<char> {
    seq![digit_char(n / 10), digit_char(n % 10)]
}

/// A number below 10000 as four digits.
pub open spec fn pad4(n: int) -> Seq<char> {
    seq![
        digit_char(n / 1000),
        digit_char((n % 1000) / 100),
        digit_char((n % 1000) % 100 / 10),
        digit_char((n % 1000) % 100 % 10),
    ]
}

/// The canonical textual form of an identity.
pub open spec fn canon_of(id: PostId) -> Seq<char> {
    pad4(id.year as int) + seq!['-'] + pad2(id.month as int) + seq!['-'] + pad2(id.day as int)
        + seq!['_'] + pad2(id.hour as int) + seq!['-'] + pad2(id.minute as int) + seq!['-'] + pad2(
        id.second as int,
    )
}

/// Whether six field values form a well-formed identity.
pub open spec fn parts_valid(y: int, mo: int, d: int, h: int, mi: int, s: int) -> bool {
    &&& 0 <= y <= 9999
    &&& 1 <= mo <= 12
    &&& 1 <= d <= days_in_month(y, mo)
    &&& 0 <= h < 24
    &&& 0 <= mi < 60
    &&& 0 <= s < 60
}

/// What parsing a candidate identity yields: the identity whose canonical
/// form is `s`, or nothing when `s` is not such a form.
pub open spec fn parse_canon(s: Seq<char>) -> Option<PostId> {
    if s.len() == 19 && is_digit(s[0]) && is_digit(s[1]) && is_digit(s[2]) && is_digit(s[3]) && s[4]
        == '-' && is_digit(s[5]) && is_digit(s[6]) && s[7] == '-' && is_digit(s[8]) && is_digit(
        s[9],
    ) && s[10] == '_' && is_digit(s[11]) && is_digit(s[12]) && s[13] == '-' && is_digit(s[14])
        && is_digit(s[15]) && s[16] == '-' && is_digit(s[17]) && is_digit(s[18]) {
        let y = 1000 * digit_val(s[0]) + 100 * digit_val(s[1]) + 10 * digit_val(s[2]) + digit_val(
            s[3],
        );
        let mo = 10 * digit_val(s[5]) + digit_val(s[6]);
        let d = 10 * digit_val(s[8]) + digit_val(s[9]);
        let h = 10 * digit_val(s[11]) + digit_val(s[12]);
        let mi = 10 * digit_val(s[14]) + digit_val(s[15]);
        let sec = 10 * digit_val(s[17]) + digit_val(s[18]);
        if parts_valid(y, mo, d, h, mi, sec) {
            Some(
                PostId {
                    year: y as u16,
                    month: mo as u8,
                    day: d as u8,
                    hour: h as u8,
                    minute: mi as u8,
                    second: sec as u8,
                },
            )
        } else {
            None
        }
    } else {
        None
    }
}

/// Chronological order on identities.
pub open spec fn chron_lt(a: PostId, b: PostId) -> bool {
    if a.year != b.year {
        a.year < b.year
    } else if a.month != b.month {
        a.month < b.month
    } else if a.day != b.day {
        a.day < b.day
    } else if a.hour != b.hour {
        a.hour < b.hour
    } else if a.minute != b.minute {
        a.minute < b.minute
    } else {
        a.second < b.second
    }
}

/// The string for one decimal digit.
fn digit_str(d: u8) -> (r: &'static str)
    requires
        d < 10,
    ensures
        r@ == seq![digit_char(d as int)],
{
    proof {
        reveal_strlit("0");
        reveal_strlit("1");
        reveal_strlit("2");
        reveal_strlit("3");
        reveal_strlit("4");
        reveal_strlit("5");
        reveal_strlit("6");
        reveal_strlit("7");
        reveal_strlit("8");
        reveal_strlit("9");
    }
    if d == 0 {
        "0"
    } else if d == 1 {
        "1"
    } else if d == 2 {
        "2"
    } else if d == 3 {
        "3"
    } else if d == 4 {
        "4"
    } else if d == 5 {
        "5"
    } else if d == 6 {
        "6"
    } else if d == 7 {
        "7"
    } else if d == 8 {
        "8"
    } else {
        "9"
    }
}

/// Appends a number below 100 as two digits.
fn push_pad2(out: &mut String, n: u8)
    requires
        n < 100,
    ensures
        final(out)@ == old(out)@ + pad2(n as int),
{
    let ghost start = out@;
    out.append(digit_str(n / 10));
    out.append(digit_str(n % 10));
    proof {
        assert(final(out)@ =~= start + pad2(n as int));
    }
}

/// Appends a number below 10000 as four digits.
fn push_pad4(out: &mut String, n: u16)
    requires
        n < 10000,
    ensures
        final(out)@ == old(out)@ + pad4(n as int),
{
    let ghost start = out@;
    out.append(digit_str((n / 1000) as u8));
    let r3 = n % 1000;
    out.append(digit_str((r3 / 100) as u8));
    let r2 = r3 % 100;
    out.append(digit_str((r2 / 10) as u8));
    out.append(digit_str((r2 % 10) as u8));
    proof {
        assert(final(out)@ =~= start + pad4(n as int));
    }
}

impl PostId {
    /// The canonical string `YYYY-MM-DD_HH-MM-SS` of this identity.
    pub fn canonical_string(&self) -> (r: String)
        requires
            self.wf(),
        ensures
            r@ == canon_of(*self),
    {
        let mut out = String::new();
        push_pad4(&mut out, self.year);
        out.append("-");
        push_pad2(&mut out, self.month);
        out.append("-");
        push_pad2(&mut out, self.day);
        out.append("_");
        push_pad2(&mut out, self.hour);
        out.append("-");
        push_pad2(&mut out, self.minute);
        out.append("-");
        push_pad2(&mut out, self.second);
        proof {
            reveal_strlit("-");
            reveal_strlit("_");
            assert("-"@ =~= seq!['-']);
            assert("_"@ =~= seq!['_']);
            assert(out@ =~= canon_of(*self));
        }
        out
    }

    /// Builds a well-formed identity from raw field values, rejecting any
    /// combination that is not a real calendar timestamp.
    pub fn from_parts(year: i32, month: u32, day: u32, hour: u32, minute: u32, second: u32) -> (r:
        Option<PostId>)
        ensures
            parts_valid(
                year as int,
                month as int,
                day as int,
                hour as int,
                minute as int,
                second as int,
            ) <==> r is Some,
            r is Some ==> {
                let id = r->Some_0;
                &&& id.wf()
                &&& id.year == year
                &&& id.month == month
                &&& id.day == day
                &&& id.hour == hour
                &&& id.minute == minute
                &&& id.second == second
            },
    {
        if 0 <= year && year <= 9999 && 1 <= month && month <= 12 && hour < 24 && minute < 60
            && second < 60 && 1 <= day && day <= days_in_month_exec(year as u16, month as u8) as u32 {
            Some(
                PostId {
                    year: year as u16,
                    month: month as u8,
                    day: day as u8,
                    hour: hour as u8,
                    minute: minute as u8,
                    second: second as u8,
                },
            )
        } else {
            None
        }
    }
}

/// Number of days of a month, executably.
pub fn days_in_month_exec(year: u16, month: u8) -> (r: u8)
    ensures
        r as int == days_in_month(year as int, month as int),
{
    if month == 2 {
        if year % 4 == 0 && (year % 100 != 0 || year % 400 == 0) {
            29
        } else {
            28
        }
    } else if month == 4 || month == 6 || month == 9 || month == 11 {
        30
    } else {
        31
    }
}

/// The value of one decimal digit character; 10 marks a non-digit.
fn digit_val_char(c: char) -> (r: u8)
    ensures
        r as int == digit_val(c),
{
    if c == '0' {
        0
    } else if c == '1' {
        1
    } else if c == '2' {
        2
    } else if c == '3' {
        3
    } else if c == '4' {
        4
    } else if c == '5' {
        5
    } else if c == '6' {
        6
    } else if c == '7' {
        7
    } else if c == '8' {
        8
    } else if c == '9' {
        9
    } else {
        10
    }
}

/// Parses a candidate identity in the canonical form, rejecting anything
/// else: wrong length, wrong separators, non-digits, or field values that do
/// not form a real calendar timestamp.
pub fn parse_post_id(s: &str) -> (r: Option<PostId>)
    ensures
        r == parse_canon(s@),
{
    if s.unicode_len() != 19 {
        return None;
    }
    let d0 = digit_val_char(s.get_char(0));
    let d1 = digit_val_char(s.get_char(1));
    let d2 = digit_val_char(s.get_char(2));
    let d3 = digit_val_char(s.get_char(3));
    let d5 = digit_val_char(s.get_char(5));
    let d6 = digit_val_char(s.get_char(6));
    let d8 = digit_val_char(s.get_char(8));
    let d9 = digit_val_char(s.get_char(9));
    let d11 = digit_val_char(s.get_char(11));
    let d12 = digit_val_char(s.get_char(12));
    let d14 = digit_val_char(s.get_char(14));
    let d15 = digit_val_char(s.get_char(15));
    let d17 = digit_val_char(s.get_char(17));
    let d18 = digit_val_char(s.get_char(18));
    if d0 == 10 || d1 == 10 || d2 == 10 || d3 == 10 || d5 == 10 || d6 == 10 || d8 == 10 || d9 == 10
        || d11 == 10 || d12 == 10 || d14 == 10 || d15 == 10 || d17 == 10 || d18 == 10 {
        return None;
    }
    if s.get_char(4) != '-' || s.get_char(7) != '-' || s.get_char(10) != '_' || s.get_char(13)
        != '-' || s.get_char(16) != '-' {
        return None;
    }
    let y: u16 = 1000 * (d0 as u16) + 100 * (d1 as u16) + 10 * (d2 as u16) + (d3 as u16);
    let mo: u8 = 10 * d5 + d6;
    let d: u8 = 10 * d8 + d9;
    let h: u8 = 10 * d11 + d12;
    let mi: u8 = 10 * d14 + d15;
    let sec: u8 = 10 * d17 + d18;
    if 1 <= mo && mo <= 12 && 1 <= d && d <= days_in_month_exec(y, mo) && h < 24 && mi < 60 && sec
        < 60 {
        Some(PostId { year: y, month: mo, day: d, hour: h, minute: mi, second: sec })
    } else {
        None
    }
}

} // verus!

verus! {

use vstd::arithmetic::div_mod::lemma_div_is_ordered;

/// Formatting a digit and reading it back is the identity.
proof fn lemma_digit_char_val(d: int)
    requires
        0 <= d < 10,
    ensures
        is_digit(digit_char(d)),
        digit_val(digit_char(d)) == d,
{
}

/// Reading a digit character and formatting it back is the identity.
proof fn lemma_digit_val_char(c: char)
    requires
        is_digit(c),
    ensures
        digit_char(digit_val(c)) == c,
{
}

/// Digit characters order as the digits they denote.
proof fn lemma_digit_char_lt(x: int, y: int)
    requires
        0 <= x < y < 10,
    ensures
        digit_char(x) != digit_char(y),
        (digit_char(x) as u32) < (digit_char(y) as u32),
{
}

/// Two-digit renderings order as the numbers they denote.
proof fn lemma_pad2_order(m: int, n: int)
    requires
        0 <= m < n < 100,
    ensures
        lex_lt(pad2(m), pad2(n)),
        pad2(m).len() == 2,
        pad2(n).len() == 2,
{
    lemma_div_is_ordered(m, n, 10);
    if m / 10 == n / 10 {
        assert(m % 10 < n % 10);
        lemma_digit_char_lt(m % 10, n % 10);
        assert(lex_lt(seq![digit_char(m % 10)], seq![digit_char(n % 10)]));
        assert(pad2(m).drop_first() =~= seq![digit_char(m % 10)]);
        assert(pad2(n).drop_first() =~= seq![digit_char(n % 10)]);
        assert(lex_lt(pad2(m), pad2(n)));
    } else {
        lemma_digit_char_lt(m / 10, n / 10);
        assert(pad2(m)[0] == digit_char(m / 10));
        assert(pad2(n)[0] == digit_char(n / 10));
        assert(lex_lt(pad2(m), pad2(n)));
    }
}

/// Four-digit renderings order as the numbers they denote.
proof fn lemma_pad4_order(m: int, n: int)
    requires
        0 <= m < n < 10000,
    ensures
        lex_lt(pad4(m), pad4(n)),
        pad4(m).len() == 4,
        pad4(n).len() == 4,
{
    lemma_div_is_ordered(m, n, 1000);
    let mr = m % 1000;
    let nr = n % 1000;
    let m3 = seq![digit_char(mr / 100), digit_char(mr % 100 / 10), digit_char(mr % 100 % 10)];
    let n3 = seq![digit_char(nr / 100), digit_char(nr % 100 / 10), digit_char(nr % 100 % 10)];
    if m / 1000 == n / 1000 {
        assert(mr < nr);
        lemma_div_is_ordered(mr, nr, 100);
        if mr / 100 == nr / 100 {
            assert(mr % 100 < nr % 100);
            lemma_pad2_order(mr % 100, nr % 100);
            assert(m3.drop_first() =~= pad2(mr % 100));
            assert(n3.drop_first() =~= pad2(nr % 100));
            assert(lex_lt(m3, n3));
        } else {
            lemma_digit_char_lt(mr / 100, nr / 100);
            assert(lex_lt(m3, n3));
        }
        assert(pad4(m).drop_first() =~= m3);
        assert(pad4(n).drop_first() =~= n3);
        assert(lex_lt(pad4(m), pad4(n)));
    } else {
        lemma_digit_char_lt(m / 1000, n / 1000);
        assert(pad4(m)[0] == digit_char(m / 1000));
        assert(pad4(n)[0] == digit_char(n / 1000));
        assert(lex_lt(pad4(m), pad4(n)));
    }
}


/// THE ORDER LAW of the identity format: canonical strings order
/// lexicographically exactly as chronological order on the identities,
/// which is what lets the index sort filenames instead of timestamps.
pub proof fn lemma_canon_preserves_order(a: PostId, b: PostId)
    requires
        a.wf(),
        b.wf(),
        chron_lt(a, b),
    ensures
        lex_lt(canon_of(a), canon_of(b)),
{
    let ra5 = pad2(a.second as int);
    let rb5 = pad2(b.second as int);
    let ra4 = pad2(a.minute as int) + seq!['-'] + ra5;
    let rb4 = pad2(b.minute as int) + seq!['-'] + rb5;
    let ra3 = pad2(a.hour as int) + seq!['-'] + ra4;
    let rb3 = pad2(b.hour as int) + seq!['-'] + rb4;
    let ra2 = pad2(a.day as int) + seq!['_'] + ra3;
    let rb2 = pad2(b.day as int) + seq!['_'] + rb3;
    let ra1 = pad2(a.month as int) + seq!['-'] + ra2;
    let rb1 = pad2(b.month as int) + seq!['-'] + rb2;
    if a.year != b.year {
        lemma_pad4_order(a.year as int, b.year as int);
        lemma_lex_lt_append(
            pad4(a.year as int),
            pad4(b.year as int),
            seq!['-'] + ra1,
            seq!['-'] + rb1,
        );
        assert(canon_of(a) =~= pad4(a.year as int) + (seq!['-'] + ra1));
        assert(canon_of(b) =~= pad4(b.year as int) + (seq!['-'] + rb1));
    } else {
        let p1 = pad4(a.year as int) + seq!['-'];
        assert(canon_of(a) =~= p1 + ra1);
        assert(canon_of(b) =~= p1 + rb1);
        lemma_lex_lt_common_prefix(p1, ra1, rb1);
        if a.month != b.month {
            lemma_pad2_order(a.month as int, b.month as int);
            lemma_lex_lt_append(
                pad2(a.month as int),
                pad2(b.month as int),
                seq!['-'] + ra2,
                seq!['-'] + rb2,
            );
            assert(ra1 =~= pad2(a.month as int) + (seq!['-'] + ra2));
            assert(rb1 =~= pad2(b.month as int) + (seq!['-'] + rb2));
        } else {
            let p2 = pad2(a.month as int) + seq!['-'];
            assert(ra1 =~= p2 + ra2);
            assert(rb1 =~= p2 + rb2);
            lemma_lex_lt_common_prefix(p2, ra2, rb2);
            if a.day != b.day {
                lemma_pad2_order(a.day as int, b.day as int);
                lemma_lex_lt_append(
                    pad2(a.day as int),
                    pad2(b.day as int),
                    seq!['_'] + ra3,
                    seq!['_'] + rb3,
                );
                assert(ra2 =~= pad2(a.day as int) + (seq!['_'] + ra3));
                assert(rb2 =~= pad2(b.day as int) + (seq!['_'] + rb3));
            } else {
                let p3 = pad2(a.day as int) + seq!['_'];
                assert(ra2 =~= p3 + ra3);
                assert(rb2 =~= p3 + rb3);
                lemma_lex_lt_common_prefix(p3, ra3, rb3);
                if a.hour != b.hour {
                    lemma_pad2_order(a.hour as int, b.hour as int);
                    lemma_lex_lt_append(
                        pad2(a.hour as int),
                        pad2(b.hour as int),
                        seq!['-'] + ra4,
                        seq!['-'] + rb4,
                    );
                    assert(ra3 =~= pad2(a.hour as int) + (seq!['-'] + ra4));
                    assert(rb3 =~= pad2(b.hour as int) + (seq!['-'] + rb4));
                } else {
                    let p4 = pad2(a.hour as int) + seq!['-'];
                    assert(ra3 =~= p4 + ra4);
                    assert(rb3 =~= p4 + rb4);
                    lemma_lex_lt_common_prefix(p4, ra4, rb4);
                    if a.minute != b.minute {
                        lemma_pad2_order(a.minute as int, b.minute as int);
                        lemma_lex_lt_append(
                            pad2(a.minute as int),
                            pad2(b.minute as int),
                            seq!['-'] + ra5,
                            seq!['-'] + rb5,
                        );
                        assert(ra4 =~= pad2(a.minute as int) + (seq!['-'] + ra5));
                        assert(rb4 =~= pad2(b.minute as int) + (seq!['-'] + rb5));
                    } else {
                        let p5 = pad2(a.minute as int) + seq!['-'];
                        assert(ra4 =~= p5 + ra5);
                        assert(rb4 =~= p5 + rb5);
                        lemma_lex_lt_common_prefix(p5, ra5, rb5);
                        lemma_pad2_order(a.second as int, b.second as int);
                    }
                }
            }
        }
    }
}


/// THE ROUND-TRIP LAW, first direction: parsing the canonical form of a
/// well-formed identity gives that identity back.
pub proof fn lemma_parse_of_canon(id: PostId)
    requires
        id.wf(),
    ensures
        parse_canon(canon_of(id)) == Some(id),
{
    let y = id.year as int;
    let mo = id.month as int;
    let d = id.day as int;
    let h = id.hour as int;
    let mi = id.minute as int;
    let sec = id.second as int;
    let s = canon_of(id);
    assert(s =~= seq![
        digit_char(y / 1000),
        digit_char((y % 1000) / 100),
        digit_char((y % 1000) % 100 / 10),
        digit_char((y % 1000) % 100 % 10),
        '-',
        digit_char(mo / 10),
        digit_char(mo % 10),
        '-',
        digit_char(d / 10),
        digit_char(d % 10),
        '_',
        digit_char(h / 10),
        digit_char(h % 10),
        '-',
        digit_char(mi / 10),
        digit_char(mi % 10),
        '-',
        digit_char(sec / 10),
        digit_char(sec % 10),
    ]);
    lemma_digit_char_val(y / 1000);
    lemma_digit_char_val((y % 1000) / 100);
    lemma_digit_char_val((y % 1000) % 100 / 10);
    lemma_digit_char_val((y % 1000) % 100 % 10);
    lemma_digit_char_val(mo / 10);
    lemma_digit_char_val(mo % 10);
    lemma_digit_char_val(d / 10);
    lemma_digit_char_val(d % 10);
    lemma_digit_char_val(h / 10);
    lemma_digit_char_val(h % 10);
    lemma_digit_char_val(mi / 10);
    lemma_digit_char_val(mi % 10);
    lemma_digit_char_val(sec / 10);
    lemma_digit_char_val(sec % 10);
    assert(1000 * (y / 1000) + 100 * ((y % 1000) / 100) + 10 * ((y % 1000) % 100 / 10) + (y % 1000)
        % 100 % 10 == y);
    assert(10 * (mo / 10) + mo % 10 == mo);
    assert(10 * (d / 10) + d % 10 == d);
    assert(10 * (h / 10) + h % 10 == h);
    assert(10 * (mi / 10) + mi % 10 == mi);
    assert(10 * (sec / 10) + sec % 10 == sec);
    assert(parse_canon(s) == Some(id));
}

/// THE ROUND-TRIP LAW, second direction: a string that parses is exactly the
/// canonical form of the identity it parses to, which is well-formed.
pub proof fn lemma_canon_of_parse(s: Seq<char>)
    requires
        parse_canon(s) is Some,
    ensures
        parse_canon(s)->Some_0.wf(),
        canon_of(parse_canon(s)->Some_0) == s,
{
    let id = parse_canon(s)->Some_0;
    let v0 = digit_val(s[0]);
    let v1 = digit_val(s[1]);
    let v2 = digit_val(s[2]);
    let v3 = digit_val(s[3]);
    let y = 1000 * v0 + 100 * v1 + 10 * v2 + v3;
    assert(y / 1000 == v0 && (y % 1000) / 100 == v1 && (y % 1000) % 100 / 10 == v2 && (y % 1000)
        % 100 % 10 == v3) by {
        assert(y % 1000 == 100 * v1 + 10 * v2 + v3);
        assert((100 * v1 + 10 * v2 + v3) % 100 == 10 * v2 + v3);
        assert((10 * v2 + v3) / 10 == v2);
        assert((10 * v2 + v3) % 10 == v3);
    }
    lemma_digit_val_char(s[0]);
    lemma_digit_val_char(s[1]);
    lemma_digit_val_char(s[2]);
    lemma_digit_val_char(s[3]);
    lemma_digit_val_char(s[5]);
    lemma_digit_val_char(s[6]);
    lemma_digit_val_char(s[8]);
    lemma_digit_val_char(s[9]);
    lemma_digit_val_char(s[11]);
    lemma_digit_val_char(s[12]);
    lemma_digit_val_char(s[14]);
    lemma_digit_val_char(s[15]);
    lemma_digit_val_char(s[17]);
    lemma_digit_val_char(s[18]);
    let mo = 10 * digit_val(s[5]) + digit_val(s[6]);
    let d = 10 * digit_val(s[8]) + digit_val(s[9]);
    let h = 10 * digit_val(s[11]) + digit_val(s[12]);
    let mi = 10 * digit_val(s[14]) + digit_val(s[15]);
    let sec = 10 * digit_val(s[17]) + digit_val(s[18]);
    assert(mo / 10 == digit_val(s[5]) && mo % 10 == digit_val(s[6]));
    assert(d / 10 == digit_val(s[8]) && d % 10 == digit_val(s[9]));
    assert(h / 10 == digit_val(s[11]) && h % 10 == digit_val(s[12]));
    assert(mi / 10 == digit_val(s[14]) && mi % 10 == digit_val(s[15]));
    assert(sec / 10 == digit_val(s[17]) && sec % 10 == digit_val(s[18]));
    assert(canon_of(id) =~= s);
}

} // verus!
