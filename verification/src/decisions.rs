//! The decision log's two computed pieces: the time a line is written at
//! (`utc`) and the mark that stands for a text it does not keep (`fnv64`).
use vstd::prelude::*;

use crate::text::{digits, padded, push_char, push_padded};

verus! {

/// Seconds in a day.
pub const DAY: u64 = 86_400;

/// Days from 0000-03-01 to 1970-01-01 in the proleptic Gregorian calendar.
pub const EPOCH_SHIFT: u64 = 719_468;

/// Days in a 400-year era.
pub const ERA_DAYS: u64 = 146_097;

/// The civil date of a day count since 1970-01-01, as Howard Hinnant's
/// `civil_from_days` computes it: `(year, month, day)`.
pub open spec fn civil_from_days(days: nat) -> (nat, nat, nat) {
    let z = days + 719_468;
    let era = z / 146_097;
    let doe = (z - era * 146_097) as nat;
    let yoe = ((doe - doe / 1460 + doe / 36_524 - doe / 146_096) / 365) as nat;
    let doy = (doe - (365 * yoe + yoe / 4 - yoe / 100)) as nat;
    let mp = (5 * doy + 2) / 153;
    let d = (doy - (153 * mp + 2) / 5 + 1) as nat;
    let m = if mp < 10 { mp + 3 } else { (mp - 9) as nat };
    let y = yoe + era * 400 + if m <= 2 { 1nat } else { 0nat };
    (y, m, d)
}

/// `YYYY-MM-DDTHH:MM:SSZ` for a UNIX time.
pub open spec fn utc_text(secs: nat) -> Seq<char> {
    let (y, m, d) = civil_from_days(secs / 86_400);
    let rem = secs % 86_400;
    padded(y, 10, 4) + seq!['-'] + padded(m, 10, 2) + seq!['-'] + padded(d, 10, 2) + seq!['T']
        + padded(rem / 3600, 10, 2) + seq![':'] + padded(rem % 3600 / 60, 10, 2) + seq![':']
        + padded(rem % 60, 10, 2) + seq!['Z']
}

/// A UTC time as `YYYY-MM-DDTHH:MM:SSZ` (days to a civil date, Howard
/// Hinnant's algorithm).
pub fn utc(secs: u64) -> (out: String)
    ensures
        out@ == utc_text(secs as nat),
{
    let days = secs / DAY;
    let rem = secs % DAY;
    let z = days + EPOCH_SHIFT;
    let era = z / ERA_DAYS;
    let doe = z - era * ERA_DAYS;
    assert(doe < 146_097) by (nonlinear_arith)
        requires
            era == z / 146_097,
            doe == z - era * 146_097,
    ;
    let yoe = (doe - doe / 1460 + doe / 36_524 - doe / 146_096) / 365;
    assert(yoe <= 399);
    let doy = doe - (365 * yoe + yoe / 4 - yoe / 100);
    let mp = (5 * doy + 2) / 153;
    let d = doy - (153 * mp + 2) / 5 + 1;
    let m = if mp < 10 {
        mp + 3
    } else {
        mp - 9
    };
    let y = yoe + era * 400 + if m <= 2 {
        1
    } else {
        0
    };
    let mut out = String::new();
    push_padded(&mut out, y as u128, 10, 4);
    push_char(&mut out, '-');
    push_padded(&mut out, m as u128, 10, 2);
    push_char(&mut out, '-');
    push_padded(&mut out, d as u128, 10, 2);
    push_char(&mut out, 'T');
    push_padded(&mut out, (rem / 3600) as u128, 10, 2);
    push_char(&mut out, ':');
    push_padded(&mut out, (rem % 3600 / 60) as u128, 10, 2);
    push_char(&mut out, ':');
    push_padded(&mut out, (rem % 60) as u128, 10, 2);
    push_char(&mut out, 'Z');
    assert(out@ =~= utc_text(secs as nat));
    out
}

/// FNV-1a's offset basis and prime, 64 bits.
pub const FNV_OFFSET: u64 = 0xcbf2_9ce4_8422_2325;

/// FNV-1a's 64-bit prime.
pub const FNV_PRIME: u64 = 0x0100_0000_01b3;

/// One byte into an FNV-1a state.
pub open spec fn fnv_step(h: u64, b: u8) -> u64 {
    (h ^ (b as u64)).wrapping_mul(FNV_PRIME)
}

/// The FNV-1a 64 state after `bytes`.
pub open spec fn fnv_state(bytes: Seq<u8>) -> u64
    decreases bytes.len(),
{
    if bytes.len() == 0 {
        FNV_OFFSET
    } else {
        fnv_step(fnv_state(bytes.drop_last()), bytes.last())
    }
}

/// FNV-1a, 64 bits, as 16 hex digits: the same text always gives the same
/// mark, across runs and builds, which is all a log needs to say "the same
/// state as before" without keeping it.
pub fn fnv64(bytes: &[u8]) -> (out: String)
    ensures
        out@ == padded(fnv_state(bytes@) as nat, 16, 16),
{
    let mut h: u64 = FNV_OFFSET;
    let n = bytes.len();
    for i in 0..n
        invariant
            n == bytes@.len(),
            h == fnv_state(bytes@.take(i as int)),
    {
        assert(bytes@.take(i + 1).drop_last() =~= bytes@.take(i as int));
        h = (h ^ (bytes[i] as u64)).wrapping_mul(FNV_PRIME);
    }
    assert(bytes@.take(n as int) =~= bytes@);
    let mut out = String::new();
    push_padded(&mut out, h as u128, 16, 16);
    assert(out@ =~= padded(h as nat, 16, 16));
    out
}

/// The mark of a text: its FNV-1a 64 state as 16 hex digits.
pub open spec fn mark_of(bytes: Seq<u8>) -> Seq<char> {
    padded(fnv_state(bytes) as nat, 16, 16)
}

/// What a log line keeps of one question in place of its text: its id,
/// its `type` (as the JSON text it was sent as, when it has one), and the
/// mark of the whole question.
#[derive(Debug, Clone)]
pub struct QuestionMark {
    pub id: String,
    pub kind: Option<String>,
    pub fnv64: String,
}

/// What a log line keeps of a request in place of its text: the state's
/// mark and length, and each question's marks, in order.
#[derive(Debug, Clone)]
pub struct Marks {
    pub state_fnv64: String,
    pub state_chars: usize,
    pub questions: Vec<QuestionMark>,
}

/// The marks a log line keeps of a request, by default: the mark of the
/// state's JSON and the number of characters of the state (of its text
/// when it is a string, else of its JSON), and for each question (`id`,
/// `type`, JSON) its id, its type and the mark of its JSON. Nothing else
/// of what was sent is kept.
pub fn marks(
    state_json: &[u8],
    state_text: &str,
    questions: &Vec<(String, Option<String>, Vec<u8>)>,
) -> (m: Marks)
    ensures
        m.state_fnv64@ == mark_of(state_json@),
        m.state_chars == state_text@.len(),
        m.questions@.len() == questions@.len(),
        forall|i: int|
            0 <= i < questions@.len() ==> {
                &&& (#[trigger] m.questions@[i]).id@ == questions@[i].0@
                &&& crate::site::option_text(m.questions@[i].kind) == crate::site::option_text(
                    questions@[i].1,
                )
                &&& m.questions@[i].fnv64@ == mark_of(questions@[i].2@)
            },
{
    let mut qs: Vec<QuestionMark> = Vec::new();
    let n = questions.len();
    for i in 0..n
        invariant
            n == questions@.len(),
            qs@.len() == i,
            forall|j: int|
                0 <= j < i ==> {
                    &&& (#[trigger] qs@[j]).id@ == questions@[j].0@
                    &&& crate::site::option_text(qs@[j].kind) == crate::site::option_text(
                        questions@[j].1,
                    )
                    &&& qs@[j].fnv64@ == mark_of(questions@[j].2@)
                },
    {
        let q = &questions[i];
        let kind = match &q.1 {
            Some(k) => Some(crate::text::owned(k.as_str())),
            None => None,
        };
        qs.push(
            QuestionMark { id: crate::text::owned(q.0.as_str()), kind, fnv64: fnv64(q.2.as_slice()) },
        );
    }
    Marks { state_fnv64: fnv64(state_json), state_chars: state_text.unicode_len(), questions: qs }
}

/// Whether `c` is a lowercase hexadecimal digit.
pub open spec fn is_hex(c: char) -> bool {
    ('0' <= c && c <= '9') || ('a' <= c && c <= 'f')
}

/// A mark is always sixteen lowercase hexadecimal digits, whatever the
/// text: a log line's marks all have one shape.
pub proof fn lemma_mark_is_sixteen_hex_digits(bytes: Seq<u8>)
    ensures
        padded(fnv_state(bytes) as nat, 16, 16).len() == 16,
        forall|i: int| 0 <= i < 16 ==> is_hex(#[trigger] padded(fnv_state(bytes) as nat, 16, 16)[i]),
{
    let h = fnv_state(bytes) as nat;
    reveal_with_fuel(crate::text::radix_pow, 17);
    assert(crate::text::radix_pow(16, 16) == 0x1_0000_0000_0000_0000nat);
    crate::text::lemma_digits_len_below(h, 16, 16);
    crate::text::lemma_digits_chars(h, 16);
    let d = digits(h, 16);
    let p = padded(h, 16, 16);
    assert forall|i: int| 0 <= i < 16 implies is_hex(#[trigger] p[i]) by {
        if d.len() < 16 && i < 16 - d.len() {
            assert(p[i] == '0');
        } else {
            let k = if d.len() < 16 {
                i - (16 - d.len())
            } else {
                i
            };
            assert(p[i] == d[k]);
            let dd = choose|dd: nat| dd < 16 && d[k] == crate::text::digit_char(dd);
            assert(is_hex(crate::text::digit_char(dd)));
        }
    }
}

} // verus!
verus! {

/// A civil date as one number that orders as the dates do.
pub open spec fn date_key(days: nat) -> int {
    let (y, m, d) = civil_from_days(days);
    (y * 10000 + m * 100 + d) as int
}

/// The year of an era's day (from March 1 of its first year).
pub open spec fn era_year(doe: int) -> int {
    (doe - doe / 1460 + doe / 36_524 - doe / 146_096) / 365
}

/// A day of an era as a number ordering as the dates do: its year
/// (counted from the era's first, January and February in the year they
/// start), month and day.
pub open spec fn era_key(doe: int) -> int {
    let yoe = era_year(doe);
    let doy = doe - year_start(yoe);
    let mp = month_of(doy);
    let d = mday_of(doy);
    if mp < 10 {
        yoe * 10000 + (mp + 3) * 100 + d
    } else {
        (yoe + 1) * 10000 + (mp - 9) * 100 + d
    }
}

/// The first day of year `y` of an era, counted from the era's start.
pub open spec fn year_start(y: int) -> int {
    365 * y + y / 4 - y / 100 + y / 400
}

#[verifier::rlimit(50)]
proof fn lemma_era_year(doe: int)
    requires
        0 <= doe < 146_097,
    ensures
        0 <= era_year(doe) <= 399,
        year_start(era_year(doe)) <= doe < year_start(era_year(doe) + 1),
{
    let a = doe / 1460;
    let b = doe / 36_524;
    let c = doe / 146_096;
    let y = (doe - a + b - c) / 365;
    assert(y == era_year(doe));
    let y4 = y / 4;
    let y100 = y / 100;
    assert(y < 400) by (nonlinear_arith)
        requires
            0 <= doe < 146_097,
            1460 * a <= doe < 1460 * a + 1460,
            36_524 * b <= doe < 36_524 * b + 36_524,
            146_096 * c <= doe < 146_096 * c + 146_096,
            365 * y <= doe - a + b - c < 365 * y + 365,
    ;
    assert(year_start(y) <= doe) by (nonlinear_arith)
        requires
            0 <= doe < 146_097,
            1460 * a <= doe < 1460 * a + 1460,
            36_524 * b <= doe < 36_524 * b + 36_524,
            146_096 * c <= doe < 146_096 * c + 146_096,
            365 * y <= doe - a + b - c < 365 * y + 365,
            4 * y4 <= y < 4 * y4 + 4,
            100 * y100 <= y < 100 * y100 + 100,
            year_start(y) == 365 * y + y4 - y100,
            y < 400,
    ;
    let z4 = (y + 1) / 4;
    let z100 = (y + 1) / 100;
    assert(0 <= y <= 399 && doe < year_start(y + 1)) by (nonlinear_arith)
        requires
            0 <= doe < 146_097,
            1460 * a <= doe < 1460 * a + 1460,
            36_524 * b <= doe < 36_524 * b + 36_524,
            146_096 * c <= doe < 146_096 * c + 146_096,
            365 * y <= doe - a + b - c < 365 * y + 365,
            4 * z4 <= y + 1 < 4 * z4 + 4,
            100 * z100 <= y + 1 < 100 * z100 + 100,
            year_start(y + 1) == 365 * (y + 1) + z4 - z100 + (y + 1) / 400,
            (y + 1) / 400 == if y + 1 == 400 { 1int } else { 0int },
    ;
}

/// Later years start later.
proof fn lemma_year_start_grows(a: int, b: int)
    requires
        0 <= a < b,
    ensures
        year_start(a) < year_start(b),
{
    let (a4, a100, a400) = (a / 4, a / 100, a / 400);
    let (b4, b100, b400) = (b / 4, b / 100, b / 400);
    assert(year_start(a) < year_start(b)) by (nonlinear_arith)
        requires
            0 <= a < b,
            4 * a4 <= a < 4 * a4 + 4,
            100 * a100 <= a < 100 * a100 + 100,
            400 * a400 <= a < 400 * a400 + 400,
            4 * b4 <= b < 4 * b4 + 4,
            100 * b100 <= b < 100 * b100 + 100,
            400 * b400 <= b < 400 * b400 + 400,
            year_start(a) == 365 * a + a4 - a100 + a400,
            year_start(b) == 365 * b + b4 - b100 + b400,
    ;
}

/// A day's month (counted from March) and day of month, from its day of
/// the year (counted from March 1).
pub open spec fn month_of(doy: int) -> int {
    (5 * doy + 2) / 153
}

pub open spec fn mday_of(doy: int) -> int {
    doy - (153 * month_of(doy) + 2) / 5 + 1
}

/// Within a year's days, the month and day: in range, March 1 first, the
/// last days in the year's last month, and each day after the one before.
#[verifier::rlimit(50)]
proof fn lemma_month_day(doy: int)
    requires
        0 <= doy <= 365,
    ensures
        0 <= month_of(doy) <= 11,
        1 <= mday_of(doy) <= 31,
        doy == 0 ==> month_of(doy) == 0 && mday_of(doy) == 1,
        doy >= 364 ==> month_of(doy) == 11 && mday_of(doy) <= 29,
        doy < 365 ==> month_of(doy) * 100 + mday_of(doy) < month_of(doy + 1) * 100 + mday_of(
            doy + 1,
        ),
{
    let mp = (5 * doy + 2) / 153;
    let q = (153 * mp + 2) / 5;
    let mp1 = (5 * doy + 7) / 153;
    let q1 = (153 * mp1 + 2) / 5;
    assert(month_of(doy + 1) == mp1);
    assert(0 <= mp <= 11 && 1 <= doy - q + 1 <= 31 && (doy >= 364 ==> mp == 11 && doy - q + 1 <= 29)
        && (doy < 365 ==> mp * 100 + (doy - q + 1) < mp1 * 100 + (doy + 1 - q1 + 1))) by (nonlinear_arith)
        requires
            0 <= doy <= 365,
            153 * mp <= 5 * doy + 2 < 153 * mp + 153,
            5 * q <= 153 * mp + 2 < 5 * q + 5,
            153 * mp1 <= 5 * doy + 7 < 153 * mp1 + 153,
            5 * q1 <= 153 * mp1 + 2 < 5 * q1 + 5,
    ;
}

/// A year has 365 or 366 days.
proof fn lemma_year_length(y: int)
    requires
        0 <= y,
    ensures
        365 <= year_start(y + 1) - year_start(y) <= 366,
{
    let (a4, a100, a400) = (y / 4, y / 100, y / 400);
    let (b4, b100, b400) = ((y + 1) / 4, (y + 1) / 100, (y + 1) / 400);
    assert(365 <= year_start(y + 1) - year_start(y) <= 366) by (nonlinear_arith)
        requires
            0 <= y,
            4 * a4 <= y < 4 * a4 + 4,
            100 * a100 <= y < 100 * a100 + 100,
            400 * a400 <= y < 400 * a400 + 400,
            4 * b4 <= y + 1 < 4 * b4 + 4,
            100 * b100 <= y + 1 < 100 * b100 + 100,
            400 * b400 <= y + 1 < 400 * b400 + 400,
            year_start(y) == 365 * y + a4 - a100 + a400,
            year_start(y + 1) == 365 * (y + 1) + b4 - b100 + b400,
    ;
}

/// An era's day and its date: the day of the year in range, and the key
/// below the next era's first.
proof fn lemma_era_day(doe: int)
    requires
        0 <= doe < 146_097,
    ensures
        0 <= doe - year_start(era_year(doe)) <= 365,
        era_key(doe) <= 4_000_231,
        era_key(doe) >= 301,
{
    lemma_era_year(doe);
    let y = era_year(doe);
    lemma_year_length(y);
    lemma_month_day(doe - year_start(y));
}

/// Each day of an era has a later date than the one before.
proof fn lemma_era_step(doe: int)
    requires
        0 <= doe < 146_096,
    ensures
        era_key(doe) < era_key(doe + 1),
{
    lemma_era_year(doe);
    lemma_era_year(doe + 1);
    let y = era_year(doe);
    let y1 = era_year(doe + 1);
    lemma_year_length(y);
    if y1 < y {
        if y1 + 1 < y {
            lemma_year_start_grows(y1 + 1, y);
        }
        assert(false);
    }
    if y1 > y + 1 {
        lemma_year_start_grows(y + 1, y1);
        assert(false);
    }
    let doy = doe - year_start(y);
    lemma_month_day(doy);
    if y1 == y {
        assert(doe + 1 - year_start(y1) == doy + 1);
        lemma_month_day(doy + 1);
    } else {
        assert(doe + 1 == year_start(y + 1));
        assert(doe + 1 - year_start(y1) == 0);
        lemma_month_day(0);
        assert(doy >= 364);
    }
}

/// The date of a day count, through its era and its day in the era.
proof fn lemma_date_key(days: nat)
    ensures
        ({
            let z = days + 719_468;
            let era = z / 146_097;
            let doe = z - era * 146_097;
            &&& 0 <= doe < 146_097
            &&& date_key(days) == era * 4_000_000 + era_key(doe)
        }),
        1 <= civil_from_days(days).1 <= 12,
        1 <= civil_from_days(days).2 <= 31,
{
    let z = days + 719_468;
    let era = z / 146_097;
    let doe = z - era * 146_097;
    assert(0 <= doe < 146_097) by (nonlinear_arith)
        requires
            era == z / 146_097,
            doe == z - era * 146_097,
            z >= 0,
    ;
    lemma_era_year(doe);
    lemma_era_day(doe);
    let yoe = era_year(doe);
    assert(yoe / 400 == 0);
    let doy = doe - year_start(yoe);
    lemma_month_day(doy);
}

/// A later day has a later date.
pub proof fn lemma_next_day_later(days: nat)
    ensures
        date_key(days) < date_key(days + 1),
{
    lemma_date_key(days);
    lemma_date_key(days + 1);
    let z = days + 719_468;
    let era = z / 146_097;
    let doe = z - era * 146_097;
    let era1 = (z + 1) / 146_097;
    let doe1 = z + 1 - era1 * 146_097;
    if doe < 146_096 {
        assert(era1 == era && doe1 == doe + 1) by (nonlinear_arith)
            requires
                era1 == (z + 1) / 146_097,
                doe1 == z + 1 - era1 * 146_097,
                0 <= doe < 146_096,
                doe == z - era * 146_097,
                0 <= doe1 < 146_097,
        ;
        lemma_era_step(doe);
    } else {
        assert(era1 == era + 1 && doe1 == 0) by (nonlinear_arith)
            requires
                era1 == (z + 1) / 146_097,
                doe1 == z + 1 - era1 * 146_097,
                doe == 146_096,
                doe == z - era * 146_097,
                0 <= doe1 < 146_097,
        ;
        lemma_era_day(doe);
        lemma_era_day(0);
    }
}

/// Whether `s` comes before `t` in character order (`str`'s order, on
/// these ASCII texts): at the first place they differ, `s` has the
/// smaller character.
pub open spec fn text_before(s: Seq<char>, t: Seq<char>) -> bool {
    exists|i: int|
        0 <= i < s.len() && i < t.len() && s.take(i) == t.take(i) && #[trigger] s[i] < t[i]
}

/// Every character a decimal digit.
pub open spec fn digit_text(s: Seq<char>) -> bool {
    forall|i: int| 0 <= i < s.len() ==> crate::text::is_digit(#[trigger] s[i])
}

/// Digit texts of one length with one value are one text.
proof fn lemma_same_value_same_text(s: Seq<char>, t: Seq<char>)
    requires
        s.len() == t.len(),
        digit_text(s),
        digit_text(t),
        crate::text::digits_value(s) == crate::text::digits_value(t),
    ensures
        s == t,
    decreases s.len(),
{
    if s.len() > 0 {
        let (s1, t1) = (s.drop_last(), t.drop_last());
        assert(crate::text::is_digit(s[s.len() - 1]));
        assert(crate::text::is_digit(t[t.len() - 1]));
        let (a, b) = (crate::text::digits_value(s1), crate::text::digits_value(t1));
        let (c, e) = ((s.last() as int) - 48, (t.last() as int) - 48);
        assert(a == b && c == e) by (nonlinear_arith)
            requires
                a * 10 + c == b * 10 + e,
                0 <= c < 10,
                0 <= e < 10,
                a >= 0,
                b >= 0,
        ;
        assert(digit_text(s1)) by {
            assert forall|i: int| 0 <= i < s1.len() implies crate::text::is_digit(#[trigger] s1[i]) by {
                assert(s1[i] == s[i]);
            }
        }
        assert(digit_text(t1)) by {
            assert forall|i: int| 0 <= i < t1.len() implies crate::text::is_digit(#[trigger] t1[i]) by {
                assert(t1[i] == t[i]);
            }
        }
        lemma_same_value_same_text(s1, t1);
        assert(s =~= t1.push(t.last()));
    }
}

/// Digit texts of one length order as their values do.
proof fn lemma_digits_order(s: Seq<char>, t: Seq<char>)
    requires
        s.len() == t.len(),
        digit_text(s),
        digit_text(t),
        crate::text::digits_value(s) < crate::text::digits_value(t),
    ensures
        text_before(s, t),
    decreases s.len(),
{
    let (s1, t1) = (s.drop_last(), t.drop_last());
    assert(crate::text::is_digit(s[s.len() - 1]));
    assert(crate::text::is_digit(t[t.len() - 1]));
    let (a, b) = (crate::text::digits_value(s1), crate::text::digits_value(t1));
    let (c, e) = ((s.last() as int) - 48, (t.last() as int) - 48);
    assert(digit_text(s1)) by {
        assert forall|i: int| 0 <= i < s1.len() implies crate::text::is_digit(#[trigger] s1[i]) by {
            assert(s1[i] == s[i]);
        }
    }
    assert(digit_text(t1)) by {
        assert forall|i: int| 0 <= i < t1.len() implies crate::text::is_digit(#[trigger] t1[i]) by {
            assert(t1[i] == t[i]);
        }
    }
    assert(a <= b) by (nonlinear_arith)
        requires
            a * 10 + c < b * 10 + e,
            0 <= c < 10,
            0 <= e < 10,
            a >= 0,
            b >= 0,
    ;
    if a < b {
        lemma_digits_order(s1, t1);
        let i = choose|i: int|
            0 <= i < s1.len() && i < t1.len() && s1.take(i) == t1.take(i) && #[trigger] s1[i] < t1[i];
        assert(s.take(i) =~= s1.take(i));
        assert(t.take(i) =~= t1.take(i));
        assert(s[i] == s1[i] && t[i] == t1[i]);
    } else {
        lemma_same_value_same_text(s1, t1);
        let i = s.len() - 1;
        assert(s.take(i) =~= s1);
        assert(t.take(i) =~= t1);
        assert(s[i] < t[i]);
    }
}

/// A number below `10^w`, padded to `w` digits: `w` decimal digits
/// whose value it is.
proof fn lemma_padded_shape(n: nat, w: nat)
    requires
        1 <= w,
        n < crate::text::radix_pow(10, w),
    ensures
        padded(n, 10, w).len() == w,
        digit_text(padded(n, 10, w)),
        crate::text::digits_value(padded(n, 10, w)) == n,
{
    crate::text::lemma_digits_len_below(n, 10, w);
    crate::text::lemma_digits_chars(n, 10);
    crate::text::lemma_padded_value_of(n, w);
    let d = digits(n, 10);
    let p = padded(n, 10, w);
    assert forall|i: int| 0 <= i < p.len() implies crate::text::is_digit(#[trigger] p[i]) by {
        if i < w - d.len() {
            assert(p[i] == '0');
        } else {
            let k = i - (w - d.len());
            assert(p[i] == d[k]);
            let dd = choose|dd: nat| dd < 10 && d[k] == crate::text::digit_char(dd);
        }
    }
}

/// Padded numbers of one width order as the numbers do.
pub proof fn lemma_padded_order(x: nat, y: nat, w: nat)
    requires
        1 <= w,
        x < y < crate::text::radix_pow(10, w),
    ensures
        text_before(padded(x, 10, w), padded(y, 10, w)),
{
    lemma_padded_shape(x, w);
    lemma_padded_shape(y, w);
    lemma_digits_order(padded(x, 10, w), padded(y, 10, w));
}

/// A text before another stays before it whatever follows each, when the
/// two are of one length.
proof fn lemma_before_then(a1: Seq<char>, b1: Seq<char>, a2: Seq<char>, b2: Seq<char>)
    requires
        a1.len() == b1.len(),
        text_before(a1, b1),
    ensures
        text_before(a1 + a2, b1 + b2),
{
    let i = choose|i: int|
        0 <= i < a1.len() && i < b1.len() && a1.take(i) == b1.take(i) && #[trigger] a1[i] < b1[i];
    assert((a1 + a2).take(i) =~= a1.take(i));
    assert((b1 + b2).take(i) =~= b1.take(i));
    assert((a1 + a2)[i] == a1[i] && (b1 + b2)[i] == b1[i]);
}

/// One text before another stays before it behind one same text.
proof fn lemma_same_then(a: Seq<char>, x: Seq<char>, y: Seq<char>)
    requires
        text_before(x, y),
    ensures
        text_before(a + x, a + y),
{
    let i = choose|i: int|
        0 <= i < x.len() && i < y.len() && x.take(i) == y.take(i) && #[trigger] x[i] < y[i];
    let j = a.len() + i;
    assert((a + x).take(j) =~= a + x.take(i));
    assert((a + y).take(j) =~= a + y.take(i));
    assert((a + x)[j] == x[i] && (a + y)[j] == y[i]);
}

/// A time written out: year, month, day, hour, minute and second.
pub open spec fn stamp_text(y: nat, m: nat, d: nat, h: nat, mi: nat, s: nat) -> Seq<char> {
    padded(y, 10, 4) + seq!['-'] + padded(m, 10, 2) + seq!['-'] + padded(d, 10, 2) + seq!['T']
        + padded(h, 10, 2) + seq![':'] + padded(mi, 10, 2) + seq![':'] + padded(s, 10, 2) + seq![
        'Z',
    ]
}

/// Stamps whose parts come in order are written in that order.
#[verifier::rlimit(50)]
proof fn lemma_stamp_order(p: (nat, nat, nat, nat, nat, nat), q: (nat, nat, nat, nat, nat, nat))
    requires
        p.0 < 10000 && q.0 < 10000,
        p.1 < 100 && q.1 < 100 && p.2 < 100 && q.2 < 100,
        p.3 < 100 && q.3 < 100 && p.4 < 100 && q.4 < 100 && p.5 < 100 && q.5 < 100,
        p.0 < q.0 || (p.0 == q.0 && (p.1 < q.1 || (p.1 == q.1 && (p.2 < q.2 || (p.2 == q.2 && (
        p.3 < q.3 || (p.3 == q.3 && (p.4 < q.4 || (p.4 == q.4 && p.5 < q.5))))))))),
    ensures
        text_before(stamp_text(p.0, p.1, p.2, p.3, p.4, p.5), stamp_text(q.0, q.1, q.2, q.3, q.4, q.5)),
{
    reveal_with_fuel(crate::text::radix_pow, 5);
    assert(crate::text::radix_pow(10, 4) == 10000);
    assert(crate::text::radix_pow(10, 2) == 100);
    lemma_padded_shape(p.0, 4);
    lemma_padded_shape(q.0, 4);
    let (y, m, d, h, mi, s) = p;
    let (y2, m2, d2, h2, mi2, s2) = q;
    let w = |n: nat| padded(n, 10, 2);
    let dash = seq!['-'];
    let colon = seq![':'];
    let tt = seq!['T'];
    let zz = seq!['Z'];
    let a = stamp_text(y, m, d, h, mi, s);
    let b = stamp_text(y2, m2, d2, h2, mi2, s2);
    let ry = |m: nat, d: nat, h: nat, mi: nat, s: nat| dash + w(m) + dash + w(d) + tt + w(h) + colon + w(mi) + colon + w(s) + zz;
    if y < y2 {
        lemma_padded_order(y, y2, 4);
        assert(a =~= padded(y, 10, 4) + ry(m, d, h, mi, s));
        assert(b =~= padded(y2, 10, 4) + ry(m2, d2, h2, mi2, s2));
        lemma_before_then(padded(y, 10, 4), padded(y2, 10, 4), ry(m, d, h, mi, s), ry(m2, d2, h2, mi2, s2));
        return;
    }
    let py = padded(y, 10, 4) + dash;
    lemma_padded_shape(m, 2);
    lemma_padded_shape(m2, 2);
    let rm = |d: nat, h: nat, mi: nat, s: nat| dash + w(d) + tt + w(h) + colon + w(mi) + colon + w(s) + zz;
    if m < m2 {
        lemma_padded_order(m, m2, 2);
        lemma_same_then(py, w(m), w(m2));
        assert(a =~= (py + w(m)) + rm(d, h, mi, s));
        assert(b =~= (py + w(m2)) + rm(d2, h2, mi2, s2));
        lemma_before_then(py + w(m), py + w(m2), rm(d, h, mi, s), rm(d2, h2, mi2, s2));
        return;
    }
    let pm = py + w(m) + dash;
    lemma_padded_shape(d, 2);
    lemma_padded_shape(d2, 2);
    let rd = |h: nat, mi: nat, s: nat| tt + w(h) + colon + w(mi) + colon + w(s) + zz;
    if d < d2 {
        lemma_padded_order(d, d2, 2);
        lemma_same_then(pm, w(d), w(d2));
        assert(a =~= (pm + w(d)) + rd(h, mi, s));
        assert(b =~= (pm + w(d2)) + rd(h2, mi2, s2));
        lemma_before_then(pm + w(d), pm + w(d2), rd(h, mi, s), rd(h2, mi2, s2));
        return;
    }
    let pd = pm + w(d) + tt;
    lemma_padded_shape(h, 2);
    lemma_padded_shape(h2, 2);
    let rh = |mi: nat, s: nat| colon + w(mi) + colon + w(s) + zz;
    if h < h2 {
        lemma_padded_order(h, h2, 2);
        lemma_same_then(pd, w(h), w(h2));
        assert(a =~= (pd + w(h)) + rh(mi, s));
        assert(b =~= (pd + w(h2)) + rh(mi2, s2));
        lemma_before_then(pd + w(h), pd + w(h2), rh(mi, s), rh(mi2, s2));
        return;
    }
    let ph = pd + w(h) + colon;
    lemma_padded_shape(mi, 2);
    lemma_padded_shape(mi2, 2);
    let rmi = |s: nat| colon + w(s) + zz;
    if mi < mi2 {
        lemma_padded_order(mi, mi2, 2);
        lemma_same_then(ph, w(mi), w(mi2));
        assert(a =~= (ph + w(mi)) + rmi(s));
        assert(b =~= (ph + w(mi2)) + rmi(s2));
        lemma_before_then(ph + w(mi), ph + w(mi2), rmi(s), rmi(s2));
        return;
    }
    let pmi = ph + w(mi) + colon;
    lemma_padded_shape(s, 2);
    lemma_padded_shape(s2, 2);
    lemma_padded_order(s, s2, 2);
    lemma_same_then(pmi, w(s), w(s2));
    assert(a =~= (pmi + w(s)) + zz);
    assert(b =~= (pmi + w(s2)) + zz);
    lemma_before_then(pmi + w(s), pmi + w(s2), zz, zz);
}

/// Later days have later dates.
proof fn lemma_later_date(d1: nat, d2: nat)
    requires
        d1 < d2,
    ensures
        date_key(d1) < date_key(d2),
    decreases d2 - d1,
{
    lemma_next_day_later(d1);
    if d1 + 1 < d2 {
        lemma_later_date(d1 + 1, d2);
    }
}

/// Times are written in the order they come: of two times before the year
/// 10000 (`253402300800` is 10000-01-01T00:00:00Z), the earlier one's text
/// comes first in character order, so the log's times sort as they
/// happened.
pub proof fn lemma_utc_order(a: nat, b: nat)
    requires
        a < b < 253_402_300_800,
    ensures
        text_before(utc_text(a), utc_text(b)),
{
    let (da, db) = (a / 86_400, b / 86_400);
    let (ra, rb) = (a % 86_400, b % 86_400);
    assert(da <= db && db <= 2_932_896 && (da == db ==> ra < rb)) by (nonlinear_arith)
        requires
            a < b < 253_402_300_800,
            da == a / 86_400,
            db == b / 86_400,
            ra == a % 86_400,
            rb == b % 86_400,
    ;
    assert(date_key(2_932_896) == 99_991_231);
    if db < 2_932_896 {
        lemma_later_date(db, 2_932_896);
    }
    if da < db {
        lemma_later_date(da, db);
    }
    if da < 2_932_896 {
        lemma_later_date(da, 2_932_896);
    }
    lemma_date_key(da);
    lemma_date_key(db);
    let (y, m, d) = civil_from_days(da);
    let (y2, m2, d2) = civil_from_days(db);
    assert(y < 10000 && y2 < 10000);
    assert(da < db ==> (y < y2 || (y == y2 && (m < m2 || (m == m2 && d < d2))))) by (nonlinear_arith)
        requires
            da < db ==> y * 10000 + m * 100 + d < y2 * 10000 + m2 * 100 + d2,
            1 <= m <= 12,
            1 <= d <= 31,
            1 <= m2 <= 12,
            1 <= d2 <= 31,
    ;
    let (h, mi, s) = (ra / 3600, ra % 3600 / 60, ra % 60);
    let (h2, mi2, s2) = (rb / 3600, rb % 3600 / 60, rb % 60);
    assert(h < 24 && h2 < 24 && mi < 60 && mi2 < 60 && s < 60 && s2 < 60 && (ra < rb ==> (h < h2
        || (h == h2 && (mi < mi2 || (mi == mi2 && s < s2)))))) by (nonlinear_arith)
        requires
            ra < 86_400,
            rb < 86_400,
            h == ra / 3600,
            mi == ra % 3600 / 60,
            s == ra % 60,
            h2 == rb / 3600,
            mi2 == rb % 3600 / 60,
            s2 == rb % 60,
    ;
    assert(da == db ==> y == y2 && m == m2 && d == d2);
    assert(utc_text(a) == stamp_text(y, m, d, h, mi, s));
    assert(utc_text(b) == stamp_text(y2, m2, d2, h2, mi2, s2));
    lemma_stamp_order((y, m, d, h, mi, s), (y2, m2, d2, h2, mi2, s2));
}

} // verus!
