//! Instants in UTC as text: calendar dates and sortable time stamps.

use crate::text::{digit, fixed_decimal};
use vstd::prelude::*;

verus! {

/// The pattern of a calendar date.
pub const DATE_PATTERN: &'static str = "%Y-%m-%d";

/// The pattern of a time stamp: space-separated, with microseconds.
pub const STAMP_PATTERN: &'static str = "%Y-%m-%d %H:%M:%S%.6f";

// ---- the calendar -------------------------------------------------------------------

/// Whether the second `secs` after 1970-01-01 00:00:00 UTC lies in a year that `chrono` can hold.
pub open spec fn in_calendar(secs: int) -> bool {
    -8334601228800 <= secs <= 8210266876799
}

/// Whether the second `secs` lies in a year from 0 to 9999.
pub open spec fn in_four_digit_years(secs: int) -> bool {
    -62167219200 <= secs <= 253402300799
}

/// Whether `y` is a leap year of the Gregorian calendar.
pub open spec fn leap_year(y: int) -> bool {
    y % 4 == 0 && (y % 100 != 0 || y % 400 == 0)
}

/// How many days lie between 0000-01-01 and the first day of year `y`, which is not negative.
pub open spec fn days_before_year(y: int) -> int {
    365 * y + (y + 3) / 4 - (y + 99) / 100 + (y + 399) / 400
}

/// How many days of year `y` lie before month `m`.
pub open spec fn days_before_month(y: int, m: int) -> int {
    let leap: int = if leap_year(y) { 1 } else { 0 };
    if m <= 1 {
        0
    } else if m == 2 {
        31
    } else if m == 3 {
        59 + leap
    } else if m == 4 {
        90 + leap
    } else if m == 5 {
        120 + leap
    } else if m == 6 {
        151 + leap
    } else if m == 7 {
        181 + leap
    } else if m == 8 {
        212 + leap
    } else if m == 9 {
        243 + leap
    } else if m == 10 {
        273 + leap
    } else if m == 11 {
        304 + leap
    } else if m == 12 {
        334 + leap
    } else {
        365 + leap
    }
}

/// A day of the calendar.
pub struct Civil {
    pub y: int,
    pub m: int,
    pub d: int,
}

impl Civil {
    /// Whether there is such a day, in a year from 0 to 9999.
    pub open spec fn is_valid(self) -> bool {
        &&& 0 <= self.y <= 9999
        &&& 1 <= self.m <= 12
        &&& 1 <= self.d <= days_before_month(self.y, self.m + 1) - days_before_month(self.y, self.m)
    }

    /// The number of this day, 1970-01-01 being day 0.
    pub open spec fn day_number(self) -> int {
        days_before_year(self.y) + days_before_month(self.y, self.m) + self.d - 1 - 719528
    }

    /// This day as `yyyy-mm-dd`.
    pub open spec fn date_text(self) -> Seq<char> {
        fixed_decimal(self.y as nat, 4) + seq!['-'] + fixed_decimal(self.m as nat, 2) + seq!['-']
            + fixed_decimal(self.d as nat, 2)
    }
}

/// The time of day as ` hh:mm:ss.uuuuuu`.
pub open spec fn time_text(second_of_day: int, nanos: int) -> Seq<char> {
    seq![' '] + fixed_decimal((second_of_day / 3600) as nat, 2) + seq![':'] + fixed_decimal(
        (second_of_day / 60 % 60) as nat,
        2,
    ) + seq![':'] + fixed_decimal((second_of_day % 60) as nat, 2) + seq!['.'] + fixed_decimal(
        (nanos / 1000) as nat,
        6,
    )
}

/// Whether `c` is the day on which the second `secs` lies.
pub open spec fn is_day_of(c: Civil, secs: int) -> bool {
    c.is_valid() && c.day_number() == secs / 86400
}

/// Whether `t` is the date of the second `secs`.
pub open spec fn is_date(secs: int, t: Seq<char>) -> bool {
    exists|c: Civil| #[trigger] is_day_of(c, secs) && t == c.date_text()
}

/// Whether `t` is the time stamp of the instant `nanos` nanoseconds after the second `secs`.
pub open spec fn is_stamp(secs: int, nanos: int, t: Seq<char>) -> bool {
    exists|c: Civil|
        #[trigger] is_day_of(c, secs) && t == c.date_text() + time_text(secs % 86400, nanos)
}

// ---- what chrono does -----------------------------------------------------------------

/// The text that `chrono` gives to an instant under a pattern.
pub uninterp spec fn utc_formatted(secs: i64, nanos: u32, pattern: Seq<char>) -> Seq<char>;

/// `DateTime::from_timestamp`, then `DateTime::format` and `to_string`. The text is a function of
/// the instant and the pattern, [`utc_formatted`]; in the years from 0 to 9999 it is the date, or
/// the time stamp, of that instant in the Gregorian calendar. Of other years, whose number takes a
/// sign, no more is said.
#[verifier::external_body]
fn format_utc(secs: i64, nanos: u32, pattern: &str) -> (r: String)
    requires
        in_calendar(secs as int),
        nanos < 1_000_000_000,
        pattern@ == DATE_PATTERN@ || pattern@ == STAMP_PATTERN@,
    ensures
        r@ == utc_formatted(secs, nanos, pattern@),
        in_four_digit_years(secs as int) && pattern@ == DATE_PATTERN@ ==> is_date(secs as int, r@),
        in_four_digit_years(secs as int) && pattern@ == STAMP_PATTERN@ ==> is_stamp(
            secs as int,
            nanos as int,
            r@,
        ),
{
    chrono::DateTime::from_timestamp(secs, nanos).unwrap().format(pattern).to_string()
}

/// `Utc::now`, as seconds since 1970-01-01 00:00:00 UTC and nanoseconds. It returns no instant before 1970,
/// none that `chrono` cannot hold, and no leap second. It panics where the machine's clock stands
/// before 1970.
#[verifier::external_body]
fn utc_now() -> (r: (i64, u32))
    ensures
        0 <= r.0,
        in_calendar(r.0 as int),
        r.1 < 1_000_000_000,
{
    let now = chrono::Utc::now();
    (now.timestamp(), now.timestamp_subsec_nanos())
}

// ---- dates and stamps -------------------------------------------------------------------

/// The date of the second `secs`, as `yyyy-mm-dd`.
pub fn date_of(secs: i64) -> (r: String)
    requires
        in_calendar(secs as int),
    ensures
        r@ == utc_formatted(secs, 0, DATE_PATTERN@),
        in_four_digit_years(secs as int) ==> is_date(secs as int, r@),
{
    format_utc(secs, 0, DATE_PATTERN)
}

/// The time stamp of an instant, as `yyyy-mm-dd hh:mm:ss.uuuuuu`.
pub fn stamp_of(secs: i64, nanos: u32) -> (r: String)
    requires
        in_calendar(secs as int),
        nanos < 1_000_000_000,
    ensures
        r@ == utc_formatted(secs, nanos, STAMP_PATTERN@),
        in_four_digit_years(secs as int) ==> is_stamp(secs as int, nanos as int, r@),
{
    format_utc(secs, nanos, STAMP_PATTERN)
}

/// The time stamp of the present instant.
pub fn now_stamp() -> (r: String)
    ensures
        exists|secs: i64, nanos: u32|
            #![trigger utc_formatted(secs, nanos, STAMP_PATTERN@)]
            0 <= secs && in_calendar(secs as int) && nanos < 1_000_000_000 && r@ == utc_formatted(
                secs,
                nanos,
                STAMP_PATTERN@,
            ) && (in_four_digit_years(secs as int) ==> is_stamp(secs as int, nanos as int, r@)),
{
    let now = utc_now();
    stamp_of(now.0, now.1)
}

// ---- stamps sort as instants do ---------------------------------------------------------

/// Whether `a` comes before `b` in the order of strings.
pub open spec fn text_before(a: Seq<char>, b: Seq<char>) -> bool {
    exists|i: int|
        #![trigger a[i], b[i]]
        0 <= i < a.len() && i < b.len() && a[i] < b[i] && forall|j: int|
            0 <= j < i ==> #[trigger] a[j] == b[j]
}

/// Ten to the power of `w`.
pub open spec fn pow10(w: nat) -> nat
    decreases w,
{
    if w == 0 {
        1
    } else {
        10 * pow10((w - 1) as nat)
    }
}

proof fn lemma_fixed_len(n: nat, w: nat)
    ensures
        fixed_decimal(n, w).len() == w,
    decreases w,
{
    if w > 0 {
        lemma_fixed_len(n / 10, (w - 1) as nat);
    }
}

proof fn lemma_fixed_order(a: nat, b: nat, w: nat)
    requires
        a < b < pow10(w),
    ensures
        text_before(fixed_decimal(a, w), fixed_decimal(b, w)),
    decreases w,
{
    if w > 0 {
        let p = (w - 1) as nat;
        lemma_fixed_len(a / 10, p);
        lemma_fixed_len(b / 10, p);
        let fa = fixed_decimal(a / 10, p);
        let fb = fixed_decimal(b / 10, p);
        let ta = fixed_decimal(a, w);
        let tb = fixed_decimal(b, w);
        if a / 10 < b / 10 {
            lemma_fixed_order(a / 10, b / 10, p);
            let i = choose|i: int|
                #![trigger fa[i], fb[i]]
                0 <= i < fa.len() && i < fb.len() && fa[i] < fb[i] && forall|j: int|
                    0 <= j < i ==> #[trigger] fa[j] == fb[j];
            assert(ta[i] == fa[i] && tb[i] == fb[i]);
            assert forall|j: int| 0 <= j < i implies #[trigger] ta[j] == tb[j] by {
                assert(ta[j] == fa[j] && tb[j] == fb[j]);
            }
        } else {
            assert(a / 10 == b / 10);
            assert(a % 10 < b % 10);
            assert(ta[p as int] == digit(a % 10));
            assert(tb[p as int] == digit(b % 10));
            assert(ta[p as int] < tb[p as int]);
        }
    }
}

/// Equal beginnings do not matter, and what follows the first difference does not either.
proof fn lemma_before_in_context(p: Seq<char>, a: Seq<char>, b: Seq<char>, x: Seq<char>, y: Seq<char>)
    requires
        text_before(a, b),
        a.len() == b.len(),
    ensures
        text_before(p + a + x, p + b + y),
{
    let i = choose|i: int|
        #![trigger a[i], b[i]]
        0 <= i < a.len() && i < b.len() && a[i] < b[i] && forall|j: int|
            0 <= j < i ==> #[trigger] a[j] == b[j];
    let s = p + a + x;
    let t = p + b + y;
    let k = p.len() + i;
    assert(s[k] == a[i]);
    assert(t[k] == b[i]);
    assert forall|j: int| 0 <= j < k implies #[trigger] s[j] == t[j] by {
        if j >= p.len() {
            assert(s[j] == a[j - p.len()]);
            assert(t[j] == b[j - p.len()]);
        }
    }
}

/// A field that grows, after equal fields, makes the text come later.
proof fn lemma_field(
    p: Seq<char>,
    a: nat,
    b: nat,
    w: nat,
    x: Seq<char>,
    y: Seq<char>,
    s: Seq<char>,
    t: Seq<char>,
)
    requires
        a < b < pow10(w),
        s == p + fixed_decimal(a, w) + x,
        t == p + fixed_decimal(b, w) + y,
    ensures
        text_before(s, t),
{
    lemma_fixed_len(a, w);
    lemma_fixed_len(b, w);
    lemma_fixed_order(a, b, w);
    lemma_before_in_context(p, fixed_decimal(a, w), fixed_decimal(b, w), x, y);
}

/// Later days of the calendar have larger numbers.
pub proof fn day_numbers_follow_the_calendar(a: Civil, b: Civil)
    requires
        a.is_valid(),
        b.is_valid(),
        a.y < b.y || (a.y == b.y && (a.m < b.m || (a.m == b.m && a.d < b.d))),
    ensures
        a.day_number() < b.day_number(),
{
    if a.y < b.y {
        assert(days_before_month(a.y, a.m) + a.d <= days_before_month(a.y, 13));
        assert(days_before_year(a.y + 1) == days_before_year(a.y) + days_before_month(a.y, 13));
        assert(days_before_year(a.y + 1) <= days_before_year(b.y));
    } else if a.m < b.m {
        assert(days_before_month(a.y, a.m + 1) <= days_before_month(a.y, b.m));
    }
}

/// A day has one number, and no other day has it.
pub proof fn day_numbers_are_unique(a: Civil, b: Civil)
    requires
        a.is_valid(),
        b.is_valid(),
        a.day_number() == b.day_number(),
    ensures
        a == b,
{
    if a.y < b.y || (a.y == b.y && (a.m < b.m || (a.m == b.m && a.d < b.d))) {
        day_numbers_follow_the_calendar(a, b);
    }
    if b.y < a.y || (b.y == a.y && (b.m < a.m || (b.m == a.m && b.d < a.d))) {
        day_numbers_follow_the_calendar(b, a);
    }
}

proof fn lemma_dates_sort(a: Civil, b: Civil, x: Seq<char>, y: Seq<char>)
    requires
        a.is_valid(),
        b.is_valid(),
        a.day_number() < b.day_number(),
    ensures
        text_before(a.date_text() + x, b.date_text() + y),
{
    if !(a.y < b.y || (a.y == b.y && (a.m < b.m || (a.m == b.m && a.d < b.d)))) {
        if a != b {
            day_numbers_follow_the_calendar(b, a);
        }
    }
    let s = a.date_text() + x;
    let t = b.date_text() + y;
    let dash = seq!['-'];
    let am = fixed_decimal(a.m as nat, 2);
    let bm = fixed_decimal(b.m as nat, 2);
    let ad = fixed_decimal(a.d as nat, 2);
    let bd = fixed_decimal(b.d as nat, 2);
    reveal_with_fuel(pow10, 5);
    let none = Seq::<char>::empty();
    if a.y < b.y {
        let ra = dash + am + dash + ad + x;
        let rb = dash + bm + dash + bd + y;
        assert(s =~= none + fixed_decimal(a.y as nat, 4) + ra);
        assert(t =~= none + fixed_decimal(b.y as nat, 4) + rb);
        lemma_field(none, a.y as nat, b.y as nat, 4, ra, rb, s, t);
    } else if a.m < b.m {
        let p = fixed_decimal(a.y as nat, 4) + dash;
        let ra = dash + ad + x;
        let rb = dash + bd + y;
        assert(s =~= p + am + ra);
        assert(t =~= p + bm + rb);
        lemma_field(p, a.m as nat, b.m as nat, 2, ra, rb, s, t);
    } else {
        let p = fixed_decimal(a.y as nat, 4) + dash + am + dash;
        lemma_field(p, a.d as nat, b.d as nat, 2, x, y, s, t);
    }
}

/// The same text with its last field first split off.
proof fn lemma_regroup(a: Seq<char>, b: Seq<char>, c: Seq<char>)
    ensures
        a + b + c == a + (b + c),
{
    assert(a + b + c =~= a + (b + c));
}

proof fn lemma_times_sort(p: Seq<char>, s1: int, n1: int, s2: int, n2: int)
    requires
        0 <= s1 < 86400,
        0 <= s2 < 86400,
        0 <= n1 < 1_000_000_000,
        0 <= n2 < 1_000_000_000,
        s1 < s2 || (s1 == s2 && n1 / 1000 < n2 / 1000),
    ensures
        text_before(p + time_text(s1, n1), p + time_text(s2, n2)),
{
    let h1 = (s1 / 3600) as nat;
    let h2 = (s2 / 3600) as nat;
    let m1 = (s1 / 60 % 60) as nat;
    let m2 = (s2 / 60 % 60) as nat;
    let c1 = (s1 % 60) as nat;
    let c2 = (s2 % 60) as nat;
    let u1 = (n1 / 1000) as nat;
    let u2 = (n2 / 1000) as nat;
    assert(s1 == 3600 * h1 + 60 * m1 + c1);
    assert(s2 == 3600 * h2 + 60 * m2 + c2);
    reveal_with_fuel(pow10, 7);
    let none = Seq::<char>::empty();
    let colon = seq![':'];
    let dot = seq!['.'];
    let hour1 = seq![' '] + fixed_decimal(h1, 2);
    let hour2 = seq![' '] + fixed_decimal(h2, 2);
    let minute1 = hour1 + colon + fixed_decimal(m1, 2);
    let minute2 = hour2 + colon + fixed_decimal(m2, 2);
    let second1 = minute1 + colon + fixed_decimal(c1, 2);
    let second2 = minute2 + colon + fixed_decimal(c2, 2);
    let full1 = second1 + dot + fixed_decimal(u1, 6);
    let full2 = second2 + dot + fixed_decimal(u2, 6);
    lemma_fixed_len(h1, 2);
    lemma_fixed_len(h2, 2);
    lemma_fixed_len(m1, 2);
    lemma_fixed_len(m2, 2);
    lemma_fixed_len(c1, 2);
    lemma_fixed_len(c2, 2);
    if h1 < h2 {
        lemma_fixed_order(h1, h2, 2);
        lemma_before_in_context(seq![' '], fixed_decimal(h1, 2), fixed_decimal(h2, 2), none, none);
        assert(hour1 + none =~= hour1);
        assert(hour2 + none =~= hour2);
    }
    if h1 < h2 || (h1 == h2 && m1 < m2) {
        if h1 < h2 {
            lemma_before_in_context(
                none,
                hour1,
                hour2,
                colon + fixed_decimal(m1, 2),
                colon + fixed_decimal(m2, 2),
            );
            assert(none + hour1 =~= hour1);
            assert(none + hour2 =~= hour2);
            lemma_regroup(hour1, colon, fixed_decimal(m1, 2));
            lemma_regroup(hour2, colon, fixed_decimal(m2, 2));
        } else {
            lemma_fixed_order(m1, m2, 2);
            lemma_before_in_context(
                hour1 + colon,
                fixed_decimal(m1, 2),
                fixed_decimal(m2, 2),
                none,
                none,
            );
            assert(minute1 + none =~= minute1);
            assert(minute2 + none =~= minute2);
        }
        assert(text_before(minute1, minute2));
    }
    if text_before(minute1, minute2) {
        lemma_before_in_context(
            none,
            minute1,
            minute2,
            colon + fixed_decimal(c1, 2),
            colon + fixed_decimal(c2, 2),
        );
        assert(none + minute1 =~= minute1);
        assert(none + minute2 =~= minute2);
        lemma_regroup(minute1, colon, fixed_decimal(c1, 2));
        lemma_regroup(minute2, colon, fixed_decimal(c2, 2));
    } else if c1 < c2 {
        lemma_fixed_order(c1, c2, 2);
        lemma_before_in_context(
            minute1 + colon,
            fixed_decimal(c1, 2),
            fixed_decimal(c2, 2),
            none,
            none,
        );
        assert(second1 + none =~= second1);
        assert(second2 + none =~= second2);
    }
    if text_before(second1, second2) {
        lemma_before_in_context(
            none,
            second1,
            second2,
            dot + fixed_decimal(u1, 6),
            dot + fixed_decimal(u2, 6),
        );
        assert(none + second1 =~= second1);
        assert(none + second2 =~= second2);
        lemma_regroup(second1, dot, fixed_decimal(u1, 6));
        lemma_regroup(second2, dot, fixed_decimal(u2, 6));
    } else {
        assert(h1 == h2 && m1 == m2 && c1 == c2);
        lemma_fixed_order(u1, u2, 6);
        lemma_fixed_len(u1, 6);
        lemma_fixed_len(u2, 6);
        lemma_before_in_context(
            second1 + dot,
            fixed_decimal(u1, 6),
            fixed_decimal(u2, 6),
            none,
            none,
        );
        assert(full1 + none =~= full1);
        assert(full2 + none =~= full2);
    }
    lemma_fixed_len(u1, 6);
    lemma_fixed_len(u2, 6);
    lemma_before_in_context(p, full1, full2, none, none);
    assert(p + full1 + none =~= p + full1);
    assert(p + full2 + none =~= p + full2);
}

/// Time stamps sort, as strings, in the order of their instants.
pub proof fn stamps_sort_as_instants(
    secs1: int,
    nanos1: int,
    stamp1: Seq<char>,
    secs2: int,
    nanos2: int,
    stamp2: Seq<char>,
)
    requires
        0 <= nanos1 < 1_000_000_000,
        0 <= nanos2 < 1_000_000_000,
        is_stamp(secs1, nanos1, stamp1),
        is_stamp(secs2, nanos2, stamp2),
        secs1 < secs2 || (secs1 == secs2 && nanos1 / 1000 < nanos2 / 1000),
    ensures
        text_before(stamp1, stamp2),
{
    let a = choose|c: Civil|
        #[trigger] is_day_of(c, secs1) && stamp1 == c.date_text() + time_text(
            secs1 % 86400,
            nanos1,
        );
    let b = choose|c: Civil|
        #[trigger] is_day_of(c, secs2) && stamp2 == c.date_text() + time_text(
            secs2 % 86400,
            nanos2,
        );
    if secs1 / 86400 < secs2 / 86400 {
        lemma_dates_sort(
            a,
            b,
            time_text(secs1 % 86400, nanos1),
            time_text(secs2 % 86400, nanos2),
        );
    } else {
        day_numbers_are_unique(a, b);
        lemma_times_sort(a.date_text(), secs1 % 86400, nanos1, secs2 % 86400, nanos2);
    }
}

/// An instant has one time stamp.
pub proof fn stamp_is_unique(secs: int, nanos: int, stamp1: Seq<char>, stamp2: Seq<char>)
    requires
        is_stamp(secs, nanos, stamp1),
        is_stamp(secs, nanos, stamp2),
    ensures
        stamp1 == stamp2,
{
    let a = choose|c: Civil|
        #[trigger] is_day_of(c, secs) && stamp1 == c.date_text() + time_text(secs % 86400, nanos);
    let b = choose|c: Civil|
        #[trigger] is_day_of(c, secs) && stamp2 == c.date_text() + time_text(secs % 86400, nanos);
    day_numbers_are_unique(a, b);
}

} // verus!
