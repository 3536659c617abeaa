//! Generation identifiers: a calendar minute and its `YYYY-MM-DDTHH-MM` label.

use vstd::prelude::*;

verus! {

/// A calendar minute, the identifier of a generation.
#[derive(Clone, Copy, Debug, PartialEq, Eq, Structural)]
pub struct Stamp {
    pub year: u16,
    pub month: u8,
    pub day: u8,
    pub hour: u8,
    pub minute: u8,
}

pub open spec fn is_leap_year(y: int) -> bool {
    (y % 4 == 0 && y % 100 != 0) || y % 400 == 0
}

pub open spec fn days_in_month(y: int, m: int) -> int {
    if m == 2 {
        if is_leap_year(y) {
            29
        } else {
            28
        }
    } else if m == 4 || m == 6 || m == 9 || m == 11 {
        30
    } else {
        31
    }
}

pub open spec fn digit_char(d: int) -> char {
    if d == 0 {
        '0'
    } else if d == 1 {
        '1'
    } else if d == 2 {
        '2'
    } else if d == 3 {
        '3'
    } else if d == 4 {
        '4'
    } else if d == 5 {
        '5'
    } else if d == 6 {
        '6'
    } else if d == 7 {
        '7'
    } else if d == 8 {
        '8'
    } else {
        '9'
    }
}

pub open spec fn is_digit(c: char) -> bool {
    c == '0' || c == '1' || c == '2' || c == '3' || c == '4' || c == '5' || c == '6' || c
        == '7' || c == '8' || c == '9'
}

pub open spec fn two_digits(n: int) -> Seq<char> {
    seq![digit_char(n / 10), digit_char(n % 10)]
}

pub open spec fn four_digits(n: int) -> Seq<char> {
    two_digits(n / 100) + two_digits(n % 100)
}

/// The label of a stamp: `YYYY-MM-DDTHH-MM`, zero padded.
pub open spec fn label_of(s: Stamp) -> Seq<char> {
    four_digits(s.year as int) + seq!['-'] + two_digits(s.month as int) + seq!['-']
        + two_digits(s.day as int) + seq!['T'] + two_digits(s.hour as int) + seq!['-']
        + two_digits(s.minute as int)
}

impl Stamp {
    /// A real calendar minute whose year has four digits.
    pub open spec fn wf(self) -> bool {
        &&& self.year <= 9999
        &&& 1 <= self.month <= 12
        &&& 1 <= self.day <= days_in_month(self.year as int, self.month as int)
        &&& self.hour < 24
        &&& self.minute < 60
    }

    /// Chronological order: by year, then month, day, hour and minute.
    pub open spec fn precedes(self, other: Stamp) -> bool {
        ||| self.year < other.year
        ||| self.year == other.year && self.month < other.month
        ||| self.year == other.year && self.month == other.month && self.day < other.day
        ||| self.year == other.year && self.month == other.month && self.day == other.day
            && self.hour < other.hour
        ||| self.year == other.year && self.month == other.month && self.day == other.day
            && self.hour == other.hour && self.minute < other.minute
    }

    /// A number that grows with `precedes`.
    pub open spec fn rank(self) -> nat {
        self.year as nat * 0x1_0000_0000 + self.month as nat * 0x100_0000 + self.day as nat
            * 0x1_0000 + self.hour as nat * 0x100 + self.minute as nat
    }

    pub fn is_valid(&self) -> (r: bool)
        ensures
            r == self.wf(),
    {
        if self.year > 9999 || self.month < 1 || self.month > 12 || self.hour >= 24
            || self.minute >= 60 || self.day < 1 {
            return false;
        }
        let y = self.year;
        let leap = (y % 4 == 0 && y % 100 != 0) || y % 400 == 0;
        let days: u8 = if self.month == 2 {
            if leap {
                29
            } else {
                28
            }
        } else if self.month == 4 || self.month == 6 || self.month == 9 || self.month == 11 {
            30
        } else {
            31
        };
        self.day <= days
    }

    pub fn is_before(&self, other: &Stamp) -> (r: bool)
        ensures
            r == self.precedes(*other),
    {
        if self.year != other.year {
            self.year < other.year
        } else if self.month != other.month {
            self.month < other.month
        } else if self.day != other.day {
            self.day < other.day
        } else if self.hour != other.hour {
            self.hour < other.hour
        } else {
            self.minute < other.minute
        }
    }

    /// The label that names this generation.
    pub fn label(&self) -> (r: String)
        requires
            self.wf(),
        ensures
            r@ == label_of(*self),
    {
        let mut out = String::new();
        push_two(&mut out, (self.year / 100) as u8);
        push_two(&mut out, (self.year % 100) as u8);
        assert(out@ =~= four_digits(self.year as int));
        proof {
            reveal_strlit("-");
            reveal_strlit("T");
        }
        out.append("-");
        push_two(&mut out, self.month);
        out.append("-");
        push_two(&mut out, self.day);
        out.append("T");
        push_two(&mut out, self.hour);
        out.append("-");
        push_two(&mut out, self.minute);
        assert(out@ =~= label_of(*self));
        out
    }
}

/// The layout of a label: sixteen characters, digits but for the separators.
pub open spec fn label_shape(s: Seq<char>) -> bool {
    &&& s.len() == 16
    &&& s[4] == '-' && s[7] == '-' && s[10] == 'T' && s[13] == '-'
    &&& is_digit(s[0]) && is_digit(s[1]) && is_digit(s[2]) && is_digit(s[3])
    &&& is_digit(s[5]) && is_digit(s[6]) && is_digit(s[8]) && is_digit(s[9])
    &&& is_digit(s[11]) && is_digit(s[12]) && is_digit(s[14]) && is_digit(s[15])
}

/// Reads a generation label back into its stamp. Only the exact zero-padded
/// form of a real calendar minute is accepted.
pub fn parse_label(s: &str) -> (r: Option<Stamp>)
    ensures
        match r {
            Some(st) => st.wf() && label_of(st) == s@,
            None => forall|st: Stamp| st.wf() ==> label_of(st) != s@,
        },
{
    let n = s.unicode_len();
    if n != 16 || s.get_char(4) != '-' || s.get_char(7) != '-' || s.get_char(10) != 'T'
        || s.get_char(13) != '-' {
        proof {
            lemma_shape_of_labels(s@);
        }
        return None;
    }
    let hi = read_two(s, 0);
    let lo = read_two(s, 2);
    let month = read_two(s, 5);
    let day = read_two(s, 8);
    let hour = read_two(s, 11);
    let minute = read_two(s, 14);
    match (hi, lo, month, day, hour, minute) {
        (Some(hi), Some(lo), Some(month), Some(day), Some(hour), Some(minute)) => {
            let candidate = Stamp { year: hi as u16 * 100 + lo as u16, month, day, hour, minute };
            proof {
                lemma_label_from_parts(candidate, s@);
            }
            if candidate.is_valid() {
                Some(candidate)
            } else {
                proof {
                    assert forall|st: Stamp| st.wf() implies label_of(st) != s@ by {
                        if label_of(st) == s@ {
                            lemma_label_injective(st, candidate);
                        }
                    }
                }
                None
            }
        },
        _ => {
            proof {
                lemma_shape_of_labels(s@);
            }
            None
        },
    }
}

/// Every label has the layout of a label.
proof fn lemma_shape_of_labels(s: Seq<char>)
    ensures
        forall|st: Stamp| st.wf() && label_of(st) == s ==> label_shape(s),
{
    assert forall|st: Stamp| st.wf() && label_of(st) == s implies label_shape(s) by {
        lemma_label_parts(st);
        lemma_two_digits_are_digits((st.year / 100) as int);
        lemma_two_digits_are_digits((st.year % 100) as int);
        lemma_two_digits_are_digits(st.month as int);
        lemma_two_digits_are_digits(st.day as int);
        lemma_two_digits_are_digits(st.hour as int);
        lemma_two_digits_are_digits(st.minute as int);
        assert(s[0] == s.subrange(0, 2)[0] && s[1] == s.subrange(0, 2)[1]);
        assert(s[2] == s.subrange(2, 4)[0] && s[3] == s.subrange(2, 4)[1]);
        assert(s[5] == s.subrange(5, 7)[0] && s[6] == s.subrange(5, 7)[1]);
        assert(s[8] == s.subrange(8, 10)[0] && s[9] == s.subrange(8, 10)[1]);
        assert(s[11] == s.subrange(11, 13)[0] && s[12] == s.subrange(11, 13)[1]);
        assert(s[14] == s.subrange(14, 16)[0] && s[15] == s.subrange(14, 16)[1]);
    }
}

/// Distinct stamps have distinct labels.
pub proof fn lemma_label_injective(a: Stamp, b: Stamp)
    requires
        a.year <= 9999 && a.month < 100 && a.day < 100 && a.hour < 100 && a.minute < 100,
        b.year <= 9999 && b.month < 100 && b.day < 100 && b.hour < 100 && b.minute < 100,
        label_of(a) == label_of(b),
    ensures
        a == b,
{
    lemma_label_parts(a);
    lemma_label_parts(b);
    lemma_two_digits_injective((a.year / 100) as int, (b.year / 100) as int);
    lemma_two_digits_injective((a.year % 100) as int, (b.year % 100) as int);
    lemma_two_digits_injective(a.month as int, b.month as int);
    lemma_two_digits_injective(a.day as int, b.day as int);
    lemma_two_digits_injective(a.hour as int, b.hour as int);
    lemma_two_digits_injective(a.minute as int, b.minute as int);
}

/// A sequence with the separators of a label and the digit pairs of a stamp is
/// its label.
proof fn lemma_label_from_parts(st: Stamp, s: Seq<char>)
    requires
        st.year <= 9999 && st.month < 100 && st.day < 100 && st.hour < 100 && st.minute < 100,
        s.len() == 16,
        s[4] == '-' && s[7] == '-' && s[10] == 'T' && s[13] == '-',
        s.subrange(0, 2) == two_digits((st.year / 100) as int),
        s.subrange(2, 4) == two_digits((st.year % 100) as int),
        s.subrange(5, 7) == two_digits(st.month as int),
        s.subrange(8, 10) == two_digits(st.day as int),
        s.subrange(11, 13) == two_digits(st.hour as int),
        s.subrange(14, 16) == two_digits(st.minute as int),
    ensures
        label_of(st) == s,
{
    lemma_label_parts(st);
    let l = label_of(st);
    assert forall|i: int| 0 <= i < 16 implies l[i] == s[i] by {
        if i < 2 {
            assert(l[i] == l.subrange(0, 2)[i] && s[i] == s.subrange(0, 2)[i]);
        } else if i < 4 {
            assert(l[i] == l.subrange(2, 4)[i - 2] && s[i] == s.subrange(2, 4)[i - 2]);
        } else if 5 <= i < 7 {
            assert(l[i] == l.subrange(5, 7)[i - 5] && s[i] == s.subrange(5, 7)[i - 5]);
        } else if 8 <= i < 10 {
            assert(l[i] == l.subrange(8, 10)[i - 8] && s[i] == s.subrange(8, 10)[i - 8]);
        } else if 11 <= i < 13 {
            assert(l[i] == l.subrange(11, 13)[i - 11] && s[i] == s.subrange(11, 13)[i - 11]);
        } else if 14 <= i < 16 {
            assert(l[i] == l.subrange(14, 16)[i - 14] && s[i] == s.subrange(14, 16)[i - 14]);
        }
    }
    assert(l =~= s);
}

proof fn lemma_label_parts(st: Stamp)
    requires
        st.year <= 9999,
        st.month < 100,
        st.day < 100,
        st.hour < 100,
        st.minute < 100,
    ensures
        label_of(st).len() == 16,
        label_of(st).subrange(0, 2) == two_digits((st.year / 100) as int),
        label_of(st).subrange(2, 4) == two_digits((st.year % 100) as int),
        label_of(st)[4] == '-',
        label_of(st).subrange(5, 7) == two_digits(st.month as int),
        label_of(st)[7] == '-',
        label_of(st).subrange(8, 10) == two_digits(st.day as int),
        label_of(st)[10] == 'T',
        label_of(st).subrange(11, 13) == two_digits(st.hour as int),
        label_of(st)[13] == '-',
        label_of(st).subrange(14, 16) == two_digits(st.minute as int),
{
    let l = label_of(st);
    assert(l.subrange(0, 2) =~= two_digits((st.year / 100) as int));
    assert(l.subrange(2, 4) =~= two_digits((st.year % 100) as int));
    assert(l.subrange(5, 7) =~= two_digits(st.month as int));
    assert(l.subrange(8, 10) =~= two_digits(st.day as int));
    assert(l.subrange(11, 13) =~= two_digits(st.hour as int));
    assert(l.subrange(14, 16) =~= two_digits(st.minute as int));
}

proof fn lemma_two_digits_are_digits(n: int)
    requires
        0 <= n < 100,
    ensures
        is_digit(two_digits(n)[0]),
        is_digit(two_digits(n)[1]),
{
}

proof fn lemma_two_digits_injective(a: int, b: int)
    requires
        0 <= a < 100,
        0 <= b < 100,
        two_digits(a) == two_digits(b),
    ensures
        a == b,
{
    assert(two_digits(a)[0] == two_digits(b)[0]);
    assert(two_digits(a)[1] == two_digits(b)[1]);
}

fn digit_of(c: char) -> (r: Option<u8>)
    ensures
        match r {
            Some(d) => d < 10 && c == digit_char(d as int),
            None => !is_digit(c),
        },
{
    if c == '0' {
        Some(0)
    } else if c == '1' {
        Some(1)
    } else if c == '2' {
        Some(2)
    } else if c == '3' {
        Some(3)
    } else if c == '4' {
        Some(4)
    } else if c == '5' {
        Some(5)
    } else if c == '6' {
        Some(6)
    } else if c == '7' {
        Some(7)
    } else if c == '8' {
        Some(8)
    } else if c == '9' {
        Some(9)
    } else {
        None
    }
}

fn read_two(s: &str, i: usize) -> (r: Option<u8>)
    requires
        i + 2 <= s@.len(),
        i < 16,
    ensures
        match r {
            Some(v) => v < 100 && s@.subrange(i as int, i + 2) == two_digits(v as int),
            None => !(is_digit(s@[i as int]) && is_digit(s@[i + 1])),
        },
{
    let a = digit_of(s.get_char(i));
    let b = digit_of(s.get_char(i + 1));
    match (a, b) {
        (Some(a), Some(b)) => {
            let v = a * 10 + b;
            assert(s@.subrange(i as int, i + 2) =~= two_digits(v as int));
            Some(v)
        },
        _ => None,
    }
}

fn digit_text(d: u16) -> (r: &'static str)
    requires
        d < 10,
    ensures
        r@ == seq![digit_char(d as int)],
{
    proof {
        reveal_strlit("0");
        reveal_strlit("1");
        reveal_strlit("2");
        reveal_strlit("3");
        reveal_strlit("4");
        reveal_strlit("5");
        reveal_strlit("6");
        reveal_strlit("7");
        reveal_strlit("8");
        reveal_strlit("9");
    }
    if d == 0 {
        "0"
    } else if d == 1 {
        "1"
    } else if d == 2 {
        "2"
    } else if d == 3 {
        "3"
    } else if d == 4 {
        "4"
    } else if d == 5 {
        "5"
    } else if d == 6 {
        "6"
    } else if d == 7 {
        "7"
    } else if d == 8 {
        "8"
    } else {
        "9"
    }
}

fn push_digits(out: &mut String, d: u16)
    requires
        d < 10,
    ensures
        final(out)@ == old(out)@ + seq![digit_char(d as int)],
{
    out.append(digit_text(d));
}

fn push_two(out: &mut String, n: u8)
    requires
        n < 100,
    ensures
        final(out)@ == old(out)@ + two_digits(n as int),
{
    push_digits(out, (n / 10) as u16);
    push_digits(out, (n % 10) as u16);
    assert(final(out)@ =~= old(out)@ + two_digits(n as int));
}

} // verus!

verus! {

/// The Unix time, in seconds, at which the stamp's minute begins on a clock
/// running `offset` seconds ahead of UTC.
pub uninterp spec fn local_instant(st: Stamp, offset: int) -> int;

/// Relies on time's `PrimitiveDateTime::assume_offset` and
/// `OffsetDateTime::unix_timestamp`: the instant depends on the calendar
/// minute and the offset alone. The stamp is a valid date and the offset lies
/// within `UtcOffset`'s range, so no construction fails.
#[verifier::external_body]
pub(crate) fn instant_at(st: Stamp, offset_seconds: i32) -> (r: i64)
    requires
        st.wf(),
        -93599 <= offset_seconds <= 93599,
    ensures
        r == local_instant(st, offset_seconds as int),
{
    let month = time::Month::try_from(st.month).unwrap();
    let date = time::Date::from_calendar_date(st.year as i32, month, st.day).unwrap();
    let clock = time::Time::from_hms(st.hour, st.minute, 0).unwrap();
    let offset = time::UtcOffset::from_whole_seconds(offset_seconds).unwrap();
    time::PrimitiveDateTime::new(date, clock).assume_offset(offset).unix_timestamp()
}

} // verus!

verus! {

/// Code-point order of two texts: the first difference decides, and a proper
/// prefix comes first.
pub open spec fn text_before(a: Seq<char>, b: Seq<char>) -> bool
    decreases a.len(),
{
    if a.len() == 0 {
        b.len() > 0
    } else if b.len() == 0 {
        false
    } else if a[0] != b[0] {
        (a[0] as u32) < (b[0] as u32)
    } else {
        text_before(a.drop_first(), b.drop_first())
    }
}

proof fn lemma_digit_code(d: int)
    requires
        0 <= d < 10,
    ensures
        digit_char(d) as u32 == 48 + d,
{
}

proof fn lemma_text_before_concat(x: Seq<char>, y: Seq<char>, r1: Seq<char>, r2: Seq<char>)
    requires
        x.len() == y.len(),
    ensures
        text_before(x + r1, y + r2) == if x == y {
            text_before(r1, r2)
        } else {
            text_before(x, y)
        },
    decreases x.len(),
{
    if x.len() == 0 {
        assert(x + r1 =~= r1);
        assert(y + r2 =~= r2);
        assert(x =~= y);
    } else {
        assert((x + r1)[0] == x[0]);
        assert((y + r2)[0] == y[0]);
        assert((x + r1).drop_first() =~= x.drop_first() + r1);
        assert((y + r2).drop_first() =~= y.drop_first() + r2);
        lemma_text_before_concat(x.drop_first(), y.drop_first(), r1, r2);
        if x[0] == y[0] && x.drop_first() == y.drop_first() {
            assert(x =~= y) by {
                assert forall|k: int| 0 <= k < x.len() implies x[k] == y[k] by {
                    if k > 0 {
                        assert(x[k] == x.drop_first()[k - 1]);
                        assert(y[k] == y.drop_first()[k - 1]);
                    }
                }
            }
        }
        if x == y {
            assert(x.drop_first() == y.drop_first());
        }
    }
}

proof fn lemma_two_digits_order(m: int, n: int)
    requires
        0 <= m < 100,
        0 <= n < 100,
    ensures
        (two_digits(m) == two_digits(n)) == (m == n),
        text_before(two_digits(m), two_digits(n)) == (m < n),
{
    lemma_digit_code(m / 10);
    lemma_digit_code(m % 10);
    lemma_digit_code(n / 10);
    lemma_digit_code(n % 10);
    if two_digits(m) == two_digits(n) {
        lemma_two_digits_injective(m, n);
    }
    assert(two_digits(m).drop_first() =~= seq![digit_char(m % 10)]);
    assert(two_digits(n).drop_first() =~= seq![digit_char(n % 10)]);
    assert(seq![digit_char(m % 10)].drop_first() =~= Seq::<char>::empty());
    assert(seq![digit_char(n % 10)].drop_first() =~= Seq::<char>::empty());
    reveal_with_fuel(text_before, 3);
}

proof fn lemma_four_digits_order(m: int, n: int)
    requires
        0 <= m < 10000,
        0 <= n < 10000,
    ensures
        (four_digits(m) == four_digits(n)) == (m == n),
        text_before(four_digits(m), four_digits(n)) == (m < n),
{
    lemma_two_digits_order(m / 100, n / 100);
    lemma_two_digits_order(m % 100, n % 100);
    lemma_text_before_concat(two_digits(m / 100), two_digits(n / 100), two_digits(m % 100), two_digits(n % 100));
    if four_digits(m) == four_digits(n) {
        assert(four_digits(m).subrange(0, 2) =~= two_digits(m / 100));
        assert(four_digits(n).subrange(0, 2) =~= two_digits(n / 100));
        assert(four_digits(m).subrange(2, 4) =~= two_digits(m % 100));
        assert(four_digits(n).subrange(2, 4) =~= two_digits(n % 100));
    }
}

/// A separator followed by a two-digit field and the rest of a label.
spec fn field_then(sep: char, v: int, rest: Seq<char>) -> Seq<char> {
    seq![sep] + (two_digits(v) + rest)
}

proof fn lemma_field_then_order(sep: char, v: int, w: int, r1: Seq<char>, r2: Seq<char>)
    requires
        0 <= v < 100,
        0 <= w < 100,
    ensures
        text_before(field_then(sep, v, r1), field_then(sep, w, r2)) == if v == w {
            text_before(r1, r2)
        } else {
            v < w
        },
{
    lemma_two_digits_order(v, w);
    lemma_text_before_concat(seq![sep], seq![sep], two_digits(v) + r1, two_digits(w) + r2);
    lemma_text_before_concat(two_digits(v), two_digits(w), r1, r2);
}

spec fn label_parts(st: Stamp) -> Seq<char> {
    four_digits(st.year as int) + field_then(
        '-',
        st.month as int,
        field_then(
            '-',
            st.day as int,
            field_then('T', st.hour as int, field_then('-', st.minute as int, Seq::empty())),
        ),
    )
}

/// Labels sort as their stamps do: for real calendar minutes, one comes
/// before another exactly when its label comes first in code-point order.
pub proof fn lemma_labels_sort_chronologically(a: Stamp, b: Stamp)
    requires
        a.wf(),
        b.wf(),
    ensures
        a.precedes(b) == text_before(label_of(a), label_of(b)),
{
    assert(label_of(a) =~= label_parts(a));
    assert(label_of(b) =~= label_parts(b));
    let e = Seq::<char>::empty();
    lemma_field_then_order('-', a.minute as int, b.minute as int, e, e);
    let ia = field_then('-', a.minute as int, e);
    let ib = field_then('-', b.minute as int, e);
    lemma_field_then_order('T', a.hour as int, b.hour as int, ia, ib);
    let ha = field_then('T', a.hour as int, ia);
    let hb = field_then('T', b.hour as int, ib);
    lemma_field_then_order('-', a.day as int, b.day as int, ha, hb);
    let da = field_then('-', a.day as int, ha);
    let db = field_then('-', b.day as int, hb);
    lemma_field_then_order('-', a.month as int, b.month as int, da, db);
    let ma = field_then('-', a.month as int, da);
    let mb = field_then('-', b.month as int, db);
    lemma_four_digits_order(a.year as int, b.year as int);
    lemma_text_before_concat(four_digits(a.year as int), four_digits(b.year as int), ma, mb);
}

} // verus!
