//! Times of day and the decimal numbers that the line format holds.
use chrono::Timelike;
use vstd::prelude::*;
use crate::text::{trim_start, chars_of, is_ws};

verus! {

/// A time of day to the minute.
#[derive(Clone, Copy, Debug, PartialEq, Eq, Structural)]
pub struct ClockTime {
    pub hour: u32,
    pub minute: u32,
}

impl ClockTime {
    pub open spec fn valid(self) -> bool {
        self.hour < 24 && self.minute < 60
    }

    /// Seconds from midnight.
    pub open spec fn seconds(self) -> int {
        self.hour * 3600 + self.minute * 60
    }

    /// The time as `HH:MM`, two digits each.
    pub fn hhmm(&self) -> (r: String)
        requires
            self.valid(),
        ensures
            r@ == hhmm_text(*self),
    {
        format_hhmm(self.hour, self.minute)
    }
}

/// The character of a decimal digit.
pub open spec fn digit_char(d: nat) -> char {
    ((d + 48) as u8) as char
}

/// Two decimal digits, zero first where the number is under ten.
pub open spec fn two_digits(n: nat) -> Seq<char> {
    seq![digit_char(n / 10), digit_char(n % 10)]
}

/// `HH:MM` for a time of day.
pub open spec fn hhmm_text(t: ClockTime) -> Seq<char> {
    two_digits(t.hour as nat) + seq![':'] + two_digits(t.minute as nat)
}

/// The decimal digits of a number, without sign or padding.
pub open spec fn decimal(n: nat) -> Seq<char>
    decreases n,
{
    if n < 10 {
        seq![digit_char(n)]
    } else {
        decimal(n / 10).push(digit_char(n % 10))
    }
}

pub open spec fn is_digit(c: char) -> bool {
    48 <= c as u32 && c as u32 <= 57
}

/// The value of a string of decimal digits.
pub open spec fn digits_value(s: Seq<char>) -> nat
    decreases s.len(),
{
    if s.len() == 0 {
        0
    } else {
        digits_value(s.drop_last()) * 10 + (s.last() as u32 - 48) as nat
    }
}

/// An optional `+` and then one or more decimal digits, whose value fits in 32 bits.
/// The text without a leading `+`, if it has one.
pub open spec fn unsigned_part(s: Seq<char>) -> Seq<char> {
    if s.len() > 0 && s[0] == '+' {
        s.drop_first()
    } else {
        s
    }
}

pub open spec fn parsed_u32(s: Seq<char>) -> Option<u32> {
    let d = unsigned_part(s);
    if d.len() > 0 && (forall|i: int| 0 <= i < d.len() ==> is_digit(#[trigger] d[i]))
        && digits_value(d) <= u32::MAX {
        Some(digits_value(d) as u32)
    } else {
        None
    }
}

/// The value of the one or two decimal digits at the start of the text, and how many
/// there are.
pub open spec fn leading_number(s: Seq<char>) -> Option<(nat, int)> {
    if s.len() >= 1 && is_digit(s[0]) {
        if s.len() >= 2 && is_digit(s[1]) {
            Some(((s[0] as u32 - 48) as nat * 10 + (s[1] as u32 - 48) as nat, 2))
        } else {
            Some(((s[0] as u32 - 48) as nat, 1))
        }
    } else {
        None
    }
}

/// Hour and minute of a time written as `%H:%M`: optional whitespace, one or two
/// digits of hour, a colon, optional whitespace, one or two digits of minute and
/// nothing after; the hour at most 23 and the minute at most 59.
pub open spec fn hhmm_of(s: Seq<char>) -> Option<(u32, u32)> {
    let a = trim_start(s);
    match leading_number(a) {
        Some((h, k)) => {
            let b = a.skip(k);
            if b.len() > 0 && b[0] == ':' {
                let c = trim_start(b.skip(1));
                match leading_number(c) {
                    Some((m, j)) => if c.len() == j && h <= 23 && m <= 59 {
                        Some((h as u32, m as u32))
                    } else {
                        None
                    },
                    None => None,
                }
            } else {
                None
            }
        },
        None => None,
    }
}

/// Whole minutes from `now` (seconds and nanoseconds past midnight) to `start`,
/// truncated toward zero after the difference is cut to whole seconds.
pub open spec fn minutes_until(start: ClockTime, now_secs: u32, now_nanos: u32) -> int {
    let d = start.seconds() - now_secs;
    let whole = if now_nanos > 0 && d >= 1 {
        d - 1
    } else {
        d
    };
    if whole >= 0 {
        whole / 60
    } else {
        -((-whole) / 60)
    }
}

/// Relies on chrono's `NaiveTime::parse_from_str` with the format `%H:%M`: each number
/// skips leading whitespace and reads one or two ASCII digits, the colon follows the
/// hour directly, nothing may follow, and the hour and minute must be in range.
#[verifier::external_body]
pub(crate) fn parse_hhmm(s: &str) -> (r: Option<(u32, u32)>)
    ensures
        r == hhmm_of(s@),
{
    match chrono::NaiveTime::parse_from_str(s, "%H:%M") {
        Ok(t) => Some((t.hour(), t.minute())),
        Err(_) => None,
    }
}

/// Relies on chrono's `NaiveTime::format` with `%H:%M`: hour and minute as two
/// zero-padded digits each, joined by a colon.
#[verifier::external_body]
pub(crate) fn format_hhmm(hour: u32, minute: u32) -> (r: String)
    requires
        hour < 24,
        minute < 60,
    ensures
        r@ == hhmm_text(ClockTime { hour, minute }),
{
    chrono::NaiveTime::from_hms_opt(hour, minute, 0).unwrap_or_default().format("%H:%M").to_string()
}

/// Relies on chrono's `NaiveTime` subtraction and `TimeDelta::num_minutes`: the
/// difference is exact in nanoseconds, `num_seconds` truncates it toward zero and
/// `num_minutes` divides that by 60, truncating toward zero.
#[verifier::external_body]
pub(crate) fn chrono_minutes_until(start: ClockTime, now_secs: u32, now_nanos: u32) -> (r: i64)
    requires
        start.valid(),
        now_secs < 86400,
        now_nanos < 1_000_000_000,
    ensures
        r == minutes_until(start, now_secs, now_nanos),
{
    let t = chrono::NaiveTime::from_hms_opt(start.hour, start.minute, 0).unwrap_or_default();
    let now = chrono::NaiveTime::from_num_seconds_from_midnight_opt(now_secs, now_nanos)
        .unwrap_or_default();
    (t - now).num_minutes()
}

/// A prefix of a string of digits has no greater value.
proof fn lemma_digits_prefix(s: Seq<char>, k: int)
    requires
        0 <= k <= s.len(),
        forall|i: int| 0 <= i < s.len() ==> is_digit(#[trigger] s[i]),
    ensures
        digits_value(s.take(k)) <= digits_value(s),
    decreases s.len(),
{
    if k < s.len() {
        let p = s.drop_last();
        assert forall|i: int| 0 <= i < p.len() implies is_digit(#[trigger] p[i]) by {
            assert(p[i] == s[i]);
        }
        lemma_digits_prefix(p, k);
        assert(p.take(k) =~= s.take(k));
    } else {
        assert(s.take(k) =~= s);
    }
}

/// Reads a decimal number as `str::parse::<u32>` does: an optional `+`, then one or
/// more decimal digits whose value fits.
pub fn parse_u32(s: &str) -> (r: Option<u32>)
    ensures
        r == parsed_u32(s@),
{
    let cs = chars_of(s);
    let n = cs.len();
    let start: usize = if n > 0 && cs[0] == '+' {
        1
    } else {
        0
    };
    let ghost d = unsigned_part(s@);
    assert(d =~= cs@.skip(start as int));
    if start == n {
        assert(d.len() == 0);
        return None;
    }
    let mut v: u64 = 0;
    let mut i: usize = start;
    assert(d.take(0) =~= Seq::<char>::empty());
    while i < n
        invariant
            start <= i <= n,
            n == cs@.len(),
            d == cs@.skip(start as int),
            d == unsigned_part(s@),
            d.len() > 0,
            v == digits_value(d.take(i - start)),
            v <= u32::MAX,
            forall|k: int| 0 <= k < i - start ==> is_digit(#[trigger] d[k]),
        decreases n - i,
    {
        let c = cs[i];
        assert(d[i - start] == c);
        let u = c as u32;
        if u < 48 || u > 57 {
            assert(!is_digit(d[i - start]));
            return None;
        }
        let ghost t = d.take(i + 1 - start);
        assert(t.drop_last() =~= d.take(i - start));
        assert(t.last() == c);
        v = v * 10 + (u - 48) as u64;
        if v > 4294967295 {
            proof {
                if forall|k: int| 0 <= k < d.len() ==> is_digit(#[trigger] d[k]) {
                    lemma_digits_prefix(d, i + 1 - start);
                }
            }
            return None;
        }
        i = i + 1;
    }
    assert(d.take(n - start) =~= d);
    Some(v as u32)
}

/// The text of one decimal digit.
fn digit_text(d: u32) -> (r: &'static str)
    requires
        d < 10,
    ensures
        r@ == seq![digit_char(d as nat)],
{
    proof {
        reveal_strlit("0");
        reveal_strlit("1");
        reveal_strlit("2");
        reveal_strlit("3");
        reveal_strlit("4");
        reveal_strlit("5");
        reveal_strlit("6");
        reveal_strlit("7");
        reveal_strlit("8");
        reveal_strlit("9");
    }
    let r = match d {
        0 => "0",
        1 => "1",
        2 => "2",
        3 => "3",
        4 => "4",
        5 => "5",
        6 => "6",
        7 => "7",
        8 => "8",
        _ => "9",
    };
    assert(r@ =~= seq![digit_char(d as nat)]);
    r
}

/// The decimal digits of a number, as `u32`'s `Display` writes them.
pub fn u32_text(n: u32) -> (r: String)
    ensures
        r@ == decimal(n as nat),
    decreases n,
{
    if n < 10 {
        let r = String::from_str(digit_text(n));
        assert(decimal(n as nat) == seq![digit_char(n as nat)]);
        r
    } else {
        let mut s = u32_text(n / 10);
        s.append(digit_text(n % 10));
        assert(decimal(n as nat) == decimal((n / 10) as nat).push(digit_char((n % 10) as nat)));
        assert(s@ =~= decimal(n as nat));
        s
    }
}

/// A written digit reads back as that digit.
pub proof fn lemma_digit_char(d: nat)
    requires
        d < 10,
    ensures
        is_digit(digit_char(d)),
        (digit_char(d) as u32 - 48) as nat == d,
{
    let b = (d + 48) as u8;
    assert(b as char as u32 == b as u32);
}

/// A time written as `HH:MM` reads back as that time.
pub proof fn lemma_hhmm_round_trip(t: ClockTime)
    requires
        t.valid(),
    ensures
        hhmm_of(hhmm_text(t)) == Some((t.hour, t.minute)),
{
    let s = hhmm_text(t);
    let h = t.hour as nat;
    let m = t.minute as nat;
    lemma_digit_char(h / 10);
    lemma_digit_char(h % 10);
    lemma_digit_char(m / 10);
    lemma_digit_char(m % 10);
    assert(s[0] == digit_char(h / 10));
    assert(!is_ws(s[0]));
    assert(trim_start(s) == s);
    assert(leading_number(s) == Some((h, 2int))) by {
        assert(s[1] == digit_char(h % 10));
        assert((h / 10) * 10 + h % 10 == h);
    }
    let b = s.skip(2);
    assert(b[0] == ':');
    let c = b.skip(1);
    assert(c =~= two_digits(m));
    assert(!is_ws(c[0]));
    assert(trim_start(c) == c);
    assert(leading_number(c) == Some((m, 2int))) by {
        assert((m / 10) * 10 + m % 10 == m);
    }
}

} // verus!
