use vstd::prelude::*;
use crate::text::{digit_char, digit_val, is_digit, digit_to_char, char_to_digit,
    lemma_digit_char_val};

verus! {

/// A local calendar timestamp with one-second resolution.
///
/// The core receives timestamps already resolved by the caller (either an
/// explicit one or "now"), holds them verbatim, and renders them in the
/// canonical text form `YYYY-MM-DD HH:MM:SS`. Field ranges are checked
/// individually; whether a day exists in its month is the resolver's
/// business, not this type's.
#[derive(Clone, Copy, Debug, PartialEq, Eq, Structural)]
pub struct Timestamp {
    pub year: u32,
    pub month: u32,
    pub day: u32,
    pub hour: u32,
    pub minute: u32,
    pub second: u32,
}

impl Timestamp {
    /// Every field is within its printable range.
    pub open spec fn valid(self) -> bool {
        &&& self.year <= 9999
        &&& 1 <= self.month <= 12
        &&& 1 <= self.day <= 31
        &&& self.hour <= 23
        &&& self.minute <= 59
        &&& self.second <= 59
    }

    /// Chronological order: lexicographic over the fields, largest first.
    pub open spec fn spec_le(self, other: Self) -> bool {
        if self.year != other.year {
            self.year < other.year
        } else if self.month != other.month {
            self.month < other.month
        } else if self.day != other.day {
            self.day < other.day
        } else if self.hour != other.hour {
            self.hour < other.hour
        } else if self.minute != other.minute {
            self.minute < other.minute
        } else {
            self.second <= other.second
        }
    }

    /// Whether every field is within its printable range.
    pub fn is_valid(&self) -> (r: bool)
        ensures
            r == self.valid(),
    {
        self.year <= 9999 && 1 <= self.month && self.month <= 12 && 1 <= self.day && self.day <= 31
            && self.hour <= 23 && self.minute <= 59 && self.second <= 59
    }

    /// Whether `self` is at or before `other` in time.
    pub fn le(&self, other: &Self) -> (r: bool)
        ensures
            r == self.spec_le(*other),
    {
        if self.year != other.year {
            self.year < other.year
        } else if self.month != other.month {
            self.month < other.month
        } else if self.day != other.day {
            self.day < other.day
        } else if self.hour != other.hour {
            self.hour < other.hour
        } else if self.minute != other.minute {
            self.minute < other.minute
        } else {
            self.second <= other.second
        }
    }

    /// The canonical text, `YYYY-MM-DD HH:MM:SS`.
    pub fn render(&self) -> (r: String)
        requires
            self.valid(),
        ensures
            r@ == text_of(*self),
            r@.len() == 19,
    {
        let mut r = String::new();
        push_dec4(&mut r, self.year);
        r.push('-');
        push_dec2(&mut r, self.month);
        r.push('-');
        push_dec2(&mut r, self.day);
        r.push(' ');
        push_dec2(&mut r, self.hour);
        r.push(':');
        push_dec2(&mut r, self.minute);
        r.push(':');
        push_dec2(&mut r, self.second);
        proof {
            assert(r@ =~= text_of(*self));
        }
        r
    }
}

/// Two decimal digits, zero-padded.
pub open spec fn dec2(n: int) -> Seq<char> {
    seq![digit_char(n / 10 % 10), digit_char(n % 10)]
}

/// Four decimal digits, zero-padded.
pub open spec fn dec4(n: int) -> Seq<char> {
    seq![
        digit_char(n / 1000 % 10),
        digit_char(n / 100 % 10),
        digit_char(n / 10 % 10),
        digit_char(n % 10),
    ]
}

/// The canonical 19-character text of a timestamp.
pub open spec fn text_of(t: Timestamp) -> Seq<char> {
    dec4(t.year as int) + seq!['-'] + dec2(t.month as int) + seq!['-'] + dec2(t.day as int)
        + seq![' '] + dec2(t.hour as int) + seq![':'] + dec2(t.minute as int) + seq![':'] + dec2(
        t.second as int,
    )
}

fn push_dec2(s: &mut String, n: u32)
    requires
        n <= 99,
    ensures
        final(s)@ == old(s)@ + dec2(n as int),
{
    s.push(digit_to_char((n / 10) as u64));
    s.push(digit_to_char((n % 10) as u64));
    proof {
        assert(final(s)@ =~= old(s)@ + dec2(n as int));
    }
}

fn push_dec4(s: &mut String, n: u32)
    requires
        n <= 9999,
    ensures
        final(s)@ == old(s)@ + dec4(n as int),
{
    s.push(digit_to_char((n / 1000) as u64));
    s.push(digit_to_char((n / 100 % 10) as u64));
    s.push(digit_to_char((n / 10 % 10) as u64));
    s.push(digit_to_char((n % 10) as u64));
    proof {
        assert(n / 1000 % 10 == n / 1000) by (nonlinear_arith)
            requires
                n <= 9999,
        ;
        assert(final(s)@ =~= old(s)@ + dec4(n as int));
    }
}

/// The value of the two digit characters at `i`, or -1 if either is not a digit.
pub open spec fn read2(s: Seq<char>, i: int) -> int {
    if is2(s, i) {
        digit_val(s[i]) * 10 + digit_val(s[i + 1])
    } else {
        -1
    }
}

pub open spec fn is2(s: Seq<char>, i: int) -> bool {
    digit_val(s[i]) >= 0 && digit_val(s[i + 1]) >= 0
}

/// The value of the four digit characters at `i`, or -1 if any is not a digit.
pub open spec fn read4(s: Seq<char>, i: int) -> int {
    if is4(s, i) {
        ((digit_val(s[i]) * 10 + digit_val(s[i + 1])) * 10 + digit_val(s[i + 2])) * 10 + digit_val(
            s[i + 3],
        )
    } else {
        -1
    }
}

pub open spec fn is4(s: Seq<char>, i: int) -> bool {
    &&& digit_val(s[i]) >= 0
    &&& digit_val(s[i + 1]) >= 0
    &&& digit_val(s[i + 2]) >= 0
    &&& digit_val(s[i + 3]) >= 0
}

/// The timestamp whose canonical text stands at `i`, if a valid one does.
pub open spec fn parse_at(s: Seq<char>, i: int) -> Option<Timestamp> {
    if i + 19 <= s.len() && s[i + 4] == '-' && s[i + 7] == '-' && s[i + 10] == ' ' && s[i + 13]
        == ':' && s[i + 16] == ':' && is4(s, i) && is2(s, i + 5) && is2(s, i + 8) && is2(s, i + 11)
        && is2(s, i + 14) && is2(s, i + 17) {
        let t = Timestamp {
            year: read4(s, i) as u32,
            month: read2(s, i + 5) as u32,
            day: read2(s, i + 8) as u32,
            hour: read2(s, i + 11) as u32,
            minute: read2(s, i + 14) as u32,
            second: read2(s, i + 17) as u32,
        };
        if t.valid() {
            Some(t)
        } else {
            None
        }
    } else {
        None
    }
}

fn read2v(v: &Vec<char>, i: usize) -> (r: Option<u32>)
    requires
        i + 2 <= v@.len(),
    ensures
        match r {
            None => !is2(v@, i as int),
            Some(x) => is2(v@, i as int) && x == read2(v@, i as int),
        },
{
    let vlen = v.len();
    match char_to_digit(v[i]) {
        None => None,
        Some(a) => match char_to_digit(v[i + 1]) {
            None => None,
            Some(b) => Some((a * 10 + b) as u32),
        },
    }
}

fn read4v(v: &Vec<char>, i: usize) -> (r: Option<u32>)
    requires
        i + 4 <= v@.len(),
    ensures
        match r {
            None => !is4(v@, i as int),
            Some(x) => is4(v@, i as int) && x == read4(v@, i as int),
        },
{
    let vlen = v.len();
    match char_to_digit(v[i]) {
        None => None,
        Some(a) => match char_to_digit(v[i + 1]) {
            None => None,
            Some(b) => match char_to_digit(v[i + 2]) {
                None => None,
                Some(c) => match char_to_digit(v[i + 3]) {
                    None => None,
                    Some(d) => Some((((a * 10 + b) * 10 + c) * 10 + d) as u32),
                },
            },
        },
    }
}

/// Reads a canonical timestamp standing at `start`.
pub(crate) fn read_ts(v: &Vec<char>, start: usize) -> (r: Option<(Timestamp, usize)>)
    requires
        start <= v@.len(),
    ensures
        match r {
            None => parse_at(v@, start as int) is None,
            Some(p) => parse_at(v@, start as int) == Some(p.0) && p.1 == start + 19 && p.1
                <= v@.len() && p.0.valid(),
        },
{
    let vlen = v.len();
    if vlen < 19 || start > vlen - 19 {
        return None;
    }
    if !(v[start + 4] == '-' && v[start + 7] == '-' && v[start + 10] == ' ' && v[start + 13] == ':'
        && v[start + 16] == ':') {
        return None;
    }
    let year = match read4v(v, start) {
        None => { return None; },
        Some(x) => x,
    };
    let month = match read2v(v, start + 5) {
        None => { return None; },
        Some(x) => x,
    };
    let day = match read2v(v, start + 8) {
        None => { return None; },
        Some(x) => x,
    };
    let hour = match read2v(v, start + 11) {
        None => { return None; },
        Some(x) => x,
    };
    let minute = match read2v(v, start + 14) {
        None => { return None; },
        Some(x) => x,
    };
    let second = match read2v(v, start + 17) {
        None => { return None; },
        Some(x) => x,
    };
    let t = Timestamp { year, month, day, hour, minute, second };
    if t.year <= 9999 && 1 <= t.month && t.month <= 12 && 1 <= t.day && t.day <= 31 && t.hour <= 23
        && t.minute <= 59 && t.second <= 59 {
        Some((t, start + 19))
    } else {
        None
    }
}

/// Reading back the canonical text yields the same timestamp.
pub proof fn lemma_parse_render(s: Seq<char>, i: int, t: Timestamp)
    requires
        t.valid(),
        0 <= i,
        i + 19 <= s.len(),
        s.subrange(i, i + 19) == text_of(t),
    ensures
        parse_at(s, i) == Some(t),
{
    let sub = s.subrange(i, i + 19);
    assert forall|k: int| 0 <= k < 19 implies s[i + k] == text_of(t)[k] by {
        assert(sub[k] == s[i + k]);
    }
    assert(digit_val(s[i]) == t.year as int / 1000 % 10) by {
        assert(s[i + 0] == text_of(t)[0]);
        lemma_digit_char_val(t.year as int / 1000 % 10);
    }
    assert(digit_val(s[i + 1]) == t.year as int / 100 % 10) by {
        assert(s[i + 1] == text_of(t)[1]);
        lemma_digit_char_val(t.year as int / 100 % 10);
    }
    assert(digit_val(s[i + 2]) == t.year as int / 10 % 10) by {
        assert(s[i + 2] == text_of(t)[2]);
        lemma_digit_char_val(t.year as int / 10 % 10);
    }
    assert(digit_val(s[i + 3]) == t.year as int % 10) by {
        assert(s[i + 3] == text_of(t)[3]);
        lemma_digit_char_val(t.year as int % 10);
    }
    assert(s[i + 5] == text_of(t)[5] && s[i + 6] == text_of(t)[6]);
    lemma_read2_dec2(s, i + 5, t.month as int);
    assert(s[i + 8] == text_of(t)[8] && s[i + 9] == text_of(t)[9]);
    lemma_read2_dec2(s, i + 8, t.day as int);
    assert(s[i + 11] == text_of(t)[11] && s[i + 12] == text_of(t)[12]);
    lemma_read2_dec2(s, i + 11, t.hour as int);
    assert(s[i + 14] == text_of(t)[14] && s[i + 15] == text_of(t)[15]);
    lemma_read2_dec2(s, i + 14, t.minute as int);
    assert(s[i + 17] == text_of(t)[17] && s[i + 18] == text_of(t)[18]);
    lemma_read2_dec2(s, i + 17, t.second as int);
    assert(s[i + 4] == text_of(t)[4]);
    assert(s[i + 7] == text_of(t)[7]);
    assert(s[i + 10] == text_of(t)[10]);
    assert(s[i + 13] == text_of(t)[13]);
    assert(s[i + 16] == text_of(t)[16]);
    assert(read4(s, i) == t.year as int) by (nonlinear_arith)
        requires
            t.year <= 9999,
            is4(s, i),
            digit_val(s[i]) == t.year as int / 1000 % 10,
            digit_val(s[i + 1]) == t.year as int / 100 % 10,
            digit_val(s[i + 2]) == t.year as int / 10 % 10,
            digit_val(s[i + 3]) == t.year as int % 10,
    ;
}

proof fn lemma_read2_dec2(s: Seq<char>, j: int, n: int)
    requires
        0 <= n <= 99,
        0 <= j,
        j + 2 <= s.len(),
        s[j] == digit_char(n / 10 % 10),
        s[j + 1] == digit_char(n % 10),
    ensures
        read2(s, j) == n,
{
    lemma_digit_char_val(n / 10 % 10);
    lemma_digit_char_val(n % 10);
    assert(n / 10 % 10 == n / 10);
}

} // verus!
