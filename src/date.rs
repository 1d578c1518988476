//! Reference dates for choosing which revision of a statute to index,
//! written `yyyy/MM/dd`, `yyyy-MM-dd` or `yyyyMMdd`.
use vstd::prelude::*;
use vstd::string::StringSliceAdditionalSpecFns;

verus! {

/// A date of the Western calendar.
#[derive(Debug, Clone, Copy, PartialEq, Eq, Structural)]
pub struct Date {
    pub year: usize,
    pub month: usize,
    pub day: usize,
}

impl Date {
    pub fn gen_from_ad(year: usize, month: usize, day: usize) -> (r: Date)
        ensures
            r == (Date { year, month, day }),
    {
        Date { year, month, day }
    }
}

/// Why a date could not be read.
#[derive(Debug, Clone, Copy, PartialEq, Eq, Structural)]
pub enum DateParseError {
    /// The month is above 12 or the day above 31.
    OutOfRange,
    /// No date in any of the accepted forms occurs in the text.
    UnsupportedFormat,
}

pub const SLASH: u8 = 0x2f;

pub const HYPHEN: u8 = 0x2d;

pub open spec fn is_digit(b: u8) -> bool {
    0x30 <= b <= 0x39
}

/// Length of a date written with separator `sep`, or without one.
pub open spec fn width(sep: Option<u8>) -> int {
    if sep is Some {
        10
    } else {
        8
    }
}

pub open spec fn month_start(sep: Option<u8>) -> int {
    if sep is Some {
        5
    } else {
        4
    }
}

pub open spec fn day_start(sep: Option<u8>) -> int {
    if sep is Some {
        8
    } else {
        6
    }
}

/// Byte `b` may stand at offset `i` of a date written with `sep`.
pub open spec fn fits(b: u8, sep: Option<u8>, i: int) -> bool {
    match sep {
        Some(c) => if i == 4 || i == 7 {
            b == c
        } else {
            is_digit(b)
        },
        None => is_digit(b),
    }
}

/// A date written with `sep` starts at byte `k` of `s`.
pub open spec fn date_at(s: Seq<u8>, k: int, sep: Option<u8>) -> bool {
    &&& 0 <= k
    &&& k + width(sep) <= s.len()
    &&& forall|i: int| 0 <= i < width(sep) ==> fits(#[trigger] s[k + i], sep, i)
}

pub open spec fn occurs_date(s: Seq<u8>, sep: Option<u8>) -> bool {
    exists|k: int| date_at(s, k, sep)
}

/// `k` is the first position of `s` where a date written with `sep` starts.
pub open spec fn leftmost_date(s: Seq<u8>, sep: Option<u8>, k: int) -> bool {
    &&& date_at(s, k, sep)
    &&& forall|q: int| 0 <= q < k ==> !date_at(s, q, sep)
}

/// The number that a run of decimal digits writes.
pub open spec fn digits_value(s: Seq<u8>) -> nat
    decreases s.len(),
{
    if s.len() == 0 {
        0
    } else {
        digits_value(s.drop_last()) * 10 + (s.last() - 0x30) as nat
    }
}

/// Year, month and day of the date written with `sep` at byte `k`.
pub open spec fn fields_at(s: Seq<u8>, sep: Option<u8>, k: int) -> (nat, nat, nat) {
    (
        digits_value(s.subrange(k, k + 4)),
        digits_value(s.subrange(k + month_start(sep), k + month_start(sep) + 2)),
        digits_value(s.subrange(k + day_start(sep), k + day_start(sep) + 2)),
    )
}

pub open spec fn first_fields(s: Seq<u8>, sep: Option<u8>) -> (nat, nat, nat) {
    fields_at(s, sep, choose|k: int| leftmost_date(s, sep, k))
}

/// The fields of the first date in the text: the forms are tried in the
/// order `yyyy/MM/dd`, `yyyy-MM-dd`, `yyyyMMdd`, and the first form that
/// occurs anywhere is read at its leftmost occurrence.
pub open spec fn date_fields(s: Seq<u8>) -> Option<(nat, nat, nat)> {
    if occurs_date(s, Some(SLASH)) {
        Some(first_fields(s, Some(SLASH)))
    } else if occurs_date(s, Some(HYPHEN)) {
        Some(first_fields(s, Some(HYPHEN)))
    } else if occurs_date(s, None) {
        Some(first_fields(s, None))
    } else {
        None
    }
}

proof fn lemma_leftmost_unique(s: Seq<u8>, sep: Option<u8>, k: int)
    requires
        leftmost_date(s, sep, k),
    ensures
        (choose|q: int| leftmost_date(s, sep, q)) == k,
{
    let q = choose|q: int| leftmost_date(s, sep, q);
    assert(leftmost_date(s, sep, q));
    if q < k {
        assert(!date_at(s, q, sep));
    } else if q > k {
        assert(!date_at(s, k, sep));
    }
}

proof fn lemma_digits_bound(s: Seq<u8>)
    requires
        forall|i: int| 0 <= i < s.len() ==> is_digit(#[trigger] s[i]),
    ensures
        digits_value(s) < pow10(s.len()),
    decreases s.len(),
{
    if s.len() > 0 {
        let r = s.drop_last();
        assert forall|i: int| 0 <= i < r.len() implies is_digit(#[trigger] r[i]) by {
            assert(r[i] == s[i]);
        }
        lemma_digits_bound(r);
        assert(digits_value(r) * 10 + 9 < pow10(r.len()) * 10) by (nonlinear_arith)
            requires
                digits_value(r) < pow10(r.len()),
        ;
    }
}

pub open spec fn pow10(n: nat) -> nat
    decreases n,
{
    if n == 0 {
        1
    } else {
        pow10((n - 1) as nat) * 10
    }
}

/// Whether a date written with `sep` starts at byte `k`.
fn date_starts_at(s: &[u8], k: usize, sep: Option<u8>) -> (r: bool)
    requires
        k + width(sep) <= s@.len(),
    ensures
        r == date_at(s@, k as int, sep),
{
    let w: usize = if sep.is_some() {
        10
    } else {
        8
    };
    let n = s.len();
    let mut i: usize = 0;
    while i < w
        invariant
            n == s@.len(),
            w == width(sep),
            k + w <= s@.len(),
            i <= w,
            forall|q: int| 0 <= q < i ==> fits(#[trigger] s@[k + q], sep, q),
        decreases w - i,
    {
        let b = s[k + i];
        let ok = match sep {
            Some(c) => if i == 4 || i == 7 {
                b == c
            } else {
                0x30 <= b && b <= 0x39
            },
            None => 0x30 <= b && b <= 0x39,
        };
        if !ok {
            assert(!fits(s@[k + i as int], sep, i as int));
            return false;
        }
        i += 1;
    }
    true
}

/// The first position where a date written with `sep` starts.
fn find_date(s: &[u8], sep: Option<u8>) -> (r: Option<usize>)
    ensures
        r matches Some(k) ==> leftmost_date(s@, sep, k as int),
        r is None ==> !occurs_date(s@, sep),
{
    let w: usize = if sep.is_some() {
        10
    } else {
        8
    };
    if s.len() < w {
        return None;
    }
    let last = s.len() - w;
    let mut k: usize = 0;
    while k <= last
        invariant
            last == s@.len() - w,
            s@.len() <= usize::MAX,
            w == width(sep),
            w <= s@.len(),
            k <= s@.len() - w + 1,
            forall|q: int| 0 <= q < k ==> !date_at(s@, q, sep),
        decreases s@.len() - k,
    {
        if date_starts_at(s, k, sep) {
            return Some(k);
        }
        k += 1;
    }
    None
}

/// The number written by the `n` digits at byte `start`.
fn digits_at(s: &[u8], start: usize, n: usize) -> (r: usize)
    requires
        n <= 4,
        start + n <= s@.len(),
        forall|i: int| start <= i < start + n ==> is_digit(#[trigger] s@[i]),
    ensures
        r == digits_value(s@.subrange(start as int, start + n)),
{
    let len = s.len();
    let mut v: usize = 0;
    let mut i: usize = 0;
    while i < n
        invariant
            len == s@.len(),
            n <= 4,
            start + n <= s@.len(),
            i <= n,
            forall|q: int| start <= q < start + n ==> is_digit(#[trigger] s@[q]),
            v == digits_value(s@.subrange(start as int, start + i)),
        decreases n - i,
    {
        let ghost prefix = s@.subrange(start as int, start + i);
        proof {
            assert forall|q: int| 0 <= q < prefix.len() implies is_digit(#[trigger] prefix[q]) by {
                assert(prefix[q] == s@[start + q]);
            }
            lemma_digits_bound(prefix);
            assert(pow10(0) == 1 && pow10(1) == 10 && pow10(2) == 100 && pow10(3) == 1000) by {
                reveal_with_fuel(pow10, 4);
            }
            assert(s@.subrange(start as int, start + i + 1).drop_last() =~= prefix);
        }
        v = v * 10 + (s[start + i] - 0x30) as usize;
        i += 1;
    }
    v
}

/// Reads the first date of the text in the forms `yyyy/MM/dd`, `yyyy-MM-dd`
/// or `yyyyMMdd`, tried in that order.
pub fn parse_date(text: &str) -> (r: Result<Date, DateParseError>)
    ensures
        match date_fields(text.spec_bytes()) {
            None => r == Err::<Date, DateParseError>(DateParseError::UnsupportedFormat),
            Some((y, m, d)) => if m > 12 || d > 31 {
                r == Err::<Date, DateParseError>(DateParseError::OutOfRange)
            } else {
                r matches Ok(date) && date.year == y && date.month == m && date.day == d
            },
        },
{
    let s = text.as_bytes();
    let len = s.len();
    let mut found: Option<(usize, Option<u8>)> = None;
    match find_date(s, Some(SLASH)) {
        Some(k) => {
            found = Some((k, Some(SLASH)));
        },
        None => match find_date(s, Some(HYPHEN)) {
            Some(k) => {
                found = Some((k, Some(HYPHEN)));
            },
            None => match find_date(s, None) {
                Some(k) => {
                    found = Some((k, None));
                },
                None => {},
            },
        },
    }
    match found {
        None => Err(DateParseError::UnsupportedFormat),
        Some((k, sep)) => {
            proof {
                lemma_leftmost_unique(s@, sep, k as int);
                assert(fits(s@[k + 0], sep, 0));
            }
            let (ms, ds): (usize, usize) = if sep.is_some() {
                (5, 8)
            } else {
                (4, 6)
            };
            proof {
                assert forall|i: int| k <= i < k + 4 implies is_digit(#[trigger] s@[i]) by {
                    assert(fits(s@[k + (i - k)], sep, i - k));
                }
                assert forall|i: int| k + ms <= i < k + ms + 2 implies is_digit(#[trigger] s@[i]) by {
                    assert(fits(s@[k + (i - k)], sep, i - k));
                }
                assert forall|i: int| k + ds <= i < k + ds + 2 implies is_digit(#[trigger] s@[i]) by {
                    assert(fits(s@[k + (i - k)], sep, i - k));
                }
            }
            let y = digits_at(s, k, 4);
            let m = digits_at(s, k + ms, 2);
            let d = digits_at(s, k + ds, 2);
            if 12 < m || 31 < d {
                Err(DateParseError::OutOfRange)
            } else {
                Ok(Date::gen_from_ad(y, m, d))
            }
        },
    }
}

} // verus!
