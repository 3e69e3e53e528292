//! The decidable parts of the template helpers: parsing date strings,
//! bounding the UTC offset, and matching a page's routing key against a
//! caller-supplied pattern.  The rendering layer calls these; what only a
//! date/time library can compute (the time now, calendar formatting) stays
//! with the caller.

use vstd::prelude::*;
use crate::strutil::{split_char, split_chars, views_of};

verus! {

// ---------------------------------------------------------------------------
// Digit strings
// ---------------------------------------------------------------------------

pub open spec fn is_digit(c: char) -> bool {
    48 <= (c as int) <= 57
}

pub open spec fn all_digits(s: Seq<char>) -> bool {
    forall|i: int| 0 <= i < s.len() ==> is_digit(#[trigger] s[i])
}

/// The number a digit string denotes.
pub open spec fn digits_value(s: Seq<char>) -> int
    decreases s.len(),
{
    if s.len() == 0 {
        0
    } else {
        digits_value(s.drop_last()) * 10 + ((s.last() as int) - 48)
    }
}

proof fn lemma_digits_value_nonneg(s: Seq<char>)
    requires
        all_digits(s),
    ensures
        digits_value(s) >= 0,
    decreases s.len(),
{
    if s.len() > 0 {
        assert(all_digits(s.drop_last())) by {
            assert(forall|i: int| 0 <= i < s.len() - 1 ==> s.drop_last()[i] == s[i]);
        }
        lemma_digits_value_nonneg(s.drop_last());
    }
}

/// More digits never shrink the value.
proof fn lemma_digits_value_monotone(s: Seq<char>, k: int)
    requires
        all_digits(s),
        0 <= k <= s.len(),
    ensures
        digits_value(s) >= digits_value(s.take(k)),
    decreases s.len() - k,
{
    if k == s.len() {
        assert(s.take(k) =~= s);
    } else {
        lemma_digits_value_monotone(s, k + 1);
        let t = s.take(k + 1);
        assert(t.drop_last() =~= s.take(k));
        assert(all_digits(s.take(k))) by {
            assert(forall|i: int| 0 <= i < k ==> s.take(k)[i] == s[i]);
        }
        lemma_digits_value_nonneg(s.take(k));
        assert(digits_value(t) == digits_value(s.take(k)) * 10 + ((t.last() as int) - 48));
        assert(t.last() == s[k]);
        assert(is_digit(s[k]));
    }
}

/// Parses an unsigned decimal number: defined exactly when the text is a
/// non-empty digit string whose value fits.
pub fn parse_u32(s: &str) -> (r: Option<u32>)
    ensures
        r is Some <==> (s@.len() > 0 && all_digits(s@) && digits_value(s@) <= u32::MAX),
        r matches Some(v) ==> v == digits_value(s@),
{
    let n = s.unicode_len();
    if n == 0 {
        return None;
    }
    let mut acc: u32 = 0;
    let mut i: usize = 0;
    proof {
        assert(s@.take(0) =~= Seq::<char>::empty());
    }
    while i < n
        invariant
            i <= n,
            n == s@.len(),
            forall|k: int| 0 <= k < i ==> is_digit(#[trigger] s@[k]),
            acc == digits_value(s@.take(i as int)),
        decreases n - i,
    {
        let c = s.get_char(i);
        let cv = c as u32;
        if !(48 <= cv && cv <= 57) {
            assert(!is_digit(s@[i as int]));
            return None;
        }
        let d = cv - 48;
        proof {
            assert(s@.take(i + 1).drop_last() =~= s@.take(i as int));
            assert(s@.take(i + 1).last() == s@[i as int]);
        }
        if acc > (u32::MAX - d) / 10 {
            proof {
                assert(all_digits(s@.take(i + 1))) by {
                    assert(forall|k: int| 0 <= k < i + 1 ==> s@.take(i + 1)[k] == s@[k]);
                }
                assert(digits_value(s@.take(i + 1)) == acc * 10 + d);
                assert(digits_value(s@.take(i + 1)) > u32::MAX);
                if all_digits(s@) {
                    lemma_digits_value_monotone(s@, i + 1);
                    assert(s@.take(n as int) =~= s@);
                    assert(digits_value(s@) > u32::MAX);
                }
            }
            return None;
        }
        acc = acc * 10 + d;
        i = i + 1;
    }
    proof {
        assert(s@.take(n as int) =~= s@);
    }
    Some(acc)
}

// ---------------------------------------------------------------------------
// Date strings
// ---------------------------------------------------------------------------

/// A `YYYY-MM-DD`-shaped string: at least three `-`-separated components,
/// the first three being non-empty digit strings that fit.
pub open spec fn date_string_ok(s: Seq<char>) -> bool {
    let parts = split_chars(s, '-');
    &&& parts.len() >= 3
    &&& (forall|k: int|
        0 <= k < 3 ==> (#[trigger] parts[k]).len() > 0 && all_digits(parts[k]) && digits_value(
            parts[k],
        ) <= u32::MAX)
}

/// The year, month and day of a date string.
pub open spec fn date_value(s: Seq<char>, k: int) -> int {
    digits_value(split_chars(s, '-')[k])
}

/// Parses a date in `YYYY-MM-DD` form into its numeric components.
pub fn parse_date_string(s: &str) -> (r: Option<(u32, u32, u32)>)
    ensures
        r is Some <==> date_string_ok(s@),
        r matches Some(d) ==> d.0 == date_value(s@, 0) && d.1 == date_value(s@, 1) && d.2
            == date_value(s@, 2),
{
    let parts = split_char(s, '-');
    if parts.len() < 3 {
        return None;
    }
    proof {
        assert(views_of(parts@)[0] == parts@[0]@);
        assert(views_of(parts@)[1] == parts@[1]@);
        assert(views_of(parts@)[2] == parts@[2]@);
    }
    let y = parse_u32(parts[0].as_str());
    let m = parse_u32(parts[1].as_str());
    let d = parse_u32(parts[2].as_str());
    match (y, m, d) {
        (Some(y), Some(m), Some(d)) => {
            proof {
                assert forall|k: int|
                    0 <= k < 3 implies (#[trigger] split_chars(s@, '-')[k]).len() > 0
                    && all_digits(split_chars(s@, '-')[k]) && digits_value(split_chars(s@, '-')[k])
                    <= u32::MAX by {
                    assert(views_of(parts@)[k] == parts@[k]@);
                }
            }
            Some((y, m, d))
        },
        _ => {
            assert(!date_string_ok(s@)) by {
                if date_string_ok(s@) {
                    assert(split_chars(s@, '-')[0].len() > 0);
                    assert(split_chars(s@, '-')[1].len() > 0);
                    assert(split_chars(s@, '-')[2].len() > 0);
                }
            }
            None
        },
    }
}

/// The fixed UTC offset in seconds for a whole-hour offset, bounded to what
/// a time zone can hold.
pub fn utc_offset_seconds(hours: i32) -> (r: Option<i32>)
    ensures
        r is Some <==> -24 < hours < 24,
        r matches Some(v) ==> v == hours * 3600,
{
    if -24 < hours && hours < 24 {
        Some(hours * 3600)
    } else {
        None
    }
}

// ---------------------------------------------------------------------------
// Pattern matching on routing keys
// ---------------------------------------------------------------------------

/// Whether a pattern is a valid regular expression: a function of the
/// pattern alone.
pub uninterp spec fn regex_ok(pat: Seq<char>) -> bool;

/// Whether a valid pattern matches a text: a function of pattern and text
/// alone.
pub uninterp spec fn regex_match(pat: Seq<char>, text: Seq<char>) -> bool;

/// Relies on regex::Regex::new, whose success depends on the pattern alone,
/// and regex::Regex::is_match, whose result depends on pattern and text
/// alone.
#[verifier::external_body]
fn regex_is_match(pat: &str, text: &str) -> (r: Option<bool>)
    ensures
        r is Some <==> regex_ok(pat@),
        r matches Some(b) ==> b == regex_match(pat@, text@),
{
    match regex::Regex::new(pat) {
        Ok(re) => Some(re.is_match(text)),
        Err(_) => None,
    }
}

/// The outcome of matching a page's routing key against a helper's pattern.
#[derive(Debug, Clone, Copy, PartialEq, Eq, Structural)]
pub enum SlugCheck {
    /// The pattern does not compile.
    InvalidPattern,
    /// The rendering context carries no routing key.
    NoSlug,
    Match,
    NoMatch,
}

/// Decides whether a conditional template block applies: the helpers render
/// their main block on `Match` (or, inverted, on `NoMatch`), and their
/// else-block otherwise.
pub fn check_slug(pattern: &str, slug: &Option<String>) -> (r: SlugCheck)
    ensures
        !regex_ok(pattern@) ==> r == SlugCheck::InvalidPattern,
        regex_ok(pattern@) && slug is None ==> r == SlugCheck::NoSlug,
        regex_ok(pattern@) ==> (slug matches Some(s) ==> r == if regex_match(pattern@, s@) {
            SlugCheck::Match
        } else {
            SlugCheck::NoMatch
        }),
{
    match slug {
        None => {
            match regex_is_match(pattern, "") {
                Some(_) => SlugCheck::NoSlug,
                None => SlugCheck::InvalidPattern,
            }
        },
        Some(s) => {
            match regex_is_match(pattern, s.as_str()) {
                Some(true) => SlugCheck::Match,
                Some(false) => SlugCheck::NoMatch,
                None => SlugCheck::InvalidPattern,
            }
        },
    }
}

} // verus!
