//! Trimming and decimal parsing of sysfs attribute text.
//!
//! Sysfs attributes are small text files, typically one decimal number and a
//! trailing newline.  The functions here mirror what `str::trim` followed by
//! `str::parse::<u64>` (or `::<u32>`) does on such text, stated over the raw
//! bytes: whitespace is stripped at both ends, an optional leading `+` sign is
//! accepted, and the remainder must be one or more ASCII digits whose value
//! fits the target type.

use vstd::prelude::*;

verus! {

/// ASCII whitespace: space and the controls `\t`, `\n`, vertical tab, form
/// feed, `\r` (bytes 9 through 13).
pub open spec fn is_space(b: u8) -> bool {
    b == 32 || (9 <= b && b <= 13)
}

/// An ASCII decimal digit, `'0'` through `'9'`.
pub open spec fn is_digit(b: u8) -> bool {
    48 <= b && b <= 57
}

/// The numeric value of the digit byte `b`.
pub open spec fn digit_val(b: u8) -> nat {
    (b - 48) as nat
}

/// `s` without its leading whitespace.
pub open spec fn trim_start(s: Seq<u8>) -> Seq<u8>
    decreases s.len(),
{
    if s.len() > 0 && is_space(s[0]) {
        trim_start(s.drop_first())
    } else {
        s
    }
}

/// `s` without its trailing whitespace.
pub open spec fn trim_end(s: Seq<u8>) -> Seq<u8>
    decreases s.len(),
{
    if s.len() > 0 && is_space(s.last()) {
        trim_end(s.drop_last())
    } else {
        s
    }
}

/// `s` without leading and trailing whitespace, as `str::trim` leaves ASCII
/// text.
pub open spec fn trim(s: Seq<u8>) -> Seq<u8> {
    trim_end(trim_start(s))
}

pub open spec fn all_digits(s: Seq<u8>) -> bool {
    forall|i: int| 0 <= i < s.len() ==> is_digit(s[i])
}

/// The value of a digit string, most significant digit first.
pub open spec fn dec_value(s: Seq<u8>) -> nat
    decreases s.len(),
{
    if s.len() == 0 {
        0
    } else {
        dec_value(s.drop_last()) * 10 + digit_val(s.last())
    }
}

/// The digit part of a decimal literal: an optional leading `+` sign (byte
/// 43) is accepted, as `u64::from_str` accepts it.
pub open spec fn digits_part(s: Seq<u8>) -> Seq<u8> {
    if s.len() > 0 && s[0] == 43 {
        s.drop_first()
    } else {
        s
    }
}

/// Whether `s` is a well-formed unsigned decimal literal whose value is at
/// most `max`.
pub open spec fn parses_within(s: Seq<u8>, max: nat) -> bool {
    digits_part(s).len() > 0 && all_digits(digits_part(s)) && dec_value(digits_part(s)) <= max
}

/// What `str::parse::<u64>` returns on the text `s`.
pub open spec fn spec_parse_u64(s: Seq<u8>) -> Option<u64> {
    if parses_within(s, u64::MAX as nat) {
        Some(dec_value(digits_part(s)) as u64)
    } else {
        None
    }
}

/// What `str::parse::<u32>` returns on the text `s`.
pub open spec fn spec_parse_u32(s: Seq<u8>) -> Option<u32> {
    if parses_within(s, u32::MAX as nat) {
        Some(dec_value(digits_part(s)) as u32)
    } else {
        None
    }
}

/// If the first `lo` bytes of `s` are whitespace and byte `lo` (if any) is
/// not, then trimming the start of `s` leaves exactly `s[lo..]`.
proof fn lemma_trim_start_at(s: Seq<u8>, lo: int)
    requires
        0 <= lo <= s.len(),
        forall|i: int| 0 <= i < lo ==> is_space(s[i]),
        lo == s.len() || !is_space(s[lo]),
    ensures
        trim_start(s) == s.subrange(lo, s.len() as int),
    decreases lo,
{
    if lo == 0 {
        assert(s.subrange(0, s.len() as int) =~= s);
    } else {
        assert(is_space(s[0]));
        lemma_trim_start_at(s.drop_first(), lo - 1);
        assert(s.drop_first().subrange(lo - 1, s.drop_first().len() as int) =~= s.subrange(
            lo,
            s.len() as int,
        ));
    }
}

/// If every byte of `s` from `hi` on is whitespace and byte `hi - 1` (if any)
/// is not, then trimming the end of `s` leaves exactly `s[..hi]`.
proof fn lemma_trim_end_at(s: Seq<u8>, hi: int)
    requires
        0 <= hi <= s.len(),
        forall|i: int| hi <= i < s.len() ==> is_space(s[i]),
        hi == 0 || !is_space(s[hi - 1]),
    ensures
        trim_end(s) == s.subrange(0, hi),
    decreases s.len() - hi,
{
    if hi == s.len() {
        assert(s.subrange(0, hi) =~= s);
    } else {
        assert(is_space(s.last()));
        lemma_trim_end_at(s.drop_last(), hi);
        assert(s.drop_last().subrange(0, hi) =~= s.subrange(0, hi));
    }
}

/// A prefix of a digit string never has a larger value than the whole.
proof fn lemma_dec_value_prefix(s: Seq<u8>, k: int)
    requires
        0 <= k <= s.len(),
    ensures
        dec_value(s.subrange(0, k)) <= dec_value(s),
    decreases s.len() - k,
{
    if k == s.len() {
        assert(s.subrange(0, k) =~= s);
    } else {
        lemma_dec_value_prefix(s.drop_last(), k);
        assert(s.drop_last().subrange(0, k) =~= s.subrange(0, k));
    }
}

fn byte_is_space(b: u8) -> (r: bool)
    ensures
        r == is_space(b),
{
    b == 32 || (9 <= b && b <= 13)
}

/// The bounds of `s` with surrounding whitespace left out: the subrange of
/// `s` between the two returned indices is exactly `trim(s@)`.
pub fn trim_range(s: &[u8]) -> (r: (usize, usize))
    ensures
        r.0 <= r.1 <= s@.len(),
        s@.subrange(r.0 as int, r.1 as int) == trim(s@),
{
    let len = s.len();
    let mut lo: usize = 0;
    while lo < len && byte_is_space(s[lo])
        invariant
            lo <= len == s@.len(),
            forall|i: int| 0 <= i < lo ==> is_space(s@[i]),
        decreases len - lo,
    {
        lo = lo + 1;
    }
    let mut hi: usize = len;
    while hi > lo && byte_is_space(s[hi - 1])
        invariant
            lo <= hi <= len == s@.len(),
            forall|i: int| hi <= i < s@.len() ==> is_space(s@[i]),
        decreases hi,
    {
        hi = hi - 1;
    }
    proof {
        lemma_trim_start_at(s@, lo as int);
        let t = s@.subrange(lo as int, s@.len() as int);
        assert(forall|i: int| hi - lo <= i < t.len() ==> is_space(#[trigger] t[i]));
        lemma_trim_end_at(t, hi - lo);
        assert(t.subrange(0, hi - lo) =~= s@.subrange(lo as int, hi as int));
    }
    (lo, hi)
}

/// Parse `s[lo..hi]` as `str::parse::<u64>` parses that text.
pub fn parse_u64_range(s: &[u8], lo: usize, hi: usize) -> (r: Option<u64>)
    requires
        lo <= hi <= s@.len(),
    ensures
        r == spec_parse_u64(s@.subrange(lo as int, hi as int)),
{
    let ghost t = s@.subrange(lo as int, hi as int);
    let mut i = lo;
    if i < hi && s[i] == 43 {
        i = i + 1;
    }
    let ghost d = digits_part(t);
    proof {
        assert(d =~= s@.subrange(i as int, hi as int));
    }
    if i == hi {
        return None;
    }
    let mut acc: u64 = 0;
    let mut j = i;
    while j < hi
        invariant
            lo <= i <= j <= hi <= s@.len(),
            t == s@.subrange(lo as int, hi as int),
            d == digits_part(t),
            d == s@.subrange(i as int, hi as int),
            all_digits(d.subrange(0, j - i)),
            acc as nat == dec_value(d.subrange(0, j - i)),
        decreases hi - j,
    {
        let ghost k = j - i;
        let c = s[j];
        proof {
            assert(d[k] == c);
        }
        if c < 48 || 57 < c {
            assert(!is_digit(d[k]));
            return None;
        }
        let dv = (c - 48) as u64;
        let grown = match acc.checked_mul(10) {
            Some(m) => m.checked_add(dv),
            None => None,
        };
        proof {
            assert(d.subrange(0, k + 1).drop_last() =~= d.subrange(0, k));
            assert(d.subrange(0, k + 1).last() == d[k]);
            assert(dec_value(d.subrange(0, k + 1)) == acc as nat * 10 + digit_val(c));
        }
        match grown {
            Some(v) => {
                acc = v;
                j = j + 1;
                assert(d.subrange(0, j - i) =~= d.subrange(0, k + 1));
            },
            None => {
                proof {
                    lemma_dec_value_prefix(d, k + 1);
                    assert(dec_value(d) > u64::MAX as nat);
                }
                return None;
            },
        }
    }
    proof {
        assert(d.subrange(0, j - i) =~= d);
    }
    Some(acc)
}

/// `str::parse::<u64>` applied to `s` with surrounding whitespace trimmed.
pub fn parse_trimmed_u64(s: &[u8]) -> (r: Option<u64>)
    ensures
        r == spec_parse_u64(trim(s@)),
{
    let (lo, hi) = trim_range(s);
    let r = parse_u64_range(s, lo, hi);
    proof {
        assert(s@.subrange(lo as int, hi as int) == trim(s@));
    }
    r
}

/// `str::parse::<u32>` applied to `s` with surrounding whitespace trimmed.
pub fn parse_trimmed_u32(s: &[u8]) -> (r: Option<u32>)
    ensures
        r == spec_parse_u32(trim(s@)),
{
    match parse_trimmed_u64(s) {
        Some(v) => {
            if v <= 0xFFFF_FFFF {
                Some(v as u32)
            } else {
                None
            }
        },
        None => None,
    }
}

} // verus!
