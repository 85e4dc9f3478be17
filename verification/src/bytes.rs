//! Byte buffers: writing text and slices into them.
use vstd::prelude::*;
use vstd::string::StringSliceAdditionalSpecFns;

verus! {

/// The bytes of a piece of text.
pub open spec fn text(s: &str) -> Seq<u8> {
    s.spec_bytes()
}

/// Appends the bytes of `s` to `out`.
pub fn push_text(out: &mut Vec<u8>, s: &str)
    ensures
        final(out)@ == old(out)@ + text(s),
{
    let b = s.as_bytes();
    push_bytes(out, b);
}

/// Appends `data` to `out`.
pub fn push_bytes(out: &mut Vec<u8>, data: &[u8])
    ensures
        final(out)@ == old(out)@ + data@,
{
    let ghost start = out@;
    let mut i: usize = 0;
    while i < data.len()
        invariant
            0 <= i <= data@.len(),
            out@ == start + data@.take(i as int),
        decreases data@.len() - i,
    {
        out.push(data[i]);
        i = i + 1;
        assert(data@.take(i as int) =~= data@.take(i - 1).push(data@[i - 1]));
    }
    assert(data@.take(data@.len() as int) =~= data@);
}

/// Whether two byte strings are equal.
pub fn bytes_eq(a: &[u8], b: &[u8]) -> (r: bool)
    ensures
        r == (a@ == b@),
{
    if a.len() != b.len() {
        return false;
    }
    let mut i: usize = 0;
    while i < a.len()
        invariant
            0 <= i <= a@.len(),
            a@.len() == b@.len(),
            forall|k: int| 0 <= k < i ==> a@[k] == b@[k],
        decreases a@.len() - i,
    {
        if a[i] != b[i] {
            return false;
        }
        i = i + 1;
    }
    assert(a@ =~= b@);
    true
}

/// A copy of `data`.
pub fn copy_bytes(data: &[u8]) -> (r: Vec<u8>)
    ensures
        r@ == data@,
{
    let mut r: Vec<u8> = Vec::new();
    push_bytes(&mut r, data);
    assert(r@ =~= data@);
    r
}

/// Overwrites `buf` from `at` on with `data`.
pub fn write_at(buf: &mut Vec<u8>, at: usize, data: &[u8])
    requires
        at + data@.len() <= old(buf)@.len(),
    ensures
        final(buf)@ == old(buf)@.take(at as int) + data@ + old(buf)@.skip(at + data@.len()),
{
    let blen = buf.len();
    let mut i: usize = 0;
    while i < data.len()
        invariant
            0 <= i <= data@.len(),
            blen == buf@.len(),
            buf@.len() == old(buf)@.len(),
            at + data@.len() <= buf@.len(),
            buf@ == old(buf)@.take(at as int) + data@.take(i as int) + old(buf)@.skip(at + i),
        decreases data@.len() - i,
    {
        let ghost prev = buf@;
        buf.set(at + i, data[i]);
        i = i + 1;
        let ghost want = old(buf)@.take(at as int) + data@.take(i as int) + old(buf)@.skip(at + i);
        assert forall|k: int| 0 <= k < buf@.len() implies buf@[k] == want[k] by {
            if k < at {
            } else if k < at + i - 1 {
                assert(prev[k] == data@.take(i - 1)[k - at]);
            } else if k == at + i - 1 {
            } else {
                assert(prev[k] == old(buf)@.skip(at + i - 1)[k - at - (i - 1)]);
            }
        }
        assert(buf@ =~= want);
    }
    assert(data@.take(data@.len() as int) =~= data@);
}

/// A byte in ASCII lower case.
pub open spec fn ascii_lower(c: u8) -> u8 {
    if 65 <= c <= 90 {
        (c + 32) as u8
    } else {
        c
    }
}

/// Two byte strings equal but for ASCII case.
pub open spec fn eq_ignore_case(a: Seq<u8>, b: Seq<u8>) -> bool {
    a.len() == b.len() && forall|i: int| 0 <= i < a.len() ==> ascii_lower(a[i]) == ascii_lower(b[i])
}

/// Whether two byte strings are equal but for ASCII case.
pub fn eq_ignore_ascii_case(a: &[u8], b: &[u8]) -> (r: bool)
    ensures
        r == eq_ignore_case(a@, b@),
{
    if a.len() != b.len() {
        return false;
    }
    let mut i: usize = 0;
    while i < a.len()
        invariant
            0 <= i <= a@.len(),
            a@.len() == b@.len(),
            forall|k: int| 0 <= k < i ==> ascii_lower(a@[k]) == ascii_lower(b@[k]),
        decreases a@.len() - i,
    {
        let x = a[i];
        let y = b[i];
        let lx = if 65u8 <= x && x <= 90u8 {
            x + 32
        } else {
            x
        };
        let ly = if 65u8 <= y && y <= 90u8 {
            y + 32
        } else {
            y
        };
        if lx != ly {
            return false;
        }
        i = i + 1;
    }
    true
}

/// `s` begins with `prefix`.
pub open spec fn starts_with(s: Seq<u8>, prefix: Seq<u8>) -> bool {
    prefix.len() <= s.len() && s.take(prefix.len() as int) == prefix
}

/// Whether `s` begins with `prefix`.
pub fn has_prefix(s: &[u8], prefix: &[u8]) -> (r: bool)
    ensures
        r == starts_with(s@, prefix@),
{
    if prefix.len() > s.len() {
        return false;
    }
    let mut i: usize = 0;
    while i < prefix.len()
        invariant
            0 <= i <= prefix@.len() <= s@.len(),
            forall|k: int| 0 <= k < i ==> s@[k] == prefix@[k],
        decreases prefix@.len() - i,
    {
        if s[i] != prefix[i] {
            assert(s@.take(prefix@.len() as int)[i as int] != prefix@[i as int]);
            return false;
        }
        i = i + 1;
    }
    assert(s@.take(prefix@.len() as int) =~= prefix@);
    true
}

/// ASCII white space, as `char::is_whitespace` has it for ASCII.
pub open spec fn is_ascii_space(c: u8) -> bool {
    c == 32 || (9 <= c <= 13)
}

/// `s` without its leading ASCII white space.
pub open spec fn trim_start(s: Seq<u8>) -> Seq<u8>
    decreases s.len(),
{
    if s.len() > 0 && is_ascii_space(s[0]) {
        trim_start(s.drop_first())
    } else {
        s
    }
}

/// `s` without its trailing ASCII white space.
pub open spec fn trim_end(s: Seq<u8>) -> Seq<u8>
    decreases s.len(),
{
    if s.len() > 0 && is_ascii_space(s.last()) {
        trim_end(s.drop_last())
    } else {
        s
    }
}

/// `s` without leading or trailing ASCII white space.
pub open spec fn trimmed(s: Seq<u8>) -> Seq<u8> {
    trim_end(trim_start(s))
}

/// The bounds of `s` without leading or trailing ASCII white space; for ASCII text
/// this is what `str::trim` leaves.
pub fn trim_bounds(s: &[u8]) -> (r: (usize, usize))
    ensures
        r.0 <= r.1 <= s@.len(),
        s@.subrange(r.0 as int, r.1 as int) == trimmed(s@),
{
    let mut start: usize = 0;
    assert(s@.skip(0) =~= s@);
    while start < s.len() && (s[start] == 32u8 || (9u8 <= s[start] && s[start] <= 13u8))
        invariant
            0 <= start <= s@.len(),
            trim_start(s@) == trim_start(s@.skip(start as int)),
        decreases s@.len() - start,
    {
        assert(s@.skip(start as int).drop_first() =~= s@.skip(start + 1));
        start = start + 1;
    }
    assert(trim_start(s@) == s@.skip(start as int)) by {
        assert(s@.skip(start as int).len() == 0 || !is_ascii_space(s@.skip(start as int)[0]));
    }
    let mut end: usize = s.len();
    while end > start && (s[end - 1] == 32u8 || (9u8 <= s[end - 1] && s[end - 1] <= 13u8))
        invariant
            start <= end <= s@.len(),
            trim_start(s@) == s@.skip(start as int),
            trimmed(s@) == trim_end(s@.subrange(start as int, end as int)),
        decreases end - start,
    {
        assert(s@.subrange(start as int, end as int).drop_last() =~= s@.subrange(
            start as int,
            end - 1,
        ));
        end = end - 1;
    }
    assert(s@.skip(start as int) =~= s@.subrange(start as int, s@.len() as int));
    (start, end)
}

/// Why a number could not be read, as `core::num::IntErrorKind` tells it.
#[derive(Debug, Clone, Copy, PartialEq, Eq, Structural)]
pub enum IntError {
    Empty,
    InvalidDigit,
    PosOverflow,
}

/// Reading decimal digits after the value `acc`.
pub open spec fn digits_value(d: Seq<u8>, acc: int) -> Result<u64, IntError>
    decreases d.len(),
{
    if d.len() == 0 {
        Ok(acc as u64)
    } else if !(48 <= d[0] <= 57) {
        Err(IntError::InvalidDigit)
    } else if acc * 10 + (d[0] - 48) > u64::MAX {
        Err(IntError::PosOverflow)
    } else {
        digits_value(d.drop_first(), acc * 10 + (d[0] - 48))
    }
}

/// What `u64::from_str` makes of the text `s`: an optional `+`, then decimal digits.
pub open spec fn parse_u64_spec(s: Seq<u8>) -> Result<u64, IntError> {
    if s.len() == 0 {
        Err(IntError::Empty)
    } else if s.len() == 1 && (s[0] == 43 || s[0] == 45) {
        Err(IntError::InvalidDigit)
    } else if s[0] == 43 {
        digits_value(s.drop_first(), 0)
    } else {
        digits_value(s, 0)
    }
}

/// Reads a `u64` written in decimal.
pub fn parse_u64(s: &[u8]) -> (r: Result<u64, IntError>)
    ensures
        r == parse_u64_spec(s@),
{
    if s.len() == 0 {
        return Err(IntError::Empty);
    }
    if s.len() == 1 && (s[0] == 43u8 || s[0] == 45u8) {
        return Err(IntError::InvalidDigit);
    }
    let mut i: usize = if s[0] == 43u8 {
        1
    } else {
        0
    };
    let ghost digits = s@.skip(i as int);
    assert(parse_u64_spec(s@) == digits_value(digits, 0)) by {
        if s@[0] == 43u8 {
            assert(digits =~= s@.drop_first());
        } else {
            assert(digits =~= s@);
        }
    }
    let mut acc: u64 = 0;
    while i < s.len()
        invariant
            0 <= i <= s@.len(),
            parse_u64_spec(s@) == digits_value(s@.skip(i as int), acc as int),
        decreases s@.len() - i,
    {
        let c = s[i];
        assert(s@.skip(i as int)[0] == c);
        assert(s@.skip(i as int).drop_first() =~= s@.skip(i + 1));
        if !(48u8 <= c && c <= 57u8) {
            return Err(IntError::InvalidDigit);
        }
        let d = (c - 48u8) as u64;
        if acc > 1844674407370955161u64 || (acc == 1844674407370955161u64 && d > 5) {
            return Err(IntError::PosOverflow);
        }
        acc = acc * 10 + d;
        i = i + 1;
    }
    assert(s@.skip(i as int).len() == 0);
    Ok(acc)
}

/// Calls `std::str::from_utf8` on `bytes` and says whether it accepted them; its
/// documentation says it accepts exactly valid UTF-8.
#[verifier::external_body]
pub(crate) fn is_utf8(bytes: &[u8]) -> (r: bool)
    ensures
        r == vstd::utf8::valid_utf8(bytes@),
{
    std::str::from_utf8(bytes).is_ok()
}

/// Every byte is ASCII.
pub open spec fn all_ascii(s: Seq<u8>) -> bool {
    forall|i: int| 0 <= i < s.len() ==> s[i] < 128
}

/// Whether every byte of `s` is ASCII.
pub fn is_ascii_bytes(s: &[u8]) -> (r: bool)
    ensures
        r == all_ascii(s@),
{
    let mut i: usize = 0;
    while i < s.len()
        invariant
            0 <= i <= s@.len(),
            forall|k: int| 0 <= k < i ==> s@[k] < 128,
        decreases s@.len() - i,
    {
        if s[i] >= 128u8 {
            return false;
        }
        i = i + 1;
    }
    true
}

} // verus!
