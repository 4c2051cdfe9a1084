//! Decimal numbers in header values: trimming white space, reading an
//! unsigned number and writing one.

use vstd::prelude::*;

verus! {

/// Whether `b` is one of the single-byte white-space characters.
pub open spec fn is_narrow_space(b: u8) -> bool {
    (0x09 <= b <= 0x0D) || b == 0x20
}

/// Whether `a b` encodes U+0085 or U+00A0.
pub open spec fn is_pair_space(a: u8, b: u8) -> bool {
    a == 0xC2 && (b == 0x85 || b == 0xA0)
}

/// Whether `a b c` encodes one of the three-byte white-space characters:
/// U+1680, U+2000 to U+200A, U+2028, U+2029, U+202F, U+205F or U+3000.
pub open spec fn is_wide_space(a: u8, b: u8, c: u8) -> bool {
    ||| (a == 0xE1 && b == 0x9A && c == 0x80)
    ||| (a == 0xE2 && b == 0x80 && ((0x80 <= c <= 0x8A) || c == 0xA8 || c == 0xA9 || c == 0xAF))
    ||| (a == 0xE2 && b == 0x81 && c == 0x9F)
    ||| (a == 0xE3 && b == 0x80 && c == 0x80)
}

/// The encoded length of the white-space character that starts at `i` and
/// ends before `hi`, or 0 when none does.
pub open spec fn space_ahead(s: Seq<u8>, i: int, hi: int) -> int {
    if i < 0 || hi > s.len() || i >= hi {
        0
    } else if is_narrow_space(s[i]) {
        1
    } else if i + 1 < hi && is_pair_space(s[i], s[i + 1]) {
        2
    } else if i + 2 < hi && is_wide_space(s[i], s[i + 1], s[i + 2]) {
        3
    } else {
        0
    }
}

/// The encoded length of the white-space character that ends just before
/// `j` and starts at or after `lo`, or 0 when none does.
pub open spec fn space_behind(s: Seq<u8>, lo: int, j: int) -> int {
    if lo < 0 || j > s.len() || j <= lo {
        0
    } else if is_narrow_space(s[j - 1]) {
        1
    } else if j - 2 >= lo && is_pair_space(s[j - 2], s[j - 1]) {
        2
    } else if j - 3 >= lo && is_wide_space(s[j - 3], s[j - 2], s[j - 1]) {
        3
    } else {
        0
    }
}

/// Where the text starts once leading white space from `i` on is dropped.
pub open spec fn trim_start(s: Seq<u8>, i: int) -> int
    decreases s.len() - i,
{
    if space_ahead(s, i, s.len() as int) > 0 {
        trim_start(s, i + space_ahead(s, i, s.len() as int))
    } else {
        i
    }
}

/// Where the text ends once trailing white space before `j` is dropped,
/// never going below `lo`.
pub open spec fn trim_end(s: Seq<u8>, lo: int, j: int) -> int
    decreases j,
{
    if space_behind(s, lo, j) > 0 {
        trim_end(s, lo, j - space_behind(s, lo, j))
    } else {
        j
    }
}

/// `s` without leading and trailing white space.
pub open spec fn trimmed(s: Seq<u8>) -> Seq<u8> {
    let a = trim_start(s, 0);
    let b = trim_end(s, a, s.len() as int);
    s.subrange(a, b)
}

fn narrow_space(b: u8) -> (r: bool)
    ensures
        r == is_narrow_space(b),
{
    (0x09 <= b && b <= 0x0D) || b == 0x20
}

fn pair_space(a: u8, b: u8) -> (r: bool)
    ensures
        r == is_pair_space(a, b),
{
    a == 0xC2 && (b == 0x85 || b == 0xA0)
}

fn wide_space(a: u8, b: u8, c: u8) -> (r: bool)
    ensures
        r == is_wide_space(a, b, c),
{
    (a == 0xE1 && b == 0x9A && c == 0x80) || (a == 0xE2 && b == 0x80 && ((0x80 <= c && c <= 0x8A)
        || c == 0xA8 || c == 0xA9 || c == 0xAF)) || (a == 0xE2 && b == 0x81 && c == 0x9F) || (a
        == 0xE3 && b == 0x80 && c == 0x80)
}

/// Finds the bounds of `s` without its leading and trailing white space.
pub fn trim_bounds(s: &[u8]) -> (r: (usize, usize))
    ensures
        r.0 == trim_start(s@, 0),
        r.1 == trim_end(s@, r.0 as int, s@.len() as int),
        r.0 <= r.1 <= s@.len(),
        s@.subrange(r.0 as int, r.1 as int) == trimmed(s@),
{
    let n = s.len();
    let mut a: usize = 0;
    loop
        invariant_except_break
            0 <= a <= n,
            n == s@.len(),
            trim_start(s@, 0) == trim_start(s@, a as int),
        ensures
            0 <= a <= n,
            n == s@.len(),
            a == trim_start(s@, 0),
        decreases n - a,
    {
        if a >= n {
            break ;
        }
        if narrow_space(s[a]) {
            a = a + 1;
        } else if n - a > 1 && pair_space(s[a], s[a + 1]) {
            a = a + 2;
        } else if n - a > 2 && wide_space(s[a], s[a + 1], s[a + 2]) {
            a = a + 3;
        } else {
            break ;
        }
    }
    let mut b: usize = n;
    loop
        invariant_except_break
            a <= b <= n,
            n == s@.len(),
            trim_end(s@, a as int, n as int) == trim_end(s@, a as int, b as int),
        ensures
            a <= b <= n,
            n == s@.len(),
            b == trim_end(s@, a as int, n as int),
        decreases b,
    {
        if b <= a {
            break ;
        }
        if narrow_space(s[b - 1]) {
            b = b - 1;
        } else if b - a >= 2 && pair_space(s[b - 2], s[b - 1]) {
            b = b - 2;
        } else if b - a >= 3 && wide_space(s[b - 3], s[b - 2], s[b - 1]) {
            b = b - 3;
        } else {
            break ;
        }
    }
    (a, b)
}

/// Whether `b` is a decimal digit.
pub open spec fn is_digit(b: u8) -> bool {
    0x30 <= b <= 0x39
}

/// Whether every byte of `s` is a decimal digit.
pub open spec fn all_digits(s: Seq<u8>) -> bool {
    forall|i: int| 0 <= i < s.len() ==> is_digit(#[trigger] s[i])
}

/// The value of a digit; 0 for any other byte.
pub open spec fn digit_of(b: u8) -> nat {
    if is_digit(b) {
        (b - 0x30) as nat
    } else {
        0
    }
}

/// The number that a string of digits writes.
pub open spec fn digits_value(s: Seq<u8>) -> nat
    decreases s.len(),
{
    if s.len() == 0 {
        0
    } else {
        digits_value(s.drop_last()) * 10 + digit_of(s.last())
    }
}

/// Reads an unsigned decimal number: an optional plus sign, then one or
/// more digits and nothing else; the value may not exceed `max`.
pub open spec fn parse_unsigned(s: Seq<u8>, max: nat) -> Option<nat> {
    let d = if s.len() > 0 && s[0] == 0x2B {
        s.skip(1)
    } else {
        s
    };
    if d.len() == 0 || !all_digits(d) || digits_value(d) > max {
        None
    } else {
        Some(digits_value(d))
    }
}

/// A longer string of digits never writes a smaller number than its start.
pub proof fn lemma_digits_grow(s: Seq<u8>, k: int)
    requires
        0 <= k <= s.len(),
    ensures
        digits_value(s.take(k)) <= digits_value(s),
    decreases s.len() - k,
{
    if k < s.len() {
        lemma_digits_grow(s, k + 1);
        assert(s.take(k + 1).drop_last() =~= s.take(k));
    } else {
        assert(s.take(k) =~= s);
    }
}

/// Reads an unsigned decimal number that fits in 64 bits.
pub fn parse_u64(s: &[u8]) -> (r: Option<u64>)
    ensures
        match r {
            Some(v) => parse_unsigned(s@, u64::MAX as nat) == Some(v as nat),
            None => parse_unsigned(s@, u64::MAX as nat) is None,
        },
{
    let n = s.len();
    let start: usize = if n > 0 && s[0] == 0x2B {
        1
    } else {
        0
    };
    let ghost d = s@.skip(start as int);
    assert(s@.skip(0) =~= s@);
    if start >= n {
        return None;
    }
    let mut acc: u64 = 0;
    let mut i: usize = start;
    assert(d.take(0) =~= Seq::<u8>::empty());
    while i < n
        invariant
            start <= i <= n,
            n == s@.len(),
            d == (if s@.len() > 0 && s@[0] == 0x2B {
                s@.skip(1)
            } else {
                s@
            }),
            d.len() == n - start,
            forall|j: int| 0 <= j < d.len() ==> d[j] == s@[j + start],
            all_digits(d.take(i - start)),
            acc == digits_value(d.take(i - start)),
        decreases n - i,
    {
        let b = s[i];
        let ghost k = i - start;
        assert(d[k] == b);
        assert(d.take(k + 1).drop_last() =~= d.take(k));
        assert(d.take(k + 1).last() == b);
        if b < 0x30 || b > 0x39 {
            assert(!all_digits(d));
            return None;
        }
        let digit: u64 = (b - 0x30) as u64;
        if acc > (u64::MAX - digit) / 10 {
            proof {
                lemma_digits_grow(d, k + 1);
                assert(digits_value(d.take(k + 1)) == acc * 10 + digit);
                assert(digits_value(d) > u64::MAX);
            }
            return None;
        }
        acc = acc * 10 + digit;
        assert(all_digits(d.take(k + 1))) by {
            assert forall|j: int| 0 <= j < k + 1 implies is_digit(#[trigger] d.take(k + 1)[j]) by {
                if j < k {
                    assert(d.take(k)[j] == d.take(k + 1)[j]);
                }
            }
        }
        i = i + 1;
    }
    assert(d.take(n - start) =~= d);
    Some(acc)
}

/// The decimal writing of `n`, without sign or leading zeros.
pub open spec fn decimal(n: nat) -> Seq<u8>
    decreases n,
{
    if n < 10 {
        seq![(0x30 + n) as u8]
    } else {
        decimal(n / 10) + seq![(0x30 + n % 10) as u8]
    }
}

/// What `decimal` writes is read back as the same number.
pub proof fn lemma_decimal(n: nat)
    ensures
        decimal(n).len() > 0,
        all_digits(decimal(n)),
        digits_value(decimal(n)) == n,
    decreases n,
{
    if n < 10 {
        let s = decimal(n);
        assert(s.drop_last() =~= Seq::<u8>::empty());
        assert(digits_value(s.drop_last()) == 0);
    } else {
        lemma_decimal(n / 10);
        let s = decimal(n);
        assert(s.drop_last() =~= decimal(n / 10));
        assert(s.last() == (0x30 + n % 10) as u8);
    }
}

/// Writes `n` in decimal.
pub fn decimal_bytes(n: u64) -> (r: Vec<u8>)
    ensures
        r@ == decimal(n as nat),
    decreases n,
{
    if n < 10 {
        let mut r: Vec<u8> = Vec::new();
        r.push((0x30 + n) as u8);
        assert(r@ =~= decimal(n as nat));
        r
    } else {
        let mut r = decimal_bytes(n / 10);
        r.push((0x30 + n % 10) as u8);
        assert(r@ =~= decimal(n as nat));
        r
    }
}

} // verus!
