//! Small text pieces of the object layout: numbers written in ASCII digits and
//! the search for a delimiter byte.

use vstd::prelude::*;

verus! {

/// The ASCII digit for `d`, meant for `d < 10`.
pub open spec fn digit(d: nat) -> u8 {
    (0x30 + d) as u8
}

/// `n` written in base `base` with ASCII digits, without leading zeros
/// (zero itself is the single digit `0`). Meant for `2 <= base <= 10`.
pub open spec fn radix_digits(n: nat, base: nat) -> Seq<u8>
    decreases n,
{
    if base < 2 || n < base {
        seq![digit(n)]
    } else {
        proof {
            assert(n / base < n) by (nonlinear_arith)
                requires
                    2 <= base <= n,
            ;
        }
        radix_digits(n / base, base).push(digit(n % base))
    }
}

/// `n` in decimal.
pub open spec fn decimal(n: nat) -> Seq<u8> {
    radix_digits(n, 10)
}

/// `n` in octal.
pub open spec fn octal(n: nat) -> Seq<u8> {
    radix_digits(n, 8)
}

/// Whether `b` is an ASCII digit.
pub open spec fn is_digit(b: u8) -> bool {
    0x30 <= b <= 0x39
}

/// A number's digits are never empty, are all ASCII digits, and start with `0`
/// only when the number is zero.
pub proof fn lemma_radix_digits_shape(n: nat, base: nat)
    requires
        2 <= base <= 10,
    ensures
        radix_digits(n, base).len() >= 1,
        forall|i: int|
            0 <= i < radix_digits(n, base).len() ==> is_digit(#[trigger] radix_digits(n, base)[i]),
        radix_digits(n, base)[0] == 0x30u8 <==> n == 0,
    decreases n,
{
    if n >= base {
        let q = n / base;
        assert(1 <= q < n) by (nonlinear_arith)
            requires
                q == n / base,
                2 <= base <= n,
        ;
        assert(n % base < base) by (nonlinear_arith)
            requires
                2 <= base,
        ;
        lemma_radix_digits_shape(q, base);
        let head = radix_digits(q, base);
        let all = head.push(digit(n % base));
        assert(radix_digits(n, base) == all);
        assert forall|i: int| 0 <= i < all.len() implies is_digit(#[trigger] all[i]) by {
            if i < head.len() {
                assert(all[i] == head[i]);
            }
        }
        assert(all[0] == head[0]);
    }
}

/// Appends `n` in base `base` to `out`.
pub fn push_radix(out: &mut Vec<u8>, n: usize, base: u8)
    requires
        2 <= base <= 10,
    ensures
        final(out)@ == old(out)@ + radix_digits(n as nat, base as nat),
{
    let wide: usize = base as usize;
    // Digits are produced from the least significant end, so they are
    // collected first and appended in reverse.
    let mut low_first: Vec<u8> = Vec::new();
    let mut rest: usize = n;
    while rest >= wide
        invariant
            wide == base,
            2 <= base <= 10,
            radix_digits(n as nat, base as nat) == radix_digits(rest as nat, base as nat)
                + low_first@.reverse(),
        decreases rest,
    {
        let d: u8 = (rest % wide) as u8;
        proof {
            let before = low_first@;
            let after = before.push((0x30 + d) as u8);
            assert(after.reverse() =~= seq![(0x30 + d) as u8] + before.reverse());
            assert(radix_digits(rest as nat, base as nat) == radix_digits(
                (rest / wide) as nat,
                base as nat,
            ).push(digit((rest % wide) as nat)));
            assert(radix_digits((rest / wide) as nat, base as nat).push(digit((rest % wide) as nat))
                + before.reverse() =~= radix_digits((rest / wide) as nat, base as nat)
                + after.reverse());
        }
        low_first.push(0x30u8 + d);
        rest = rest / wide;
    }
    proof {
        let before = low_first@;
        let after = before.push((0x30 + rest) as u8);
        assert(after.reverse() =~= seq![(0x30 + rest) as u8] + before.reverse());
        assert(radix_digits(rest as nat, base as nat) =~= seq![digit(rest as nat)]);
    }
    low_first.push(0x30u8 + rest as u8);
    let ghost start = out@;
    let ghost digits = low_first@.reverse();
    let mut i: usize = low_first.len();
    while i > 0
        invariant
            i <= low_first.len(),
            digits == low_first@.reverse(),
            out@ == start + digits.subrange(0, low_first.len() - i),
        decreases i,
    {
        i -= 1;
        out.push(low_first[i]);
        proof {
            let k = low_first.len() - i - 1;
            assert(digits[k] == low_first@[i as int]);
            assert(digits.subrange(0, k + 1) =~= digits.subrange(0, k).push(digits[k]));
        }
    }
    proof {
        assert(digits.subrange(0, low_first.len() as int) =~= digits);
    }
}

/// The index of the first `needle` in `s`, or `s.len()` when there is none.
pub open spec fn find_byte(s: Seq<u8>, needle: u8) -> int
    decreases s.len(),
{
    if s.len() == 0 || s[0] == needle {
        0
    } else {
        1 + find_byte(s.drop_first(), needle)
    }
}

/// `find_byte` returns an index at or before the end, nothing before it is the
/// needle, and the byte at it is the needle unless the end was reached.
pub proof fn lemma_find_byte(s: Seq<u8>, needle: u8)
    ensures
        0 <= find_byte(s, needle) <= s.len(),
        forall|i: int| 0 <= i < find_byte(s, needle) ==> s[i] != needle,
        find_byte(s, needle) < s.len() ==> s[find_byte(s, needle)] == needle,
    decreases s.len(),
{
    if s.len() != 0 && s[0] != needle {
        let tail = s.drop_first();
        lemma_find_byte(tail, needle);
        assert forall|i: int| 0 <= i < find_byte(s, needle) implies s[i] != needle by {
            if i > 0 {
                assert(s[i] == tail[i - 1]);
            }
        }
    }
}

/// An index that is as `lemma_find_byte` describes is the one `find_byte` returns.
pub proof fn lemma_find_byte_unique(s: Seq<u8>, needle: u8, at: int)
    requires
        0 <= at <= s.len(),
        forall|i: int| 0 <= i < at ==> s[i] != needle,
        at < s.len() ==> s[at] == needle,
    ensures
        find_byte(s, needle) == at,
    decreases s.len(),
{
    if s.len() != 0 && s[0] != needle {
        let tail = s.drop_first();
        assert forall|i: int| 0 <= i < at - 1 implies tail[i] != needle by {
            assert(tail[i] == s[i + 1]);
        }
        lemma_find_byte_unique(tail, needle, at - 1);
    }
}

/// Finds the first `needle` in `bytes` at or after `from`. The result is the
/// distance from `from`; it equals the remaining length when nothing was found.
pub fn scan_for(bytes: &[u8], from: usize, needle: u8) -> (at: usize)
    requires
        from <= bytes@.len(),
    ensures
        at == find_byte(bytes@.subrange(from as int, bytes@.len() as int), needle),
        from + at <= bytes@.len(),
{
    let ghost tail = bytes@.subrange(from as int, bytes@.len() as int);
    let total: usize = bytes.len();
    let room: usize = total - from;
    let mut at: usize = 0;
    while at < room && bytes[from + at] != needle
        invariant
            at <= room,
            total == bytes@.len(),
            room == total - from,
            tail == bytes@.subrange(from as int, bytes@.len() as int),
            forall|i: int| 0 <= i < at ==> tail[i] != needle,
        decreases room - at,
    {
        at += 1;
    }
    proof {
        lemma_find_byte_unique(tail, needle, at as int);
    }
    at
}

/// Appends all of `src` to `out`.
pub fn append_bytes(out: &mut Vec<u8>, src: &[u8])
    ensures
        final(out)@ == old(out)@ + src@,
{
    let ghost start = out@;
    let mut i: usize = 0;
    while i < src.len()
        invariant
            i <= src@.len(),
            out@ == start + src@.subrange(0, i as int),
        decreases src@.len() - i,
    {
        out.push(src[i]);
        proof {
            assert(src@.subrange(0, i + 1) =~= src@.subrange(0, i as int).push(src@[i as int]));
        }
        i += 1;
    }
    proof {
        assert(src@.subrange(0, src@.len() as int) =~= src@);
    }
}

/// Whether two byte strings are the same.
pub fn same_bytes(a: &[u8], b: &[u8]) -> (same: bool)
    ensures
        same == (a@ == b@),
{
    if a.len() != b.len() {
        return false;
    }
    let mut i: usize = 0;
    while i < a.len()
        invariant
            i <= a@.len(),
            a@.len() == b@.len(),
            forall|k: int| 0 <= k < i ==> a@[k] == b@[k],
        decreases a@.len() - i,
    {
        if a[i] != b[i] {
            return false;
        }
        i += 1;
    }
    proof {
        assert(a@ =~= b@);
    }
    true
}

/// A copy of `src`.
pub fn copy_bytes(src: &[u8]) -> (out: Vec<u8>)
    ensures
        out@ == src@,
{
    let mut out: Vec<u8> = Vec::new();
    append_bytes(&mut out, src);
    out
}

} // verus!
