//! Byte-sequence helpers shared by the archive and argument code: copying,
//! zero padding and the fixed-width hexadecimal fields of the cpio format.
use vstd::prelude::*;

verus! {

/// The sequence of `n` zero bytes.
pub open spec fn zeros(n: nat) -> Seq<u8> {
    Seq::new(n, |i: int| 0u8)
}

/// Number of zero bytes that bring a length of `n` up to a multiple of four.
pub open spec fn pad4(n: nat) -> nat {
    ((4 - (n % 4)) % 4) as nat
}

/// Lower-case ASCII hexadecimal digit for a value below sixteen.
pub open spec fn hex_digit(d: nat) -> u8 {
    if d < 10 { (48 + d) as u8 } else { (87 + d) as u8 }
}

/// Lower-case hexadecimal rendering of `n` with at least `w` digits, padded
/// with leading zeros, as `format!("{:0w$x}", n)` prints it.
pub open spec fn hex_pad(n: nat, w: nat) -> Seq<u8>
    decreases n, w,
{
    if n == 0 && w == 0 {
        Seq::empty()
    } else {
        hex_pad(n / 16, if w > 0 { (w - 1) as nat } else { 0 }).push(hex_digit(n % 16))
    }
}

/// Value of an ASCII hexadecimal digit of either case.
pub open spec fn hex_value(c: u8) -> Option<nat> {
    if 48 <= c <= 57 {
        Some((c - 48) as nat)
    } else if 97 <= c <= 102 {
        Some((c - 87) as nat)
    } else if 65 <= c <= 70 {
        Some((c - 55) as nat)
    } else {
        None
    }
}

/// Value of a string of hexadecimal digits read most significant first;
/// `None` when a byte is not a hexadecimal digit.
pub open spec fn hex_digits_value(s: Seq<u8>) -> Option<nat>
    decreases s.len(),
{
    if s.len() == 0 {
        Some(0)
    } else {
        match (hex_digits_value(s.drop_last()), hex_value(s.last())) {
            (Some(v), Some(d)) => Some(v * 16 + d),
            _ => None,
        }
    }
}

/// What `from_str_radix(field, 16)` yields for an unsigned type wide enough
/// for the value: an optional leading `+`, then at least one hexadecimal digit.
pub open spec fn parse_hex(s: Seq<u8>) -> Option<nat> {
    let digits = if s.len() > 0 && s[0] == 43u8 { s.drop_first() } else { s };
    if digits.len() == 0 { None } else { hex_digits_value(digits) }
}

/// Sixteen to the power `n`.
pub open spec fn pow16(n: nat) -> nat
    decreases n,
{
    if n == 0 { 1 } else { 16 * pow16((n - 1) as nat) }
}

/// Appends `src` to `out`.
pub fn push_all(out: &mut Vec<u8>, src: &[u8])
    ensures
        final(out)@ == old(out)@ + src@,
{
    let mut i: usize = 0;
    while i < src.len()
        invariant
            i <= src@.len(),
            out@ == old(out)@ + src@.subrange(0, i as int),
        decreases src@.len() - i,
    {
        out.push(src[i]);
        i = i + 1;
        assert(src@.subrange(0, i as int) == src@.subrange(0, i - 1).push(src@[i - 1]));
    }
    assert(src@.subrange(0, src@.len() as int) == src@);
}

/// Appends `n` zero bytes to `out`.
pub fn push_zeros(out: &mut Vec<u8>, n: usize)
    ensures
        final(out)@ == old(out)@ + zeros(n as nat),
{
    let mut i: usize = 0;
    while i < n
        invariant
            i <= n,
            out@ == old(out)@ + zeros(i as nat),
        decreases n - i,
    {
        out.push(0u8);
        i = i + 1;
        assert(zeros(i as nat) == zeros((i - 1) as nat).push(0u8));
    }
}

/// Appends `format!("{:0w$x}", n)` to `out`.
pub fn push_hex_pad(out: &mut Vec<u8>, n: usize, w: usize)
    ensures
        final(out)@ == old(out)@ + hex_pad(n as nat, w as nat),
    decreases n, w,
{
    if n == 0 && w == 0 {
        assert(old(out)@ + Seq::<u8>::empty() == old(out)@);
        return;
    }
    let next_w: usize = if w > 0 { w - 1 } else { 0 };
    push_hex_pad(out, n / 16, next_w);
    let d: usize = n % 16;
    let c: u8 = if d < 10 { (48 + d) as u8 } else { (87 + d) as u8 };
    out.push(c);
    proof {
        let prefix = hex_pad((n / 16) as nat, next_w as nat);
        assert(hex_pad(n as nat, w as nat) == prefix.push(hex_digit(d as nat)));
    }
}

/// Appends `format!("{:0w$x}", n + 1)` to `out`, for any `n` (the sum is
/// never computed, so it cannot overflow).
pub fn push_hex_pad_succ(out: &mut Vec<u8>, n: usize, w: usize)
    ensures
        final(out)@ == old(out)@ + hex_pad(n as nat + 1, w as nat),
    decreases n,
{
    let next_w: usize = if w > 0 { w - 1 } else { 0 };
    let d: usize = n % 16;
    if d == 15 {
        push_hex_pad_succ(out, n / 16, next_w);
        out.push(48u8);
        proof {
            assert((n as nat + 1) / 16 == (n / 16) as nat + 1);
            assert((n as nat + 1) % 16 == 0);
            let prefix = hex_pad((n / 16) as nat + 1, next_w as nat);
            assert(hex_pad(n as nat + 1, w as nat) == prefix.push(hex_digit(0)));
        }
    } else {
        push_hex_pad(out, n / 16, next_w);
        let c: u8 = if d + 1 < 10 { (48 + d + 1) as u8 } else { (87 + d + 1) as u8 };
        out.push(c);
        proof {
            assert((n as nat + 1) / 16 == (n / 16) as nat);
            assert((n as nat + 1) % 16 == d + 1);
            let prefix = hex_pad((n / 16) as nat, next_w as nat);
            assert(hex_pad(n as nat + 1, w as nat) == prefix.push(hex_digit((d + 1) as nat)));
        }
    }
}

/// The length of `hex_pad(n, w)` is `w` whenever `n` fits in `w` digits.
pub proof fn lemma_hex_pad_len(n: nat, w: nat)
    requires
        n < pow16(w),
    ensures
        hex_pad(n, w).len() == w,
    decreases n, w,
{
    if n == 0 && w == 0 {
    } else {
        assert(w > 0);
        lemma_hex_pad_len(n / 16, (w - 1) as nat);
    }
}

/// Every byte of `hex_pad(n, w)` is a hexadecimal digit, and reading them
/// back gives `n`.
pub proof fn lemma_hex_pad_value(n: nat, w: nat)
    ensures
        hex_digits_value(hex_pad(n, w)) == Some(n),
        forall|i: int| 0 <= i < hex_pad(n, w).len() ==> 48 <= #[trigger] hex_pad(n, w)[i] <= 102,
    decreases n, w,
{
    if n == 0 && w == 0 {
    } else {
        let nw: nat = if w > 0 { (w - 1) as nat } else { 0 };
        lemma_hex_pad_value(n / 16, nw);
        let p = hex_pad(n / 16, nw);
        let s = hex_pad(n, w);
        assert(s == p.push(hex_digit(n % 16)));
        assert(s.drop_last() == p);
        assert(hex_value(hex_digit(n % 16)) == Some(n % 16));
        assert(forall|i: int| 0 <= i < p.len() ==> s[i] == p[i]);
    }
}

/// Reading back the fixed-width rendering of a value that fits in `w >= 1`
/// digits gives the value.
pub proof fn lemma_parse_hex_pad(n: nat, w: nat)
    requires
        n < pow16(w),
        w >= 1,
    ensures
        parse_hex(hex_pad(n, w)) == Some(n),
{
    lemma_hex_pad_len(n, w);
    lemma_hex_pad_value(n, w);
    let s = hex_pad(n, w);
    assert(48 <= s[0] <= 102);
}

/// `hex_digits_value` succeeds exactly when every byte is a hexadecimal digit.
pub proof fn lemma_hex_digits_some(s: Seq<u8>)
    ensures
        hex_digits_value(s) is Some <==> forall|i: int| 0 <= i < s.len() ==> #[trigger] hex_value(s[i]) is Some,
        hex_digits_value(s) matches Some(v) ==> v < pow16(s.len()),
    decreases s.len(),
{
    if s.len() > 0 {
        lemma_hex_digits_some(s.drop_last());
        assert(forall|i: int| 0 <= i < s.len() - 1 ==> s.drop_last()[i] == s[i]);
        if hex_digits_value(s) is Some {
            assert forall|i: int| 0 <= i < s.len() implies #[trigger] hex_value(s[i]) is Some by {
                if i < s.len() - 1 {
                    assert(hex_value(s.drop_last()[i]) is Some);
                }
            }
        }
        if forall|i: int| 0 <= i < s.len() ==> #[trigger] hex_value(s[i]) is Some {
            assert forall|i: int| 0 <= i < s.drop_last().len() implies #[trigger] hex_value(s.drop_last()[i]) is Some by {
                assert(hex_value(s[i]) is Some);
            }
            assert(hex_value(s[s.len() - 1]) is Some);
        }
    }
}

/// Powers of sixteen grow with the exponent and are at least one.
pub proof fn lemma_pow16_mono(a: nat, b: nat)
    requires
        a <= b,
    ensures
        pow16(a) <= pow16(b),
        pow16(a) >= 1,
    decreases b,
{
    if b > a {
        lemma_pow16_mono(a, (b - 1) as nat);
    } else if a > 0 {
        lemma_pow16_mono((a - 1) as nat, (a - 1) as nat);
    }
}

/// Eight hexadecimal digits hold exactly the 32-bit values.
pub proof fn lemma_pow16_8()
    ensures
        pow16(8) == 0x1_0000_0000,
{
    reveal_with_fuel(pow16, 9);
}

/// Reads one eight-byte hexadecimal header field as `from_str_radix(_, 16)`
/// does; the value always fits in 32 bits.
pub fn parse_hex_field(field: &[u8]) -> (r: Option<u32>)
    requires
        field@.len() == 8,
    ensures
        match r {
            Some(v) => parse_hex(field@) == Some(v as nat),
            None => parse_hex(field@) is None,
        },
{
    let start: usize = if field[0] == 43u8 { 1 } else { 0 };
    let ghost digits = field@.subrange(start as int, 8);
    proof {
        assert(digits == (if field@.len() > 0 && field@[0] == 43u8 { field@.drop_first() } else { field@ }));
        lemma_pow16_8();
    }
    let mut acc: u64 = 0;
    let mut i: usize = start;
    while i < 8
        invariant
            start <= i <= 8,
            field@.len() == 8,
            digits == field@.subrange(start as int, 8),
            digits == (if field@.len() > 0 && field@[0] == 43u8 { field@.drop_first() } else { field@ }),
            hex_digits_value(field@.subrange(start as int, i as int)) == Some(acc as nat),
            acc < pow16((i - start) as nat),
            pow16(8) == 0x1_0000_0000,
        decreases 8 - i,
    {
        let c = field[i];
        let d: u64 = if 48 <= c && c <= 57 {
            (c - 48) as u64
        } else if 97 <= c && c <= 102 {
            (c - 87) as u64
        } else if 65 <= c && c <= 70 {
            (c - 55) as u64
        } else {
            proof {
                lemma_hex_digits_some(digits);
                assert(digits[i - start] == c);
                assert(hex_value(digits[i - start]) is None);
                assert(digits.len() > 0);
                assert(hex_digits_value(digits) is None);
            }
            return None;
        };
        proof {
            lemma_pow16_mono((i - start) as nat, 8);
            let pre = field@.subrange(start as int, i as int);
            let next = field@.subrange(start as int, i + 1);
            assert(next.drop_last() == pre);
            assert(next.last() == c);
            assert(pow16((i + 1 - start) as nat) == 16 * pow16((i - start) as nat));
        }
        acc = acc * 16 + d;
        i = i + 1;
    }
    proof {
        lemma_pow16_mono((8 - start) as nat, 8);
    }
    if i == start {
        return None;
    }
    Some(acc as u32)
}

} // verus!
