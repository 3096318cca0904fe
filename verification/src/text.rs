//! Text helpers: UTF-8 decoding (taken from the standard library), Unicode
//! white space, trimming and splitting, and decimal numbers.
use vstd::prelude::*;

verus! {

/// The characters a byte sequence holds in UTF-8, or `None` when the bytes
/// are not well-formed UTF-8 (a bad byte pattern, an overlong encoding, a
/// surrogate or a value beyond U+10FFFF).
#[verifier::opaque]
pub open spec fn utf8_decode(bytes: Seq<u8>) -> Option<Seq<char>> {
    if vstd::utf8::valid_utf8(bytes) {
        Some(vstd::utf8::decode_utf8(bytes))
    } else {
        None
    }
}

/// Whether a byte sequence is well-formed UTF-8.
pub open spec fn utf8_valid(bytes: Seq<u8>) -> bool {
    utf8_decode(bytes) is Some
}

/// Calls `std::str::from_utf8` and collects the characters. Trusted: as
/// std documents, the call succeeds exactly on well-formed UTF-8, and the
/// characters are the ones the bytes encode.
#[verifier::external_body]
pub(crate) fn decode_utf8(bytes: &[u8]) -> (r: Option<Vec<char>>)
    ensures
        match r {
            Some(c) => utf8_decode(bytes@) == Some(c@),
            None => utf8_decode(bytes@) is None,
        },
{
    std::str::from_utf8(bytes).ok().map(|s| s.chars().collect())
}

/// Whether `std::str::from_utf8` accepts the bytes.
pub fn check_utf8(bytes: &[u8]) -> (r: bool)
    ensures
        r == utf8_valid(bytes@),
{
    decode_utf8(bytes).is_some()
}

/// Unicode `White_Space`, the set `char::is_whitespace` tests.
pub open spec fn is_white_space(c: char) -> bool {
    let u = c as u32;
    (0x09 <= u <= 0x0d) || u == 0x20 || u == 0x85 || u == 0xa0 || u == 0x1680 || (0x2000 <= u
        <= 0x200a) || u == 0x2028 || u == 0x2029 || u == 0x202f || u == 0x205f || u == 0x3000
}

/// `char::is_whitespace`.
pub fn white_space(c: char) -> (r: bool)
    ensures
        r == is_white_space(c),
{
    let u = c as u32;
    (0x09 <= u && u <= 0x0d) || u == 0x20 || u == 0x85 || u == 0xa0 || u == 0x1680 || (0x2000 <= u
        && u <= 0x200a) || u == 0x2028 || u == 0x2029 || u == 0x202f || u == 0x205f || u == 0x3000
}

/// Index of the first character that is not white space (the length when
/// there is none).
pub open spec fn first_non_ws(s: Seq<char>) -> int {
    if exists|i: int| 0 <= i < s.len() && !is_white_space(s[i]) {
        choose|i: int|
            0 <= i < s.len() && !is_white_space(s[i]) && forall|j: int| 0 <= j < i ==> is_white_space(s[j])
    } else {
        s.len() as int
    }
}

/// `str::trim`: the text without leading and trailing white space.
pub open spec fn trim(s: Seq<char>) -> Seq<char> {
    let a = first_non_ws(s);
    if a == s.len() {
        Seq::empty()
    } else {
        let e = choose|e: int|
            a <= e < s.len() && !is_white_space(s[e]) && forall|j: int| e < j < s.len() ==> is_white_space(s[j]);
        s.subrange(a, e + 1)
    }
}

/// `str::trim` on a character slice.
pub fn trim_chars(s: &[char]) -> (r: Vec<char>)
    ensures
        r@ == trim(s@),
{
    let n = s.len();
    let mut a: usize = 0;
    while a < n && white_space(s[a])
        invariant
            a <= n,
            n == s@.len(),
            forall|j: int| 0 <= j < a ==> is_white_space(s@[j]),
        decreases n - a,
    {
        a = a + 1;
    }
    if a == n {
        proof {
            if exists|i: int| 0 <= i < s@.len() && !is_white_space(s@[i]) {
                let i = choose|i: int| 0 <= i < s@.len() && !is_white_space(s@[i]);
                assert(is_white_space(s@[i]));
            }
        }
        return Vec::new();
    }
    proof {
        let f = first_non_ws(s@);
        assert(!is_white_space(s@[a as int]));
        assert(0 <= f < s@.len() && !is_white_space(s@[f]) && forall|j: int| 0 <= j < f ==> is_white_space(s@[j]));
        if f < a {
            assert(is_white_space(s@[f]));
        }
        if f > a {
            assert(is_white_space(s@[a as int]));
        }
        assert(f == a);
    }
    let mut b: usize = n;
    while white_space(s[b - 1])
        invariant
            a < b <= n,
            n == s@.len(),
            !is_white_space(s@[a as int]),
            forall|j: int| b <= j < n ==> is_white_space(s@[j]),
        decreases b,
    {
        b = b - 1;
    }
    proof {
        let e = (b - 1) as int;
        assert(a <= e < s@.len() && !is_white_space(s@[e]) && forall|j: int| e < j < s@.len() ==> is_white_space(s@[j]));
        let ee = choose|ee: int|
            a <= ee < s@.len() && !is_white_space(s@[ee]) && forall|j: int| ee < j < s@.len() ==> is_white_space(s@[j]);
        if ee < e {
            assert(is_white_space(s@[e]));
        }
        if ee > e {
            assert(is_white_space(s@[ee]));
        }
        assert(ee == e);
    }
    let mut out: Vec<char> = Vec::new();
    let mut i: usize = a;
    while i < b
        invariant
            a <= i <= b,
            b <= n,
            n == s@.len(),
            out@ == s@.subrange(a as int, i as int),
        decreases b - i,
    {
        out.push(s[i]);
        i = i + 1;
        assert(out@ =~= s@.subrange(a as int, i as int));
    }
    out
}

/// Value of an ASCII decimal digit string read most significant first;
/// `None` when a character is not a digit.
pub open spec fn dec_digits_value(s: Seq<char>) -> Option<nat>
    decreases s.len(),
{
    if s.len() == 0 {
        Some(0)
    } else {
        match dec_digits_value(s.drop_last()) {
            Some(v) => if '0' <= s.last() <= '9' {
                Some(v * 10 + (s.last() as nat - '0' as nat) as nat)
            } else {
                None
            },
            None => None,
        }
    }
}

/// `str::parse::<usize>()`: an optional `+`, then at least one digit, the
/// value at most `usize::MAX`.
pub open spec fn parse_usize_spec(s: Seq<char>) -> Option<nat> {
    let digits = if s.len() > 0 && s[0] == '+' { s.drop_first() } else { s };
    if digits.len() == 0 {
        None
    } else {
        match dec_digits_value(digits) {
            Some(v) => if v <= usize::MAX { Some(v) } else { None },
            None => None,
        }
    }
}

/// `str::parse::<i32>()`: an optional `+` or `-`, then at least one digit,
/// the value within the range of `i32`.
pub open spec fn parse_i32_spec(s: Seq<char>) -> Option<int> {
    let neg = s.len() > 0 && s[0] == '-';
    let digits = if s.len() > 0 && (s[0] == '+' || s[0] == '-') { s.drop_first() } else { s };
    if digits.len() == 0 {
        None
    } else {
        match dec_digits_value(digits) {
            Some(v) => if neg {
                if v <= 0x8000_0000 { Some(-v) } else { None }
            } else {
                if v <= 0x7fff_ffff { Some(v as int) } else { None }
            },
            None => None,
        }
    }
}

/// Reads the digits `s[start..]` as a decimal number no larger than
/// `limit`; `None` when a character is not a digit or the value exceeds it.
fn parse_digits(s: &[char], start: usize, limit: u64) -> (r: Option<u64>)
    requires
        start <= s@.len(),
        limit >= 9,
    ensures
        match r {
            Some(v) => dec_digits_value(s@.subrange(start as int, s@.len() as int)) == Some(v as nat)
                && v <= limit,
            None => match dec_digits_value(s@.subrange(start as int, s@.len() as int)) {
                Some(v) => v > limit,
                None => true,
            },
        },
{
    let n = s.len();
    let mut acc: u64 = 0;
    let mut i: usize = start;
    while i < n
        invariant
            start <= i <= n,
            n == s@.len(),
            dec_digits_value(s@.subrange(start as int, i as int)) == Some(acc as nat),
            acc <= limit,
            limit >= 9,
        decreases n - i,
    {
        let c = s[i];
        let ghost pre = s@.subrange(start as int, i as int);
        let ghost next = s@.subrange(start as int, i + 1);
        assert(next.drop_last() =~= pre);
        if !('0' <= c && c <= '9') {
            proof {
                lemma_dec_prefix_none(s@.subrange(start as int, n as int), (i - start) as int);
            }
            return None;
        }
        let d: u64 = (c as u32 - '0' as u32) as u64;
        if acc > (limit - d) / 10 {
            proof {
                assert(acc * 10 + d > limit) by (nonlinear_arith)
                    requires acc > (limit - d) / 10, d <= 9, limit >= 9;
                lemma_dec_prefix_grows(s@.subrange(start as int, n as int), (i + 1 - start) as int);
                assert(s@.subrange(start as int, n as int).subrange(0, (i + 1 - start) as int) =~= next);
            }
            return None;
        }
        acc = acc * 10 + d;
        i = i + 1;
    }
    Some(acc)
}

/// A decimal string whose prefix is not all digits is not all digits.
proof fn lemma_dec_prefix_none(s: Seq<char>, k: int)
    requires
        0 <= k < s.len(),
        !('0' <= s[k] <= '9'),
    ensures
        dec_digits_value(s) is None,
    decreases s.len(),
{
    if k < s.len() - 1 {
        lemma_dec_prefix_none(s.drop_last(), k);
    }
}

/// The value of a decimal string is at least the value of any prefix.
proof fn lemma_dec_prefix_grows(s: Seq<char>, k: int)
    requires
        0 <= k <= s.len(),
    ensures
        dec_digits_value(s) matches Some(v) ==> dec_digits_value(s.subrange(0, k)) matches Some(
            w,
        ) && w <= v,
    decreases s.len(),
{
    if k < s.len() {
        lemma_dec_prefix_grows(s.drop_last(), k);
        assert(s.drop_last().subrange(0, k) =~= s.subrange(0, k));
        if let Some(v) = dec_digits_value(s) {
            let w0 = dec_digits_value(s.drop_last()).unwrap();
            assert(v >= w0) by (nonlinear_arith)
                requires v == w0 * 10 + (s.last() as nat - '0' as nat) as nat;
        }
    } else {
        assert(s.subrange(0, k) =~= s);
    }
}

/// `str::parse::<usize>()` on a character slice.
pub fn parse_usize(s: &[char]) -> (r: Option<usize>)
    ensures
        match r {
            Some(v) => parse_usize_spec(s@) == Some(v as nat),
            None => parse_usize_spec(s@) is None,
        },
{
    let start: usize = if s.len() > 0 && s[0] == '+' { 1 } else { 0 };
    assert(s@.subrange(start as int, s@.len() as int) =~= (if s@.len() > 0 && s@[0] == '+' { s@.drop_first() } else { s@ }));
    if start == s.len() {
        return None;
    }
    match parse_digits(s, start, usize::MAX as u64) {
        Some(v) => Some(v as usize),
        None => None,
    }
}

/// `str::parse::<i32>()` on a character slice.
pub fn parse_i32(s: &[char]) -> (r: Option<i32>)
    ensures
        match r {
            Some(v) => parse_i32_spec(s@) == Some(v as int),
            None => parse_i32_spec(s@) is None,
        },
{
    let neg = s.len() > 0 && s[0] == '-';
    let start: usize = if s.len() > 0 && (s[0] == '+' || s[0] == '-') { 1 } else { 0 };
    assert(s@.subrange(start as int, s@.len() as int) =~= (if s@.len() > 0 && (s@[0] == '+' || s@[0] == '-') { s@.drop_first() } else { s@ }));
    if start == s.len() {
        return None;
    }
    let limit: u64 = if neg { 0x8000_0000 } else { 0x7fff_ffff };
    match parse_digits(s, start, limit) {
        Some(v) => {
            if neg {
                if v == 0x8000_0000 {
                    Some(i32::MIN)
                } else {
                    Some(-(v as i32))
                }
            } else {
                Some(v as i32)
            }
        },
        None => None,
    }
}

/// Decimal digits of `n`, most significant first, as `n.to_string()`
/// prints them.
pub open spec fn dec_string(n: nat) -> Seq<char>
    decreases n,
{
    if n < 10 {
        seq![(n + '0' as nat) as char]
    } else {
        dec_string(n / 10).push(((n % 10) + '0' as nat) as char)
    }
}

/// `n.to_string()` for an unsigned number.
pub fn decimal_string(n: u64) -> (r: Vec<char>)
    ensures
        r@ == dec_string(n as nat),
    decreases n,
{
    if n < 10 {
        let c = char_of_digit(n);
        let mut v: Vec<char> = Vec::new();
        v.push(c);
        assert(v@ =~= seq![c]);
        v
    } else {
        let mut v = decimal_string(n / 10);
        v.push(char_of_digit(n % 10));
        v
    }
}

fn char_of_digit(d: u64) -> (c: char)
    requires
        d < 10,
    ensures
        c == (d + '0' as nat) as char,
{
    if d == 0 { '0' } else if d == 1 { '1' } else if d == 2 { '2' } else if d == 3 { '3' } else if d
        == 4 { '4' } else if d == 5 { '5' } else if d == 6 { '6' } else if d == 7 { '7' } else if d
        == 8 { '8' } else { '9' }
}

/// Whether two character slices hold the same text.
pub fn chars_eq(a: &[char], b: &[char]) -> (r: bool)
    ensures
        r == (a@ == b@),
{
    if a.len() != b.len() {
        return false;
    }
    let mut i: usize = 0;
    while i < a.len()
        invariant
            i <= a@.len(),
            a@.len() == b@.len(),
            forall|j: int| 0 <= j < i ==> a@[j] == b@[j],
        decreases a@.len() - i,
    {
        if a[i] != b[i] {
            return false;
        }
        i = i + 1;
    }
    assert(a@ =~= b@);
    true
}

/// The characters of a string slice.
pub fn str_chars(s: &str) -> (r: Vec<char>)
    ensures
        r@ == s@,
{
    let n = s.unicode_len();
    let mut out: Vec<char> = Vec::new();
    let mut i: usize = 0;
    while i < n
        invariant
            i <= n,
            n == s@.len(),
            out@ == s@.subrange(0, i as int),
        decreases n - i,
    {
        out.push(s.get_char(i));
        i = i + 1;
        assert(out@ =~= s@.subrange(0, i as int));
    }
    assert(out@ =~= s@);
    out
}

/// The bytes of an ASCII text.
pub open spec fn ascii_bytes(s: Seq<char>) -> Seq<u8> {
    s.map_values(|c: char| c as u8)
}

/// The bytes of a string slice made of ASCII characters.
pub fn str_ascii_bytes(s: &str) -> (r: Vec<u8>)
    ensures
        r@ == ascii_bytes(s@),
{
    let n = s.unicode_len();
    let mut out: Vec<u8> = Vec::new();
    let mut i: usize = 0;
    while i < n
        invariant
            i <= n,
            n == s@.len(),
            out@ == ascii_bytes(s@.subrange(0, i as int)),
        decreases n - i,
    {
        let c = s.get_char(i);
        out.push(c as u8);
        i = i + 1;
        assert(out@ =~= ascii_bytes(s@.subrange(0, i as int)));
    }
    assert(s@.subrange(0, n as int) =~= s@);
    out
}

proof fn lemma_digit_char_of(d: nat)
    requires
        d < 10,
    ensures
        ((d + '0' as nat) as char) as int == d + 48,
{
}

/// The characters of a decimal number are digits, and the number has at
/// least one.
pub proof fn lemma_dec_string_shape(n: nat)
    ensures
        dec_string(n).len() > 0,
        forall|k: int| 0 <= k < dec_string(n).len() ==> 48 <= #[trigger] dec_string(n)[k] as int <= 57,
        dec_digits_value(dec_string(n)) == Some(n),
    decreases n,
{
    lemma_digit_char_of(n % 10);
    if n >= 10 {
        lemma_dec_string_shape(n / 10);
        let d = dec_string(n);
        assert(d.drop_last() =~= dec_string(n / 10));
        assert forall|k: int| 0 <= k < d.len() implies 48 <= #[trigger] d[k] as int <= 57 by {
            if k < d.len() - 1 {
                assert(d[k] == dec_string(n / 10)[k]);
            }
        }
        assert(d.last() as int == n % 10 + 48);
        assert('0' <= d.last() <= '9');
        assert((d.last() as nat - '0' as nat) as nat == n % 10);
        assert(n == (n / 10) * 10 + n % 10);
        assert(dec_digits_value(d.drop_last()) == Some(n / 10));
    } else {
        let d = dec_string(n);
        assert(d.drop_last() =~= Seq::<char>::empty());
        assert(d.last() as int == n + 48);
        assert(dec_digits_value(d.drop_last()) == Some(0nat));
        assert('0' <= d.last() <= '9');
        assert((d.last() as nat - '0' as nat) as nat == n);
    }
}

/// A digit is neither white space nor a sign, a colon or a bracket.
pub proof fn lemma_digit_plain(c: char)
    requires
        48 <= c as int <= 57,
    ensures
        !is_white_space(c),
        c != '+',
        c != '-',
        c != ':',
{
    assert((c as u32) as int == c as int);
}

/// `str::trim` keeps exactly what lies between the leading and trailing
/// white space.
pub proof fn lemma_trim_window(s: Seq<char>, a: int, e: int)
    requires
        0 <= a <= e < s.len(),
        forall|j: int| 0 <= j < a ==> is_white_space(#[trigger] s[j]),
        !is_white_space(s[a]),
        !is_white_space(s[e]),
        forall|j: int| e < j < s.len() ==> is_white_space(#[trigger] s[j]),
    ensures
        trim(s) == s.subrange(a, e + 1),
{
    assert(exists|i: int| 0 <= i < s.len() && !is_white_space(s[i]));
    assert(0 <= a < s.len() && !is_white_space(s[a]) && forall|j: int| 0 <= j < a ==> is_white_space(s[j]));
    let f = first_non_ws(s);
    if f < a {
        assert(is_white_space(s[f]));
    }
    if f > a {
        assert(is_white_space(s[a]));
    }
    assert(a <= e < s.len() && !is_white_space(s[e]) && forall|j: int| e < j < s.len() ==> is_white_space(s[j]));
    let ee = choose|ee: int|
        a <= ee < s.len() && !is_white_space(s[ee]) && forall|j: int| ee < j < s.len() ==> is_white_space(s[j]);
    if ee < e {
        assert(is_white_space(s[e]));
    }
    if ee > e {
        assert(is_white_space(s[ee]));
    }
}

/// `str::parse::<usize>()` reads the decimal text of a number back.
pub proof fn lemma_parse_usize_dec(n: nat)
    requires
        n <= usize::MAX,
    ensures
        parse_usize_spec(dec_string(n)) == Some(n),
{
    lemma_dec_string_shape(n);
    lemma_digit_plain(dec_string(n)[0]);
}

/// Decimal text of a signed number as `i32::to_string` prints it: a `-`
/// before the digits of a negative one.
pub open spec fn signed_dec_string(v: int) -> Seq<char> {
    if v < 0 {
        seq!['-'] + dec_string((-v) as nat)
    } else {
        dec_string(v as nat)
    }
}

/// The text of an `i32` is a sign or a digit followed by digits, none of
/// them white space.
pub proof fn lemma_signed_dec_string_shape(c: i32)
    ensures
        signed_dec_string(c as int).len() > 0,
        forall|k: int|
            0 <= k < signed_dec_string(c as int).len() ==> (#[trigger] signed_dec_string(c as int)[k] == '-'
                || 48 <= signed_dec_string(c as int)[k] as int <= 57),
        !is_white_space(signed_dec_string(c as int)[0]),
        !is_white_space(signed_dec_string(c as int).last()),
{
    let t = signed_dec_string(c as int);
    if c < 0 {
        let d = dec_string((-c) as nat);
        lemma_dec_string_shape((-c) as nat);
        assert forall|k: int| 0 <= k < t.len() implies (#[trigger] t[k] == '-' || 48 <= t[k] as int <= 57) by {
            if k > 0 {
                assert(t[k] == d[k - 1]);
            }
        }
        assert(t.last() == d.last());
        lemma_digit_plain(d.last());
    } else {
        lemma_dec_string_shape(c as nat);
        lemma_digit_plain(t[0]);
        lemma_digit_plain(t.last());
    }
}

/// `str::parse::<i32>()` reads the text of an `i32` back, and `str::trim`
/// leaves that text as it is.
pub proof fn lemma_parse_i32_dec(c: i32)
    ensures
        trim(signed_dec_string(c as int)) == signed_dec_string(c as int),
        parse_i32_spec(signed_dec_string(c as int)) == Some(c as int),
{
    let t = signed_dec_string(c as int);
    lemma_signed_dec_string_shape(c);
    lemma_trim_window(t, 0, t.len() - 1);
    assert(t.subrange(0, t.len() as int) =~= t);
    if c < 0 {
        lemma_dec_string_shape((-c) as nat);
        assert(t.drop_first() =~= dec_string((-c) as nat));
    } else {
        lemma_dec_string_shape(c as nat);
        lemma_digit_plain(t[0]);
    }
}

} // verus!
