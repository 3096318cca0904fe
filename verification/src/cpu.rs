//! CPU clusters of heterogeneous ARM hosts: the cores of each CPU part,
//! read from `/proc/cpuinfo`, and the choice of the cluster a virtual
//! machine is pinned to.
use vstd::prelude::*;
use crate::system::texts_view;
use crate::text::{
    dec_string, decimal_string, is_white_space, lemma_dec_string_shape, lemma_digit_plain, lemma_parse_usize_dec,
    lemma_trim_window, parse_usize, parse_usize_spec, str_chars, trim, trim_chars,
};

verus! {

/// The cores of one CPU part (one cluster of a big.LITTLE host).
#[derive(Debug, Clone)]
pub struct CpuCluster {
    /// The part number, as `0x` and at least three lower-case hex digits.
    pub part_id: Vec<char>,
    /// The processor numbers, ascending, each once.
    pub cores: Vec<usize>,
}

impl View for CpuCluster {
    type V = (Seq<char>, Seq<usize>);

    open spec fn view(&self) -> (Seq<char>, Seq<usize>) {
        (self.part_id@, self.cores@)
    }
}

/// The clusters of a vector as plain values.
pub open spec fn clusters_view(v: Seq<CpuCluster>) -> Seq<(Seq<char>, Seq<usize>)> {
    v.map_values(|c: CpuCluster| c@)
}

/// The order of `String`: character by character (UTF-8 keeps the order of
/// code points), a proper prefix first.
pub open spec fn chars_lt(a: Seq<char>, b: Seq<char>) -> bool
    decreases a.len(),
{
    if b.len() == 0 {
        false
    } else if a.len() == 0 {
        true
    } else if a[0] != b[0] {
        (a[0] as int) < (b[0] as int)
    } else {
        chars_lt(a.drop_first(), b.drop_first())
    }
}

/// No text comes before itself.
pub proof fn lemma_chars_lt_irreflexive(a: Seq<char>)
    ensures
        !chars_lt(a, a),
    decreases a.len(),
{
    if a.len() > 0 {
        lemma_chars_lt_irreflexive(a.drop_first());
    }
}

/// Of two different texts, one comes before the other, and not both ways.
pub proof fn lemma_chars_lt_total(a: Seq<char>, b: Seq<char>)
    ensures
        a == b || chars_lt(a, b) || chars_lt(b, a),
        !(chars_lt(a, b) && chars_lt(b, a)),
    decreases a.len(),
{
    if a.len() > 0 && b.len() > 0 && a[0] == b[0] {
        lemma_chars_lt_total(a.drop_first(), b.drop_first());
        if a.drop_first() == b.drop_first() {
            assert(a =~= b) by {
                assert forall|i: int| 0 <= i < a.len() implies a[i] == b[i] by {
                    if i > 0 {
                        assert(a[i] == a.drop_first()[i - 1]);
                        assert(b[i] == b.drop_first()[i - 1]);
                    }
                }
            }
        }
    } else if a.len() == 0 && b.len() == 0 {
        assert(a =~= b);
    } else if a.len() > 0 && b.len() > 0 {
        assert((a[0] as int) != (b[0] as int));
    }
}

/// The order of texts is transitive.
pub proof fn lemma_chars_lt_transitive(a: Seq<char>, b: Seq<char>, c: Seq<char>)
    requires
        chars_lt(a, b),
        chars_lt(b, c),
    ensures
        chars_lt(a, c),
    decreases a.len(),
{
    if a.len() > 0 && a[0] == b[0] && b[0] == c[0] {
        lemma_chars_lt_transitive(a.drop_first(), b.drop_first(), c.drop_first());
    }
}

/// Whether `a` comes before `b` as strings do.
pub fn chars_less(a: &[char], b: &[char]) -> (r: bool)
    ensures
        r == chars_lt(a@, b@),
{
    let mut i: usize = 0;
    assert(a@.skip(0) =~= a@);
    assert(b@.skip(0) =~= b@);
    while i < a.len() && i < b.len()
        invariant
            i <= a@.len(),
            i <= b@.len(),
            chars_lt(a@, b@) == chars_lt(a@.skip(i as int), b@.skip(i as int)),
        decreases a@.len() - i,
    {
        if a[i] != b[i] {
            assert(a@.skip(i as int)[0] == a@[i as int]);
            assert(b@.skip(i as int)[0] == b@[i as int]);
            return a[i] < b[i];
        }
        assert(a@.skip(i as int).drop_first() =~= a@.skip(i + 1));
        assert(b@.skip(i as int).drop_first() =~= b@.skip(i + 1));
        i = i + 1;
    }
    i < b.len()
}

/// Ascending, each value once.
pub open spec fn sorted_strict(s: Seq<usize>) -> bool {
    forall|i: int, j: int| 0 <= i < j < s.len() ==> s[i] < s[j]
}

/// Adds `c` to an ascending list of distinct numbers, keeping it so.
fn insert_sorted(v: &mut Vec<usize>, c: usize)
    requires
        sorted_strict(old(v)@),
    ensures
        sorted_strict(final(v)@),
        forall|x: usize| #[trigger] final(v)@.contains(x) <==> (old(v)@.contains(x) || x == c),
{
    let ghost s = v@;
    let mut i: usize = 0;
    while i < v.len() && v[i] < c
        invariant
            i <= v@.len(),
            v@ == s,
            forall|j: int| 0 <= j < i ==> s[j] < c,
        decreases v@.len() - i,
    {
        i = i + 1;
    }
    if i < v.len() && v[i] == c {
        assert(v@[i as int] == c);
        return;
    }
    v.insert(i, c);
    assert forall|x: usize| #[trigger] v@.contains(x) <==> (s.contains(x) || x == c) by {
        if v@.contains(x) {
            let k = choose|k: int| 0 <= k < v@.len() && v@[k] == x;
            if k < i {
                assert(s[k] == x);
            } else if k > i {
                assert(s[k - 1] == x);
            }
        }
        if s.contains(x) {
            let k = choose|k: int| 0 <= k < s.len() && s[k] == x;
            if k < i {
                assert(v@[k] == x);
            } else {
                assert(v@[k + 1] == x);
            }
        }
        if x == c {
            assert(v@[i as int] == x);
        }
    }
}

/// A processor number paired with the part of the processor it belongs to,
/// as `/proc/cpuinfo` gives them.
pub type CoreOfPart = (Seq<char>, usize);

/// Whether some core belongs to part `p`.
pub open spec fn has_part(ev: Seq<CoreOfPart>, p: Seq<char>) -> bool
    decreases ev.len(),
{
    ev.len() > 0 && (ev.last().0 == p || has_part(ev.drop_last(), p))
}

/// Whether core `c` belongs to part `p`.
pub open spec fn has_core(ev: Seq<CoreOfPart>, p: Seq<char>, c: usize) -> bool
    decreases ev.len(),
{
    ev.len() > 0 && (ev.last() == (p, c) || has_core(ev.drop_last(), p, c))
}

/// Clusters in the order of their part numbers, each part once.
pub open spec fn parts_sorted(cs: Seq<(Seq<char>, Seq<usize>)>) -> bool {
    forall|i: int, j: int| 0 <= i < j < cs.len() ==> chars_lt(cs[i].0, cs[j].0)
}

/// `cs` groups the cores of `ev` by part: one cluster for each part, in
/// the order of the part numbers, holding that part's cores ascending and
/// each once.
#[verifier::opaque]
pub open spec fn grouped(cs: Seq<(Seq<char>, Seq<usize>)>, ev: Seq<CoreOfPart>) -> bool {
    &&& parts_sorted(cs)
    &&& forall|i: int| 0 <= i < cs.len() ==> #[trigger] has_part(ev, cs[i].0) && sorted_strict(cs[i].1)
    &&& forall|i: int, c: usize|
        #![trigger cs[i].1.contains(c)]
        #![trigger has_core(ev, cs[i].0, c)]
        0 <= i < cs.len() ==> (cs[i].1.contains(c) <==> has_core(ev, cs[i].0, c))
    &&& forall|p: Seq<char>| #[trigger] has_part(ev, p) ==> exists|i: int| 0 <= i < cs.len() && cs[i].0 == p
}

proof fn lemma_core_has_part(ev: Seq<CoreOfPart>, p: Seq<char>, c: usize)
    requires
        has_core(ev, p, c),
    ensures
        has_part(ev, p),
    decreases ev.len(),
{
    if ev.last() != (p, c) {
        lemma_core_has_part(ev.drop_last(), p, c);
    }
}

proof fn lemma_push_unfold(ev: Seq<CoreOfPart>, e: CoreOfPart)
    ensures
        forall|q: Seq<char>| #[trigger] has_part(ev.push(e), q) == (e.0 == q || has_part(ev, q)),
        forall|q: Seq<char>, x: usize| #[trigger] has_core(ev.push(e), q, x) == (e == (q, x) || has_core(ev, q, x)),
{
    assert(ev.push(e).drop_last() =~= ev);
}

/// A core of a part that already has a cluster joins that cluster.
proof fn lemma_grouped_merge(
    cs: Seq<(Seq<char>, Seq<usize>)>,
    ev: Seq<CoreOfPart>,
    i: int,
    c: usize,
    cores: Seq<usize>,
)
    requires
        grouped(cs, ev),
        0 <= i < cs.len(),
        sorted_strict(cores),
        forall|x: usize| cores.contains(x) <==> (cs[i].1.contains(x) || x == c),
    ensures
        grouped(cs.update(i, (cs[i].0, cores)), ev.push((cs[i].0, c))),
{
    reveal(grouped);
    let p = cs[i].0;
    let cs2 = cs.update(i, (p, cores));
    let ev2 = ev.push((p, c));
    lemma_push_unfold(ev, (p, c));
    assert forall|j: int, x: usize| 0 <= j < cs2.len() implies (cs2[j].1.contains(x) <==> has_core(
        ev2,
        cs2[j].0,
        x,
    )) by {
        if j != i {
            if i < j {
                lemma_chars_lt_irreflexive(p);
                assert(chars_lt(cs[i].0, cs[j].0));
            } else {
                lemma_chars_lt_irreflexive(p);
                assert(chars_lt(cs[j].0, cs[i].0));
            }
            assert(cs[j].0 != p);
            assert(cs[j].1.contains(x) <==> has_core(ev, cs[j].0, x));
        } else {
            assert(cs[i].1.contains(x) <==> has_core(ev, p, x));
        }
    }
    assert forall|q: Seq<char>| #[trigger] has_part(ev2, q) implies exists|j: int|
        0 <= j < cs2.len() && cs2[j].0 == q by {
        if q == p {
            assert(cs2[i].0 == q);
        } else {
            let j = choose|j: int| 0 <= j < cs.len() && cs[j].0 == q;
            assert(cs2[j].0 == q);
        }
    }
    assert forall|j: int| 0 <= j < cs2.len() implies #[trigger] has_part(ev2, cs2[j].0) && sorted_strict(
        cs2[j].1,
    ) by {
        assert(has_part(ev, cs[j].0));
    }
}

/// The core of a part that has no cluster yet starts one, in its place in
/// the order of parts.
proof fn lemma_grouped_new(cs: Seq<(Seq<char>, Seq<usize>)>, ev: Seq<CoreOfPart>, i: int, p: Seq<char>, c: usize)
    requires
        grouped(cs, ev),
        0 <= i <= cs.len(),
        forall|j: int| 0 <= j < i ==> chars_lt(#[trigger] cs[j].0, p),
        i < cs.len() ==> chars_lt(p, cs[i].0),
    ensures
        grouped(cs.insert(i, (p, seq![c])), ev.push((p, c))),
{
    reveal(grouped);
    let cs2 = cs.insert(i, (p, seq![c]));
    let ev2 = ev.push((p, c));
    lemma_push_unfold(ev, (p, c));
    lemma_chars_lt_irreflexive(p);
    assert forall|j: int| 0 <= j < cs.len() implies #[trigger] cs[j].0 != p by {
        if j < i {
            assert(chars_lt(cs[j].0, p));
        } else if j > i {
            lemma_chars_lt_transitive(p, cs[i].0, cs[j].0);
        }
    }
    assert forall|x: usize| !has_core(ev, p, x) by {
        if has_core(ev, p, x) {
            lemma_core_has_part(ev, p, x);
            let j = choose|j: int| 0 <= j < cs.len() && cs[j].0 == p;
            assert(cs[j].0 != p);
        }
    }
    assert forall|a: int, b: int| 0 <= a < b < cs2.len() implies chars_lt(cs2[a].0, cs2[b].0) by {
        if b < i {
            assert(chars_lt(cs[a].0, cs[b].0));
        } else if b == i {
            assert(chars_lt(cs[a].0, p));
        } else if a == i {
            if b - 1 > i {
                lemma_chars_lt_transitive(p, cs[i].0, cs[b - 1].0);
            }
        } else if a < i {
            assert(chars_lt(cs[a].0, cs[b - 1].0));
        } else {
            assert(chars_lt(cs[a - 1].0, cs[b - 1].0));
        }
    }
    assert forall|j: int, x: usize| 0 <= j < cs2.len() implies (cs2[j].1.contains(x) <==> has_core(
        ev2,
        cs2[j].0,
        x,
    )) by {
        if j < i {
            assert(cs[j].1.contains(x) <==> has_core(ev, cs[j].0, x));
        } else if j > i {
            assert(cs[j - 1].1.contains(x) <==> has_core(ev, cs[j - 1].0, x));
        } else {
            if x == c {
                assert(cs2[j].1[0] == x);
            }
        }
    }
    assert forall|j: int| 0 <= j < cs2.len() implies #[trigger] has_part(ev2, cs2[j].0) && sorted_strict(
        cs2[j].1,
    ) by {
        if j < i {
            assert(has_part(ev, cs[j].0));
        } else if j > i {
            assert(has_part(ev, cs[j - 1].0));
        }
    }
    assert forall|q: Seq<char>| #[trigger] has_part(ev2, q) implies exists|j: int|
        0 <= j < cs2.len() && cs2[j].0 == q by {
        if q == p {
            assert(cs2[i].0 == q);
        } else {
            let j = choose|j: int| 0 <= j < cs.len() && cs[j].0 == q;
            if j < i {
                assert(cs2[j].0 == q);
            } else {
                assert(cs2[j + 1].0 == q);
            }
        }
    }
}

/// Whether `s` begins with `p`.
pub open spec fn begins_with(s: Seq<char>, p: Seq<char>) -> bool {
    p.len() <= s.len() && s.take(p.len() as int) == p
}

fn starts_with_text(s: &[char], p: &str) -> (r: bool)
    ensures
        r == begins_with(s@, p@),
{
    let pc = str_chars(p);
    if pc.len() > s.len() {
        return false;
    }
    let mut i: usize = 0;
    while i < pc.len()
        invariant
            i <= pc@.len(),
            pc@.len() <= s@.len(),
            pc@ == p@,
            forall|j: int| 0 <= j < i ==> s@[j] == pc@[j],
        decreases pc@.len() - i,
    {
        if s[i] != pc[i] {
            assert(s@.take(pc@.len() as int)[i as int] != p@[i as int]);
            return false;
        }
        i = i + 1;
    }
    assert(s@.take(pc@.len() as int) =~= p@);
    true
}

/// Whether `s` holds a colon.
pub open spec fn has_colon(s: Seq<char>) -> bool {
    exists|i: int| 0 <= i < s.len() && s[i] == ':'
}

/// The position of the first colon of `s`.
pub open spec fn first_colon(s: Seq<char>) -> int {
    choose|i: int| 0 <= i < s.len() && s[i] == ':' && forall|j: int| 0 <= j < i ==> s[j] != ':'
}

/// `s.split(':').nth(1)`: the text between the first colon and the next
/// one (or the end); none when `s` holds no colon.
pub open spec fn second_field(s: Seq<char>) -> Option<Seq<char>> {
    if has_colon(s) {
        let rest = s.skip(first_colon(s) + 1);
        if has_colon(rest) {
            Some(rest.take(first_colon(rest)))
        } else {
            Some(rest)
        }
    } else {
        None
    }
}

proof fn lemma_first_colon(s: Seq<char>, i: int)
    requires
        0 <= i < s.len(),
        s[i] == ':',
        forall|j: int| 0 <= j < i ==> s[j] != ':',
    ensures
        has_colon(s),
        first_colon(s) == i,
{
    assert(0 <= i < s.len() && s[i] == ':' && forall|j: int| 0 <= j < i ==> s[j] != ':');
    let f = first_colon(s);
    if f < i {
        assert(s[f] != ':');
    }
    if f > i {
        assert(s[i] != ':');
    }
}

/// The first colon at `from` or after, or the length when there is none.
fn find_colon(s: &[char], from: usize) -> (r: usize)
    requires
        from <= s@.len(),
    ensures
        from <= r <= s@.len(),
        forall|j: int| from <= j < r ==> s@[j] != ':',
        r < s@.len() ==> s@[r as int] == ':',
{
    let mut i = from;
    while i < s.len() && s[i] != ':'
        invariant
            from <= i <= s@.len(),
            forall|j: int| from <= j < i ==> s@[j] != ':',
        decreases s@.len() - i,
    {
        i = i + 1;
    }
    i
}

fn copy_chars_range(s: &[char], a: usize, b: usize) -> (r: Vec<char>)
    requires
        a <= b <= s@.len(),
    ensures
        r@ == s@.subrange(a as int, b as int),
{
    let mut out: Vec<char> = Vec::new();
    let mut i = a;
    while i < b
        invariant
            a <= i <= b,
            b <= s@.len(),
            out@ == s@.subrange(a as int, i as int),
        decreases b - i,
    {
        out.push(s[i]);
        i = i + 1;
        assert(out@ =~= s@.subrange(a as int, i as int));
    }
    out
}

/// The text of an optional character vector.
pub open spec fn opt_chars(o: Option<Vec<char>>) -> Option<Seq<char>> {
    match o {
        Some(v) => Some(v@),
        None => None,
    }
}

fn second_field_of(s: &[char]) -> (r: Option<Vec<char>>)
    ensures
        opt_chars(r) == second_field(s@),
{
    let i = find_colon(s, 0);
    if i == s.len() {
        assert(!has_colon(s@)) by {
            if has_colon(s@) {
                let k = choose|k: int| 0 <= k < s@.len() && s@[k] == ':';
                assert(s@[k] != ':');
            }
        }
        return None;
    }
    proof {
        lemma_first_colon(s@, i as int);
    }
    let ghost rest = s@.skip(i + 1);
    let j = find_colon(s, i + 1);
    if j < s.len() {
        proof {
            assert forall|k: int| 0 <= k < j - (i + 1) implies rest[k] != ':' by {
                assert(rest[k] == s@[k + i + 1]);
            }
            assert(rest[j - (i + 1)] == s@[j as int]);
            lemma_first_colon(rest, j - (i + 1));
            assert(rest.take(j - (i + 1)) =~= s@.subrange(i + 1, j as int));
        }
    } else {
        assert(!has_colon(rest)) by {
            if has_colon(rest) {
                let k = choose|k: int| 0 <= k < rest.len() && rest[k] == ':';
                assert(rest[k] == s@[k + i + 1]);
            }
        }
        assert(rest =~= s@.subrange(i + 1, j as int));
    }
    Some(copy_chars_range(s, i + 1, j))
}

/// A lower-case hex digit.
pub open spec fn hex_char(d: nat) -> char {
    if d < 10 {
        (d + '0' as nat) as char
    } else {
        (d - 10 + 'a' as nat) as char
    }
}

/// `n` in lower-case hex, without leading zeros.
pub open spec fn hex_text(n: nat) -> Seq<char>
    decreases n,
{
    if n < 16 {
        seq![hex_char(n)]
    } else {
        hex_text(n / 16).push(hex_char(n % 16))
    }
}

/// `s` with zeros in front up to `w` characters.
pub open spec fn zero_padded(s: Seq<char>, w: nat) -> Seq<char> {
    if s.len() >= w {
        s
    } else {
        Seq::new((w - s.len()) as nat, |_i: int| '0') + s
    }
}

fn hex_char_of(d: usize) -> (c: char)
    requires
        d < 16,
    ensures
        c == hex_char(d as nat),
{
    if d == 0 { '0' } else if d == 1 { '1' } else if d == 2 { '2' } else if d == 3 { '3' } else if d
        == 4 { '4' } else if d == 5 { '5' } else if d == 6 { '6' } else if d == 7 { '7' } else if d
        == 8 { '8' } else if d == 9 { '9' } else if d == 10 { 'a' } else if d == 11 { 'b' } else if d
        == 12 { 'c' } else if d == 13 { 'd' } else if d == 14 { 'e' } else { 'f' }
}

fn hex_text_of(n: usize) -> (r: Vec<char>)
    ensures
        r@ == hex_text(n as nat),
    decreases n,
{
    if n < 16 {
        let mut v: Vec<char> = Vec::new();
        v.push(hex_char_of(n));
        assert(v@ =~= seq![hex_char(n as nat)]);
        v
    } else {
        let mut v = hex_text_of(n / 16);
        v.push(hex_char_of(n % 16));
        v
    }
}

/// The lower-case form `str::to_lowercase` gives a text (Unicode case
/// mapping, independent of any locale).
pub uninterp spec fn lowercase(s: Seq<char>) -> Seq<char>;

/// Whether every character is ASCII.
pub open spec fn all_ascii(s: Seq<char>) -> bool {
    forall|i: int| 0 <= i < s.len() ==> (#[trigger] s[i] as int) < 128
}

/// A character with an ASCII capital letter made small.
pub open spec fn ascii_lower_char(c: char) -> char {
    if 'A' <= c <= 'Z' {
        ((c as int) + 32) as char
    } else {
        c
    }
}

/// ASCII text with its capital letters made small, the rest kept.
pub open spec fn ascii_lower(s: Seq<char>) -> Seq<char> {
    s.map_values(|c: char| ascii_lower_char(c))
}

/// Calls `str::to_lowercase`. Trusted: the result is `lowercase` of the
/// text, a name for std's Unicode lower-case mapping, which is a function
/// of the text alone; on ASCII text that mapping turns `A`-`Z` into
/// `a`-`z` and keeps every other character, as Unicode's case mapping
/// does for ASCII.
#[verifier::external_body]
fn to_lowercase(s: &[char]) -> (r: Vec<char>)
    ensures
        r@ == lowercase(s@),
        all_ascii(s@) ==> r@ == ascii_lower(s@),
{
    let text: String = s.iter().collect();
    text.to_lowercase().chars().collect()
}

/// The lower-case form of a part number: the ASCII mapping for ASCII
/// text, `str::to_lowercase` otherwise.
pub open spec fn lower_part(raw: Seq<char>) -> Seq<char> {
    if all_ascii(raw) {
        ascii_lower(raw)
    } else {
        lowercase(raw)
    }
}

/// The part number as clusters are keyed: a hex number with its `0x` kept
/// in lower case, a decimal one as `0x` and at least three hex digits,
/// anything else in lower case.
pub open spec fn normalized_part(raw: Seq<char>) -> Seq<char> {
    if begins_with(raw, "0x"@) || begins_with(raw, "0X"@) {
        lower_part(raw)
    } else {
        match parse_usize_spec(raw) {
            Some(n) => "0x"@ + zero_padded(hex_text(n), 3),
            None => lower_part(raw),
        }
    }
}

fn normalize_part(raw: &[char]) -> (r: Vec<char>)
    ensures
        r@ == normalized_part(raw@),
{
    if starts_with_text(raw, "0x") || starts_with_text(raw, "0X") {
        return to_lowercase(raw);
    }
    match parse_usize(raw) {
        Some(n) => {
            let digits = hex_text_of(n);
            let mut out = str_chars("0x");
            let ghost head = out@;
            let mut k: usize = digits.len();
            while k < 3
                invariant
                    digits.len() <= k <= 3 || (k == digits.len() && k >= 3),
                    out@ == head + Seq::new((k - digits.len()) as nat, |_i: int| '0'),
                decreases 3 - k,
            {
                let ghost before = out@;
                out.push('0');
                k = k + 1;
                assert(out@ =~= head + Seq::new((k - digits.len()) as nat, |_i: int| '0'));
            }
            let ghost mid = out@;
            let mut i: usize = 0;
            while i < digits.len()
                invariant
                    i <= digits@.len(),
                    out@ == mid + digits@.take(i as int),
                decreases digits@.len() - i,
            {
                out.push(digits[i]);
                i = i + 1;
                assert(out@ =~= mid + digits@.take(i as int));
            }
            assert(digits@.take(digits@.len() as int) =~= digits@);
            assert(out@ =~= "0x"@ + zero_padded(hex_text(n as nat), 3));
            out
        },
        None => to_lowercase(raw),
    }
}

/// What one line of `/proc/cpuinfo` does to the processor being read: a
/// `processor : N` line names it; a `CPU part : P` line assigns it to part
/// `P` and ends it.
#[verifier::opaque]
pub open spec fn cpuinfo_step(cur: Option<usize>, line: Seq<char>) -> (Option<usize>, Option<CoreOfPart>) {
    let t = trim(line);
    if begins_with(t, "processor"@) {
        match second_field(t) {
            Some(v) => match parse_usize_spec(trim(v)) {
                Some(id) => (Some(id as usize), None),
                None => (cur, None),
            },
            None => (cur, None),
        }
    } else if begins_with(t, "CPU part"@) {
        match second_field(t) {
            Some(v) => match cur {
                Some(p) => (None, Some((normalized_part(trim(v)), p))),
                None => (None, None),
            },
            None => (cur, None),
        }
    } else {
        (cur, None)
    }
}

/// The processor being read after the lines, and the cores assigned to
/// parts so far, in order.
pub open spec fn cpuinfo_scan(lines: Seq<Seq<char>>) -> (Option<usize>, Seq<CoreOfPart>)
    decreases lines.len(),
{
    if lines.len() == 0 {
        (None, Seq::empty())
    } else {
        let (cur, ev) = cpuinfo_scan(lines.drop_last());
        let (next, found) = cpuinfo_step(cur, lines.last());
        match found {
            Some(e) => (next, ev.push(e)),
            None => (next, ev),
        }
    }
}

/// The cores that the lines of `/proc/cpuinfo` assign to CPU parts.
pub open spec fn cpu_events(lines: Seq<Seq<char>>) -> Seq<CoreOfPart> {
    cpuinfo_scan(lines).1
}

fn add_core(clusters: &mut Vec<CpuCluster>, part: Vec<char>, id: usize, Ghost(ev): Ghost<Seq<CoreOfPart>>)
    requires
        grouped(clusters_view(old(clusters)@), ev),
    ensures
        grouped(clusters_view(final(clusters)@), ev.push((part@, id))),
{
    let ghost cs = clusters_view(clusters@);
    let mut i: usize = 0;
    while i < clusters.len() && chars_less(clusters[i].part_id.as_slice(), part.as_slice())
        invariant
            i <= clusters@.len(),
            cs == clusters_view(clusters@),
            forall|j: int| 0 <= j < i ==> chars_lt(#[trigger] cs[j].0, part@),
        decreases clusters@.len() - i,
    {
        i = i + 1;
    }
    if i < clusters.len() && crate::text::chars_eq(clusters[i].part_id.as_slice(), part.as_slice()) {
        let mut cl = clusters.remove(i);
        proof {
            reveal(grouped);
            assert(cs[i as int] == cl@);
            assert(has_part(ev, cs[i as int].0));
        }
        insert_sorted(&mut cl.cores, id);
        proof {
            lemma_grouped_merge(cs, ev, i as int, id, cl.cores@);
        }
        clusters.insert(i, cl);
        assert(clusters_view(clusters@) =~= cs.update(i as int, (part@, cl.cores@)));
    } else {
        proof {
            if i < cs.len() {
                lemma_chars_lt_total(cs[i as int].0, part@);
            }
            lemma_grouped_new(cs, ev, i as int, part@, id);
        }
        let mut cores: Vec<usize> = Vec::new();
        cores.push(id);
        let cl = CpuCluster { part_id: part, cores };
        clusters.insert(i, cl);
        assert(clusters_view(clusters@) =~= cs.insert(i as int, (cl.part_id@, seq![id])));
    }
}

fn scan_line(
    line: &[char],
    cur: Option<usize>,
    clusters: &mut Vec<CpuCluster>,
    Ghost(ev): Ghost<Seq<CoreOfPart>>,
) -> (next: Option<usize>)
    requires
        grouped(clusters_view(old(clusters)@), ev),
    ensures
        next == cpuinfo_step(cur, line@).0,
        grouped(
            clusters_view(final(clusters)@),
            match cpuinfo_step(cur, line@).1 {
                Some(e) => ev.push(e),
                None => ev,
            },
        ),
{
    reveal(cpuinfo_step);
    let t = trim_chars(line);
    if starts_with_text(t.as_slice(), "processor") {
        if let Some(v) = second_field_of(t.as_slice()) {
            let tv = trim_chars(v.as_slice());
            if let Some(id) = parse_usize(tv.as_slice()) {
                return Some(id);
            }
        }
        cur
    } else if starts_with_text(t.as_slice(), "CPU part") {
        if let Some(v) = second_field_of(t.as_slice()) {
            if let Some(p) = cur {
                let tv = trim_chars(v.as_slice());
                let part = normalize_part(tv.as_slice());
                add_core(clusters, part, p, Ghost(ev));
            }
            None
        } else {
            cur
        }
    } else {
        cur
    }
}

/// Groups the cores that `/proc/cpuinfo` lists by CPU part: one cluster
/// for each part, in the order of the part numbers, each holding its
/// processor numbers ascending and once.
pub fn parse_cpuinfo(lines: &[Vec<char>]) -> (r: Vec<CpuCluster>)
    ensures
        grouped(clusters_view(r@), cpu_events(texts_view(lines@))),
{
    let ghost ls = texts_view(lines@);
    let mut clusters: Vec<CpuCluster> = Vec::new();
    let mut cur: Option<usize> = None;
    let mut k: usize = 0;
    assert(ls.take(0) =~= Seq::<Seq<char>>::empty());
    assert(clusters_view(clusters@) =~= Seq::<(Seq<char>, Seq<usize>)>::empty());
    assert(grouped(clusters_view(clusters@), Seq::empty())) by {
        reveal(grouped);
    }
    while k < lines.len()
        invariant
            k <= lines@.len(),
            ls == texts_view(lines@),
            cpuinfo_scan(ls.take(k as int)).0 == cur,
            grouped(clusters_view(clusters@), cpuinfo_scan(ls.take(k as int)).1),
        decreases lines@.len() - k,
    {
        let ghost ev = cpuinfo_scan(ls.take(k as int)).1;
        assert(ls.take(k + 1).drop_last() =~= ls.take(k as int));
        assert(ls.take(k + 1).last() == lines@[k as int]@);
        cur = scan_line(lines[k].as_slice(), cur, &mut clusters, Ghost(ev));
        k = k + 1;
    }
    assert(ls.take(lines@.len() as int) =~= ls);
    clusters
}

/// What choosing the cluster to pin to came to. Every outcome but
/// `Unpinned` is reported to the user.
#[derive(Clone, Copy, Debug, PartialEq, Eq, Structural)]
pub enum ClusterChoice {
    /// No cluster is pinned, and there is nothing to report.
    Unpinned,
    /// Pinning is turned off by `--no-cpu-topo`.
    TopologyDisabled,
    /// Pinning is turned off by `--cpu-part 0`.
    PartZero,
    /// The cluster at `index` (counted from 0), as `--cpu-part` asked.
    Preselected { index: usize },
    /// The first cluster; `announced` when there were others to choose from.
    Default { announced: bool },
}

/// The cluster (counted from 0) a choice pins to, if any.
pub open spec fn choice_index(c: ClusterChoice) -> Option<usize> {
    match c {
        ClusterChoice::Preselected { index } => Some(index),
        ClusterChoice::Default { .. } => Some(0),
        _ => None,
    }
}

impl ClusterChoice {
    /// The cluster (counted from 0) this choice pins to, if any.
    pub fn index(&self) -> (r: Option<usize>)
        ensures
            r == choice_index(*self),
    {
        match self {
            ClusterChoice::Preselected { index } => Some(*index),
            ClusterChoice::Default { .. } => Some(0),
            _ => None,
        }
    }
}

/// Why a cluster could not be chosen.
#[derive(Clone, Copy, Debug, PartialEq, Eq, Structural)]
pub enum CpuError {
    /// `--cpu-part` named a part beyond the `count` clusters found.
    InvalidPart { index: usize, count: usize },
}

/// The choice among `count` clusters: none without clusters or with
/// pinning turned off; the part asked for (1-based, 0 turning pinning off),
/// an error when there is no such part; else the first.
pub open spec fn arm_selection(count: usize, no_cpu_topo: bool, preselected_index: Option<usize>) -> Result<
    ClusterChoice,
    CpuError,
> {
    if count == 0 {
        Ok(ClusterChoice::Unpinned)
    } else if no_cpu_topo {
        Ok(ClusterChoice::TopologyDisabled)
    } else {
        match preselected_index {
            Some(k) => if k == 0 {
                Ok(ClusterChoice::PartZero)
            } else if k <= count {
                Ok(ClusterChoice::Preselected { index: (k - 1) as usize })
            } else {
                Err(CpuError::InvalidPart { index: k, count })
            },
            None => Ok(ClusterChoice::Default { announced: count > 1 }),
        }
    }
}

/// Chooses the cluster to pin to among `clusters`, as `arm_selection`
/// describes.
pub fn select_arm_cluster(clusters: &[CpuCluster], no_cpu_topo: bool, preselected_index: Option<usize>) -> (r:
    Result<ClusterChoice, CpuError>)
    ensures
        r == arm_selection(clusters@.len() as usize, no_cpu_topo, preselected_index),
        r matches Ok(c) ==> (choice_index(c) matches Some(i) ==> i < clusters@.len()),
{
    let count = clusters.len();
    if count == 0 {
        return Ok(ClusterChoice::Unpinned);
    }
    if no_cpu_topo {
        return Ok(ClusterChoice::TopologyDisabled);
    }
    match preselected_index {
        Some(k) => {
            if k == 0 {
                Ok(ClusterChoice::PartZero)
            } else if k <= count {
                Ok(ClusterChoice::Preselected { index: k - 1 })
            } else {
                Err(CpuError::InvalidPart { index: k, count })
            }
        },
        None => Ok(ClusterChoice::Default { announced: count > 1 }),
    }
}

proof fn lemma_sorted_numbers_unique(a: Seq<usize>, b: Seq<usize>)
    requires
        sorted_strict(a),
        sorted_strict(b),
        forall|x: usize| a.contains(x) <==> b.contains(x),
    ensures
        a == b,
    decreases a.len() + b.len(),
{
    if a.len() == 0 || b.len() == 0 {
        if a.len() > 0 {
            assert(a.contains(a[0]));
        }
        if b.len() > 0 {
            assert(b.contains(b[0]));
        }
        assert(a =~= b);
    } else {
        assert(a.contains(a[0]) && b.contains(b[0]));
        let ka = choose|k: int| 0 <= k < a.len() && a[k] == b[0];
        let kb = choose|k: int| 0 <= k < b.len() && b[k] == a[0];
        if ka > 0 {
            assert(a[0] < a[ka]);
        }
        if kb > 0 {
            assert(b[0] < b[kb]);
        }
        assert(a[0] == b[0]);
        let ra = a.drop_first();
        let rb = b.drop_first();
        assert forall|x: usize| ra.contains(x) <==> rb.contains(x) by {
            if ra.contains(x) {
                let k = choose|k: int| 0 <= k < ra.len() && ra[k] == x;
                assert(a[k + 1] == x && a[0] < a[k + 1]);
                assert(a.contains(x));
                let m = choose|m: int| 0 <= m < b.len() && b[m] == x;
                assert(m != 0);
                assert(rb[m - 1] == x);
            }
            if rb.contains(x) {
                let k = choose|k: int| 0 <= k < rb.len() && rb[k] == x;
                assert(b[k + 1] == x && b[0] < b[k + 1]);
                assert(b.contains(x));
                let m = choose|m: int| 0 <= m < a.len() && a[m] == x;
                assert(m != 0);
                assert(ra[m - 1] == x);
            }
        }
        lemma_sorted_numbers_unique(ra, rb);
        assert(a =~= b) by {
            assert forall|i: int| 0 <= i < a.len() implies a[i] == b[i] by {
                if i > 0 {
                    assert(a[i] == ra[i - 1] && b[i] == rb[i - 1]);
                }
            }
        }
    }
}

/// The part numbers of clusters, in order.
pub open spec fn part_ids(cs: Seq<(Seq<char>, Seq<usize>)>) -> Seq<Seq<char>> {
    cs.map_values(|c: (Seq<char>, Seq<usize>)| c.0)
}

proof fn lemma_sorted_parts_unique(a: Seq<Seq<char>>, b: Seq<Seq<char>>)
    requires
        forall|i: int, j: int| 0 <= i < j < a.len() ==> chars_lt(a[i], a[j]),
        forall|i: int, j: int| 0 <= i < j < b.len() ==> chars_lt(b[i], b[j]),
        forall|x: Seq<char>| a.contains(x) <==> b.contains(x),
    ensures
        a == b,
    decreases a.len() + b.len(),
{
    if a.len() == 0 || b.len() == 0 {
        if a.len() > 0 {
            assert(a.contains(a[0]));
        }
        if b.len() > 0 {
            assert(b.contains(b[0]));
        }
        assert(a =~= b);
    } else {
        assert(a.contains(a[0]) && b.contains(b[0]));
        let ka = choose|k: int| 0 <= k < a.len() && a[k] == b[0];
        let kb = choose|k: int| 0 <= k < b.len() && b[k] == a[0];
        if ka > 0 && kb > 0 {
            assert(chars_lt(a[0], b[0]));
            assert(chars_lt(b[0], a[0]));
            lemma_chars_lt_total(a[0], b[0]);
        }
        assert(a[0] == b[0]);
        let ra = a.drop_first();
        let rb = b.drop_first();
        lemma_chars_lt_irreflexive(a[0]);
        assert forall|x: Seq<char>| ra.contains(x) <==> rb.contains(x) by {
            if ra.contains(x) {
                let k = choose|k: int| 0 <= k < ra.len() && ra[k] == x;
                assert(a[k + 1] == x && chars_lt(a[0], a[k + 1]));
                assert(a.contains(x));
                let m = choose|m: int| 0 <= m < b.len() && b[m] == x;
                assert(m != 0);
                assert(rb[m - 1] == x);
            }
            if rb.contains(x) {
                let k = choose|k: int| 0 <= k < rb.len() && rb[k] == x;
                assert(b[k + 1] == x && chars_lt(b[0], b[k + 1]));
                assert(b.contains(x));
                let m = choose|m: int| 0 <= m < a.len() && a[m] == x;
                assert(m != 0);
                assert(ra[m - 1] == x);
            }
        }
        assert forall|i: int, j: int| 0 <= i < j < ra.len() implies chars_lt(ra[i], ra[j]) by {
            assert(chars_lt(a[i + 1], a[j + 1]));
        }
        assert forall|i: int, j: int| 0 <= i < j < rb.len() implies chars_lt(rb[i], rb[j]) by {
            assert(chars_lt(b[i + 1], b[j + 1]));
        }
        lemma_sorted_parts_unique(ra, rb);
        assert(a =~= b) by {
            assert forall|i: int| 0 <= i < a.len() implies a[i] == b[i] by {
                if i > 0 {
                    assert(a[i] == ra[i - 1] && b[i] == rb[i - 1]);
                }
            }
        }
    }
}

/// Law: the grouping of cores by part is determined by the cores alone:
/// two groupings of the same cores are the same list of clusters.
pub proof fn lemma_grouped_unique(cs1: Seq<(Seq<char>, Seq<usize>)>, cs2: Seq<(Seq<char>, Seq<usize>)>, ev: Seq<CoreOfPart>)
    requires
        grouped(cs1, ev),
        grouped(cs2, ev),
    ensures
        cs1 == cs2,
{
    reveal(grouped);
    let p1 = part_ids(cs1);
    let p2 = part_ids(cs2);
    assert forall|x: Seq<char>| p1.contains(x) <==> p2.contains(x) by {
        if p1.contains(x) {
            let k = choose|k: int| 0 <= k < p1.len() && p1[k] == x;
            assert(has_part(ev, cs1[k].0));
            let m = choose|m: int| 0 <= m < cs2.len() && cs2[m].0 == x;
            assert(p2[m] == x);
        }
        if p2.contains(x) {
            let k = choose|k: int| 0 <= k < p2.len() && p2[k] == x;
            assert(has_part(ev, cs2[k].0));
            let m = choose|m: int| 0 <= m < cs1.len() && cs1[m].0 == x;
            assert(p1[m] == x);
        }
    }
    assert forall|i: int, j: int| 0 <= i < j < p1.len() implies chars_lt(p1[i], p1[j]) by {
        assert(chars_lt(cs1[i].0, cs1[j].0));
    }
    assert forall|i: int, j: int| 0 <= i < j < p2.len() implies chars_lt(p2[i], p2[j]) by {
        assert(chars_lt(cs2[i].0, cs2[j].0));
    }
    lemma_sorted_parts_unique(p1, p2);
    assert(cs1.len() == cs2.len()) by {
        assert(p1.len() == p2.len());
    }
    assert forall|i: int| 0 <= i < cs1.len() implies cs1[i] == cs2[i] by {
        assert(p1[i] == p2[i]);
        assert(has_part(ev, cs1[i].0) && has_part(ev, cs2[i].0));
        assert forall|x: usize| cs1[i].1.contains(x) <==> cs2[i].1.contains(x) by {
            assert(cs1[i].1.contains(x) <==> has_core(ev, cs1[i].0, x));
            assert(cs2[i].1.contains(x) <==> has_core(ev, cs2[i].0, x));
        }
        lemma_sorted_numbers_unique(cs1[i].1, cs2[i].1);
    }
    assert(cs1 =~= cs2);
}

/// Law: hexadecimal part numbers written in ASCII that differ only in the
/// case of their letters (`0xD05`, `0Xd05`, `0xd05`) are the same part.
pub proof fn lemma_part_case_merges(a: Seq<char>, b: Seq<char>)
    requires
        all_ascii(a),
        all_ascii(b),
        begins_with(a, "0x"@) || begins_with(a, "0X"@),
        begins_with(b, "0x"@) || begins_with(b, "0X"@),
        ascii_lower(a) == ascii_lower(b),
    ensures
        normalized_part(a) == normalized_part(b),
{
}

/// Numbers in decimal, separated by commas.
pub open spec fn comma_list(ns: Seq<usize>) -> Seq<char>
    decreases ns.len(),
{
    if ns.len() == 0 {
        Seq::empty()
    } else if ns.len() == 1 {
        dec_string(ns[0] as nat)
    } else {
        comma_list(ns.drop_last()) + ","@ + dec_string(ns.last() as nat)
    }
}

/// The listing line of the cluster numbered `number` (from 1).
pub open spec fn cluster_line(number: nat, part: Seq<char>, cores: Seq<usize>) -> Seq<char> {
    "  ["@ + dec_string(number) + "] CPU Part: "@ + part + " - Cores: "@ + comma_list(cores) + " ("@
        + dec_string(cores.len()) + " cores)"@
}

/// The lines listing the clusters of a host: a heading and one line per
/// cluster, numbered from 1, or a note that there are none.
pub open spec fn cluster_listing_text(cs: Seq<(Seq<char>, Seq<usize>)>) -> Seq<Seq<char>> {
    if cs.len() == 0 {
        seq!["No ARM CPU clusters detected or not running on ARM Linux host."@]
    } else {
        seq!["Detected ARM CPU clusters:"@] + Seq::new(
            cs.len(),
            |i: int| cluster_line((i + 1) as nat, cs[i].0, cs[i].1),
        )
    }
}

fn push_text(out: &mut Vec<char>, s: &[char])
    ensures
        final(out)@ == old(out)@ + s@,
{
    let ghost start = out@;
    let mut i: usize = 0;
    while i < s.len()
        invariant
            i <= s@.len(),
            out@ == start + s@.take(i as int),
        decreases s@.len() - i,
    {
        out.push(s[i]);
        i = i + 1;
        assert(out@ =~= start + s@.take(i as int));
    }
    assert(s@.take(s@.len() as int) =~= s@);
}

fn comma_list_of(ns: &[usize]) -> (r: Vec<char>)
    ensures
        r@ == comma_list(ns@),
{
    let mut out: Vec<char> = Vec::new();
    let mut i: usize = 0;
    assert(ns@.take(0) =~= Seq::<usize>::empty());
    while i < ns.len()
        invariant
            i <= ns@.len(),
            out@ == comma_list(ns@.take(i as int)),
        decreases ns@.len() - i,
    {
        let ghost t = ns@.take(i + 1);
        assert(t.drop_last() =~= ns@.take(i as int));
        assert(t.last() == ns@[i as int]);
        if i > 0 {
            push_text(&mut out, str_chars(",").as_slice());
        }
        let d = decimal_string(ns[i] as u64);
        push_text(&mut out, d.as_slice());
        proof {
            if i == 0 {
                assert(out@ =~= dec_string(ns@[0] as nat));
            }
        }
        i = i + 1;
    }
    assert(ns@.take(ns@.len() as int) =~= ns@);
    out
}

/// The listing line of one cluster, as `cluster_line` describes.
pub fn describe_cluster(number: usize, cluster: &CpuCluster) -> (r: Vec<char>)
    ensures
        r@ == cluster_line(number as nat, cluster.part_id@, cluster.cores@),
{
    let mut out = str_chars("  [");
    push_text(&mut out, decimal_string(number as u64).as_slice());
    push_text(&mut out, str_chars("] CPU Part: ").as_slice());
    push_text(&mut out, cluster.part_id.as_slice());
    push_text(&mut out, str_chars(" - Cores: ").as_slice());
    push_text(&mut out, comma_list_of(cluster.cores.as_slice()).as_slice());
    push_text(&mut out, str_chars(" (").as_slice());
    push_text(&mut out, decimal_string(cluster.cores.len() as u64).as_slice());
    push_text(&mut out, str_chars(" cores)").as_slice());
    out
}

/// The lines that list the clusters of a host, as `cluster_listing_text`
/// describes.
pub fn cluster_listing(clusters: &[CpuCluster]) -> (r: Vec<Vec<char>>)
    ensures
        r@.map_values(|l: Vec<char>| l@) == cluster_listing_text(clusters_view(clusters@)),
{
    let ghost cs = clusters_view(clusters@);
    let mut out: Vec<Vec<char>> = Vec::new();
    if clusters.len() == 0 {
        out.push(str_chars("No ARM CPU clusters detected or not running on ARM Linux host."));
        assert(out@.map_values(|l: Vec<char>| l@) =~= cluster_listing_text(cs));
        return out;
    }
    out.push(str_chars("Detected ARM CPU clusters:"));
    let mut i: usize = 0;
    while i < clusters.len()
        invariant
            i <= clusters@.len(),
            clusters@.len() > 0,
            cs == clusters_view(clusters@),
            out@.len() == i + 1,
            out@[0]@ == "Detected ARM CPU clusters:"@,
            forall|k: int| 0 <= k < i ==> (#[trigger] out@[k + 1])@ == cluster_line((k + 1) as nat, cs[k].0, cs[k].1),
        decreases clusters@.len() - i,
    {
        let line = describe_cluster(i + 1, &clusters[i]);
        out.push(line);
        i = i + 1;
    }
    assert(out@.map_values(|l: Vec<char>| l@) =~= cluster_listing_text(cs)) by {
        let t = cluster_listing_text(cs);
        assert forall|k: int| 0 <= k < out@.len() implies out@.map_values(|l: Vec<char>| l@)[k] == t[k] by {
            if k > 0 {
                assert(out@[(k - 1) + 1]@ == cluster_line(k as nat, cs[k - 1].0, cs[k - 1].1));
            }
        }
    }
    out
}

/// The `/proc/cpuinfo` line naming processor `n`.
pub open spec fn processor_line(n: nat) -> Seq<char> {
    "processor\t: "@ + dec_string(n)
}

proof fn lemma_digits_plain(d: Seq<char>)
    requires
        forall|k: int| 0 <= k < d.len() ==> 48 <= #[trigger] d[k] as int <= 57,
    ensures
        forall|k: int| 0 <= k < d.len() ==> !is_white_space(#[trigger] d[k]) && d[k] != ':',
{
    assert forall|k: int| 0 <= k < d.len() implies !is_white_space(#[trigger] d[k]) && d[k] != ':' by {
        lemma_digit_plain(d[k]);
    }
}

#[verifier::spinoff_prover]
proof fn lemma_processor_line_trimmed(n: nat)
    ensures
        trim(processor_line(n)) == processor_line(n),
{
    reveal_strlit("processor\t: ");
    let d = dec_string(n);
    let l = processor_line(n);
    lemma_dec_string_shape(n);
    lemma_digits_plain(d);
    assert(l.len() == 12 + d.len());
    assert(l[l.len() - 1] == d[d.len() - 1]);
    assert(l[0] == 'p');
    lemma_trim_window(l, 0, l.len() - 1);
    assert(l.subrange(0, l.len() as int) =~= l);
}

#[verifier::spinoff_prover]
proof fn lemma_processor_line_field(n: nat)
    ensures
        begins_with(processor_line(n), "processor"@),
        second_field(processor_line(n)) == Some(seq![' '] + dec_string(n)),
{
    reveal_strlit("processor\t: ");
    reveal_strlit("processor");
    let d = dec_string(n);
    let l = processor_line(n);
    lemma_dec_string_shape(n);
    lemma_digits_plain(d);
    assert(l.take(9) =~= "processor"@);
    assert(l[10] == ':');
    lemma_first_colon(l, 10);
    let rest = l.skip(11);
    assert(rest =~= seq![' '] + d);
    assert(!has_colon(rest)) by {
        if has_colon(rest) {
            let k = choose|k: int| 0 <= k < rest.len() && rest[k] == ':';
            if k > 0 {
                assert(rest[k] == d[k - 1]);
            }
        }
    }
}

#[verifier::spinoff_prover]
proof fn lemma_spaced_number_trimmed(n: nat)
    ensures
        trim(seq![' '] + dec_string(n)) == dec_string(n),
{
    let d = dec_string(n);
    let rest = seq![' '] + d;
    lemma_dec_string_shape(n);
    lemma_digits_plain(d);
    assert(rest[1] == d[0]);
    assert(rest[rest.len() - 1] == d[d.len() - 1]);
    assert(is_white_space(rest[0]));
    assert forall|j: int| 0 <= j < 1 implies is_white_space(#[trigger] rest[j]) by {}
    lemma_trim_window(rest, 1, rest.len() - 1);
    assert(rest.subrange(1, rest.len() as int) =~= d);
}

/// Law: a line `processor : N` makes N, the full number, the processor
/// being read, whatever came before, and assigns no core.
pub proof fn lemma_processor_line(ls: Seq<Seq<char>>, n: usize)
    ensures
        cpuinfo_scan(ls.push(processor_line(n as nat))) == (Some(n), cpu_events(ls)),
{
    reveal(cpuinfo_step);
    let l = processor_line(n as nat);
    lemma_processor_line_trimmed(n as nat);
    lemma_processor_line_field(n as nat);
    lemma_spaced_number_trimmed(n as nat);
    lemma_parse_usize_dec(n as nat);
    assert(ls.push(l).drop_last() =~= ls);
}

#[verifier::spinoff_prover]
proof fn lemma_part_step(m: usize, l: Seq<char>)
    requires
        begins_with(trim(l), "CPU part"@),
        second_field(trim(l)) is Some,
    ensures
        cpuinfo_step(Some(m), l) == (
            None::<usize>,
            Some((normalized_part(trim(second_field(trim(l)).unwrap())), m)),
        ),
{
    reveal(cpuinfo_step);
    reveal_strlit("CPU part");
    reveal_strlit("processor");
    let t = trim(l);
    assert(t.take(8)[0] == 'C');
    assert(!begins_with(t, "processor"@)) by {
        if begins_with(t, "processor"@) {
            assert(t.take(9)[0] == 'p');
        }
    }
}

proof fn lemma_scan_event(ls: Seq<Seq<char>>, l: Seq<char>, m: usize, e: CoreOfPart)
    requires
        cpuinfo_scan(ls).0 == Some(m),
        cpuinfo_step(Some(m), l) == (None::<usize>, Some(e)),
    ensures
        cpuinfo_scan(ls.push(l)) == (None::<usize>, cpu_events(ls).push(e)),
{
    assert(ls.push(l).drop_last() =~= ls);
    assert(ls.push(l).last() == l);
}

/// Law: a line `CPU part : P` assigns the processor being read to part P
/// (in its normal form) and ends it.
pub proof fn lemma_part_line(ls: Seq<Seq<char>>, l: Seq<char>, m: usize)
    requires
        cpuinfo_scan(ls).0 == Some(m),
        begins_with(trim(l), "CPU part"@),
        second_field(trim(l)) is Some,
    ensures
        cpuinfo_scan(ls.push(l)) == (
            None::<usize>,
            cpu_events(ls).push((normalized_part(trim(second_field(trim(l)).unwrap())), m)),
        ),
{
    lemma_part_step(m, l);
    lemma_scan_event(ls, l, m, (normalized_part(trim(second_field(trim(l)).unwrap())), m));
}

/// Law: listing processor N and then its CPU part P puts N itself among
/// the cores of the cluster of part P, in any grouping of the cores read.
pub proof fn lemma_processor_joins_cluster(ls: Seq<Seq<char>>, n: usize, l: Seq<char>, cs: Seq<(Seq<char>, Seq<usize>)>)
    requires
        begins_with(trim(l), "CPU part"@),
        second_field(trim(l)) is Some,
        grouped(cs, cpu_events(ls.push(processor_line(n as nat)).push(l))),
    ensures
        exists|i: int|
            0 <= i < cs.len() && cs[i].0 == normalized_part(trim(second_field(trim(l)).unwrap()))
                && cs[i].1.contains(n),
{
    reveal(grouped);
    let ls1 = ls.push(processor_line(n as nat));
    lemma_processor_line(ls, n);
    lemma_part_line(ls1, l, n);
    let p = normalized_part(trim(second_field(trim(l)).unwrap()));
    let ev = cpu_events(ls1);
    let ev2 = ev.push((p, n));
    lemma_push_unfold(ev, (p, n));
    assert(has_part(ev2, p));
    let i = choose|i: int| 0 <= i < cs.len() && cs[i].0 == p;
    assert(has_core(ev2, cs[i].0, n));
    assert(cs[i].1.contains(n));
}

} // verus!
