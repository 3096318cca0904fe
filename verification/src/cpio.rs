//! The cpio "newc" archive format: writing entries, finding the trailer of
//! an existing archive, and reading an archive back one entry at a time.
use vstd::prelude::*;
use crate::text::{utf8_valid, check_utf8};
use crate::bytes::{zeros, pad4, hex_pad, parse_hex, parse_hex_field, pow16, push_hex_pad, push_hex_pad_succ, push_all, push_zeros, lemma_hex_pad_len, lemma_parse_hex_pad, lemma_pow16_8};

verus! {

/// File-type bits of a mode.
pub const S_IFMT: u32 = 0o170000;
/// Directory file type.
pub const S_IFDIR: u32 = 0o040000;
/// Symbolic-link file type.
pub const S_IFLNK: u32 = 0o120000;
/// Regular-file file type.
pub const S_IFREG: u32 = 0o100000;

/// Length of a newc header.
pub const HEADER_LEN: usize = 110;

/// `"070701"`, the magic that this writer emits.
pub open spec fn newc_magic() -> Seq<u8> {
    seq![48u8, 55u8, 48u8, 55u8, 48u8, 49u8]
}

/// `"070702"`, the magic of the checksummed variant, also accepted on reading.
pub open spec fn crc_magic() -> Seq<u8> {
    seq![48u8, 55u8, 48u8, 55u8, 48u8, 50u8]
}

/// `"TRAILER!!!"`, the name of the entry that ends an archive.
pub open spec fn trailer_name() -> Seq<u8> {
    seq![84u8, 82u8, 65u8, 73u8, 76u8, 69u8, 82u8, 33u8, 33u8, 33u8]
}

/// One eight-digit header field as the writer prints it (`{:08x}`).
pub open spec fn field(n: nat) -> Seq<u8> {
    hex_pad(n, 8)
}

/// The 110-byte header the writer emits: inode 0, uid and gid 0, one link,
/// mtime 0, no device numbers, no checksum.
pub open spec fn encode_header(mode: nat, filesize: nat, namesize: nat) -> Seq<u8> {
    newc_magic() + field(0) + field(mode) + field(0) + field(0) + field(1) + field(0) + field(
        filesize,
    ) + field(0) + field(0) + field(0) + field(0) + field(namesize) + field(0)
}

/// One archive entry: header, NUL-terminated name padded to four bytes,
/// then the content padded to four bytes.
pub open spec fn encode_entry(name: Seq<u8>, mode: u32, data: Seq<u8>) -> Seq<u8> {
    encode_header(mode as nat, data.len(), name.len() + 1) + name + seq![0u8] + zeros(
        pad4(110 + name.len() + 1),
    ) + data + zeros(pad4(data.len()))
}

/// The entry that ends an archive.
pub open spec fn encode_trailer() -> Seq<u8> {
    encode_entry(trailer_name(), 0, Seq::empty())
}

fn push_field(out: &mut Vec<u8>, n: usize)
    ensures
        final(out)@ == old(out)@ + field(n as nat),
{
    push_hex_pad(out, n, 8);
}

/// The header fields of one entry with a name of `name_len` bytes, as
/// written (the name-size field counts the terminating NUL).
fn header_bytes(mode: u32, filesize: usize, name_len: usize) -> (h: Vec<u8>)
    ensures
        h@ == encode_header(mode as nat, filesize as nat, name_len as nat + 1),
{
    let mut h: Vec<u8> = Vec::new();
    h.push(48u8);
    h.push(55u8);
    h.push(48u8);
    h.push(55u8);
    h.push(48u8);
    h.push(49u8);
    assert(h@ == newc_magic());
    push_field(&mut h, 0);
    push_field(&mut h, mode as usize);
    push_field(&mut h, 0);
    push_field(&mut h, 0);
    push_field(&mut h, 1);
    push_field(&mut h, 0);
    push_field(&mut h, filesize);
    push_field(&mut h, 0);
    push_field(&mut h, 0);
    push_field(&mut h, 0);
    push_field(&mut h, 0);
    push_hex_pad_succ(&mut h, name_len, 8);
    push_field(&mut h, 0);
    h
}

/// Appends one entry for `path_name` with the given mode and content.
pub fn write_cpio_entry(out: &mut Vec<u8>, path_name: &[u8], mode: u32, content: &[u8])
    ensures
        final(out)@ == old(out)@ + encode_entry(path_name@, mode, content@),
{
    let name_len = path_name.len();
    let content_len = content.len();
    let mut e = header_bytes(mode, content_len, name_len);
    push_all(&mut e, path_name);
    e.push(0u8);
    let name_pad: usize = (4 - ((3 + name_len % 4) % 4)) % 4;
    assert(name_pad == pad4(110 + path_name@.len() + 1));
    push_zeros(&mut e, name_pad);
    push_all(&mut e, content);
    let content_pad: usize = (4 - (content_len % 4)) % 4;
    push_zeros(&mut e, content_pad);
    assert(e@ == encode_entry(path_name@, mode, content@));
    push_all(out, e.as_slice());
}

/// Whether six bytes are one of the two newc magics.
pub open spec fn is_magic(s: Seq<u8>) -> bool {
    s == newc_magic() || s == crc_magic()
}

/// A stored name with its terminating NUL, if there is one, removed.
pub open spec fn trim_nul(raw: Seq<u8>) -> Seq<u8> {
    if raw.len() > 0 && raw.last() == 0u8 {
        raw.drop_last()
    } else {
        raw
    }
}

/// The eight-byte header field at byte `at` of the header starting at `off`.
pub open spec fn hdr_field(data: Seq<u8>, off: nat, at: nat) -> Seq<u8> {
    data.subrange((off + at) as int, (off + at + 8) as int)
}

/// Offset of the trailer entry, walking the entries from `off` on: the walk
/// stops without a result at a short or unrecognised header, an unreadable
/// size field or a name that runs past the end.
pub open spec fn scan_trailer(data: Seq<u8>, off: nat) -> Option<nat>
    decreases data.len() - off,
{
    if off + 110 > data.len() {
        None
    } else if !is_magic(data.subrange(off as int, (off + 6) as int)) {
        None
    } else {
        match (parse_hex(hdr_field(data, off, 54)), parse_hex(hdr_field(data, off, 94))) {
            (Some(fs), Some(ns)) => {
                let name_end = off + 110 + ns;
                if name_end > data.len() {
                    None
                } else if trim_nul(data.subrange((off + 110) as int, name_end as int)) == trailer_name() {
                    Some(off)
                } else {
                    let next = name_end + pad4(110 + ns) + fs + pad4(fs);
                    if next <= data.len() {
                        scan_trailer(data, next)
                    } else {
                        None
                    }
                }
            },
            _ => None,
        }
    }
}

fn magic_at(data: &[u8], off: usize) -> (r: bool)
    requires
        off + 6 <= data@.len(),
    ensures
        r == is_magic(data@.subrange(off as int, (off + 6) as int)),
{
    let ghost m = data@.subrange(off as int, (off + 6) as int);
    let ok = data[off] == 48u8 && data[off + 1] == 55u8 && data[off + 2] == 48u8 && data[off + 3]
        == 55u8 && data[off + 4] == 48u8 && (data[off + 5] == 49u8 || data[off + 5] == 50u8);
    proof {
        if ok {
            if data@[off + 5] == 49u8 {
                assert(m == newc_magic());
            } else {
                assert(m == crc_magic());
            }
        } else {
            if m == newc_magic() {
                assert(m[0] == 48u8 && m[5] == 49u8);
            }
            if m == crc_magic() {
                assert(m[0] == 48u8 && m[5] == 50u8);
            }
        }
    }
    ok
}

/// Whether the stored name `data[start..end]`, less its NUL, is the
/// trailer name.
fn is_trailer_name(data: &[u8], start: usize, end: usize) -> (r: bool)
    requires
        start <= end <= data@.len(),
    ensures
        r == (trim_nul(data@.subrange(start as int, end as int)) == trailer_name()),
{
    let ghost raw = data@.subrange(start as int, end as int);
    let mut stop = end;
    if end > start && data[end - 1] == 0u8 {
        stop = end - 1;
    }
    let ghost t = data@.subrange(start as int, stop as int);
    assert(t == trim_nul(raw));
    if stop - start != 10 {
        return false;
    }
    let expected: [u8; 10] = [84u8, 82u8, 65u8, 73u8, 76u8, 69u8, 82u8, 33u8, 33u8, 33u8];
    assert(expected@ == trailer_name());
    let mut i: usize = 0;
    while i < 10
        invariant
            i <= 10,
            stop == start + 10,
            stop <= data@.len(),
            t == data@.subrange(start as int, stop as int),
            t == trim_nul(data@.subrange(start as int, end as int)),
            expected@ == trailer_name(),
            forall|j: int| 0 <= j < i ==> t[j] == trailer_name()[j],
        decreases 10 - i,
    {
        if data[start + i] != expected[i] {
            assert(t[i as int] == data@[start + i]);
            assert(t[i as int] != trailer_name()[i as int]);
            assert(t != trailer_name());
            return false;
        }
        i = i + 1;
    }
    assert(t == trailer_name());
    true
}

/// Offset of the `TRAILER!!!` entry of a newc archive, found by walking its
/// entries from the start; `None` when the walk ends first.
#[verifier::rlimit(80)]
#[verifier::spinoff_prover]
pub fn find_cpio_trailer_offset(cpio: &[u8]) -> (r: Option<usize>)
    ensures
        match r {
            Some(off) => scan_trailer(cpio@, 0) == Some(off as nat),
            None => scan_trailer(cpio@, 0) is None,
        },
        r matches Some(off) ==> off % 4 == 0 && off + 110 <= cpio@.len(),
{
    proof {
        lemma_scan_trailer_aligned(cpio@, 0);
    }
    let len = cpio.len();
    let mut offset: usize = 0;
    while offset <= len && len - offset >= HEADER_LEN
        invariant
            len == cpio@.len(),
            offset <= len,
            scan_trailer(cpio@, offset as nat) == scan_trailer(cpio@, 0),
            scan_trailer(cpio@, 0) matches Some(t) ==> t % 4 == 0 && t + 110 <= len,
        decreases len - offset,
    {
        if !magic_at(cpio, offset) {
            return None;
        }
        let filesize = match parse_hex_field(&cpio[offset + 54..offset + 62]) {
            Some(v) => v,
            None => {
                return None;
            },
        };
        let namesize = match parse_hex_field(&cpio[offset + 94..offset + 102]) {
            Some(v) => v,
            None => {
                return None;
            },
        };
        let name_start = offset + HEADER_LEN;
        if namesize as usize > len - name_start {
            return None;
        }
        let name_end = name_start + namesize as usize;
        if is_trailer_name(cpio, name_start, name_end) {
            return Some(offset);
        }
        let name_pad: u64 = ((4 - ((2 + namesize % 4) % 4)) % 4) as u64;
        let file_pad: u64 = ((4 - (filesize % 4)) % 4) as u64;
        let step: u64 = name_pad + filesize as u64 + file_pad;
        if step > (len - name_end) as u64 {
            return None;
        }
        proof {
            assert(name_pad == pad4(110 + namesize as nat));
            assert(file_pad == pad4(filesize as nat));
        }
        offset = name_end + step as usize;
    }
    None
}

/// Whether an entry's name and content are short enough for their lengths
/// to fit the eight-digit header fields.
pub open spec fn entry_fits(name: Seq<u8>, data: Seq<u8>) -> bool {
    name.len() + 1 < 0x1_0000_0000 && data.len() < 0x1_0000_0000
}

/// Length of an entry with a name of `nl` bytes and `dl` bytes of content.
pub open spec fn entry_len(nl: nat, dl: nat) -> nat {
    110 + nl + 1 + pad4(110 + nl + 1) + dl + pad4(dl)
}

proof fn lemma_field_len(n: nat)
    requires
        n < 0x1_0000_0000,
    ensures
        field(n).len() == 8,
        parse_hex(field(n)) == Some(n),
{
    lemma_pow16_8();
    lemma_hex_pad_len(n, 8);
    lemma_parse_hex_pad(n, 8);
}

proof fn lemma_header_shape(mode: nat, fs: nat, ns: nat)
    requires
        mode < 0x1_0000_0000,
        fs < 0x1_0000_0000,
        ns < 0x1_0000_0000,
    ensures
        encode_header(mode, fs, ns).len() == 110,
        encode_header(mode, fs, ns).subrange(0, 6) == newc_magic(),
        encode_header(mode, fs, ns).subrange(14, 22) == field(mode),
        encode_header(mode, fs, ns).subrange(54, 62) == field(fs),
        encode_header(mode, fs, ns).subrange(94, 102) == field(ns),
{
    lemma_field_len(0);
    lemma_field_len(1);
    lemma_field_len(mode);
    lemma_field_len(fs);
    lemma_field_len(ns);
    let a = newc_magic() + field(0);
    let b = a + field(mode);
    let c = b + field(0) + field(0) + field(1) + field(0);
    let d = c + field(fs);
    let e = d + field(0) + field(0) + field(0) + field(0);
    let f = e + field(ns);
    let h = f + field(0);
    assert(h == encode_header(mode, fs, ns));
    assert(b.subrange(14, 22) =~= field(mode));
    assert(d.subrange(54, 62) =~= field(fs));
    assert(f.subrange(94, 102) =~= field(ns));
    assert(h.subrange(0, 6) =~= newc_magic());
    assert(h.subrange(14, 22) =~= b.subrange(14, 22));
    assert(h.subrange(54, 62) =~= d.subrange(54, 62));
    assert(h.subrange(94, 102) =~= f.subrange(94, 102));
}

/// Where the parts of one written entry lie.
pub proof fn lemma_entry_shape(name: Seq<u8>, mode: u32, data: Seq<u8>)
    requires
        entry_fits(name, data),
    ensures
        ({
            let e = encode_entry(name, mode, data);
            let ns = name.len() + 1;
            let ds = 110 + ns + pad4(110 + ns);
            &&& e.len() == entry_len(name.len(), data.len())
            &&& e.subrange(0, 6) == newc_magic()
            &&& e.subrange(14, 22) == field(mode as nat)
            &&& e.subrange(54, 62) == field(data.len())
            &&& e.subrange(94, 102) == field(ns)
            &&& e.subrange(110, (110 + ns) as int) == name.push(0u8)
            &&& e.subrange(ds as int, (ds + data.len()) as int) == data
        }),
{
    let ns = name.len() + 1;
    lemma_header_shape(mode as nat, data.len(), ns);
    let h = encode_header(mode as nat, data.len(), ns);
    let npad = pad4(110 + ns);
    let e1 = h + name + seq![0u8];
    let e2 = e1 + zeros(npad);
    let e3 = e2 + data;
    let e = e3 + zeros(pad4(data.len()));
    assert(e == encode_entry(name, mode, data));
    assert(e.subrange(0, 6) =~= h.subrange(0, 6));
    assert(e.subrange(14, 22) =~= h.subrange(14, 22));
    assert(e.subrange(54, 62) =~= h.subrange(54, 62));
    assert(e.subrange(94, 102) =~= h.subrange(94, 102));
    assert(e.subrange(110, (110 + ns) as int) =~= name.push(0u8));
    let ds = 110 + ns + npad;
    assert(e.subrange(ds as int, (ds + data.len()) as int) =~= data);
}

/// `data[off..]` begins with the bytes of `e`.
pub open spec fn holds_at(data: Seq<u8>, off: nat, e: Seq<u8>) -> bool {
    off + e.len() <= data.len() && data.subrange(off as int, (off + e.len()) as int) == e
}

proof fn lemma_window(data: Seq<u8>, off: nat, e: Seq<u8>, a: int, b: int)
    requires
        holds_at(data, off, e),
        0 <= a <= b <= e.len(),
    ensures
        data.subrange((off + a) as int, (off + b) as int) == e.subrange((a) as int, (b) as int),
{
    assert(data.subrange((off + a) as int, (off + b) as int) =~= e.subrange((a) as int, (b) as int)) by {
        assert forall|i: int| 0 <= i < b - a implies data.subrange((off + a) as int, (off + b) as int)[i] == e.subrange((a) as int, (b) as int)[i] by {
            assert(data.subrange(off as int, (off + e.len()) as int)[a + i] == e[a + i]);
        }
    }
}

/// What the header reader sees at the start of a written entry.
pub proof fn lemma_entry_read(data: Seq<u8>, off: nat, name: Seq<u8>, mode: u32, content: Seq<u8>)
    requires
        entry_fits(name, content),
        holds_at(data, off, encode_entry(name, mode, content)),
    ensures
        ({
            let ns = name.len() + 1;
            let ds = off + 110 + ns + pad4(110 + ns);
            &&& off + 110 <= data.len()
            &&& is_magic(data.subrange(off as int, (off + 6) as int))
            &&& parse_hex(hdr_field(data, off, 14)) == Some(mode as nat)
            &&& parse_hex(hdr_field(data, off, 54)) == Some(content.len())
            &&& parse_hex(hdr_field(data, off, 94)) == Some(ns)
            &&& data.subrange((off + 110) as int, (off + 110 + ns) as int) == name.push(0u8)
            &&& trim_nul(data.subrange((off + 110) as int, (off + 110 + ns) as int)) == name
            &&& data.subrange(ds as int, (ds + content.len()) as int) == content
            &&& ds + content.len() + pad4(content.len()) == off + entry_len(name.len(), content.len())
        }),
{
    let e = encode_entry(name, mode, content);
    let ns = name.len() + 1;
    lemma_entry_shape(name, mode, content);
    lemma_field_len(mode as nat);
    lemma_field_len(content.len());
    lemma_field_len(ns);
    lemma_window(data, off, e, 0, 6);
    lemma_window(data, off, e, 14, 22);
    lemma_window(data, off, e, 54, 62);
    lemma_window(data, off, e, 94, 102);
    lemma_window(data, off, e, 110, (110 + ns) as int);
    let dsr = 110 + ns + pad4(110 + ns);
    lemma_window(data, off, e, dsr as int, (dsr + content.len()) as int);
    assert(name.push(0u8).drop_last() =~= name);
}

/// The trailer walk steps over a written entry whose name is not the
/// trailer name, and stops on one whose name is.
pub proof fn lemma_scan_step(data: Seq<u8>, off: nat, name: Seq<u8>, mode: u32, content: Seq<u8>)
    requires
        entry_fits(name, content),
        holds_at(data, off, encode_entry(name, mode, content)),
    ensures
        name == trailer_name() ==> scan_trailer(data, off) == Some(off),
        name != trailer_name() ==> scan_trailer(data, off) == scan_trailer(
            data,
            off + entry_len(name.len(), content.len()),
        ),
{
    lemma_entry_read(data, off, name, mode, content);
    lemma_entry_shape(name, mode, content);
}

/// The concatenation of the written forms of a list of entries
/// `(name, mode, content)`.
pub open spec fn encode_entries(es: Seq<(Seq<u8>, u32, Seq<u8>)>) -> Seq<u8>
    decreases es.len(),
{
    if es.len() == 0 {
        Seq::empty()
    } else {
        encode_entries(es.drop_last()) + encode_entry(es.last().0, es.last().1, es.last().2)
    }
}

proof fn lemma_encode_entries_prefix(es: Seq<(Seq<u8>, u32, Seq<u8>)>, k: int)
    requires
        0 <= k < es.len(),
    ensures
        holds_at(
            encode_entries(es),
            encode_entries(es.take(k)).len(),
            encode_entry(es[k].0, es[k].1, es[k].2),
        ),
        encode_entries(es.take(k + 1)).len() == encode_entries(es.take(k)).len() + encode_entry(
            es[k].0,
            es[k].1,
            es[k].2,
        ).len(),
    decreases es.len(),
{
    assert(es.take(k + 1).drop_last() =~= es.take(k));
    let e = encode_entry(es[k].0, es[k].1, es[k].2);
    let p = encode_entries(es.take(k));
    if k == es.len() - 1 {
        assert(es.take(k + 1) =~= es);
        assert(encode_entries(es) == p + e);
        assert(encode_entries(es).subrange(p.len() as int, (p.len() + e.len()) as int) =~= e);
    } else {
        lemma_encode_entries_prefix(es.drop_last(), k);
        assert(es.drop_last().take(k) =~= es.take(k));
        assert(es.drop_last()[k] == es[k]);
        let q = encode_entries(es.drop_last());
        assert(encode_entries(es) == q + encode_entry(es.last().0, es.last().1, es.last().2));
        assert(encode_entries(es).subrange(p.len() as int, (p.len() + e.len()) as int) =~= q.subrange(p.len() as int, (p.len() + e.len()) as int));
    }
}

proof fn lemma_scan_entry(es: Seq<(Seq<u8>, u32, Seq<u8>)>, rest: Seq<u8>, k: int)
    requires
        0 <= k < es.len(),
        entry_fits(es[k].0, es[k].2),
        es[k].0 != trailer_name(),
    ensures
        scan_trailer(encode_entries(es) + encode_trailer() + rest, encode_entries(es.take(k)).len())
            == scan_trailer(
            encode_entries(es) + encode_trailer() + rest,
            encode_entries(es.take(k + 1)).len(),
        ),
{
    let data = encode_entries(es) + encode_trailer() + rest;
    let body = encode_entries(es);
    let (name, mode, content) = es[k];
    lemma_encode_entries_prefix(es, k);
    let off = encode_entries(es.take(k)).len();
    let e = encode_entry(name, mode, content);
    assert(data.subrange(off as int, (off + e.len()) as int) =~= body.subrange(
        off as int,
        (off + e.len()) as int,
    ));
    lemma_entry_shape(name, mode, content);
    lemma_scan_step(data, off, name, mode, content);
}

proof fn lemma_scan_from(es: Seq<(Seq<u8>, u32, Seq<u8>)>, rest: Seq<u8>, k: int)
    requires
        0 <= k <= es.len(),
        forall|i: int| 0 <= i < es.len() ==> entry_fits(#[trigger] es[i].0, es[i].2),
        forall|i: int| 0 <= i < es.len() ==> #[trigger] es[i].0 != trailer_name(),
    ensures
        scan_trailer(encode_entries(es) + encode_trailer() + rest, encode_entries(es.take(k)).len())
            == Some(encode_entries(es).len()),
    decreases es.len() - k,
{
    if k == es.len() {
        let data = encode_entries(es) + encode_trailer() + rest;
        let body = encode_entries(es);
        let t = encode_trailer();
        assert(es.take(k) =~= es);
        assert(data.subrange(body.len() as int, (body.len() + t.len()) as int) =~= t);
        assert(entry_fits(trailer_name(), Seq::empty()));
        lemma_scan_step(data, body.len(), trailer_name(), 0, Seq::empty());
    } else {
        assert(entry_fits(es[k].0, es[k].2));
        assert(es[k].0 != trailer_name());
        lemma_scan_entry(es, rest, k);
        lemma_scan_from(es, rest, k + 1);
    }
}

/// Law: in an archive made of written entries followed by the trailer (and
/// anything after it), the trailer is found right after the entries,
/// provided no entry is itself named `TRAILER!!!` and every entry fits the
/// header fields.
pub proof fn lemma_trailer_after_entries(es: Seq<(Seq<u8>, u32, Seq<u8>)>, rest: Seq<u8>)
    requires
        forall|i: int| 0 <= i < es.len() ==> entry_fits(#[trigger] es[i].0, es[i].2),
        forall|i: int| 0 <= i < es.len() ==> #[trigger] es[i].0 != trailer_name(),
    ensures
        scan_trailer(encode_entries(es) + encode_trailer() + rest, 0) == Some(
            encode_entries(es).len(),
        ),
{
    lemma_scan_from(es, rest, 0);
    assert(es.take(0) =~= Seq::<(Seq<u8>, u32, Seq<u8>)>::empty());
}

/// A name with every leading `./` removed.
pub open spec fn trim_dot_slash(s: Seq<u8>) -> Seq<u8>
    decreases s.len(),
{
    if s.len() >= 2 && s[0] == 46u8 && s[1] == 47u8 {
        trim_dot_slash(s.subrange(2, s.len() as int))
    } else {
        s
    }
}

/// A name with every leading `/` removed.
pub open spec fn trim_slashes(s: Seq<u8>) -> Seq<u8>
    decreases s.len(),
{
    if s.len() >= 1 && s[0] == 47u8 {
        trim_slashes(s.drop_first())
    } else {
        s
    }
}

/// The archive name made relative: leading `./` then leading `/` removed.
pub open spec fn clean_name(name: Seq<u8>) -> Seq<u8> {
    trim_slashes(trim_dot_slash(name))
}

/// A `..` component of a relative path starts at byte `k`.
pub open spec fn parent_component_at(s: Seq<u8>, k: int) -> bool {
    &&& 0 <= k
    &&& k + 2 <= s.len()
    &&& s[k] == 46u8
    &&& s[k + 1] == 46u8
    &&& (k == 0 || s[k - 1] == 47u8)
    &&& (k + 2 == s.len() || s[k + 2] == 47u8)
}

/// The path's components include something other than plain names: it
/// starts with a `.` component or has a `..` component.
pub open spec fn has_special_component(s: Seq<u8>) -> bool {
    (s.len() >= 2 && s[0] == 46u8 && s[1] == 47u8) || exists|k: int| parent_component_at(s, k)
}

/// Where an archive name lands below the target directory: `Some(None)` for
/// the target directory itself (an empty or `.` name), `Some(Some(p))` for
/// the relative path `p`, `None` when the name would leave the directory.
pub open spec fn sanitize(name: Seq<u8>) -> Option<Option<Seq<u8>>> {
    let c = clean_name(name);
    if c.len() == 0 || c == seq![46u8] {
        Some(None)
    } else if has_special_component(c) {
        None
    } else {
        Some(Some(c))
    }
}

/// Errors met while reading an archive.
#[derive(Debug, PartialEq, Eq, Structural)]
pub enum CpioError {
    /// The header does not start with a newc magic.
    BadMagic,
    /// A header field is not a hexadecimal number.
    BadField,
    /// The archive ends inside an entry.
    Truncated,
    /// An entry name is not valid UTF-8.
    BadNameEncoding,
    /// An entry name would leave the target directory.
    UnsafePath,
    /// A symbolic link target is not valid UTF-8.
    BadLinkEncoding,
}

/// Resolves an archive name against the target directory: `Ok(None)` for
/// the directory itself, `Ok(Some(p))` for the relative path `p`.
pub fn sanitize_path(rel_path: &[u8]) -> (r: Result<Option<Vec<u8>>, CpioError>)
    ensures
        match r {
            Ok(None) => sanitize(rel_path@) == Some(None::<Seq<u8>>),
            Ok(Some(p)) => sanitize(rel_path@) == Some(Some(p@)),
            Err(e) => sanitize(rel_path@) is None && e == CpioError::UnsafePath,
        },
{
    let n = rel_path.len();
    let mut start: usize = 0;
    assert(rel_path@.subrange(0, n as int) =~= rel_path@);
    while n - start >= 2 && rel_path[start] == 46u8 && rel_path[start + 1] == 47u8
        invariant
            start <= n,
            n == rel_path@.len(),
            trim_dot_slash(rel_path@) == trim_dot_slash(rel_path@.subrange(start as int, n as int)),
        decreases n - start,
    {
        let ghost cur = rel_path@.subrange(start as int, n as int);
        assert(cur.subrange(2, cur.len() as int) =~= rel_path@.subrange(start + 2, n as int));
        start = start + 2;
    }
    assert(trim_dot_slash(rel_path@.subrange(start as int, n as int)) == rel_path@.subrange(start as int, n as int));
    while start < n && rel_path[start] == 47u8
        invariant
            start <= n,
            n == rel_path@.len(),
            clean_name(rel_path@) == trim_slashes(rel_path@.subrange(start as int, n as int)),
        decreases n - start,
    {
        let ghost cur = rel_path@.subrange(start as int, n as int);
        assert(cur.drop_first() =~= rel_path@.subrange(start + 1, n as int));
        start = start + 1;
    }
    let ghost c = rel_path@.subrange(start as int, n as int);
    assert(clean_name(rel_path@) == c);
    let len = n - start;
    if len == 0 || (len == 1 && rel_path[start] == 46u8) {
        proof {
            if len == 1 {
                assert(c =~= seq![46u8]);
            }
        }
        return Ok(None);
    }
    if len >= 2 && rel_path[start] == 46u8 && rel_path[start + 1] == 47u8 {
        proof {
            if c == seq![46u8] {
                assert(c.len() == 1);
            }
        }
        return Err(CpioError::UnsafePath);
    }
    let mut k: usize = 0;
    while len - k >= 2
        invariant
            k <= len,
            start + len == n,
            clean_name(rel_path@) == c,
            n == rel_path@.len(),
            c == rel_path@.subrange(start as int, n as int),
            forall|j: int| 0 <= j < k ==> !parent_component_at(c, j),
        decreases len - k,
    {
        let i = start + k;
        if rel_path[i] == 46u8 && rel_path[i + 1] == 46u8 && (k == 0 || rel_path[i - 1] == 47u8)
            && (k + 2 == len || rel_path[i + 2] == 47u8) {
            proof {
                assert(parent_component_at(c, k as int));
                if c == seq![46u8] {
                    assert(c.len() == 1);
                }
            }
            return Err(CpioError::UnsafePath);
        }
        k = k + 1;
    }
    assert(forall|j: int| !parent_component_at(c, j));
    proof {
        if c == seq![46u8] {
            assert(c.len() == 1);
        }
    }
    let mut out: Vec<u8> = Vec::new();
    push_all(&mut out, &rel_path[start..n]);
    assert(out@ == c);
    Ok(Some(out))
}

/// What to do on disk for one archive entry while unpacking it below a
/// target directory; paths are relative to that directory.
pub enum ExtractAction {
    /// The entry names the target directory itself: nothing to create.
    Root,
    /// Create the directory (and its parents) and give it these permissions.
    Directory { path: Vec<u8>, perm: u32 },
    /// Create a symbolic link to `target` (a valid UTF-8 string).
    Symlink { path: Vec<u8>, target: Vec<u8> },
    /// Create the file with this content, then give it these permissions.
    File { path: Vec<u8>, data: Vec<u8>, perm: u32 },
    /// Create the file, then fail: the archive ends inside its content.
    TruncatedFile { path: Vec<u8> },
    /// An entry of another file type: nothing to create.
    Skipped,
}

/// The mathematical content of an `ExtractAction`.
pub enum ActionModel {
    Root,
    Directory { path: Seq<u8>, perm: u32 },
    Symlink { path: Seq<u8>, target: Seq<u8> },
    File { path: Seq<u8>, data: Seq<u8>, perm: u32 },
    TruncatedFile { path: Seq<u8> },
    Skipped,
}

impl View for ExtractAction {
    type V = ActionModel;

    open spec fn view(&self) -> ActionModel {
        match self {
            ExtractAction::Root => ActionModel::Root,
            ExtractAction::Directory { path, perm } => ActionModel::Directory {
                path: path@,
                perm: *perm,
            },
            ExtractAction::Symlink { path, target } => ActionModel::Symlink {
                path: path@,
                target: target@,
            },
            ExtractAction::File { path, data, perm } => ActionModel::File {
                path: path@,
                data: data@,
                perm: *perm,
            },
            ExtractAction::TruncatedFile { path } => ActionModel::TruncatedFile { path: path@ },
            ExtractAction::Skipped => ActionModel::Skipped,
        }
    }
}

/// One step of unpacking: the archive is over, or here is an entry's action
/// and the offset of the next header (`None` when the archive ends inside
/// the padding after this entry: perform the action, then fail).
pub enum ExtractStep {
    Done,
    Entry { action: ExtractAction, next: Option<usize> },
}

/// The mathematical content of an `ExtractStep`.
pub enum StepModel {
    Done,
    Entry { action: ActionModel, next: Option<nat> },
}

impl View for ExtractStep {
    type V = StepModel;

    open spec fn view(&self) -> StepModel {
        match self {
            ExtractStep::Done => StepModel::Done,
            ExtractStep::Entry { action, next } => StepModel::Entry {
                action: action@,
                next: match next {
                    Some(n) => Some(*n as nat),
                    None => None,
                },
            },
        }
    }
}

/// `Some(end)` when the archive holds `end` bytes, else `None`.
pub open spec fn within(data: Seq<u8>, end: nat) -> Option<nat> {
    if end <= data.len() {
        Some(end)
    } else {
        None
    }
}

/// Unpacking the entry whose header at `pos` holds this mode, content size
/// and name size.
pub open spec fn entry_step(data: Seq<u8>, pos: nat, mode: u32, fs: nat, ns: nat) -> Result<
    StepModel,
    CpioError,
> {
    let name_end = pos + 110 + ns;
    let body = name_end + pad4(110 + ns);
    if body > data.len() {
        Err(CpioError::Truncated)
    } else {
        let name = trim_nul(data.subrange((pos + 110) as int, name_end as int));
        if name == trailer_name() {
            Ok(StepModel::Done)
        } else if !utf8_valid(name) {
            Err(CpioError::BadNameEncoding)
        } else {
            match sanitize(name) {
                None => Err(CpioError::UnsafePath),
                Some(None) => Ok(
                    StepModel::Entry { action: ActionModel::Root, next: within(data, body + pad4(fs)) },
                ),
                Some(Some(rel)) => {
                    let kind = mode & S_IFMT;
                    let perm = mode & 0o7777;
                    if kind == S_IFDIR {
                        Ok(
                            StepModel::Entry {
                                action: ActionModel::Directory { path: rel, perm },
                                next: within(data, body + pad4(fs)),
                            },
                        )
                    } else if body + fs > data.len() {
                        if kind == S_IFREG {
                            Ok(
                                StepModel::Entry {
                                    action: ActionModel::TruncatedFile { path: rel },
                                    next: None,
                                },
                            )
                        } else {
                            Err(CpioError::Truncated)
                        }
                    } else {
                        let content = data.subrange(body as int, (body + fs) as int);
                        let next = within(data, body + fs + pad4(fs));
                        if kind == S_IFLNK {
                            if utf8_valid(content) {
                                Ok(
                                    StepModel::Entry {
                                        action: ActionModel::Symlink { path: rel, target: content },
                                        next,
                                    },
                                )
                            } else {
                                Err(CpioError::BadLinkEncoding)
                            }
                        } else if kind == S_IFREG {
                            Ok(
                                StepModel::Entry {
                                    action: ActionModel::File { path: rel, data: content, perm },
                                    next,
                                },
                            )
                        } else {
                            Ok(StepModel::Entry { action: ActionModel::Skipped, next })
                        }
                    }
                },
            }
        }
    }
}

/// Unpacking the entry whose header starts at `pos`: fewer than 110 bytes
/// left end the archive; the magic and the mode, size and name-size fields
/// are checked in that order.
pub open spec fn spec_extract_step(data: Seq<u8>, pos: nat) -> Result<StepModel, CpioError> {
    if pos + 110 > data.len() {
        Ok(StepModel::Done)
    } else if !is_magic(data.subrange(pos as int, (pos + 6) as int)) {
        Err(CpioError::BadMagic)
    } else {
        match (
            parse_hex(hdr_field(data, pos, 14)),
            parse_hex(hdr_field(data, pos, 54)),
            parse_hex(hdr_field(data, pos, 94)),
        ) {
            (Some(m), Some(fs), Some(ns)) => entry_step(data, pos, m as u32, fs, ns),
            _ => Err(CpioError::BadField),
        }
    }
}

pub(crate) fn copy_range(data: &[u8], start: usize, end: usize) -> (r: Vec<u8>)
    requires
        start <= end <= data@.len(),
    ensures
        r@ == data@.subrange(start as int, end as int),
{
    let mut out: Vec<u8> = Vec::new();
    push_all(&mut out, &data[start..end]);
    out
}

/// Reads the entry whose header starts at `pos` and says what unpacking it
/// does; the caller performs the action and continues at the next offset.
#[verifier::rlimit(80)]
#[verifier::spinoff_prover]
pub fn extract_step(data: &[u8], pos: usize) -> (r: Result<ExtractStep, CpioError>)
    ensures
        match r {
            Ok(step) => spec_extract_step(data@, pos as nat) == Ok::<StepModel, CpioError>(step@),
            Err(e) => spec_extract_step(data@, pos as nat) == Err::<StepModel, CpioError>(e),
        },
{
    let len = data.len();
    if pos > len || len - pos < HEADER_LEN {
        return Ok(ExtractStep::Done);
    }
    if !magic_at(data, pos) {
        return Err(CpioError::BadMagic);
    }
    let mode = match parse_hex_field(&data[pos + 14..pos + 22]) {
        Some(v) => v,
        None => {
            return Err(CpioError::BadField);
        },
    };
    let filesize = match parse_hex_field(&data[pos + 54..pos + 62]) {
        Some(v) => v,
        None => {
            return Err(CpioError::BadField);
        },
    };
    let namesize = match parse_hex_field(&data[pos + 94..pos + 102]) {
        Some(v) => v,
        None => {
            return Err(CpioError::BadField);
        },
    };
    let name_start = pos + HEADER_LEN;
    let name_pad: usize = ((4 - ((2 + namesize % 4) % 4)) % 4) as usize;
    assert(name_pad == pad4(110 + namesize as nat));
    if namesize as usize > len - name_start || name_pad > len - name_start - namesize as usize {
        return Err(CpioError::Truncated);
    }
    let name_end = name_start + namesize as usize;
    let body = name_end + name_pad;
    if is_trailer_name(data, name_start, name_end) {
        return Ok(ExtractStep::Done);
    }
    let mut stop = name_end;
    if name_end > name_start && data[name_end - 1] == 0u8 {
        stop = name_end - 1;
    }
    assert(data@.subrange(name_start as int, stop as int) == trim_nul(
        data@.subrange(name_start as int, name_end as int),
    ));
    let name = &data[name_start..stop];
    if !check_utf8(name) {
        return Err(CpioError::BadNameEncoding);
    }
    let file_pad: usize = ((4 - (filesize % 4)) % 4) as usize;
    assert(file_pad == pad4(filesize as nat));
    let rel = match sanitize_path(name) {
        Err(e) => {
            return Err(e);
        },
        Ok(None) => {
            let next = if file_pad <= len - body {
                Some(body + file_pad)
            } else {
                None
            };
            return Ok(ExtractStep::Entry { action: ExtractAction::Root, next });
        },
        Ok(Some(p)) => p,
    };
    let kind = mode & S_IFMT;
    let perm = mode & 0o7777;
    if kind == S_IFDIR {
        let next = if file_pad <= len - body {
            Some(body + file_pad)
        } else {
            None
        };
        return Ok(ExtractStep::Entry { action: ExtractAction::Directory { path: rel, perm }, next });
    }
    if filesize as usize > len - body {
        if kind == S_IFREG {
            return Ok(ExtractStep::Entry { action: ExtractAction::TruncatedFile { path: rel }, next: None });
        }
        return Err(CpioError::Truncated);
    }
    let content_end = body + filesize as usize;
    let next = if file_pad <= len - content_end {
        Some(content_end + file_pad)
    } else {
        None
    };
    if kind == S_IFLNK {
        if !check_utf8(&data[body..content_end]) {
            return Err(CpioError::BadLinkEncoding);
        }
        let target = copy_range(data, body, content_end);
        return Ok(ExtractStep::Entry { action: ExtractAction::Symlink { path: rel, target }, next });
    }
    if kind == S_IFREG {
        let content = copy_range(data, body, content_end);
        return Ok(ExtractStep::Entry { action: ExtractAction::File { path: rel, data: content, perm }, next });
    }
    Ok(ExtractStep::Entry { action: ExtractAction::Skipped, next })
}

/// What unpacking makes of a written entry, by its file type.
pub open spec fn written_action(name: Seq<u8>, mode: u32, content: Seq<u8>) -> ActionModel {
    match sanitize(name) {
        Some(Some(rel)) => {
            let kind = mode & S_IFMT;
            if kind == S_IFDIR {
                ActionModel::Directory { path: rel, perm: mode & 0o7777 }
            } else if kind == S_IFLNK {
                ActionModel::Symlink { path: rel, target: content }
            } else if kind == S_IFREG {
                ActionModel::File { path: rel, data: content, perm: mode & 0o7777 }
            } else {
                ActionModel::Skipped
            }
        },
        _ => ActionModel::Root,
    }
}

/// The entries that unpack as they were written: they fit the header
/// fields, are not named `TRAILER!!!`, have a UTF-8 name that stays below
/// the target directory, carry no content when they are directories or
/// name the target directory itself (the reader does not skip such
/// content), and link to a UTF-8 target.
pub open spec fn readable_entry(name: Seq<u8>, mode: u32, content: Seq<u8>) -> bool {
    &&& entry_fits(name, content)
    &&& name != trailer_name()
    &&& utf8_valid(name)
    &&& sanitize(name) is Some
    &&& (sanitize(name) == Some(None::<Seq<u8>>) || mode & S_IFMT == S_IFDIR) ==> content.len() == 0
    &&& mode & S_IFMT == S_IFLNK ==> utf8_valid(content)
}

/// Unpacking reads a written entry back: its action, and the next header
/// right after it.
pub proof fn lemma_extract_written(data: Seq<u8>, off: nat, name: Seq<u8>, mode: u32, content: Seq<u8>)
    requires
        readable_entry(name, mode, content),
        holds_at(data, off, encode_entry(name, mode, content)),
    ensures
        spec_extract_step(data, off) == Ok::<StepModel, CpioError>(
            StepModel::Entry {
                action: written_action(name, mode, content),
                next: Some(off + entry_len(name.len(), content.len())),
            },
        ),
{
    lemma_entry_read(data, off, name, mode, content);
    lemma_entry_shape(name, mode, content);
}

/// Unpacking stops at a written trailer.
pub proof fn lemma_extract_trailer(data: Seq<u8>, off: nat)
    requires
        holds_at(data, off, encode_trailer()),
    ensures
        spec_extract_step(data, off) == Ok::<StepModel, CpioError>(StepModel::Done),
{
    assert(entry_fits(trailer_name(), Seq::empty()));
    lemma_entry_read(data, off, trailer_name(), 0, Seq::empty());
    lemma_entry_shape(trailer_name(), 0, Seq::empty());
}

proof fn lemma_unpack_entry_at(es: Seq<(Seq<u8>, u32, Seq<u8>)>, rest: Seq<u8>, k: int)
    requires
        forall|i: int| 0 <= i < es.len() ==> readable_entry(#[trigger] es[i].0, es[i].1, es[i].2),
        0 <= k < es.len(),
    ensures
        spec_extract_step(
            encode_entries(es) + encode_trailer() + rest,
            encode_entries(es.take(k)).len(),
        ) == Ok::<StepModel, CpioError>(
            StepModel::Entry {
                action: written_action(es[k].0, es[k].1, es[k].2),
                next: Some(encode_entries(es.take(k + 1)).len()),
            },
        ),
{
    let data = encode_entries(es) + encode_trailer() + rest;
    let body = encode_entries(es);
    let (name, mode, content) = es[k];
    assert(readable_entry(name, mode, content));
    lemma_encode_entries_prefix(es, k);
    let off = encode_entries(es.take(k)).len();
    let e = encode_entry(name, mode, content);
    assert(data.subrange(off as int, (off + e.len()) as int) =~= body.subrange(
        off as int,
        (off + e.len()) as int,
    ));
    lemma_entry_shape(name, mode, content);
    assert(off + entry_len(name.len(), content.len()) == encode_entries(es.take(k + 1)).len());
    lemma_extract_written(data, off, name, mode, content);
}

/// Law: unpacking an archive made of written entries and the trailer reads
/// each entry back in order, each step leading to the next entry, and the
/// step at the trailer ends the archive.
pub proof fn lemma_unpack_written(es: Seq<(Seq<u8>, u32, Seq<u8>)>, rest: Seq<u8>, k: int)
    requires
        forall|i: int| 0 <= i < es.len() ==> readable_entry(#[trigger] es[i].0, es[i].1, es[i].2),
        0 <= k <= es.len(),
    ensures
        k < es.len() ==> spec_extract_step(
            encode_entries(es) + encode_trailer() + rest,
            encode_entries(es.take(k)).len(),
        ) == Ok::<StepModel, CpioError>(
            StepModel::Entry {
                action: written_action(es[k].0, es[k].1, es[k].2),
                next: Some(encode_entries(es.take(k + 1)).len()),
            },
        ),
        k == es.len() ==> spec_extract_step(
            encode_entries(es) + encode_trailer() + rest,
            encode_entries(es.take(k)).len(),
        ) == Ok::<StepModel, CpioError>(StepModel::Done),
{
    if k == es.len() {
        let data = encode_entries(es) + encode_trailer() + rest;
        let body = encode_entries(es);
        let t = encode_trailer();
        assert(es.take(k) =~= es);
        assert(data.subrange(body.len() as int, (body.len() + t.len()) as int) =~= t);
        lemma_extract_trailer(data, body.len());
    } else {
        lemma_unpack_entry_at(es, rest, k);
    }
}

/// A relative path that stays below the directory it is taken from: not
/// empty, not absolute, without a `..` component.
pub open spec fn stays_below(p: Seq<u8>) -> bool {
    &&& p.len() > 0
    &&& p[0] != 47u8
    &&& forall|k: int| !parent_component_at(p, k)
}

/// The path an action creates, if it creates one.
pub open spec fn action_path(a: ActionModel) -> Option<Seq<u8>> {
    match a {
        ActionModel::Directory { path, .. } => Some(path),
        ActionModel::Symlink { path, .. } => Some(path),
        ActionModel::File { path, .. } => Some(path),
        ActionModel::TruncatedFile { path } => Some(path),
        _ => None,
    }
}

pub(crate) proof fn lemma_trim_slashes_head(s: Seq<u8>)
    ensures
        trim_slashes(s).len() > 0 ==> trim_slashes(s)[0] != 47u8,
    decreases s.len(),
{
    if s.len() >= 1 && s[0] == 47u8 {
        lemma_trim_slashes_head(s.drop_first());
    }
}

/// Law: whatever the archive, every path that unpacking creates stays
/// below the target directory.
pub proof fn lemma_extract_paths_stay_below(data: Seq<u8>, pos: nat)
    ensures
        spec_extract_step(data, pos) matches Ok(StepModel::Entry { action, .. }) ==> (action_path(action) matches Some(
            p,
        ) ==> stays_below(p)),
{
    if pos + 110 <= data.len() {
        match (
            parse_hex(hdr_field(data, pos, 14)),
            parse_hex(hdr_field(data, pos, 54)),
            parse_hex(hdr_field(data, pos, 94)),
        ) {
            (Some(m), Some(fs), Some(ns)) => {
                let name_end = pos + 110 + ns;
                if name_end + pad4(110 + ns) <= data.len() {
                    let name = trim_nul(data.subrange((pos + 110) as int, name_end as int));
                    let t = trim_dot_slash(name);
                    lemma_trim_slashes_head(t);
                    match sanitize(name) {
                        Some(Some(rel)) => {
                            assert(rel == clean_name(name));
                            assert(!has_special_component(rel));
                            assert(stays_below(rel));
                        },
                        _ => {},
                    }
                }
            },
            _ => {},
        }
    }
}

/// Law: unpacking an archive of written entries and the trailer does not
/// depend on what follows the trailer: at every entry and at the trailer
/// the step is the one taken on the archive without those bytes, so the
/// walk visits the same entries and stops at the trailer.
pub proof fn lemma_unpack_ignores_tail(es: Seq<(Seq<u8>, u32, Seq<u8>)>, rest: Seq<u8>, k: int)
    requires
        forall|i: int| 0 <= i < es.len() ==> readable_entry(#[trigger] es[i].0, es[i].1, es[i].2),
        0 <= k <= es.len(),
    ensures
        spec_extract_step(encode_entries(es) + encode_trailer() + rest, encode_entries(es.take(k)).len())
            == spec_extract_step(encode_entries(es) + encode_trailer(), encode_entries(es.take(k)).len()),
{
    lemma_unpack_written(es, rest, k);
    lemma_unpack_written(es, Seq::empty(), k);
    assert(encode_entries(es) + encode_trailer() + Seq::<u8>::empty() =~= encode_entries(es) + encode_trailer());
}

proof fn lemma_entry_len_aligned(nl: nat, dl: nat)
    ensures
        entry_len(nl, dl) % 4 == 0,
{
    let a = 110 + nl + 1;
    assert((a + pad4(a)) % 4 == 0);
    assert((dl + pad4(dl)) % 4 == 0);
}

#[verifier::spinoff_prover]
proof fn lemma_entries_aligned(es: Seq<(Seq<u8>, u32, Seq<u8>)>)
    requires
        forall|i: int| 0 <= i < es.len() ==> entry_fits(#[trigger] es[i].0, es[i].2),
    ensures
        encode_entries(es).len() % 4 == 0,
    decreases es.len(),
{
    if es.len() > 0 {
        let last = es.last();
        let init = es.drop_last();
        assert forall|i: int| 0 <= i < init.len() implies entry_fits(#[trigger] init[i].0, init[i].2) by {
            assert(init[i] == es[i]);
            assert(entry_fits(es[i].0, es[i].2));
        }
        lemma_entries_aligned(init);
        let e = encode_entry(last.0, last.1, last.2);
        assert(e.len() % 4 == 0) by {
            assert(entry_fits(es[es.len() - 1].0, es[es.len() - 1].2));
            lemma_entry_shape(last.0, last.1, last.2);
            lemma_entry_len_aligned(last.0.len(), last.2.len());
        }
        assert(encode_entries(es) == encode_entries(init) + e);
    }
}

/// The trailer entry is 124 bytes long.
pub proof fn lemma_trailer_len()
    ensures
        encode_trailer().len() == 124,
{
    assert(entry_fits(trailer_name(), Seq::empty()));
    lemma_entry_shape(trailer_name(), 0, Seq::empty());
    assert(pad4(121) == 3);
    assert(pad4(0) == 0);
}

proof fn lemma_append_tail(d: Seq<u8>, t: Seq<u8>)
    requires
        d.len() % 4 == 0,
        t.len() == 124,
    ensures
        (d + t).len() % 4 == 0,
        (d + t).len() >= 124,
        (d + t).skip((d + t).len() - 124) == t,
{
    assert((d + t).skip((d + t).len() - 124) =~= t);
}

proof fn lemma_scan_archive(es: Seq<(Seq<u8>, u32, Seq<u8>)>)
    requires
        forall|i: int| 0 <= i < es.len() ==> entry_fits(#[trigger] es[i].0, es[i].2),
        forall|i: int| 0 <= i < es.len() ==> #[trigger] es[i].0 != trailer_name(),
    ensures
        scan_trailer(encode_entries(es) + encode_trailer(), 0) == Some(encode_entries(es).len()),
{
    lemma_trailer_after_entries(es, Seq::empty());
    assert(encode_entries(es) + encode_trailer() + Seq::<u8>::empty() =~= encode_entries(es) + encode_trailer());
}

/// Law: an archive of written entries and the trailer has a length that is
/// a multiple of four, ends in the 124-byte trailer entry, and its trailer
/// is found 124 bytes before its end, when every entry fits the header
/// fields and none is named `TRAILER!!!`.
pub proof fn lemma_archive_layout(es: Seq<(Seq<u8>, u32, Seq<u8>)>)
    requires
        forall|i: int| 0 <= i < es.len() ==> entry_fits(#[trigger] es[i].0, es[i].2),
        forall|i: int| 0 <= i < es.len() ==> #[trigger] es[i].0 != trailer_name(),
    ensures
        ({
            let b = encode_entries(es) + encode_trailer();
            &&& b.len() % 4 == 0
            &&& b.len() >= 124
            &&& scan_trailer(b, 0) == Some((b.len() - 124) as nat)
            &&& b.skip(b.len() - 124) == encode_trailer()
        }),
{
    lemma_trailer_len();
    lemma_entries_aligned(es);
    lemma_append_tail(encode_entries(es), encode_trailer());
    lemma_scan_archive(es);
}

/// The step at `pos` is settled by bytes of `data` alone: it reads a whole
/// entry (and the padding after it), stops at a trailer whose header and
/// name lie in `data`, or fails for a reason other than the archive
/// ending early.
pub open spec fn step_settled(data: Seq<u8>, pos: nat) -> bool {
    match spec_extract_step(data, pos) {
        Ok(StepModel::Entry { next, .. }) => next is Some,
        Ok(StepModel::Done) => pos + 110 <= data.len(),
        Err(e) => e != CpioError::Truncated,
    }
}

/// Law: bytes appended to an archive never change a step that is settled
/// without them: the same entry with the same next offset, the same stop
/// at the trailer, the same error.
pub proof fn lemma_step_ignores_tail(p: Seq<u8>, b: Seq<u8>, pos: nat)
    requires
        step_settled(p, pos),
    ensures
        spec_extract_step(p + b, pos) == spec_extract_step(p, pos),
{
    let d = p + b;
    if pos + 110 <= p.len() {
        assert(d.subrange(pos as int, (pos + 6) as int) =~= p.subrange(pos as int, (pos + 6) as int));
        assert(hdr_field(d, pos, 14) =~= hdr_field(p, pos, 14));
        assert(hdr_field(d, pos, 54) =~= hdr_field(p, pos, 54));
        assert(hdr_field(d, pos, 94) =~= hdr_field(p, pos, 94));
        match (parse_hex(hdr_field(p, pos, 14)), parse_hex(hdr_field(p, pos, 54)), parse_hex(hdr_field(p, pos, 94))) {
            (Some(m), Some(fs), Some(ns)) => {
                if is_magic(p.subrange(pos as int, (pos + 6) as int)) {
                    let name_end = pos + 110 + ns;
                    let body = name_end + pad4(110 + ns);
                    if body <= p.len() {
                        assert(d.subrange((pos + 110) as int, name_end as int) =~= p.subrange(
                            (pos + 110) as int,
                            name_end as int,
                        ));
                        if body + fs <= p.len() {
                            assert(d.subrange(body as int, (body + fs) as int) =~= p.subrange(
                                body as int,
                                (body + fs) as int,
                            ));
                        }
                    }
                }
            },
            _ => {},
        }
    }
}

/// The steps of unpacking from `pos` on: each step, as long as it leads to
/// a later offset within the data.
pub open spec fn unpack_walk(data: Seq<u8>, pos: nat) -> Seq<Result<StepModel, CpioError>>
    decreases data.len() - pos,
{
    let step = spec_extract_step(data, pos);
    match step {
        Ok(StepModel::Entry { next: Some(n), .. }) => if pos < n <= data.len() {
            seq![step] + unpack_walk(data, n)
        } else {
            seq![step]
        },
        _ => seq![step],
    }
}

/// Whether unpacking from `pos` reaches a trailer that lies in the data.
pub open spec fn walk_reaches_trailer(data: Seq<u8>, pos: nat) -> bool
    decreases data.len() - pos,
{
    match spec_extract_step(data, pos) {
        Ok(StepModel::Entry { next: Some(n), .. }) => pos < n <= data.len() && walk_reaches_trailer(data, n),
        Ok(StepModel::Done) => pos + 110 <= data.len(),
        _ => false,
    }
}

/// Law: once unpacking reaches a trailer, whatever follows it is never
/// read: for any archive whose walk from `pos` reaches its trailer, the
/// walk with bytes appended is the same step for step, and so creates the
/// same things and stops at the same trailer.
pub proof fn lemma_walk_ignores_tail(p: Seq<u8>, b: Seq<u8>, pos: nat)
    requires
        walk_reaches_trailer(p, pos),
    ensures
        walk_reaches_trailer(p + b, pos),
        unpack_walk(p + b, pos) == unpack_walk(p, pos),
    decreases p.len() - pos,
{
    lemma_step_ignores_tail(p, b, pos);
    match spec_extract_step(p, pos) {
        Ok(StepModel::Entry { next: Some(n), .. }) => {
            lemma_walk_ignores_tail(p, b, n);
        },
        _ => {},
    }
}

/// Law: a trailer found by walking from a four-byte aligned offset is
/// itself four-byte aligned, and its whole header lies in the data.
pub proof fn lemma_scan_trailer_aligned(data: Seq<u8>, off: nat)
    requires
        off % 4 == 0,
    ensures
        scan_trailer(data, off) matches Some(t) ==> t % 4 == 0 && t + 110 <= data.len(),
    decreases data.len() - off,
{
    if off + 110 <= data.len() && is_magic(data.subrange(off as int, (off + 6) as int)) {
        match (parse_hex(hdr_field(data, off, 54)), parse_hex(hdr_field(data, off, 94))) {
            (Some(fs), Some(ns)) => {
                let name_end = off + 110 + ns;
                let next = name_end + pad4(110 + ns) + fs + pad4(fs);
                let a = 110 + ns;
                assert((a + pad4(a)) % 4 == 0);
                assert((fs + pad4(fs)) % 4 == 0);
                assert(next == off + (a + pad4(a)) + (fs + pad4(fs)));
                if name_end <= data.len() && next <= data.len() && next > off {
                    lemma_scan_trailer_aligned(data, next);
                }
            },
            _ => {},
        }
    }
}

} // verus!
