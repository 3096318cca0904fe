//! Running the command: where its program is found in the root
//! filesystem, and how a command run inside a virtual machine reports its
//! exit code through the serial console.
use vstd::prelude::*;
use crate::cpio::trim_slashes;
use crate::text::{
    ascii_bytes, decode_utf8, lemma_parse_i32_dec, lemma_signed_dec_string_shape, parse_i32, parse_i32_spec,
    signed_dec_string, str_ascii_bytes, trim, trim_chars, utf8_decode,
};

verus! {

/// The command run when none is given: a shell.
pub open spec fn default_command() -> Seq<Seq<u8>> {
    seq![ascii_bytes("/bin/sh"@)]
}

/// The command as given, or the shell when none is.
pub open spec fn effective_args(cmd: Seq<Seq<u8>>) -> Seq<Seq<u8>> {
    if cmd.len() == 0 {
        default_command()
    } else {
        cmd
    }
}

/// The command to run: the arguments given, or `/bin/sh` when there are
/// none.
pub fn effective_command(cmd_args: &[Vec<u8>]) -> (r: Vec<Vec<u8>>)
    ensures
        crate::overlay::names_view(r@) == effective_args(crate::overlay::names_view(cmd_args@)),
        r@.len() > 0,
{
    let mut out: Vec<Vec<u8>> = Vec::new();
    if cmd_args.len() == 0 {
        out.push(str_ascii_bytes("/bin/sh"));
        assert(crate::overlay::names_view(out@) =~= default_command());
        return out;
    }
    let mut i: usize = 0;
    while i < cmd_args.len()
        invariant
            i <= cmd_args@.len(),
            crate::overlay::names_view(out@) == crate::overlay::names_view(cmd_args@).take(i as int),
        decreases cmd_args@.len() - i,
    {
        let ghost before = crate::overlay::names_view(out@);
        let arg = crate::overlay::copy_bytes(cmd_args[i].as_slice());
        assert(arg@ == crate::overlay::names_view(cmd_args@)[i as int]);
        out.push(arg);
        assert(crate::overlay::names_view(out@) =~= before.push(arg@));
        i = i + 1;
        assert(crate::overlay::names_view(out@) =~= crate::overlay::names_view(cmd_args@).take(i as int));
    }
    assert(crate::overlay::names_view(cmd_args@).take(cmd_args@.len() as int) =~= crate::overlay::names_view(
        cmd_args@,
    ));
    out
}

/// The directories of the root filesystem searched for a program given by
/// name, in order.
pub open spec fn search_dir(k: int) -> Seq<u8> {
    if k == 0 {
        ascii_bytes("usr/bin"@)
    } else if k == 1 {
        ascii_bytes("bin"@)
    } else if k == 2 {
        ascii_bytes("usr/sbin"@)
    } else {
        ascii_bytes("sbin"@)
    }
}

/// The first searched directory that holds the program (`present` tells,
/// for each, whether it does); 4 when none does.
pub open spec fn first_present(present: Seq<bool>) -> int {
    if present[0] {
        0
    } else if present[1] {
        1
    } else if present[2] {
        2
    } else if present[3] {
        3
    } else {
        4
    }
}

/// Whether a program is named by an absolute path.
pub open spec fn absolute(bin: Seq<u8>) -> bool {
    bin.len() > 0 && bin[0] == 47u8
}

/// Where the program is, relative to the root of the root filesystem: an
/// absolute path without its leading slashes; a bare name in the first
/// searched directory that holds it, in `bin` when none does.
pub open spec fn rootfs_bin(bin: Seq<u8>, present: Seq<bool>) -> Seq<u8> {
    if absolute(bin) {
        trim_slashes(bin)
    } else {
        let k = first_present(present);
        (if k < 4 {
            search_dir(k)
        } else {
            ascii_bytes("bin"@)
        }) + seq![47u8] + bin
    }
}

/// The path a program is run by inside the root filesystem: an absolute
/// path as given, a bare name in the directory where it was found.
pub open spec fn guest_exec_path(bin: Seq<u8>, present: Seq<bool>) -> Seq<u8> {
    if absolute(bin) {
        bin
    } else {
        seq![47u8] + rootfs_bin(bin, present)
    }
}

/// The searched directories, in order.
pub fn search_dirs() -> (r: Vec<Vec<u8>>)
    ensures
        r@.len() == 4,
        forall|k: int| 0 <= k < 4 ==> r@[k]@ == search_dir(k),
{
    let mut out: Vec<Vec<u8>> = Vec::new();
    out.push(str_ascii_bytes("usr/bin"));
    out.push(str_ascii_bytes("bin"));
    out.push(str_ascii_bytes("usr/sbin"));
    out.push(str_ascii_bytes("sbin"));
    out
}

/// Where the program `bin` is, relative to the root of the root
/// filesystem; `present[k]` tells whether the `k`-th searched directory
/// holds it.
pub fn locate_bin(bin: &[u8], present: [bool; 4]) -> (r: Vec<u8>)
    ensures
        r@ == rootfs_bin(bin@, present@),
{
    if bin.len() > 0 && bin[0] == 47u8 {
        return crate::overlay::trim_leading_slashes(bin);
    }
    let mut out = if present[0] {
        str_ascii_bytes("usr/bin")
    } else if present[1] {
        str_ascii_bytes("bin")
    } else if present[2] {
        str_ascii_bytes("usr/sbin")
    } else if present[3] {
        str_ascii_bytes("sbin")
    } else {
        str_ascii_bytes("bin")
    };
    let ghost dir = out@;
    out.push(47u8);
    crate::bytes::push_all(&mut out, bin);
    assert(out@ =~= dir + seq![47u8] + bin@);
    out
}

/// The path the program `bin` is run by inside the root filesystem, as
/// `guest_exec_path` describes.
pub fn native_exec_target(bin: &[u8], present: [bool; 4]) -> (r: Vec<u8>)
    ensures
        r@ == guest_exec_path(bin@, present@),
{
    if bin.len() > 0 && bin[0] == 47u8 {
        return crate::overlay::copy_bytes(bin);
    }
    let rel = locate_bin(bin, present);
    let mut out: Vec<u8> = Vec::new();
    out.push(47u8);
    crate::bytes::push_all(&mut out, rel.as_slice());
    assert(out@ =~= seq![47u8] + rel@);
    out
}

/// The marker the guest prints before the exit code of its command.
pub open spec fn exit_tag() -> Seq<u8> {
    ascii_bytes("[qemulbench_exit_code="@)
}

/// The marker starts at `pos` of `line`.
pub open spec fn tag_at(line: Seq<u8>, pos: int) -> bool {
    0 <= pos && pos + exit_tag().len() <= line.len() && line.subrange(pos, pos + exit_tag().len()) == exit_tag()
}

/// Whether the line holds the marker.
pub open spec fn has_tag(line: Seq<u8>) -> bool {
    exists|pos: int| tag_at(line, pos)
}

/// Where the marker first starts.
pub open spec fn first_tag(line: Seq<u8>) -> int {
    choose|pos: int| tag_at(line, pos) && forall|q: int| 0 <= q < pos ==> !tag_at(line, q)
}

/// Whether `s` holds the byte `b`.
pub open spec fn has_byte(s: Seq<u8>, b: u8) -> bool {
    exists|i: int| 0 <= i < s.len() && s[i] == b
}

/// Where `b` first occurs in `s`.
pub open spec fn first_byte(s: Seq<u8>, b: u8) -> int {
    choose|i: int| 0 <= i < s.len() && s[i] == b && forall|j: int| 0 <= j < i ==> s[j] != b
}

/// The exit code a marked line reports: what stands between the marker
/// and the next `]`, read as UTF-8, trimmed and parsed as an `i32`; none
/// when any of these fails.
pub open spec fn reported_code(line: Seq<u8>) -> Option<i32> {
    code_in(line.skip(first_tag(line) + exit_tag().len()))
}

/// The code read from what follows the marker: the text up to the first
/// `]`, read as UTF-8, trimmed and parsed as an `i32`.
#[verifier::opaque]
pub open spec fn code_in(rem: Seq<u8>) -> Option<i32> {
    if has_byte(rem, 93u8) {
        match utf8_decode(rem.take(first_byte(rem, 93u8))) {
            Some(text) => match parse_i32_spec(trim(text)) {
                Some(v) => Some(v as i32),
                None => None,
            },
            None => None,
        }
    } else {
        None
    }
}

/// What a line of guest output does: a line with the marker is not shown,
/// and the code it reports, if readable, replaces the one captured before;
/// any other line is shown.
pub open spec fn guest_line(captured: Option<i32>, line: Seq<u8>) -> (Option<i32>, bool) {
    if has_tag(line) {
        (
            match reported_code(line) {
                Some(c) => Some(c),
                None => captured,
            },
            false,
        )
    } else {
        (captured, true)
    }
}

proof fn lemma_first_byte(s: Seq<u8>, b: u8, i: int)
    requires
        0 <= i < s.len(),
        s[i] == b,
        forall|j: int| 0 <= j < i ==> s[j] != b,
    ensures
        has_byte(s, b),
        first_byte(s, b) == i,
{
    assert(0 <= i < s.len() && s[i] == b && forall|j: int| 0 <= j < i ==> s[j] != b);
    let f = first_byte(s, b);
    if f < i {
        assert(s[f] != b);
    }
    if f > i {
        assert(s[i] != b);
    }
}

fn marker() -> (r: Vec<u8>)
    ensures
        r@ == exit_tag(),
        r@.len() > 0,
{
    proof {
        reveal_strlit("[qemulbench_exit_code=");
    }
    str_ascii_bytes("[qemulbench_exit_code=")
}

/// Whether the marker starts at `pos`.
fn tag_matches(line: &[u8], tag: &[u8], pos: usize) -> (r: bool)
    requires
        tag@ == exit_tag(),
        pos + tag@.len() <= line@.len(),
    ensures
        r == tag_at(line@, pos as int),
{
    let len = line.len();
    let mut k: usize = 0;
    while k < tag.len()
        invariant
            k <= tag@.len(),
            tag@ == exit_tag(),
            len == line@.len(),
            pos + tag@.len() <= line@.len(),
            forall|j: int| 0 <= j < k ==> line@[pos + j] == tag@[j],
        decreases tag@.len() - k,
    {
        assert(pos + k < line@.len());
        if line[pos + k] != tag[k] {
            assert(line@.subrange(pos as int, pos + tag@.len())[k as int] != tag@[k as int]);
            return false;
        }
        k = k + 1;
    }
    assert(line@.subrange(pos as int, pos + tag@.len()) =~= tag@);
    true
}

/// Where the marker first starts, if anywhere.
fn find_tag(line: &[u8], tag: &[u8]) -> (r: Option<usize>)
    requires
        tag@ == exit_tag(),
        tag@.len() > 0,
    ensures
        match r {
            Some(pos) => has_tag(line@) && first_tag(line@) == pos && tag_at(line@, pos as int),
            None => !has_tag(line@),
        },
{
    let n = tag.len();
    if n > line.len() {
        assert(!has_tag(line@));
        return None;
    }
    let mut pos: usize = 0;
    while pos < line.len() && n <= line.len() - pos
        invariant
            tag@ == exit_tag(),
            n == tag@.len(),
            n > 0,
            n <= line@.len(),
            pos <= line@.len(),
            forall|q: int| 0 <= q < pos ==> !tag_at(line@, q),
        decreases line@.len() - pos,
    {
        if tag_matches(line, tag, pos) {
            proof {
                let f = first_tag(line@);
                assert(tag_at(line@, pos as int) && forall|q: int| 0 <= q < pos ==> !tag_at(line@, q));
                if f < pos {
                    assert(!tag_at(line@, f));
                }
                if f > pos {
                    assert(tag_at(line@, pos as int));
                }
            }
            return Some(pos);
        }
        pos = pos + 1;
    }
    assert(!has_tag(line@)) by {
        if has_tag(line@) {
            let q = choose|q: int| tag_at(line@, q);
            assert(!tag_at(line@, q));
        }
    }
    None
}

/// The code that the bytes of a marked line report, if they hold one.
fn code_after(line: &[u8], start: usize) -> (r: Option<i32>)
    requires
        start <= line@.len(),
    ensures
        r == code_in(line@.skip(start as int)),
{
    reveal(code_in);
    let ghost rem = line@.skip(start as int);
    let mut end = start;
    while end < line.len() && line[end] != 93u8
        invariant
            start <= end <= line@.len(),
            forall|j: int| start <= j < end ==> line@[j] != 93u8,
        decreases line@.len() - end,
    {
        end = end + 1;
    }
    if end == line.len() {
        assert(!has_byte(rem, 93u8)) by {
            if has_byte(rem, 93u8) {
                let k = choose|k: int| 0 <= k < rem.len() && rem[k] == 93u8;
                assert(rem[k] == line@[start + k]);
            }
        }
        return None;
    }
    proof {
        assert forall|j: int| 0 <= j < end - start implies rem[j] != 93u8 by {
            assert(rem[j] == line@[start + j]);
        }
        assert(rem[end - start] == line@[end as int]);
        lemma_first_byte(rem, 93u8, end - start);
    }
    let body = crate::cpio::copy_range(line, start, end);
    assert(body@ =~= rem.take(end - start));
    match decode_utf8(body.as_slice()) {
        Some(text) => {
            let t = trim_chars(text.as_slice());
            parse_i32(t.as_slice())
        },
        None => None,
    }
}

/// Handles one line of guest output, as `guest_line` describes: returns
/// the exit code captured so far and whether to show the line.
#[verifier::rlimit(60)]
pub fn scan_guest_line(captured: Option<i32>, line: &[u8]) -> (r: (Option<i32>, bool))
    ensures
        r == guest_line(captured, line@),
{
    let tag = marker();
    match find_tag(line, tag.as_slice()) {
        Some(pos) => {
            let len = line.len();
            assert(pos + tag@.len() <= len);
            let code = code_after(line, pos + tag.len());
            match code {
                Some(c) => (Some(c), false),
                None => (captured, false),
            }
        },
        None => (captured, true),
    }
}

/// The exit code of a finished child: its own code, else 128 plus the
/// signal that ended it, else 1.
pub fn extract_process_exit_code(code: Option<i32>, signal: Option<i32>) -> (r: i32)
    requires
        code is None ==> (signal matches Some(s) ==> s <= i32::MAX - 128),
    ensures
        r == match code {
            Some(c) => c as int,
            None => match signal {
                Some(s) => 128 + s,
                None => 1,
            },
        },
{
    match code {
        Some(c) => c,
        None => match signal {
            Some(s) => 128 + s,
            None => 1,
        },
    }
}

/// The exit code of a guest run: the code the guest reported, else the
/// exit code of QEMU itself (its own code, else 128 plus the signal that
/// ended it, else 1).
pub fn guest_exit_code(captured: Option<i32>, code: Option<i32>, signal: Option<i32>) -> (r: i32)
    requires
        code is None ==> (signal matches Some(s) ==> s <= i32::MAX - 128),
    ensures
        r == match captured {
            Some(c) => c as int,
            None => match code {
                Some(c) => c as int,
                None => match signal {
                    Some(s) => 128 + s,
                    None => 1,
                },
            },
        },
{
    match captured {
        Some(c) => c,
        None => extract_process_exit_code(code, signal),
    }
}

/// The exit code captured after the guest printed these lines.
pub open spec fn captured_after(lines: Seq<Seq<u8>>) -> Option<i32>
    decreases lines.len(),
{
    if lines.len() == 0 {
        None
    } else {
        guest_line(captured_after(lines.drop_last()), lines.last()).0
    }
}

/// The code of the last line that reports a readable exit code, if any.
pub open spec fn last_reported(lines: Seq<Seq<u8>>) -> Option<i32>
    decreases lines.len(),
{
    if lines.len() == 0 {
        None
    } else if has_tag(lines.last()) && reported_code(lines.last()) is Some {
        reported_code(lines.last())
    } else {
        last_reported(lines.drop_last())
    }
}

/// Law: whatever the guest prints, the exit code captured is the one the
/// last readable report gave; marked lines with an unreadable code change
/// nothing.
pub proof fn lemma_last_report_wins(lines: Seq<Seq<u8>>)
    ensures
        captured_after(lines) == last_reported(lines),
    decreases lines.len(),
{
    if lines.len() > 0 {
        lemma_last_report_wins(lines.drop_last());
    }
}

proof fn lemma_first_tag_at(line: Seq<u8>, p: int)
    requires
        tag_at(line, p),
        forall|q: int| 0 <= q < p ==> !tag_at(line, q),
    ensures
        has_tag(line),
        first_tag(line) == p,
{
    assert(tag_at(line, p) && forall|q: int| 0 <= q < p ==> !tag_at(line, q));
    let f = first_tag(line);
    if f < p {
        assert(!tag_at(line, f));
    }
    if f > p {
        assert(!tag_at(line, p));
    }
}

/// ASCII text read back from its bytes as UTF-8 is the same text.
proof fn lemma_ascii_text_decodes(t: Seq<char>)
    requires
        forall|k: int| 0 <= k < t.len() ==> 0 <= (#[trigger] t[k]) as int <= 127,
    ensures
        utf8_decode(ascii_bytes(t)) == Some(t),
{
    assert forall|i: int| 0 <= i < t.len() implies '\0' <= #[trigger] t[i] <= '\u{7f}' by {
        assert(0 <= t[i] as int <= 127);
    }
    assert(vstd::utf8::is_ascii_chars(t));
    vstd::utf8::is_ascii_chars_encode_utf8(t);
    assert(ascii_bytes(t) =~= vstd::utf8::encode_utf8(t));
    vstd::utf8::encode_utf8_valid_utf8(t);
    vstd::utf8::encode_utf8_decode_utf8(t);
    reveal(utf8_decode);
}

/// What follows the marker reports `c` when it is the text of `c` and a
/// `]`, whatever comes after.
#[verifier::spinoff_prover]
proof fn lemma_code_text(c: i32, rest: Seq<u8>)
    ensures
        code_in(ascii_bytes(signed_dec_string(c as int)) + seq![93u8] + rest) == Some(c),
{
    reveal(code_in);
    let t = signed_dec_string(c as int);
    let b = ascii_bytes(t);
    let rem = b + seq![93u8] + rest;
    lemma_signed_dec_string_shape(c);
    assert forall|k: int| 0 <= k < t.len() implies 0 <= (#[trigger] t[k]) as int <= 127 by {
        assert(t[k] == '-' || 48 <= t[k] as int <= 57);
    }
    assert forall|j: int| 0 <= j < b.len() implies rem[j] != 93u8 by {
        assert(t[j] == '-' || 48 <= t[j] as int <= 57);
        assert(rem[j] == t[j] as u8);
    }
    assert(rem[b.len() as int] == 93u8);
    lemma_first_byte(rem, 93u8, b.len() as int);
    assert(rem.take(b.len() as int) =~= b);
    lemma_ascii_text_decodes(t);
    lemma_parse_i32_dec(c);
}

/// Law: a line in which the marker first appears followed by the decimal
/// text of an exit code `c` and `]` reports `c`, however many digits it
/// has, replaces the code captured before, and is not shown.
pub proof fn lemma_marker_reports_code(captured: Option<i32>, pre: Seq<u8>, c: i32, rest: Seq<u8>)
    requires
        forall|q: int|
            0 <= q < pre.len() ==> !tag_at(
                pre + exit_tag() + ascii_bytes(signed_dec_string(c as int)) + seq![93u8] + rest,
                q,
            ),
    ensures
        guest_line(
            captured,
            pre + exit_tag() + ascii_bytes(signed_dec_string(c as int)) + seq![93u8] + rest,
        ) == (Some(c), false),
{
    let tail = ascii_bytes(signed_dec_string(c as int)) + seq![93u8] + rest;
    let line = pre + exit_tag() + ascii_bytes(signed_dec_string(c as int)) + seq![93u8] + rest;
    assert(line =~= pre + exit_tag() + tail);
    let p = pre.len() as int;
    assert(line.subrange(p, p + exit_tag().len()) =~= exit_tag());
    lemma_first_tag_at(line, p);
    assert(line.skip(p + exit_tag().len()) =~= tail);
    lemma_code_text(c, rest);
}

} // verus!
