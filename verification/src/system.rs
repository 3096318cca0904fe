//! The decisions behind a full-system run: which QEMU options to pass, how
//! user overrides replace or extend them, the guest kernel command line and
//! how the guest reads the command back from it, whether KVM can be used,
//! and which CPU cluster the guest is pinned to.
use vstd::prelude::*;
use base64::Engine;
use crate::cli::{AccelMode, Architecture, accel_name};
use crate::cpu::{arm_selection, choice_index, select_arm_cluster, ClusterChoice, CpuCluster, CpuError};
use crate::text::{
    chars_eq, decimal_string, dec_string, is_white_space, str_chars, white_space, ascii_bytes,
    str_ascii_bytes,
};

verus! {

/// One QEMU option and its value.
pub type KvModel = (Seq<char>, Seq<char>);

/// The options that QEMU takes once: a later value replaces the earlier one
/// in place.
pub open spec fn singleton_opt(opt: Seq<char>) -> bool {
    opt == "-m"@ || opt == "-smp"@ || opt == "-accel"@ || opt == "-M"@ || opt == "-machine"@ || opt
        == "-cpu"@ || opt == "-L"@ || opt == "-kernel"@ || opt == "-initrd"@ || opt == "-append"@
}

/// Whether `opt` is one of the options QEMU takes once.
pub fn is_singleton_opt(opt: &[char]) -> (r: bool)
    ensures
        r == singleton_opt(opt@),
{
    chars_eq(opt, str_chars("-m").as_slice()) || chars_eq(opt, str_chars("-smp").as_slice())
        || chars_eq(opt, str_chars("-accel").as_slice()) || chars_eq(opt, str_chars("-M").as_slice())
        || chars_eq(opt, str_chars("-machine").as_slice()) || chars_eq(
        opt,
        str_chars("-cpu").as_slice(),
    ) || chars_eq(opt, str_chars("-L").as_slice()) || chars_eq(opt, str_chars("-kernel").as_slice())
        || chars_eq(opt, str_chars("-initrd").as_slice()) || chars_eq(
        opt,
        str_chars("-append").as_slice(),
    )
}

/// Index of the first option named `key`.
pub open spec fn first_key(args: Seq<KvModel>, key: Seq<char>) -> int {
    choose|i: int| 0 <= i < args.len() && args[i].0 == key && forall|j: int| 0 <= j < i ==> args[j].0 != key
}

/// Sets an option: a single-use option already present gets the new value
/// in place of its first occurrence; otherwise the option is appended.
pub open spec fn kv_set(args: Seq<KvModel>, key: Seq<char>, val: Seq<char>) -> Seq<KvModel> {
    if singleton_opt(key) && exists|i: int| 0 <= i < args.len() && args[i].0 == key {
        args.update(first_key(args, key), (key, val))
    } else {
        args.push((key, val))
    }
}

/// The option list as plain text pairs.
pub open spec fn kv_view(args: Seq<(Vec<char>, Vec<char>)>) -> Seq<KvModel> {
    args.map_values(|p: (Vec<char>, Vec<char>)| (p.0@, p.1@))
}

fn copy_chars(s: &[char]) -> (r: Vec<char>)
    ensures
        r@ == s@,
{
    let mut out: Vec<char> = Vec::new();
    let mut i: usize = 0;
    while i < s.len()
        invariant
            i <= s@.len(),
            out@ == s@.subrange(0, i as int),
        decreases s@.len() - i,
    {
        out.push(s[i]);
        i = i + 1;
        assert(out@ =~= s@.subrange(0, i as int));
    }
    assert(out@ =~= s@);
    out
}

/// Sets an option as `kv_set` describes.
pub fn set_kv_arg(args: &mut Vec<(Vec<char>, Vec<char>)>, key: &[char], val: &[char])
    ensures
        kv_view(final(args)@) == kv_set(kv_view(old(args)@), key@, val@),
{
    let ghost before = kv_view(args@);
    if is_singleton_opt(key) {
        let mut i: usize = 0;
        while i < args.len()
            invariant
                i <= args@.len(),
                before == kv_view(args@),
                before == kv_view(old(args)@),
                singleton_opt(key@),
                forall|j: int| 0 <= j < i ==> before[j].0 != key@,
            decreases args@.len() - i,
        {
            if chars_eq(args[i].0.as_slice(), key) {
                proof {
                    assert(before[i as int].0 == key@);
                    let f = first_key(before, key@);
                    assert(0 <= i < before.len() && before[i as int].0 == key@ && forall|j: int| 0 <= j < i ==> before[j].0 != key@);
                    if f < i {
                        assert(before[f].0 != key@);
                    }
                    if f > i {
                        assert(before[i as int].0 != key@);
                    }
                    assert(f == i);
                    assert(exists|k: int| 0 <= k < before.len() && before[k].0 == key@);
                    assert(kv_set(before, key@, val@) == before.update(i as int, (key@, val@)));
                }
                let pair = (copy_chars(key), copy_chars(val));
                args.set(i, pair);
                assert(kv_view(args@) =~= before.update(i as int, (key@, val@)));
                return;
            }
            assert(before[i as int].0 != key@);
            i = i + 1;
        }
    }
    let pair = (copy_chars(key), copy_chars(val));
    args.push(pair);
    assert(kv_view(args@) =~= before.push((key@, val@)));
}

/// Splitting text at white space: the finished words and the word being
/// read.
pub open spec fn ws_split_state(s: Seq<char>) -> (Seq<Seq<char>>, Seq<char>)
    decreases s.len(),
{
    if s.len() == 0 {
        (Seq::empty(), Seq::empty())
    } else {
        let (words, cur) = ws_split_state(s.drop_last());
        if is_white_space(s.last()) {
            (if cur.len() > 0 { words.push(cur) } else { words }, Seq::empty())
        } else {
            (words, cur.push(s.last()))
        }
    }
}

/// `str::split_whitespace`: the non-empty runs of non-white-space
/// characters, in order.
pub open spec fn split_ws(s: Seq<char>) -> Seq<Seq<char>> {
    let (words, cur) = ws_split_state(s);
    if cur.len() > 0 {
        words.push(cur)
    } else {
        words
    }
}

/// The words of several texts, one text after the other.
pub open spec fn split_all_ws(items: Seq<Seq<char>>) -> Seq<Seq<char>>
    decreases items.len(),
{
    if items.len() == 0 {
        Seq::empty()
    } else {
        split_all_ws(items.drop_last()) + split_ws(items.last())
    }
}

/// The texts held by a vector of character vectors.
pub open spec fn texts_view(v: Seq<Vec<char>>) -> Seq<Seq<char>> {
    v.map_values(|x: Vec<char>| x@)
}

/// Appends the white-space separated words of `s` to `out`.
fn push_words(out: &mut Vec<Vec<char>>, s: &[char])
    ensures
        texts_view(final(out)@) == texts_view(old(out)@) + split_ws(s@),
{
    let ghost base = texts_view(out@);
    let mut cur: Vec<char> = Vec::new();
    let mut i: usize = 0;
    assert(s@.take(0) =~= Seq::<char>::empty());
    assert(texts_view(out@) =~= base + Seq::<Seq<char>>::empty());
    while i < s.len()
        invariant
            i <= s@.len(),
            texts_view(out@) == base + ws_split_state(s@.take(i as int)).0,
            cur@ == ws_split_state(s@.take(i as int)).1,
        decreases s@.len() - i,
    {
        let ghost words = ws_split_state(s@.take(i as int)).0;
        let ghost old_cur = cur@;
        let ghost old_out = texts_view(out@);
        assert(s@.take(i + 1).drop_last() =~= s@.take(i as int));
        if white_space(s[i]) {
            if cur.len() > 0 {
                let done = cur;
                out.push(done);
                assert(texts_view(out@) =~= old_out.push(old_cur));
                assert(base + words.push(old_cur) =~= (base + words).push(old_cur));
            }
            cur = Vec::new();
        } else {
            cur.push(s[i]);
        }
        i = i + 1;
    }
    assert(s@.take(s@.len() as int) =~= s@);
    if cur.len() > 0 {
        let ghost words = ws_split_state(s@).0;
        let ghost old_cur = cur@;
        let ghost old_out = texts_view(out@);
        out.push(cur);
        assert(texts_view(out@) =~= old_out.push(old_cur));
        assert(base + words.push(old_cur) =~= (base + words).push(old_cur));
    }
}

/// The words of the QEMU override arguments, in order.
pub fn split_overrides(items: &[Vec<char>]) -> (r: Vec<Vec<char>>)
    ensures
        texts_view(r@) == split_all_ws(texts_view(items@)),
{
    let mut out: Vec<Vec<char>> = Vec::new();
    let mut i: usize = 0;
    assert(texts_view(items@).take(0) =~= Seq::<Seq<char>>::empty());
    assert(texts_view(out@) =~= Seq::<Seq<char>>::empty());
    while i < items.len()
        invariant
            i <= items@.len(),
            texts_view(out@) == split_all_ws(texts_view(items@).take(i as int)),
        decreases items@.len() - i,
    {
        push_words(&mut out, items[i].as_slice());
        proof {
            let t = texts_view(items@).take(i + 1);
            assert(t.drop_last() =~= texts_view(items@).take(i as int));
            assert(t.last() == items@[i as int]@);
        }
        i = i + 1;
    }
    assert(texts_view(items@).take(items@.len() as int) =~= texts_view(items@));
    out
}

/// Whether a word starts with `-`.
pub open spec fn dashed(w: Seq<char>) -> bool {
    w.len() > 0 && w[0] == '-'
}

/// Applies the override words from position `i` on: `--` is dropped; a
/// dashed word followed by a word that is neither dashed nor `--` sets that
/// option to that value; any other word is passed through as a flag.
pub open spec fn apply_overrides(
    kv: Seq<KvModel>,
    extra: Seq<Seq<char>>,
    words: Seq<Seq<char>>,
    i: nat,
) -> (Seq<KvModel>, Seq<Seq<char>>)
    decreases words.len() - i,
{
    if i >= words.len() {
        (kv, extra)
    } else if words[i as int] == "--"@ {
        apply_overrides(kv, extra, words, i + 1)
    } else if dashed(words[i as int]) && i + 1 < words.len() && !dashed(words[i + 1int]) && words[i + 1int] != "--"@ {
        apply_overrides(kv_set(kv, words[i as int], words[i + 1int]), extra, words, i + 2)
    } else {
        apply_overrides(kv, extra.push(words[i as int]), words, i + 1)
    }
}

fn starts_with_dash(w: &[char]) -> (r: bool)
    ensures
        r == dashed(w@),
{
    w.len() > 0 && w[0] == '-'
}

/// Applies override words to the option list and returns the flags that
/// pass through unchanged.
pub fn apply_qemu_overrides(args: &mut Vec<(Vec<char>, Vec<char>)>, words: &[Vec<char>]) -> (extra: Vec<
    Vec<char>,
>)
    ensures
        (kv_view(final(args)@), texts_view(extra@)) == apply_overrides(
            kv_view(old(args)@),
            Seq::empty(),
            texts_view(words@),
            0,
        ),
{
    let ghost w = texts_view(words@);
    let ghost goal = apply_overrides(kv_view(args@), Seq::empty(), w, 0);
    let mut extra: Vec<Vec<char>> = Vec::new();
    let dd = str_chars("--");
    let mut i: usize = 0;
    assert(texts_view(extra@) =~= Seq::<Seq<char>>::empty());
    while i < words.len()
        invariant
            i <= words@.len() + 1,
            w == texts_view(words@),
            dd@ == "--"@,
            goal == apply_overrides(kv_view(args@), texts_view(extra@), w, i as nat),
        decreases words@.len() + 1 - i,
    {
        let flag = words[i].as_slice();
        assert(w[i as int] == flag@);
        if chars_eq(flag, dd.as_slice()) {
            i = i + 1;
            continue;
        }
        if starts_with_dash(flag) && i + 1 < words.len() {
            let value = words[i + 1].as_slice();
            assert(w[i + 1] == value@);
            if !starts_with_dash(value) && !chars_eq(value, dd.as_slice()) {
                set_kv_arg(args, flag, value);
                i = i + 2;
                continue;
            }
        }
        let ghost old_extra = texts_view(extra@);
        extra.push(copy_chars(flag));
        assert(texts_view(extra@) =~= old_extra.push(flag@));
        i = i + 1;
    }
    extra
}

/// Base64 with the standard alphabet: the character for a six-bit value.
pub open spec fn b64_char(v: nat) -> u8 {
    if v < 26 {
        (65 + v) as u8
    } else if v < 52 {
        (97 + v - 26) as u8
    } else if v < 62 {
        (48 + v - 52) as u8
    } else if v == 62 {
        43u8
    } else {
        47u8
    }
}

/// Base64 encoding (RFC 4648) with the standard alphabet and `=` padding:
/// each three bytes become four characters; a final one or two bytes
/// become two or three characters and padding.
pub open spec fn base64_standard(data: Seq<u8>) -> Seq<u8>
    decreases data.len(),
{
    if data.len() == 0 {
        Seq::empty()
    } else if data.len() == 1 {
        let b0 = data[0] as nat;
        seq![b64_char(b0 / 4), b64_char((b0 % 4) * 16), 61u8, 61u8]
    } else if data.len() == 2 {
        let b0 = data[0] as nat;
        let b1 = data[1] as nat;
        seq![b64_char(b0 / 4), b64_char((b0 % 4) * 16 + b1 / 16), b64_char((b1 % 16) * 4), 61u8]
    } else {
        let b0 = data[0] as nat;
        let b1 = data[1] as nat;
        let b2 = data[2] as nat;
        seq![
            b64_char(b0 / 4),
            b64_char((b0 % 4) * 16 + b1 / 16),
            b64_char((b1 % 16) * 4 + b2 / 64),
            b64_char(b2 % 64),
        ] + base64_standard(data.subrange(3, data.len() as int))
    }
}

/// Calls `base64::engine::general_purpose::STANDARD.encode`. Trusted: the
/// result is the RFC 4648 encoding with the standard alphabet and padding,
/// which is what that engine is documented to produce. The call panics
/// when the encoded length does not fit in `usize`, which `requires` rules
/// out.
#[verifier::external_body]
fn encode_base64(data: &[u8]) -> (r: Vec<u8>)
    requires
        4 * ((data@.len() + 2) / 3) <= usize::MAX,
    ensures
        r@ == base64_standard(data@),
{
    base64::engine::general_purpose::STANDARD.encode(data).into_bytes()
}

/// An argument with each `'` replaced by `'\''`.
pub open spec fn escape_quotes(a: Seq<u8>) -> Seq<u8>
    decreases a.len(),
{
    if a.len() == 0 {
        Seq::empty()
    } else {
        escape_quotes(a.drop_last()) + if a.last() == 39u8 {
            seq![39u8, 92u8, 39u8, 39u8]
        } else {
            seq![a.last()]
        }
    }
}

/// An argument quoted for the guest shell: `'...'` around the escaped text.
pub open spec fn quote_arg(a: Seq<u8>) -> Seq<u8> {
    seq![39u8] + escape_quotes(a) + seq![39u8]
}

/// The quoted arguments joined with single spaces.
pub open spec fn join_quoted(args: Seq<Seq<u8>>) -> Seq<u8>
    decreases args.len(),
{
    if args.len() == 0 {
        Seq::empty()
    } else if args.len() == 1 {
        quote_arg(args[0])
    } else {
        join_quoted(args.drop_last()) + seq![32u8] + quote_arg(args.last())
    }
}

/// The kernel command line without a command: serial console, quiet boot,
/// reboot (and so exit) on panic.
pub open spec fn console_cmdline(arch: Architecture) -> Seq<u8> {
    match arch {
        Architecture::Aarch64 => ascii_bytes("console=ttyAMA0,115200 quiet panic=-1"@),
        Architecture::X86_64 => ascii_bytes("console=ttyS0 quiet panic=-1"@),
    }
}

/// The kernel command line: the console settings, then, when there is a
/// command, ` qemucmd64=` and the base64 of the quoted command.
pub open spec fn kernel_cmdline(arch: Architecture, args: Seq<Seq<u8>>) -> Seq<u8> {
    if args.len() == 0 {
        console_cmdline(arch)
    } else {
        console_cmdline(arch) + ascii_bytes(" qemucmd64="@) + base64_standard(join_quoted(args))
    }
}

/// Whether the base64 form of the quoted command has a length that fits in
/// `usize` (the encoder panics otherwise).
pub open spec fn command_encodable(args: Seq<Seq<u8>>) -> bool {
    4 * ((join_quoted(args).len() + 2) / 3) <= usize::MAX
}

/// Errors of the full-system planning.
#[derive(Debug, PartialEq, Eq, Structural)]
pub enum SystemError {
    /// KVM was asked for but the host cannot run this guest with it.
    KvmUnavailable,
    /// The quoted command is too long for its base64 form to fit in memory.
    CommandTooLong,
}

fn push_quoted(out: &mut Vec<u8>, a: &[u8])
    ensures
        final(out)@ == old(out)@ + quote_arg(a@),
{
    let ghost start = out@;
    out.push(39u8);
    let mut i: usize = 0;
    assert(a@.take(0) =~= Seq::<u8>::empty());
    assert(out@ =~= start + seq![39u8] + escape_quotes(a@.take(0)));
    while i < a.len()
        invariant
            i <= a@.len(),
            out@ == start + seq![39u8] + escape_quotes(a@.take(i as int)),
        decreases a@.len() - i,
    {
        let ghost before = out@;
        assert(a@.take(i + 1).drop_last() =~= a@.take(i as int));
        if a[i] == 39u8 {
            out.push(39u8);
            out.push(92u8);
            out.push(39u8);
            out.push(39u8);
            assert(out@ =~= before + seq![39u8, 92u8, 39u8, 39u8]);
        } else {
            out.push(a[i]);
            assert(out@ =~= before + seq![a@[i as int]]);
        }
        i = i + 1;
        assert(out@ =~= start + seq![39u8] + escape_quotes(a@.take(i as int)));
    }
    assert(a@.take(a@.len() as int) =~= a@);
    out.push(39u8);
    assert(out@ =~= start + quote_arg(a@));
}

/// The quoted command, arguments joined with spaces.
pub fn quote_command(args: &[Vec<u8>]) -> (r: Vec<u8>)
    ensures
        r@ == join_quoted(crate::overlay::names_view(args@)),
{
    let ghost av = crate::overlay::names_view(args@);
    let mut out: Vec<u8> = Vec::new();
    let mut i: usize = 0;
    assert(av.take(0) =~= Seq::<Seq<u8>>::empty());
    while i < args.len()
        invariant
            i <= args@.len(),
            av == crate::overlay::names_view(args@),
            out@ == join_quoted(av.take(i as int)),
        decreases args@.len() - i,
    {
        let ghost t = av.take(i + 1);
        assert(t.drop_last() =~= av.take(i as int));
        assert(t.last() == args@[i as int]@);
        if i > 0 {
            out.push(32u8);
        } else {
            assert(out@ =~= Seq::<u8>::empty());
        }
        push_quoted(&mut out, args[i].as_slice());
        proof {
            if i == 0 {
                assert(t.len() == 1);
                assert(out@ =~= quote_arg(t[0]));
            }
        }
        i = i + 1;
    }
    assert(av.take(args@.len() as int) =~= av);
    out
}

/// The guest kernel command line for a run of `cmd_args`.
pub fn build_kernel_cmdline(arch: Architecture, cmd_args: &[Vec<u8>]) -> (r: Result<Vec<u8>, SystemError>)
    ensures
        match r {
            Ok(line) => command_encodable(crate::overlay::names_view(cmd_args@)) && line@
                == kernel_cmdline(arch, crate::overlay::names_view(cmd_args@)),
            Err(e) => !command_encodable(crate::overlay::names_view(cmd_args@)) && e
                == SystemError::CommandTooLong,
        },
{
    let ghost av = crate::overlay::names_view(cmd_args@);
    let mut line = match arch {
        Architecture::Aarch64 => str_ascii_bytes("console=ttyAMA0,115200 quiet panic=-1"),
        Architecture::X86_64 => str_ascii_bytes("console=ttyS0 quiet panic=-1"),
    };
    let quoted = quote_command(cmd_args);
    let n = quoted.len();
    let chunks: usize = n / 3 + if n % 3 > 0 { 1 } else { 0 };
    assert(chunks == (n + 2) / 3);
    if chunks > usize::MAX / 4 {
        return Err(SystemError::CommandTooLong);
    }
    if cmd_args.len() == 0 {
        assert(av.len() == 0);
        return Ok(line);
    }
    let tag = str_ascii_bytes(" qemucmd64=");
    crate::bytes::push_all(&mut line, tag.as_slice());
    let encoded = encode_base64(quoted.as_slice());
    crate::bytes::push_all(&mut line, encoded.as_slice());
    Ok(line)
}

/// What a full-system run is asked to do, as the command line gives it.
pub struct SystemOptions {
    pub arch: Architecture,
    pub accel_mode: AccelMode,
    /// The `HOST[:GUEST]` mount arguments, as given.
    pub mounts: Vec<Vec<u8>>,
    pub no_cpu_topo: bool,
    /// The 1-based CPU part to pin to; 0 turns pinning off.
    pub cpu_part: Option<usize>,
    /// The vCPU count; `"0"` leaves `-smp` out.
    pub cpu: Option<Vec<char>>,
    /// The memory size; `"0"` leaves `-m` out.
    pub mem: Option<Vec<char>>,
    /// Extra QEMU arguments, each split at white space.
    pub qemu_overrides: Vec<Vec<char>>,
    /// The command to run in the guest; empty for an interactive shell.
    pub cmd_args: Vec<Vec<u8>>,
}

/// The text held by an optional character vector.
pub open spec fn opt_text(o: Option<Vec<char>>) -> Option<Seq<char>> {
    match o {
        Some(v) => Some(v@),
        None => None,
    }
}

/// The QEMU machine type of a guest architecture.
pub open spec fn machine_of(arch: Architecture) -> Seq<char> {
    match arch {
        Architecture::X86_64 => "microvm,isa-serial=on,rtc=on"@,
        Architecture::Aarch64 => "virt"@,
    }
}

/// The CPU model: the host's own under KVM, the most capable emulated one
/// otherwise.
pub open spec fn cpu_model(accel: AccelMode) -> Seq<char> {
    match accel {
        AccelMode::Kvm => "host"@,
        AccelMode::Tcg => "max"@,
    }
}

/// The `-smp` value: the count asked for (none for `"0"`), else the size of
/// the pinned cluster, else the number of online host CPUs when that is
/// known, else 2.
pub open spec fn smp_value(cpu: Option<Seq<char>>, cluster_cores: Option<usize>, online_cpus: i64) -> Option<
    Seq<char>,
> {
    match cpu {
        Some(c) => if c == "0"@ {
            None
        } else {
            Some(c)
        },
        None => match cluster_cores {
            Some(n) => Some(dec_string(n as nat)),
            None => if online_cpus > 0 {
                Some(dec_string(online_cpus as nat))
            } else {
                Some("2"@)
            },
        },
    }
}

/// The `-m` value: the size asked for (none for `"0"`), else 1024M.
pub open spec fn mem_value(mem: Option<Seq<char>>) -> Option<Seq<char>> {
    match mem {
        Some(m) => if m == "0"@ {
            None
        } else {
            Some(m)
        },
        None => Some("1024M"@),
    }
}

/// An optional option: nothing, or the one pair.
pub open spec fn opt_pair(key: Seq<char>, v: Option<Seq<char>>) -> Seq<KvModel> {
    match v {
        Some(x) => seq![(key, x)],
        None => Seq::empty(),
    }
}

/// The options every run starts from, in this order: machine, CPU model,
/// accelerator, vCPUs and memory where they are set, firmware directory.
pub open spec fn base_options(
    arch: Architecture,
    accel: AccelMode,
    smp: Option<Seq<char>>,
    mem: Option<Seq<char>>,
    bios_dir: Seq<char>,
) -> Seq<KvModel> {
    seq![("-M"@, machine_of(arch)), ("-cpu"@, cpu_model(accel)), ("-accel"@, accel_name(accel))]
        + opt_pair("-smp"@, smp) + opt_pair("-m"@, mem) + seq![("-L"@, bios_dir)]
}

/// The QEMU invocation of a full-system run, less the file paths: the
/// options with their values, the flags passed through as they are, and
/// the guest kernel command line.
pub struct QemuPlan {
    pub kv_args: Vec<(Vec<char>, Vec<char>)>,
    pub extra_flags: Vec<Vec<char>>,
    pub kernel_cmdline: Vec<u8>,
}

fn push_pair(args: &mut Vec<(Vec<char>, Vec<char>)>, key: &str, val: &[char])
    ensures
        kv_view(final(args)@) == kv_view(old(args)@).push((key@, val@)),
{
    let ghost before = kv_view(args@);
    let pair = (str_chars(key), copy_chars(val));
    args.push(pair);
    assert(kv_view(args@) =~= before.push((key@, val@)));
}

/// Plans a full-system run: the base options, the overrides applied on top
/// of them, and the kernel command line. `cluster_cores` is the size of
/// the CPU cluster the guest is pinned to, `online_cpus` what the host
/// reports as online, `bios_dir` where the firmware was unpacked.
pub fn plan_qemu(opts: &SystemOptions, cluster_cores: Option<usize>, online_cpus: i64, bios_dir: &[char]) -> (r:
    Result<QemuPlan, SystemError>)
    ensures
        match r {
            Ok(plan) => {
                let (kv, extra) = apply_overrides(
                    base_options(
                        opts.arch,
                        opts.accel_mode,
                        smp_value(opt_text(opts.cpu), cluster_cores, online_cpus),
                        mem_value(opt_text(opts.mem)),
                        bios_dir@,
                    ),
                    Seq::empty(),
                    split_all_ws(texts_view(opts.qemu_overrides@)),
                    0,
                );
                &&& command_encodable(crate::overlay::names_view(opts.cmd_args@))
                &&& kv_view(plan.kv_args@) == kv
                &&& texts_view(plan.extra_flags@) == extra
                &&& plan.kernel_cmdline@ == kernel_cmdline(
                    opts.arch,
                    crate::overlay::names_view(opts.cmd_args@),
                )
            },
            Err(e) => !command_encodable(crate::overlay::names_view(opts.cmd_args@)) && e
                == SystemError::CommandTooLong,
        },
{
    let kernel_line = match build_kernel_cmdline(opts.arch, opts.cmd_args.as_slice()) {
        Ok(line) => line,
        Err(e) => {
            return Err(e);
        },
    };
    let ghost smp = smp_value(opt_text(opts.cpu), cluster_cores, online_cpus);
    let ghost mem = mem_value(opt_text(opts.mem));
    let mut kv: Vec<(Vec<char>, Vec<char>)> = Vec::new();
    let machine = match opts.arch {
        Architecture::X86_64 => str_chars("microvm,isa-serial=on,rtc=on"),
        Architecture::Aarch64 => str_chars("virt"),
    };
    push_pair(&mut kv, "-M", machine.as_slice());
    let model = match opts.accel_mode {
        AccelMode::Kvm => str_chars("host"),
        AccelMode::Tcg => str_chars("max"),
    };
    push_pair(&mut kv, "-cpu", model.as_slice());
    let accel = str_chars(opts.accel_mode.as_str());
    push_pair(&mut kv, "-accel", accel.as_slice());
    let ghost head = kv_view(kv@);
    assert(head =~= seq![
        ("-M"@, machine_of(opts.arch)),
        ("-cpu"@, cpu_model(opts.accel_mode)),
        ("-accel"@, accel_name(opts.accel_mode)),
    ]);
    let smp_text: Option<Vec<char>> = match &opts.cpu {
        Some(c) => {
            if chars_eq(c.as_slice(), str_chars("0").as_slice()) {
                None
            } else {
                Some(copy_chars(c.as_slice()))
            }
        },
        None => match cluster_cores {
            Some(n) => Some(decimal_string(n as u64)),
            None => {
                if online_cpus > 0 {
                    Some(decimal_string(online_cpus as u64))
                } else {
                    Some(str_chars("2"))
                }
            },
        },
    };
    assert(opt_text(smp_text) == smp);
    if let Some(v) = &smp_text {
        push_pair(&mut kv, "-smp", v.as_slice());
    }
    assert(kv_view(kv@) =~= head + opt_pair("-smp"@, smp));
    let mem_text: Option<Vec<char>> = match &opts.mem {
        Some(m) => {
            if chars_eq(m.as_slice(), str_chars("0").as_slice()) {
                None
            } else {
                Some(copy_chars(m.as_slice()))
            }
        },
        None => Some(str_chars("1024M")),
    };
    assert(opt_text(mem_text) == mem);
    if let Some(v) = &mem_text {
        push_pair(&mut kv, "-m", v.as_slice());
    }
    assert(kv_view(kv@) =~= head + opt_pair("-smp"@, smp) + opt_pair("-m"@, mem));
    push_pair(&mut kv, "-L", bios_dir);
    assert(kv_view(kv@) =~= base_options(opts.arch, opts.accel_mode, smp, mem, bios_dir@));
    let words = split_overrides(opts.qemu_overrides.as_slice());
    let extra = apply_qemu_overrides(&mut kv, words.as_slice());
    Ok(QemuPlan { kv_args: kv, extra_flags: extra, kernel_cmdline: kernel_line })
}

/// Whether the guest can run under the acceleration asked for: KVM needs a
/// host of the guest's own architecture whose `/dev/kvm` opens for reading
/// and writing; emulation always runs.
pub open spec fn kvm_ok(arch: Architecture, accel: AccelMode, host_arch: Option<Architecture>, kvm_device_usable: bool) -> bool {
    accel == AccelMode::Kvm ==> (host_arch == Some(arch) && kvm_device_usable)
}

/// Refuses KVM where the host cannot provide it for this guest.
/// `kvm_device_usable` tells whether `/dev/kvm` opened for reading and
/// writing; it matters only when the host architecture matches.
pub fn check_kvm(arch: Architecture, accel: AccelMode, host_arch: Option<Architecture>, kvm_device_usable: bool) -> (r:
    Result<(), SystemError>)
    ensures
        r is Ok <==> kvm_ok(arch, accel, host_arch, kvm_device_usable),
        r matches Err(e) ==> e == SystemError::KvmUnavailable,
{
    match accel {
        AccelMode::Kvm => {
            let same = match host_arch {
                Some(h) => h == arch,
                None => false,
            };
            if same && kvm_device_usable {
                Ok(())
            } else {
                Err(SystemError::KvmUnavailable)
            }
        },
        AccelMode::Tcg => Ok(()),
    }
}

/// Whether the run pins the guest to a CPU cluster of the host: only an
/// ARM guest under KVM, where big and little cores differ.
pub open spec fn pins_cluster(arch: Architecture, accel: AccelMode) -> bool {
    arch == Architecture::Aarch64 && accel == AccelMode::Kvm
}

/// Whether the host's CPU clusters need to be read for this run.
pub fn needs_cluster_detection(arch: Architecture, accel: AccelMode) -> (r: bool)
    ensures
        r == pins_cluster(arch, accel),
{
    match (arch, accel) {
        (Architecture::Aarch64, AccelMode::Kvm) => true,
        _ => false,
    }
}

/// The cluster choice of a run: with several clusters, the choice
/// `arm_selection` describes; with one, that one unless pinning is turned
/// off (and nothing is reported); otherwise none.
pub open spec fn vm_cluster(
    arch: Architecture,
    accel: AccelMode,
    count: usize,
    no_cpu_topo: bool,
    cpu_part: Option<usize>,
) -> Result<ClusterChoice, CpuError> {
    if !pins_cluster(arch, accel) {
        Ok(ClusterChoice::Unpinned)
    } else if count > 1 {
        arm_selection(count, no_cpu_topo, cpu_part)
    } else if count == 1 && !no_cpu_topo {
        Ok(ClusterChoice::Default { announced: false })
    } else {
        Ok(ClusterChoice::Unpinned)
    }
}

/// Chooses the cluster the guest is pinned to, as `vm_cluster` describes.
pub fn vm_cluster_choice(opts: &SystemOptions, clusters: &[CpuCluster]) -> (r: Result<ClusterChoice, CpuError>)
    ensures
        r == vm_cluster(opts.arch, opts.accel_mode, clusters@.len() as usize, opts.no_cpu_topo, opts.cpu_part),
        r matches Ok(c) ==> (choice_index(c) matches Some(i) ==> i < clusters@.len()),
{
    if !needs_cluster_detection(opts.arch, opts.accel_mode) {
        return Ok(ClusterChoice::Unpinned);
    }
    if clusters.len() > 1 {
        select_arm_cluster(clusters, opts.no_cpu_topo, opts.cpu_part)
    } else if clusters.len() == 1 && !opts.no_cpu_topo {
        Ok(ClusterChoice::Default { announced: false })
    } else {
        Ok(ClusterChoice::Unpinned)
    }
}

/// No single-use option occurs twice in the list.
pub open spec fn singletons_once(args: Seq<KvModel>) -> bool {
    forall|i: int, j: int|
        0 <= i < j < args.len() && #[trigger] args[i].0 == #[trigger] args[j].0 ==> !singleton_opt(args[i].0)
}

/// Law: setting an option keeps every single-use option to at most one
/// occurrence.
pub proof fn lemma_kv_set_singletons_once(args: Seq<KvModel>, key: Seq<char>, val: Seq<char>)
    requires
        singletons_once(args),
    ensures
        singletons_once(kv_set(args, key, val)),
{
    if singleton_opt(key) && exists|i: int| 0 <= i < args.len() && args[i].0 == key {
        let f = first_key(args, key);
        let w = choose|i: int| 0 <= i < args.len() && args[i].0 == key;
        lemma_first_key_exists(args, key, w);
        let r = args.update(f, (key, val));
        assert forall|i: int, j: int| 0 <= i < j < r.len() && #[trigger] r[i].0 == #[trigger] r[j].0 implies !singleton_opt(r[i].0) by {
            assert(r[i].0 == args[i].0);
            assert(r[j].0 == args[j].0);
        }
    } else {
        let r = args.push((key, val));
        assert forall|i: int, j: int| 0 <= i < j < r.len() && #[trigger] r[i].0 == #[trigger] r[j].0 implies !singleton_opt(r[i].0) by {
            if j == args.len() {
                assert(args[i].0 == key);
            }
        }
    }
}

proof fn lemma_first_key_exists(args: Seq<KvModel>, key: Seq<char>, w: int)
    requires
        0 <= w < args.len(),
        args[w].0 == key,
    ensures
        0 <= first_key(args, key) < args.len(),
        args[first_key(args, key)].0 == key,
    decreases w,
{
    if forall|j: int| 0 <= j < w ==> args[j].0 != key {
        assert(0 <= w < args.len() && args[w].0 == key && forall|j: int| 0 <= j < w ==> args[j].0 != key);
    } else {
        let v = choose|j: int| 0 <= j < w && args[j].0 == key;
        lemma_first_key_exists(args, key, v);
    }
}

proof fn lemma_push_new_key(args: Seq<KvModel>, key: Seq<char>, val: Seq<char>)
    requires
        singletons_once(args),
        forall|k: int| 0 <= k < args.len() ==> #[trigger] args[k].0 != key,
    ensures
        singletons_once(args.push((key, val))),
{
    let r = args.push((key, val));
    assert forall|i: int, j: int| 0 <= i < j < r.len() && #[trigger] r[i].0 == #[trigger] r[j].0 implies !singleton_opt(r[i].0) by {
        if j == args.len() {
            assert(args[i].0 != key);
        }
    }
}

proof fn lemma_overrides_singletons_once(kv: Seq<KvModel>, extra: Seq<Seq<char>>, words: Seq<Seq<char>>, i: nat)
    requires
        singletons_once(kv),
    ensures
        singletons_once(apply_overrides(kv, extra, words, i).0),
    decreases words.len() - i,
{
    if i < words.len() {
        if words[i as int] == "--"@ {
            lemma_overrides_singletons_once(kv, extra, words, i + 1);
        } else if dashed(words[i as int]) && i + 1 < words.len() && !dashed(words[i + 1int]) && words[i + 1int]
            != "--"@ {
            lemma_kv_set_singletons_once(kv, words[i as int], words[i + 1int]);
            lemma_overrides_singletons_once(kv_set(kv, words[i as int], words[i + 1int]), extra, words, i + 2);
        } else {
            lemma_overrides_singletons_once(kv, extra.push(words[i as int]), words, i + 1);
        }
    }
}

/// Law: in the options of a planned run, whatever the overrides, every
/// single-use option (`-m`, `-smp`, `-accel`, `-M`, `-machine`, `-cpu`,
/// `-L`, `-kernel`, `-initrd`, `-append`) occurs at most once.
pub proof fn lemma_plan_singletons_once(
    arch: Architecture,
    accel: AccelMode,
    smp: Option<Seq<char>>,
    mem: Option<Seq<char>>,
    bios_dir: Seq<char>,
    words: Seq<Seq<char>>,
)
    ensures
        singletons_once(apply_overrides(base_options(arch, accel, smp, mem, bios_dir), Seq::empty(), words, 0).0),
{
    reveal_strlit("-M");
    reveal_strlit("-cpu");
    reveal_strlit("-accel");
    reveal_strlit("-smp");
    reveal_strlit("-m");
    reveal_strlit("-L");
    let b = base_options(arch, accel, smp, mem, bios_dir);
    let s0 = Seq::<KvModel>::empty();
    let s1 = s0.push(("-M"@, machine_of(arch)));
    lemma_push_new_key(s0, "-M"@, machine_of(arch));
    assert("-M"@.len() != "-cpu"@.len());
    lemma_push_new_key(s1, "-cpu"@, cpu_model(accel));
    let s2 = s1.push(("-cpu"@, cpu_model(accel)));
    assert("-M"@.len() != "-accel"@.len() && "-cpu"@.len() != "-accel"@.len());
    lemma_push_new_key(s2, "-accel"@, accel_name(accel));
    let s3 = s2.push(("-accel"@, accel_name(accel)));
    let s4 = s3 + opt_pair("-smp"@, smp);
    if let Some(v) = smp {
        assert("-M"@.len() != "-smp"@.len() && "-accel"@.len() != "-smp"@.len() && "-cpu"@[1] != "-smp"@[1]);
        lemma_push_new_key(s3, "-smp"@, v);
        assert(s4 =~= s3.push(("-smp"@, v)));
    } else {
        assert(s4 =~= s3);
    }
    let s5 = s4 + opt_pair("-m"@, mem);
    if let Some(v) = mem {
        assert("-M"@[1] != "-m"@[1] && "-cpu"@.len() != "-m"@.len() && "-accel"@.len() != "-m"@.len()
            && "-smp"@.len() != "-m"@.len());
        lemma_push_new_key(s4, "-m"@, v);
        assert(s5 =~= s4.push(("-m"@, v)));
    } else {
        assert(s5 =~= s4);
    }
    assert("-M"@[1] != "-L"@[1] && "-m"@[1] != "-L"@[1] && "-cpu"@.len() != "-L"@.len() && "-accel"@.len()
        != "-L"@.len() && "-smp"@.len() != "-L"@.len());
    lemma_push_new_key(s5, "-L"@, bios_dir);
    assert(b =~= s5.push(("-L"@, bios_dir)));
    lemma_overrides_singletons_once(b, Seq::empty(), words, 0);
}

/// What a POSIX shell has read so far of a line made of single-quoted
/// strings, backslash escapes, blanks and plain characters: the finished
/// words, the word being read, whether a word has started, and whether a
/// quote or an escape is open.
pub struct ShellRead {
    pub words: Seq<Seq<u8>>,
    pub cur: Seq<u8>,
    pub in_word: bool,
    pub quoted: bool,
    pub escaped: bool,
}

/// Nothing read yet.
pub open spec fn shell_start() -> ShellRead {
    ShellRead { words: Seq::empty(), cur: Seq::empty(), in_word: false, quoted: false, escaped: false }
}

/// How the shell reads one more byte: an escaped byte and any byte inside
/// quotes but the closing `'` are taken as they are; outside quotes a
/// blank ends the word, `'` opens a quote and `\` escapes the next byte.
pub open spec fn shell_step(st: ShellRead, b: u8) -> ShellRead {
    if st.escaped {
        ShellRead { words: st.words, cur: st.cur.push(b), in_word: true, quoted: st.quoted, escaped: false }
    } else if st.quoted {
        if b == 39u8 {
            ShellRead { words: st.words, cur: st.cur, in_word: st.in_word, quoted: false, escaped: false }
        } else {
            ShellRead { words: st.words, cur: st.cur.push(b), in_word: st.in_word, quoted: true, escaped: false }
        }
    } else if b == 32u8 || b == 9u8 || b == 10u8 {
        if st.in_word {
            ShellRead { words: st.words.push(st.cur), cur: Seq::empty(), in_word: false, quoted: false, escaped: false }
        } else {
            st
        }
    } else if b == 39u8 {
        ShellRead { words: st.words, cur: st.cur, in_word: true, quoted: true, escaped: false }
    } else if b == 92u8 {
        ShellRead { words: st.words, cur: st.cur, in_word: true, quoted: false, escaped: true }
    } else {
        ShellRead { words: st.words, cur: st.cur.push(b), in_word: true, quoted: false, escaped: false }
    }
}

/// Reading a sequence of bytes.
pub open spec fn shell_scan(st: ShellRead, s: Seq<u8>) -> ShellRead
    decreases s.len(),
{
    if s.len() == 0 {
        st
    } else {
        shell_step(shell_scan(st, s.drop_last()), s.last())
    }
}

/// The words a POSIX shell reads from a line of single-quoted strings,
/// escapes and blanks.
pub open spec fn shell_words(s: Seq<u8>) -> Seq<Seq<u8>> {
    let st = shell_scan(shell_start(), s);
    if st.in_word {
        st.words.push(st.cur)
    } else {
        st.words
    }
}

proof fn lemma_shell_scan_append(st: ShellRead, a: Seq<u8>, b: Seq<u8>)
    ensures
        shell_scan(st, a + b) == shell_scan(shell_scan(st, a), b),
    decreases b.len(),
{
    if b.len() == 0 {
        assert(a + b =~= a);
    } else {
        assert((a + b).drop_last() =~= a + b.drop_last());
        assert((a + b).last() == b.last());
        lemma_shell_scan_append(st, a, b.drop_last());
    }
}

proof fn lemma_scan_push(st: ShellRead, s: Seq<u8>, b: u8)
    ensures
        shell_scan(st, s.push(b)) == shell_step(shell_scan(st, s), b),
{
    assert(s.push(b).drop_last() =~= s);
}

proof fn lemma_scan_one(st: ShellRead, b: u8)
    ensures
        shell_scan(st, seq![b]) == shell_step(st, b),
{
    lemma_scan_push(st, Seq::empty(), b);
    assert(Seq::<u8>::empty().push(b) =~= seq![b]);
}

proof fn lemma_shell_reads_escaped(st: ShellRead, x: Seq<u8>)
    requires
        st.quoted,
        !st.escaped,
        st.in_word,
    ensures
        shell_scan(st, escape_quotes(x)) == (ShellRead {
            words: st.words,
            cur: st.cur + x,
            in_word: true,
            quoted: true,
            escaped: false,
        }),
    decreases x.len(),
{
    if x.len() == 0 {
        assert(st.cur + x =~= st.cur);
        assert(escape_quotes(x) =~= Seq::<u8>::empty());
    } else {
        let head = escape_quotes(x.drop_last());
        let piece = if x.last() == 39u8 {
            seq![39u8, 92u8, 39u8, 39u8]
        } else {
            seq![x.last()]
        };
        lemma_shell_reads_escaped(st, x.drop_last());
        lemma_shell_scan_append(st, head, piece);
        let mid = shell_scan(st, head);
        assert(mid == ShellRead {
            words: st.words,
            cur: st.cur + x.drop_last(),
            in_word: true,
            quoted: true,
            escaped: false,
        });
        if x.last() == 39u8 {
            let p1 = seq![39u8];
            let p2 = p1.push(92u8);
            let p3 = p2.push(39u8);
            let p4 = p3.push(39u8);
            lemma_scan_one(mid, 39u8);
            lemma_scan_push(mid, p1, 92u8);
            lemma_scan_push(mid, p2, 39u8);
            lemma_scan_push(mid, p3, 39u8);
            assert(p4 =~= piece);
        } else {
            lemma_scan_one(mid, x.last());
        }
        assert((st.cur + x.drop_last()).push(x.last()) =~= st.cur + x);
    }
}

proof fn lemma_shell_reads_quoted(st: ShellRead, x: Seq<u8>)
    requires
        !st.quoted,
        !st.escaped,
        !st.in_word,
    ensures
        shell_scan(st, quote_arg(x)) == (ShellRead {
            words: st.words,
            cur: st.cur + x,
            in_word: true,
            quoted: false,
            escaped: false,
        }),
{
    let open_q = seq![39u8];
    lemma_shell_scan_append(st, open_q + escape_quotes(x), seq![39u8]);
    lemma_shell_scan_append(st, open_q, escape_quotes(x));
    lemma_scan_one(st, 39u8);
    let opened = shell_scan(st, open_q);
    assert(opened == ShellRead { words: st.words, cur: st.cur, in_word: true, quoted: true, escaped: false });
    lemma_shell_reads_escaped(opened, x);
    let filled = shell_scan(opened, escape_quotes(x));
    lemma_scan_one(filled, 39u8);
}

proof fn lemma_shell_reads_join(args: Seq<Seq<u8>>)
    requires
        args.len() > 0,
    ensures
        shell_scan(shell_start(), join_quoted(args)) == (ShellRead {
            words: args.drop_last(),
            cur: args.last(),
            in_word: true,
            quoted: false,
            escaped: false,
        }),
    decreases args.len(),
{
    if args.len() == 1 {
        lemma_shell_reads_quoted(shell_start(), args[0]);
        assert(Seq::<u8>::empty() + args[0] =~= args[0]);
        assert(args.drop_last() =~= Seq::<Seq<u8>>::empty());
    } else {
        let init = args.drop_last();
        lemma_shell_reads_join(init);
        let j = join_quoted(init);
        lemma_shell_scan_append(shell_start(), j + seq![32u8], quote_arg(args.last()));
        lemma_shell_scan_append(shell_start(), j, seq![32u8]);
        lemma_scan_one(shell_scan(shell_start(), j), 32u8);
        let after_space = shell_scan(shell_start(), j + seq![32u8]);
        assert(after_space == ShellRead {
            words: init.drop_last().push(init.last()),
            cur: Seq::empty(),
            in_word: false,
            quoted: false,
            escaped: false,
        });
        assert(init.drop_last().push(init.last()) =~= init);
        lemma_shell_reads_quoted(after_space, args.last());
        assert(Seq::<u8>::empty() + args.last() =~= args.last());
    }
}

/// Law: a shell reads the quoted command back as exactly the arguments it
/// was made of, whatever bytes they hold.
pub proof fn lemma_shell_reads_arguments(args: Seq<Seq<u8>>)
    ensures
        shell_words(join_quoted(args)) == args,
{
    if args.len() == 0 {
        assert(join_quoted(args) =~= Seq::<u8>::empty());
        assert(args =~= Seq::<Seq<u8>>::empty());
    } else {
        lemma_shell_reads_join(args);
        assert(args.drop_last().push(args.last()) =~= args);
    }
}

/// The six-bit value of a character of the standard base64 alphabet.
pub open spec fn b64_value(c: u8) -> nat {
    if 65 <= c <= 90 {
        (c - 65) as nat
    } else if 97 <= c <= 122 {
        (c - 97 + 26) as nat
    } else if 48 <= c <= 57 {
        (c - 48 + 52) as nat
    } else if c == 43 {
        62
    } else {
        63
    }
}

/// Base64 decoding of text in the standard alphabet with `=` padding: each
/// four characters give three bytes, a final group padded with `=` or `==`
/// two or one.
pub open spec fn base64_decode(s: Seq<u8>) -> Seq<u8>
    decreases s.len(),
{
    if s.len() < 4 {
        Seq::empty()
    } else {
        let v0 = b64_value(s[0]);
        let v1 = b64_value(s[1]);
        let v2 = b64_value(s[2]);
        let v3 = b64_value(s[3]);
        let b0 = (v0 * 4 + v1 / 16) as u8;
        let b1 = ((v1 % 16) * 16 + v2 / 4) as u8;
        let b2 = ((v2 % 4) * 64 + v3) as u8;
        if s[2] == 61u8 {
            seq![b0]
        } else if s[3] == 61u8 {
            seq![b0, b1]
        } else {
            seq![b0, b1, b2] + base64_decode(s.subrange(4, s.len() as int))
        }
    }
}

proof fn lemma_b64_char(v: nat)
    requires
        v < 64,
    ensures
        b64_value(b64_char(v)) == v,
        b64_char(v) != 61u8,
{
}

proof fn lemma_b64_group(b0: nat, b1: nat, b2: nat)
    requires
        b0 < 256,
        b1 < 256,
        b2 < 256,
    ensures
        b0 / 4 < 64,
        (b0 % 4) * 16 + b1 / 16 < 64,
        (b1 % 16) * 4 + b2 / 64 < 64,
        b2 % 64 < 64,
        (b0 / 4) * 4 + ((b0 % 4) * 16 + b1 / 16) / 16 == b0,
        (((b0 % 4) * 16 + b1 / 16) % 16) * 16 + ((b1 % 16) * 4 + b2 / 64) / 4 == b1,
        (((b1 % 16) * 4 + b2 / 64) % 4) * 64 + b2 % 64 == b2,
        (b0 % 4) * 16 < 64,
        ((b0 % 4) * 16) / 16 == b0 % 4,
        (b1 % 16) * 4 < 64,
        ((b1 % 16) * 4) / 4 == b1 % 16,
        (((b0 % 4) * 16 + b1 / 16) % 16) == b1 / 16,
        (((b1 % 16) * 4 + b2 / 64) % 4) == b2 / 64,
        ((b0 % 4) * 16 % 16) == 0,
{
    assert(((b0 % 4) * 16 + b1 / 16) / 16 == b0 % 4) by (nonlinear_arith)
        requires
            b1 / 16 < 16,
            b0 % 4 < 4,
    ;
    assert(((b0 % 4) * 16 + b1 / 16) % 16 == b1 / 16) by (nonlinear_arith)
        requires
            b1 / 16 < 16,
            b0 % 4 < 4,
    ;
    assert(((b1 % 16) * 4 + b2 / 64) / 4 == b1 % 16) by (nonlinear_arith)
        requires
            b2 / 64 < 4,
            b1 % 16 < 16,
    ;
    assert(((b1 % 16) * 4 + b2 / 64) % 4 == b2 / 64) by (nonlinear_arith)
        requires
            b2 / 64 < 4,
            b1 % 16 < 16,
    ;
    assert(((b0 % 4) * 16) / 16 == b0 % 4) by (nonlinear_arith)
        requires
            b0 % 4 < 4,
    ;
    assert(((b1 % 16) * 4) / 4 == b1 % 16) by (nonlinear_arith)
        requires
            b1 % 16 < 16,
    ;
    assert(((b0 % 4) * 16 % 16) == 0) by (nonlinear_arith)
        requires
            b0 % 4 < 4,
    ;
}

/// Law: decoding the base64 of any bytes gives the bytes back.
pub proof fn lemma_base64_roundtrip(data: Seq<u8>)
    ensures
        base64_decode(base64_standard(data)) == data,
    decreases data.len(),
{
    if data.len() == 0 {
    } else if data.len() == 1 {
        let b0 = data[0] as nat;
        lemma_b64_group(b0, 0, 0);
        lemma_b64_char(b0 / 4);
        lemma_b64_char((b0 % 4) * 16);
        assert(base64_decode(base64_standard(data)) =~= data);
    } else if data.len() == 2 {
        let b0 = data[0] as nat;
        let b1 = data[1] as nat;
        lemma_b64_group(b0, b1, 0);
        lemma_b64_char(b0 / 4);
        lemma_b64_char((b0 % 4) * 16 + b1 / 16);
        lemma_b64_char((b1 % 16) * 4);
        assert(base64_decode(base64_standard(data)) =~= data);
    } else {
        let b0 = data[0] as nat;
        let b1 = data[1] as nat;
        let b2 = data[2] as nat;
        let rest = data.subrange(3, data.len() as int);
        lemma_b64_group(b0, b1, b2);
        lemma_b64_char(b0 / 4);
        lemma_b64_char((b0 % 4) * 16 + b1 / 16);
        lemma_b64_char((b1 % 16) * 4 + b2 / 64);
        lemma_b64_char(b2 % 64);
        lemma_base64_roundtrip(rest);
        let enc = base64_standard(data);
        assert(enc.subrange(4, enc.len() as int) =~= base64_standard(rest));
        assert(base64_decode(enc) =~= seq![data[0], data[1], data[2]] + rest);
        assert(seq![data[0], data[1], data[2]] + rest =~= data);
    }
}

/// The part of the kernel command line before the encoded command.
pub open spec fn cmdline_head(arch: Architecture) -> Seq<u8> {
    console_cmdline(arch) + ascii_bytes(" qemucmd64="@)
}

/// Law: the guest gets the command back: the kernel command line of a run
/// with a command starts with the console settings and ` qemucmd64=`, and
/// what follows decodes from base64 and splits, as a shell reads it, into
/// exactly the arguments given.
pub proof fn lemma_guest_reads_command(arch: Architecture, args: Seq<Seq<u8>>)
    requires
        args.len() > 0,
    ensures
        kernel_cmdline(arch, args).take(cmdline_head(arch).len() as int) == cmdline_head(arch),
        shell_words(base64_decode(kernel_cmdline(arch, args).skip(cmdline_head(arch).len() as int))) == args,
{
    let head = cmdline_head(arch);
    let line = kernel_cmdline(arch, args);
    let enc = base64_standard(join_quoted(args));
    assert(line =~= head + enc);
    assert(line.take(head.len() as int) =~= head);
    assert(line.skip(head.len() as int) =~= enc);
    lemma_base64_roundtrip(join_quoted(args));
    lemma_shell_reads_arguments(args);
}

/// One argument of the QEMU command line of a run: text, or the path of
/// the kernel or of the initial RAM disk (files the program writes), or
/// the kernel command line.
pub enum QemuArg {
    Text(Vec<char>),
    KernelPath,
    InitrdPath,
    KernelCmdline(Vec<u8>),
}

/// The mathematical content of a `QemuArg`.
pub enum ArgModel {
    Text(Seq<char>),
    KernelPath,
    InitrdPath,
    KernelCmdline(Seq<u8>),
}

impl View for QemuArg {
    type V = ArgModel;

    open spec fn view(&self) -> ArgModel {
        match self {
            QemuArg::Text(t) => ArgModel::Text(t@),
            QemuArg::KernelPath => ArgModel::KernelPath,
            QemuArg::InitrdPath => ArgModel::InitrdPath,
            QemuArg::KernelCmdline(c) => ArgModel::KernelCmdline(c@),
        }
    }
}

/// The arguments as plain values.
pub open spec fn args_view(v: Seq<QemuArg>) -> Seq<ArgModel> {
    v.map_values(|a: QemuArg| a@)
}

/// The options as arguments: each option followed by its value.
pub open spec fn kv_flat(kv: Seq<KvModel>) -> Seq<ArgModel>
    decreases kv.len(),
{
    if kv.len() == 0 {
        Seq::empty()
    } else {
        kv_flat(kv.drop_last()) + seq![ArgModel::Text(kv.last().0), ArgModel::Text(kv.last().1)]
    }
}

/// Flags as arguments, in order.
pub open spec fn text_args(ws: Seq<Seq<char>>) -> Seq<ArgModel>
    decreases ws.len(),
{
    if ws.len() == 0 {
        Seq::empty()
    } else {
        text_args(ws.drop_last()).push(ArgModel::Text(ws.last()))
    }
}

/// The QEMU command line of a run: the options with their values, the
/// flags passed through, then the kernel, the initial RAM disk and the
/// kernel command line, no display, the serial console on standard
/// input and output, no monitor, and no reboot (so the guest's end ends
/// QEMU).
pub open spec fn qemu_argv(kv: Seq<KvModel>, extra: Seq<Seq<char>>, cmdline: Seq<u8>) -> Seq<ArgModel> {
    kv_flat(kv) + text_args(extra) + seq![
        ArgModel::Text("-kernel"@),
        ArgModel::KernelPath,
        ArgModel::Text("-initrd"@),
        ArgModel::InitrdPath,
        ArgModel::Text("-append"@),
        ArgModel::KernelCmdline(cmdline),
        ArgModel::Text("-nographic"@),
        ArgModel::Text("-serial"@),
        ArgModel::Text("stdio"@),
        ArgModel::Text("-monitor"@),
        ArgModel::Text("none"@),
        ArgModel::Text("-no-reboot"@),
    ]
}

fn push_text_arg(out: &mut Vec<QemuArg>, s: &str)
    ensures
        args_view(final(out)@) == args_view(old(out)@).push(ArgModel::Text(s@)),
{
    let ghost before = args_view(out@);
    out.push(QemuArg::Text(str_chars(s)));
    assert(args_view(out@) =~= before.push(ArgModel::Text(s@)));
}

fn push_arg(out: &mut Vec<QemuArg>, a: QemuArg)
    ensures
        args_view(final(out)@) == args_view(old(out)@).push(a@),
{
    let ghost before = args_view(out@);
    let ghost m = a@;
    out.push(a);
    assert(args_view(out@) =~= before.push(m));
}

/// The QEMU command line of a planned run, as `qemu_argv` describes; the
/// program puts the paths of the files it wrote in place of `KernelPath`
/// and `InitrdPath`.
pub fn qemu_args(plan: &QemuPlan) -> (r: Vec<QemuArg>)
    ensures
        args_view(r@) == qemu_argv(kv_view(plan.kv_args@), texts_view(plan.extra_flags@), plan.kernel_cmdline@),
{
    let ghost kv = kv_view(plan.kv_args@);
    let ghost ex = texts_view(plan.extra_flags@);
    let mut out: Vec<QemuArg> = Vec::new();
    let mut i: usize = 0;
    assert(kv.take(0) =~= Seq::<KvModel>::empty());
    assert(args_view(out@) =~= Seq::<ArgModel>::empty());
    while i < plan.kv_args.len()
        invariant
            i <= plan.kv_args@.len(),
            kv == kv_view(plan.kv_args@),
            args_view(out@) == kv_flat(kv.take(i as int)),
        decreases plan.kv_args@.len() - i,
    {
        let ghost t = kv.take(i + 1);
        assert(t.drop_last() =~= kv.take(i as int));
        assert(t.last() == (plan.kv_args@[i as int].0@, plan.kv_args@[i as int].1@));
        push_arg(&mut out, QemuArg::Text(copy_chars(plan.kv_args[i].0.as_slice())));
        push_arg(&mut out, QemuArg::Text(copy_chars(plan.kv_args[i].1.as_slice())));
        assert(args_view(out@) =~= kv_flat(t));
        i = i + 1;
    }
    assert(kv.take(kv.len() as int) =~= kv);
    let ghost head = args_view(out@);
    let mut j: usize = 0;
    assert(ex.take(0) =~= Seq::<Seq<char>>::empty());
    assert(args_view(out@) =~= head + text_args(ex.take(0)));
    while j < plan.extra_flags.len()
        invariant
            j <= plan.extra_flags@.len(),
            ex == texts_view(plan.extra_flags@),
            args_view(out@) == head + text_args(ex.take(j as int)),
        decreases plan.extra_flags@.len() - j,
    {
        let ghost t = ex.take(j + 1);
        assert(t.drop_last() =~= ex.take(j as int));
        assert(t.last() == plan.extra_flags@[j as int]@);
        push_arg(&mut out, QemuArg::Text(copy_chars(plan.extra_flags[j].as_slice())));
        assert(args_view(out@) =~= head + text_args(t));
        j = j + 1;
    }
    assert(ex.take(ex.len() as int) =~= ex);
    let ghost body = args_view(out@);
    push_text_arg(&mut out, "-kernel");
    push_arg(&mut out, QemuArg::KernelPath);
    push_text_arg(&mut out, "-initrd");
    push_arg(&mut out, QemuArg::InitrdPath);
    push_text_arg(&mut out, "-append");
    push_arg(&mut out, QemuArg::KernelCmdline(crate::overlay::copy_bytes(plan.kernel_cmdline.as_slice())));
    push_text_arg(&mut out, "-nographic");
    push_text_arg(&mut out, "-serial");
    push_text_arg(&mut out, "stdio");
    push_text_arg(&mut out, "-monitor");
    push_text_arg(&mut out, "none");
    push_text_arg(&mut out, "-no-reboot");
    assert(args_view(out@) =~= qemu_argv(kv, ex, plan.kernel_cmdline@));
    out
}

/// Law: KVM is accepted exactly when the host has the guest's own
/// architecture, whichever architecture that is, and `/dev/kvm` is
/// usable; emulation is accepted on any host.
pub proof fn lemma_kvm_accepted_exactly(arch: Architecture, host_arch: Option<Architecture>, kvm_device_usable: bool)
    ensures
        kvm_ok(arch, AccelMode::Kvm, host_arch, kvm_device_usable) <==> (host_arch == Some(arch) && kvm_device_usable),
        kvm_ok(Architecture::X86_64, AccelMode::Kvm, Some(Architecture::X86_64), true),
        kvm_ok(Architecture::Aarch64, AccelMode::Kvm, Some(Architecture::Aarch64), true),
        kvm_ok(arch, AccelMode::Tcg, host_arch, kvm_device_usable),
{
}

/// Law: a vCPU count asked for with `--cpu` (anything but `0`) is the
/// `-smp` value of the planned run without overrides, whatever the size
/// of the pinned cluster and the number of online host CPUs; with `--cpu
/// 0` no `-smp` option is planned at all.
pub proof fn lemma_cpu_count_honoured(
    arch: Architecture,
    accel: AccelMode,
    c: Seq<char>,
    cluster_cores: Option<usize>,
    online_cpus: i64,
    mem: Option<Seq<char>>,
    bios_dir: Seq<char>,
)
    ensures
        c != "0"@ ==> apply_overrides(
            base_options(arch, accel, smp_value(Some(c), cluster_cores, online_cpus), mem_value(mem), bios_dir),
            Seq::empty(),
            split_all_ws(texts_view(Seq::empty())),
            0,
        ).0.contains(("-smp"@, c)),
        c == "0"@ ==> forall|i: int|
            0 <= i < apply_overrides(
                base_options(arch, accel, smp_value(Some(c), cluster_cores, online_cpus), mem_value(mem), bios_dir),
                Seq::empty(),
                split_all_ws(texts_view(Seq::empty())),
                0,
            ).0.len() ==> (#[trigger] apply_overrides(
                base_options(arch, accel, smp_value(Some(c), cluster_cores, online_cpus), mem_value(mem), bios_dir),
                Seq::empty(),
                split_all_ws(texts_view(Seq::empty())),
                0,
            ).0[i]).0 != "-smp"@,
{
    reveal_strlit("-M");
    reveal_strlit("-cpu");
    reveal_strlit("-accel");
    reveal_strlit("-smp");
    reveal_strlit("-m");
    reveal_strlit("-L");
    assert(texts_view(Seq::<Vec<char>>::empty()) =~= Seq::<Seq<char>>::empty());
    let w = split_all_ws(texts_view(Seq::<Vec<char>>::empty()));
    assert(w.len() == 0);
    let smp = smp_value(Some(c), cluster_cores, online_cpus);
    let b = base_options(arch, accel, smp, mem_value(mem), bios_dir);
    assert(apply_overrides(b, Seq::empty(), w, 0) == (b, Seq::<Seq<char>>::empty()));
    if c != "0"@ {
        assert(smp == Some(c));
        assert(b[3] == ("-smp"@, c));
    } else {
        assert(smp is None);
        assert forall|i: int| 0 <= i < b.len() implies (#[trigger] b[i]).0 != "-smp"@ by {
            if i >= 3 && mem_value(mem) is Some && i == 3 {
                assert(b[i].0 == "-m"@);
                assert("-m"@.len() != "-smp"@.len());
            } else if i >= 3 {
                assert(b[i].0 == "-L"@);
                assert("-L"@.len() != "-smp"@.len());
            } else if i == 0 {
                assert("-M"@.len() != "-smp"@.len());
            } else if i == 2 {
                assert("-accel"@.len() != "-smp"@.len());
            } else {
                assert("-cpu"@[1] != "-smp"@[1]);
            }
        }
    }
}

} // verus!
