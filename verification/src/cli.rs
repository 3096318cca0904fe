//! The command line: target architectures, acceleration modes, the
//! subcommands and their options, and the process exit status.
use vstd::prelude::*;

verus! {

/// Architecture of the guest (or of the host).
#[derive(Clone, Copy, Debug, PartialEq, Eq, Structural)]
pub enum Architecture {
    X86_64,
    Aarch64,
}

/// The name an architecture goes by on the command line and in file names.
pub open spec fn arch_name(a: Architecture) -> Seq<char> {
    match a {
        Architecture::X86_64 => seq!['x', '8', '6', '_', '6', '4'],
        Architecture::Aarch64 => seq!['a', 'a', 'r', 'c', 'h', '6', '4'],
    }
}

impl Architecture {
    /// `"x86_64"` or `"aarch64"`.
    pub fn as_str(&self) -> (r: &'static str)
        ensures
            r@ == arch_name(*self),
    {
        match self {
            Architecture::X86_64 => {
                proof {
                    reveal_strlit("x86_64");
                }
                "x86_64"
            },
            Architecture::Aarch64 => {
                proof {
                    reveal_strlit("aarch64");
                }
                "aarch64"
            },
        }
    }
}

/// How QEMU runs the guest: hardware virtualisation or emulation.
#[derive(Clone, Copy, Debug, PartialEq, Eq, Structural)]
pub enum AccelMode {
    Kvm,
    Tcg,
}

/// The name an acceleration mode goes by on the command line and for QEMU.
pub open spec fn accel_name(m: AccelMode) -> Seq<char> {
    match m {
        AccelMode::Kvm => seq!['k', 'v', 'm'],
        AccelMode::Tcg => seq!['t', 'c', 'g'],
    }
}

impl AccelMode {
    /// `"kvm"` or `"tcg"`.
    pub fn as_str(&self) -> (r: &'static str)
        ensures
            r@ == accel_name(*self),
    {
        match self {
            AccelMode::Kvm => {
                proof {
                    reveal_strlit("kvm");
                }
                "kvm"
            },
            AccelMode::Tcg => {
                proof {
                    reveal_strlit("tcg");
                }
                "tcg"
            },
        }
    }
}

/// The parsed command line.
#[derive(Debug)]
pub struct Cli {
    pub command: Commands,
}

/// The three ways of running a command.
#[derive(Debug)]
#[allow(inconsistent_fields)]
pub enum Commands {
    /// Run directly in the extracted root filesystem, in a private mount
    /// namespace with `chroot`.
    Native { mount: Vec<String>, cmd: Vec<String> },
    /// Run binaries of another architecture through QEMU's user mode.
    User { arch: Architecture, mount: Vec<String>, cmd: Vec<String> },
    /// Boot a QEMU virtual machine and run the command inside it.
    System {
        arch: Option<Architecture>,
        accel: Option<AccelMode>,
        list_cpu_parts: bool,
        mount: Vec<String>,
        no_cpu_topo: bool,
        cpu_part: Option<usize>,
        cpu: Option<String>,
        mem: Option<String>,
        qemu: Vec<String>,
        cmd: Vec<String>,
    },
}

/// What the system subcommand does with its two positional arguments:
/// both are needed unless the CPU parts are only being listed.
pub enum SystemMode {
    ListCpuParts,
    Run { arch: Architecture, accel: AccelMode },
    MissingTarget,
}

/// Decides what the system subcommand does.
pub fn system_mode(arch: Option<Architecture>, accel: Option<AccelMode>, list_cpu_parts: bool) -> (r: SystemMode)
    ensures
        list_cpu_parts ==> r is ListCpuParts,
        !list_cpu_parts ==> match (arch, accel) {
            (Some(a), Some(m)) => r == (SystemMode::Run { arch: a, accel: m }),
            _ => r is MissingTarget,
        },
{
    if list_cpu_parts {
        return SystemMode::ListCpuParts;
    }
    match (arch, accel) {
        (Some(a), Some(m)) => SystemMode::Run { arch: a, accel: m },
        _ => SystemMode::MissingTarget,
    }
}

/// The byte the process exits with for a command's exit code: 1 for a
/// negative code, else its low eight bits.
pub fn exit_status_byte(code: i32) -> (r: u8)
    ensures
        code < 0 ==> r == 1,
        code >= 0 ==> r as int == code as int % 256,
{
    if code < 0 {
        1
    } else {
        let low = code & 0xff;
        assert(low == code % 256) by (bit_vector)
            requires code >= 0, low == code & 0xff;
        low as u8
    }
}

/// The architecture a build targets, from its `target_arch` name: only
/// `x86_64` and `aarch64` hosts are supported.
pub fn get_host_arch(target_arch: &str) -> (r: Option<Architecture>)
    ensures
        target_arch@ == arch_name(Architecture::X86_64) ==> r == Some(Architecture::X86_64),
        target_arch@ == arch_name(Architecture::Aarch64) ==> r == Some(Architecture::Aarch64),
        target_arch@ != arch_name(Architecture::X86_64) && target_arch@ != arch_name(
            Architecture::Aarch64,
        ) ==> r is None,
{
    let name = crate::text::str_chars(target_arch);
    let x86 = vec!['x', '8', '6', '_', '6', '4'];
    let arm = vec!['a', 'a', 'r', 'c', 'h', '6', '4'];
    if crate::text::chars_eq(name.as_slice(), x86.as_slice()) {
        Some(Architecture::X86_64)
    } else if crate::text::chars_eq(name.as_slice(), arm.as_slice()) {
        Some(Architecture::Aarch64)
    } else {
        None
    }
}

} // verus!
