//! The payloads built into the program: a root filesystem, a kernel and
//! the two QEMU builds for each guest architecture, and the firmware.
//! The bytes themselves are embedded by the program; the library decides
//! which payload a run uses.
use vstd::prelude::*;
use crate::cli::Architecture;

verus! {

/// One embedded payload.
#[derive(Clone, Copy, Debug, PartialEq, Eq, Structural)]
pub enum Asset {
    /// The zstd-compressed cpio root filesystem for x86_64.
    RootfsX86_64,
    /// The zstd-compressed cpio root filesystem for aarch64.
    RootfsAarch64,
    /// The zstd-compressed kernel for x86_64.
    KernelX86_64,
    /// The zstd-compressed kernel for aarch64.
    KernelAarch64,
    /// QEMU user mode running x86_64 binaries on this host.
    QemuUserX86_64,
    /// QEMU user mode running aarch64 binaries on this host.
    QemuUserAarch64,
    /// QEMU emulating an x86_64 machine on this host.
    QemuSystemX86_64,
    /// QEMU emulating an aarch64 machine on this host.
    QemuSystemAarch64,
    /// The firmware directory QEMU loads its BIOS from, as a zstd tarball.
    PcBios,
}

/// The root filesystem of a guest architecture.
pub fn get_rootfs_bytes(arch: Architecture) -> (r: Asset)
    ensures
        r == (match arch {
            Architecture::X86_64 => Asset::RootfsX86_64,
            Architecture::Aarch64 => Asset::RootfsAarch64,
        }),
{
    match arch {
        Architecture::X86_64 => Asset::RootfsX86_64,
        Architecture::Aarch64 => Asset::RootfsAarch64,
    }
}

/// The kernel of a guest architecture.
pub fn get_kernel_bytes(arch: Architecture) -> (r: Asset)
    ensures
        r == (match arch {
            Architecture::X86_64 => Asset::KernelX86_64,
            Architecture::Aarch64 => Asset::KernelAarch64,
        }),
{
    match arch {
        Architecture::X86_64 => Asset::KernelX86_64,
        Architecture::Aarch64 => Asset::KernelAarch64,
    }
}

/// The QEMU user-mode emulator for binaries of a guest architecture.
pub fn get_qemu_user_bytes(arch: Architecture) -> (r: Asset)
    ensures
        r == (match arch {
            Architecture::X86_64 => Asset::QemuUserX86_64,
            Architecture::Aarch64 => Asset::QemuUserAarch64,
        }),
{
    match arch {
        Architecture::X86_64 => Asset::QemuUserX86_64,
        Architecture::Aarch64 => Asset::QemuUserAarch64,
    }
}

/// The QEMU system emulator for machines of a guest architecture.
pub fn get_qemu_system_bytes(arch: Architecture) -> (r: Asset)
    ensures
        r == (match arch {
            Architecture::X86_64 => Asset::QemuSystemX86_64,
            Architecture::Aarch64 => Asset::QemuSystemAarch64,
        }),
{
    match arch {
        Architecture::X86_64 => Asset::QemuSystemX86_64,
        Architecture::Aarch64 => Asset::QemuSystemAarch64,
    }
}

} // verus!
