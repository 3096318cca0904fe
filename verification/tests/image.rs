use qemulbench::assets::{get_kernel_bytes, get_qemu_system_bytes, get_qemu_user_bytes, get_rootfs_bytes, Asset};
use qemulbench::cli::Architecture;
use qemulbench::cpio::{extract_step, find_cpio_trailer_offset, write_cpio_entry, ExtractAction, ExtractStep};
use qemulbench::image::{build_initrd, decompress, overlay_rootfs, ImageError};
use qemulbench::overlay::{HostItem, HostKind, OverlaySource};

fn base_archive() -> Vec<u8> {
    let mut out = Vec::new();
    write_cpio_entry(&mut out, b"bin", 0o040755, &[]);
    write_cpio_entry(&mut out, b"bin/sh", 0o100755, b"#!");
    write_cpio_entry(&mut out, b"TRAILER!!!", 0, &[]);
    out
}

fn source() -> OverlaySource {
    OverlaySource {
        guest_path: b"/mnt/host".to_vec(),
        host_is_file: false,
        items: vec![
            HostItem { rel: vec![], kind: HostKind::Dir },
            HostItem { rel: vec![b"data".to_vec()], kind: HostKind::File { mode: 0o100644, data: b"42".to_vec() } },
        ],
    }
}

fn files(data: &[u8]) -> Vec<(Vec<u8>, Vec<u8>)> {
    let mut pos = 0;
    let mut out = Vec::new();
    while let Ok(ExtractStep::Entry { action, next }) = extract_step(data, pos) {
        if let ExtractAction::File { path, data, .. } = action {
            out.push((path, data));
        }
        match next {
            Some(n) => pos = n,
            None => break,
        }
    }
    out
}

#[test]
fn decompresses_zstd() {
    let packed = zstd::encode_all(&b"hello, guest"[..], 3).unwrap();
    assert_eq!(decompress(&packed), Ok(b"hello, guest".to_vec()));
    assert_eq!(decompress(b"not zstd at all"), Err(ImageError::Corrupt));
    let cut = &packed[..packed.len() - 2];
    assert_eq!(decompress(cut), Err(ImageError::Corrupt));
}

#[test]
fn initrd_without_mounts_is_the_decompressed_rootfs() {
    let packed = zstd::encode_all(&base_archive()[..], 3).unwrap();
    assert_eq!(build_initrd(&packed, &[]), Ok(base_archive()));
    assert_eq!(build_initrd(b"garbage", &[]), Err(ImageError::Corrupt));
}

#[test]
fn initrd_with_mounts_carries_them() {
    let packed = zstd::encode_all(&base_archive()[..], 3).unwrap();
    let initrd = build_initrd(&packed, &[source()]).unwrap();
    assert_eq!(initrd, overlay_rootfs(base_archive(), &[source()]));
    assert!(find_cpio_trailer_offset(&initrd).is_some());
    assert_eq!(
        files(&initrd),
        vec![(b"bin/sh".to_vec(), b"#!".to_vec()), (b"mnt/host/data".to_vec(), b"42".to_vec())]
    );
    assert_eq!(build_initrd(b"garbage", &[source()]), Err(ImageError::Corrupt));
}

#[test]
fn payloads_per_architecture() {
    assert_eq!(get_rootfs_bytes(Architecture::X86_64), Asset::RootfsX86_64);
    assert_eq!(get_rootfs_bytes(Architecture::Aarch64), Asset::RootfsAarch64);
    assert_eq!(get_kernel_bytes(Architecture::X86_64), Asset::KernelX86_64);
    assert_eq!(get_kernel_bytes(Architecture::Aarch64), Asset::KernelAarch64);
    assert_eq!(get_qemu_user_bytes(Architecture::X86_64), Asset::QemuUserX86_64);
    assert_eq!(get_qemu_user_bytes(Architecture::Aarch64), Asset::QemuUserAarch64);
    assert_eq!(get_qemu_system_bytes(Architecture::X86_64), Asset::QemuSystemX86_64);
    assert_eq!(get_qemu_system_bytes(Architecture::Aarch64), Asset::QemuSystemAarch64);
}
