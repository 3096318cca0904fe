use qemulbench::cpio::{extract_step, find_cpio_trailer_offset, ExtractAction, ExtractStep};
use qemulbench::overlay::{create_overlay_cpio, splice_rootfs, HostItem, HostKind, OverlaySource};

fn unpack(data: &[u8]) -> Vec<ExtractAction> {
    let mut pos = 0usize;
    let mut actions = Vec::new();
    loop {
        match extract_step(data, pos).expect("archive reads back") {
            ExtractStep::Done => break,
            ExtractStep::Entry { action, next } => {
                actions.push(action);
                match next {
                    Some(n) => pos = n,
                    None => break,
                }
            }
        }
    }
    actions
}

fn file_item(rel: &[&str], mode: u32, data: &[u8]) -> HostItem {
    HostItem {
        rel: rel.iter().map(|s| s.as_bytes().to_vec()).collect(),
        kind: HostKind::File { mode, data: data.to_vec() },
    }
}

fn dir_item(rel: &[&str]) -> HostItem {
    HostItem { rel: rel.iter().map(|s| s.as_bytes().to_vec()).collect(), kind: HostKind::Dir }
}

fn find_file<'a>(actions: &'a [ExtractAction], path: &str) -> Option<&'a Vec<u8>> {
    actions.iter().find_map(|a| match a {
        ExtractAction::File { path: p, data, .. } if p.as_slice() == path.as_bytes() => Some(data),
        _ => None,
    })
}

fn has_dir(actions: &[ExtractAction], path: &str) -> bool {
    actions.iter().any(|a| matches!(a, ExtractAction::Directory { path: p, .. } if p.as_slice() == path.as_bytes()))
}

#[test]
fn test_overlay_cpio() {
    let spec = OverlaySource {
        guest_path: b"/mnt/custom".to_vec(),
        host_is_file: false,
        items: vec![dir_item(&[]), file_item(&["test.txt"], 0o100644, b"hello world")],
    };
    let cpio_bytes = create_overlay_cpio(&[spec]);
    let trailer_pos = find_cpio_trailer_offset(&cpio_bytes);
    assert!(trailer_pos.is_some());

    let actions = unpack(&cpio_bytes);
    let extracted = find_file(&actions, "mnt/custom/test.txt");
    assert!(extracted.is_some());
    assert_eq!(extracted.unwrap().as_slice(), b"hello world");
}

#[test]
fn test_overlay_single_file_cpio() {
    let spec = OverlaySource {
        guest_path: b"/bin/script.sh".to_vec(),
        host_is_file: true,
        items: vec![file_item(&[], 0o100755, b"#!/bin/sh\necho ok")],
    };
    let cpio_bytes = create_overlay_cpio(&[spec]);
    let actions = unpack(&cpio_bytes);
    assert!(find_file(&actions, "bin/script.sh").is_some());
}

#[test]
fn overlay_creates_parent_directories_once() {
    let a = OverlaySource {
        guest_path: b"/mnt/a".to_vec(),
        host_is_file: false,
        items: vec![dir_item(&[])],
    };
    let b = OverlaySource {
        guest_path: b"/mnt/b".to_vec(),
        host_is_file: false,
        items: vec![dir_item(&[]), dir_item(&["sub"]), file_item(&["sub", "f"], 0o100600, b"x")],
    };
    let actions = unpack(&create_overlay_cpio(&[a, b]));
    let dirs: Vec<Vec<u8>> = actions
        .iter()
        .filter_map(|x| match x {
            ExtractAction::Directory { path, .. } => Some(path.clone()),
            _ => None,
        })
        .collect();
    assert_eq!(
        dirs,
        vec![b"mnt".to_vec(), b"mnt/a".to_vec(), b"mnt/b".to_vec(), b"mnt/b/sub".to_vec()]
    );
    assert!(has_dir(&actions, "mnt/b/sub"));
    assert_eq!(find_file(&actions, "mnt/b/sub/f").unwrap().as_slice(), b"x");
}

#[test]
fn overlay_file_permissions_and_links() {
    let spec = OverlaySource {
        guest_path: b"/opt".to_vec(),
        host_is_file: false,
        items: vec![
            dir_item(&[]),
            file_item(&["run"], 0o104755, b"#!"),
            HostItem { rel: vec![b"link".to_vec()], kind: HostKind::Symlink { target: b"run".to_vec() } },
            HostItem { rel: vec![b"sock".to_vec()], kind: HostKind::Other },
        ],
    };
    let actions = unpack(&create_overlay_cpio(&[spec]));
    assert!(actions.iter().any(|a| matches!(a, ExtractAction::File { path, perm, .. } if path.as_slice() == b"opt/run" && *perm == 0o4755)));
    assert!(actions.iter().any(|a| matches!(a, ExtractAction::Symlink { path, target } if path.as_slice() == b"opt/link" && target.as_slice() == b"run")));
    assert_eq!(actions.len(), 3);
}

#[test]
fn empty_overlay_is_just_a_trailer() {
    let bytes = create_overlay_cpio(&[]);
    assert_eq!(find_cpio_trailer_offset(&bytes), Some(0));
    assert_eq!(bytes.len(), 124);
    assert!(unpack(&bytes).is_empty());
}

#[test]
fn splice_replaces_base_trailer() {
    let base_src = OverlaySource {
        guest_path: b"/etc/motd".to_vec(),
        host_is_file: true,
        items: vec![file_item(&[], 0o100644, b"base")],
    };
    let base = create_overlay_cpio(&[base_src]);
    let overlay_src = OverlaySource {
        guest_path: b"/etc/issue".to_vec(),
        host_is_file: true,
        items: vec![file_item(&[], 0o100644, b"top")],
    };
    let overlay = create_overlay_cpio(&[overlay_src]);
    let cut = find_cpio_trailer_offset(&base).unwrap();
    let joined = splice_rootfs(base.clone(), &overlay);
    assert_eq!(joined.len(), cut + overlay.len());
    assert_eq!(&joined[..cut], &base[..cut]);
    let actions = unpack(&joined);
    assert_eq!(find_file(&actions, "etc/motd").unwrap().as_slice(), b"base");
    assert_eq!(find_file(&actions, "etc/issue").unwrap().as_slice(), b"top");
}

#[test]
fn splice_onto_archive_without_trailer_appends() {
    let joined = splice_rootfs(b"junk".to_vec(), b"more");
    assert_eq!(joined, b"junkmore".to_vec());
}

#[test]
fn overlay_layout_ends_in_the_trailer() {
    let spec = OverlaySource {
        guest_path: b"/mnt/custom".to_vec(),
        host_is_file: false,
        items: vec![dir_item(&[]), file_item(&["a"], 0o100644, b"12345"), file_item(&["bb"], 0o100600, b"")],
    };
    let bytes = create_overlay_cpio(&[spec]);
    let trailer = create_overlay_cpio(&[]);
    assert_eq!(bytes.len() % 4, 0);
    assert!(bytes.len() >= 124);
    assert_eq!(find_cpio_trailer_offset(&bytes), Some(bytes.len() - 124));
    assert_eq!(&bytes[bytes.len() - 124..], &trailer[..]);
}

#[test]
fn bytes_after_the_trailer_do_not_matter() {
    let spec = OverlaySource {
        guest_path: b"/etc".to_vec(),
        host_is_file: false,
        items: vec![dir_item(&[]), file_item(&["x"], 0o100644, b"data")],
    };
    let bytes = create_overlay_cpio(&[spec]);
    let mut tail = bytes.clone();
    tail.extend_from_slice(&create_overlay_cpio(&[OverlaySource {
        guest_path: b"/evil".to_vec(),
        host_is_file: true,
        items: vec![file_item(&[], 0o100644, b"no")],
    }]));
    tail.extend_from_slice(b"junk");
    let a = unpack(&bytes);
    let b = unpack(&tail);
    assert_eq!(a.len(), b.len());
    assert!(find_file(&b, "evil").is_none());
    assert_eq!(find_file(&b, "etc/x").unwrap().as_slice(), b"data");
}
