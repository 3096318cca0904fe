use qemulbench::cpio::{
    extract_step, find_cpio_trailer_offset, sanitize_path, write_cpio_entry, CpioError, ExtractAction,
    ExtractStep,
};

fn entry(name: &str, mode: u32, data: &[u8]) -> Vec<u8> {
    let mut out = Vec::new();
    write_cpio_entry(&mut out, name.as_bytes(), mode, data);
    out
}

fn trailer() -> Vec<u8> {
    entry("TRAILER!!!", 0, &[])
}

#[test]
fn entry_header_is_newc() {
    let bytes = entry("a", 0o100644, b"xyz");
    let header = std::str::from_utf8(&bytes[..110]).unwrap();
    let expected = format!(
        "070701{:08x}{:08x}{:08x}{:08x}{:08x}{:08x}{:08x}{:08x}{:08x}{:08x}{:08x}{:08x}{:08x}",
        0, 0o100644, 0, 0, 1, 0, 3, 0, 0, 0, 0, 2, 0
    );
    assert_eq!(header, expected);
    assert_eq!(&header[14..22], "000081a4");
    assert_eq!(&bytes[110..112], b"a\0");
    assert_eq!(bytes.len(), 112 + 4);
    assert_eq!(&bytes[112..115], b"xyz");
    assert_eq!(bytes[115], 0);
}

#[test]
fn entry_padding_aligns_to_four() {
    for n in 0..8usize {
        let name = "n".repeat(n + 1);
        let data = vec![7u8; n];
        let bytes = entry(&name, 0o100644, &data);
        assert_eq!(bytes.len() % 4, 0, "name {} data {}", n + 1, n);
    }
}

#[test]
fn trailer_found_after_entries() {
    let mut archive = entry("dir", 0o040755, &[]);
    archive.extend(entry("dir/f", 0o100600, b"hello"));
    let off = archive.len();
    archive.extend(trailer());
    archive.extend(b"garbage after");
    assert_eq!(find_cpio_trailer_offset(&archive), Some(off));
}

#[test]
fn trailer_not_found_in_junk() {
    assert_eq!(find_cpio_trailer_offset(b""), None);
    assert_eq!(find_cpio_trailer_offset(&[b'0'; 200]), None);
    let mut archive = entry("x", 0o100644, b"1");
    archive.truncate(archive.len() - 1);
    assert_eq!(find_cpio_trailer_offset(&archive), None);
}

#[test]
fn crc_magic_accepted() {
    let mut archive = trailer();
    archive[5] = b'2';
    assert_eq!(find_cpio_trailer_offset(&archive), Some(0));
}

#[test]
fn extract_reads_back_entries() {
    let mut archive = entry("./d", 0o040700, &[]);
    let second = archive.len();
    archive.extend(entry("d/l", 0o120777, b"target"));
    archive.extend(trailer());
    match extract_step(&archive, 0).unwrap() {
        ExtractStep::Entry { action: ExtractAction::Directory { path, perm }, next } => {
            assert_eq!(path, b"d".to_vec());
            assert_eq!(perm, 0o700);
            assert_eq!(next, Some(second));
        }
        _ => panic!("expected a directory"),
    }
    match extract_step(&archive, second).unwrap() {
        ExtractStep::Entry { action: ExtractAction::Symlink { path, target }, .. } => {
            assert_eq!(path, b"d/l".to_vec());
            assert_eq!(target, b"target".to_vec());
        }
        _ => panic!("expected a link"),
    }
}

#[test]
fn extract_stops_at_trailer_and_short_data() {
    let archive = trailer();
    assert!(matches!(extract_step(&archive, 0), Ok(ExtractStep::Done)));
    assert!(matches!(extract_step(&archive[..100], 0), Ok(ExtractStep::Done)));
    assert!(matches!(extract_step(&archive, 5000), Ok(ExtractStep::Done)));
}

#[test]
fn extract_root_and_other_kinds() {
    let archive = entry(".", 0o040755, &[]);
    assert!(matches!(
        extract_step(&archive, 0),
        Ok(ExtractStep::Entry { action: ExtractAction::Root, .. })
    ));
    let fifo = entry("p", 0o010644, &[]);
    assert!(matches!(
        extract_step(&fifo, 0),
        Ok(ExtractStep::Entry { action: ExtractAction::Skipped, .. })
    ));
}

#[test]
fn extract_errors() {
    let mut bad_magic = trailer();
    bad_magic[0] = b'1';
    assert!(matches!(extract_step(&bad_magic, 0), Err(CpioError::BadMagic)));

    let mut bad_field = entry("f", 0o100644, b"abc");
    bad_field[20] = b'z';
    assert!(matches!(extract_step(&bad_field, 0), Err(CpioError::BadField)));

    let short_name = entry("long-name", 0o100644, b"abc");
    assert!(matches!(extract_step(&short_name[..112], 0), Err(CpioError::Truncated)));

    let cut_file = entry("f", 0o100644, b"abcdef");
    match extract_step(&cut_file[..114], 0) {
        Ok(ExtractStep::Entry { action: ExtractAction::TruncatedFile { path }, next: None }) => {
            assert_eq!(path, b"f".to_vec())
        }
        _ => panic!("expected a truncated file"),
    }

    let bad_name = entry("\u{0}", 0o100644, &[]);
    let mut bad_name = bad_name;
    bad_name[110] = 0xff;
    assert!(matches!(extract_step(&bad_name, 0), Err(CpioError::BadNameEncoding)));

    let escape = entry("../etc/passwd", 0o100644, b"x");
    assert!(matches!(extract_step(&escape, 0), Err(CpioError::UnsafePath)));

    let bad_link = entry("l", 0o120777, &[0xc3, 0x28]);
    assert!(matches!(extract_step(&bad_link, 0), Err(CpioError::BadLinkEncoding)));
}

#[test]
fn sanitize_paths() {
    assert_eq!(sanitize_path(b"./a/b"), Ok(Some(b"a/b".to_vec())));
    assert_eq!(sanitize_path(b"///x"), Ok(Some(b"x".to_vec())));
    assert_eq!(sanitize_path(b"."), Ok(None));
    assert_eq!(sanitize_path(b""), Ok(None));
    assert_eq!(sanitize_path(b"./"), Ok(None));
    assert_eq!(sanitize_path(b"a/../b"), Err(CpioError::UnsafePath));
    assert_eq!(sanitize_path(b".."), Err(CpioError::UnsafePath));
    assert_eq!(sanitize_path(b"a/.."), Err(CpioError::UnsafePath));
    assert_eq!(sanitize_path(b"a/..b"), Ok(Some(b"a/..b".to_vec())));
}

#[test]
fn extracted_paths_stay_below_the_target() {
    let names = ["///abs/x", "./././y", "a/b/c", "x/./y", ".hidden", "..dots", "a/...", "/.//z"];
    for name in names {
        let archive = entry(name, 0o100644, b"d");
        match extract_step(&archive, 0) {
            Ok(ExtractStep::Entry { action: ExtractAction::File { path, .. }, .. }) => {
                assert!(!path.is_empty());
                assert_ne!(path[0], b'/');
                assert!(!path.split(|b| *b == b'/').any(|c| c == b".."), "{}", name);
            }
            Ok(ExtractStep::Entry { action: ExtractAction::Root, .. }) | Err(CpioError::UnsafePath) => {}
            _ => panic!("unexpected step for {}", name),
        }
    }
}

#[test]
fn tail_after_trailer_is_never_read_for_foreign_entries() {
    // Entries whose other header fields differ from what this writer emits.
    let mut a = entry("x", 0o100644, b"abc");
    a[6..14].copy_from_slice(b"0000abcd");
    a[38..46].copy_from_slice(b"00000003");
    let mut bad = entry("../up", 0o100644, b"");
    bad[70..78].copy_from_slice(b"00000001");
    let t = trailer();
    let mut base = a.clone();
    base.extend(&t);
    let mut with_tail = base.clone();
    with_tail.extend(entry("later", 0o100644, b"never"));
    with_tail.extend(b"xyz");
    let steps = |data: &[u8]| {
        let mut pos = 0;
        let mut out = Vec::new();
        loop {
            match extract_step(data, pos) {
                Ok(ExtractStep::Entry { action, next: Some(n) }) => {
                    out.push(format!("{:?}", matches!(action, ExtractAction::File { .. })));
                    pos = n;
                }
                other => {
                    out.push(format!("{}", matches!(other, Ok(ExtractStep::Done))));
                    break;
                }
            }
        }
        out
    };
    assert_eq!(steps(&base), steps(&with_tail));
    assert_eq!(find_cpio_trailer_offset(&with_tail), Some(a.len()));
    assert_eq!(a.len() % 4, 0);
    let mut fails = bad.clone();
    fails.extend(&t);
    assert!(matches!(extract_step(&fails, 0), Err(CpioError::UnsafePath)));
    fails.extend(b"tail");
    assert!(matches!(extract_step(&fails, 0), Err(CpioError::UnsafePath)));
}
