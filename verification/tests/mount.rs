use qemulbench::mount::{mount_host_part, parse_mount_specs, MountError, MountSpec};

fn specs(raw: &[&str], resolved: &[Option<&str>]) -> Result<Vec<(String, String)>, MountError> {
    let raw: Vec<Vec<u8>> = raw.iter().map(|s| s.as_bytes().to_vec()).collect();
    let resolved: Vec<Option<Vec<u8>>> = resolved.iter().map(|o| o.map(|s| s.as_bytes().to_vec())).collect();
    parse_mount_specs(&raw, &resolved).map(|v| {
        v.into_iter()
            .map(|m| (String::from_utf8(m.host_path).unwrap(), String::from_utf8(m.guest_path).unwrap()))
            .collect()
    })
}

#[test]
fn host_part_is_before_the_first_colon() {
    assert_eq!(mount_host_part(b"./work:/mnt/w"), b"./work".to_vec());
    assert_eq!(mount_host_part(b"./work"), b"./work".to_vec());
    assert_eq!(mount_host_part(b"a:b:c"), b"a".to_vec());
    assert_eq!(mount_host_part(b":x"), b"".to_vec());
}

#[test]
fn guest_paths() {
    let got = specs(
        &["./a", "./b", "./c:/mnt/c", "./d:rel/dir", "./e:", "./f:a:b"],
        &[Some("/h/a"), Some("/h/b"), Some("/h/c"), Some("/h/d"), Some("/h/e"), Some("/h/f")],
    )
    .unwrap();
    assert_eq!(
        got,
        vec![
            ("/h/a".to_string(), "/mnt/host".to_string()),
            ("/h/b".to_string(), "/mnt/host1".to_string()),
            ("/h/c".to_string(), "/mnt/c".to_string()),
            ("/h/d".to_string(), "/rel/dir".to_string()),
            ("/h/e".to_string(), "/mnt/host4".to_string()),
            ("/h/f".to_string(), "/a:b".to_string()),
        ]
    );
}

#[test]
fn many_default_mount_points_differ() {
    let raw: Vec<&str> = vec!["x"; 12];
    let resolved: Vec<Option<&str>> = vec![Some("/x"); 12];
    let got = specs(&raw, &resolved).unwrap();
    assert_eq!(got[10].1, "/mnt/host10");
    assert_eq!(got[11].1, "/mnt/host11");
    let mut guests: Vec<&String> = got.iter().map(|g| &g.1).collect();
    guests.sort();
    guests.dedup();
    assert_eq!(guests.len(), 12);
}

#[test]
fn mount_errors() {
    assert_eq!(specs(&[":/mnt/x"], &[None]), Err(MountError::EmptyHost { index: 0 }));
    assert_eq!(specs(&["./ok", "./missing"], &[Some("/ok"), None]), Err(MountError::Unresolvable { index: 1 }));
    assert_eq!(
        specs(&["./missing", ":x"], &[None, None]),
        Err(MountError::Unresolvable { index: 0 })
    );
    assert_eq!(specs(&[":x", "./missing"], &[Some("/ignored"), None]), Err(MountError::EmptyHost { index: 0 }));
    assert_eq!(specs(&[], &[]), Ok(vec![]));
}

#[test]
fn parse_one() {
    let m = MountSpec::parse(b"src:/dst", 3, Some(b"/abs/src".to_vec())).unwrap();
    assert_eq!(m.host_path, b"/abs/src".to_vec());
    assert_eq!(m.guest_path, b"/dst".to_vec());
    assert!(matches!(MountSpec::parse(b"", 2, None), Err(MountError::EmptyHost { index: 2 })));
}

#[test]
fn batch_is_each_argument_at_its_position() {
    let raw: Vec<Vec<u8>> = ["./a", "./b:/x", "./c", "./d:y"].iter().map(|s| s.as_bytes().to_vec()).collect();
    let resolved: Vec<Option<Vec<u8>>> = ["/a", "/b", "/c", "/d"].iter().map(|s| Some(s.as_bytes().to_vec())).collect();
    let all = parse_mount_specs(&raw, &resolved).unwrap();
    assert_eq!(all.len(), raw.len());
    for (i, m) in all.iter().enumerate() {
        let one = MountSpec::parse(&raw[i], i, resolved[i].clone()).unwrap();
        assert_eq!((&m.host_path, &m.guest_path), (&one.host_path, &one.guest_path));
    }
    assert_eq!(all[2].guest_path, b"/mnt/host2".to_vec());
}
