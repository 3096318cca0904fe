use qemulbench::system::{qemu_args, QemuArg};
use base64::Engine;
use qemulbench::cli::{AccelMode, Architecture};
use qemulbench::cpu::{ClusterChoice, CpuCluster, CpuError};
use qemulbench::system::{
    apply_qemu_overrides, build_kernel_cmdline, check_kvm, is_singleton_opt, needs_cluster_detection,
    plan_qemu, quote_command, set_kv_arg, split_overrides, vm_cluster_choice, SystemError, SystemOptions,
};

fn chars(s: &str) -> Vec<char> {
    s.chars().collect()
}

fn text(v: &[char]) -> String {
    v.iter().collect()
}

fn pairs(kv: &[(Vec<char>, Vec<char>)]) -> Vec<(String, String)> {
    kv.iter().map(|(k, v)| (text(k), text(v))).collect()
}

fn owned(list: &[(&str, &str)]) -> Vec<(String, String)> {
    list.iter().map(|(k, v)| (k.to_string(), v.to_string())).collect()
}

fn options(arch: Architecture, accel: AccelMode) -> SystemOptions {
    SystemOptions {
        arch,
        accel_mode: accel,
        mounts: vec![],
        no_cpu_topo: false,
        cpu_part: None,
        cpu: None,
        mem: None,
        qemu_overrides: vec![],
        cmd_args: vec![],
    }
}

fn cluster(part: &str, cores: &[usize]) -> CpuCluster {
    CpuCluster { part_id: chars(part), cores: cores.to_vec() }
}

#[test]
fn singleton_options() {
    for opt in ["-m", "-smp", "-accel", "-M", "-machine", "-cpu", "-L", "-kernel", "-initrd", "-append"] {
        assert!(is_singleton_opt(&chars(opt)), "{}", opt);
    }
    for opt in ["-device", "-netdev", "-drive", "m", "-mem", ""] {
        assert!(!is_singleton_opt(&chars(opt)), "{}", opt);
    }
}

#[test]
fn set_kv_replaces_single_use_options() {
    let mut args = Vec::new();
    set_kv_arg(&mut args, &chars("-m"), &chars("1G"));
    set_kv_arg(&mut args, &chars("-device"), &chars("a"));
    set_kv_arg(&mut args, &chars("-device"), &chars("b"));
    set_kv_arg(&mut args, &chars("-m"), &chars("2G"));
    assert_eq!(pairs(&args), owned(&[("-m", "2G"), ("-device", "a"), ("-device", "b")]));
}

#[test]
fn overrides_split_at_white_space() {
    let words = split_overrides(&[chars("  -smp 4\t-m  4096M "), chars(""), chars("-nographic")]);
    let words: Vec<String> = words.iter().map(|w| text(w)).collect();
    assert_eq!(words, vec!["-smp", "4", "-m", "4096M", "-nographic"]);
}

#[test]
fn overrides_set_options_or_pass_flags() {
    let mut args = Vec::new();
    set_kv_arg(&mut args, &chars("-smp"), &chars("8"));
    let words: Vec<Vec<char>> =
        ["-smp", "2", "--", "-snapshot", "-device", "virtio-rng", "-x", "--", "-y", "-z", "plain"]
            .iter()
            .map(|w| chars(w))
            .collect();
    let extra = apply_qemu_overrides(&mut args, &words);
    assert_eq!(pairs(&args), owned(&[("-smp", "2"), ("-device", "virtio-rng"), ("-z", "plain")]));
    let extra: Vec<String> = extra.iter().map(|w| text(w)).collect();
    assert_eq!(extra, vec!["-snapshot", "-x", "-y"]);
}

#[test]
fn quoting_escapes_single_quotes() {
    let q = quote_command(&[b"echo".to_vec(), b"it's".to_vec()]);
    assert_eq!(q, b"'echo' 'it'\\''s'".to_vec());
    assert_eq!(quote_command(&[]), Vec::<u8>::new());
}

#[test]
fn kernel_cmdline_carries_the_command_in_base64() {
    let line = build_kernel_cmdline(Architecture::X86_64, &[b"/bin/true".to_vec()]).unwrap();
    assert_eq!(line, b"console=ttyS0 quiet panic=-1 qemucmd64=Jy9iaW4vdHJ1ZSc=".to_vec());
    let line = build_kernel_cmdline(Architecture::Aarch64, &[]).unwrap();
    assert_eq!(line, b"console=ttyAMA0,115200 quiet panic=-1".to_vec());
    let line = build_kernel_cmdline(Architecture::Aarch64, &[b"echo".to_vec(), b"it's".to_vec()]).unwrap();
    assert_eq!(line, b"console=ttyAMA0,115200 quiet panic=-1 qemucmd64=J2VjaG8nICdpdCdcJydzJw==".to_vec());
}

#[test]
fn plan_for_custom_qemu_options() {
    let mut opts = options(Architecture::X86_64, AccelMode::Kvm);
    opts.cpu = Some(chars("0"));
    opts.mem = Some(chars("0"));
    opts.qemu_overrides = vec![chars("-smp 4,cores=2,threads=2 -m 4096M")];
    opts.cmd_args = vec![b"sysbench".to_vec(), b"cpu".to_vec(), b"run".to_vec()];
    let plan = plan_qemu(&opts, None, 16, &chars("/tmp/bios")).unwrap();
    assert_eq!(
        pairs(&plan.kv_args),
        owned(&[
            ("-M", "microvm,isa-serial=on,rtc=on"),
            ("-cpu", "host"),
            ("-accel", "kvm"),
            ("-L", "/tmp/bios"),
            ("-smp", "4,cores=2,threads=2"),
            ("-m", "4096M"),
        ])
    );
    assert!(plan.extra_flags.is_empty());
    assert_eq!(
        plan.kernel_cmdline,
        b"console=ttyS0 quiet panic=-1 qemucmd64=J3N5c2JlbmNoJyAnY3B1JyAncnVuJw==".to_vec()
    );
}

#[test]
fn plan_defaults() {
    let opts = options(Architecture::Aarch64, AccelMode::Tcg);
    let plan = plan_qemu(&opts, None, 8, &chars("/b")).unwrap();
    assert_eq!(
        pairs(&plan.kv_args),
        owned(&[("-M", "virt"), ("-cpu", "max"), ("-accel", "tcg"), ("-smp", "8"), ("-m", "1024M"), ("-L", "/b")])
    );
    assert_eq!(plan.kernel_cmdline, b"console=ttyAMA0,115200 quiet panic=-1".to_vec());

    let plan = plan_qemu(&opts, None, -1, &chars("/b")).unwrap();
    assert_eq!(text(&plan.kv_args[3].1), "2");
    let plan = plan_qemu(&opts, Some(4), 8, &chars("/b")).unwrap();
    assert_eq!(text(&plan.kv_args[3].1), "4");

    let mut opts = options(Architecture::X86_64, AccelMode::Kvm);
    opts.cpu = Some(chars("3"));
    opts.mem = Some(chars("2G"));
    opts.qemu_overrides = vec![chars("-smp 6 -nodefaults --")];
    let plan = plan_qemu(&opts, Some(4), 8, &chars("/b")).unwrap();
    assert_eq!(
        pairs(&plan.kv_args),
        owned(&[
            ("-M", "microvm,isa-serial=on,rtc=on"),
            ("-cpu", "host"),
            ("-accel", "kvm"),
            ("-smp", "6"),
            ("-m", "2G"),
            ("-L", "/b"),
        ])
    );
    let extra: Vec<String> = plan.extra_flags.iter().map(|w| text(w)).collect();
    assert_eq!(extra, vec!["-nodefaults"]);
}

#[test]
fn kvm_needs_a_matching_host() {
    let x = Architecture::X86_64;
    let a = Architecture::Aarch64;
    assert_eq!(check_kvm(x, AccelMode::Kvm, Some(x), true), Ok(()));
    assert_eq!(check_kvm(x, AccelMode::Kvm, Some(x), false), Err(SystemError::KvmUnavailable));
    assert_eq!(check_kvm(a, AccelMode::Kvm, Some(x), true), Err(SystemError::KvmUnavailable));
    assert_eq!(check_kvm(a, AccelMode::Kvm, None, true), Err(SystemError::KvmUnavailable));
    assert_eq!(check_kvm(a, AccelMode::Tcg, Some(x), false), Ok(()));
}

#[test]
fn cluster_choice_for_a_run() {
    assert!(needs_cluster_detection(Architecture::Aarch64, AccelMode::Kvm));
    assert!(!needs_cluster_detection(Architecture::Aarch64, AccelMode::Tcg));
    assert!(!needs_cluster_detection(Architecture::X86_64, AccelMode::Kvm));

    let two = vec![cluster("0xd05", &[0, 1, 2, 3]), cluster("0xd0b", &[4, 5])];
    let one = vec![cluster("0xd05", &[0, 1])];
    let mut opts = options(Architecture::Aarch64, AccelMode::Kvm);
    assert_eq!(vm_cluster_choice(&opts, &two), Ok(ClusterChoice::Default { announced: true }));
    assert_eq!(vm_cluster_choice(&opts, &one), Ok(ClusterChoice::Default { announced: false }));
    assert_eq!(vm_cluster_choice(&opts, &[]), Ok(ClusterChoice::Unpinned));
    opts.cpu_part = Some(2);
    assert_eq!(vm_cluster_choice(&opts, &two), Ok(ClusterChoice::Preselected { index: 1 }));
    opts.cpu_part = Some(3);
    assert_eq!(vm_cluster_choice(&opts, &two), Err(CpuError::InvalidPart { index: 3, count: 2 }));
    assert_eq!(vm_cluster_choice(&opts, &one), Ok(ClusterChoice::Default { announced: false }));
    opts.no_cpu_topo = true;
    assert_eq!(vm_cluster_choice(&opts, &two), Ok(ClusterChoice::TopologyDisabled));
    assert_eq!(vm_cluster_choice(&opts, &one), Ok(ClusterChoice::Unpinned));
    let tcg = options(Architecture::Aarch64, AccelMode::Tcg);
    assert_eq!(vm_cluster_choice(&tcg, &two), Ok(ClusterChoice::Unpinned));
}

fn shell_words(line: &[u8]) -> Vec<Vec<u8>> {
    let mut words = Vec::new();
    let mut cur = Vec::new();
    let (mut in_word, mut quoted, mut escaped) = (false, false, false);
    for &b in line {
        if escaped {
            cur.push(b);
            escaped = false;
            in_word = true;
        } else if quoted {
            if b == b'\'' {
                quoted = false;
            } else {
                cur.push(b);
            }
        } else if b == b' ' || b == b'\t' || b == b'\n' {
            if in_word {
                words.push(std::mem::take(&mut cur));
                in_word = false;
            }
        } else if b == b'\'' {
            quoted = true;
            in_word = true;
        } else if b == b'\\' {
            escaped = true;
            in_word = true;
        } else {
            cur.push(b);
            in_word = true;
        }
    }
    if in_word {
        words.push(cur);
    }
    words
}

#[test]
fn guest_recovers_the_command() {
    let args: Vec<Vec<u8>> = vec![
        b"sh".to_vec(),
        b"-c".to_vec(),
        b"echo 'quoted' \"double\" $HOME; exit 3".to_vec(),
        b"".to_vec(),
        b"it's".to_vec(),
        b"''".to_vec(),
        vec![0xff, b'\\', b'\n'],
    ];
    for arch in [Architecture::X86_64, Architecture::Aarch64] {
        let line = build_kernel_cmdline(arch, &args).unwrap();
        let head: &[u8] = match arch {
            Architecture::X86_64 => b"console=ttyS0 quiet panic=-1 qemucmd64=",
            Architecture::Aarch64 => b"console=ttyAMA0,115200 quiet panic=-1 qemucmd64=",
        };
        assert!(line.starts_with(head));
        let decoded = base64::engine::general_purpose::STANDARD.decode(&line[head.len()..]).unwrap();
        assert_eq!(decoded, quote_command(&args));
        assert_eq!(shell_words(&decoded), args);
    }
}

#[test]
fn single_use_options_stay_single() {
    let mut opts = options(Architecture::X86_64, AccelMode::Tcg);
    opts.qemu_overrides = vec![chars("-smp 2 -smp 3 -m 1G -M q35 -machine pc -machine virt -device a -device b")];
    let plan = plan_qemu(&opts, None, 4, &chars("/b")).unwrap();
    let keys: Vec<String> = plan.kv_args.iter().map(|(k, _)| text(k)).collect();
    for single in ["-smp", "-m", "-M", "-machine", "-cpu", "-accel", "-L"] {
        assert!(keys.iter().filter(|k| *k == single).count() <= 1, "{}", single);
    }
    assert_eq!(keys.iter().filter(|k| *k == "-device").count(), 2);
    assert_eq!(
        pairs(&plan.kv_args),
        owned(&[
            ("-M", "q35"),
            ("-cpu", "max"),
            ("-accel", "tcg"),
            ("-smp", "3"),
            ("-m", "1G"),
            ("-L", "/b"),
            ("-machine", "virt"),
            ("-device", "a"),
            ("-device", "b"),
        ])
    );
}

#[test]
fn qemu_command_line_order() {
    let mut opts = options(Architecture::X86_64, AccelMode::Tcg);
    opts.qemu_overrides = vec![chars("-snapshot")];
    opts.cmd_args = vec![b"/bin/true".to_vec()];
    let plan = plan_qemu(&opts, None, 2, &chars("/b")).unwrap();
    let shown: Vec<String> = qemu_args(&plan)
        .into_iter()
        .map(|a| match a {
            QemuArg::Text(t) => text(&t),
            QemuArg::KernelPath => "<kernel>".to_string(),
            QemuArg::InitrdPath => "<initrd>".to_string(),
            QemuArg::KernelCmdline(c) => String::from_utf8(c).unwrap(),
        })
        .collect();
    assert_eq!(
        shown,
        vec![
            "-M", "microvm,isa-serial=on,rtc=on", "-cpu", "max", "-accel", "tcg", "-smp", "2", "-m", "1024M", "-L",
            "/b", "-snapshot", "-kernel", "<kernel>", "-initrd", "<initrd>", "-append",
            "console=ttyS0 quiet panic=-1 qemucmd64=Jy9iaW4vdHJ1ZSc=", "-nographic", "-serial", "stdio", "-monitor",
            "none", "-no-reboot",
        ]
    );
}
