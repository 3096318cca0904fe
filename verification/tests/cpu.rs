use qemulbench::cpu::{chars_less, parse_cpuinfo, select_arm_cluster, ClusterChoice, CpuCluster, CpuError};

fn lines(text: &str) -> Vec<Vec<char>> {
    text.lines().map(|l| l.chars().collect()).collect()
}

fn summary(clusters: &[CpuCluster]) -> Vec<(String, Vec<usize>)> {
    clusters.iter().map(|c| (c.part_id.iter().collect(), c.cores.clone())).collect()
}

fn cluster(part: &str, cores: &[usize]) -> CpuCluster {
    CpuCluster { part_id: part.chars().collect(), cores: cores.to_vec() }
}

#[test]
fn groups_cores_by_part() {
    let info = "processor\t: 0\nBogoMIPS\t: 48.00\nCPU implementer\t: 0x41\nCPU part\t: 0xd05\n\n\
                processor\t: 1\nCPU part\t: 0xD05\n\n\
                processor\t: 4\nCPU part\t: 3339\n\n\
                processor\t: 5\nCPU part\t: 0xd0b\n\n\
                processor\t: 2\nCPU part\t: 0xd05\n\n\
                processor\t: 2\nCPU part\t: 0xd05\n";
    let clusters = parse_cpuinfo(&lines(info));
    assert_eq!(
        summary(&clusters),
        vec![("0xd05".to_string(), vec![0, 1, 2]), ("0xd0b".to_string(), vec![4, 5])]
    );
}

#[test]
fn part_numbers_are_normalised_and_ordered() {
    let info = "processor : 3\nCPU part : 7\nprocessor : 1\nCPU part : Foo\nprocessor : 0\nCPU part : 0x00A\n";
    let clusters = parse_cpuinfo(&lines(info));
    assert_eq!(
        summary(&clusters),
        vec![
            ("0x007".to_string(), vec![3]),
            ("0x00a".to_string(), vec![0]),
            ("foo".to_string(), vec![1]),
        ]
    );
}

#[test]
fn parts_without_a_processor_are_ignored() {
    let info = "CPU part : 0xd05\nprocessor : 0\nprocessor : nope\nCPU part : 0xd03\nCPU part : 0xd04\nCPU part\nprocessor : 9\n";
    let clusters = parse_cpuinfo(&lines(info));
    assert_eq!(summary(&clusters), vec![("0xd03".to_string(), vec![0])]);
    assert!(parse_cpuinfo(&lines("model name : Intel\nflags : fpu\n")).is_empty());
    assert!(parse_cpuinfo(&[]).is_empty());
}

#[test]
fn wide_part_numbers_keep_all_digits() {
    let clusters = parse_cpuinfo(&lines("processor: 0\nCPU part: 65535:extra\n"));
    assert_eq!(summary(&clusters), vec![("0xffff".to_string(), vec![0])]);
}

#[test]
fn string_order() {
    let c = |s: &str| s.chars().collect::<Vec<char>>();
    assert!(chars_less(&c("0xd05"), &c("0xd0b")));
    assert!(chars_less(&c("ab"), &c("abc")));
    assert!(!chars_less(&c("abc"), &c("ab")));
    assert!(!chars_less(&c("x"), &c("x")));
    assert!(chars_less(&c("Z"), &c("a")));
}

#[test]
fn selecting_a_cluster() {
    let two = vec![cluster("0xd05", &[0, 1]), cluster("0xd0b", &[2, 3])];
    assert_eq!(select_arm_cluster(&[], false, Some(1)), Ok(ClusterChoice::Unpinned));
    assert_eq!(select_arm_cluster(&two, true, Some(1)), Ok(ClusterChoice::TopologyDisabled));
    assert_eq!(select_arm_cluster(&two, false, Some(0)), Ok(ClusterChoice::PartZero));
    assert_eq!(select_arm_cluster(&two, false, Some(1)), Ok(ClusterChoice::Preselected { index: 0 }));
    assert_eq!(select_arm_cluster(&two, false, Some(2)), Ok(ClusterChoice::Preselected { index: 1 }));
    assert_eq!(select_arm_cluster(&two, false, Some(3)), Err(CpuError::InvalidPart { index: 3, count: 2 }));
    assert_eq!(select_arm_cluster(&two, false, None), Ok(ClusterChoice::Default { announced: true }));
    assert_eq!(select_arm_cluster(&two[..1], false, None), Ok(ClusterChoice::Default { announced: false }));
}

#[test]
fn choice_index() {
    assert_eq!(ClusterChoice::Preselected { index: 4 }.index(), Some(4));
    assert_eq!(ClusterChoice::Default { announced: true }.index(), Some(0));
    assert_eq!(ClusterChoice::PartZero.index(), None);
    assert_eq!(ClusterChoice::Unpinned.index(), None);
    assert_eq!(ClusterChoice::TopologyDisabled.index(), None);
}

#[test]
fn grouping_ignores_listing_order() {
    let a = "processor : 0\nCPU part : 0xd05\nprocessor : 4\nCPU part : 0xd0b\nprocessor : 1\nCPU part : 0xd05\n";
    let b = "processor : 4\nCPU part : 0xd0b\nprocessor : 1\nCPU part : 0xd05\nprocessor : 0\nCPU part : 0xd05\n";
    assert_eq!(summary(&parse_cpuinfo(&lines(a))), summary(&parse_cpuinfo(&lines(b))));
}

#[test]
fn upper_case_hex_parts_merge() {
    let info = "processor : 0\nCPU part : 0XD05\nprocessor : 1\nCPU part : 0xd05\nprocessor : 2\nCPU part : 0xD05\n";
    assert_eq!(summary(&parse_cpuinfo(&lines(info))), vec![("0xd05".to_string(), vec![0, 1, 2])]);
}

#[test]
fn listing_text() {
    let text = |v: Vec<Vec<char>>| v.into_iter().map(|l| l.into_iter().collect::<String>()).collect::<Vec<_>>();
    assert_eq!(
        text(qemulbench::cpu::cluster_listing(&[])),
        vec!["No ARM CPU clusters detected or not running on ARM Linux host.".to_string()]
    );
    let two = vec![cluster("0xd05", &[0, 1, 2, 3]), cluster("0xd0b", &[10])];
    assert_eq!(
        text(qemulbench::cpu::cluster_listing(&two)),
        vec![
            "Detected ARM CPU clusters:".to_string(),
            "  [1] CPU Part: 0xd05 - Cores: 0,1,2,3 (4 cores)".to_string(),
            "  [2] CPU Part: 0xd0b - Cores: 10 (1 cores)".to_string(),
        ]
    );
    let empty_cores = cluster("x", &[]);
    assert_eq!(
        qemulbench::cpu::describe_cluster(7, &empty_cores).into_iter().collect::<String>(),
        "  [7] CPU Part: x - Cores:  (0 cores)"
    );
}
