use qemulbench::cli::{exit_status_byte, get_host_arch, system_mode, AccelMode, Architecture, SystemMode};
use qemulbench::launch::extract_process_exit_code;

#[test]
fn names() {
    assert_eq!(Architecture::X86_64.as_str(), "x86_64");
    assert_eq!(Architecture::Aarch64.as_str(), "aarch64");
    assert_eq!(AccelMode::Kvm.as_str(), "kvm");
    assert_eq!(AccelMode::Tcg.as_str(), "tcg");
}

#[test]
fn exit_bytes() {
    assert_eq!(exit_status_byte(0), 0);
    assert_eq!(exit_status_byte(3), 3);
    assert_eq!(exit_status_byte(256), 0);
    assert_eq!(exit_status_byte(300), 44);
    assert_eq!(exit_status_byte(-1), 1);
    assert_eq!(exit_status_byte(i32::MIN), 1);
    assert_eq!(exit_status_byte(i32::MAX), 255);
}

#[test]
fn child_exit_codes() {
    assert_eq!(extract_process_exit_code(Some(7), Some(2)), 7);
    assert_eq!(extract_process_exit_code(None, Some(15)), 143);
    assert_eq!(extract_process_exit_code(None, None), 1);
}

#[test]
fn host_architectures() {
    assert_eq!(get_host_arch("x86_64"), Some(Architecture::X86_64));
    assert_eq!(get_host_arch("aarch64"), Some(Architecture::Aarch64));
    assert_eq!(get_host_arch("riscv64"), None);
    assert_eq!(get_host_arch(""), None);
}

#[test]
fn system_subcommand_modes() {
    assert!(matches!(system_mode(None, None, true), SystemMode::ListCpuParts));
    assert!(matches!(
        system_mode(Some(Architecture::Aarch64), Some(AccelMode::Kvm), false),
        SystemMode::Run { arch: Architecture::Aarch64, accel: AccelMode::Kvm }
    ));
    assert!(matches!(system_mode(Some(Architecture::X86_64), None, false), SystemMode::MissingTarget));
    assert!(matches!(system_mode(None, Some(AccelMode::Tcg), false), SystemMode::MissingTarget));
}
