use qemulbench::launch::{
    effective_command, guest_exit_code, locate_bin, native_exec_target, scan_guest_line, search_dirs,
};

#[test]
fn default_command_is_a_shell() {
    assert_eq!(effective_command(&[]), vec![b"/bin/sh".to_vec()]);
    let cmd = vec![b"7zz".to_vec(), b"b".to_vec()];
    assert_eq!(effective_command(&cmd), cmd);
}

#[test]
fn programs_are_searched_in_order() {
    assert_eq!(search_dirs(), vec![b"usr/bin".to_vec(), b"bin".to_vec(), b"usr/sbin".to_vec(), b"sbin".to_vec()]);
    assert_eq!(native_exec_target(b"sysbench", [true, true, false, false]), b"/usr/bin/sysbench".to_vec());
    assert_eq!(native_exec_target(b"ls", [false, true, false, true]), b"/bin/ls".to_vec());
    assert_eq!(native_exec_target(b"ip", [false, false, true, true]), b"/usr/sbin/ip".to_vec());
    assert_eq!(native_exec_target(b"init", [false, false, false, true]), b"/sbin/init".to_vec());
    assert_eq!(native_exec_target(b"nothing", [false; 4]), b"/bin/nothing".to_vec());
    assert_eq!(native_exec_target(b"/mnt/w/bench.sh", [true; 4]), b"/mnt/w/bench.sh".to_vec());
}

#[test]
fn rootfs_relative_locations() {
    assert_eq!(locate_bin(b"7zz", [true, false, false, false]), b"usr/bin/7zz".to_vec());
    assert_eq!(locate_bin(b"x", [false; 4]), b"bin/x".to_vec());
    assert_eq!(locate_bin(b"//opt/tool", [false; 4]), b"opt/tool".to_vec());
    assert_eq!(locate_bin(b"/", [false; 4]), b"".to_vec());
}

#[test]
fn guest_output_lines() {
    assert_eq!(scan_guest_line(None, b"booting...\n"), (None, true));
    assert_eq!(scan_guest_line(None, b"[qemulbench_exit_code=3]\n"), (Some(3), false));
    assert_eq!(scan_guest_line(Some(1), b"xx[qemulbench_exit_code= -7 ]yy\r\n"), (Some(-7), false));
    assert_eq!(scan_guest_line(Some(5), b"[qemulbench_exit_code=abc]\n"), (Some(5), false));
    assert_eq!(scan_guest_line(Some(5), b"[qemulbench_exit_code=12\n"), (Some(5), false));
    assert_eq!(scan_guest_line(None, b"[qemulbench_exit_code=\xff]\n"), (None, false));
    assert_eq!(scan_guest_line(None, b"[qemulbench_exit_code"), (None, true));
    assert_eq!(
        scan_guest_line(None, b"[qemulbench_exit_code=1][qemulbench_exit_code=2]"),
        (Some(1), false)
    );
    assert_eq!(scan_guest_line(None, b"[qemulbench_exit_code=99999999999]"), (None, false));
}

#[test]
fn guest_exit_code_prefers_the_reported_code() {
    assert_eq!(guest_exit_code(Some(42), Some(0), None), 42);
    assert_eq!(guest_exit_code(None, Some(3), None), 3);
    assert_eq!(guest_exit_code(None, None, Some(9)), 137);
    assert_eq!(guest_exit_code(None, None, None), 1);
}

#[test]
fn last_readable_report_wins() {
    let lines: Vec<&[u8]> = vec![
        b"boot\n",
        b"[qemulbench_exit_code=4]\n",
        b"more output\n",
        b"[qemulbench_exit_code=oops]\n",
        b"[qemulbench_exit_code=9]\n",
        b"[qemulbench_exit_code=]\n",
        b"tail\n",
    ];
    let mut captured = None;
    let mut shown = Vec::new();
    for line in &lines {
        let (next, show) = scan_guest_line(captured, line);
        captured = next;
        if show {
            shown.push(line.to_vec());
        }
    }
    assert_eq!(captured, Some(9));
    assert_eq!(shown, vec![b"boot\n".to_vec(), b"more output\n".to_vec(), b"tail\n".to_vec()]);
    assert_eq!(guest_exit_code(captured, Some(0), None), 9);
}
