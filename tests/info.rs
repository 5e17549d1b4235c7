use prom_cnproc::info::{parse_cmdline, parse_ppid, strip_triplet, Process, ENTROPY_MAX};

fn dummy_path(exe: &str) -> Process {
    Process::from(0, 0, exe, vec![])
}

#[test]
fn labels() {
    let t = dummy_path("/usr/bin/dd");
    assert_eq!("base", t.label());

    let t = dummy_path("/usr/bin/dd-outer");
    assert_eq!("dd-outer", t.label());
}

#[test]
fn entropies() {
    let t = dummy_path("/tmp/target/debug/deps/prom_cnproc-0883569a23a4bd16");
    assert_eq!(0.15128307, f32::from_bits(t.entropy()));

    let t = dummy_path("/tmp/target/debug/deps/prom_cnproc");
    assert_eq!(0.24837805, f32::from_bits(t.entropy()));

    let t = dummy_path("/tmp/ZW50cm9weQo/any-shady-process");
    assert_eq!(0.20322484, f32::from_bits(t.entropy()));
}

#[test]
fn shell_script_label() {
    let p = Process::from(
        0,
        0,
        "/bin/bash",
        vec![
            String::from("sh"),
            String::from("/etc/init.d/hwclock.sh"),
            String::from("-a"),
            String::from("-b"),
        ],
    );
    assert_eq!("hwclock.sh", p.label())
}

#[test]
fn missing_script_falls_back_to_interpreter() {
    let p = Process::from(
        0,
        0,
        "/bin/bash",
        vec![String::from("bash"), String::from("/no/such/dir/script.sh")],
    );
    assert_eq!(Some("/bin/bash"), p.actual_runnable());
    assert_eq!("bash", p.label());
}

#[test]
fn inline_command_is_not_a_script() {
    let p = Process::from(
        0,
        0,
        "/bin/sh",
        vec![String::from("sh"), String::from("-c"), String::from("echo hi")],
    );
    assert_eq!(Some("/bin/sh"), p.actual_runnable());
}

#[test]
fn non_interpreter_keeps_executable() {
    let p = Process::from(
        0,
        0,
        "/usr/local/bin/tool",
        vec![String::from("tool"), String::from("/etc/init.d/hwclock.sh")],
    );
    assert!(!p.is_shell());
    assert!(!p.is_python());
    assert_eq!("tool", p.label());
}

#[test]
fn python_is_interpreter() {
    let p = dummy_path("/usr/bin/python3.9");
    assert!(p.is_python());
    assert!(!p.is_shell());
    assert!(dummy_path("/bin/zsh").is_shell());
}

#[test]
fn undecodable_path_labels_unknown() {
    let p = Process::new(7, "x\0", "7 (x) S 1", None, None, 0).unwrap();
    assert_eq!(None, p.actual_runnable());
    assert_eq!("unknown", p.label());
    assert_eq!(ENTROPY_MAX, p.entropy());
}

#[test]
fn root_path_labels_unknown() {
    assert_eq!("unknown", dummy_path("/").label());
}

#[test]
fn labels_are_never_empty() {
    for exe in ["/", "/usr/bin/", "", "/usr/bin/dd", "/opt/a/b", "x86_64-linux-gnu-"] {
        assert!(!dummy_path(exe).label().is_empty());
    }
}

#[test]
fn triplet_is_stripped() {
    let cross = dummy_path("/usr/local/bin/x86_64-linux-gnu-gcc");
    let plain = dummy_path("/usr/local/bin/gcc");
    assert_eq!("gcc", cross.label());
    assert_eq!(plain.label(), cross.label());
    assert_eq!("cargo", strip_triplet("cargo-x86_64-unknown-linux-gnu"));
    assert_eq!("ld", strip_triplet("aarch64-linux-gnu-ld"));
    assert_eq!("gcc", strip_triplet("gcc"));
    assert_eq!("x86_64-linux-gnu-", strip_triplet("x86_64-linux-gnu-"));
}

#[test]
fn entropy_of_single_character_segment_is_zero() {
    assert_eq!(0.0, f32::from_bits(dummy_path("/opt/x/tool").entropy()));
}

#[test]
fn ppid_is_fourth_field() {
    assert_eq!(Some(1), parse_ppid("4242 (bash) S 1 4242 4242 0 -1"));
    assert_eq!(Some(0), parse_ppid("4242 (bash) S"));
    assert_eq!(Some(1), parse_ppid("4242 (a b) S 1"));
    assert_eq!(Some(0), parse_ppid("1 (x)  S"));
    assert_eq!(Some(0), parse_ppid("1 2 3"));
    assert_eq!(Some(0), parse_ppid("1 (x)S 5"));
    assert_eq!(Some(0), parse_ppid(""));
    assert_eq!(Some(77), parse_ppid("900 (tmux: server) S 77 900 900 0"));
    assert_eq!(Some(5), parse_ppid("31 (odd) name) R 5 31\n"));
    assert_eq!(Some(3), parse_ppid("31 (Web Content)\tS\t3\n"));
    assert_eq!(None, parse_ppid("1 (x) S 99999999999"));
    assert_eq!(None, parse_ppid("1 (x) S -"));
}

#[test]
fn cmdline_splits_on_nul() {
    let argv = parse_cmdline("sh\0/etc/init.d/hwclock.sh\0");
    assert_eq!(vec!["sh", "/etc/init.d/hwclock.sh", ""], argv);
}

#[test]
fn process_from_values() {
    let p = Process::new(
        12,
        "python3\0/no/such/tool.py\0",
        "12 (python3) S 3 12 12",
        Some(String::from("/usr/bin/python3.9")),
        Some(String::from("alice")),
        77,
    )
    .unwrap();
    assert_eq!(12, p.pid);
    assert_eq!(3, p.ppid);
    assert_eq!(3, p.argv.len());
    assert_eq!(77, p.start);
    assert_eq!("alice", p.user());
    assert!(!p.script);
    assert_eq!("python3.9", p.label());
    assert!(Process::new(12, "", "12 (x) S nope", None, None, 0).is_none());
}

#[test]
fn user_defaults_to_unknown() {
    assert_eq!("unknown", dummy_path("/usr/bin/dd").user());
}
