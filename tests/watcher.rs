use prom_cnproc::info::Process;
use prom_cnproc::watcher::{tree, Watcher};
use std::collections::HashMap;

#[test]
fn watcher_cmdline_parses() {
    let mut pids = HashMap::new();

    pids.insert(1, Process::from(1, 0, "/usr/bin/bash", vec![]));
    pids.insert(2, Process::from(2, 1, "/usr/sbin/sshd", vec![]));
    pids.insert(
        3,
        Process::from(
            3,
            2,
            "/bin/bash",
            vec![
                String::from("sh"),
                String::from("/etc/init.d/hwclock.sh"),
                String::from("-a"),
                String::from("-b"),
            ],
        ),
    );
    let t = tree(&pids, 3);

    assert_eq!("/base/ssh:unknown/hwclock.sh", t)
}

fn owned(pid: i32, ppid: i32, exe: &str, owner: &str) -> Process {
    let stat = format!("{} (p) S {}", pid, ppid);
    Process::new(pid, "", &stat, Some(String::from(exe)), Some(String::from(owner)), 0).unwrap()
}

#[test]
fn empty_table_gives_root() {
    let pids: HashMap<i32, Process> = HashMap::new();
    assert_eq!("/", tree(&pids, 42));
}

#[test]
fn adjacent_duplicates_collapse() {
    let mut pids = HashMap::new();
    pids.insert(1, Process::from(1, 0, "/usr/local/bin/runner", vec![]));
    pids.insert(2, Process::from(2, 1, "/usr/local/bin/worker", vec![]));
    pids.insert(3, Process::from(3, 2, "/opt/app/worker", vec![]));
    assert_eq!("/runner/worker", tree(&pids, 3));
}

#[test]
fn systemd_is_dropped() {
    let mut pids = HashMap::new();
    pids.insert(1, Process::from(1, 0, "/usr/lib/systemd/systemd", vec![]));
    pids.insert(2, Process::from(2, 1, "/usr/local/bin/app", vec![]));
    assert_eq!("/app", tree(&pids, 2));
}

#[test]
fn duplicates_around_noise_collapse() {
    let mut pids = HashMap::new();
    pids.insert(1, Process::from(1, 0, "/usr/local/bin/app", vec![]));
    pids.insert(2, Process::from(2, 1, "/usr/lib/systemd/systemd", vec![]));
    pids.insert(3, Process::from(3, 2, "/usr/local/bin/app", vec![]));
    assert_eq!("/app", tree(&pids, 3));
}

#[test]
fn ssh_hop_names_leaf_owner() {
    let mut pids = HashMap::new();
    pids.insert(1, owned(1, 0, "/usr/local/bin/init", "root"));
    pids.insert(2, owned(2, 1, "/usr/sbin/sshd", "root"));
    pids.insert(3, owned(3, 2, "/usr/local/bin/app", "alice"));
    assert_eq!("/init/ssh:alice/app", tree(&pids, 3));
}

#[test]
fn low_entropy_path_is_marked_random() {
    let mut pids = HashMap::new();
    pids.insert(1, Process::from(1, 0, "/usr/local/bin/init", vec![]));
    pids.insert(2, Process::from(2, 1, "/opt/x/tool", vec![]));
    assert_eq!("/init/tool/random", tree(&pids, 2));
}

#[test]
fn ordinary_paths_are_not_random() {
    let mut pids = HashMap::new();
    pids.insert(1, Process::from(1, 0, "/usr/bin/bash", vec![]));
    pids.insert(2, Process::from(2, 1, "/usr/local/bin/server", vec![]));
    assert_eq!("/base/server", tree(&pids, 2));
}

#[test]
fn long_hex_directory_is_random() {
    let dir = "0123456789abcdef".repeat(12);
    let exe = format!("/tmp/{}/payload", dir);
    let mut pids = HashMap::new();
    pids.insert(5, Process::from(5, 0, &exe, vec![]));
    assert_eq!("/payload/random", tree(&pids, 5));
}

#[test]
fn tree_query_is_repeatable() {
    let mut pids = HashMap::new();
    pids.insert(1, Process::from(1, 0, "/usr/bin/bash", vec![]));
    pids.insert(2, Process::from(2, 1, "/usr/sbin/sshd", vec![]));
    pids.insert(3, Process::from(3, 2, "/usr/local/bin/app", vec![]));
    assert_eq!(tree(&pids, 3), tree(&pids, 3));
}

#[test]
fn cyclic_table_terminates() {
    let mut pids = HashMap::new();
    pids.insert(1, Process::from(1, 2, "/usr/local/bin/alpha", vec![]));
    pids.insert(2, Process::from(2, 1, "/usr/local/bin/beta", vec![]));
    assert_eq!("/alpha/beta", tree(&pids, 2));
}

#[test]
fn exit_of_unknown_pid_changes_nothing() {
    let mut w = Watcher::new();
    assert!(w.stop(99, 10).is_none());
    assert!(!w.tracks(99));
}

#[test]
fn exec_walk_stops_at_tracked_ancestor() {
    let mut w = Watcher::new();
    assert_eq!(None, w.next_to_resolve(0));
    assert_eq!(Some(10), w.next_to_resolve(10));
    let next = w.discovered(Process::from(10, 1, "/usr/local/bin/app", vec![]));
    assert_eq!(1, next);
    assert!(w.tracks(10));
    assert_eq!(None, w.next_to_resolve(10));
    assert_eq!("/app", w.started(10));
}

#[test]
fn exit_untracks_and_reports() {
    let mut w = Watcher::new();
    w.discovered(Process::from(1, 0, "/usr/local/bin/parent", vec![]));
    let stat = "2 (child) S 1";
    let child = Process::new(2, "", stat, Some(String::from("/usr/local/bin/child")), None, 100).unwrap();
    w.discovered(child);
    assert_eq!("/parent/child", w.started(2));
    let stopped = w.stop(2, 350).unwrap();
    assert_eq!(250, stopped.nanos);
    assert_eq!("/", stopped.tree);
    assert!(!w.tracks(2));
    assert!(w.tracks(1));
    assert!(w.stop(2, 400).is_none());
}
