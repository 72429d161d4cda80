use std::path::PathBuf;

use onair_bot::camera::{scan_camera_holders, CameraWatcher, ProcEntry};
use onair_bot::debounce::Debouncer;

/// A process entry as read from `/proc/<pid>`: its `comm` file holds the
/// name and a newline, and its descriptors point at `fd_targets`.
fn fake_process(pid: u32, comm: &str, fd_targets: &[&str]) -> ProcEntry {
    ProcEntry {
        name: pid.to_string(),
        comm: Some(format!("{comm}\n")),
        fd_targets: fd_targets.iter().map(|t| t.to_string()).collect(),
    }
}

/// A directory entry that is not a process directory (no `comm`, no `fd`).
fn other_entry(name: &str) -> ProcEntry {
    ProcEntry {
        name: name.to_string(),
        comm: None,
        fd_targets: Vec::new(),
    }
}

fn ignore_list() -> Vec<String> {
    vec!["pipewire".to_string(), "wireplumber".to_string()]
}

#[test]
fn detects_a_process_holding_a_video_device() {
    let entries = vec![fake_process(100, "firefox", &["/dev/video0", "socket:[42]"])];

    let holders = scan_camera_holders(&entries, &ignore_list());
    assert_eq!(holders, ["firefox (pid 100)"]);
}

#[test]
fn reports_nothing_when_no_video_device_is_open() {
    let entries = vec![fake_process(100, "bash", &["/dev/null", "pipe:[7]"])];

    let holders = scan_camera_holders(&entries, &ignore_list());
    assert!(holders.is_empty());
}

#[test]
fn ignores_background_media_services() {
    let entries = vec![
        fake_process(100, "pipewire", &["/dev/video0"]),
        fake_process(101, "wireplumber", &["/dev/video1"]),
    ];

    let holders = scan_camera_holders(&entries, &ignore_list());
    assert!(holders.is_empty());
}

#[test]
fn detects_any_video_device_not_just_video0() {
    let entries = vec![fake_process(100, "zoom", &["/dev/video2"])];

    let holders = scan_camera_holders(&entries, &ignore_list());
    assert_eq!(holders, ["zoom (pid 100)"]);
}

#[test]
fn skips_non_pid_entries_and_processes_without_fds() {
    let entries = vec![
        other_entry("acpi"),
        other_entry("uptime"),
        fake_process(100, "obs", &["/dev/video0"]),
    ];

    let holders = scan_camera_holders(&entries, &ignore_list());
    assert_eq!(holders, ["obs (pid 100)"]);
}

#[test]
fn results_are_sorted_for_stable_logging() {
    let entries = vec![
        fake_process(200, "zoom", &["/dev/video0"]),
        fake_process(100, "firefox", &["/dev/video0"]),
    ];

    let holders = scan_camera_holders(&entries, &ignore_list());
    assert_eq!(holders, ["firefox (pid 100)", "zoom (pid 200)"]);
}

#[test]
fn watcher_takes_an_immediate_initial_reading() {
    let entries = vec![fake_process(100, "firefox", &["/dev/video0"])];

    let watcher = CameraWatcher::new(PathBuf::from("/proc"), ignore_list(), 2, &entries);
    assert!(watcher.state());
}

#[test]
fn unreadable_comm_is_labelled_unknown_and_not_ignored() {
    let entries = vec![ProcEntry {
        name: "42".to_string(),
        comm: None,
        fd_targets: vec!["/dev/video0".to_string()],
    }];
    let holders = scan_camera_holders(&entries, &ignore_list());
    assert_eq!(holders, ["unknown (pid 42)"]);
}

#[test]
fn blank_comm_is_labelled_unknown() {
    let entries = vec![ProcEntry {
        name: "7".to_string(),
        comm: Some("  \n".to_string()),
        fd_targets: vec!["/dev/video3".to_string()],
    }];
    let holders = scan_camera_holders(&entries, &ignore_list());
    assert_eq!(holders, ["unknown (pid 7)"]);
}

#[test]
fn ignore_prefixes_match_the_start_of_the_name() {
    let entries = vec![
        fake_process(10, "pipewire-pulse", &["/dev/video0"]),
        fake_process(11, "my-pipewire", &["/dev/video0"]),
    ];
    let holders = scan_camera_holders(&entries, &ignore_list());
    assert_eq!(holders, ["my-pipewire (pid 11)"]);
}

#[test]
fn video_prefix_must_start_the_target() {
    let entries = vec![
        fake_process(10, "cat", &["/tmp/dev/video0", "/dev/vide"]),
        fake_process(11, "cam", &["/dev/videoX"]),
    ];
    let holders = scan_camera_holders(&entries, &ignore_list());
    assert_eq!(holders, ["cam (pid 11)"]);
}

#[test]
fn sorting_is_by_code_point_and_keeps_duplicates() {
    let entries = vec![
        fake_process(3, "b", &["/dev/video0"]),
        fake_process(2, "a", &["/dev/video0"]),
        fake_process(2, "a", &["/dev/video0"]),
        fake_process(1, "B", &["/dev/video0"]),
        fake_process(4, "ä", &["/dev/video0"]),
    ];
    let holders = scan_camera_holders(&entries, &ignore_list());
    let mut expected = vec![
        "b (pid 3)".to_string(),
        "a (pid 2)".to_string(),
        "a (pid 2)".to_string(),
        "B (pid 1)".to_string(),
        "ä (pid 4)".to_string(),
    ];
    expected.sort();
    assert_eq!(holders, expected);
}

#[test]
fn empty_ignore_prefix_ignores_every_named_process() {
    let mut with_fd = other_entry("6");
    with_fd.fd_targets = vec!["/dev/video0".to_string()];
    let entries = vec![fake_process(5, "zoom", &["/dev/video0"]), with_fd];
    let holders = scan_camera_holders(&entries, &vec!["".to_string()]);
    assert_eq!(holders, ["unknown (pid 6)"]);
}

#[test]
fn watcher_poll_debounces_and_keeps_state_on_failed_scan() {
    let idle: Vec<ProcEntry> = vec![fake_process(100, "bash", &["/dev/null"])];
    let busy: Vec<ProcEntry> = vec![fake_process(100, "zoom", &["/dev/video0"])];
    let mut watcher = CameraWatcher::new(PathBuf::from("/proc"), ignore_list(), 2, &idle);
    assert!(!watcher.state());
    assert_eq!(watcher.poll(Some(&busy)), None);
    assert_eq!(watcher.poll(None), None);
    assert_eq!(watcher.poll(Some(&busy)), Some(true));
    assert!(watcher.state());
    assert_eq!(watcher.poll(None), None);
    assert!(watcher.state());
    assert_eq!(watcher.proc_root(), &PathBuf::from("/proc"));
}

#[test]
fn watcher_acts_as_a_debouncer_of_successful_scans() {
    let idle: Vec<ProcEntry> = vec![fake_process(1, "bash", &["/dev/null"])];
    let busy: Vec<ProcEntry> = vec![fake_process(2, "zoom", &["/dev/video0"])];
    let scans: Vec<Option<&Vec<ProcEntry>>> = vec![
        Some(&busy), None, Some(&busy), Some(&idle), None, None, Some(&idle), Some(&busy),
        Some(&busy), Some(&busy),
    ];
    let mut watcher = CameraWatcher::new(PathBuf::from("/proc"), ignore_list(), 3, &idle);
    let mut debouncer = Debouncer::new(false, 3);
    for scan in scans {
        let got = watcher.poll(scan);
        match scan {
            None => assert_eq!(got, None),
            Some(entries) => {
                let in_use = !scan_camera_holders(entries, &ignore_list()).is_empty();
                assert_eq!(got, debouncer.observe(in_use));
            }
        }
        assert_eq!(watcher.state(), debouncer.state());
    }
    assert!(watcher.state());
    assert_eq!(watcher.ignore_processes(), &ignore_list());
}

#[test]
fn more_ignored_prefixes_only_remove_holders() {
    let entries = vec![
        fake_process(1, "zoom", &["/dev/video0"]),
        fake_process(2, "obs", &["/dev/video1"]),
        fake_process(3, "pipewire", &["/dev/video0"]),
    ];
    let few = scan_camera_holders(&entries, &vec!["pipe".to_string()]);
    let more = scan_camera_holders(&entries, &vec!["pipe".to_string(), "zo".to_string()]);
    assert_eq!(few, ["obs (pid 2)", "zoom (pid 1)"]);
    assert_eq!(more, ["obs (pid 2)"]);
    assert!(more.iter().all(|h| few.contains(h)));
}
