use emerge_watch::pattern::{is_invocation, is_job_process, is_worker, parse_job_command, parse_job_tag, split_package};
use emerge_watch::snapshot::{ProcessInfo, Snapshot};
use emerge_watch::text::{ends_with, split_words};
use emerge_watch::tracker::{fits_clock, proc_time_to_unix_time, BuildJob, Clock, EbuildProcWatcher};

const SEC: u64 = 1_000_000_000;

fn chars(s: &str) -> Vec<char> {
    s.chars().collect()
}

fn words_of(s: &str) -> Vec<Vec<char>> {
    split_words(&chars(s))
}

fn proc_info(pid: u32, parent: Option<u32>, args: Option<&[&str]>, start_secs: u64) -> ProcessInfo {
    ProcessInfo {
        pid,
        parent,
        args: args.map(|a| a.iter().map(|s| s.to_string()).collect()),
        start_time: start_secs * SEC,
    }
}

fn clock() -> Clock {
    Clock { uptime: 1_000 * SEC, now: 1_700_000_000 * SEC }
}

fn init() -> ProcessInfo {
    proc_info(1, None, Some(&["/sbin/init"]), 0)
}

fn emerge(pid: u32, parent: u32) -> ProcessInfo {
    proc_info(
        pid,
        Some(parent),
        Some(&["/usr/bin/python3.12", "/usr/lib/python-exec/python3.12/emerge", "-av", "gentoo-sources"]),
        10,
    )
}

fn sandbox(pid: u32, parent: u32, tag: &str, phase: &str, start: u64) -> ProcessInfo {
    let head = format!("{} sandbox", tag);
    proc_info(
        pid,
        Some(parent),
        Some(&[head.as_str(), "/usr/lib/portage/python3.12/ebuild.sh", phase]),
        start,
    )
}

fn worker(pid: u32, parent: u32, phase: &str) -> ProcessInfo {
    proc_info(pid, Some(parent), Some(&["bash", "/usr/lib/portage/python3.12/ebuild.sh", phase]), 60)
}

fn kernel_snapshot(phase: &str, sandbox_pid: u32, start: u64) -> Snapshot {
    Snapshot {
        procs: vec![
            init(),
            emerge(100, 1),
            sandbox(sandbox_pid, 100, "[sys-kernel/cachyos-kernel-6.15.1]", phase, start),
            worker(300, sandbox_pid, phase),
        ],
    }
}

fn job<'a>(w: &'a EbuildProcWatcher, master: u32, pid: u32) -> Option<&'a BuildJob> {
    w.active().get(&master).and_then(|jobs| jobs.get(&pid))
}

fn job_count(w: &EbuildProcWatcher) -> usize {
    w.active().values().map(|jobs| jobs.len()).sum()
}

#[test]
fn parse_cachyos_kernel_line() {
    let line = String::from("[sys-kernel/cachyos-kernel-6.15.1] sandbox /usr/lib/portage/x/ebuild.sh compile");
    let (c, p, v, ph) = parse_job_command(&line).unwrap();
    assert_eq!(c, "sys-kernel");
    assert_eq!(p, "cachyos-kernel");
    assert_eq!(v, "6.15.1");
    assert_eq!(ph, "compile");
}

#[test]
fn parse_python_line() {
    let line = String::from("[dev-lang/python-3.11.9] sandbox /usr/lib/portage/x/ebuild.sh unpack");
    let (c, p, v, ph) = parse_job_command(&line).unwrap();
    assert_eq!(c, "dev-lang");
    assert_eq!(p, "python");
    assert_eq!(v, "3.11.9");
    assert_eq!(ph, "unpack");
}

#[test]
fn parse_rejects_other_shapes() {
    let bad = [
        "",
        "[sys-kernel/foo-1.0] sandbox /usr/lib/portage/x/ebuild.sh",
        "[sys-kernel/foo-1.0] sandbox /usr/lib/portage/x/ebuild.sh compile extra",
        "sys-kernel/foo-1.0] sandbox /usr/lib/portage/x/ebuild.sh compile",
        "[sys-kernel/foo-1.0 sandbox /usr/lib/portage/x/ebuild.sh compile",
        "[sys-kernel/foo-1.0] sandboxed /usr/lib/portage/x/ebuild.sh compile",
        "[sys-kernel/foo-1.0] sandbox /usr/lib/portage/x/ebuild.py compile",
        "[foo-1.0] sandbox /usr/lib/portage/x/ebuild.sh compile",
    ];
    for line in bad {
        assert!(parse_job_command(&line.to_string()).is_none(), "{}", line);
    }
}

#[test]
fn parse_splits_on_any_whitespace() {
    let line = String::from("  [app-misc/foo-2.0]\tsandbox\n/x/ebuild.sh   install ");
    let (c, p, v, ph) = parse_job_command(&line).unwrap();
    assert_eq!((c.as_str(), p.as_str(), v.as_str(), ph.as_str()), ("app-misc", "foo", "2.0", "install"));
}

#[test]
fn tag_brackets_trimmed_from_both_ends() {
    let (c, p, v) = parse_job_tag(&chars("[[a-b/c-d-10-r1]]")).unwrap();
    assert_eq!((c.as_str(), p.as_str(), v.as_str()), ("a-b", "c-d", "10-r1"));
    assert!(parse_job_tag(&chars("[nodash]")).is_none());
    let (c, p, v) = parse_job_tag(&chars("[x/y/z-1]")).unwrap();
    assert_eq!((c.as_str(), p.as_str(), v.as_str()), ("x", "y/z", "1"));
}

#[test]
fn package_version_heuristic() {
    let split = |s: &str| {
        let (p, v) = split_package(&chars(s));
        (p, v)
    };
    assert_eq!(split("foo-bar-1.2.3_p1-r1"), ("foo-bar".to_string(), "1.2.3_p1-r1".to_string()));
    assert_eq!(split("noversion"), ("noversion".to_string(), String::new()));
    assert_eq!(split("9base-1.0"), (String::new(), "9base-1.0".to_string()));
    assert_eq!(split("font-3270-2.3.1"), ("font".to_string(), "3270-2.3.1".to_string()));
    assert_eq!(split("-a--b"), ("a--b".to_string(), String::new()));
    assert_eq!(split("--1.0"), (String::new(), "1.0".to_string()));
    assert_eq!(split("a1-b"), ("a1-b".to_string(), String::new()));
}

#[test]
fn words_and_suffixes() {
    let w = words_of(" a  bc\td ");
    assert_eq!(w, vec![chars("a"), chars("bc"), chars("d")]);
    assert!(words_of(" \t\n").is_empty());
    assert!(ends_with(&chars("/usr/lib/ebuild.sh"), &chars("ebuild.sh")));
    assert!(!ends_with(&chars("sh"), &chars("ebuild.sh")));
}

#[test]
fn classifies_command_shapes() {
    let args = |v: &[&str]| v.iter().map(|s| chars(s)).collect::<Vec<_>>();
    assert!(is_worker(&args(&["bash", "/usr/lib/portage/x/ebuild.sh", "compile"])));
    assert!(!is_worker(&args(&["bash", "/usr/lib/portage/x/ebuild.sh"])));
    assert!(!is_worker(&args(&["bash", "/usr/lib/portage/x/misc-functions.sh", "compile"])));
    assert!(is_job_process(&words_of("[a/b-1] sandbox /x/ebuild.sh compile")));
    assert!(!is_job_process(&words_of("[a/b-1] sandbox /x/ebuild.sh")));
    assert!(is_invocation(&words_of("/usr/bin/python3 /usr/lib/python-exec/python3/emerge -av x")));
    assert!(!is_invocation(&words_of("sudo emerge -av x")));
    assert!(!is_invocation(&words_of("/usr/bin/python3 /usr/bin/reemerged")));
    assert!(!is_invocation(&words_of("/usr/lib/python-exec/python3/emerge")));
}

#[test]
fn wall_clock_conversion() {
    let c = Clock { uptime: 1_000, now: 5_000 };
    assert_eq!(proc_time_to_unix_time(250, c), 4_250);
    assert_eq!(proc_time_to_unix_time(0, c), 4_000);
    assert_eq!(proc_time_to_unix_time(u64::MAX - 4_000, c), u64::MAX);
}

#[test]
fn clock_checked_against_snapshot() {
    let snap = kernel_snapshot("compile", 200, 50);
    assert!(fits_clock(&snap, clock()));
    let behind = Clock { uptime: 5_000, now: 1_000 };
    assert!(!fits_clock(&snap, behind));
    assert!(fits_clock(&Snapshot { procs: vec![] }, behind));
    let late = Snapshot { procs: vec![ProcessInfo { pid: 1, parent: None, args: None, start_time: u64::MAX }] };
    assert!(!fits_clock(&late, Clock { uptime: 1, now: 2 }));
    assert!(fits_clock(&late, Clock { uptime: 2, now: 2 }));
}

#[test]
fn emerge_procs_in_snapshot_order() {
    let snap = Snapshot {
        procs: vec![
            init(),
            emerge(7, 1),
            proc_info(8, Some(1), Some(&["bash"]), 3),
            proc_info(9, Some(2), None, 0),
        ],
    };
    assert_eq!(snap.get_emerge_procs(), vec![7]);
    let more = Snapshot {
        procs: vec![
            init(),
            emerge(7, 1),
            proc_info(8, Some(1), Some(&["bash"]), 3),
            emerge(12, 8),
            proc_info(9, Some(2), None, 0),
            emerge(20, 1),
        ],
    };
    assert_eq!(more.get_emerge_procs(), vec![7, 12, 20]);
    assert!(Snapshot { procs: vec![init()] }.get_emerge_procs().is_empty());
}

#[test]
fn malformed_ancestors_leave_table() {
    let mut w = EbuildProcWatcher::new();
    let base = Snapshot { procs: vec![init(), emerge(100, 1)] };
    assert!(w.tick(&base, clock()));
    let snap = Snapshot {
        procs: vec![
            init(),
            emerge(100, 1),
            proc_info(400, None, Some(&["[a/b-1] sandbox /x/ebuild.sh"]), 5),
            proc_info(401, Some(400), Some(&["[sys-kernel/foo-1.0] sandbox /x/ebuild.py compile"]), 5),
            proc_info(402, Some(401), Some(&["sys-kernel/foo-1.0 sandbox /x/ebuild.sh compile"]), 5),
            worker(403, 402, "compile"),
        ],
    };
    assert!(!w.tick(&snap, clock()));
    assert_eq!(w.active().len(), 1);
    assert_eq!(job_count(&w), 0);
}

#[test]
fn tick_discovers_job() {
    let mut w = EbuildProcWatcher::new();
    let snap = kernel_snapshot("compile", 200, 50);
    assert!(snap.has_distinct_pids());
    assert!(w.tick(&snap, clock()));
    assert_eq!(w.active().len(), 1);
    let j = job(&w, 100, 200).unwrap();
    assert_eq!(j.category, "sys-kernel");
    assert_eq!(j.package, "cachyos-kernel");
    assert_eq!(j.version, "6.15.1");
    assert_eq!(j.phase, "compile");
    assert_eq!(j.create_time, (1_700_000_000 - 1_000 + 50) * SEC);
    assert_eq!(job_count(&w), 1);
}

#[test]
fn second_pass_is_not_dirty() {
    let mut w = EbuildProcWatcher::new();
    let snap = kernel_snapshot("compile", 200, 50);
    assert!(w.tick(&snap, clock()));
    let before = w.active().clone();
    assert!(!w.tick(&snap, clock()));
    assert_eq!(w.active().len(), before.len());
    assert!(job(&w, 100, 200).unwrap() == before.get(&100).unwrap().get(&200).unwrap());
}

#[test]
fn vanished_job_removed_once() {
    let mut w = EbuildProcWatcher::new();
    assert!(w.tick(&kernel_snapshot("compile", 200, 50), clock()));
    let gone = Snapshot { procs: vec![init(), emerge(100, 1)] };
    assert!(w.tick(&gone, clock()));
    assert!(job(&w, 100, 200).is_none());
    assert!(w.active().contains_key(&100));
    assert!(!w.tick(&gone, clock()));
    let all_gone = Snapshot { procs: vec![init()] };
    assert!(w.tick(&all_gone, clock()));
    assert!(w.active().is_empty());
}

#[test]
fn phase_change_replaces_job() {
    let mut w = EbuildProcWatcher::new();
    assert!(w.tick(&kernel_snapshot("compile", 200, 50), clock()));
    assert!(w.tick(&kernel_snapshot("install", 201, 90), clock()));
    assert!(job(&w, 100, 200).is_none());
    let j = job(&w, 100, 201).unwrap();
    assert_eq!(j.phase, "install");
    assert_eq!(j.create_time, (1_700_000_000 - 1_000 + 90) * SEC);
    assert_eq!(job_count(&w), 1);
}

#[test]
fn same_pid_new_phase_updates_job() {
    let mut w = EbuildProcWatcher::new();
    assert!(w.tick(&kernel_snapshot("compile", 200, 50), clock()));
    assert!(w.tick(&kernel_snapshot("install", 200, 50), clock()));
    assert_eq!(job(&w, 100, 200).unwrap().phase, "install");
}

#[test]
fn chain_without_sandbox_discards_candidate() {
    let mut w = EbuildProcWatcher::new();
    let snap = Snapshot {
        procs: vec![
            init(),
            emerge(100, 1),
            proc_info(150, Some(100), Some(&["/bin/bash", "-c", "make"]), 20),
            worker(300, 150, "compile"),
        ],
    };
    assert!(w.tick(&snap, clock()));
    assert_eq!(w.active().len(), 1);
    assert_eq!(job_count(&w), 0);
    assert!(!w.tick(&snap, clock()));
}

#[test]
fn unmanaged_job_never_tracked() {
    let mut w = EbuildProcWatcher::new();
    let snap = Snapshot {
        procs: vec![
            init(),
            proc_info(90, Some(1), Some(&["ebuild", "foo-1.0.ebuild", "compile"]), 5),
            sandbox(200, 90, "[app-misc/foo-1.0]", "compile", 50),
            worker(300, 200, "compile"),
        ],
    };
    assert!(!w.tick(&snap, clock()));
    assert!(w.active().is_empty());
}

#[test]
fn unreadable_ancestor_is_passed_over() {
    let mut w = EbuildProcWatcher::new();
    let snap = Snapshot {
        procs: vec![
            init(),
            emerge(100, 1),
            proc_info(110, Some(100), None, 15),
            sandbox(200, 110, "[dev-lang/python-3.11.9]", "unpack", 50),
            proc_info(250, Some(200), None, 55),
            worker(300, 250, "unpack"),
        ],
    };
    assert!(w.tick(&snap, clock()));
    let j = job(&w, 100, 200).unwrap();
    assert_eq!(j.package, "python");
    assert_eq!(j.version, "3.11.9");
}

#[test]
fn missing_parent_ends_walk() {
    let mut w = EbuildProcWatcher::new();
    let snap = Snapshot { procs: vec![init(), worker(300, 999, "compile")] };
    assert!(!w.tick(&snap, clock()));
    assert!(w.active().is_empty());
}

#[test]
fn parent_cycle_ends_walk() {
    let mut w = EbuildProcWatcher::new();
    let snap = Snapshot {
        procs: vec![
            proc_info(10, Some(11), Some(&["a"]), 1),
            proc_info(11, Some(10), Some(&["b"]), 1),
            worker(300, 10, "compile"),
        ],
    };
    assert!(!w.tick(&snap, clock()));
    assert!(w.active().is_empty());
}

#[test]
fn nearest_invocation_owns_job() {
    let mut w = EbuildProcWatcher::new();
    let snap = Snapshot {
        procs: vec![
            init(),
            emerge(50, 1),
            emerge(100, 50),
            sandbox(200, 100, "[a/b-1]", "prepare", 40),
            worker(300, 200, "prepare"),
        ],
    };
    assert!(w.tick(&snap, clock()));
    assert!(job(&w, 100, 200).is_some());
    assert!(job(&w, 50, 200).is_none());
    assert_eq!(w.active().len(), 2);
}

#[test]
fn duplicate_pids_detected() {
    let snap = Snapshot { procs: vec![init(), emerge(100, 1), emerge(100, 1)] };
    assert!(!snap.has_distinct_pids());
    assert!(Snapshot { procs: vec![] }.has_distinct_pids());
}

#[test]
fn build_job_equality_is_structural() {
    let a = BuildJob {
        category: "a".to_string(),
        package: "b".to_string(),
        version: "1".to_string(),
        phase: "compile".to_string(),
        create_time: 7,
    };
    let mut b = a.clone();
    assert!(a == b);
    b.create_time = 8;
    assert!(a != b);
}
