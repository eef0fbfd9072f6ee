//! The cgroup of a job, found from what the kernel says.

use jam::cgroup::parser::CgroupDir;
use jam::process::parser::{ProcFiles, Users};
use jam::slurm::collector::{
    collector_node, discover_job_cgroup_root, extract_job_level_path, find_cgroup_mount_point,
    next_sleep, parse_cgroup_path, parse_cgroup_tree_raw, take_snapshot, CollectorError,
};
use jam::slurm::types::{timestamp_of, CgroupNodeRaw, NodeSnapshot};

#[test]
fn test_parse_cgroup_path_v2() {
    let content = "0::/system.slice/slurmstepd.scope/job_123/step_0/user/task_0\n";
    let path = parse_cgroup_path(content).unwrap();
    assert_eq!(path, "/system.slice/slurmstepd.scope/job_123/step_0/user/task_0");
}

#[test]
fn test_parse_cgroup_path_v1() {
    let content = "11:memory:/slurm/uid_1000/job_456/step_0\n\
                   10:cpu,cpuacct:/slurm/uid_1000/job_456/step_0\n";
    let path = parse_cgroup_path(content).unwrap();
    assert_eq!(path, "/slurm/uid_1000/job_456/step_0");
}

#[test]
fn test_extract_job_level_path_standard() {
    let path = "/system.slice/slurmstepd.scope/job_123/step_0/user/task_0";
    let job_path = extract_job_level_path(path).unwrap();
    assert_eq!(job_path, "/system.slice/slurmstepd.scope/job_123");
}

#[test]
fn test_extract_job_level_path_uid_prefix() {
    let path = "/slurm/uid_1000/job_456/step_0";
    let job_path = extract_job_level_path(path).unwrap();
    assert_eq!(job_path, "/slurm/uid_1000/job_456");
}

#[test]
fn test_extract_job_level_path_no_job() {
    let path = "/system.slice/some_service.scope";
    let job_path = extract_job_level_path(path).unwrap();
    assert_eq!(job_path, "/system.slice/some_service.scope");
}

#[test]
fn the_unified_line_comes_first() {
    let content = "5:memory:/m\n0::/a/b\n0::/c\n";
    assert_eq!(parse_cgroup_path(content).unwrap(), "/a/b");
    assert_eq!(parse_cgroup_path("0::").unwrap(), "");
    assert_eq!(parse_cgroup_path("9:cpu:/x:y\n").unwrap(), "/x");
    assert_eq!(parse_cgroup_path("9:cpuacct:/x\n").unwrap(), "/x");
    let joint = "10:cpu,cpuacct:/slurm/uid_1000/job_456/step_0\n";
    assert_eq!(parse_cgroup_path(joint).unwrap(), "/slurm/uid_1000/job_456/step_0");
    assert_eq!(parse_cgroup_path("3:pids:/p\n2:cpuset:/s\n1:memory:/m\n").unwrap(), "/s");
    assert_eq!(parse_cgroup_path("3:cpu\n2:memory:/m\n").unwrap(), "/m");
    let e = parse_cgroup_path("3:pids:/x\n1:name=systemd:/y\n").unwrap_err();
    assert_eq!(e, CollectorError::NoController);
    assert_eq!(e.message(), "No suitable cgroup controller found in /proc/self/cgroup");
}

#[test]
fn the_first_job_in_a_path_counts() {
    assert_eq!(extract_job_level_path("/a/job_1/b/job_2").unwrap(), "/a/job_1");
    assert_eq!(extract_job_level_path("job_1/x").unwrap(), "job_1");
    assert_eq!(extract_job_level_path("/uid_1/ajob_2").unwrap(), "/uid_1/ajob_2");
    assert_eq!(extract_job_level_path("").unwrap(), "");
    let job = extract_job_level_path("/a/job_1/step_0").unwrap();
    assert_eq!(extract_job_level_path(&job).unwrap(), job);
    for rest in ["", "step_9/user/task_0", "job_2", "/"] {
        assert_eq!(extract_job_level_path(&format!("{}/{}", job, rest)).unwrap(), job);
    }
}

const MOUNTS: &str = "proc /proc proc rw 0 0\ncgroup2 /mnt/cg cgroup2 rw 0 0\nx /late cgroup2 rw\n";

#[test]
fn the_mount_point_is_found() {
    assert_eq!(find_cgroup_mount_point(true, MOUNTS), "/sys/fs/cgroup");
    assert_eq!(find_cgroup_mount_point(false, MOUNTS), "/mnt/cg");
    assert_eq!(find_cgroup_mount_point(false, "a b\nc d cgroup e\n"), "/sys/fs/cgroup");
}

#[test]
fn the_cgroup_of_a_job_is_below_the_mount_point() {
    let info = "0::/system.slice/slurmstepd.scope/job_7/step_0\n";
    assert_eq!(
        discover_job_cgroup_root(info, true, "").unwrap(),
        "/sys/fs/cgroup/system.slice/slurmstepd.scope/job_7"
    );
    assert_eq!(
        discover_job_cgroup_root("0:://x\n", false, MOUNTS).unwrap(),
        "/mnt/cg/x"
    );
    assert_eq!(discover_job_cgroup_root("0::/\n", true, "").unwrap(), "/sys/fs/cgroup/");
    assert_eq!(discover_job_cgroup_root("", true, ""), Err(CollectorError::NoController));
}

#[test]
fn a_machine_has_a_name() {
    let text = |s: &str| Some(s.to_string());
    assert_eq!(collector_node(text("c1"), text("host")), "c1");
    assert_eq!(collector_node(None, text("host")), "host");
    assert_eq!(collector_node(None, None), "unknown");
}

#[test]
fn sleeps_come_in_small_parts() {
    assert_eq!(next_sleep(0, 1000), Some(100));
    assert_eq!(next_sleep(950, 1000), Some(50));
    assert_eq!(next_sleep(900, 1000), Some(100));
    assert_eq!(next_sleep(1000, 1000), None);
    assert_eq!(next_sleep(0, 0), None);
}

fn dir(path: &str, children: Vec<CgroupDir>) -> CgroupDir {
    let stat = "9 (p) R 1 0 0 0 0 0 0 0 0 0 1 2 0 0 0 0 1 0 5 6 7";
    CgroupDir {
        path: path.to_string(),
        cpu_stat: Some("usage_usec 11\n".to_string()),
        memory_current: Some("22\n".to_string()),
        memory_max: Some("max\n".to_string()),
        io_stat: Some("8:0 rbytes=3 wbytes=0\n".to_string()),
        pids_current: Some("4\n".to_string()),
        processes: vec![
            ProcFiles { pid: 9, stat: Some(stat.to_string()), cmdline: None, status: None, io: None },
            ProcFiles { pid: 2, stat: Some(stat.to_string()), cmdline: None, status: None, io: None },
        ],
        children,
    }
}

#[test]
fn the_tree_of_a_job_is_sent_with_its_counters() {
    let root = dir("/sys/fs/cgroup", vec![dir("/sys/fs/cgroup/b", vec![]), dir("/sys/fs/cgroup/a", vec![])]);
    let raw = parse_cgroup_tree_raw(&root, &Users::none());
    assert_eq!(raw.name, "cgroup");
    assert_eq!(raw.depth, 0);
    assert_eq!(raw.cpu_usage_usec, Some(11));
    // Here even the root of the file system has its counters.
    assert_eq!(raw.memory_current, Some(22));
    assert_eq!(raw.memory_max, None);
    assert_eq!(raw.pids_current, Some(4));
    assert_eq!((raw.io_read_bytes, raw.io_write_bytes), (Some(3), None));
    assert_eq!(raw.processes.len(), 1);
    assert_eq!(raw.processes[0].pid, 9);
    assert_eq!(raw.processes[0].rss, 7 * 4096);
    let names: Vec<&str> = raw.children.iter().map(|c| c.name.as_str()).collect();
    assert_eq!(names, vec!["a", "b"]);
    assert_eq!(raw.children[0].depth, 1);

    let sent = take_snapshot("c1", &root, &Users::none(), 77, 123, false);
    assert_eq!(sent.msg_type, "snapshot");
    assert_eq!(sent.node, "c1");
    assert_eq!(sent.timestamp, 123);
    assert_eq!(sent.version, 1);
    assert_eq!(sent.collector_pid, 77);
    assert_eq!(sent.final_reason, None);
    assert_eq!(sent.cgroup_tree.children.len(), 2);
    let last = take_snapshot("c1", &root, &Users::none(), 77, 123, true);
    assert_eq!(last.final_reason.as_deref(), Some("sigterm"));
}

#[test]
fn snapshots_are_marked_and_copied() {
    let s = NodeSnapshot::with_timestamp("c1".to_string(), CgroupNodeRaw::default(), 5, 6);
    let copy = s.clone();
    let s = s.with_final_reason("over");
    assert_eq!(s.final_reason.as_deref(), Some("over"));
    assert_eq!(copy.final_reason, None);
    assert_eq!(copy.timestamp, 6);
}

#[test]
fn time_is_counted_in_milliseconds() {
    let before = std::time::SystemTime::now()
        .duration_since(std::time::UNIX_EPOCH)
        .unwrap()
        .as_millis() as u64;
    let now = NodeSnapshot::now();
    assert!(before <= now && now < before + 60_000);
    assert_eq!(timestamp_of(Some(1500)), 1500);
    assert_eq!(timestamp_of(Some(1 << 64)), 0);
    assert_eq!(timestamp_of(Some((1 << 64) + 5)), 5);
    assert_eq!(timestamp_of(None), 0);
}
