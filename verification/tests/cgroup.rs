//! The tree of cgroups, as the file system shows it.

use jam::cgroup::parser::{
    aggregate_metrics, is_kernel_thread, order_names, parse_cgroup_tree, parse_cpu_stat, parse_io_stat,
    parse_memory_max, parse_pids, CgroupDir, CGROUP_ROOT,
};
use jam::cgroup::types::{CgroupMetrics, CgroupNode};
use jam::process::parser::{ProcFiles, Users};

fn text(s: &str) -> Option<String> {
    Some(s.to_string())
}

fn dir(path: &str) -> CgroupDir {
    CgroupDir {
        path: path.to_string(),
        cpu_stat: None,
        memory_current: None,
        memory_max: None,
        io_stat: None,
        pids_current: None,
        processes: vec![],
        children: vec![],
    }
}

fn files(pid: u32, ppid: u32) -> ProcFiles {
    let stat = format!("{} (p) R {} 0 0 0 0 0 0 0 0 0 1 2 0 0 0 0 1 0 5 6 7", pid, ppid);
    ProcFiles { pid, stat: Some(stat), cmdline: None, status: None, io: None }
}

#[test]
fn counters_are_read() {
    assert_eq!(parse_cpu_stat("usage_usec 12345\nuser_usec 1\n"), Some(12345));
    assert_eq!(parse_cpu_stat("nr_periods 0\nusage_usec  7 \n"), Some(7));
    assert_eq!(parse_cpu_stat("usage_usec x\nusage_usec 7\n"), None);
    assert_eq!(parse_cpu_stat("user_usec 1\n"), None);
    assert_eq!(parse_memory_max("max\n"), None);
    assert_eq!(parse_memory_max(" 1024\n"), Some(1024));
    assert_eq!(parse_memory_max("lots\n"), None);
    let io = "8:0 rbytes=100 wbytes=200 rios=1\n8:16 rbytes=5 wbytes=x\n";
    assert_eq!(parse_io_stat(io), (Some(105), Some(200)));
    assert_eq!(parse_io_stat("8:0 rbytes=0 wbytes=0\n"), (None, None));
    assert_eq!(parse_io_stat(""), (None, None));
    assert_eq!(parse_pids("1\n 2 \nx\n\n3"), vec![1, 2, 3]);
}

#[test]
fn names_are_put_in_order() {
    let names: Vec<String> =
        ["user.slice", "init.scope", "system.slice", "a", "init.scope"].map(String::from).to_vec();
    assert_eq!(order_names(&names), vec![3, 1, 4, 2, 0]);
}

#[test]
fn a_node_takes_its_name_from_its_path() {
    let node = CgroupNode::new("/sys/fs/cgroup/user.slice".to_string(), 1);
    assert_eq!(node.name, "user.slice");
    assert_eq!(node.depth, 1);
    assert!(node.is_leaf());
    assert_eq!(node.total_processes(), 0);
    assert_eq!(CgroupNode::new("/".to_string(), 0).name, "/");
    let m = CgroupMetrics::default();
    assert!(m.cpu_percent.is_pending());
    assert_eq!(m.memory_current, None);
}

#[test]
fn kernel_threads_are_no_members() {
    let mut root = dir(CGROUP_ROOT);
    root.processes = vec![files(1, 0), files(2, 0), files(3, 2), files(4, 1)];
    assert!(root.is_whole());
    let tree = parse_cgroup_tree(&root, &Users::none());
    let pids: Vec<u32> = tree.processes.iter().map(|p| p.pid).collect();
    assert_eq!(pids, vec![1, 4]);
    assert!(tree.processes.iter().all(|p| !is_kernel_thread(p)));
    assert_eq!(tree.total_processes(), 2);
}

#[test]
fn the_tree_is_read_and_completed() {
    let mut root = dir(CGROUP_ROOT);
    root.cpu_stat = text("usage_usec 1000\n");
    // The files of the root itself play no part.
    root.memory_current = text("9999\n");
    root.memory_max = text("9999\n");
    root.pids_current = text("77\n");
    root.processes = vec![files(1, 0)];
    let mut b = dir("/sys/fs/cgroup/b");
    b.memory_current = text("100\n");
    b.memory_max = text("max\n");
    b.pids_current = text("3\n");
    b.io_stat = text("8:0 rbytes=10 wbytes=0\n");
    let mut a = dir("/sys/fs/cgroup/a");
    a.processes = vec![files(10, 1), files(11, 10)];
    let mut aa = dir("/sys/fs/cgroup/a/x");
    aa.memory_current = text("23\n");
    aa.io_stat = text("8:0 rbytes=1 wbytes=2\n");
    a.children = vec![aa];
    root.children = vec![b, a];

    let tree = parse_cgroup_tree(&root, &Users::none());
    assert_eq!(tree.name, "cgroup");
    assert_eq!(tree.depth, 0);
    let names: Vec<&str> = tree.children.iter().map(|c| c.name.as_str()).collect();
    assert_eq!(names, vec!["a", "b"]);
    let (a, b) = (&tree.children[0], &tree.children[1]);
    assert_eq!(a.metrics.memory_current, Some(23));
    assert_eq!(a.metrics.pids_current, Some(2));
    assert_eq!(a.metrics.io_read_bytes, Some(1));
    assert_eq!(a.metrics.io_write_bytes, Some(2));
    assert_eq!(a.children[0].depth, 2);
    assert_eq!(a.children[0].metrics.pids_current, None);
    assert_eq!(b.metrics.memory_current, Some(100));
    assert_eq!(b.metrics.memory_max, None);
    assert_eq!(b.metrics.pids_current, Some(3));
    assert_eq!(b.metrics.io_write_bytes, None);
    assert_eq!(tree.metrics.cpu_usage_usec, Some(1000));
    assert_eq!(tree.metrics.memory_current, Some(123));
    assert_eq!(tree.metrics.memory_max, None);
    assert_eq!(tree.metrics.pids_current, Some(6));
    assert_eq!(tree.metrics.io_read_bytes, Some(11));
    assert_eq!(tree.metrics.io_write_bytes, Some(2));
    assert_eq!(tree.total_processes(), 3);
    assert!(!tree.is_leaf());
}

#[test]
fn the_root_is_told_by_its_path() {
    let mut root = dir("/sys//fs/cgroup/");
    root.memory_current = text("9\n");
    assert_eq!(parse_cgroup_tree(&root, &Users::none()).metrics.memory_current, None);
    let mut other = dir("/sys/fs/cgroup2");
    other.memory_current = text("9\n");
    assert_eq!(parse_cgroup_tree(&other, &Users::none()).metrics.memory_current, Some(9));
}

#[test]
fn completing_twice_changes_nothing() {
    let node = |path: &str, memory: Option<u64>, children: Vec<CgroupNode>| {
        let mut n = CgroupNode { children, ..CgroupNode::new(path.to_string(), 0) };
        n.metrics.memory_current = memory;
        n
    };
    let mut tree = node(
        "/r",
        None,
        vec![
            node("/r/a", Some(5), vec![node("/r/a/x", Some(100), vec![])]),
            node("/r/b", None, vec![node("/r/b/y", Some(7), vec![]), node("/r/b/z", None, vec![])]),
        ],
    );
    tree.children[1].children[1].metrics.pids_current = Some(3);
    aggregate_metrics(&mut tree);
    assert_eq!(tree.metrics.memory_current, Some(12));
    assert_eq!(tree.children[0].metrics.memory_current, Some(5));
    assert_eq!(tree.children[1].metrics.memory_current, Some(7));
    assert_eq!(tree.children[1].children[1].metrics.memory_current, None);
    assert_eq!(tree.metrics.pids_current, Some(3));
    assert_eq!(tree.metrics.io_read_bytes, None);
    let once = format!("{:?}", tree);
    aggregate_metrics(&mut tree);
    assert_eq!(format!("{:?}", tree), once);
}
