//! The trees of a job's machines, compacted and merged.

use jam::cgroup::types::CgroupNode;
use jam::process::types::{Process, ProcessState};
use jam::rate::Rate;
use jam::slurm::compact::apply_compact_filter;
use jam::slurm::convert::{convert_node, convert_process, elapsed_between};
use jam::slurm::coordinator::CoordinatorState;
use jam::slurm::flatten::aggregate_metrics;
use jam::slurm::merge::{merge_children, merge_node_trees};
use jam::slurm::slurm::{JobInfo, JobState};
use jam::slurm::types::{CgroupNodeRaw, NodeSnapshot, ProcessRaw};

fn rate(x: f32) -> Rate {
    Rate::from_bits(x.to_bits())
}

fn process(pid: u32, name: &str) -> Process {
    Process {
        pid,
        ppid: 1,
        starttime: 1,
        name: name.to_string(),
        cmdline: None,
        user: "ann".to_string(),
        state: ProcessState::Running,
        utime: 0,
        stime: 0,
        rss: 0,
        vsize: 0,
        num_threads: 1,
        cpu_percent: rate(0.0),
        io_read_bytes: 0,
        io_write_bytes: 0,
        io_read_rate: rate(0.0),
        io_write_rate: rate(0.0),
    }
}

fn cgroup(name: &str, children: Vec<CgroupNode>, pids: Vec<u32>) -> CgroupNode {
    CgroupNode {
        children,
        processes: pids.iter().map(|p| process(*p, "p")).collect(),
        ..CgroupNode::new(format!("/j/{}", name), 0)
    }
}

/// The names of a tree, each with those below it in brackets.
fn outline(node: &CgroupNode) -> String {
    let mut out = format!("{}:{}", node.name, node.processes.len());
    for child in &node.children {
        out.push('[');
        out.push_str(&outline(child));
        out.push(']');
    }
    out
}

#[test]
fn compacting_twice_changes_nothing() {
    let mut tree = cgroup(
        "job_1",
        vec![
            cgroup("step_extern", vec![cgroup("slurm", vec![], vec![]), cgroup("user", vec![cgroup("task_special", vec![], vec![3])], vec![])], vec![]),
            cgroup("step_0", vec![cgroup("slurm", vec![], vec![2]), cgroup("user", vec![cgroup("task_1", vec![], vec![5]), cgroup("task_0", vec![], vec![4, 9])], vec![])], vec![]),
        ],
        vec![],
    );
    apply_compact_filter(&mut tree, Some(9));
    let once = outline(&tree);
    assert_eq!(once, "job_1:0[step_0:0[task_0:1][task_1:1]][step_extern:0[task_special:1]]");
    apply_compact_filter(&mut tree, Some(9));
    assert_eq!(outline(&tree), once);
}

#[test]
fn the_collector_itself_is_left_out() {
    let mut tree = cgroup("job_1", vec![cgroup("step_1", vec![], vec![7])], vec![]);
    let mut all = tree.clone();
    apply_compact_filter(&mut tree, Some(7));
    assert!(tree.children.iter().all(|c| c.processes.is_empty()));
    apply_compact_filter(&mut all, None);
    assert_eq!(outline(&all), "job_1:0[step_1:1]");
}

fn on(node: &str, tree: CgroupNode) -> (String, CgroupNode) {
    (node.to_string(), tree)
}

#[test]
fn trees_are_merged_by_name_all_the_way_down() {
    let a = cgroup("job", vec![cgroup("s", vec![cgroup("t0", vec![], vec![1])], vec![]), cgroup("b", vec![], vec![])], vec![]);
    let b = cgroup("job", vec![cgroup("s", vec![cgroup("t1", vec![], vec![2])], vec![])], vec![]);
    let merged = merge_node_trees(&vec![on("c1", a), on("c2", b)]);
    assert_eq!(merged.name, "job");
    assert!(merged.is_shared);
    assert_eq!(merged.node_data.len(), 2);
    let names: Vec<&str> = merged.children.iter().map(|c| c.name.as_str()).collect();
    assert_eq!(names, vec!["b", "s"]);
    assert!(!merged.children[0].is_shared);
    assert_eq!(merged.children[0].node_data[0].0, "c1");
    let s = &merged.children[1];
    assert!(s.is_shared);
    let names: Vec<&str> = s.children.iter().map(|c| c.name.as_str()).collect();
    assert_eq!(names, vec!["t0", "t1"]);
    assert_eq!(s.children[1].node_data[0].0, "c2");
    assert!(merge_children(&vec![]).is_empty());
}

#[test]
fn metrics_are_summed_over_the_machines() {
    let mut a = cgroup("job", vec![], vec![]);
    a.metrics.cpu_percent = rate(12.5);
    a.metrics.memory_current = Some(100);
    a.metrics.io_read_rate = rate(1.0);
    let mut b = cgroup("job", vec![], vec![]);
    b.metrics.cpu_percent = rate(50.0);
    b.metrics.memory_current = Some(23);
    b.metrics.pids_current = Some(4);
    let alone = aggregate_metrics(&vec![on("c1", a.clone())]);
    assert_eq!(alone.cpu_percent, rate(12.5));
    assert_eq!(alone.memory_current, Some(100));
    assert_eq!(alone.pids_current, None);
    let both = aggregate_metrics(&vec![on("c1", a), on("c2", b)]);
    assert_eq!(both.cpu_percent, rate(62.5));
    assert_eq!(both.memory_current, Some(123));
    assert_eq!(both.pids_current, Some(4));
    assert!(both.io_read_rate.is_pending());
    assert!(both.io_write_rate.is_pending());
}

fn raw_process(pid: u32, starttime: u64, utime: u64) -> ProcessRaw {
    ProcessRaw {
        pid,
        ppid: 1,
        starttime,
        name: "p".to_string(),
        cmdline: None,
        user: "ann".to_string(),
        state: ProcessState::Running,
        num_threads: 1,
        rss: 0,
        vsize: 0,
        utime,
        stime: 0,
        io_read_bytes: utime * 2,
        io_write_bytes: 0,
    }
}

#[test]
fn rates_need_time_and_a_predecessor() {
    let (now, before) = (raw_process(1, 5, 150), raw_process(1, 5, 100));
    let p = convert_process(&now, Some(&before), elapsed_between(3000, 1000));
    assert_eq!(p.cpu_percent, rate(25.0));
    assert_eq!(p.io_read_rate, rate(50.0));
    assert_eq!(p.io_write_rate, rate(0.0));
    assert!(elapsed_between(1000, 1000).is_none());
    assert!(elapsed_between(999, 1000).is_none());
    let p = convert_process(&now, Some(&before), elapsed_between(1000, 1000));
    assert!(p.cpu_percent.is_pending());
    let p = convert_process(&now, None, elapsed_between(3000, 1000));
    assert!(p.cpu_percent.is_pending() && p.io_read_rate.is_pending());
}

#[test]
fn a_new_cgroup_and_a_reused_pid_have_no_rates() {
    let tree = |path: &str, starttime: u64, usage: u64| CgroupNodeRaw {
        path: path.to_string(),
        processes: vec![raw_process(1, starttime, usage)],
        cpu_usage_usec: Some(usage),
        ..CgroupNodeRaw::default()
    };
    let seconds = elapsed_between(2000, 1000);
    let node = convert_node(&tree("/a", 5, 500_000), &tree("/a", 5, 0), seconds);
    assert_eq!(node.metrics.cpu_percent, rate(50.0));
    assert!(!node.processes[0].cpu_percent.is_pending());
    let node = convert_node(&tree("/a", 6, 500_000), &tree("/a", 5, 0), seconds);
    assert!(node.processes[0].cpu_percent.is_pending());
    let parent = |children: Vec<CgroupNodeRaw>| CgroupNodeRaw { children, ..CgroupNodeRaw::default() };
    let node = convert_node(&parent(vec![tree("/b", 5, 500_000)]), &parent(vec![tree("/a", 5, 0)]), seconds);
    assert!(node.children[0].metrics.cpu_percent.is_pending());
    assert!(node.children[0].processes[0].cpu_percent.is_pending());
}

#[test]
fn the_order_of_arrival_plays_no_part() {
    let job = || JobInfo {
        job_id: 1,
        name: "n".to_string(),
        state: JobState::Running,
        user: "u".to_string(),
        nodelist: "c[1-3]".to_string(),
        num_nodes: 3,
        partition: "p".to_string(),
        exit_code: None,
    };
    let sent = |node: &str, time: u64| {
        let tree = CgroupNodeRaw {
            path: "/j".to_string(),
            name: "j".to_string(),
            processes: vec![raw_process(time as u32 / 1000 + 1, 1, time)],
            cpu_usage_usec: Some(time * 100),
            ..CgroupNodeRaw::default()
        };
        NodeSnapshot::with_timestamp(node.to_string(), tree, 99, time)
    };
    let mut one = CoordinatorState::new(job(), 1000, 0);
    let mut two = CoordinatorState::new(job(), 1000, 0);
    for (node, time) in [("c1", 0), ("c2", 0), ("c1", 1000), ("c2", 1000), ("c3", 5)] {
        one.process_snapshot(sent(node, time), 10, 0);
    }
    for (node, time) in [("c3", 5), ("c2", 0), ("c2", 1000), ("c1", 0), ("c1", 1000)] {
        two.process_snapshot(sent(node, time), 99, 7);
    }
    one.rebuild_if_needed();
    two.rebuild_if_needed();
    assert!(!one.items.is_empty());
    assert_eq!(format!("{:?}", one.items), format!("{:?}", two.items));
}
