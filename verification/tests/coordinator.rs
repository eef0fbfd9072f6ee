//! The coordinator: snapshots in, rows out.

use std::time::Duration;

use jam::cgroup::types::{CgroupMetrics, CgroupNode};
use jam::process::types::{Process, ProcessState};
use jam::rate::Rate;
use jam::rows::TreeItem;
use jam::slurm::compact::{adjust_depth, apply_compact_filter, is_effectively_empty};
use jam::slurm::coordinator::{CollectorEvent, CoordinatorState, NodeStats, NodeStatus};
use jam::slurm::slurm::{JobInfo, JobState};
use jam::slurm::types::{CgroupNodeRaw, NodeSnapshot, ProcessRaw};
use jam::sort::{SortColumn, SortDirection};

fn create_test_job_info() -> JobInfo {
    JobInfo {
        job_id: 12345,
        name: "test_job".to_string(),
        state: JobState::Running,
        user: "testuser".to_string(),
        nodelist: "node[001-002]".to_string(),
        num_nodes: 2,
        partition: "compute".to_string(),
        exit_code: None,
    }
}

fn create_test_snapshot(node: &str, timestamp: u64) -> NodeSnapshot {
    NodeSnapshot {
        msg_type: "snapshot".to_string(),
        node: node.to_string(),
        timestamp,
        cgroup_tree: CgroupNodeRaw {
            path: "/sys/fs/cgroup/system.slice/job_123".to_string(),
            name: "job_123".to_string(),
            children: vec![],
            processes: vec![ProcessRaw {
                pid: 1234,
                ppid: 1,
                starttime: 12345678,
                name: "python".to_string(),
                cmdline: Some("python train.py".to_string()),
                user: "testuser".to_string(),
                state: ProcessState::Running,
                num_threads: 4,
                rss: 100 * 1024 * 1024,
                vsize: 500 * 1024 * 1024,
                utime: 1000,
                stime: 500,
                io_read_bytes: 1024 * 1024,
                io_write_bytes: 512 * 1024,
            }],
            depth: 0,
            memory_current: Some(100 * 1024 * 1024),
            memory_max: Some(1024 * 1024 * 1024),
            cpu_usage_usec: Some(1500000),
            pids_current: Some(1),
            io_read_bytes: Some(1024 * 1024),
            io_write_bytes: Some(512 * 1024),
        },
        version: 1,
        collector_pid: 9999,
        final_reason: None,
    }
}

fn float(r: Rate) -> f32 {
    f32::from_bits(r.bits)
}

fn rate(x: f32) -> Rate {
    Rate::from_bits(x.to_bits())
}

#[test]
fn test_coordinator_state_new() {
    let job_info = create_test_job_info();
    let state = CoordinatorState::new(job_info.clone(), 1000, 0);

    assert_eq!(state.job_info.job_id, 12345);
    assert_eq!(Duration::from_millis(state.refresh_interval), Duration::from_millis(1000));
    assert!(state.items.is_empty());
    assert!(!state.should_quit);
}

#[test]
fn test_process_snapshot() {
    let job_info = create_test_job_info();
    let mut state = CoordinatorState::new(job_info, 1000, 0);

    let snapshot = create_test_snapshot("node001", 1000);
    state.process_snapshot(snapshot, 1000, 0);

    assert_eq!(state.node_snapshots.len(), 1);
    assert!(state.node_snapshots.contains_key("node001"));
    assert!(matches!(
        state.node_status.get("node001"),
        Some(NodeStatus::Connected)
    ));
}

#[test]
fn test_rate_calculation() {
    let job_info = create_test_job_info();
    let mut state = CoordinatorState::new(job_info, 1000, 0);

    let mut snapshot1 = create_test_snapshot("node001", 0);
    snapshot1.cgroup_tree.cpu_usage_usec = Some(0);
    snapshot1.cgroup_tree.io_read_bytes = Some(0);
    state.process_snapshot(snapshot1, 1000, 0);
    state.rebuild_if_needed();

    let mut snapshot2 = create_test_snapshot("node001", 1000);
    snapshot2.cgroup_tree.cpu_usage_usec = Some(500_000);
    snapshot2.cgroup_tree.io_read_bytes = Some(1024 * 1024);
    state.process_snapshot(snapshot2, 1000, 0);
    state.rebuild_if_needed();

    assert_eq!(state.node_snapshots.len(), 1);
    assert_eq!(state.prev_snapshots.len(), 1);
}

#[test]
fn test_compact_filter() {
    let zero = rate(0.0);
    let mut tree = CgroupNode {
        path: "/sys/fs/cgroup/job_1".to_string(),
        name: "job_1".to_string(),
        children: vec![
            CgroupNode {
                path: "/sys/fs/cgroup/job_1/step_0".to_string(),
                name: "step_0".to_string(),
                children: vec![
                    CgroupNode {
                        path: "/sys/fs/cgroup/job_1/step_0/slurm".to_string(),
                        name: "slurm".to_string(),
                        children: vec![],
                        processes: vec![Process {
                            pid: 1000, ppid: 1, starttime: 100,
                            name: "slurmstepd".to_string(), cmdline: None, user: "root".to_string(),
                            state: ProcessState::Sleeping, utime: 0, stime: 0,
                            rss: 0, vsize: 0, num_threads: 1, cpu_percent: zero,
                            io_read_bytes: 0, io_write_bytes: 0,
                            io_read_rate: zero, io_write_rate: zero,
                        }],
                        metrics: CgroupMetrics::default(),
                        depth: 2,
                    },
                    CgroupNode {
                        path: "/sys/fs/cgroup/job_1/step_0/user".to_string(),
                        name: "user".to_string(),
                        children: vec![
                            CgroupNode {
                                path: "/sys/fs/cgroup/job_1/step_0/user/task_0".to_string(),
                                name: "task_0".to_string(),
                                children: vec![],
                                processes: vec![Process {
                                    pid: 2000, ppid: 1, starttime: 200,
                                    name: "python".to_string(), cmdline: None, user: "testuser".to_string(),
                                    state: ProcessState::Running, utime: 100, stime: 50,
                                    rss: 1024, vsize: 4096, num_threads: 4, cpu_percent: rate(50.0),
                                    io_read_bytes: 0, io_write_bytes: 0,
                                    io_read_rate: zero, io_write_rate: zero,
                                }],
                                metrics: CgroupMetrics::default(),
                                depth: 3,
                            },
                        ],
                        processes: vec![],
                        metrics: CgroupMetrics::default(),
                        depth: 2,
                    },
                ],
                processes: vec![],
                metrics: CgroupMetrics::default(),
                depth: 1,
            },
        ],
        processes: vec![],
        metrics: CgroupMetrics::default(),
        depth: 0,
    };

    apply_compact_filter(&mut tree, Some(9999));

    assert_eq!(tree.name, "job_1");
    assert_eq!(tree.children.len(), 1);
    let step_0 = &tree.children[0];
    assert_eq!(step_0.name, "step_0");
    assert_eq!(step_0.children.len(), 1);
    let task_0 = &step_0.children[0];
    assert_eq!(task_0.name, "task_0");
    assert_eq!(task_0.processes.len(), 1);
    assert_eq!(task_0.processes[0].name, "python");
    assert_eq!(task_0.depth, 2);
}

fn raw(path: &str, name: &str, children: Vec<CgroupNodeRaw>, pids: Vec<u32>) -> CgroupNodeRaw {
    CgroupNodeRaw {
        path: path.to_string(),
        name: name.to_string(),
        children,
        processes: pids.iter().map(|p| raw_process(*p, 7, 0)).collect(),
        depth: 0,
        memory_current: Some(1000),
        memory_max: None,
        cpu_usage_usec: Some(0),
        pids_current: Some(1),
        io_read_bytes: Some(0),
        io_write_bytes: None,
    }
}

fn raw_process(pid: u32, starttime: u64, utime: u64) -> ProcessRaw {
    ProcessRaw {
        pid,
        ppid: 1,
        starttime,
        name: format!("p{}", pid),
        cmdline: None,
        user: "u".to_string(),
        state: ProcessState::Sleeping,
        num_threads: 1,
        rss: 10,
        vsize: 20,
        utime,
        stime: 0,
        io_read_bytes: utime * 10,
        io_write_bytes: 0,
    }
}

fn snapshot(node: &str, timestamp: u64, tree: CgroupNodeRaw) -> NodeSnapshot {
    NodeSnapshot::with_timestamp(node.to_string(), tree, 4242, timestamp)
}

fn cgroup_rows(state: &CoordinatorState) -> Vec<(String, Option<String>, usize, bool, String)> {
    state.items.iter().filter_map(|i| match i {
        TreeItem::Cgroup { data, depth, is_last, prefix } => {
            Some((data.name.clone(), data.node.clone(), *depth, *is_last, prefix.clone()))
        }
        TreeItem::Process { .. } => None,
    }).collect()
}

fn process_rows(state: &CoordinatorState) -> Vec<(u32, Option<String>, f32, f32, bool, String)> {
    state.items.iter().filter_map(|i| match i {
        TreeItem::Process { data, is_last, cgroup_prefix, .. } => Some((
            data.pid,
            data.node.clone(),
            float(data.cpu_percent),
            float(data.io_read_rate),
            *is_last,
            cgroup_prefix.clone(),
        )),
        TreeItem::Cgroup { .. } => None,
    }).collect()
}

#[test]
fn first_snapshot_shows_pending_rates() {
    let mut state = CoordinatorState::new(create_test_job_info(), 1000, 0);
    state.process_snapshot(create_test_snapshot("node001", 5000), 10, 0);
    state.rebuild_if_needed();
    assert_eq!(state.items.len(), 2);
    match &state.items[0] {
        TreeItem::Cgroup { data, depth, is_last, prefix } => {
            assert!(data.cpu_percent.is_pending());
            assert!(data.io_read_rate.is_pending());
            assert_eq!(data.name, "job_123");
            assert_eq!(data.node, Some("node001".to_string()));
            assert_eq!(data.memory_current, Some(100 * 1024 * 1024));
            assert_eq!((*depth, *is_last, prefix.as_str()), (0, true, ""));
        }
        TreeItem::Process { .. } => panic!("a cgroup comes first"),
    }
    let rows = process_rows(&state);
    assert_eq!(rows.len(), 1);
    assert_eq!(rows[0].0, 1234);
    assert!(rows[0].2.is_nan() && rows[0].3.is_nan());
    assert_eq!(state.connected_nodes(), 1);
}

#[test]
fn rates_come_from_the_collector_clock() {
    let mut state = CoordinatorState::new(create_test_job_info(), 1000, 0);
    let mut one = create_test_snapshot("node001", 1000);
    one.cgroup_tree.cpu_usage_usec = Some(0);
    one.cgroup_tree.io_read_bytes = Some(0);
    let mut two = create_test_snapshot("node001", 3000);
    two.cgroup_tree.cpu_usage_usec = Some(500_000);
    two.cgroup_tree.io_read_bytes = Some(1024 * 1024);
    two.cgroup_tree.processes[0].utime = 1150;
    // The times at which the snapshots arrive play no part.
    state.process_snapshot(one, 1000, 77);
    state.rebuild_if_needed();
    state.process_snapshot(two, 1000, 78);
    state.rebuild_if_needed();
    match &state.items[0] {
        TreeItem::Cgroup { data, .. } => {
            assert_eq!(float(data.cpu_percent), (0.5f64 / 2.0 * 100.0) as f32);
            assert_eq!(float(data.io_read_rate), 524288.0);
            assert_eq!(float(data.io_write_rate), 0.0);
        }
        TreeItem::Process { .. } => panic!("a cgroup comes first"),
    }
    assert_eq!(process_rows(&state)[0].2, (150.0f64 / 100.0 / 2.0 * 100.0) as f32);
}

#[test]
fn rates_stay_until_the_next_snapshot() {
    let mut state = CoordinatorState::new(create_test_job_info(), 1000, 0);
    state.process_snapshot(create_test_snapshot("node001", 1000), 10, 0);
    state.rebuild_if_needed();
    state.process_snapshot(create_test_snapshot("node001", 2000), 10, 0);
    state.rebuild_if_needed();
    let shown = format!("{:?}", state.items);
    assert_eq!(process_rows(&state)[0].2, 0.0);
    for _ in 0..9 {
        state.sort_next_column();
        state.toggle_sort_direction();
        state.rebuild_if_needed();
        assert_eq!(format!("{:?}", state.items), shown);
    }
    state.toggle_compact_mode();
    state.rebuild_if_needed();
    assert_eq!(format!("{:?}", state.items), shown);
    // What another machine sends, or that it is gone, changes no rate of this one.
    state.process_snapshot(create_test_snapshot("node002", 1500), 10, 0);
    state.rebuild_if_needed();
    let rate_of = |state: &CoordinatorState, node: &str| {
        process_rows(state).iter().find(|r| r.1.as_deref() == Some(node)).unwrap().2
    };
    assert_eq!(rate_of(&state, "node001"), 0.0);
    assert!(rate_of(&state, "node002").is_nan());
    state.mark_disconnected("node002", "gone");
    state.rebuild_if_needed();
    assert_eq!(format!("{:?}", state.items), shown);
}

#[test]
fn two_snapshots_at_once_give_rates() {
    let mut state = CoordinatorState::new(create_test_job_info(), 1000, 0);
    let mut late = create_test_snapshot("node001", 2000);
    late.cgroup_tree.processes[0].utime += 50;
    state.process_snapshot(create_test_snapshot("node001", 1000), 10, 0);
    state.process_snapshot(late, 10, 0);
    state.rebuild_if_needed();
    assert_eq!(process_rows(&state)[0].2, 50.0);
}

#[test]
fn reused_process_id_has_no_rate() {
    let mut state = CoordinatorState::new(create_test_job_info(), 1000, 0);
    let mut one = raw("/j", "j", vec![], vec![]);
    one.processes = vec![raw_process(5, 100, 0), raw_process(6, 100, 0)];
    let mut two = raw("/j", "j", vec![], vec![]);
    two.processes = vec![raw_process(5, 100, 50), raw_process(6, 200, 50)];
    state.process_snapshot(snapshot("a", 0, one), 1, 0);
    state.rebuild_if_needed();
    state.process_snapshot(snapshot("a", 1000, two), 1, 0);
    state.rebuild_if_needed();
    let rows = process_rows(&state);
    let five = rows.iter().find(|r| r.0 == 5).unwrap();
    let six = rows.iter().find(|r| r.0 == 6).unwrap();
    assert_eq!((five.2, five.3), (50.0, 500.0));
    assert!(six.2.is_nan() && six.3.is_nan());
}

#[test]
fn cgroups_are_matched_by_path() {
    let mut state = CoordinatorState::new(create_test_job_info(), 1000, 0);
    state.compact_mode = false;
    let mut a = raw("/j/a", "a", vec![], vec![1]);
    a.cpu_usage_usec = Some(100);
    state.process_snapshot(snapshot("n", 0, raw("/j", "j", vec![a], vec![])), 1, 0);
    state.rebuild_if_needed();
    let mut a = raw("/j//a/", "a", vec![], vec![1]);
    a.cpu_usage_usec = Some(500_100);
    let mut b = raw("/j/b", "b", vec![], vec![2]);
    b.cpu_usage_usec = Some(500_100);
    state.process_snapshot(snapshot("n", 1000, raw("/j", "j", vec![a, b], vec![])), 1, 0);
    state.rebuild_if_needed();
    let shares: Vec<(String, Rate)> = state.items.iter().filter_map(|i| match i {
        TreeItem::Cgroup { data, .. } => Some((data.name.clone(), data.cpu_percent)),
        _ => None,
    }).collect();
    let of = |name: &str| shares.iter().find(|s| s.0 == name).unwrap().1;
    assert_eq!(float(of("a")), 50.0);
    assert!(of("b").is_pending());
}

#[test]
fn shared_cgroups_are_shown_once_and_others_per_machine() {
    let mut state = CoordinatorState::new(create_test_job_info(), 1000, 0);
    state.compact_mode = false;
    state.sort_column = SortColumn::Name;
    state.sort_direction = SortDirection::Ascending;
    let tree = |extra: Option<&str>| {
        let mut children = vec![raw("/j/step_0", "step_0", vec![], vec![10])];
        if let Some(name) = extra {
            children.push(raw("/j/x", name, vec![raw("/j/x/t", "t", vec![], vec![])], vec![20]));
        }
        raw("/j", "j", children, vec![])
    };
    state.process_snapshot(snapshot("b", 0, tree(Some("x"))), 1, 0);
    state.process_snapshot(snapshot("a", 0, tree(None)), 1, 0);
    state.process_snapshot(snapshot("c", 0, tree(Some("x"))), 1, 0);
    state.rebuild_if_needed();
    let some = |s: &str| Some(s.to_string());
    assert_eq!(cgroup_rows(&state), vec![
        ("j".to_string(), None, 0, true, "".to_string()),
        ("step_0".to_string(), None, 1, false, "".to_string()),
        ("x".to_string(), some("b"), 1, false, "".to_string()),
        ("t".to_string(), some("b"), 2, false, "│   ".to_string()),
        ("x".to_string(), some("c"), 1, true, "".to_string()),
        ("t".to_string(), some("c"), 2, false, "    ".to_string()),
    ]);
    let rows = process_rows(&state);
    assert_eq!(rows.len(), 5);
    assert_eq!(
        rows.iter().map(|r| (r.0, r.1.clone().unwrap(), r.4, r.5.as_str())).collect::<Vec<_>>(),
        vec![
            (10, "a".to_string(), false, "│   "),
            (10, "b".to_string(), false, "│   "),
            (10, "c".to_string(), true, "│   "),
            (20, "b".to_string(), true, "│   "),
            (20, "c".to_string(), true, "    "),
        ]
    );
    // The sums over the machines.
    match &state.items[0] {
        TreeItem::Cgroup { data, .. } => {
            assert_eq!(data.memory_current, Some(3000));
            assert_eq!(data.pids_current, Some(3));
        }
        _ => panic!("a cgroup comes first"),
    }
    assert_eq!(state.connected_nodes(), 3);
    assert_eq!(state.total_nodes(), 3);
}

#[test]
fn compact_form_is_shown_by_default_and_can_be_toggled() {
    let tree = || {
        let mut root = raw("/j", "j", vec![
            raw("/j/s", "step_0", vec![
                raw("/j/s/slurm", "slurm", vec![], vec![1]),
                raw("/j/s/user", "user", vec![
                    raw("/j/s/user/task_1", "task_1", vec![], vec![3]),
                    raw("/j/s/user/task_0", "task_0", vec![], vec![2, 4242]),
                ], vec![]),
                raw("/j/s/empty", "empty", vec![], vec![]),
            ], vec![]),
        ], vec![4242]);
        root.depth = 0;
        root
    };
    let mut state = CoordinatorState::new(create_test_job_info(), 1000, 0);
    state.sort_column = SortColumn::Name;
    state.sort_direction = SortDirection::Ascending;
    state.process_snapshot(snapshot("a", 0, tree()), 1, 0);
    state.rebuild_if_needed();
    let names: Vec<String> = cgroup_rows(&state).into_iter().map(|r| r.0).collect();
    assert_eq!(names, vec!["j", "step_0", "task_0", "task_1"]);
    let pids: Vec<u32> = process_rows(&state).iter().map(|r| r.0).collect();
    assert_eq!(pids, vec![2, 3]);
    state.toggle_compact_mode();
    assert!(!state.compact_mode);
    state.rebuild_if_needed();
    let names: Vec<String> = cgroup_rows(&state).into_iter().map(|r| r.0).collect();
    assert_eq!(names, vec!["j", "step_0", "empty", "slurm", "user", "task_0", "task_1"]);
    let pids: Vec<u32> = process_rows(&state).iter().map(|r| r.0).collect();
    assert_eq!(pids, vec![1, 2, 4242, 3, 4242]);
}

#[test]
fn a_machine_that_disconnects_leaves_no_rows() {
    let mut state = CoordinatorState::new(create_test_job_info(), 1000, 0);
    state.expect_node("a".to_string());
    state.expect_node("b".to_string());
    assert_eq!(state.total_nodes(), 2);
    assert!(matches!(state.node_status.get("a"), Some(NodeStatus::Connecting)));
    state.process_snapshot(snapshot("a", 0, raw("/j", "j", vec![], vec![1])), 100, 5);
    state.process_snapshot(snapshot("b", 0, raw("/j", "j", vec![], vec![2])), 50, 6);
    state.rebuild_if_needed();
    assert_eq!(state.connected_nodes(), 2);
    state.handle_event(CollectorEvent::Eof { node: "a".to_string() }, 7);
    state.rebuild_if_needed();
    assert_eq!(state.connected_nodes(), 1);
    assert_eq!(state.total_nodes(), 2);
    assert!(!state.node_snapshots.contains_key("a"));
    assert!(!state.prev_snapshots.contains_key("a"));
    assert!(!state.collector_pids.contains_key("a"));
    assert!(process_rows(&state).iter().all(|r| r.1 != Some("a".to_string())));
    let stats: NodeStats = *state.node_stats.get("a").unwrap();
    assert_eq!(stats.bytes_received, 100);
    assert_eq!(stats.messages_received, 1);
    assert_eq!(float(stats.byte_rate), 0.0);
    assert_eq!(float(stats.msg_rate), 0.0);
    state.handle_event(
        CollectorEvent::Error { node: "b".to_string(), error: "gone".to_string() },
        8,
    );
    state.rebuild_if_needed();
    assert!(state.items.is_empty());
    assert_eq!(state.connected_nodes(), 0);
    // The snapshot after a new start is a first one again.
    state.process_snapshot(snapshot("a", 9000, raw("/j", "j", vec![], vec![1])), 100, 9);
    state.rebuild_if_needed();
    assert!(process_rows(&state)[0].2.is_nan());
}

#[test]
fn lines_that_are_no_snapshots_are_reported() {
    let mut state = CoordinatorState::new(create_test_job_info(), 1000, 0);
    let mut other = create_test_snapshot("a", 1);
    other.version = 7;
    state.handle_event(
        CollectorEvent::Line { node: "n1".to_string(), bytes: 10, parsed: Ok(other) },
        1,
    );
    assert_eq!(
        state.error.as_deref(),
        Some("n1: Protocol version mismatch (expected 1, got 7)")
    );
    assert_eq!(state.node_snapshots.len(), 0);
    state.handle_event(
        CollectorEvent::Line {
            node: "n2".to_string(),
            bytes: 3,
            parsed: Err("expected value at line 1 column 1".to_string()),
        },
        2,
    );
    assert_eq!(
        state.error.as_deref(),
        Some("n2: JSON parse error: expected value at line 1 column 1")
    );
    state.handle_event(
        CollectorEvent::Line {
            node: "n1".to_string(),
            bytes: 10,
            parsed: Ok(create_test_snapshot("a", 1)),
        },
        3,
    );
    assert!(state.node_snapshots.contains_key("a"));
    assert!(state.needs_rebuild);
    assert_eq!(state.last_refresh, 3);
}

#[test]
fn message_rates_are_smoothed() {
    let mut stats = NodeStats::default();
    let (mut msg, mut bytes): (f32, f32) = (0.0, 0.0);
    let mut last: Option<u64> = None;
    let samples: [(u64, u64); 7] =
        [(1000, 500), (2000, 700), (2000, 900), (2333, 12345), (1500, 3), (9999, 1), (10_000, 77)];
    for (ts, n) in samples {
        match last {
            Some(l) => {
                let elapsed_ms: u64 = ts.saturating_sub(l);
                if elapsed_ms > 0 {
                    let secs: f32 = elapsed_ms as f32 / 1000.0;
                    let alpha: f32 = 0.3;
                    msg = alpha * (1.0 / secs) + (1.0 - alpha) * msg;
                    bytes = alpha * (n as f32 / secs) + (1.0 - alpha) * bytes;
                }
            }
            None => {
                let secs: f32 = Duration::from_millis(333).as_secs_f32();
                msg = 1.0 / secs;
                bytes = n as f32 / secs;
            }
        }
        last = Some(ts);
        stats = stats.receive(ts, n, 333, 1);
        assert_eq!(float(stats.msg_rate).to_bits(), msg.to_bits());
        assert_eq!(float(stats.byte_rate).to_bits(), bytes.to_bits());
        assert_eq!(stats.last_snapshot_ts, Some(ts));
    }
    assert_eq!(stats.messages_received, 7);
    assert_eq!(stats.bytes_received, 500 + 700 + 900 + 12345 + 3 + 1 + 77);
}

#[test]
fn data_rates_are_summed() {
    let mut state = CoordinatorState::new(create_test_job_info(), 500, 0);
    assert_eq!(float(state.total_data_rate()), 0.0);
    state.process_snapshot(snapshot("b", 0, raw("/j", "j", vec![], vec![])), 300, 0);
    state.process_snapshot(snapshot("a", 0, raw("/j", "j", vec![], vec![])), 1001, 0);
    assert_eq!(float(state.total_data_rate()), 2602.0);
}

#[test]
fn depths_are_adjusted_but_not_below_zero() {
    let leaf = |depth: usize| CgroupNode {
        path: "/a".to_string(),
        name: "a".to_string(),
        children: vec![],
        processes: vec![],
        metrics: CgroupMetrics::default(),
        depth,
    };
    let mut node = leaf(0);
    node.children = vec![leaf(1), leaf(5)];
    adjust_depth(&mut node, -1);
    assert_eq!((node.depth, node.children[0].depth, node.children[1].depth), (0, 0, 4));
    adjust_depth(&mut node, 3);
    assert_eq!((node.depth, node.children[0].depth, node.children[1].depth), (3, 3, 7));
    assert!(is_effectively_empty(&node));
}

#[test]
fn own_stats_are_measured_every_quarter_second() {
    let stat = |utime: u64| {
        Some(format!(
            "7 (jam) S 1 2 3 4 5 6 7 8 9 10 {} 0 0 0 20 0 4 0 99 1000 25 0",
            utime
        ))
    };
    let mut state = CoordinatorState::new(create_test_job_info(), 1000, 1_000_000_000);
    state.update_self_stats(1_200_000_000, &stat(10));
    assert_eq!(state.self_stats.memory_bytes, 0);
    assert!(!state.self_stats_due(1_249_999_999));
    assert!(state.self_stats_due(1_250_000_000));
    state.update_self_stats(1_250_000_000, &stat(10));
    assert_eq!(state.self_stats.memory_bytes, 25 * 4096);
    assert_eq!(float(state.self_stats.cpu_percent), 0.0);
    state.update_self_stats(1_750_000_000, &stat(30));
    assert_eq!(float(state.self_stats.cpu_percent), 40.0);
    state.update_self_stats(3_000_000_000, &None);
    assert_eq!(float(state.self_stats.cpu_percent), 40.0);
}

#[test]
fn no_more_machines_are_connected_than_known() {
    let mut state = CoordinatorState::new(create_test_job_info(), 1000, 0);
    for node in ["a", "b", "c"] {
        state.expect_node(node.to_string());
    }
    assert_eq!((state.connected_nodes(), state.total_nodes()), (0, 3));
    for node in ["a", "b", "b", "d"] {
        state.process_snapshot(snapshot(node, 1, raw("/j", "j", vec![], vec![1])), 1, 0);
    }
    state.rebuild_if_needed();
    assert_eq!((state.connected_nodes(), state.total_nodes()), (3, 4));
    state.mark_disconnected("a", "gone");
    state.rebuild_if_needed();
    assert_eq!((state.connected_nodes(), state.total_nodes()), (2, 4));
}

#[test]
fn every_process_of_every_machine_has_its_row() {
    let mut state = CoordinatorState::new(create_test_job_info(), 1000, 0);
    state.compact_mode = false;
    let deep = |name: &str, pids: Vec<u32>| {
        raw("/j", "j", vec![
            raw("/j/s", name, vec![raw("/j/s/t", "t", vec![], pids.clone())], vec![7]),
            raw("/j/o", "only", vec![raw("/j/o/p", "p", vec![], pids)], vec![]),
        ], vec![8])
    };
    state.process_snapshot(snapshot("a", 0, deep("s", vec![11, 12])), 1, 0);
    state.process_snapshot(snapshot("b", 0, deep("s", vec![13])), 1, 0);
    state.process_snapshot(snapshot("c", 0, deep("x", vec![14, 15])), 1, 0);
    for column in [SortColumn::Name, SortColumn::Pid, SortColumn::Cpu] {
        state.sort_column = column;
        state.toggle_sort_direction();
        state.rebuild_if_needed();
        let mut rows: Vec<(String, u32)> =
            process_rows(&state).iter().map(|r| (r.1.clone().unwrap(), r.0)).collect();
        rows.sort();
        let mut expected: Vec<(String, u32)> = Vec::new();
        for (node, pids) in [("a", vec![11, 12]), ("b", vec![13]), ("c", vec![14, 15])] {
            for pid in pids {
                expected.push((node.to_string(), pid));
                expected.push((node.to_string(), pid));
            }
            expected.push((node.to_string(), 7));
            expected.push((node.to_string(), 8));
        }
        expected.sort();
        assert_eq!(rows, expected);
    }
}

#[test]
fn another_order_shows_the_same_rates() {
    let mut state = CoordinatorState::new(create_test_job_info(), 1000, 0);
    state.compact_mode = false;
    let tree = |used: u64, pids: Vec<u32>| {
        let mut step = raw("/j/s", "s", vec![], pids);
        step.cpu_usage_usec = Some(used * 1000);
        for p in &mut step.processes {
            p.utime = used + p.pid as u64;
        }
        raw("/j", "j", vec![step, raw("/j/t", "t", vec![], vec![9])], vec![8])
    };
    for (time, used) in [(0, 0), (1000, 30)] {
        state.process_snapshot(snapshot("a", time, tree(used, vec![11, 12])), 1, 0);
        state.process_snapshot(snapshot("b", time, tree(2 * used, vec![13])), 1, 0);
        state.rebuild_if_needed();
    }
    let shown = |state: &CoordinatorState| {
        let mut rows: Vec<String> = state
            .items
            .iter()
            .map(|item| match item {
                TreeItem::Cgroup { data, depth, .. } => format!("{} {:?}", depth, data),
                TreeItem::Process { data, .. } => format!("{:?}", data),
            })
            .collect();
        rows.sort();
        rows
    };
    let before = shown(&state);
    assert!(process_rows(&state).iter().all(|r| !r.2.is_nan()));
    for _ in 0..9 {
        state.sort_next_column();
        state.rebuild_if_needed();
        assert_eq!(shown(&state), before);
        state.toggle_sort_direction();
        state.rebuild_if_needed();
        assert_eq!(shown(&state), before);
    }
    state.sort_prev_column();
    state.rebuild_if_needed();
    assert_eq!(shown(&state), before);
}
