//! The view of one machine.

use jam::app::{measure_self, App, SelfStats};
use jam::baseline::{measure_cpu, measure_io, Baseline, CpuMark, IoMark};
use jam::cgroup::types::CgroupNode;
use jam::process::types::{Process, ProcessState};
use jam::rate::Rate;
use jam::rows::{flatten_cgroup_node, flatten_tree, Look, TreeItem};
use jam::sort::{SortColumn, SortDirection};
use jam::ui::keys::Action;

const SECOND: u64 = 1_000_000_000;

fn rate(x: f32) -> Rate {
    Rate::from_bits(x.to_bits())
}

fn pending() -> Rate {
    rate(f32::NAN)
}

fn process(pid: u32, ppid: u32, name: &str) -> Process {
    Process {
        pid,
        ppid,
        starttime: 0,
        name: name.to_string(),
        cmdline: None,
        user: "ann".to_string(),
        state: ProcessState::Running,
        utime: 0,
        stime: 0,
        rss: pid as u64 * 10,
        vsize: 0,
        num_threads: 1,
        cpu_percent: pending(),
        io_read_bytes: 0,
        io_write_bytes: 0,
        io_read_rate: pending(),
        io_write_rate: pending(),
    }
}

fn cgroup(path: &str, children: Vec<CgroupNode>, processes: Vec<Process>) -> CgroupNode {
    CgroupNode { children, processes, ..CgroupNode::new(path.to_string(), 0) }
}

/// One line for each row: the branch and the name.
fn lines(items: &Vec<TreeItem>) -> Vec<String> {
    items
        .iter()
        .map(|item| match item {
            TreeItem::Cgroup { data, depth, is_last, prefix } => {
                format!("{}:{}{}{}", depth, prefix, if *is_last { "`" } else { "+" }, data.name)
            }
            TreeItem::Process { data, is_last, cgroup_prefix, process_prefix } => format!(
                "{}[{}{}{}",
                cgroup_prefix,
                process_prefix,
                if *is_last { "`" } else { "+" },
                data.name
            ),
        })
        .collect()
}

fn tree() -> CgroupNode {
    let inner = cgroup(
        "/sys/fs/cgroup/b/x",
        vec![],
        vec![process(10, 1, "ten"), process(12, 10, "twelve"), process(11, 10, "eleven"), process(20, 1, "twenty")],
    );
    let b = cgroup("/sys/fs/cgroup/b", vec![inner], vec![]);
    let a = cgroup("/sys/fs/cgroup/a", vec![], vec![process(5, 1, "five")]);
    cgroup("/sys/fs/cgroup", vec![a, b], vec![process(1, 0, "init")])
}

#[test]
fn the_tree_is_flattened_by_name() {
    let items = flatten_tree(&tree(), SortColumn::Name, SortDirection::Ascending);
    assert_eq!(
        lines(&items),
        vec![
            "0:`localhost",
            "1:+a",
            "│   [`five",
            "1:+b",
            "2:│   `x",
            "│       [+ten",
            "│       [│  +eleven",
            "│       [│  `twelve",
            "│       [`twenty",
            "[`init",
        ]
    );
}

#[test]
fn the_tree_is_flattened_by_pid_downwards() {
    let items = flatten_tree(&tree(), SortColumn::Pid, SortDirection::Descending);
    assert_eq!(
        lines(&items),
        vec![
            "0:`localhost",
            "1:+b",
            "2:│   `x",
            "│       [+twenty",
            "│       [`ten",
            "│       [   +twelve",
            "│       [   `eleven",
            "1:+a",
            "│   [`five",
            "[`init",
        ]
    );
}

#[test]
fn every_row_is_there_once() {
    for column in [SortColumn::Name, SortColumn::Cpu, SortColumn::Memory, SortColumn::State] {
        let items = flatten_tree(&tree(), column, SortDirection::Descending);
        let mut pids: Vec<u32> = Vec::new();
        let mut names: Vec<String> = Vec::new();
        for item in &items {
            match item {
                TreeItem::Cgroup { data, .. } => names.push(data.name.clone()),
                TreeItem::Process { data, .. } => pids.push(data.pid),
            }
        }
        pids.sort();
        names.sort();
        assert_eq!(pids, vec![1, 5, 10, 11, 12, 20]);
        assert_eq!(names, vec!["a", "b", "localhost", "x"]);
    }
}

#[test]
fn rates_come_with_the_second_sample() {
    let mut app = App::new(1000, 0);
    let mut first = tree();
    first.metrics.cpu_usage_usec = Some(1_000_000);
    first.metrics.io_read_bytes = Some(4096);
    first.processes[0].utime = 100;
    first.processes[0].io_write_bytes = 1000;
    app.refresh(10 * SECOND, &None, Ok(first));
    assert_eq!(app.items.len(), 10);
    assert_eq!(app.last_refresh, 10 * SECOND);
    let root = app.root.as_ref().unwrap();
    assert!(root.metrics.cpu_percent.is_pending());
    assert!(root.metrics.io_read_rate.is_pending());
    assert!(root.processes[0].cpu_percent.is_pending());

    let mut second = tree();
    second.path = "/sys//fs/cgroup/".to_string();
    second.metrics.cpu_usage_usec = Some(1_500_000);
    second.metrics.io_read_bytes = Some(8192);
    second.processes[0].utime = 120;
    second.processes[0].stime = 30;
    second.processes[0].io_write_bytes = 900;
    app.refresh(12 * SECOND, &None, Ok(second));
    let root = app.root.as_ref().unwrap();
    assert_eq!(root.metrics.cpu_percent, rate(25.0));
    assert_eq!(root.metrics.io_read_rate, rate(2048.0));
    assert_eq!(root.metrics.io_write_rate, rate(0.0));
    assert_eq!(root.processes[0].cpu_percent, rate(25.0));
    assert_eq!(root.processes[0].io_read_rate, rate(0.0));
    assert_eq!(root.processes[0].io_write_rate, rate(0.0));
    // Nothing was read or written by the others, so they have no rate.
    assert!(root.children[0].processes[0].io_read_rate.is_pending());
    assert_eq!(root.children[0].processes[0].cpu_percent, rate(0.0));
}

#[test]
fn a_sample_at_the_same_time_has_no_rates() {
    let mut baseline = Baseline::new();
    let mut node = tree();
    baseline.calculate_cpu_percent(&mut node, 5);
    let mut again = tree();
    baseline.calculate_cpu_percent(&mut again, 5);
    assert!(again.processes[0].cpu_percent.is_pending());
}

#[test]
fn single_rates_are_measured() {
    let mark = CpuMark { total_time: 100, timestamp: SECOND };
    assert_eq!(measure_cpu(Some(&mark), 150, 100, 2 * SECOND, pending()), rate(50.0));
    assert_eq!(measure_cpu(Some(&mark), 50, 100, 2 * SECOND, pending()), rate(0.0));
    assert!(measure_cpu(None, 150, 100, 2 * SECOND, pending()).is_pending());
    assert_eq!(measure_cpu(Some(&mark), 150, 100, SECOND, rate(7.0)), rate(7.0));
    let mark = IoMark { read_bytes: 10, write_bytes: 20, timestamp: 0 };
    let (read, write) = measure_io(Some(&mark), 110, 10, SECOND / 2, (pending(), pending()));
    assert_eq!(read, rate(200.0));
    assert_eq!(write, rate(0.0));
}

const OWN: &str = "1 (jam) S 7 42 42 0 -1 4194560 100 0 0 0 150 50 0 0 20 0 3 0 98765 1048576 25 0";

#[test]
fn the_monitor_measures_itself() {
    let stat = Some(OWN.to_string());
    let (stats, mark) = measure_self(&SelfStats::default(), &None, &stat, SECOND);
    assert_eq!(stats.memory_bytes, 25 * 4096);
    assert_eq!(stats.cpu_percent, rate(0.0));
    let first = mark.unwrap();
    assert_eq!((first.total_time, first.timestamp), (200, SECOND));
    let later = Some(OWN.replace(" 150 50 ", " 200 100 "));
    let (stats, mark) = measure_self(&stats, &mark, &later, 3 * SECOND);
    assert_eq!(stats.cpu_percent, rate(50.0));
    let (same, kept) = measure_self(&stats, &mark, &None, 9 * SECOND);
    assert_eq!(same.cpu_percent, rate(50.0));
    assert_eq!(kept.unwrap().timestamp, 3 * SECOND);
}

#[test]
fn a_failure_is_shown_and_forgotten() {
    let mut app = App::new(1000, 7);
    app.refresh(8, &None, Ok(tree()));
    app.refresh(9, &None, Err("no such file".to_string()));
    assert_eq!(app.error.as_deref(), Some("Failed to parse cgroup tree: no such file"));
    assert_eq!(app.items.len(), 10);
    assert_eq!(app.last_refresh, 8);
    app.refresh(10, &None, Ok(tree()));
    assert_eq!(app.error, None);
    assert_eq!(app.last_refresh, 10);
}

#[test]
fn a_refresh_is_due_after_the_interval() {
    let app = App::new(1000, 5 * SECOND);
    assert!(!app.needs_refresh(5 * SECOND));
    assert!(!app.needs_refresh(6 * SECOND - 1));
    assert!(app.needs_refresh(6 * SECOND));
    assert!(App::new(0, 0).needs_refresh(0));
    assert!(!App::new(u64::MAX, 0).needs_refresh(u64::MAX));
}

#[test]
fn a_new_app_is_empty() {
    let app = App::new(500, 3);
    assert!(app.root.is_none());
    assert!(app.items.is_empty());
    assert_eq!(app.refresh_interval, 500);
    assert_eq!(app.last_refresh, 3);
    assert_eq!(app.sort_column, SortColumn::Cpu);
    assert_eq!(app.sort_direction, SortDirection::Descending);
    assert!(!app.should_quit);
}

#[test]
fn keys_move_the_selection_and_sort() {
    let mut app = App::new(1000, 0);
    app.act(Action::SelectLast, 10);
    assert_eq!(app.selected, 0);
    app.refresh(1, &None, Ok(tree()));
    app.act(Action::SelectPrev, 10);
    assert_eq!(app.selected, 0);
    app.act(Action::SelectNext, 10);
    assert_eq!(app.selected, 1);
    app.act(Action::PageDown, 6);
    assert_eq!(app.selected, 5);
    app.act(Action::PageDown, 9);
    assert_eq!(app.selected, 9);
    app.act(Action::PageUp, 4);
    assert_eq!(app.selected, 7);
    app.act(Action::SelectFirst, 4);
    assert_eq!(app.selected, 0);
    app.act(Action::SelectLast, 4);
    assert_eq!(app.selected, 9);
    app.act(Action::PageDown, 0);
    assert_eq!(app.selected, 9);
    app.act(Action::SortNext, 4);
    assert_eq!(app.sort_column, SortColumn::Memory);
    app.act(Action::SortPrev, 4);
    app.act(Action::SortPrev, 4);
    assert_eq!(app.sort_column, SortColumn::State);
    app.act(Action::Reverse, 4);
    assert_eq!(app.sort_direction, SortDirection::Ascending);
    assert_eq!(lines(&app.items)[1], "1:+a");
    app.act(Action::Reverse, 4);
    assert_eq!(lines(&app.items)[1], "1:+b");
    app.act(Action::Nothing, 4);
    app.act(Action::ToggleCompact, 4);
    assert!(!app.should_quit);
    app.act(Action::Quit, 4);
    assert!(app.should_quit);
}

#[test]
fn the_root_stands_for_this_machine_only() {
    for (node, name) in [(None, "localhost"), (Some("c1".to_string()), "cgroup")] {
        let look = Look { node, column: SortColumn::Name, direction: SortDirection::Ascending };
        let mut items = Vec::new();
        flatten_cgroup_node(&tree(), &look, 0, true, "", &mut items);
        assert_eq!(lines(&items)[0], format!("0:`{}", name));
        assert_eq!(items.len(), 10);
    }
}

#[test]
fn rates_are_between_the_last_two_samples() {
    let mut baseline = Baseline::new();
    for (time, usage) in [(1, 0), (2, 1_000_000), (4, 2_000_000)] {
        let mut node = tree();
        node.children[1].children[0].metrics.cpu_usage_usec = Some(usage);
        node.children[1].children[0].metrics.io_read_bytes = Some(1 + usage);
        node.children[1].children[0].processes[2].utime = usage / 10_000;
        node.children[1].children[0].processes[2].io_write_bytes = 1 + usage;
        baseline.calculate_cpu_percent(&mut node, time * SECOND);
        let inner = &node.children[1].children[0];
        let (cpu, io) = match time {
            1 => (pending(), pending()),
            2 => (rate(100.0), rate(1_000_000.0)),
            _ => (rate(50.0), rate(500_000.0)),
        };
        assert_eq!(inner.metrics.cpu_percent.is_pending(), cpu.is_pending());
        if time > 1 {
            assert_eq!(inner.metrics.cpu_percent, cpu);
            assert_eq!(inner.metrics.io_read_rate, io);
            assert_eq!(inner.metrics.io_write_rate, rate(0.0));
            assert_eq!(inner.processes[2].cpu_percent, cpu);
            assert_eq!(inner.processes[2].io_write_rate, io);
        }
    }
}
