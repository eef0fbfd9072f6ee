//! What is drawn.

use jam::app::{App, SelfStats};
use jam::process::types::ProcessState;
use jam::rate::Rate;
use jam::rows::{FlatCgroup, FlatProcess, TreeItem};
use jam::slurm::coordinator::CoordinatorState;
use jam::slurm::slurm::{JobInfo, JobState};
use jam::sort::{SortColumn, SortDirection};
use jam::ui::keys::{
    read_coordinator_key, read_local_key, Action, KeyCode, Modifiers,
};
use jam::ui::layout::{align_left, align_middle, align_right, can_cut_user, count_bytes, cut_name, cut_user};
use jam::ui::title::{gap, render_job_title, render_title, self_stats_text};
use jam::ui::tree::{
    can_render_row, name_width, render_footer, render_headers, render_job_footer, render_tree_row,
};

fn rate(x: f32) -> Rate {
    Rate::from_bits(x.to_bits())
}

fn job() -> JobInfo {
    JobInfo {
        job_id: 12345,
        name: "fit".to_string(),
        state: JobState::Running,
        user: "ann".to_string(),
        nodelist: "c[1-2]".to_string(),
        num_nodes: 2,
        partition: "main".to_string(),
        exit_code: None,
    }
}

#[test]
fn texts_are_aligned_as_in_std() {
    for s in ["", "a", "ab", "abc", "│é", "abcdefgh"] {
        for width in 0..9 {
            assert_eq!(align_right(s, width), format!("{:>width$}", s, width = width));
            assert_eq!(align_left(s, width), format!("{:<width$}", s, width = width));
            assert_eq!(align_middle(s, width), format!("{:^width$}", s, width = width));
        }
        assert_eq!(count_bytes(s), s.len() as u128);
    }
    assert_eq!(count_bytes("a\u{7ff}\u{800}\u{ffff}\u{10000}"), 1 + 2 + 3 + 3 + 4);
}

#[test]
fn long_users_are_cut() {
    assert_eq!(cut_user("daniel"), "daniel");
    assert_eq!(cut_user("daniela"), "danie+");
    assert_eq!(cut_user(""), "");
    assert!(can_cut_user("daniela"));
    assert!(can_cut_user("aaaaé"));
    assert!(!can_cut_user("aaaaéb"));
    assert!(can_cut_user("aaaéb"));
    assert_eq!(cut_user("aaaébb"), "aaaé+");
}

#[test]
fn long_machine_names_are_cut() {
    assert_eq!(cut_name("node-0000001", 12), "node-0000001");
    assert_eq!(cut_name("node-00000012", 12), "node-000000+");
    assert_eq!(cut_name("é", 1), "é");
    assert_eq!(cut_name("éa", 1), "+");
    let mut item = process_row("ann");
    if let TreeItem::Process { data, .. } = &mut item {
        data.node = Some("node001.cluster.example".to_string());
    }
    assert_eq!(render_tree_row(&item, false).node, "node001.clu+");
}

fn cgroup_row(depth: usize, is_last: bool) -> TreeItem {
    TreeItem::Cgroup {
        data: FlatCgroup {
            name: "user.slice".to_string(),
            node: None,
            cpu_percent: rate(12.34),
            memory_current: Some(3 * 1024 * 1024 / 2),
            pids_current: None,
            io_read_rate: rate(f32::NAN),
            io_write_rate: rate(2048.0),
        },
        depth,
        is_last,
        prefix: "│   ".to_string(),
    }
}

fn process_row(user: &str) -> TreeItem {
    TreeItem::Process {
        data: FlatProcess {
            pid: 4711,
            name: "python".to_string(),
            cmdline: Some("python train.py".to_string()),
            node: Some("c1".to_string()),
            user: user.to_string(),
            state: ProcessState::Sleeping,
            cpu_percent: rate(f32::NAN),
            rss: 2048,
            num_threads: 8,
            io_read_rate: rate(0.0),
            io_write_rate: rate(5.0),
        },
        is_last: false,
        cgroup_prefix: "    ".to_string(),
        process_prefix: "│  ".to_string(),
    }
}

#[test]
fn a_cgroup_fills_its_cells() {
    let item = cgroup_row(2, true);
    assert!(can_render_row(&item));
    let r = render_tree_row(&item, false);
    assert_eq!(r.pid, "        ");
    assert_eq!(r.user, "-     ");
    assert_eq!(r.state, " - ");
    assert_eq!(r.node, "-           ");
    assert_eq!(r.cpu, "   12.3");
    assert_eq!(r.memory, "    1.5Mi");
    assert_eq!(r.tasks, "      ");
    assert_eq!(r.io_read, "       -");
    assert_eq!(r.io_write, "     2Ki");
    assert_eq!(r.cgroup_branch, "│   └── ");
    assert_eq!(r.process_branch, "");
    assert_eq!(r.name, "user.slice");
    assert_eq!(render_tree_row(&cgroup_row(1, false), false).cgroup_branch, "│   ├── ");
    assert_eq!(render_tree_row(&cgroup_row(0, true), false).cgroup_branch, "");
}

#[test]
fn a_process_fills_its_cells() {
    let item = process_row("daniela");
    assert!(can_render_row(&item));
    let r = render_tree_row(&item, false);
    assert_eq!(r.pid, "    4711");
    assert_eq!(r.user, "danie+");
    assert_eq!(r.state, " S ");
    assert_eq!(r.node, "c1          ");
    assert_eq!(r.cpu, "      -");
    assert_eq!(r.memory, "      2Ki");
    assert_eq!(r.tasks, "     8");
    assert_eq!(r.io_read, "       -");
    assert_eq!(r.io_write, "      5B");
    assert_eq!(r.cgroup_branch, "    ");
    assert_eq!(r.process_branch, "│  ├─ ");
    assert_eq!(r.name, "python");
    assert_eq!(render_tree_row(&item, true).name, "python train.py");
    assert!(!can_render_row(&process_row("aaaaéb")));
}

#[test]
fn headers_mark_the_sorted_column() {
    let h = render_headers(SortColumn::Cpu, SortDirection::Descending, 10, false);
    let texts: Vec<&str> = h.iter().map(|c| c.text.as_str()).collect();
    assert_eq!(
        texts,
        vec![
            "     PID", "USER  ", "S  ", "▼  CPU%", "      MEM", " TASKS", "  IO-R/s", "  IO-W/s",
            "NAME      ",
        ]
    );
    let h = render_headers(SortColumn::Name, SortDirection::Ascending, 6, true);
    let texts: Vec<&str> = h.iter().map(|c| c.text.as_str()).collect();
    assert_eq!(
        texts,
        vec![
            "     PID", "USER  ", "S  ", "NODE        ", "   CPU%", "      MEM", " TASKS", "  IO-R/s",
            "  IO-W/s", "▲NAME ",
        ]
    );
    for with_node in [false, true] {
        let mut by = SortColumn::Name;
        for _ in 0..9 {
            let h = render_headers(by, SortDirection::Ascending, 5, with_node);
            assert_eq!(h.iter().filter(|c| c.sorted).count(), 1);
            by = by.next();
        }
    }
}

#[test]
fn the_name_gets_the_rest_of_the_line() {
    assert_eq!(name_width(100, false), 37);
    assert_eq!(name_width(100, true), 25);
    assert_eq!(name_width(63, false), 0);
    assert_eq!(name_width(10, true), 0);
}

#[test]
fn footers_show_place_and_keys() {
    let mut app = App::new(1000, 0);
    assert_eq!(
        render_footer(&app),
        " 0/0 | q:quit  j/k:nav  </> :sort  I:reverse  r:refresh "
    );
    app.items = vec![cgroup_row(0, true), process_row("ann")];
    app.selected = 1;
    assert_eq!(
        render_footer(&app),
        " 2/2 | q:quit  j/k:nav  </> :sort  I:reverse  r:refresh "
    );
    app.error = Some("broken".to_string());
    assert_eq!(render_footer(&app), " Error: broken ");
    let mut state = CoordinatorState::new(job(), 1000, 0);
    state.compact_mode = true;
    assert_eq!(
        render_job_footer(&state),
        " 0/0 | q:quit  j/k:nav  </> :sort  I:reverse  c:compact "
    );
    state.compact_mode = false;
    assert_eq!(
        render_job_footer(&state),
        " 0/0 | q:quit  j/k:nav  </> :sort  I:reverse  c:detail "
    );
}

#[test]
fn titles_fill_the_line() {
    let mut app = App::new(500, 0);
    app.self_stats = SelfStats {
        cpu_percent: rate(1.25),
        memory_bytes: 5 * 1024 * 1024,
        fps: rate(29.5),
        refresh_time_ms: rate(12.34),
    };
    let stats = "2Hz 30fps 12.3ms  cpu:1.2% mem:5.0Mi ";
    assert_eq!(self_stats_text(&app.self_stats, 500), stats);
    let bar = render_title(&app, 100);
    assert_eq!(bar.title, " jam - cgroup/process tree ");
    assert_eq!(bar.stats, stats);
    assert_eq!(bar.title.len() + bar.padding.len() + bar.stats.len(), 100);
    assert_eq!(render_title(&app, 10).padding, "");
    assert_eq!(render_title(&app, 1000).padding.len(), 256);
    assert_eq!(gap(10, "abc", "é"), 5);
    assert_eq!(gap(4, "abc", "é"), 0);

    let mut state = CoordinatorState::new(job(), 1000, 0);
    state.expect_node("c1".to_string());
    state.expect_node("c2".to_string());
    state.compact_mode = false;
    state.self_stats = app.self_stats;
    let bar = render_job_title(&state, 1000);
    assert_eq!(bar.title, " jam - Job 12345 (fit) | Nodes: 0/2 ");
    assert_eq!(bar.stats, "[D] 30fps 0B/s 1.2% 5.0Mi ");
    assert_eq!(bar.title.len() + bar.padding.len() + bar.stats.len(), 1000);
    state.compact_mode = true;
    assert_eq!(render_job_title(&state, 0).stats, "[C] 30fps 0B/s 1.2% 5.0Mi ");
}

#[test]
fn keys_have_their_actions() {
    let plain = Modifiers::Plain;
    let table = [
        (KeyCode::Char('q'), Action::Quit),
        (KeyCode::Char('j'), Action::SelectNext),
        (KeyCode::Down, Action::SelectNext),
        (KeyCode::Char('k'), Action::SelectPrev),
        (KeyCode::Up, Action::SelectPrev),
        (KeyCode::Char('d'), Action::PageDown),
        (KeyCode::PageDown, Action::PageDown),
        (KeyCode::Char('u'), Action::PageUp),
        (KeyCode::PageUp, Action::PageUp),
        (KeyCode::Char('g'), Action::SelectFirst),
        (KeyCode::Home, Action::SelectFirst),
        (KeyCode::Char('G'), Action::SelectLast),
        (KeyCode::End, Action::SelectLast),
        (KeyCode::Char('>'), Action::SortNext),
        (KeyCode::Char('.'), Action::SortNext),
        (KeyCode::Char('<'), Action::SortPrev),
        (KeyCode::Char(','), Action::SortPrev),
        (KeyCode::Char('I'), Action::Reverse),
        (KeyCode::Char('z'), Action::Nothing),
        (KeyCode::Other, Action::Nothing),
    ];
    for (code, action) in table {
        assert_eq!(read_local_key(code, plain), action);
        assert_eq!(read_coordinator_key(code, plain), action);
    }
    assert_eq!(read_local_key(KeyCode::Char('r'), plain), Action::Refresh);
    assert_eq!(read_coordinator_key(KeyCode::Char('r'), plain), Action::Nothing);
    assert_eq!(read_local_key(KeyCode::Char('c'), plain), Action::Nothing);
    assert_eq!(read_coordinator_key(KeyCode::Char('c'), plain), Action::ToggleCompact);
    for read in [read_local_key, read_coordinator_key] {
        assert_eq!(read(KeyCode::Char('c'), Modifiers::Control), Action::Quit);
        assert_eq!(read(KeyCode::Char('u'), Modifiers::Control), Action::PageUp);
        assert_eq!(read(KeyCode::Char('d'), Modifiers::Control), Action::PageDown);
        assert_eq!(read(KeyCode::Char('d'), Modifiers::Other), Action::Nothing);
    }
}
