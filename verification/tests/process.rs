//! Processes, as /proc shows them.

use jam::process::parser::{
    are_whole, has_fields, is_whole_stat, parse_cmdline_name, parse_full_cmdline, parse_io_stats,
    parse_proc_stat, parse_process, parse_processes, parse_self_stat, parse_uid_from_status,
    ProcFiles, Users,
};
use jam::process::types::{Process, ProcessNode, ProcessState, ProcessTree};

const STAT: &str = "42 (a (b) c) S 7 42 42 0 -1 4194560 100 0 0 0 150 50 0 0 20 0 3 0 98765 \
                    1048576 25 18446744073709551615";

fn process(pid: u32, ppid: u32) -> Process {
    let stat = format!(
        "{} (p{}) R {} 0 0 0 0 0 0 0 0 0 1 2 0 0 0 0 1 0 5 6 7",
        pid, pid, ppid
    );
    let files = ProcFiles { pid, stat: Some(stat), cmdline: None, status: None, io: None };
    parse_process(&files, &Users::none()).unwrap()
}

#[test]
fn a_stat_line_is_read() {
    let s = parse_proc_stat(STAT).unwrap();
    assert_eq!(s.comm, "a (b) c");
    assert_eq!(s.state, 'S');
    assert_eq!(s.ppid, 7);
    assert_eq!(s.utime, 150);
    assert_eq!(s.stime, 50);
    assert_eq!(s.num_threads, 3);
    assert_eq!(s.starttime, 98765);
    assert_eq!(s.vsize, 1048576);
    assert_eq!(s.rss, 25);
}

#[test]
fn a_stat_line_that_lacks_something_is_refused() {
    assert!(parse_proc_stat("").is_none());
    assert!(parse_proc_stat("42 a S 1").is_none());
    assert!(parse_proc_stat("42 (a S 1").is_none());
    assert!(parse_proc_stat("42 (a) S 1 2 3").is_none());
    assert!(parse_proc_stat(&STAT.replace(" 98765 ", " x ")).is_none());
    assert!(parse_proc_stat(&STAT.replace(" S 7 ", " S -7 ")).is_none());
    assert!(parse_proc_stat(&STAT.replace(" 25 ", " ")).is_some());
    assert!(is_whole_stat(STAT));
    assert!(is_whole_stat("no parentheses"));
    assert!(!is_whole_stat(") before ("));
    assert!(!is_whole_stat("1 (a)"));
    assert!(is_whole_stat("1 (a) "));
    assert!(!is_whole_stat("1 (a)\u{e9}"));
}

#[test]
fn the_own_stat_line_is_read() {
    assert_eq!(parse_self_stat(STAT), Some((150, 50, 25)));
    assert_eq!(parse_self_stat("no parenthesis"), None);
    assert_eq!(parse_self_stat("1 (a) S 1 2 3"), None);
    assert!(has_fields(STAT));
    assert!(!has_fields("1 (a)"));
}

#[test]
fn a_command_line_gives_name_and_arguments() {
    assert_eq!(parse_cmdline_name("/usr/bin/python3\0-m\0x\0").as_deref(), Some("python3"));
    assert_eq!(parse_cmdline_name("bash").as_deref(), Some("bash"));
    assert_eq!(parse_cmdline_name("/a/b/\0").as_deref(), Some("b"));
    assert_eq!(parse_cmdline_name("/\0"), None);
    assert_eq!(parse_cmdline_name("/a/..\0"), None);
    assert_eq!(parse_cmdline_name(""), None);
    assert_eq!(parse_cmdline_name("\0x"), None);
    assert_eq!(parse_full_cmdline("a\0\0b c\0").as_deref(), Some("a b c"));
    assert_eq!(parse_full_cmdline("\0\0"), None);
    assert_eq!(parse_full_cmdline(""), None);
}

#[test]
fn the_first_uid_counts() {
    assert_eq!(parse_uid_from_status("Name:\tx\nUid:\t1000\t0\t0\t0\nUid:\t5\n"), Some(1000));
    assert_eq!(parse_uid_from_status("Uid:\nUid:\t5\n"), None);
    assert_eq!(parse_uid_from_status("Uid:\tx\nUid:\t5\n"), None);
    assert_eq!(parse_uid_from_status(" Uid:\t5\n"), None);
}

#[test]
fn the_last_io_line_counts() {
    let io = "rchar: 1\nwchar: 2\nread_bytes: 4096\nwrite_bytes:  8192 \ncancelled_write_bytes: 3\n";
    assert_eq!(parse_io_stats(io), (4096, 8192));
    assert_eq!(parse_io_stats("read_bytes: 1\nread_bytes: 2\n"), (2, 0));
    assert_eq!(parse_io_stats("read_bytes: 1\nread_bytes: x\n"), (0, 0));
    assert_eq!(parse_io_stats("read_bytes:1\n"), (0, 0));
}

#[test]
fn users_are_named() {
    let users = Users::parse("root:x:0:0:root:/root:/bin/bash\nann:x:1000\nbad:x:y\nshort:x\nbob:x:1000:z\n");
    assert_eq!(users.get_username(0), "root");
    assert_eq!(users.get_username(1000), "bob");
    assert_eq!(users.get_username(7), "7");
    assert_eq!(Users::none().get_username(0), "0");
}

#[test]
fn a_process_is_put_together() {
    let users = Users::parse("ann:x:1000:\n");
    let files = ProcFiles {
        pid: 42,
        stat: Some(STAT.to_string()),
        cmdline: Some("/bin/sleep\09\0".to_string()),
        status: Some("Uid:\t1000\t1000\n".to_string()),
        io: Some("read_bytes: 5\nwrite_bytes: 6\n".to_string()),
    };
    let p = parse_process(&files, &users).unwrap();
    assert_eq!(p.pid, 42);
    assert_eq!(p.ppid, 7);
    assert_eq!(p.name, "sleep");
    assert_eq!(p.cmdline.as_deref(), Some("/bin/sleep 9"));
    assert_eq!(p.user, "ann");
    assert_eq!(p.state, ProcessState::Sleeping);
    assert_eq!(p.rss, 25 * 4096);
    assert_eq!(p.total_time(), 200);
    assert_eq!((p.io_read_bytes, p.io_write_bytes), (5, 6));
    assert!(p.cpu_percent.is_pending());
    assert!(p.io_read_rate.is_pending());
    assert!(p.io_write_rate.is_pending());
    let bare = ProcFiles { cmdline: None, status: None, io: None, ..files };
    let p = parse_process(&bare, &users).unwrap();
    assert_eq!(p.name, "a (b) c");
    assert_eq!(p.cmdline, None);
    assert_eq!(p.user, "0");
    assert_eq!((p.io_read_bytes, p.io_write_bytes), (0, 0));
    let gone = ProcFiles { pid: 9, stat: None, cmdline: None, status: None, io: None };
    assert!(parse_process(&gone, &users).is_none());
    let list = vec![gone, bare];
    assert!(are_whole(&list));
    let all = parse_processes(&list, &users);
    assert_eq!(all.len(), 1);
    assert_eq!(all[0].pid, 42);
}

#[test]
fn states_have_letters() {
    for c in ['R', 'S', 'D', 'Z', 'T', 't', 'I', 'X', '?'] {
        let state = ProcessState::from(c);
        let letter = state.as_char();
        assert_eq!(ProcessState::from(letter), state);
        if "RSDZTI".contains(c) {
            assert_eq!(letter, c);
        }
    }
    assert_eq!(ProcessState::from('t'), ProcessState::Stopped);
    assert_eq!(ProcessState::from('Q').as_char(), '?');
}

fn pids(nodes: &Vec<ProcessNode>) -> Vec<u32> {
    nodes.iter().map(|n| n.process.pid).collect()
}

#[test]
fn processes_form_a_forest() {
    let list = vec![
        process(30, 10), process(10, 1), process(20, 10), process(5, 999), process(21, 20),
        process(40, 5),
    ];
    let tree = ProcessTree::from_processes(list);
    assert_eq!(pids(&tree.roots), vec![5, 10]);
    assert_eq!(pids(&tree.roots[0].children), vec![40]);
    assert_eq!(pids(&tree.roots[1].children), vec![20, 30]);
    assert_eq!(pids(&tree.roots[1].children[0].children), vec![21]);
    assert!(tree.roots[1].children[1].children.is_empty());
    assert!(ProcessTree::default().roots.is_empty());
    assert!(ProcessTree::from_processes(vec![]).roots.is_empty());
}

#[test]
fn processes_that_are_their_own_ancestors_are_left_out() {
    let tree = ProcessTree::from_processes(vec![process(1, 2), process(2, 1), process(3, 0)]);
    assert_eq!(pids(&tree.roots), vec![3]);
}
