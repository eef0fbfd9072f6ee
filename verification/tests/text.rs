//! Text, numbers and paths against the standard library.

use std::path::Path;

use jam::number::{decimal_text, parse_i32, parse_u32, parse_u64};
use jam::path::{file_name, join_path, same_path, split_path};
use jam::text::{
    begins_with, comes_before, contains, join, split_lines, split_on, split_words, strip,
    trim,
};

fn samples() -> Vec<String> {
    let pieces = ["", "a", "bc", " ", "\t", "\n", "\r\n", "\r", ":", "=", "é", "\u{3000}", "job_1",
        "/", ".", "..", "\0", "│", "x y", "0::", "-"];
    let mut all = Vec::new();
    for a in pieces {
        for b in pieces {
            for c in ["", ":", "\n", " z", "/"] {
                all.push(format!("{}{}{}{}", a, b, c, a));
            }
        }
    }
    all
}

#[test]
fn texts_are_split_as_in_std() {
    for s in samples() {
        for sep in [':', '/', '=', '\0', 'é'] {
            assert_eq!(split_on(&s, sep), s.split(sep).collect::<Vec<_>>(), "{:?}", s);
        }
        assert_eq!(split_words(&s), s.split_whitespace().collect::<Vec<_>>(), "{:?}", s);
        assert_eq!(split_lines(&s), s.lines().collect::<Vec<_>>(), "{:?}", s);
        assert_eq!(trim(&s), s.trim(), "{:?}", s);
    }
}

#[test]
fn texts_are_searched_as_in_std() {
    let all = samples();
    for s in &all {
        for p in ["", "a", ":", "job_", "0::", "é", "bc"] {
            assert_eq!(strip(s, p).as_deref(), s.strip_prefix(p));
            assert_eq!(begins_with(s, p), s.starts_with(p));
            assert_eq!(contains(s, p), s.contains(p), "{:?} {:?}", s, p);
        }
    }
    for a in all.iter().step_by(7) {
        for b in all.iter().step_by(11) {
            assert_eq!(comes_before(a, b), a < b, "{:?} {:?}", a, b);
            assert_eq!(jam::text::concat(a, b), format!("{}{}", a, b));
        }
    }
    assert_eq!(join(&vec![], ", "), "");
    assert_eq!(join(&vec!["a".to_string()], ", "), "a");
    assert_eq!(join(&vec!["a".to_string(), "".to_string(), "c".to_string()], ", "), "a, , c");
}

#[test]
fn pieces_joined_again_are_the_text() {
    for s in samples() {
        assert_eq!(join(&split_on(&s, '/'), "/"), s);
    }
}

#[test]
fn numbers_are_read_as_in_std() {
    let all = ["", "0", "7", "007", "+5", "-5", "+", "-", "--1", "+-1", "1 ", " 1", "1a", "a1",
        "4294967295", "4294967296", "2147483647", "2147483648", "-2147483648", "-2147483649",
        "18446744073709551615", "18446744073709551616", "99999999999999999999999", "１", "1_0",
        "000000000000000000000000000000001", "-0", "+0"];
    for s in all {
        assert_eq!(parse_u64(s), s.parse::<u64>().ok(), "{:?}", s);
        assert_eq!(parse_u32(s), s.parse::<u32>().ok(), "{:?}", s);
        assert_eq!(parse_i32(s), s.parse::<i32>().ok(), "{:?}", s);
    }
}

#[test]
fn decimal_numbers_read_back() {
    for n in [0u64, 1, 9, 10, 11, 99, 100, 12345, u64::MAX, u32::MAX as u64] {
        assert_eq!(decimal_text(n as u128), n.to_string());
        assert_eq!(parse_u64(&decimal_text(n as u128)), Some(n));
    }
    assert_eq!(decimal_text(u128::MAX), u128::MAX.to_string());
}

#[test]
fn paths_are_those_of_std() {
    let all = ["", "/", "a", "/a", "a/", "/a/b", "/a//b", "/a/./b", "./a", ".", "..", "/..", "a/..",
        "/a/b/", "//a", "a/.", "./", "./.", "/.", "a/b/..", "/sys/fs/cgroup", "/sys/fs/cgroup/",
        "/sys//fs/./cgroup", "sys/fs/cgroup", "../a", "a/../b"];
    for a in all {
        assert_eq!(
            file_name(a).as_deref(),
            Path::new(a).file_name().and_then(|n| n.to_str()),
            "{:?}",
            a
        );
        for b in all {
            assert_eq!(same_path(a, b), Path::new(a) == Path::new(b), "{:?} {:?}", a, b);
            assert_eq!(join_path(a, b), Path::new(a).join(b).to_str().unwrap(), "{:?} {:?}", a, b);
        }
    }
    assert_eq!(split_path("/a//./b/.."), vec!["a", "b", ".."]);
}
