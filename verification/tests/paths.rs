use std::path::Path;

use clipmunge::paths::{directory, join_path, paths_equal};

/// Every text over a small alphabet up to a length.
fn samples(max: usize) -> Vec<String> {
    let mut all = vec![String::new()];
    let mut last = vec![String::new()];
    for _ in 0..max {
        let mut next = Vec::new();
        for s in &last {
            for c in ['/', '.', 'a'] {
                next.push(format!("{s}{c}"));
            }
        }
        all.extend(next.iter().cloned());
        last = next;
    }
    all
}

#[test]
fn the_directory_of_a_config() {
    for (path, dir) in [
        ("config.lua", "."),
        ("", "."),
        ("/", "."),
        ("/config.lua", "/"),
        ("a/b", "a"),
        ("a//b/", "a"),
        ("/a/b/./", "/a"),
    ] {
        assert_eq!(directory(path.as_bytes()), dir.as_bytes(), "{path}");
    }
}

#[test]
fn directories_are_those_of_std() {
    for s in samples(8) {
        let want = match Path::new(&s).parent() {
            Some(d) if !d.as_os_str().is_empty() => d.to_str().unwrap(),
            _ => ".",
        };
        assert_eq!(directory(s.as_bytes()), want.as_bytes(), "{s}");
    }
}

#[test]
fn equality_is_that_of_std() {
    let all = samples(5);
    for a in &all {
        for b in &all {
            assert_eq!(
                paths_equal(a.as_bytes(), b.as_bytes()),
                Path::new(a) == Path::new(b),
                "{a} {b}"
            );
        }
    }
}

#[test]
fn joining_is_that_of_std() {
    let all = samples(4);
    for a in &all {
        for b in &all {
            let want = Path::new(a).join(b);
            assert_eq!(
                join_path(a.as_bytes(), b.as_bytes()),
                want.to_str().unwrap().as_bytes(),
                "{a} {b}"
            );
        }
    }
}
