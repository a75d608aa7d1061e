use pfp::discover::{
    discover, pid_of, process_matches, self_cgroup_id, ProcEntry, ProcessFilter, ProcessInfo,
};

fn info(comm: &str, cmdline: &[u8], cgroup: &str) -> ProcessInfo {
    ProcessInfo {
        comm: Some(comm.to_string()),
        cmdline: Some(cmdline.to_vec()),
        cgroup: Some(cgroup.to_string()),
    }
}

fn filter(name: Option<&str>, cmdline: Option<&str>, cgroup: Option<&str>) -> ProcessFilter {
    ProcessFilter {
        name: name.map(str::to_string),
        cmdline: cmdline.map(str::to_string),
        cgroup: cgroup.map(str::to_string),
    }
}

#[test]
fn processes_match_by_substring() {
    let p = info("php-fpm8.3\n", b"php-fpm: pool www\0\0", "0::/docker/abc\n");
    assert!(process_matches(&p, &filter(None, None, None)));
    assert!(process_matches(&p, &filter(Some("php-fpm"), None, None)));
    assert!(!process_matches(&p, &filter(Some("php-cgi"), None, None)));
    assert!(process_matches(&p, &filter(Some("php"), Some("pool www"), Some("abc"))));
    assert!(!process_matches(&p, &filter(Some("php"), Some("pool x"), Some("abc"))));
    assert!(!process_matches(&p, &filter(None, None, Some("abd"))));
    // White space at the ends is not part of what is matched.
    assert!(!process_matches(&p, &filter(Some("8.3\n"), None, None)));
    assert!(!process_matches(&p, &filter(None, Some("www "), None)));
}

#[test]
fn arguments_have_spaces_between_them() {
    let p = info("php", b"php\0-S\0localhost:80\0", "");
    assert!(process_matches(&p, &filter(None, Some("php -S localhost:80"), None)));
    let p = info("php", b"php\0caf\xff", "");
    assert!(process_matches(&p, &filter(None, Some("caf\u{fffd}"), None)));
}

#[test]
fn what_cannot_be_read_does_not_match() {
    let p = ProcessInfo { comm: None, cmdline: None, cgroup: None };
    assert!(process_matches(&p, &filter(None, None, None)));
    assert!(!process_matches(&p, &filter(Some(""), None, None)));
    assert!(!process_matches(&p, &filter(None, Some(""), None)));
    // An unreadable cgroup is an empty one.
    assert!(process_matches(&p, &filter(None, None, Some(""))));
    assert!(!process_matches(&p, &filter(None, None, Some("x"))));
}

#[test]
fn entries_that_are_no_process_are_passed_over() {
    assert_eq!(pid_of("123"), Some(123));
    assert_eq!(pid_of("self"), None);
    assert_eq!(pid_of(""), None);
    let entry = |name: &str, comm: &str| ProcEntry {
        name: name.to_string(),
        info: info(comm, b"", ""),
    };
    let entries = [
        entry("1", "init"),
        entry("10", "php-fpm"),
        entry("sys", "php-fpm"),
        entry("11", "php-fpm"),
        entry("10", "php-fpm"),
    ];
    let found = discover(&entries, &filter(Some("php"), None, None));
    assert_eq!(found.len(), 2);
    assert!(found.contains(&10) && found.contains(&11));
}

#[test]
fn containers_are_found_in_cgroup_paths() {
    let id = |s: &str| self_cgroup_id(s);
    assert_eq!(id("0::/system.slice/docker-abc.scope\n").as_deref(), Some("abc"));
    assert_eq!(id("12:cpuset:/docker/0123\n").as_deref(), Some("0123"));
    let long = "f".repeat(70);
    assert_eq!(id(&format!("1:x:/docker/{long}")).unwrap(), "f".repeat(64));
    assert_eq!(id("0::/user.slice\n1:x:/docker/ab\n").as_deref(), Some("ab"));
    assert_eq!(id("0::/user.slice\n"), None);
    assert_eq!(id(""), None);
    // The last occurrence counts, and a scope goes before a directory.
    assert_eq!(id("0::/docker-a.b/docker-c.d").as_deref(), Some("c"));
    assert_eq!(id("0::/docker/x/docker-y").as_deref(), Some("y"));
    // Only what follows the last colon is the path.
    assert_eq!(id("0:docker-a:/x"), None);
}
