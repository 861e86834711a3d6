use scope_guard::guard::{ScopeError, ScopeGuard};

fn guard_at(working_dir: &str) -> ScopeGuard {
    match ScopeGuard::new(working_dir) {
        Ok(g) => g,
        Err(_) => panic!("working directory should be accepted"),
    }
}

#[test]
fn ungranted_paths_are_denied() {
    let mut g = guard_at("/home/user/app");
    assert!(!g.is_allowed("/etc/passwd"));
    g.allow_directory("data", true).unwrap();
    assert!(!g.is_allowed("/etc/passwd"));
    assert!(!g.is_allowed("/home/user/app"));
    assert!(!g.is_allowed("/home/user/app/other"));
    assert!(!g.is_allowed("/home/user"));
}

#[test]
fn recursive_grant_allows_path_and_descendants() {
    let mut g = guard_at("/home/user/app");
    g.allow_directory("/srv/files", true).unwrap();
    assert!(g.is_allowed("/srv/files"));
    assert!(g.is_allowed("/srv/files/a.txt"));
    assert!(g.is_allowed("/srv/files/a/b/c.txt"));
    assert!(!g.is_allowed("/srv"));
}

#[test]
fn nonrecursive_grant_allows_exact_path_only() {
    let mut g = guard_at("/home/user/app");
    g.allow_directory("/srv/files", false).unwrap();
    assert!(g.is_allowed("/srv/files"));
    assert!(!g.is_allowed("/srv/files/a.txt"));
    assert!(!g.is_allowed("/srv/files/a/b"));
    assert!(!g.is_allowed("/srv"));
}

#[test]
fn prefix_matching_is_segment_aware() {
    let mut g = guard_at("/home/user/app");
    g.allow_directory("/data", true).unwrap();
    assert!(g.is_allowed("/data/file.txt"));
    assert!(!g.is_allowed("/data2/file.txt"));
    assert!(!g.is_allowed("/dat"));
}

#[test]
fn list_allowed_keeps_order_and_flags() {
    let mut g = guard_at("/home/user/app");
    g.allow_directory("alpha", true).unwrap();
    g.allow_directory("/beta", false).unwrap();
    let entries = g.list_allowed();
    assert_eq!(entries.len(), 2);
    assert_eq!(entries[0].path_string(), "/home/user/app/alpha");
    assert!(entries[0].recursive);
    assert_eq!(entries[1].path_string(), "/beta");
    assert!(!entries[1].recursive);
}

#[test]
fn empty_path_is_rejected_without_mutation() {
    let mut g = guard_at("/home/user/app");
    assert_eq!(g.allow_directory("", true), Err(ScopeError::InvalidPath));
    assert_eq!(g.list_allowed().len(), 0);
    g.allow_directory("kept", false).unwrap();
    assert_eq!(g.allow_directory("", false), Err(ScopeError::InvalidPath));
    let entries = g.list_allowed();
    assert_eq!(entries.len(), 1);
    assert_eq!(entries[0].path_string(), "/home/user/app/kept");
}

#[test]
fn temp_files_scenario() {
    let mut g = guard_at("/home/user/app/src-tauri");
    g.allow_directory("../tempFiles", true).unwrap();
    let entries = g.list_allowed();
    assert_eq!(entries.len(), 1);
    assert_eq!(entries[0].path_string(), "/home/user/app/tempFiles");
    assert!(entries[0].recursive);
    assert!(g.is_allowed("/home/user/app/tempFiles/output.txt"));
    assert!(!g.is_allowed("/home/user/tempFiles"));
}

#[test]
fn nul_bytes_are_rejected_and_denied() {
    let mut g = guard_at("/home/user/app");
    assert_eq!(g.allow_directory("/a\0b", true), Err(ScopeError::InvalidPath));
    assert_eq!(g.list_allowed().len(), 0);
    g.allow_directory("/a", true).unwrap();
    assert!(!g.is_allowed("/a\0b"));
    assert!(g.is_allowed("/a/b"));
}

#[test]
fn relative_queries_resolve_against_working_directory() {
    let mut g = guard_at("/home/user/app");
    g.allow_directory("/home/user/app/docs", true).unwrap();
    assert!(g.is_allowed("docs/readme.md"));
    assert!(g.is_allowed("./docs"));
    assert!(g.is_allowed("../app/docs"));
    assert!(!g.is_allowed("../docs"));
}

#[test]
fn normalization_collapses_dots_and_doubled_separators() {
    let mut g = guard_at("/home/user");
    g.allow_directory(".", true).unwrap();
    g.allow_directory("a//b/", false).unwrap();
    g.allow_directory("./c/../d", false).unwrap();
    let entries = g.list_allowed();
    assert_eq!(entries.len(), 3);
    assert_eq!(entries[0].path_string(), "/home/user");
    assert_eq!(entries[1].path_string(), "/home/user/a/b");
    assert_eq!(entries[2].path_string(), "/home/user/d");
}

#[test]
fn parent_of_root_stays_at_root() {
    let mut g = guard_at("/");
    g.allow_directory("..", false).unwrap();
    let entries = g.list_allowed();
    assert_eq!(entries.len(), 1);
    assert_eq!(entries[0].path_string(), "/");
    assert!(g.is_allowed("/"));
    g.allow_directory("/../etc", true).unwrap();
    assert!(g.is_allowed("/etc/hosts"));
}

#[test]
fn working_directory_must_be_absolute() {
    assert!(matches!(ScopeGuard::new("relative/dir"), Err(ScopeError::InvalidPath)));
    assert!(matches!(ScopeGuard::new(""), Err(ScopeError::InvalidPath)));
    assert!(matches!(ScopeGuard::new("/has\0nul"), Err(ScopeError::InvalidPath)));
    assert!(ScopeGuard::new("/ok/dir").is_ok());
}

#[test]
fn snapshots_are_independent_of_later_grants() {
    let mut g = guard_at("/home/user/app");
    g.allow_directory("one", true).unwrap();
    let before = g.list_allowed();
    g.allow_directory("two", false).unwrap();
    assert_eq!(before.len(), 1);
    assert_eq!(g.list_allowed().len(), 2);
}

#[test]
fn grant_of_root_covers_everything_when_recursive() {
    let mut g = guard_at("/home/user/app");
    g.allow_directory("/", true).unwrap();
    assert!(g.is_allowed("/"));
    assert!(g.is_allowed("/anything/at/all"));
}

#[test]
fn empty_query_is_denied() {
    let mut g = guard_at("/home/user/app");
    g.allow_directory("/", true).unwrap();
    assert!(!g.is_allowed(""));
}

#[test]
fn path_string_round_trips_through_grants() {
    let mut g1 = guard_at("/base");
    g1.allow_directory("/x/../y/z", true).unwrap();
    let s = g1.list_allowed()[0].path_string();
    assert_eq!(s, "/y/z");
    let mut g2 = guard_at("/elsewhere");
    g2.allow_directory(&s, true).unwrap();
    assert_eq!(g2.list_allowed()[0].path_string(), s);
    assert!(g2.is_allowed("/y/z/file"));

    let mut r1 = guard_at("/base");
    r1.allow_directory("/", false).unwrap();
    let root = r1.list_allowed()[0].path_string();
    assert_eq!(root, "/");
    let mut r2 = guard_at("/elsewhere");
    r2.allow_directory(&root, false).unwrap();
    assert_eq!(r2.list_allowed()[0].path_string(), "/");
}

#[test]
fn duplicate_grants_are_kept_and_harmless() {
    let mut g = guard_at("/home/user/app");
    g.allow_directory("/x", false).unwrap();
    g.allow_directory("/x", true).unwrap();
    let entries = g.list_allowed();
    assert_eq!(entries.len(), 2);
    assert_eq!(entries[0].path_string(), "/x");
    assert_eq!(entries[1].path_string(), "/x");
    assert!(g.is_allowed("/x/deep"));
}
