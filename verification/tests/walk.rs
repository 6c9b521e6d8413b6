use sftp_sync::entry::RemoteEntry;
use sftp_sync::machine::SyncError;
use sftp_sync::sync::SftpSync;
use sftp_sync::walker::{Action, Event, Report, ReportKind, TransferPair};
use std::collections::HashMap;

struct World {
    remote: HashMap<String, Result<Vec<RemoteEntry>, String>>,
    local: HashMap<String, u64>,
    created: Vec<String>,
    listed: Vec<String>,
    probed: Vec<String>,
}

fn world() -> World {
    World {
        remote: HashMap::new(),
        local: HashMap::new(),
        created: Vec::new(),
        listed: Vec::new(),
        probed: Vec::new(),
    }
}

fn file(name: &str, size: u64) -> RemoteEntry {
    RemoteEntry {
        path: format!("listed/{}", name),
        name: Some(name.to_string()),
        is_dir: false,
        size: Some(size),
    }
}

fn dir(name: &str) -> RemoteEntry {
    RemoteEntry {
        path: format!("listed/{}", name),
        name: Some(name.to_string()),
        is_dir: true,
        size: None,
    }
}

fn pair(remote: &str, local: &str) -> TransferPair {
    TransferPair { remote_path: remote.to_string(), local_path: local.to_string() }
}

fn names(list: &[&str]) -> Option<Vec<String>> {
    Some(list.iter().map(|s| s.to_string()).collect())
}

fn drive(
    sync: SftpSync,
    root_exists: bool,
    world: &mut World,
) -> (Result<Vec<TransferPair>, SyncError>, Vec<Report>) {
    let mut walker = match sync.sync_local_directory(root_exists) {
        Ok(w) => w,
        Err(e) => return (Err(e), Vec::new()),
    };
    loop {
        let event = match walker.action() {
            Action::EnsureDir(p) => {
                world.created.push(p);
                Event::DirReady
            }
            Action::List(p) => {
                world.listed.push(p.clone());
                match world.remote.get(&p) {
                    Some(Ok(v)) => Event::Listed(v.clone()),
                    Some(Err(m)) => Event::Failed(m.clone()),
                    None => Event::Failed(format!("no such directory: {}", p)),
                }
            }
            Action::Probe(p) => {
                world.probed.push(p.clone());
                Event::Probed(world.local.get(&p).copied())
            }
            Action::Finish | Action::Abort(_) => break,
        };
        walker = walker.step(event);
    }
    let reports = walker.reports().clone();
    (walker.finish(), reports)
}

#[test]
fn excluded_directory_is_never_entered() {
    let mut w = world();
    w.remote.insert(
        "/remote".to_string(),
        Ok(vec![file("a.txt", 10), dir("skip_me")]),
    );
    w.remote.insert("/remote/skip_me".to_string(), Ok(vec![file("b.txt", 5)]));
    let sync = SftpSync::new(names(&["skip_me"]), "/local", "/remote");
    let (result, reports) = drive(sync, true, &mut w);
    assert_eq!(result, Ok(vec![pair("/remote/a.txt", "/local/a.txt")]));
    assert_eq!(w.created, vec!["/local".to_string()]);
    assert_eq!(w.listed, vec!["/remote".to_string()]);
    assert_eq!(w.probed, vec!["/local/a.txt".to_string()]);
    assert!(reports.contains(&Report {
        kind: ReportKind::SkipExcluded,
        subject: "skip_me".to_string()
    }));
}

#[test]
fn file_of_equal_length_is_up_to_date() {
    let mut w = world();
    w.remote.insert("/remote".to_string(), Ok(vec![file("c.txt", 100)]));
    w.local.insert("/local/c.txt".to_string(), 100);
    let sync = SftpSync::new(None, "/local", "/remote");
    let (result, _) = drive(sync, true, &mut w);
    assert_eq!(result, Ok(Vec::new()));
    assert_eq!(w.probed, vec!["/local/c.txt".to_string()]);
}

#[test]
fn failed_listing_of_a_subdirectory_fails_the_run() {
    let mut w = world();
    w.remote.insert(
        "/remote".to_string(),
        Ok(vec![file("a.txt", 10), dir("locked"), file("z.txt", 1)]),
    );
    w.remote.insert("/remote/locked".to_string(), Err("permission denied".to_string()));
    let sync = SftpSync::new(None, "/local", "/remote");
    let (result, _) = drive(sync, true, &mut w);
    assert_eq!(result, Err(SyncError::Fatal("permission denied".to_string())));
    assert_eq!(w.probed, vec!["/local/a.txt".to_string()]);
}

#[test]
fn missing_local_root_fails_before_anything_is_asked() {
    let mut w = world();
    w.remote.insert("/remote".to_string(), Ok(vec![file("a.txt", 10)]));
    let sync = SftpSync::new(None, "/nowhere", "/remote");
    let (result, reports) = drive(sync, false, &mut w);
    assert_eq!(result, Err(SyncError::LocalRootMissing("/nowhere".to_string())));
    assert!(reports.is_empty());
    assert!(w.created.is_empty() && w.listed.is_empty() && w.probed.is_empty());
}

#[test]
fn missing_and_differing_files_are_stale() {
    let mut w = world();
    w.remote.insert(
        "/r".to_string(),
        Ok(vec![file("new.bin", 7), file("grown.bin", 9), file("same.bin", 4)]),
    );
    w.local.insert("/l/grown.bin".to_string(), 8);
    w.local.insert("/l/same.bin".to_string(), 4);
    let sync = SftpSync::new(None, "/l", "/r");
    let (result, _) = drive(sync, true, &mut w);
    assert_eq!(
        result,
        Ok(vec![pair("/r/new.bin", "/l/new.bin"), pair("/r/grown.bin", "/l/grown.bin")])
    );
}

#[test]
fn exclusion_holds_at_any_depth_and_for_files() {
    let mut w = world();
    w.remote.insert("/r".to_string(), Ok(vec![dir("a"), file("tmp", 1)]));
    w.remote.insert("/r/a".to_string(), Ok(vec![dir("b"), file("keep", 2)]));
    w.remote.insert("/r/a/b".to_string(), Ok(vec![dir("tmp"), file("deep", 3)]));
    w.remote.insert("/r/a/b/tmp".to_string(), Ok(vec![file("hidden", 4)]));
    let sync = SftpSync::new(names(&["zzz", "tmp"]), "/l", "/r");
    let (result, _) = drive(sync, true, &mut w);
    assert_eq!(
        result,
        Ok(vec![pair("/r/a/b/deep", "/l/a/b/deep"), pair("/r/a/keep", "/l/a/keep")])
    );
    assert_eq!(
        w.created,
        vec!["/l".to_string(), "/l/a".to_string(), "/l/a/b".to_string()]
    );
    for p in w.created.iter().chain(w.listed.iter()).chain(w.probed.iter()) {
        assert!(!p.split('/').any(|c| c == "tmp"));
    }
}

#[test]
fn second_run_finds_nothing_to_copy() {
    let mut w = world();
    w.remote.insert("/r".to_string(), Ok(vec![file("a", 10), dir("d")]));
    w.remote.insert("/r/d".to_string(), Ok(vec![file("b", 20)]));
    let sizes: HashMap<String, u64> =
        [("/r/a".to_string(), 10), ("/r/d/b".to_string(), 20)].into_iter().collect();
    let (first, _) = drive(SftpSync::new(None, "/l", "/r"), true, &mut w);
    let first = first.unwrap();
    assert_eq!(first.len(), 2);
    for p in first {
        w.local.insert(p.local_path, sizes[&p.remote_path]);
    }
    let (second, _) = drive(SftpSync::new(None, "/l", "/r"), true, &mut w);
    assert_eq!(second, Ok(Vec::new()));
}

#[test]
fn every_directory_is_ensured_before_it_is_listed() {
    let mut w = world();
    w.remote.insert("/r".to_string(), Ok(vec![dir("x"), dir("y")]));
    w.remote.insert("/r/x".to_string(), Ok(vec![dir("deep")]));
    w.remote.insert("/r/x/deep".to_string(), Ok(Vec::new()));
    w.remote.insert("/r/y".to_string(), Ok(Vec::new()));
    let (result, reports) = drive(SftpSync::new(None, "/l", "/r"), true, &mut w);
    assert_eq!(result, Ok(Vec::new()));
    assert_eq!(
        w.created,
        vec![
            "/l".to_string(),
            "/l/x".to_string(),
            "/l/x/deep".to_string(),
            "/l/y".to_string()
        ]
    );
    assert_eq!(
        w.listed,
        vec![
            "/r".to_string(),
            "/r/x".to_string(),
            "/r/x/deep".to_string(),
            "/r/y".to_string()
        ]
    );
    let scanned: Vec<String> = reports
        .iter()
        .filter(|r| r.kind == ReportKind::Scanning)
        .map(|r| r.subject.clone())
        .collect();
    assert_eq!(scanned, w.listed);
}

#[test]
fn entries_without_name_or_size_are_passed_over() {
    let mut w = world();
    w.remote.insert(
        "/r".to_string(),
        Ok(vec![
            RemoteEntry { path: "/r/..".to_string(), name: None, is_dir: false, size: Some(1) },
            RemoteEntry {
                path: "elsewhere/nosize".to_string(),
                name: Some("nosize".to_string()),
                is_dir: false,
                size: None,
            },
            file("ok", 3),
        ]),
    );
    let (result, reports) = drive(SftpSync::new(None, "/l", "/r"), true, &mut w);
    assert_eq!(result, Ok(vec![pair("/r/ok", "/l/ok")]));
    let expected = vec![
        Report { kind: ReportKind::Scanning, subject: "/r".to_string() },
        Report { kind: ReportKind::SkipUnnamed, subject: "/r/..".to_string() },
        Report { kind: ReportKind::Checking, subject: "/r/nosize".to_string() },
        Report { kind: ReportKind::SkipSizeUnknown, subject: "/r/nosize".to_string() },
        Report { kind: ReportKind::Checking, subject: "/r/ok".to_string() },
    ];
    assert_eq!(reports, expected);
}

#[test]
fn failed_directory_creation_fails_the_run() {
    let sync = SftpSync::new(None, "/l", "/r");
    let walker = sync.sync_local_directory(true).unwrap();
    assert_eq!(walker.action(), Action::EnsureDir("/l".to_string()));
    let walker = walker.step(Event::Failed("read-only file system".to_string()));
    assert_eq!(walker.action(), Action::Abort("read-only file system".to_string()));
    let walker = walker.step(Event::DirReady);
    assert_eq!(walker.action(), Action::Abort("read-only file system".to_string()));
    assert_eq!(walker.finish(), Err(SyncError::Fatal("read-only file system".to_string())));
}

#[test]
fn work_list_is_withheld_until_the_walk_ends() {
    let sync = SftpSync::new(None, "/l", "/r");
    let walker = sync.sync_local_directory(true).unwrap();
    assert_eq!(walker.finish(), Err(SyncError::Unfinished));
}

#[test]
fn unasked_answers_change_nothing() {
    let sync = SftpSync::new(None, "/l", "/r");
    let walker = sync.sync_local_directory(true).unwrap();
    let walker = walker.step(Event::Probed(None));
    assert_eq!(walker.action(), Action::EnsureDir("/l".to_string()));
    let walker = walker.step(Event::Listed(vec![file("a", 1)]));
    assert_eq!(walker.action(), Action::EnsureDir("/l".to_string()));
    assert!(walker.reports().is_empty());
    let walker = walker.step(Event::DirReady);
    assert_eq!(walker.action(), Action::List("/r".to_string()));
    let walker = walker.step(Event::DirReady);
    assert_eq!(walker.action(), Action::List("/r".to_string()));
    let walker = walker.step(Event::Listed(Vec::new()));
    assert_eq!(walker.action(), Action::Finish);
    assert_eq!(walker.finish(), Ok(Vec::new()));
}

#[test]
fn failed_measurement_of_a_local_file_fails_the_run() {
    let sync = SftpSync::new(None, "/l", "/r");
    let walker = sync.sync_local_directory(true).unwrap();
    let walker = walker.step(Event::DirReady);
    let walker = walker.step(Event::Listed(vec![file("a", 1), file("b", 2)]));
    assert_eq!(walker.action(), Action::Probe("/l/a".to_string()));
    let walker = walker.step(Event::Failed("cannot open".to_string()));
    assert_eq!(walker.finish(), Err(SyncError::Fatal("cannot open".to_string())));
}

fn descend(
    w: &World,
    exclude: &[&str],
    local: &str,
    remote: &str,
    out: &mut Vec<TransferPair>,
) -> Result<(), String> {
    let entries = match w.remote.get(remote) {
        Some(Ok(v)) => v.clone(),
        Some(Err(m)) => return Err(m.clone()),
        None => return Err(format!("no such directory: {}", remote)),
    };
    for e in entries {
        let name = match e.name {
            Some(n) => n,
            None => continue,
        };
        if exclude.contains(&name.as_str()) {
            continue;
        }
        let child_local = format!("{}/{}", local, name);
        let child_remote = format!("{}/{}", remote, name);
        if e.is_dir {
            descend(w, exclude, &child_local, &child_remote, out)?;
            continue;
        }
        let size = match e.size {
            Some(s) => s,
            None => continue,
        };
        if w.local.get(&child_local) != Some(&size) {
            out.push(pair(&child_remote, &child_local));
        }
    }
    Ok(())
}

#[test]
fn walk_gathers_what_a_recursive_descent_gathers() {
    let mut w = world();
    w.remote.insert(
        "/r".to_string(),
        Ok(vec![
            file("a", 1),
            dir("d1"),
            file("b", 2),
            dir("cache"),
            dir("d2"),
            RemoteEntry { path: "/r/..".to_string(), name: None, is_dir: true, size: None },
            file("c", 3),
        ]),
    );
    w.remote.insert("/r/d1".to_string(), Ok(vec![dir("e"), file("a", 10), file("cache", 5)]));
    w.remote.insert("/r/d1/e".to_string(), Ok(vec![file("x", 7), file("y", 8)]));
    w.remote.insert("/r/d2".to_string(), Ok(Vec::new()));
    w.remote.insert("/r/cache".to_string(), Err("must not be listed".to_string()));
    w.local.insert("/l/b".to_string(), 2);
    w.local.insert("/l/d1/a".to_string(), 11);
    w.local.insert("/l/d1/e/y".to_string(), 8);
    let mut expected = Vec::new();
    descend(&w, &["cache"], "/l", "/r", &mut expected).unwrap();
    assert_eq!(
        expected,
        vec![
            pair("/r/a", "/l/a"),
            pair("/r/d1/e/x", "/l/d1/e/x"),
            pair("/r/d1/a", "/l/d1/a"),
            pair("/r/c", "/l/c"),
        ]
    );
    let (result, _) = drive(SftpSync::new(names(&["cache"]), "/l", "/r"), true, &mut w);
    assert_eq!(result, Ok(expected));
}
