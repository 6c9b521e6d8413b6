use sftp_sync::transfer::{after_read, settle, settle_all, CopyFailure, CopyStep, BUFFER_SIZE};
use sftp_sync::walker::TransferPair;

fn pair(remote: &str, local: &str) -> TransferPair {
    TransferPair { remote_path: remote.to_string(), local_path: local.to_string() }
}

fn failure(remote: &str, local: &str, reason: &str) -> CopyFailure {
    CopyFailure {
        remote_path: remote.to_string(),
        local_path: local.to_string(),
        reason: reason.to_string(),
    }
}

#[test]
fn buffer_holds_128_kib() {
    assert_eq!(BUFFER_SIZE, 128 * 1024);
}

#[test]
fn empty_read_ends_the_copy() {
    assert_eq!(after_read(0), CopyStep::Finish);
    assert_eq!(after_read(1), CopyStep::Write(1));
    assert_eq!(after_read(BUFFER_SIZE), CopyStep::Write(131072));
    assert_eq!(after_read(usize::MAX), CopyStep::Write(usize::MAX));
}

#[test]
fn one_copy_gives_a_notice_only_where_it_failed() {
    let p = pair("/r/a", "/l/a");
    assert_eq!(settle(&p, None), None);
    assert_eq!(
        settle(&p, Some("connection lost".to_string())),
        Some(failure("/r/a", "/l/a", "connection lost"))
    );
}

#[test]
fn failed_copy_hides_no_other() {
    let work = vec![pair("/r/a", "/l/a"), pair("/r/b", "/l/b"), pair("/r/c", "/l/c")];
    let outcomes = vec![None, Some("unreadable".to_string()), None];
    assert_eq!(settle_all(&work, outcomes), vec![failure("/r/b", "/l/b", "unreadable")]);
    let outcomes = vec![Some("x".to_string()), Some("y".to_string()), Some("z".to_string())];
    assert_eq!(
        settle_all(&work, outcomes),
        vec![
            failure("/r/a", "/l/a", "x"),
            failure("/r/b", "/l/b", "y"),
            failure("/r/c", "/l/c", "z")
        ]
    );
    assert_eq!(settle_all(&work, vec![None, None, None]), Vec::new());
}

#[test]
fn outcomes_without_a_pair_give_no_notice() {
    let work = vec![pair("/r/a", "/l/a")];
    let outcomes = vec![Some("x".to_string()), Some("stray".to_string())];
    assert_eq!(settle_all(&work, outcomes), vec![failure("/r/a", "/l/a", "x")]);
    assert_eq!(settle_all(&Vec::new(), vec![Some("stray".to_string())]), Vec::new());
    assert_eq!(settle_all(&work, Vec::new()), Vec::new());
}
