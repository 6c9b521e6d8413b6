use sftp_sync::entry::{classify, is_stale, RemoteEntry, Verdict};
use sftp_sync::exclusion::ExclusionSet;
use sftp_sync::order::{compare_bytes, compare_names, Order};
use sftp_sync::paths::join;
use sftp_sync::sync::SftpSync;
use std::path::Path;

fn set(list: &[&str]) -> ExclusionSet {
    ExclusionSet::new(Some(list.iter().map(|s| s.to_string()).collect()))
}

fn expected_order(a: &str, b: &str) -> Order {
    if a < b {
        Order::Less
    } else if a == b {
        Order::Equal
    } else {
        Order::Greater
    }
}

#[test]
fn lookup_finds_exactly_the_listed_names() {
    let s = set(&["target", ".git", "node_modules", "b", "a", ".git"]);
    assert_eq!(s.len(), 6);
    for n in [".git", "a", "b", "node_modules", "target"] {
        assert!(s.contains(n), "{}", n);
    }
    for n in ["", ".gi", ".git ", "A", "c", "targets", "node", "/a", "a/"] {
        assert!(!s.contains(n), "{}", n);
    }
}

#[test]
fn absent_or_empty_list_excludes_nothing() {
    let none = ExclusionSet::new(None);
    let empty = ExclusionSet::new(Some(Vec::new()));
    assert_eq!(none.len(), 0);
    assert_eq!(empty.len(), 0);
    for n in ["", "a", ".", ".."] {
        assert!(!none.contains(n));
        assert!(!empty.contains(n));
    }
}

#[test]
fn lookup_is_exact_on_case_and_on_text_beyond_ascii() {
    let s = set(&["Zoë", "zoe", "日本語", "é", "e"]);
    for n in ["Zoë", "zoe", "日本語", "é", "e"] {
        assert!(s.contains(n));
    }
    for n in ["Zoe", "ZOE", "日本", "E", "ë"] {
        assert!(!s.contains(n));
    }
}

#[test]
fn names_are_ordered_as_strings_are() {
    let words = ["", "a", "A", "ab", "b", "a/b", "é", "e", "z", "日本", "日本語", "~", "\u{10348}"];
    for a in words {
        for b in words {
            assert_eq!(compare_names(a, b), expected_order(a, b), "{:?} {:?}", a, b);
        }
    }
}

#[test]
fn bytes_are_ordered_lexicographically() {
    assert_eq!(compare_bytes(&[], &[]), Order::Equal);
    assert_eq!(compare_bytes(&[], &[0]), Order::Less);
    assert_eq!(compare_bytes(&[0], &[]), Order::Greater);
    assert_eq!(compare_bytes(&[1, 2, 3], &[1, 2, 4]), Order::Less);
    assert_eq!(compare_bytes(&[1, 2, 3], &[1, 2]), Order::Greater);
    assert_eq!(compare_bytes(&[200], &[100, 255]), Order::Greater);
    assert_eq!(compare_bytes(&[7, 7], &[7, 7]), Order::Equal);
}

#[test]
fn join_puts_one_separator_between_directory_and_name() {
    assert_eq!(join("/remote", "a.txt"), "/remote/a.txt");
    assert_eq!(join("/remote/", "a.txt"), "/remote/a.txt");
    assert_eq!(join("", "a.txt"), "a.txt");
    assert_eq!(join("/", "a"), "/a");
    assert_eq!(join("rel/dir", "naïve"), "rel/dir/naïve");
    assert_eq!(join("/base", "/abs"), "/abs");
    assert_eq!(join("/base", ""), "/base/");
}

#[test]
fn join_agrees_with_the_standard_path_join() {
    for base in ["", "/", "/a", "/a/", "a/b", "日本"] {
        for name in ["x", "x.txt", ".hidden", "/abs", "ü"] {
            let expected = Path::new(base).join(name);
            assert_eq!(join(base, name), expected.to_str().unwrap(), "{:?} {:?}", base, name);
        }
    }
}

#[test]
fn staleness_goes_by_length_alone() {
    assert!(is_stale(10, None));
    assert!(is_stale(0, None));
    assert!(is_stale(10, Some(9)));
    assert!(is_stale(10, Some(11)));
    assert!(is_stale(0, Some(u64::MAX)));
    assert!(!is_stale(10, Some(10)));
    assert!(!is_stale(0, Some(0)));
    assert!(!is_stale(u64::MAX, Some(u64::MAX)));
}

#[test]
fn verdicts_follow_the_order_of_the_tests() {
    let s = set(&["skip"]);
    let e = |name: Option<&str>, is_dir: bool, size: Option<u64>| RemoteEntry {
        path: String::from("/r/entry"),
        name: name.map(|n| n.to_string()),
        is_dir,
        size,
    };
    assert_eq!(classify(&s, &e(None, true, Some(1))), Verdict::Unnamed);
    assert_eq!(classify(&s, &e(None, false, None)), Verdict::Unnamed);
    assert_eq!(classify(&s, &e(Some("skip"), true, None)), Verdict::Excluded);
    assert_eq!(classify(&s, &e(Some("skip"), false, Some(3))), Verdict::Excluded);
    assert_eq!(classify(&s, &e(Some("dir"), true, None)), Verdict::Descend);
    assert_eq!(classify(&s, &e(Some("dir"), true, Some(4096))), Verdict::Descend);
    assert_eq!(classify(&s, &e(Some("f"), false, None)), Verdict::SizeUnknown);
    assert_eq!(classify(&s, &e(Some("f"), false, Some(0))), Verdict::Compare(0));
    assert_eq!(classify(&s, &e(Some("skipper"), false, Some(12))), Verdict::Compare(12));
}

#[test]
fn names_are_kept_in_byte_order() {
    let s = set(&["b", "Z", "a"]);
    assert_eq!(s.names(), &vec!["Z".to_string(), "a".to_string(), "b".to_string()]);
    let s = set(&["b", "a", "b", "", "ab", "B", "a"]);
    assert_eq!(
        s.names(),
        &vec!["", "B", "a", "a", "ab", "b", "b"]
            .into_iter()
            .map(String::from)
            .collect::<Vec<String>>()
    );
    let s = ExclusionSet::new(None);
    assert!(s.names().is_empty());
}

#[test]
fn run_keeps_its_excluded_names_in_byte_order() {
    let list = vec!["b".to_string(), "Z".to_string(), "a".to_string()];
    let sync = SftpSync::new(Some(list), "/l", "/r");
    assert_eq!(
        sync.exclude().names(),
        &vec!["Z".to_string(), "a".to_string(), "b".to_string()]
    );
    assert!(sync.exclude().contains("Z"));
    assert!(!sync.exclude().contains("z"));
    let sync = SftpSync::new(None, "/l", "/r");
    assert_eq!(sync.exclude().len(), 0);
}
