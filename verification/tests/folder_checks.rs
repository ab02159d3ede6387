use comparer::chars::parse_i128;
use comparer::folder::{
    hash_problem, sided_error, validate_path, ChangeStatus, DiffError, EntryKind, FolderComparer,
    FolderStats, FsEntry, Side, TreeNode,
};
use comparer::hasher::Hasher;

fn entry(path: &str, kind: EntryKind, size: u64) -> FsEntry {
    FsEntry {
        path: path.to_string(),
        kind,
        size,
        mode: if kind == EntryKind::Dir { 0o040_755 } else { 0o100_644 },
        uid: 1,
        gid: 1,
        mtime_ns: "10".to_string(),
        link_target: None,
        error: None,
    }
}

fn all_nodes<'a>(nodes: &'a [TreeNode], out: &mut Vec<&'a TreeNode>) {
    for node in nodes {
        out.push(node);
        all_nodes(&node.children, out);
    }
}

#[test]
fn unknown_job_ids_are_refused_and_change_nothing() {
    let mut comparer = FolderComparer::new(vec![], vec![]).unwrap();

    let error = comparer.set_hash(0, "abc").unwrap_err();
    assert!(matches!(error, DiffError::UnknownJob(0)));
    assert_eq!(error.message(), "unknown hash job 0");
    assert_eq!(comparer.set_error(7, "nope").unwrap_err().message(), "unknown hash job 7");
    assert!(comparer.diff().identical);
}

#[test]
fn error_messages_name_the_side() {
    let invalid = DiffError::InvalidEntry { side: Side::Left, path: "a//b".to_string(), reason: "path must be relative, with no empty segments" };
    assert_eq!(invalid.message(), "left entry \"a//b\": path must be relative, with no empty segments");

    let unreadable = DiffError::Unreadable { side: Side::Right, reason: "ENOENT".to_string() };
    assert_eq!(unreadable.message(), "right folder could not be listed: ENOENT");
    assert_eq!(DiffError::UnknownJob(4294967295).message(), "unknown hash job 4294967295");
}

#[test]
fn the_left_listing_is_checked_first() {
    let error = FolderComparer::new(vec![entry("", EntryKind::File, 1)], vec![entry("a/", EntryKind::File, 1)])
        .err()
        .unwrap();
    assert_eq!(error.message(), "left entry \"\": path is empty");
}

#[test]
fn paths_are_validated_segment_by_segment() {
    assert_eq!(validate_path("a/b/c.txt"), Ok(()));
    assert_eq!(validate_path("..a/.b"), Ok(()));
    assert_eq!(validate_path(""), Err("path is empty"));
    assert_eq!(validate_path("/a"), Err("path must be relative, with no empty segments"));
    assert_eq!(validate_path("a/./b"), Err("path must not contain . or .. segments"));
    assert_eq!(validate_path("a/.."), Err("path must not contain . or .. segments"));
}

#[test]
fn per_side_problems_are_joined() {
    assert_eq!(sided_error(Some("x"), Some("y")).as_deref(), Some("left: x; right: y"));
    assert_eq!(sided_error(Some("x"), None).as_deref(), Some("left: x"));
    assert_eq!(sided_error(None, Some("y")).as_deref(), Some("right: y"));
    assert_eq!(sided_error(None, None), None);

    assert_eq!(hash_problem(&None), Some("content was not hashed"));
    assert_eq!(hash_problem(&Some(Err("EIO".to_string()))), Some("EIO"));
    assert_eq!(hash_problem(&Some(Ok("00".to_string()))), None);
}

#[test]
fn stats_count_every_listed_path_once() {
    let left = vec![
        entry("a", EntryKind::Dir, 0),
        entry("a/x", EntryKind::File, 1),
        entry("gone", EntryKind::File, 1),
        entry("same", EntryKind::File, 2),
    ];
    let right = vec![
        entry("a", EntryKind::Dir, 0),
        entry("a/x", EntryKind::File, 5),
        entry("a/new", EntryKind::File, 1),
        entry("same", EntryKind::File, 2),
    ];
    let mut comparer = FolderComparer::new(left, right).unwrap();
    for job in comparer.jobs().to_vec() {
        comparer.set_hash(job.id, "same").unwrap();
    }
    let diff = comparer.diff();

    let FolderStats { added, deleted, modified, unchanged, unknown } = diff.stats;
    assert_eq!((added, deleted, modified, unchanged, unknown), (1, 1, 1, 2, 0));
    let mut nodes = Vec::new();
    all_nodes(&diff.entries, &mut nodes);
    assert_eq!(nodes.len(), added + deleted + modified + unchanged + unknown);
    for node in &nodes {
        assert_eq!(node.reasons.is_empty(), node.status != ChangeStatus::Modified, "{}", node.path);
    }
    assert!(!diff.identical);
}

#[test]
fn has_changes_tells_whether_anything_below_changed() {
    let left = vec![entry("d", EntryKind::Dir, 0), entry("d/e", EntryKind::Dir, 0), entry("d/e/f", EntryKind::File, 1)];
    let right = vec![entry("d", EntryKind::Dir, 0), entry("d/e", EntryKind::Dir, 0)];
    let diff = FolderComparer::new(left, right).unwrap().diff();

    let d = &diff.entries[0];
    let e = &d.children[0];
    let f = &e.children[0];
    assert_eq!((d.status, e.status, f.status), (ChangeStatus::Unchanged, ChangeStatus::Unchanged, ChangeStatus::Deleted));
    assert!(d.has_changes && e.has_changes && f.has_changes);
    assert!(d.is_folder() && !f.is_folder());
    assert_eq!((f.name.as_str(), f.path.as_str()), ("f", "d/e/f"));
}

#[test]
fn digests_are_thirty_two_hex_characters() {
    let mut hasher = Hasher::new();
    hasher.update(b"abc");
    let digest = hasher.finish();

    assert_eq!(digest.len(), 32);
    assert!(digest.chars().all(|c| c.is_ascii_digit() || ('a'..='f').contains(&c)));

    let mut split = Hasher::default();
    split.update(b"a");
    split.update(b"");
    split.update(b"bc");
    assert_eq!(split.finish(), digest);
}

#[test]
fn modification_times_parse_as_i128() {
    assert_eq!(parse_i128("+12"), Some(12));
    assert_eq!(parse_i128("-0"), Some(0));
    assert_eq!(parse_i128("007"), Some(7));
    assert_eq!(parse_i128("-170141183460469231731687303715884105728"), Some(i128::MIN));
    assert_eq!(parse_i128("170141183460469231731687303715884105727"), Some(i128::MAX));
    assert_eq!(parse_i128("170141183460469231731687303715884105728"), None);
    assert_eq!(parse_i128("-170141183460469231731687303715884105729"), None);
    assert_eq!(parse_i128("99999999999999999999999999999999999999999x"), None);
    for bad in ["", "-", "+", "12.5", " 1", "1 ", "--1", "١"] {
        assert_eq!(parse_i128(bad), bad.parse::<i128>().ok(), "{bad:?}");
        assert_eq!(parse_i128(bad), None, "{bad:?}");
    }
}

#[test]
fn reordering_the_listings_changes_nothing() {
    let left = vec![
        entry("b", EntryKind::Dir, 0),
        entry("b/one", EntryKind::File, 3),
        entry("A", EntryKind::File, 4),
        entry("gone", EntryKind::File, 1),
    ];
    let right = vec![
        entry("b", EntryKind::Dir, 0),
        entry("b/one", EntryKind::File, 3),
        entry("A", EntryKind::File, 4),
        entry("b/two", EntryKind::File, 2),
    ];
    let run = |left: Vec<FsEntry>, right: Vec<FsEntry>| {
        let mut comparer = FolderComparer::new(left, right).unwrap();
        let jobs = comparer.jobs().to_vec();
        for job in &jobs {
            let digest = if job.path == "A" && job.side == Side::Right { "other" } else { "same" };
            comparer.set_hash(job.id, digest).unwrap();
        }
        (jobs, comparer.diff())
    };
    let (jobs, first) = run(left.clone(), right.clone());
    let mut left2 = left.clone();
    left2.reverse();
    let mut right2 = right.clone();
    right2.rotate_left(1);
    let (jobs2, second) = run(left2, right2);

    assert_eq!(jobs, jobs2);
    assert_eq!(first, second);
    let names: Vec<&str> = first.entries.iter().map(|node| node.name.as_str()).collect();
    assert_eq!(names, vec!["b", "A", "gone"]);
    assert_eq!(first.entries[1].status, ChangeStatus::Modified);
}

#[test]
fn every_listed_path_is_exactly_one_node() {
    let left = vec![
        entry("d", EntryKind::Dir, 0),
        entry("d/x", EntryKind::File, 1),
        entry("d/sub", EntryKind::Dir, 0),
        entry("d/sub/y", EntryKind::File, 1),
        entry("top", EntryKind::File, 1),
    ];
    let right = vec![
        entry("d", EntryKind::Dir, 0),
        entry("d/sub", EntryKind::Dir, 0),
        entry("d/sub/z", EntryKind::File, 1),
        entry("new", EntryKind::Dir, 0),
        entry("new/inner", EntryKind::File, 1),
    ];
    let mut listed: Vec<String> = left.iter().chain(right.iter()).map(|e| e.path.clone()).collect();
    listed.sort();
    listed.dedup();
    let diff = FolderComparer::new(left, right).unwrap().diff();

    let mut nodes = Vec::new();
    all_nodes(&diff.entries, &mut nodes);
    let mut paths: Vec<String> = nodes.iter().map(|node| node.path.clone()).collect();
    paths.sort();
    assert_eq!(paths, listed);
    for node in &nodes {
        assert_eq!(node.name, node.path.rsplit('/').next().unwrap());
    }
    let d = &diff.entries[0];
    assert_eq!(d.path, "d");
    let FolderStats { added, deleted, modified, unchanged, unknown } = diff.stats;
    assert_eq!((added, deleted, modified, unchanged, unknown), (3, 3, 0, 2, 0));
}
