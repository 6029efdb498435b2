use filelst::dirdiff::InfoDir;
use filelst::remote::{
    chk_listed_at_least_once, dx_exec_insertion, dx_path_matches, dx_stored_path, listed_contains, listed_key,
    mark_listed, DxFileMeta,
};
use filelst::scan::{
    calc_hash, classify_groups, consecutive_ids, group_by_hash, normalize_for_lenhashlstrelms, rel_under_entfo,
    same_bytes, split_known, NewContent, RegisteredCopy, RegisteredScan, ScanError, Settlement,
};
use std::collections::HashSet;

#[test]
fn listed_accounts_are_remembered_once() {
    assert_eq!(listed_key("me@x.com", "dx"), "me@x.com@dx");
    let mut listed: Vec<String> = vec![];
    mark_listed(&mut listed, listed_key("me", "dx"));
    mark_listed(&mut listed, listed_key("me", "dx"));
    assert_eq!(listed, vec!["me@dx"]);
    assert!(listed_contains(&listed, "me@dx"));
    let pair = (InfoDir::Entfo(("e".to_string(), "".to_string())), InfoDir::D(("me".to_string(), "".to_string())));
    assert!(chk_listed_at_least_once(&listed, &pair));
    let pair_m = (InfoDir::M(("me".to_string(), "".to_string())), InfoDir::Entfo(("e".to_string(), "".to_string())));
    assert!(!chk_listed_at_least_once(&listed, &pair_m));
}

#[test]
fn cloud_paths_are_stored_without_leading_slash() {
    assert_eq!(dx_stored_path(&Some("/a/b.txt".to_string())), Some("a/b.txt".to_string()));
    assert_eq!(dx_stored_path(&Some("a/b.txt".to_string())), None);
    assert_eq!(dx_stored_path(&None), None);
    assert!(dx_path_matches("a/b", "/a/b"));
    assert!(!dx_path_matches("a/b", "a/b"));
    let md = DxFileMeta {
        id: "id:1".to_string(),
        client_modified: "c".to_string(),
        server_modified: "s".to_string(),
        size: 42,
        path_display: Some("/x/y".to_string()),
    };
    let row = dx_exec_insertion("me@x", md).unwrap();
    assert_eq!(row.email, "me@x");
    assert_eq!(row.path_display, "x/y");
    assert_eq!(row.size, 42);
    assert_eq!(row.id, "id:1");
    let bad = DxFileMeta {
        id: "id:2".to_string(),
        client_modified: "c".to_string(),
        server_modified: "s".to_string(),
        size: 1,
        path_display: Some("rel".to_string()),
    };
    assert!(dx_exec_insertion("me@x", bad).is_none());
}

#[test]
fn sha256_of_known_input() {
    let h = calc_hash(b"abc");
    assert_eq!(
        h.to_vec(),
        vec![
            0xba, 0x78, 0x16, 0xbf, 0x8f, 0x01, 0xcf, 0xea, 0x41, 0x41, 0x40, 0xde, 0x5d, 0xae, 0x22, 0x23, 0xb0, 0x03,
            0x61, 0xa3, 0x96, 0x17, 0x7a, 0x9c, 0xb4, 0x10, 0xff, 0x61, 0xf2, 0x00, 0x15, 0xad
        ]
    );
    assert!(same_bytes(&h, &calc_hash(b"abc")));
    assert!(!same_bytes(&h, &calc_hash(b"abd")));
}

fn copy_rec(size: i64, mtime: i64, hash: &[u8]) -> RegisteredCopy {
    RegisteredCopy { rel: "r".to_string(), size, mtime, hash: hash.to_vec(), tidx: 3 }
}

#[test]
fn settling_registered_copies() {
    let old = calc_hash(b"old");
    let new = calc_hash(b"new");
    let c = copy_rec(10, 100, &old);
    assert!(matches!(c.settle(None, None), Settlement::Remove));
    assert!(!c.needs_hash(Some((10, 100))));
    assert!(matches!(c.settle(Some((10, 100)), None), Settlement::Unchanged));
    assert!(c.needs_hash(Some((10, 200))));
    assert!(matches!(c.settle(Some((10, 200)), Some(old)), Settlement::NewMtime { ms: 200 }));
    match c.settle(Some((10, 200)), Some(new)) {
        Settlement::NewContent { ms, flen, hash } => {
            assert_eq!((ms, flen), (200, 10));
            assert_eq!(hash, new);
        }
        _ => panic!("expected new content"),
    }
    match c.settle(Some((11, 100)), Some(old)) {
        Settlement::NewContent { flen, .. } => assert_eq!(flen, 11),
        _ => panic!("a new length is new content"),
    }
}

#[test]
fn first_pass_collects_and_marks_info_files() {
    let mut scan = RegisteredScan::new();
    let mut modified: HashSet<u32> = HashSet::new();
    scan.record("gone".to_string(), Settlement::Remove, 4, &mut modified);
    scan.record("same".to_string(), Settlement::Unchanged, 5, &mut modified);
    scan.record("retimed".to_string(), Settlement::NewMtime { ms: 9 }, 6, &mut modified);
    let h = calc_hash(b"x");
    scan.record("changed".to_string(), Settlement::NewContent { ms: 1, flen: 2, hash: h }, 7, &mut modified);
    assert_eq!(scan.removed, vec!["gone"]);
    assert_eq!(scan.new_mtime, vec![("retimed".to_string(), 9)]);
    assert_eq!(scan.new_content.len(), 1);
    assert_eq!(scan.new_content[0].rel, "changed");
    let expect: HashSet<u32> = [4u32, 6, 7].into_iter().collect();
    assert_eq!(modified, expect);
}

fn nc(rel: &str, ms: i64, content: &[u8]) -> NewContent {
    NewContent { rel: rel.to_string(), ms, flen: content.len() as i64, hash: calc_hash(content) }
}

#[test]
fn changed_copies_are_grouped_by_hash() {
    let items = vec![nc("a", 5, b"one"), nc("b", 3, b"two"), nc("c", 1, b"one"), nc("d", 7, b"three")];
    let groups = group_by_hash(&items);
    assert_eq!(groups.len(), 3);
    let rels: Vec<Vec<&str>> = groups.iter().map(|g| g.iter().map(|x| x.rel.as_str()).collect()).collect();
    assert_eq!(rels, vec![vec!["a", "c"], vec!["b"], vec!["d"]]);
    let same = normalize_for_lenhashlstrelms(&groups[0]);
    assert_eq!(same.min_ms, 1);
    assert_eq!(same.flen, 3);
    assert_eq!(same.hash, calc_hash(b"one"));
    assert_eq!(same.lst, vec![("a".to_string(), 5), ("c".to_string(), 1)]);
}

#[test]
fn known_hashes_reattach_and_the_rest_classify() {
    let items = vec![nc("a", 5, b"one"), nc("b", 3, b"two"), nc("c", 1, b"one"), nc("d", 7, b"three")];
    let known = vec![None, Some((77, 12)), None, None];
    let mut modified: HashSet<u32> = HashSet::new();
    let (re, groups) = split_known(&items, &known, &mut modified);
    assert_eq!(re, vec![("b".to_string(), 3, 77)]);
    assert!(modified.contains(&12) && modified.len() == 1);
    assert_eq!(groups.len(), 2);
    let shared = vec![false, true];
    let (clones, modifies, same) = classify_groups(&groups, &shared);
    assert_eq!(clones.len(), 1);
    assert_eq!(clones[0].rel, "d");
    assert!(modifies.is_empty());
    assert_eq!(same.len(), 1);
    assert_eq!(same[0].lst.len(), 2);
    let (_, modifies2, _) = classify_groups(&groups, &vec![false, false]);
    assert_eq!(modifies2[0].rel, "d");
    assert_eq!(consecutive_ids(5, 3), vec![5, 6, 7]);
    assert!(consecutive_ids(9, 0).is_empty());
}

#[test]
fn rel_path_below_entfo() {
    assert_eq!(rel_under_entfo("/e/dir/f.txt", 2), Ok("dir/f.txt".to_string()));
    assert_eq!(rel_under_entfo("C:\\e\\f.txt", 4), Ok("f.txt".to_string()));
    assert_eq!(rel_under_entfo("/e", 2), Err(ScanError::NoSeparator));
    assert_eq!(rel_under_entfo("/ex/f", 2), Err(ScanError::UnrecognizedSeparator));
    assert_eq!(rel_under_entfo("/é/ü", 3), Ok("ü".to_string()));
}
