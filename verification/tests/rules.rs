use filelst::rules::{
    chk_base_name_or_suffix_include, chk_entfo_under_entfo, chk_rules_for_dir, chk_rules_for_file, chk_rules_for_match,
    strings_contain, FsEntfo, FsFolder, RuleError,
};

fn folder(pb: &str, included: bool) -> FsFolder {
    FsFolder {
        pb: pb.to_string(),
        included,
        ends_with_include: vec![],
        ends_with_exclude: vec![],
        base_filename_include: vec![],
        base_filename_exclude: vec![],
    }
}

fn entfo(pb: &str, included: bool, desce: Vec<(String, FsFolder)>) -> FsEntfo {
    FsEntfo {
        active: true,
        hardware_id: "laptop".to_string(),
        tmp_mount_point: false,
        abs_path: pb.to_string(),
        efolder: folder(pb, included),
        desce,
    }
}

#[test]
fn name_rules_exclude_beats_include_at_one_level() {
    let mut f = folder("/e", true);
    f.ends_with_include = vec![".txt".to_string()];
    f.base_filename_exclude = vec!["notes.txt".to_string()];
    let mut len = 0usize;
    let mut res = true;
    chk_base_name_or_suffix_include(&f, "notes.txt", &mut len, &mut res);
    assert!(!res);
    assert_eq!(len, 2);
    let mut len = 0usize;
    let mut res = false;
    chk_base_name_or_suffix_include(&f, "a.txt", &mut len, &mut res);
    assert!(res);
}

#[test]
fn shallower_folder_rules_do_not_override_deeper_ones() {
    let mut f = folder("/e", true);
    f.ends_with_exclude = vec![".log".to_string()];
    let mut len = 10usize;
    let mut res = true;
    chk_base_name_or_suffix_include(&f, "x.log", &mut len, &mut res);
    assert!(res);
    assert_eq!(len, 10);
}

#[test]
fn deeper_rule_decides_for_matching_name() {
    let mut shallow = folder("/e", true);
    shallow.ends_with_exclude = vec![".tmp".to_string()];
    let mut deep = folder("/e/keep", true);
    deep.ends_with_include = vec![".tmp".to_string()];
    let mut len = 0usize;
    let mut res = true;
    chk_base_name_or_suffix_include(&shallow, "a.tmp", &mut len, &mut res);
    assert!(!res);
    chk_base_name_or_suffix_include(&deep, "a.tmp", &mut len, &mut res);
    assert!(res);
}

#[test]
fn files_follow_folder_and_name_rules() {
    let mut e = entfo("/e", true, vec![("/e/skip".to_string(), folder("/e/skip", false))]);
    e.efolder.ends_with_exclude = vec![".bak".to_string()];
    assert!(chk_rules_for_match(&e, "/e/a.txt", false));
    assert!(!chk_rules_for_match(&e, "/e/a.bak", false));
    assert!(!chk_rules_for_match(&e, "/e/skip/a.txt", false));
    assert!(chk_rules_for_file(&e, "/e/a.txt", false));
    assert!(!chk_rules_for_file(&e, "/e/skip/b.txt", false));
    assert!(strings_contain(&vec!["x".to_string()], "x"));
}

#[test]
fn exact_file_rule_wins() {
    let e = entfo("/e", false, vec![("/e/only.txt".to_string(), folder("/e/only.txt", true))]);
    assert!(chk_rules_for_file(&e, "/e/only.txt", false));
    assert!(!chk_rules_for_file(&e, "/e/other.txt", false));
}

#[test]
fn folders_open_for_finer_rules() {
    let e = entfo(
        "/e",
        false,
        vec![
            ("/e/a/b".to_string(), folder("/e/a/b", true)),
            ("/e/c".to_string(), folder("/e/c", false)),
        ],
    );
    assert!(chk_rules_for_dir(&e, "/e/a", false));
    assert!(!chk_rules_for_dir(&e, "/e/c", false));
    assert!(!chk_rules_for_dir(&e, "/e/d", false));
}

#[test]
fn other_entfo_folders_are_not_descended() {
    let settings = vec![
        ("one".to_string(), entfo("/e", true, vec![])),
        ("two".to_string(), entfo("/e/inner", true, vec![])),
    ];
    assert!(chk_entfo_under_entfo(&settings, "one", "/e/inner", false));
    assert!(!chk_entfo_under_entfo(&settings, "two", "/e/inner", false));
    assert!(!chk_entfo_under_entfo(&settings, "one", "/e/other", false));
}

#[test]
fn windows_rules_read_backslashes_and_drives() {
    let settings = vec![
        ("one".to_string(), entfo(r"C:\e", true, vec![])),
        ("two".to_string(), entfo(r"C:\e\inner", true, vec![])),
    ];
    assert!(chk_entfo_under_entfo(&settings, "one", "c:/e/inner/", true));
    assert!(!chk_entfo_under_entfo(&settings, "one", "c:/e/inner/", false));
    let mut e = entfo(r"C:\e", true, vec![(r"C:\e\skip".to_string(), folder(r"C:\e\skip", false))]);
    e.efolder.included = true;
    assert!(chk_rules_for_match(&e, r"C:\e\a.txt", true));
    assert!(!chk_rules_for_match(&e, r"C:\e\skip\a.txt", true));
    let resolved = vec![r"C:\e\a".to_string()];
    let mut d = entfo(r"C:\e", true, vec![("a".to_string(), folder("", true))]);
    assert_eq!(d.install_descendants("C:/e", &resolved, true), Ok(()));
    let mut bad = entfo(r"C:\e", true, vec![("a".to_string(), folder("", true))]);
    assert_eq!(bad.install_descendants("C:/e", &resolved, false), Err(RuleError::NotUnderEntfo));
}

#[test]
fn sort_matches_sorts_base_names() {
    let mut f = folder("/e", true);
    f.base_filename_include = vec!["b".to_string(), "a".to_string()];
    f.base_filename_exclude = vec!["z".to_string(), "y".to_string()];
    f.ends_with_include = vec![".z".to_string(), ".a".to_string()];
    f.sort_matches();
    assert_eq!(f.base_filename_include, vec!["a", "b"]);
    assert_eq!(f.base_filename_exclude, vec!["y", "z"]);
    assert_eq!(f.ends_with_include, vec![".z", ".a"]);
}

#[test]
fn canonicalize_places_descendants_below_entfo() {
    let mut sub = folder("", true);
    sub.base_filename_include = vec!["q".to_string(), "p".to_string()];
    let mut e = entfo(
        "/home/u/docs/../docs",
        true,
        vec![("b/./x".to_string(), folder("", false)), ("a".to_string(), sub)],
    );
    e.efolder.base_filename_exclude = vec!["2".to_string(), "1".to_string()];
    assert_eq!(e.canonicalize_paths_and_sort("/home/u/docs", false), Ok(()));
    assert_eq!(e.abs_path, "/home/u/docs");
    assert_eq!(e.efolder.pb, "/home/u/docs");
    assert_eq!(e.efolder.base_filename_exclude, vec!["1", "2"]);
    let keys: Vec<&str> = e.desce.iter().map(|d| d.0.as_str()).collect();
    assert_eq!(keys, vec!["/home/u/docs/a", "/home/u/docs/b/x"]);
    assert_eq!(e.desce[0].1.pb, "/home/u/docs/a");
    assert_eq!(e.desce[0].1.base_filename_include, vec!["p", "q"]);
    assert!(!e.desce[1].1.included);
}

#[test]
fn canonicalize_refuses_bad_descendants() {
    let cases: Vec<(Vec<&str>, RuleError)> = vec![
        (vec!["."], RuleError::InvalidKey),
        (vec!["/"], RuleError::InvalidKey),
        (vec![""], RuleError::InvalidKey),
        (vec!["../elsewhere"], RuleError::NotUnderEntfo),
        (vec!["x/.."], RuleError::NotUnderEntfo),
        (vec!["/etc"], RuleError::NotUnderEntfo),
        (vec!["a", "a/"], RuleError::Duplicate),
    ];
    for (keys, err) in cases {
        let desce = keys.iter().map(|k| (k.to_string(), folder("", true))).collect();
        let mut e = entfo("/base", true, desce);
        let before: Vec<String> = e.desce.iter().map(|d| d.0.clone()).collect();
        assert_eq!(e.canonicalize_paths_and_sort("/base", false), Err(err), "{:?}", keys);
        let after: Vec<String> = e.desce.iter().map(|d| d.0.clone()).collect();
        assert_eq!(before, after);
        assert_eq!(e.abs_path, "/base");
    }
}

#[test]
fn active_entfo_without_descendants_is_placed() {
    let mut e = entfo("/home/u/raw", true, vec![]);
    assert_eq!(e.canonicalize_paths_and_sort("/home/u/pics", false), Ok(()));
    assert_eq!(e.abs_path, "/home/u/pics");
    assert_eq!(e.efolder.pb, "/home/u/pics");
    assert!(e.desce.is_empty());
}

#[test]
fn inactive_entfo_keeps_its_paths() {
    let mut e = entfo("/raw/path", true, vec![("x".to_string(), folder("", true))]);
    e.active = false;
    e.efolder.base_filename_include = vec!["b".to_string(), "a".to_string()];
    assert_eq!(e.canonicalize_paths_and_sort("/ignored", false), Ok(()));
    assert_eq!(e.abs_path, "/raw/path");
    assert_eq!(e.desce[0].0, "x");
    assert_eq!(e.efolder.base_filename_include, vec!["a", "b"]);
}

#[test]
fn install_descendants_with_given_folders() {
    let mut e = entfo("/b", true, vec![("k1".to_string(), folder("", true)), ("k2".to_string(), folder("", false))]);
    let resolved = vec!["/b/z".to_string(), "/b/y".to_string()];
    assert_eq!(e.install_descendants("/b", &resolved, false), Ok(()));
    assert_eq!(e.desce[0].0, "/b/y");
    assert!(!e.desce[0].1.included);
    assert_eq!(e.desce[1].0, "/b/z");
    let mut e2 = entfo("/b", true, vec![("k1".to_string(), folder("", true)), ("k2".to_string(), folder("", false))]);
    let same = vec!["/b/z".to_string(), "/b/z".to_string()];
    assert_eq!(e2.install_descendants("/b", &same, false), Err(RuleError::Duplicate));
    assert_eq!(e2.desce[0].0, "k1");
}
