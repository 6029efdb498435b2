use filelst::paths::windows_paths;
use filelst::dirdiff::{
    build_diff_rows, choose_info_pair, dx_path, info_pairs_valid, merge_recs_for_diff, mk_drow, parse_diff_command,
    print_diff, print_row_cmp, print_single_row, remove_empty_rows, sort_records, sync_action, sync_plan,
    toggle_selection, ComRec, DRow, DiffCommand, InfoDir, PairChoice, PathCheck, SyncAction, SyncPlan,
};

fn rec(path: &str, col: u8, size: i64) -> ComRec {
    ComRec::from_dx_row("", path, col, size)
}

#[test]
fn records_cut_prefix_and_normalise_separators() {
    let d = ComRec::from_dx_row("Photos/", "Photos/2020/a.jpg", 1, 10);
    assert_eq!(d.frel(), "2020/a.jpg");
    assert_eq!(d.col(), 1);
    assert_eq!(d.fsize(), 10);
    let e = ComRec::from_entfo_row("pics\\", "pics\\2020\\a.jpg", 0, 10);
    assert_eq!(e.frel(), "2020/a.jpg");
    assert!(!e.is_empty());
    assert!(ComRec::empty().is_empty());
    assert_eq!(e.fs_rel(false), "2020/a.jpg");
    assert_eq!(e.fs_rel(true), "2020\\a.jpg");
    assert_eq!(e.fs_rel(windows_paths()), if std::path::MAIN_SEPARATOR == '/' { "2020/a.jpg" } else { "2020\\a.jpg" });
}

#[test]
fn clear_and_become_equal() {
    let mut a = rec("x.txt", 0, 5);
    let b = rec("y.txt", 1, 9);
    a.becomes_eq(&b);
    assert_eq!(a.frel(), "y.txt");
    assert_eq!(a.fsize(), 9);
    assert_eq!(a.col(), 0);
    a.clear_f();
    assert!(a.is_empty());
    assert_eq!(a.fsize(), 0);
}

#[test]
fn diff_rows_pair_equal_paths() {
    let first = vec![rec("b.txt", 0, 2), rec("a.txt", 0, 1)];
    let second = vec![rec("b.txt", 1, 3), rec("c.txt", 1, 4)];
    let all = merge_recs_for_diff(first, second);
    let paths: Vec<&str> = all.iter().map(|r| r.frel()).collect();
    assert_eq!(paths, vec!["a.txt", "b.txt", "b.txt", "c.txt"]);
    let rows = build_diff_rows(&all);
    assert_eq!(rows.len(), 3);
    assert_eq!(rows[0].column0().frel(), "a.txt");
    assert!(rows[0].column1().is_empty());
    assert_eq!(rows[1].column0().fsize(), 2);
    assert_eq!(rows[1].column1().fsize(), 3);
    assert!(rows[2].column0().is_empty());
    assert_eq!(rows[2].frel(), "c.txt");
    let lines = print_diff(&rows);
    assert_eq!(lines, vec!["  0 <a.txt [SIZE] 1", "  1 !b.txt [SIZE] 2 != ", "  2 >c.txt [SIZE] 4"]);
}

#[test]
fn sort_orders_by_path_side_size() {
    let mut v = vec![rec("a", 1, 1), rec("a", 0, 5), rec("a", 0, 2), rec("", 1, 0)];
    sort_records(&mut v);
    let got: Vec<(&str, u8, i64)> = v.iter().map(|r| (r.frel(), r.col(), r.fsize())).collect();
    assert_eq!(got, vec![("", 1, 0), ("a", 0, 2), ("a", 0, 5), ("a", 1, 1)]);
}

#[test]
fn listing_texts() {
    let a = rec("a", 0, 7);
    let b = rec("a", 1, 7);
    let c = rec("a", 1, -3);
    assert_eq!(print_single_row(&a), "a [SIZE] 7");
    assert_eq!(print_row_cmp(&a, &b), "=a [SIZE] 7");
    assert_eq!(print_row_cmp(&a, &c), "!a [SIZE] 7 != ");
    let mut rows = vec![mk_drow(a, b)];
    toggle_selection(&mut rows, 0, 0);
    assert_eq!(rows[0].sel_char(), '+');
    assert_eq!(print_diff(&rows), vec!["+ 0 =a [SIZE] 7"]);
}

#[test]
fn diff_commands() {
    assert_eq!(parse_diff_command("", 3), DiffCommand::Leave);
    assert_eq!(parse_diff_command("all", 3), DiffCommand::ToggleAll);
    assert_eq!(parse_diff_command("use0", 3), DiffCommand::Use0);
    assert_eq!(parse_diff_command("use1", 3), DiffCommand::Use1);
    assert_eq!(parse_diff_command("2", 3), DiffCommand::Toggle(2, 2));
    assert_eq!(parse_diff_command("3", 3), DiffCommand::Invalid);
    assert_eq!(parse_diff_command("0-2", 3), DiffCommand::Toggle(0, 2));
    assert_eq!(parse_diff_command("2-1", 3), DiffCommand::Invalid);
    assert_eq!(parse_diff_command("1-3", 3), DiffCommand::Invalid);
    assert_eq!(parse_diff_command("-1", 3), DiffCommand::Invalid);
    assert_eq!(parse_diff_command("x", 3), DiffCommand::Invalid);
}

#[test]
fn toggling_a_range_selects_or_clears_it() {
    let mut rows: Vec<DRow> = (0..4).map(|i| mk_drow(rec(&format!("f{}", i), 0, i), ComRec::empty())).collect();
    toggle_selection(&mut rows, 1, 2);
    let sel: Vec<bool> = rows.iter().map(|r| r.selected()).collect();
    assert_eq!(sel, vec![false, true, true, false]);
    toggle_selection(&mut rows, 0, 2);
    let sel: Vec<bool> = rows.iter().map(|r| r.selected()).collect();
    assert_eq!(sel, vec![true, true, true, false]);
    toggle_selection(&mut rows, 0, 2);
    let sel: Vec<bool> = rows.iter().map(|r| r.selected()).collect();
    assert_eq!(sel, vec![false, false, false, false]);
}

#[test]
fn sync_actions_per_line() {
    let src = rec("a", 0, 5);
    assert_eq!(sync_action(&ComRec::empty(), &src), SyncAction::Delete);
    assert_eq!(sync_action(&src, &ComRec::empty()), SyncAction::Overwrite);
    assert_eq!(sync_action(&src, &rec("a", 1, 6)), SyncAction::Overwrite);
    assert_eq!(sync_action(&src, &rec("a", 1, 5)), SyncAction::Skip);
}

#[test]
fn syncing_settles_a_line() {
    let mut row = mk_drow(rec("a", 0, 5), rec("a", 1, 6));
    assert_eq!(row.sync_action(true), SyncAction::Overwrite);
    row.apply_sync(true);
    assert_eq!(row.column1().fsize(), 5);
    assert_eq!(row.column1().col(), 1);
    assert_eq!(row.sync_action(true), SyncAction::Skip);
    let mut gone = mk_drow(ComRec::empty(), rec("b", 1, 2));
    assert_eq!(gone.sync_action(true), SyncAction::Delete);
    gone.apply_sync(true);
    assert!(gone.column1().is_empty());
    let mut rows = vec![gone, row];
    remove_empty_rows(&mut rows);
    assert_eq!(rows.len(), 1);
    assert_eq!(rows[0].frel(), "a");
}

#[test]
fn local_paths_checked_before_a_sync() {
    let only0 = mk_drow(rec("a", 0, 5), ComRec::empty());
    assert_eq!(only0.path_check(true, true), PathCheck::Creatable);
    assert_eq!(only0.path_check(false, true), PathCheck::RegularFile);
    assert_eq!(only0.path_check(true, false), PathCheck::UploadableFile);
    assert_eq!(only0.path_check(false, false), PathCheck::Absent);
    let both = mk_drow(rec("a", 0, 5), rec("a", 1, 6));
    assert_eq!(both.path_check(true, true), PathCheck::RegularFile);
    assert_eq!(both.path_check(false, false), PathCheck::UploadableFile);
}

#[test]
fn plans_for_pairs() {
    let pair = (
        InfoDir::Entfo(("e".to_string(), "p/".to_string())),
        InfoDir::D(("me@x".to_string(), "q/".to_string())),
    );
    match sync_plan(&pair, true) {
        SyncPlan::Upload { src, dst } => {
            assert_eq!(src, ("e".to_string(), "p/".to_string()));
            assert_eq!(dst, ("me@x".to_string(), "q/".to_string()));
        }
        other => panic!("{:?}", other),
    }
    match sync_plan(&pair, false) {
        SyncPlan::Download { src, dst } => {
            assert_eq!(src.0, "me@x");
            assert_eq!(dst.0, "e");
        }
        other => panic!("{:?}", other),
    }
    let mm = (InfoDir::M(("a".to_string(), "".to_string())), InfoDir::Entfo(("e".to_string(), "".to_string())));
    assert!(matches!(sync_plan(&mm, true), SyncPlan::Unsupported));
    assert_eq!(dx_path("q/", "x/y.txt"), "/q/x/y.txt");
}

#[test]
fn pair_prefixes_must_end_with_separator() {
    let good = vec![(
        InfoDir::Entfo(("e".to_string(), "".to_string())),
        InfoDir::D(("m".to_string(), "a\\".to_string())),
    )];
    assert!(info_pairs_valid(&good));
    let bad = vec![(
        InfoDir::Entfo(("e".to_string(), "a".to_string())),
        InfoDir::D(("m".to_string(), "b/".to_string())),
    )];
    assert!(!info_pairs_valid(&bad));
}

#[test]
fn choosing_a_pair() {
    let pairs = vec![(
        InfoDir::Entfo(("e".to_string(), "".to_string())),
        InfoDir::D(("me".to_string(), "".to_string())),
    )];
    let none: Vec<String> = vec![];
    let listed = vec!["me@dx".to_string()];
    assert_eq!(choose_info_pair(&pairs, "", true, &none), PairChoice::KeepCurrent);
    assert_eq!(choose_info_pair(&pairs, "", false, &none), PairChoice::NoChoiceYet);
    assert_eq!(choose_info_pair(&pairs, "1", false, &listed), PairChoice::InvalidIndex);
    assert_eq!(choose_info_pair(&pairs, "zero", false, &listed), PairChoice::InvalidIndex);
    assert_eq!(choose_info_pair(&pairs, "0", false, &none), PairChoice::NotListed);
    assert_eq!(choose_info_pair(&pairs, "0", false, &listed), PairChoice::Chosen(0));
}
