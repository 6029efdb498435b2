use filelst::command::{parse_command, CmdKind};
use filelst::rules::{FsEntfo, FsFolder};
use filelst::session::{fsdel_choice, git_args, CtxDef, FsdelChoice, FsdelMatch, GitNext, GitStep, LblsOutcome, SyncMethod};

fn kind(line: &str) -> (CmdKind, String, usize) {
    let c = parse_command(line);
    (c.kind, c.arg, c.index)
}

#[test]
fn whole_line_commands() {
    assert_eq!(kind("dir-diff").0, CmdKind::DirDiff);
    assert_eq!(kind("sc").0, CmdKind::Scan);
    assert_eq!(kind("scan").0, CmdKind::Scan);
    assert_eq!(kind("quit").0, CmdKind::Exit);
    assert_eq!(kind("exit").0, CmdKind::Exit);
    assert_eq!(kind("all").0, CmdKind::SelectAll);
    assert_eq!(kind("lbls").0, CmdKind::Lbls);
    assert_eq!(kind("+").0, CmdKind::AddChosen);
    assert_eq!(kind("-").0, CmdKind::RemoveChosen);
    assert_eq!(kind("").0, CmdKind::Empty);
    assert_eq!(kind("l").0, CmdKind::List);
}

#[test]
fn prefixed_and_worded_commands() {
    assert_eq!(kind("+pho"), (CmdKind::Plus, "pho".to_string(), 0));
    assert_eq!(kind("-pho to"), (CmdKind::Minus, "pho to".to_string(), 0));
    assert_eq!(kind("/img"), (CmdKind::Slash, "img".to_string(), 0));
    assert_eq!(kind("/"), (CmdKind::Slash, "".to_string(), 0));
    assert_eq!(kind("12"), (CmdKind::Toggle, "".to_string(), 12));
    assert_eq!(kind("99999999999999999999999").0, CmdKind::InvalidIndex);
    assert_eq!(kind("lbl holiday 2020"), (CmdKind::LblInput, "holiday 2020".to_string(), 0));
    assert_eq!(kind("where size > 10"), (CmdKind::Where, "size > 10".to_string(), 0));
    assert_eq!(kind("fsdel tmp"), (CmdKind::FsdelPattern, "tmp".to_string(), 0));
    assert_eq!(kind("desc "), (CmdKind::SetDesc, "".to_string(), 0));
    assert_eq!(kind("scan-entfo opt"), (CmdKind::ScanEntfo, "opt".to_string(), 0));
    assert_eq!(kind("bogus x").0, CmdKind::Unrecognized);
    assert_eq!(kind("bogus").0, CmdKind::Unrecognized);
    assert_eq!(kind("1a").0, CmdKind::Unrecognized);
}

fn entfo(hw: &str, pb: &str) -> FsEntfo {
    FsEntfo {
        active: true,
        hardware_id: hw.to_string(),
        tmp_mount_point: false,
        abs_path: pb.to_string(),
        efolder: FsFolder {
            pb: pb.to_string(),
            included: true,
            ends_with_include: vec![],
            ends_with_exclude: vec![],
            base_filename_include: vec![],
            base_filename_exclude: vec![],
        },
        desce: vec![],
    }
}

fn session() -> CtxDef {
    let mut c = CtxDef::new(vec!["prog".to_string()]);
    c.local_settings.default_hardware_id = "laptop".to_string();
    c.custentfos_settings = vec![
        ("docs".to_string(), entfo("laptop", "/home/u/docs")),
        ("usb".to_string(), entfo("stick", "/media/usb")),
    ];
    c
}

#[test]
fn new_session_is_empty() {
    let c = CtxDef::new(vec!["a".to_string()]);
    assert_eq!(c.envargs, vec!["a"]);
    assert!(c.filter_buf.is_empty());
    assert!(c.chosen_lbl.is_empty());
    assert!(c.info_pair.is_none());
    assert_eq!(c.tidx_st.t_idx, 0);
}

#[test]
fn selection_commands() {
    let mut c = session();
    c.filter_buf = vec![3, -5, 7];
    assert_eq!(c.mk_vec_of_selection(), vec![5]);
    assert!(c.toggle(0));
    assert_eq!(c.filter_buf, vec![-3, -5, 7]);
    assert!(!c.toggle(3));
    assert!(c.toggle(0));
    assert_eq!(c.filter_buf, vec![3, -5, 7]);
    c.select_all();
    assert_eq!(c.filter_buf, vec![-3, -5, -7]);
    assert_eq!(c.mk_vec_of_selection(), vec![3, 5, 7]);
    c.deselect_all();
    assert_eq!(c.filter_buf, vec![3, 5, 7]);
    assert!(c.mk_vec_of_selection().is_empty());
    c.filter_buf = vec![-1, 2, -3];
    c.keep_unselected();
    assert_eq!(c.filter_buf, vec![2]);
    assert!(!c.set_filter_buf(vec![]));
    assert_eq!(c.filter_buf, vec![2]);
    assert!(c.set_filter_buf(vec![8, 9]));
    assert_eq!(c.filter_buf, vec![8, 9]);
    c.forget_filter();
    assert!(c.filter_buf.is_empty());
}

#[test]
fn select_all_cannot_mark_a_zero_entry() {
    let mut c = session();
    c.filter_buf = vec![0, 4];
    c.select_all();
    assert_eq!(c.mk_vec_of_selection(), vec![4]);
}

#[test]
fn labels() {
    let mut c = session();
    assert!(!c.lbl_input(""));
    assert!(c.lbl_input("trip"));
    assert_eq!(c.chosen_lbl, "trip");
    assert!(matches!(c.lbls_search(vec![]), LblsOutcome::NoMatch));
    assert_eq!(c.chosen_lbl, "trip");
    assert!(matches!(c.lbls_search(vec!["beach".to_string()]), LblsOutcome::Chosen));
    assert_eq!(c.chosen_lbl, "beach");
    match c.lbls_search(vec!["b".to_string(), "a".to_string()]) {
        LblsOutcome::Choose(v) => {
            assert_eq!(v, vec!["a", "b"]);
            assert!(c.choose_lbl(&v, "1"));
            assert_eq!(c.chosen_lbl, "b");
            assert!(!c.choose_lbl(&v, "2"));
            assert!(!c.choose_lbl(&v, "x"));
            assert_eq!(c.chosen_lbl, "b");
        }
        _ => panic!("several labels must be offered"),
    }
    assert_eq!(CtxDef::get_single_lbl_match(vec!["only".to_string()]), "only");
    assert_eq!(CtxDef::get_single_lbl_match(vec![]), "");
    assert_eq!(CtxDef::get_single_lbl_match(vec!["a".to_string(), "b".to_string()]), "");
}

#[test]
fn mounted_entfos_and_deletion_choices() {
    let c = session();
    assert!(c.is_entfo_mounted("docs"));
    assert!(!c.is_entfo_mounted("usb"));
    assert!(!c.is_entfo_mounted("nope"));
    assert_eq!(c.force_entfo_path("usb"), "/media/usb");
    assert_eq!(c.fsdel_match("docs", "a/tmp.txt", "tmp"), FsdelMatch::Candidate);
    assert_eq!(c.fsdel_match("usb", "a/tmp.txt", "tmp"), FsdelMatch::NotMounted);
    assert_eq!(c.fsdel_match("docs", "a/b.txt", "tmp"), FsdelMatch::NoMatch);
    assert_eq!(c.fsdel_match("docs", "a/b.txt", "do"), FsdelMatch::Candidate);
    assert_eq!(c.first_unmounted(&vec!["docs".to_string(), "usb".to_string()]), Some(1));
    assert_eq!(c.first_unmounted(&vec!["docs".to_string()]), None);
    assert_eq!(fsdel_choice(3, ""), FsdelChoice::All);
    assert_eq!(fsdel_choice(3, "2"), FsdelChoice::One(2));
    assert_eq!(fsdel_choice(3, "3"), FsdelChoice::Invalid);
    assert_eq!(fsdel_choice(3, "a"), FsdelChoice::Invalid);
    assert_eq!(c.default_hardware_entfos(), vec!["docs"]);
}

#[test]
fn filtering_queries() {
    let mut c = session();
    let (sql, glob) = c.slash_query("img").unwrap();
    assert_eq!(glob, "img*");
    assert_eq!(
        sql,
        "SELECT tmpid from files where tmpid in(select tmpid from lbls where lbl glob ?1) or tmpid in(select tmpid from fsfiles where rel glob ?1) or old_filename glob ?1 or download_url glob ?1 or archive_filename glob ?1"
    );
    assert!(c.slash_query("").is_none());
    assert_eq!(c.where_query("size > 1", ""), "SELECT tmpid from files where size > 1");
    c.filter_buf = vec![4];
    assert_eq!(
        c.where_query("size > 1", "mtime"),
        "SELECT tmpid from files where tmpid in(select tid from filter_buf) and (size > 1) order by mtime"
    );
}

#[test]
fn sync_methods() {
    let mut c = session();
    assert_eq!(c.sync_method(), SyncMethod::Off);
    c.local_settings.sync_method = "git".to_string();
    assert_eq!(c.sync_method(), SyncMethod::Git);
    c.local_settings.sync_method = "svn".to_string();
    assert_eq!(c.sync_method(), SyncMethod::Unrecognized);
}

#[test]
fn git_synchronisation_steps() {
    let mut c = session();
    assert_eq!(c.git_next(GitStep::Pull, true, false), GitNext::Run(GitStep::Add));
    assert_eq!(c.git_next(GitStep::Add, true, true), GitNext::Run(GitStep::DiffCached));
    assert_eq!(c.git_next(GitStep::DiffCached, true, true), GitNext::Done);
    assert_eq!(c.git_next(GitStep::DiffCached, true, false), GitNext::Run(GitStep::CheckEmail));
    assert!(c.already_checked_git_email_n_name);
    assert_eq!(c.git_next(GitStep::CheckEmail, true, true), GitNext::Failed);
    assert_eq!(c.git_next(GitStep::CheckEmail, true, false), GitNext::Run(GitStep::CheckName));
    assert_eq!(c.git_next(GitStep::CheckName, true, false), GitNext::Run(GitStep::Commit));
    assert_eq!(c.git_next(GitStep::DiffCached, true, false), GitNext::Run(GitStep::Commit));
    assert_eq!(c.git_next(GitStep::Commit, true, false), GitNext::Run(GitStep::Push));
    assert_eq!(c.git_next(GitStep::Push, true, false), GitNext::Done);
    assert_eq!(c.git_next(GitStep::Push, false, false), GitNext::Failed);
    assert_eq!(git_args(GitStep::Commit), vec!["commit", "--allow-empty-message", "-m", ""]);
    assert_eq!(git_args(GitStep::Push), vec!["push", "-u", "origin", "HEAD"]);
    assert_eq!(git_args(GitStep::DiffCached), vec!["diff", "--cached"]);
}

#[test]
fn entfo_settings_are_keyed_in_order() {
    let mut c = CtxDef::new(vec!["prog".to_string()]);
    let unsorted = vec![("b".to_string(), entfo("hw", "/b")), ("a".to_string(), entfo("hw", "/a"))];
    assert!(!c.set_entfos(unsorted));
    assert!(c.custentfos_settings.is_empty());
    let twice = vec![("a".to_string(), entfo("hw", "/a")), ("a".to_string(), entfo("hw", "/b"))];
    assert!(!c.set_entfos(twice));
    let sorted = vec![("a".to_string(), entfo("hw", "/a")), ("b".to_string(), entfo("hw", "/b"))];
    assert!(c.set_entfos(sorted));
    assert_eq!(c.custentfos_settings.len(), 2);
    assert_eq!(c.custentfos_settings[1].0, "b");
}
