use filelst::util::{
    base64_to_hash, build_info_elem, hash_to_base64, make_pf, millis2display, next_tmpid, parse_pf, parse_pfs,
    record_header, selected_footer, show_field, shown_time, size_time_line, tidx_touch, FileRow, InfoError, PfValue,
    TIdx, MAX_NUM_OF_ELEMS_IN_ONE_INFO_T,
};
use std::collections::{BTreeSet, HashSet};

#[test]
fn path_entries_round_trip() {
    let pf = make_pf("opt", "a/b.txt", 5, 5);
    assert_eq!(pf.len(), 2);
    assert_eq!(parse_pf(&pf, 5), Ok(("opt".to_string(), "a/b.txt".to_string(), 5)));
    let pf2 = make_pf("opt", "c", 9, 5);
    assert_eq!(pf2.len(), 3);
    assert_eq!(parse_pf(&pf2, 5), Ok(("opt".to_string(), "c".to_string(), 9)));
}

#[test]
fn malformed_path_entries_are_refused() {
    let one = vec![PfValue::Str("opt".to_string())];
    assert_eq!(parse_pf(&one, 0), Err(InfoError::InvalidPf));
    let bad_kind = vec![PfValue::Str("opt".to_string()), PfValue::Int(3)];
    assert_eq!(parse_pf(&bad_kind, 0), Err(InfoError::InvalidPf));
    let bad_time = vec![PfValue::Str("o".to_string()), PfValue::Str("r".to_string()), PfValue::Other];
    assert_eq!(parse_pf(&bad_time, 0), Err(InfoError::InvalidPf));
    let ok = || vec![PfValue::Str("o".to_string()), PfValue::Str("r".to_string())];
    assert_eq!(parse_pfs(&vec![ok(), bad_time], 1), Err(InfoError::InvalidPf));
    assert_eq!(parse_pfs(&vec![ok()], 1), Ok(vec![("o".to_string(), "r".to_string(), 1)]));
}

#[test]
fn hashes_as_text() {
    assert_eq!(hash_to_base64(&[0u8, 1, 2]), "AAEC");
    assert_eq!(hash_to_base64(&[]), "");
    assert_eq!(hash_to_base64(b"hello"), "aGVsbG8");
    assert_eq!(hash_to_base64(b"Man"), "TWFu");
    assert_eq!(hash_to_base64(b"Ma"), "TWE");
    assert_eq!(hash_to_base64(b"M"), "TQ");
    assert_eq!(hash_to_base64(&[255u8, 254, 63, 0]), "//4/AA");
    assert_eq!(base64_to_hash("AAEC"), Ok(vec![0u8, 1, 2]));
    assert_eq!(base64_to_hash("aGVsbG8="), Err(InfoError::BadHashText));
    assert_eq!(base64_to_hash("!!"), Err(InfoError::BadHashText));
    assert_eq!(base64_to_hash("TR"), Err(InfoError::BadHashText));
    assert_eq!(base64_to_hash("TWFuT"), Err(InfoError::BadHashText));
    assert_eq!(base64_to_hash("TWE"), Ok(b"Ma".to_vec()));
    let h: Vec<u8> = (0u8..32).collect();
    let t = hash_to_base64(&h);
    assert_eq!(t.len(), 43);
    assert_eq!(base64_to_hash(&t), Ok(h));
}

#[test]
fn times_as_text() {
    assert_eq!(millis2display(0), "1970-01-01 00:00:00 UTC");
    assert_eq!(millis2display(1_500), "1970-01-01 00:00:01.500 UTC");
    assert_eq!(millis2display(i64::MAX), "FAILED TO CONV MS TO STR");
    assert_eq!(shown_time(None), "FAILED TO CONV MS TO STR");
    assert_eq!(shown_time(Some("t".to_string())), "t");
    assert_eq!(size_time_line(12, 0), "12 1970-01-01 00:00:00 UTC");
}

#[test]
fn new_ids_follow_the_highest() {
    assert_eq!(next_tmpid(None), 1);
    assert_eq!(next_tmpid(Some(41)), 42);
}

#[test]
fn touched_info_files_are_marked() {
    let mut m: HashSet<u32> = HashSet::new();
    tidx_touch(&mut m, &vec![3, 0, 3, 7]);
    let expect: HashSet<u32> = [0u32, 3, 7].into_iter().collect();
    assert_eq!(m, expect);
}

#[test]
fn info_file_numbering() {
    let mut t = TIdx::new();
    assert_eq!(t.t_idx, 0);
    t.advance();
    t.note_treefile(MAX_NUM_OF_ELEMS_IN_ONE_INFO_T);
    t.advance();
    t.note_treefile(3);
    assert_eq!(t.t_idx, 2);
    assert_eq!(t.t_idx_i64(), 2);
    assert_eq!(t.spacious_list(), vec![2]);
    let n = t.new_space();
    assert_eq!(n, 2);
    assert_eq!(t.t_idx, 3);
    assert_eq!(t.spacious_t, [2u32].into_iter().collect::<BTreeSet<u32>>());
}

#[test]
fn new_records_fill_the_highest_file_with_room_first() {
    let mut t = TIdx { t_idx: 7, spacious_t: [2u32, 5].into_iter().collect() };
    let asc = t.spacious_list();
    assert_eq!(asc, vec![2, 5]);
    let counts = vec![31u32, 30];
    let mut modified: HashSet<u32> = [0u32, 9].into_iter().collect();
    let placed = t.assign_new_records(&asc, &counts, 5, &mut modified);
    assert_eq!(placed, vec![5, 5, 2, 7, 7]);
    assert_eq!(t.t_idx, 8);
    assert_eq!(t.spacious_t, [7u32].into_iter().collect::<BTreeSet<u32>>());
    let expect: HashSet<u32> = [2u32, 5, 7, 9].into_iter().collect();
    assert_eq!(modified, expect);
}

#[test]
fn no_info_file_takes_more_than_its_room() {
    let mut t = TIdx { t_idx: 1, spacious_t: BTreeSet::new() };
    let mut modified: HashSet<u32> = HashSet::new();
    let placed = t.assign_new_records(&vec![], &vec![], 70, &mut modified);
    for f in [1u32, 2, 3] {
        let n = placed.iter().filter(|x| **x == f).count();
        assert!(n <= MAX_NUM_OF_ELEMS_IN_ONE_INFO_T);
    }
    assert_eq!(placed.iter().filter(|x| **x == 1).count(), 32);
    assert_eq!(placed.iter().filter(|x| **x == 3).count(), 6);
    assert_eq!(t.t_idx, 4);
}

#[test]
fn records_written_to_info_files() {
    let row = FileRow {
        tmpid: 4,
        size: 10,
        mtime: 100,
        hash: vec![0, 1, 2],
        desc: "d".to_string(),
        old_filename: String::new(),
        download_url: String::new(),
        archive_filename: String::new(),
        copyright: String::new(),
    };
    let olds = vec![vec![9u8], vec![0u8]];
    let copies = vec![("opt".to_string(), "a".to_string(), 100), ("opt".to_string(), "b".to_string(), 50)];
    let e = build_info_elem(row, &olds, &copies, vec!["lbl".to_string()]);
    assert_eq!(e.hash, "AAEC");
    assert_eq!(e.old, vec!["AA", "CQ"]);
    assert_eq!(e.pf.len(), 2);
    assert_eq!(e.pf[0].len(), 2);
    assert_eq!(e.pf[1].len(), 3);
    assert_eq!(parse_pfs(&e.pf, e.mtime), Ok(copies));
    assert_eq!(base64_to_hash(&e.hash), Ok(vec![0, 1, 2]));
    assert_eq!(e.lbls, vec!["lbl"]);
    assert_eq!(e.tmpid, 4);
}

#[test]
fn filtered_record_display() {
    assert_eq!(record_header(3, -8), ("**** 3 +".to_string(), 8));
    assert_eq!(record_header(0, 8), ("**** 0".to_string(), 8));
    assert_eq!(show_field("DESC", "x"), Some("DESC x".to_string()));
    assert_eq!(show_field("DESC", ""), None);
    assert_eq!(selected_footer(2), "******* 2 SELECTED");
}

#[test]
fn sql_param() {
    let conn = rusqlite::Connection::open_in_memory().unwrap();
    let mut cached_stmt = conn.prepare_cached("select ?1,?2,?1,?2").unwrap();
    let mut rows = cached_stmt.query(("foo", "bar")).unwrap();
    if let Some(row) = rows.next().unwrap() {
        let c1: String = row.get(0).unwrap();
        let c2: String = row.get(1).unwrap();
        let c3: String = row.get(2).unwrap();
        let c4: String = row.get(3).unwrap();
        println!("{} {} {} {}", c1, c2, c3, c4);
        assert_eq!((c1.as_str(), c2.as_str(), c3.as_str(), c4.as_str()), ("foo", "bar", "foo", "bar"));
    } else {
        println!("{}", "No row");
    }
}
