use std::path::Path;
use filelst::paths::{components, file_name_of, same_path, starts_with, windows_paths};
use filelst::text::{
    chars_of, chars_range, copy_strings, i64_to_string, insert_by_key, owned, parse_usize, push_all,
    sort_strings, str_contains, str_ends_with, str_eq, str_lt, string_of, trim_line_ends, usize_to_string,
};

#[test]
fn decimal_rendering_of_integers() {
    assert_eq!(i64_to_string(0), "0");
    assert_eq!(i64_to_string(-42), "-42");
    assert_eq!(i64_to_string(1234567), "1234567");
    assert_eq!(i64_to_string(i64::MIN), "-9223372036854775808");
    assert_eq!(i64_to_string(i64::MAX), "9223372036854775807");
    assert_eq!(usize_to_string(907), "907");
}

#[test]
fn parse_usize_reads_as_std_does() {
    assert_eq!(parse_usize("12"), Some(12));
    assert_eq!(parse_usize("+12"), Some(12));
    assert_eq!(parse_usize("0007"), Some(7));
    assert_eq!(parse_usize(""), None);
    assert_eq!(parse_usize("+"), None);
    assert_eq!(parse_usize("-1"), None);
    assert_eq!(parse_usize("1 2"), None);
    assert_eq!(parse_usize("18446744073709551615"), Some(usize::MAX));
    assert_eq!(parse_usize("18446744073709551616"), None);
    for s in ["5", "+5", "x", "", "99999999999999999999"] {
        assert_eq!(parse_usize(s), s.parse::<usize>().ok());
    }
}

#[test]
fn string_order_matches_str_order() {
    let pairs = [("a", "b"), ("ab", "a"), ("", "a"), ("abc", "abc"), ("Z", "a"), ("é", "e")];
    for (a, b) in pairs {
        assert_eq!(str_lt(a, b), a < b, "{} < {}", a, b);
        assert_eq!(str_eq(a, b), a == b);
    }
}

#[test]
fn sorting_strings_and_keys() {
    let mut v = vec!["pear".to_string(), "apple".to_string(), "fig".to_string(), "apple".to_string()];
    sort_strings(&mut v);
    assert_eq!(v, vec!["apple", "apple", "fig", "pear"]);
    let mut ins = vec![("a".to_string(), 1), ("c".to_string(), 3)];
    let pos = insert_by_key(&mut ins, ("b".to_string(), 2));
    assert_eq!(pos, 1);
    assert_eq!(ins[1].0, "b");
}

#[test]
fn substrings_and_suffixes() {
    assert!(str_contains("photo.jpeg", "to.j"));
    assert!(str_contains("abc", ""));
    assert!(!str_contains("abc", "abcd"));
    assert!(str_ends_with("photo.jpeg", ".jpeg"));
    assert!(!str_ends_with("photo.jpg", ".jpeg"));
    assert_eq!(trim_line_ends("token\r\n\n"), "token");
    assert_eq!(trim_line_ends("\n"), "");
    let cs = chars_of("héllo");
    assert_eq!(chars_range(&cs, 1, 3), "él");
    assert_eq!(string_of(&cs), "héllo");
    let mut s = owned("ab");
    push_all(&mut s, "cd");
    assert_eq!(s, "abcd");
    assert_eq!(copy_strings(&vec!["x".to_string()]), vec!["x".to_string()]);
}

#[test]
fn path_prefixes_compare_components() {
    assert!(starts_with("/a/b/c", "/a/b", false));
    assert!(starts_with("/a/b", "/a/b/", false));
    assert!(!starts_with("/a/bc", "/a/b", false));
    assert!(starts_with("/a/./b", "/a", false));
    assert!(!starts_with("a/b", "/a", false));
    assert!(same_path("/a//b/", "/a/b", false));
    assert!(!same_path("/a/b", "/a/b/c", false));
    assert_eq!(components("/a//b/./c", false).len(), 4);
    assert_eq!(file_name_of("/a/b.txt", false), Some("b.txt".chars().collect::<Vec<char>>()));
    assert_eq!(file_name_of("/", false), None);
    assert_eq!(file_name_of("a/..", false), None);
}

#[test]
fn path_model_agrees_with_std() {
    let win = windows_paths();
    let paths = [
        "/a/b/c", "/a/b", "/a/bc", "/x//y", "/x/y", "rel/p", "rel", "/", "./a", "a", ".", "./", "/a/./b/", "a/..",
        "..", "/a/b/.", "x/./", "",
    ];
    for p in paths {
        for q in paths {
            assert_eq!(starts_with(p, q, win), Path::new(p).starts_with(q), "{} {}", p, q);
            assert_eq!(same_path(p, q, win), Path::new(p) == Path::new(q), "{} {}", p, q);
        }
        let std_name: Option<Vec<char>> = Path::new(p).file_name().map(|n| n.to_str().unwrap().chars().collect());
        assert_eq!(file_name_of(p, win), std_name, "{}", p);
        assert_eq!(components(p, win).len(), Path::new(p).components().count(), "{}", p);
    }
}

fn comps(p: &str) -> Vec<String> {
    components(p, true).iter().map(|c| c.iter().collect()).collect()
}

#[test]
fn windows_paths_read_prefixes_and_backslashes() {
    assert_eq!(comps(r"C:\a\b"), vec![r"\DC", r"\", "a", "b"]);
    assert_eq!(comps("c:/a/b"), vec![r"\DC", r"\", "a", "b"]);
    assert_eq!(comps("C:a"), vec![r"\DC", "a"]);
    assert_eq!(comps(r"\\?\C:\x/y\.\z"), vec![r"\KC", r"\", "x/y", ".", "z"]);
    assert_eq!(comps(r"\\?\UNC\srv\share\d"), vec![r"\Wsrv\share", r"\", "d"]);
    assert_eq!(comps(r"\\?\pics\d"), vec![r"\Vpics", r"\", "d"]);
    assert_eq!(comps(r"\\srv\share\d"), vec![r"\Usrv\share", r"\", "d"]);
    assert_eq!(comps("//srv/share"), vec![r"\Usrv\share", r"\"]);
    assert_eq!(comps(r"\\.\COM1"), vec![r"\NCOM1", r"\"]);
    assert_eq!(comps(r"\a\.\b\"), vec![r"\", "a", "b"]);
    assert_eq!(comps(r".\a"), vec![".", "a"]);
    assert!(same_path(r"C:\Users\u", "c:/Users/u/", true));
    assert!(!same_path(r"C:\Users\u", r"\\?\C:\Users\u", true));
    assert!(starts_with(r"\\?\C:\docs\a\b.txt", r"\\?\C:\docs", true));
    assert!(!starts_with(r"D:\docs\a", r"C:\docs", true));
    assert_eq!(file_name_of(r"C:\docs\b.txt", true), Some("b.txt".chars().collect::<Vec<char>>()));
    assert_eq!(file_name_of(r"C:\", true), None);
    assert_eq!(file_name_of(r"\\srv\share", true), None);
    assert_eq!(file_name_of("a\\b", false), Some("a\\b".chars().collect::<Vec<char>>()));
}
