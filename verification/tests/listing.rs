use syncbox::{build_listing, du_command, join_remote, parse_dir_sizes, RawEntry};

fn raw(name: Option<&str>, is_dir: bool, size: Option<u64>) -> RawEntry {
    RawEntry { name: name.map(|n| n.to_string()), is_dir, size }
}

#[test]
fn join_drops_trailing_slashes() {
    assert_eq!(join_remote("/home/u1/", "f.txt"), "/home/u1/f.txt");
    assert_eq!(join_remote("/home/u1//", "f.txt"), "/home/u1/f.txt");
    assert_eq!(join_remote("/", "x"), "/x");
    assert_eq!(join_remote("", "x"), "/x");
    assert_eq!(join_remote("a/b", "c"), "a/b/c");
}

#[test]
fn listing_directories_first_then_names() {
    let raws = vec![
        raw(Some("b.txt"), false, Some(10)),
        raw(Some("a"), true, None),
        raw(Some("."), true, Some(1)),
        raw(None, false, Some(2)),
        raw(Some(".."), true, Some(1)),
        raw(Some("A.txt"), false, Some(3)),
        raw(Some("z"), true, Some(4096)),
    ];
    let l = build_listing("/home/", &raws);
    let names: Vec<&str> = l.iter().map(|e| e.name.as_str()).collect();
    assert_eq!(names, vec!["a", "z", "A.txt", "b.txt"]);
    assert_eq!(l[0].path, "/home/a");
    assert_eq!(l[0].size, 0);
    assert!(l[0].is_dir && l[1].is_dir && !l[2].is_dir);
    assert_eq!(l[3].path, "/home/b.txt");
    assert_eq!(l[3].size, 10);
}

#[test]
fn listing_keeps_reported_order_of_equal_entries() {
    let raws = vec![raw(Some("x"), false, Some(1)), raw(Some("x"), false, Some(2))];
    let l = build_listing("d", &raws);
    assert_eq!(l.len(), 2);
    assert_eq!((l[0].size, l[1].size), (1, 2));
}

#[test]
fn listing_of_nothing() {
    assert!(build_listing("/", &vec![]).is_empty());
}

#[test]
fn du_command_text() {
    assert_eq!(du_command("/home/u1//"), "du -sb \"/home/u1\"/* 2>/dev/null || true");
    assert_eq!(du_command("/"), "du -sb \"\"/* 2>/dev/null || true");
}

fn sorted(mut v: Vec<(String, u64)>) -> Vec<(String, u64)> {
    v.sort();
    v
}

#[test]
fn du_sizes_by_name() {
    let out = "1024\t/home/u1/docs\n2048\t/home/u1/a.txt\nbad\t/home/u1/x\nnotab\n";
    let r = sorted(parse_dir_sizes(out));
    assert_eq!(
        r,
        vec![("a.txt".to_string(), 2048), ("docs".to_string(), 1024), ("x".to_string(), 0)]
    );
}

#[test]
fn du_later_line_wins_and_empty_names_are_skipped() {
    let out = "5\t/a/b\n7\t/c/b\n9\t/a/c/\n 3 \t  plain  \n";
    let r = sorted(parse_dir_sizes(out));
    assert_eq!(r, vec![("b".to_string(), 7), ("plain".to_string(), 3)]);
}

#[test]
fn du_tab_in_name_is_kept() {
    let r = parse_dir_sizes("4\t/a/x\ty\n");
    assert_eq!(r, vec![("x\ty".to_string(), 4)]);
}
