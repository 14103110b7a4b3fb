use seekrs::cli::Args;
use seekrs::search::{
    build_search_config, chunk_bounds, make_result, result_order, screen_entry, shown_count, skips_entry,
    sort_mode, thread_count, EntryInfo, Screening, SearchResult, SortMode,
};

fn args() -> Args {
    Args {
        dir: ".".to_string(),
        name: None,
        fuzzy: false,
        regex: None,
        content: None,
        content_regex: false,
        preview: 0,
        ext: vec![],
        files_only: false,
        dirs_only: false,
        size_min: None,
        size_max: None,
        after: None,
        before: None,
        tree: false,
        duplicates: false,
        open: None,
        limit: 0,
        sort: "name".to_string(),
        upgrade: false,
    }
}

fn entry(path: &str, name: &str, is_dir: bool, size: u64) -> EntryInfo {
    EntryInfo {
        path: path.to_string(),
        file_name: name.to_string(),
        is_dir,
        size: Some(size),
        modified_date: Some((2025, 4, 18)),
        modified_text: Some("2025-04-18 12:32".to_string()),
        path_key: path.split('/').map(|c| {
            let mut v = vec![3u8];
            v.extend_from_slice(c.as_bytes());
            v
        }).collect(),
    }
}

fn is_keep(s: &Screening) -> bool {
    matches!(s, Screening::Keep(_))
}

fn is_reject(s: &Screening) -> bool {
    matches!(s, Screening::Reject)
}

#[test]
fn skipped_directories() {
    assert!(skips_entry(true, ".git"));
    assert!(skips_entry(true, "node_modules"));
    assert!(skips_entry(true, "target"));
    assert!(!skips_entry(false, "target"));
    assert!(!skips_entry(true, "src"));
    assert!(!skips_entry(true, "Target"));
}

#[test]
fn config_parses_sizes_and_regex() {
    let mut a = args();
    a.size_min = Some("1KB".to_string());
    a.size_max = Some("bogus".to_string());
    a.regex = Some("(".to_string());
    a.content = Some("TODO".to_string());
    let (c, err) = build_search_config(&a);
    assert_eq!(c.size_min, Some(1024));
    assert_eq!(c.size_max, None);
    assert!(c.name_regex.is_none());
    assert!(err.is_some());
    assert_eq!(c.content_query_lower, Some("todo".to_string()));
    assert!(c.content_regex.is_none());
}

#[test]
fn screening_name_and_filters() {
    let mut a = args();
    a.name = Some("*.rs".to_string());
    a.ext = vec!["rs".to_string()];
    let (c, _) = build_search_config(&a);
    assert!(is_keep(&screen_entry(&c, &entry("./src/main.rs", "main.rs", false, 791))));
    assert!(is_reject(&screen_entry(&c, &entry("./README.md", "README.md", false, 10))));
    let mut broken = entry("./src/lib.rs", "lib.rs", false, 1);
    broken.size = None;
    assert!(is_reject(&screen_entry(&c, &broken)));
}

#[test]
fn screening_types_and_sizes() {
    let mut a = args();
    a.files_only = true;
    a.size_min = Some("1KB".to_string());
    let (c, _) = build_search_config(&a);
    assert!(is_reject(&screen_entry(&c, &entry("./src", "src", true, 4096))));
    assert!(is_reject(&screen_entry(&c, &entry("./a.txt", "a.txt", false, 1023))));
    assert!(is_keep(&screen_entry(&c, &entry("./b.txt", "b.txt", false, 1024))));
    let mut d = args();
    d.dirs_only = true;
    let (c2, _) = build_search_config(&d);
    assert!(is_keep(&screen_entry(&c2, &entry("./src", "src", true, 4096))));
    assert!(is_reject(&screen_entry(&c2, &entry("./b.txt", "b.txt", false, 1024))));
}

#[test]
fn screening_content_and_fuzzy() {
    let mut a = args();
    a.content = Some("TODO".to_string());
    let (c, _) = build_search_config(&a);
    assert!(matches!(screen_entry(&c, &entry("./a.rs", "a.rs", false, 10)), Screening::ScanContent(0)));
    assert!(matches!(screen_entry(&c, &entry("./mid.log", "mid.log", false, 10485761)), Screening::ScanContent(0)));
    assert!(matches!(screen_entry(&c, &entry("./edge.log", "edge.log", false, 52428800)), Screening::ScanContent(0)));
    assert!(is_reject(&screen_entry(&c, &entry("./big.log", "big.log", false, 52428801))));
    assert!(is_keep(&screen_entry(&c, &entry("./src", "src", true, 0))));
    let mut f = args();
    f.name = Some("mrs".to_string());
    f.fuzzy = true;
    let (cf, _) = build_search_config(&f);
    match screen_entry(&cf, &entry("./main.rs", "main.rs", false, 1)) {
        Screening::Keep(score) => assert!(score > 0),
        _ => panic!("fuzzy match expected"),
    }
    assert!(is_reject(&screen_entry(&cf, &entry("./zzz", "zzz", false, 1))));
}

#[test]
fn screening_name_regex() {
    let mut a = args();
    a.regex = Some(r"^test_.*\.py$".to_string());
    let (c, err) = build_search_config(&a);
    assert!(err.is_none());
    assert!(is_keep(&screen_entry(&c, &entry("./test_a.py", "test_a.py", false, 1))));
    assert!(is_reject(&screen_entry(&c, &entry("./a_test.py", "a_test.py", false, 1))));
}

fn result(path: &str, size: u64, modified: Option<&str>, score: i64) -> SearchResult {
    let e = entry(path, "", false, size);
    let mut r = make_result(e, None, score);
    r.modified = modified.map(|m| m.to_string());
    r
}

#[test]
fn result_ordering() {
    let rs = vec![
        result("./b", 10, Some("2025-01-02 00:00"), 5),
        result("./a", 30, None, 9),
        result("./c", 30, Some("2025-03-01 10:00"), 5),
    ];
    assert_eq!(result_order(&rs, "size", false), vec![1, 2, 0]);
    assert_eq!(result_order(&rs, "date", false), vec![2, 0, 1]);
    assert_eq!(result_order(&rs, "name", false), vec![1, 0, 2]);
    assert_eq!(result_order(&rs, "name", true), vec![1, 0, 2]);
    assert_eq!(result_order(&rs, "whatever", false), vec![1, 0, 2]);
    assert!(matches!(sort_mode("size", true), SortMode::Size));
    assert!(matches!(sort_mode("name", true), SortMode::Score));
}

#[test]
fn path_order_is_by_component() {
    let rs = vec![result("./a-b", 1, None, 0), result("./a/b", 1, None, 0)];
    assert_eq!(result_order(&rs, "name", false), vec![1, 0]);
}

#[test]
fn limits_and_chunks() {
    assert_eq!(shown_count(10, 0), 10);
    assert_eq!(shown_count(10, 3), 3);
    assert_eq!(shown_count(2, 3), 2);
    assert_eq!(thread_count(Some(16)), 8);
    assert_eq!(thread_count(Some(2)), 2);
    assert_eq!(thread_count(None), 4);
    assert_eq!(chunk_bounds(0, 4, 10), Some((0, 2)));
    assert_eq!(chunk_bounds(3, 4, 10), Some((6, 10)));
    assert_eq!(chunk_bounds(2, 8, 3), Some((2, 3)));
    assert_eq!(chunk_bounds(3, 8, 3), None);
    let mut seen = vec![0u32; 37];
    for i in 0..8 {
        if let Some((a, b)) = chunk_bounds(i, 8, 37) {
            for k in a..b {
                seen[k] += 1;
            }
        } else {
            break;
        }
    }
    assert!(seen.iter().all(|&n| n == 1));
}

#[test]
fn chunks_rebuild_all_entries_in_order() {
    for total in [0usize, 1, 3, 7, 8, 9, 37, 100] {
        for workers in 1..=8usize {
            let mut joined: Vec<usize> = Vec::new();
            for i in 0..workers {
                match chunk_bounds(i, workers, total) {
                    Some((a, b)) => joined.extend(a..b),
                    None => break,
                }
            }
            assert_eq!(joined, (0..total).collect::<Vec<_>>());
        }
    }
}
