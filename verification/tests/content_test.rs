use seekrs::content::{looks_binary, search_file_content_buffered, search_file_content_checked, lines_fit, snippet, snippet_cut_ok, ContentScan};
use seekrs::cli::Args;
use seekrs::search::build_search_config;

fn lines(v: &[&str]) -> Vec<String> {
    v.iter().map(|s| s.to_string()).collect()
}

#[test]
fn content_finds_matching_lines() {
    let ls = lines(&["hello\n", "TODO: fix this\n", "nothing\n"]);
    let r = search_file_content_buffered(b"hello", &ls, "todo", None);
    assert_eq!(r, Some("L2: TODO: fix this".to_string()));
}

#[test]
fn content_reports_at_most_three() {
    let ls = lines(&["a x\n", "b x\n", "c\n", "d x\n", "e x\n"]);
    let r = search_file_content_buffered(b"", &ls, "x", None);
    assert_eq!(r, Some("L1: a x | L2: b x | L4: d x".to_string()));
}

#[test]
fn content_no_match_and_binary() {
    let ls = lines(&["alpha\n", "beta"]);
    assert_eq!(search_file_content_buffered(b"alpha", &ls, "gamma", None), None);
    let mut head = vec![b'a'; 600];
    head[511] = 0;
    assert!(looks_binary(&head));
    assert_eq!(search_file_content_buffered(&head, &lines(&["alpha\n"]), "alpha", None), None);
    let mut late = vec![b'a'; 600];
    late[512] = 0;
    assert!(!looks_binary(&late));
}

#[test]
fn content_with_regex() {
    let args = Args {
        dir: ".".to_string(),
        name: None,
        fuzzy: false,
        regex: None,
        content: Some(r"async fn \w+".to_string()),
        content_regex: true,
        preview: 0,
        ext: vec![],
        files_only: false,
        dirs_only: false,
        size_min: None,
        size_max: None,
        after: None,
        before: None,
        tree: false,
        duplicates: false,
        open: None,
        limit: 0,
        sort: "name".to_string(),
        upgrade: false,
    };
    let (config, _) = build_search_config(&args);
    let re = config.content_regex.as_ref();
    assert!(re.is_some());
    let ls = lines(&["fn main() {}\n", "pub async fn run() {}\n", "ASYNC FN upper() {}\n"]);
    let r = search_file_content_buffered(b"", &ls, "async fn \\w+", re);
    assert_eq!(r, Some("L2: pub async fn run() {}".to_string()));
}

#[test]
fn snippet_trims_and_cuts() {
    assert_eq!(snippet("value   \r\n"), "value");
    let long = "x".repeat(100);
    assert_eq!(snippet(&long), format!("{}…", "x".repeat(80)));
    let exact = "y".repeat(80);
    assert_eq!(snippet(&exact), exact);
    let wide = format!("{}é{}", "a".repeat(79), "b".repeat(10));
    assert!(!snippet_cut_ok(&wide));
    assert!(snippet_cut_ok(&long));
}

#[test]
fn scan_stops_after_three() {
    let mut scan = ContentScan::new();
    assert!(scan.feed_line("hit 1\n", "hit", None));
    assert!(scan.feed_line("miss\n", "hit", None));
    assert!(scan.feed_line("HIT 2\n", "hit", None));
    assert!(!scan.feed_line("hit 3\n", "hit", None));
    assert_eq!(scan.finish(), Some("L1: hit 1 | L3: HIT 2 | L4: hit 3".to_string()));
    assert_eq!(ContentScan::new().finish(), None);
}

#[test]
fn checked_search_refuses_lines_cut_inside_a_character() {
    let long = format!("{}é tail x\n", "a".repeat(79));
    let ls = lines(&["x first\n", &long]);
    assert!(!lines_fit(&ls, "x", None));
    assert_eq!(search_file_content_checked(b"", &ls, "x", None), None);
    // a binary head never reads the lines
    assert_eq!(search_file_content_checked(&[0u8], &ls, "x", None), Some(None));
    assert_eq!(search_file_content_buffered(&[0u8], &ls, "x", None), None);
    // the bad line comes after three reports: never shown
    let late = lines(&["x1\n", "x2\n", "x3\n", &long]);
    assert!(lines_fit(&late, "x", None));
    assert_eq!(search_file_content_checked(b"", &late, "x", None), Some(Some("L1: x1 | L2: x2 | L3: x3".to_string())));
    let fine = lines(&["no\n", "yes x\n"]);
    assert_eq!(search_file_content_checked(b"", &fine, "x", None), Some(Some("L2: yes x".to_string())));
}

#[test]
fn feed_checked_leaves_scan_alone_on_bad_line() {
    let long = format!("{}é x\n", "a".repeat(79));
    let mut scan = ContentScan::new();
    assert_eq!(scan.feed_checked("x ok\n", "x", None), Some(true));
    assert_eq!(scan.feed_checked(&long, "x", None), None);
    assert_eq!(scan.lines_read, 1);
    assert_eq!(scan.feed_checked("plain\n", "x", None), Some(true));
    assert_eq!(scan.finish(), Some("L1: x ok".to_string()));
}
