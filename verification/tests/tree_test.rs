use seekrs::tree::{get_icon, plan_listing, tree_depth_ok, TreeEntry};
use seekrs::preview::{preview_cut_ok, preview_line, preview_lines};

fn te(path: &str, name: &str, is_dir: bool, size: Option<u64>) -> TreeEntry {
    TreeEntry {
        path: path.to_string(),
        name: Some(name.to_string()),
        name_bytes: name.as_bytes().to_vec(),
        is_dir,
        size,
    }
}

#[test]
fn tree_listing_order_and_connectors() {
    let entries = vec![
        te("r/zeta.rs", "zeta.rs", false, Some(10)),
        te("r/src", "src", true, None),
        te("r/.git", ".git", true, None),
        te("r/Cargo.toml", "Cargo.toml", false, Some(2048)),
        te("r/docs", "docs", true, None),
    ];
    let lines = plan_listing(&entries, "", &[]);
    let labels: Vec<&str> = lines.iter().map(|l| l.label.as_str()).collect();
    assert_eq!(labels, vec!["📁 docs/", "📁 src/", "⚙️  Cargo.toml", "🦀 zeta.rs"]);
    let connectors: Vec<&str> = lines.iter().map(|l| l.connector).collect();
    assert_eq!(connectors, vec!["├── ", "├── ", "├── ", "└── "]);
    assert_eq!(lines[3].child_prefix, "    ");
    assert_eq!(lines[0].child_prefix, "│   ");
    assert_eq!(lines[2].size_text, "2.0KB");
    assert_eq!(lines[0].entry, 4);
}

#[test]
fn tree_extension_filter_keeps_dirs() {
    let entries = vec![
        te("r/a.md", "a.md", false, Some(1)),
        te("r/b.rs", "b.rs", false, Some(1)),
        te("r/sub", "sub", true, None),
        te("r/Makefile", "Makefile", false, Some(1)),
    ];
    let lines = plan_listing(&entries, "│   ", &["RS".to_string()]);
    let labels: Vec<&str> = lines.iter().map(|l| l.label.as_str()).collect();
    assert_eq!(labels, vec!["📁 sub/", "🦀 b.rs"]);
    assert_eq!(lines[1].connector, "└── ");
    assert_eq!(lines[0].child_prefix, "│   │   ");
    let none = plan_listing(&entries, "", &["".to_string()]);
    let l2: Vec<&str> = none.iter().map(|l| l.label.as_str()).collect();
    assert_eq!(l2, vec!["📁 sub/", "📄 Makefile"]);
}

#[test]
fn tree_depth_and_icons() {
    assert!(tree_depth_ok(10));
    assert!(!tree_depth_ok(11));
    assert_eq!(get_icon("x/Cargo.lock"), "🔒");
    assert_eq!(get_icon("x/page.htm"), "📄");
    assert_eq!(get_icon("x/noext"), "📄");
}

#[test]
fn preview_cuts_long_lines() {
    assert_eq!(preview_line("short"), "short");
    let long = "z".repeat(60);
    assert_eq!(preview_line(&long), format!("{}…", "z".repeat(52)));
    assert!(!preview_cut_ok(&format!("{}ü", "a".repeat(51))));
    let ls: Vec<String> = vec!["one".into(), "two".into(), "three".into()];
    assert_eq!(preview_lines(&ls, 2), vec!["one".to_string(), "two".to_string()]);
    assert_eq!(preview_lines(&ls, 10).len(), 3);
    assert!(preview_lines(&Vec::new(), 5).is_empty());
}
