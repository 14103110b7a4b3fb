use seekrs::display::{format_size, format_size_tree, fuzzy_bar_len, get_file_icon, plural_suffix};

fn reference(bytes: u64) -> String {
    if bytes < 1024 {
        format!("{}B", bytes)
    } else if bytes < 1024 * 1024 {
        format!("{:.1}KB", bytes as f64 / 1024.0)
    } else if bytes < 1024 * 1024 * 1024 {
        format!("{:.1}MB", bytes as f64 / (1024.0 * 1024.0))
    } else {
        format!("{:.2}GB", bytes as f64 / (1024.0 * 1024.0 * 1024.0))
    }
}

fn reference_tree(bytes: u64) -> String {
    if bytes < 1024 {
        format!("{}B", bytes)
    } else if bytes < 1024 * 1024 {
        format!("{:.1}KB", bytes as f64 / 1024.0)
    } else {
        format!("{:.1}MB", bytes as f64 / (1024.0 * 1024.0))
    }
}

#[test]
fn format_size_examples() {
    assert_eq!(format_size(0), "0B");
    assert_eq!(format_size(1023), "1023B");
    assert_eq!(format_size(1024), "1.0KB");
    assert_eq!(format_size(1536), "1.5KB");
    assert_eq!(format_size(8601), "8.4KB");
    assert_eq!(format_size(1048576), "1.0MB");
    assert_eq!(format_size(1073741824), "1.00GB");
    assert_eq!(format_size_tree(1073741824), "1024.0MB");
    assert_eq!(format_size_tree(791), "791B");
}

#[test]
fn format_size_agrees_with_float_formatting() {
    let mut samples: Vec<u64> = (0..100_000u64).collect();
    for k in 0..64u32 {
        let p = 1u64 << k;
        for d in [0u64, 1, 2, 3, 51, 52, 102, 512, 1000] {
            samples.push(p.wrapping_add(d));
            samples.push(p.wrapping_sub(d));
        }
    }
    let mut x: u64 = 0x9E37_79B9_7F4A_7C15;
    for _ in 0..50_000 {
        x ^= x << 13;
        x ^= x >> 7;
        x ^= x << 17;
        samples.push(x);
        samples.push(x >> 20);
        samples.push(x >> 34);
        samples.push(x >> 44);
    }
    samples.push(u64::MAX);
    for b in samples {
        assert_eq!(format_size(b), reference(b), "bytes = {}", b);
        assert_eq!(format_size_tree(b), reference_tree(b), "bytes = {}", b);
    }
}

#[test]
fn icons() {
    assert_eq!(get_file_icon("src/main.rs", false), "🦀");
    assert_eq!(get_file_icon("a/b.py", false), "🐍");
    assert_eq!(get_file_icon("x.TS", false), "📄");
    assert_eq!(get_file_icon("src", true), "📁");
    assert_eq!(get_file_icon("src", false), "📄");
    assert_eq!(get_file_icon("archive.tar", false), "📦");
    assert_eq!(get_file_icon("dir.d", true), "📄");
}

#[test]
fn fuzzy_bar_and_plural() {
    assert_eq!(fuzzy_bar_len(-5), 0);
    assert_eq!(fuzzy_bar_len(9), 0);
    assert_eq!(fuzzy_bar_len(55), 5);
    assert_eq!(fuzzy_bar_len(100), 10);
    assert_eq!(fuzzy_bar_len(250), 10);
    assert_eq!(plural_suffix(1), "");
    assert_eq!(plural_suffix(0), "s");
    assert_eq!(plural_suffix(2), "s");
}
