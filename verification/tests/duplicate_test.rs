use seekrs::duplicate::{compute_md5, group_duplicates, should_hash, total_wasted};

#[test]
fn md5_hex() {
    assert_eq!(compute_md5(b"abcdefghijklmnopqrstuvwxyz"), "c3fcd3d76192e4007dfb496cca67e13b");
    assert_eq!(compute_md5(b""), "d41d8cd98f00b204e9800998ecf8427e");
    assert_eq!(compute_md5(b"a").len(), 32);
    assert!(compute_md5(b"seekrs").chars().all(|c| c.is_ascii_digit() || ('a'..='f').contains(&c)));
}

#[test]
fn hashing_skips_large_and_non_files() {
    assert!(should_hash(true, Some(52428800)));
    assert!(!should_hash(true, Some(52428801)));
    assert!(should_hash(true, None));
    assert!(!should_hash(false, Some(1)));
}

#[test]
fn grouping_by_hash() {
    let hs: Vec<String> = ["b", "a", "b", "c", "a", "b"].iter().map(|s| s.to_string()).collect();
    let groups = group_duplicates(&hs);
    assert_eq!(groups.len(), 2);
    assert_eq!(groups[0].hash, "a");
    assert_eq!(groups[0].members, vec![1, 4]);
    assert_eq!(groups[1].hash, "b");
    assert_eq!(groups[1].members, vec![0, 2, 5]);
}

#[test]
fn grouping_unique_files() {
    let hs: Vec<String> = ["x", "y", "z"].iter().map(|s| s.to_string()).collect();
    assert!(group_duplicates(&hs).is_empty());
    assert!(group_duplicates(&Vec::new()).is_empty());
}

#[test]
fn wasted_space() {
    assert_eq!(total_wasted(&vec![(100, 3), (10, 2)]), Some(210));
    assert_eq!(total_wasted(&vec![]), Some(0));
    assert_eq!(total_wasted(&vec![(u64::MAX, 2)]), Some(u64::MAX));
    assert_eq!(total_wasted(&vec![(u64::MAX, 3)]), None);
    assert_eq!(total_wasted(&vec![(u64::MAX, 2), (1, 2)]), None);
}
