use audio_core::{get_recording_metadata, list_recordings, StoreEntry};

fn file(name: &str) -> StoreEntry {
    StoreEntry { name: Some(name.to_string()), is_file: true }
}

#[test]
fn listing_is_descending_by_name() {
    let entries = vec![file("rec_100.wav"), file("rec_300.wav"), file("rec_200.wav")];
    assert_eq!(list_recordings(&entries), vec!["rec_300.wav", "rec_200.wav", "rec_100.wav"]);
}

#[test]
fn listing_order_ignores_insertion_order() {
    let a = vec![file("b"), file("a"), file("c"), file("ab")];
    let b = vec![file("ab"), file("c"), file("b"), file("a")];
    let expected = vec!["c", "b", "ab", "a"];
    assert_eq!(list_recordings(&a), expected);
    assert_eq!(list_recordings(&b), expected);
}

#[test]
fn listing_keeps_regular_files_only() {
    let entries = vec![
        file("x.wav"),
        StoreEntry { name: Some("subdir".to_string()), is_file: false },
        StoreEntry { name: None, is_file: true },
        file("y.wav"),
    ];
    assert_eq!(list_recordings(&entries), vec!["y.wav", "x.wav"]);
}

#[test]
fn empty_store_lists_nothing() {
    assert!(list_recordings(&Vec::new()).is_empty());
}

#[test]
fn listing_orders_by_bytes() {
    let entries = vec![file("Zeta"), file("alpha"), file("\u{e9}t\u{e9}"), file("beta")];
    assert_eq!(list_recordings(&entries), vec!["\u{e9}t\u{e9}", "beta", "alpha", "Zeta"]);
}

#[test]
fn listing_is_strictly_descending() {
    let entries = vec![file("q"), file("qq"), file("p"), file("r"), file("q0")];
    let names = list_recordings(&entries);
    assert_eq!(names.len(), 5);
    for w in names.windows(2) {
        assert!(w[0] > w[1]);
    }
}

#[test]
fn info_of_saved_size() {
    let info = get_recording_metadata("x.wav", 2048, 0);
    assert_eq!(info.filename, "x.wav");
    assert_eq!(info.size_bytes, 2048);
    assert_eq!(info.size_bytes as f64 / 1024.0, 2.0);
}

#[test]
fn info_renders_utc_date() {
    let info = get_recording_metadata("a.wav", 1, 1_700_000_000);
    assert_eq!(info.created_timestamp, 1_700_000_000);
    assert_eq!(info.created_date, "2023-11-14 22:13:20 UTC");
    let epoch = get_recording_metadata("a.wav", 1, 0);
    assert_eq!(epoch.created_date, "1970-01-01 00:00:00 UTC");
}

#[test]
fn info_date_at_the_last_renderable_second() {
    let info = get_recording_metadata("a.wav", 1, 8_210_266_876_799);
    assert_ne!(info.created_date, "Unknown");
    assert!(info.created_date.ends_with("12-31 23:59:59 UTC"));
}

#[test]
fn info_date_out_of_range_is_unknown() {
    assert_eq!(get_recording_metadata("a.wav", 1, 8_210_266_876_800).created_date, "Unknown");
    assert_eq!(get_recording_metadata("a.wav", 1, u64::MAX).created_date, "Unknown");
    assert_eq!(get_recording_metadata("a.wav", 1, 1u64 << 63).created_date, "Unknown");
}
