use trellis::history::{
    document_text, encode_document, format_stamp, history_dir, history_dir_name,
    history_gap_setting, history_keep_setting, history_victims, newest_first, snapshot_due,
    snapshot_readable,
};

#[test]
fn format_stamp_is_human_readable() {
    // Stamps are UTC on disk and shown in local time, so the expectation is
    // computed the same way rather than hard-coded to one machine's zone.
    let naive =
        chrono::NaiveDateTime::parse_from_str("20260730-142530", "%Y%m%d-%H%M%S").unwrap();
    let want = chrono::TimeZone::from_utc_datetime(&chrono::Utc, &naive)
        .with_timezone(&chrono::Local)
        .format("%Y-%m-%d %H:%M:%S")
        .to_string();
    assert_eq!(format_stamp("20260730-142530.ron.gz"), want);
    assert_eq!(format_stamp("weird-name"), "weird-name");
}

#[test]
fn history_lives_beside_the_document() {
    assert_eq!(history_dir_name("Notes.ron"), ".Notes.ron.history");
    assert_eq!(history_dir("/home/u/Notes.ron"), Some("/home/u/.Notes.ron.history".to_string()));
    assert_eq!(history_dir("Notes.ron"), Some(".Notes.ron.history".to_string()));
    assert_eq!(history_dir("/"), None);
}

#[test]
fn snapshots_list_newest_first() {
    let names: Vec<String> = vec![
        "20260101-000000.ron.gz".into(),
        "readme.txt".into(),
        "20260103-000000.ron.gz".into(),
        ".gz".into(),
        "20260102-000000.ron.gz".into(),
    ];
    assert_eq!(
        newest_first(&names),
        vec![
            "20260103-000000.ron.gz".to_string(),
            "20260102-000000.ron.gz".to_string(),
            "20260101-000000.ron.gz".to_string(),
        ]
    );
}

#[test]
fn the_newest_snapshot_always_survives() {
    let nf: Vec<String> = vec!["c".into(), "b".into(), "a".into()];
    assert_eq!(history_victims(&nf, 2), vec!["a".to_string()]);
    assert_eq!(history_victims(&nf, 0), vec!["b".to_string(), "a".to_string()]);
    assert!(history_victims(&nf, 3).is_empty());
}

#[test]
fn snapshots_wait_for_the_gap() {
    assert!(snapshot_due(None, 600));
    assert!(!snapshot_due(Some(10), 600));
    assert!(snapshot_due(Some(600), 600));
}

#[test]
fn a_saved_document_reads_back() {
    let z = encode_document("hello — world").unwrap();
    assert_eq!(&z[..2], &[0x1f, 0x8b]);
    assert_ne!(z, "hello — world".as_bytes());
    assert_eq!(document_text(&z), Ok("hello — world".to_string()));
}

#[test]
fn old_plain_text_documents_still_load() {
    assert_eq!(document_text(b"(plain)"), Ok("(plain)".to_string()));
    assert!(document_text(&[0xff, 0xfe, 0x00]).is_err());
    assert!(document_text(&[0x1f, 0x8b, 0x00]).is_err());
}

#[test]
fn history_settings_are_read_and_clamped() {
    assert_eq!(history_keep_setting(None), 25);
    assert_eq!(history_keep_setting(Some("7")), 7);
    assert_eq!(history_keep_setting(Some("+5")), 5);
    assert_eq!(history_keep_setting(Some("0")), 1);
    assert_eq!(history_keep_setting(Some("500")), 100);
    assert_eq!(history_keep_setting(Some("x")), 25);
    assert_eq!(history_keep_setting(Some(" 5")), 25);
    assert_eq!(history_gap_setting(None), 3);
    assert_eq!(history_gap_setting(Some("2000")), 1440);
    assert_eq!(history_gap_setting(Some("0")), 1);
    assert_eq!(history_gap_setting(Some("60")), 60);
    assert_eq!(history_gap_setting(Some("99999999999999999999")), 3);
}

#[test]
fn snapshot_readable_accepts_gzip_and_refuses_plain_bytes() {
    let z = encode_document("a snapshot").unwrap();
    assert!(snapshot_readable(&z));
    assert!(!snapshot_readable(b"plain text, not gzip"));
    assert!(!snapshot_readable(&[]));
    // A gzip stream of nothing decompresses to no bytes: not a snapshot.
    let empty = encode_document("").unwrap();
    assert!(!snapshot_readable(&empty));
    // The gzip header alone yields no bytes.
    assert!(!snapshot_readable(&z[..10]));
}

#[test]
fn format_stamp_shows_the_utc_time_within_a_day() {
    let label = format_stamp("20260730-142530.ron.gz");
    assert_eq!(label.len(), 19);
    assert!(
        label.starts_with("2026-07-29 ")
            || label.starts_with("2026-07-30 ")
            || label.starts_with("2026-07-31 ")
    );
    // Zones are whole minutes from UTC today, so the seconds stay as stamped.
    assert!(label.ends_with(":30"));
    // A leap second keeps its 60.
    assert!(format_stamp("20261231-235960.ron.gz").ends_with(":60"));
    // A stamp with extra text after it does not parse.
    assert_eq!(format_stamp("20260730-142530x.ron.gz"), "20260730-142530x.ron.gz");
}
