use trellis::names::project_color;
use trellis::names::{
    api_status_line, card_gone, card_kind_label, doc_display_name, download_image_name,
    export_basename, pick_exe,
    window_title, CardKind, Placement, Theme,
};

#[test]
fn download_name_keeps_stored_name_and_extension() {
    assert_eq!(download_image_name("photo.jpg", 0), "photo.jpg");
    assert_eq!(download_image_name("scan.PNG", 3), "scan.PNG");
}

#[test]
fn download_name_falls_back_for_nameless_images() {
    assert_eq!(download_image_name("", 0), "image-1.png");
    assert_eq!(download_image_name("   ", 4), "image-5.png");
}

#[test]
fn restart_finds_the_replacement_binary_not_the_deleted_inode() {
    let live = "/opt/trellis/trellis";
    let here = |p: &str| p == live;

    // The reported case: upgraded under a running process.
    assert_eq!(
        pick_exe(Some("/opt/trellis/trellis (deleted)".into()), None, here),
        Some("/opt/trellis/trellis".to_string()),
        "the new build at the same path was not found"
    );
    // A path that genuinely ends in that text is not mangled into nothing:
    // strip, find nothing there, fall back to argv[0].
    assert_eq!(
        pick_exe(
            Some("/gone/trellis (deleted)".into()),
            Some("/opt/trellis/trellis".into()),
            here,
        ),
        Some("/opt/trellis/trellis".to_string())
    );
    // Ordinary case: current_exe wins and argv[0] is never consulted.
    assert_eq!(
        pick_exe(Some("/opt/trellis/trellis".into()), Some("nonsense".into()), here),
        Some("/opt/trellis/trellis".to_string())
    );
    // A bare argv[0] is a PATH lookup, not a file — never spawn it blind.
    assert_eq!(pick_exe(None, Some("trellis".into()), here), None);
    assert_eq!(pick_exe(None, None, here), None);
}

#[test]
fn themes_load_back_under_their_keys() {
    let all = [
        Theme::Trellis,
        Theme::Light,
        Theme::TerminalGreen,
        Theme::StickyNotes,
        Theme::Futuristic,
        Theme::SynthWave,
        Theme::Blueprint,
        Theme::Silkscreen,
        Theme::Phosphor,
    ];
    for t in all {
        assert!(Theme::from_key(t.key()) == t);
    }
    assert_eq!(Theme::SynthWave.key(), "SynthWave");
    assert!(Theme::from_key("no such theme") == Theme::Trellis);
}

#[test]
fn placements_round_trip_and_toggle() {
    assert_eq!(Placement::Window.as_str(), "window");
    assert_eq!(Placement::Docked.as_str(), "docked");
    assert!(Placement::from_str("window") == Placement::Window);
    assert!(Placement::from_str("docked") == Placement::Docked);
    assert!(Placement::from_str("Window") == Placement::Docked);
    assert!(Placement::Docked.toggled() == Placement::Window);
    assert!(Placement::Docked.toggled().toggled() == Placement::Docked);
    assert_eq!(Placement::Docked.label(), "⧉ Detach");
    assert_eq!(Placement::Window.label(), "⧉ Dock");
}

#[test]
fn the_api_line_says_where_it_listens() {
    assert_eq!(api_status_line(false, 8080, None), "Listening on http://127.0.0.1:8080/api");
    assert_eq!(
        api_status_line(true, 9, Some("192.168.1.5")),
        "Listening on http://192.168.1.5:9/api (LAN)"
    );
    assert_eq!(api_status_line(true, 0, None), "Listening on http://0.0.0.0:0/api (LAN)");
}

#[test]
fn documents_are_named_by_their_file() {
    assert_eq!(doc_display_name(None), "untitled");
    assert_eq!(doc_display_name(Some("/home/u/Work.ron")), "Work.ron");
    assert_eq!(doc_display_name(Some("/")), "untitled");
    assert_eq!(window_title(Some("/home/u/Work.ron")), "Work.ron — Trellis");
    assert_eq!(window_title(None), "untitled — Trellis");
}

#[test]
fn card_kinds_and_missing_cards() {
    assert_eq!(card_kind_label(&CardKind::Text), "text");
    assert_eq!(card_gone(), "card not found");
}

#[test]
fn export_names_are_safe_file_names() {
    assert_eq!(export_basename("My Card", "card"), "My Card");
    assert_eq!(export_basename("a/b:c", "card"), "a_b_c");
    assert_eq!(export_basename("  ..hidden.. ", "card"), "hidden");
    assert_eq!(export_basename("", "card"), "card");
    assert_eq!(export_basename("...", "basket"), "basket");
    assert_eq!(export_basename("é日本 v2.1", "card"), "é日本 v2.1");
    assert_eq!(export_basename("a\tb", "card"), "a_b");
    assert_eq!(export_basename("///", "card"), "___");
}

#[test]
fn projects_take_their_tag_or_a_colour_by_id() {
    assert_eq!(project_color(Some((1, 2, 3)), 5), (1, 2, 3));
    assert_eq!(project_color(None, 0), (0x5c, 0xa8, 0xe6));
    assert_eq!(project_color(None, 7), (0x9a, 0xa8, 0xb5));
    assert_eq!(project_color(None, 9), (0xe1, 0x6f, 0x6f));
    assert_eq!(project_color(None, 8), project_color(None, 16));
}
