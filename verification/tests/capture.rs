use trellis::links::{scheme_recorded, scheme_startup, SchemeStartup};
use trellis::capture::{capture_outcome, encode_png};
use trellis::links::{
    desktop_entry, desktop_exec_path, go_page, item_links, js_escape_exec, open_doc_check, LinkKind,
};

#[test]
fn a_capture_is_the_image_or_a_cancel_or_the_error() {
    assert_eq!(capture_outcome(Ok(()), Some(vec![1, 2])), Ok(vec![1, 2]));
    assert_eq!(capture_outcome(Err("no tool".into()), Some(vec![7])), Ok(vec![7]));
    assert_eq!(capture_outcome(Ok(()), Some(Vec::new())), Ok(Vec::new()));
    assert_eq!(capture_outcome(Ok(()), None), Ok(Vec::new()));
    assert_eq!(capture_outcome(Err("no tool".into()), None), Err("no tool".to_string()));
    assert_eq!(capture_outcome(Err("no tool".into()), Some(Vec::new())), Err("no tool".to_string()));
}

#[test]
fn pixels_encode_as_png() {
    let png = encode_png(&[255, 0, 0, 255, 0, 255, 0, 255], 2, 1).unwrap();
    assert_eq!(&png[..8], &[137, 80, 78, 71, 13, 10, 26, 10]);
    assert!(png.len() > 8);
    assert_eq!(encode_png(&[1, 2, 3], 1, 1), Err("bad image buffer".to_string()));
    assert_eq!(encode_png(&[], u32::MAX, u32::MAX), Err("bad image buffer".to_string()));
}

#[test]
fn the_handler_check_reads_back_the_registered_binary() {
    let entry = desktop_entry("/opt/trellis/trellis", "trellis");
    assert_eq!(
        entry,
        "[Desktop Entry]\nType=Application\nName=Trellis link handler\nExec=/opt/trellis/trellis %u\nNoDisplay=true\nTerminal=false\nMimeType=x-scheme-handler/trellis;\n"
    );
    assert_eq!(desktop_exec_path(&entry), Some("/opt/trellis/trellis".to_string()));
    assert_eq!(desktop_exec_path("[Desktop Entry]\nExec=  /usr/bin/x\r\n"), Some("/usr/bin/x".to_string()));
    assert_eq!(desktop_exec_path("Name=x\nExec= %u\nExec=/second"), None);
    assert_eq!(desktop_exec_path("no exec here"), None);
}

#[test]
fn cards_and_groups_get_their_links() {
    let c = item_links(LinkKind::Card, 4521, 7374, "Work.ron");
    assert_eq!(c.link, "trellis://127.0.0.1:7374/card/4521");
    assert_eq!(c.link_verified, "trellis://127.0.0.1:7374/card/4521?doc=Work.ron");
    assert_eq!(c.http, "http://127.0.0.1:7374/open/card/4521");
    assert_eq!(c.wikilink, None);
    let g = item_links(LinkKind::Group, 146, 80, "");
    assert_eq!(g.link, "trellis://127.0.0.1:80/group/146");
    assert_eq!(g.link_verified, "trellis://127.0.0.1:80/group/146?doc=");
    assert_eq!(g.http, "http://127.0.0.1:80/open/group/146");
    assert_eq!(g.wikilink, Some("[[#g146]]".to_string()));
}

#[test]
fn a_link_for_another_document_is_refused() {
    assert_eq!(open_doc_check("Work.ron", ""), Ok(()));
    assert_eq!(open_doc_check("Work.ron", "work.RON"), Ok(()));
    assert_eq!(
        open_doc_check("Work.ron", "Home.ron"),
        Err("this port is serving Work.ron, not Home.ron".to_string())
    );
    assert_eq!(open_doc_check("", "Work.ron"), Err("this port is serving , not Work.ron".to_string()));
    assert!(open_doc_check("É.ron", "é.ron").is_err());
}

#[test]
fn go_page_escapes_the_document_for_its_script() {
    let esc: String = js_escape_exec(r#"My "big" \ doc"#).into_iter().collect();
    assert_eq!(esc, r#"My \"big\" \\ doc"#);
    let page = go_page("card/7", r#"My "big" \ doc"#, "Plan &amp; do", "Inbox");
    assert!(page.starts_with("<!doctype html>\n<html lang=\"en\"><head>\n"));
    assert!(page.contains("<title>Open in Trellis</title>"));
    assert!(page.contains("<h1>Plan &amp; do</h1>\n<p class=\"where\">Inbox</p>\n<a class=\"go\" id=\"go\" href=\"#\">Open in Trellis</a>\n"));
    assert!(page.contains(
        r#"var url = "trellis://" + location.host + "/card/7?doc=" + encodeURIComponent("My \"big\" \\ doc");"#
    ));
    assert!(page.ends_with("</script>\n</main></body></html>\n"));
}

#[test]
fn go_page_without_a_place_has_no_subtitle() {
    let page = go_page("group/3", "Notes", "Ideas", "");
    assert!(page.contains("<h1>Ideas</h1>\n\n<a class=\"go\""));
    assert!(!page.contains("class=\"where\">"));
    assert!(page.contains("/group/3?doc=\" + encodeURIComponent(\"Notes\");"));
}

#[test]
fn a_working_link_handler_is_never_replaced() {
    assert_eq!(scheme_startup(true, true), SchemeStartup::Keep);
    assert_eq!(scheme_startup(false, false), SchemeStartup::Keep);
    assert_eq!(scheme_startup(true, false), SchemeStartup::Register);
    let kept = scheme_recorded(SchemeStartup::Keep, Some("/bin/new".into()), Some("/bin/old".into()), true);
    assert_eq!(kept.as_deref(), Some("/bin/old"));
    let done = scheme_recorded(SchemeStartup::Register, Some("/bin/new".into()), Some("/bin/old".into()), true);
    assert_eq!(done.as_deref(), Some("/bin/new"));
    assert_eq!(scheme_recorded(SchemeStartup::Register, Some("/bin/new".into()), None, false), None);
}
