use trellis::switcher::{
    switcher_rows, switcher_rows_checked, CardEntry, GroupEntry, NodeEntry, SwitcherHit,
};

fn node(id: u64, title: &str, path: &str) -> NodeEntry {
    NodeEntry { id, title: title.into(), path: path.into() }
}

fn card(node: u64, id: u64, title: &str, body: &str, path: &str) -> CardEntry {
    CardEntry { node, id, title: title.into(), body: body.into(), path: path.into() }
}

fn rows(r: &[SwitcherHit]) -> Vec<(u64, Option<u64>, Option<u64>, String, i32)> {
    r.iter().map(|h| (h.node, h.card, h.group, h.label.clone(), h.score)).collect()
}

#[test]
fn an_exact_id_is_the_first_row() {
    let nodes = vec![node(2, "2026 plans", "2026 plans"), node(12, "Inbox", "Inbox")];
    let cards = vec![card(12, 2, "", "first line\nmore", "Inbox")];
    let r = switcher_rows("2", &nodes, &cards, &vec![]);
    let got = rows(&r);
    assert_eq!(got[0], (2, None, None, "2026 plans".to_string(), i32::MIN));
    assert_eq!(got[1], (12, Some(2), None, "first line".to_string(), i32::MIN + 1));
    assert_eq!(got.len(), 2);
}

#[test]
fn groups_are_found_by_their_g_id() {
    let nodes = vec![node(1, "Home", "Home")];
    let groups = vec![GroupEntry { node: 1, id: 146, title: "  ".into(), path: "Home".into() }];
    let r = switcher_rows("G146", &nodes, &vec![], &groups);
    assert_eq!(rows(&r), vec![(1, None, Some(146), "(untitled group)".to_string(), i32::MIN + 1)]);
}

#[test]
fn card_titles_rank_after_every_basket() {
    let nodes = vec![node(1, "Weekly review", "Work / Weekly review"), node(3, "Other", "Other")];
    let cards = vec![
        card(3, 10, "review notes", "", "Other"),
        card(3, 11, "", "review in the body only", "Other"),
    ];
    let r = switcher_rows("Review", &nodes, &cards, &vec![]);
    let got = rows(&r);
    assert_eq!(got.len(), 2);
    assert_eq!(got[0].0, 1);
    assert_eq!(got[0].4, 7);
    assert_eq!(got[1], (3, Some(10), None, "review notes".to_string(), 10_000));
}

#[test]
fn ties_go_to_the_shorter_path_then_the_label() {
    let nodes = vec![
        node(1, "plan b", "Longer / plan b"),
        node(2, "plan c", "plan c"),
        node(3, "plan a", "plan a"),
    ];
    let r = switcher_rows("plan", &nodes, &vec![], &vec![]);
    let ids: Vec<u64> = r.iter().map(|h| h.id).collect();
    assert_eq!(ids, vec![3, 2, 1]);
}

#[test]
fn at_most_fifty_rows_are_offered() {
    let nodes: Vec<NodeEntry> = (0..60).map(|i| node(1000 + i, &format!("n{i}"), "p")).collect();
    let r = switcher_rows("", &nodes, &vec![], &vec![]);
    assert_eq!(r.len(), 50);
    assert!(r.iter().all(|h| h.score == 1000));
    assert_eq!(r[0].label, "n0");
    let checked = switcher_rows_checked("", &nodes, &vec![], &vec![]).unwrap();
    assert_eq!(checked.len(), 50);
}
