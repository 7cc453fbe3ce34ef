use trellis::undo::{undo_step, Gesture, UndoHistory, UndoKind, MAX_UNDO};

#[test]
fn a_one_shot_edit_snapshots_and_ends_the_gesture() {
    let kinds = vec![UndoKind::Continuous(Gesture::Move), UndoKind::Discrete];
    assert_eq!(undo_step(Some(Gesture::Move), true, &kinds), (true, None));
}

#[test]
fn a_held_drag_snapshots_once() {
    let frame = vec![UndoKind::Untracked, UndoKind::Continuous(Gesture::Move)];
    let (first, held) = undo_step(None, true, &frame);
    assert!(first);
    assert_eq!(held, Some(Gesture::Move));
    let (second, held) = undo_step(held, true, &frame);
    assert!(!second);
    assert_eq!(held, Some(Gesture::Move));
    // Another gesture while held is a new step.
    let resize = vec![UndoKind::Continuous(Gesture::Resize)];
    assert_eq!(undo_step(held, true, &resize), (true, Some(Gesture::Resize)));
}

#[test]
fn releasing_the_pointer_ends_the_gesture() {
    let frame = vec![UndoKind::Continuous(Gesture::ColumnWidth)];
    assert_eq!(undo_step(Some(Gesture::ColumnWidth), false, &frame), (true, Some(Gesture::ColumnWidth)));
    assert_eq!(undo_step(Some(Gesture::Move), false, &vec![UndoKind::Untracked]), (false, None));
    assert_eq!(undo_step(Some(Gesture::Move), true, &vec![]), (false, Some(Gesture::Move)));
}

#[test]
fn the_last_continuous_action_names_the_gesture() {
    let frame = vec![UndoKind::Continuous(Gesture::Move), UndoKind::Continuous(Gesture::Resize)];
    assert_eq!(undo_step(Some(Gesture::Move), true, &frame), (true, Some(Gesture::Resize)));
}

#[test]
fn the_history_keeps_the_newest_forty() {
    let mut h: UndoHistory<u32> = UndoHistory::new();
    for i in 0..45u32 {
        h.push_undo(1, i);
    }
    assert_eq!(h.undo.len(), MAX_UNDO);
    assert_eq!(h.undo[0], (1, 5));
    assert_eq!(h.undo[MAX_UNDO - 1], (1, 44));
}

#[test]
fn an_edit_drops_the_redo_side() {
    let mut h: UndoHistory<&str> = UndoHistory::new();
    h.push_undo(1, "a");
    let got = h.take_undo(&vec![1]);
    assert_eq!(got, Some((1, "a")));
    h.record_redo(1, "b");
    assert_eq!(h.redo.len(), 1);
    h.push_undo(1, "c");
    assert!(h.redo.is_empty());
    assert_eq!(h.undo, vec![(1, "c")]);
}

#[test]
fn undo_skips_snapshots_of_removed_nodes() {
    let mut h: UndoHistory<&str> = UndoHistory::new();
    h.push_undo(1, "one");
    h.push_undo(2, "two");
    h.push_undo(3, "three");
    // Node 3 is gone: its snapshot is dropped and node 2's is handed out.
    assert_eq!(h.take_undo(&vec![1, 2]), Some((2, "two")));
    assert_eq!(h.undo, vec![(1, "one")]);
    // Nothing alive: the undo side empties.
    assert_eq!(h.take_undo(&vec![]), None);
    assert!(h.undo.is_empty());
}

#[test]
fn redo_gives_back_what_undo_replaced() {
    let mut h: UndoHistory<&str> = UndoHistory::new();
    h.push_undo(7, "before");
    let (node, snap) = h.take_undo(&vec![7]).unwrap();
    assert_eq!((node, snap), (7, "before"));
    h.record_redo(node, "after");
    let (node, back) = h.take_redo(&vec![7]).unwrap();
    assert_eq!((node, back), (7, "after"));
    h.record_undo(node, "before");
    assert_eq!(h.undo, vec![(7, "before")]);
    assert!(h.redo.is_empty());
    h.clear();
    assert!(h.undo.is_empty() && h.redo.is_empty());
}
