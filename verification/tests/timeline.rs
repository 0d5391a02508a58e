use marker::timeline::Timeline;

#[test]
fn commit_appends_and_invalidates_redo() {
    let mut t = Timeline::new();
    assert_eq!(t.commit("overlay", "add"), 0);
    assert_eq!(t.commit("overlay-2", "add"), 1);
    assert!(t.can_undo());
    let undone = t.undo().unwrap();
    assert_eq!(undone.owner, "overlay-2");
    assert!(t.can_redo());
    // A new op after undo kills the redoable history.
    t.commit("overlay", "add");
    assert!(!t.can_redo());
}

#[test]
fn undo_pops_globally_latest_owner() {
    let mut t = Timeline::new();
    t.commit("overlay", "add"); // screen 1 stroke
    t.commit("overlay-2", "add"); // screen 2 stroke
    t.commit("overlay", "add"); // screen 1 again
    // Latest op belongs to the static overlay window.
    assert_eq!(t.undo().unwrap().owner, "overlay");
    // Then the screen-2 stroke; one op remains active.
    assert_eq!(t.undo().unwrap().owner, "overlay-2");
    assert!(t.can_undo());
    assert_eq!(t.undo().unwrap().owner, "overlay");
    assert!(!t.can_undo());
    // Redo is LIFO: the most recently undone op (overlay's last) returns
    // first, then the screen-2 stroke, then the first stroke.
    assert_eq!(t.redo().unwrap().owner, "overlay");
    assert_eq!(t.redo().unwrap().owner, "overlay-2");
    assert_eq!(t.redo().unwrap().owner, "overlay");
    assert!(!t.can_redo());
}

#[test]
fn global_clear_freezes_ops_and_single_undo_restores_order() {
    let mut t = Timeline::new();
    t.commit("overlay", "add");
    t.commit("overlay-2", "add");
    t.commit("overlay", "erase");
    let clear = t.begin_global_clear().unwrap();
    // Everything folded into one op owned by nobody (broadcast on undo).
    assert_eq!(clear.owner, "");
    assert_eq!(clear.kind, "clear");
    assert_eq!(clear.frozen.len(), 3);
    assert!(t.can_undo());
    assert!(!t.can_redo());

    // Undo of the clear restores the frozen ops in commit order.
    let popped = t.undo().unwrap();
    assert_eq!(popped.op_id, clear.op_id);
    assert!(!t.can_undo() || t.active_ops().len() == 3);
    assert_eq!(
        t.active_ops()
            .iter()
            .map(|op| op.kind.as_str())
            .collect::<Vec<_>>(),
        vec!["add", "add", "erase"]
    );
    assert_eq!(
        t.active_ops()
            .iter()
            .map(|op| op.owner.as_str())
            .collect::<Vec<_>>(),
        vec!["overlay", "overlay-2", "overlay"]
    );

    // Redo re-freezes them.
    let redone = t.redo().unwrap();
    assert_eq!(redone.kind, "clear");
    assert_eq!(redone.frozen.len(), 3);
    assert_eq!(t.active_ops().len(), 1);
}

#[test]
fn global_clear_after_undo_only_keeps_active_history() {
    let mut t = Timeline::new();
    t.commit("overlay", "add");
    t.undo();
    t.commit("overlay-2", "add");
    // undone was invalidated by the second commit; clear folds only the
    // active op.
    let clear = t.begin_global_clear().unwrap();
    assert_eq!(clear.frozen.len(), 1);
    assert_eq!(clear.frozen[0].owner, "overlay-2");
}

#[test]
fn global_clear_on_empty_timeline_is_noop() {
    let mut t = Timeline::new();
    assert!(t.begin_global_clear().is_none());
    assert!(t.is_empty());
}

#[test]
fn undo_on_empty_timeline_returns_none() {
    let mut t = Timeline::new();
    assert!(t.undo().is_none());
    assert!(t.redo().is_none());
}

#[test]
fn reset_drops_everything() {
    let mut t = Timeline::new();
    t.commit("overlay", "add");
    t.undo();
    t.reset();
    assert!(t.is_empty());
    assert!(!t.can_undo());
    assert!(!t.can_redo());
}

// ---- laws on concrete values -------------------------------------------

fn summary(t: &Timeline) -> (Vec<(u64, String, String, usize)>, Vec<(u64, String, String, usize)>) {
    let f = |ops: &Vec<marker::timeline::TimelineOp>| {
        ops.iter()
            .map(|op| (op.op_id, op.owner.clone(), op.kind.clone(), op.frozen.len()))
            .collect::<Vec<_>>()
    };
    (f(t.active_ops()), f(t.undone_ops()))
}

#[test]
fn undo_then_redo_gives_back_the_same_timeline() {
    let mut t = Timeline::new();
    t.commit("overlay", "add");
    t.commit("overlay-2", "add");
    t.undo();
    let before = summary(&t);
    let undone = t.undo().unwrap();
    let redone = t.redo().unwrap();
    assert_eq!(undone.op_id, redone.op_id);
    assert_eq!(summary(&t), before);
}

#[test]
fn redo_then_undo_gives_back_the_same_timeline() {
    let mut t = Timeline::new();
    t.commit("overlay", "add");
    t.commit("overlay-2", "add");
    t.begin_global_clear();
    t.undo();
    let before = summary(&t);
    let redone = t.redo().unwrap();
    assert_eq!(redone.kind, "clear");
    let undone = t.undo().unwrap();
    assert_eq!(undone.op_id, redone.op_id);
    assert_eq!(summary(&t), before);
}

#[test]
fn nested_clears_unfold_one_level_per_undo() {
    let mut t = Timeline::new();
    t.commit("overlay", "add");
    let first = t.begin_global_clear().unwrap();
    t.commit("overlay-2", "add");
    let second = t.begin_global_clear().unwrap();
    assert_eq!(second.frozen.len(), 2);
    assert_eq!(second.frozen[0].op_id, first.op_id);
    // Undo the second clear: the first clear and the later stroke come back.
    assert_eq!(t.undo().unwrap().op_id, second.op_id);
    assert_eq!(t.active_ops().len(), 2);
    // Undo the stroke, then the first clear: the very first stroke is back.
    assert_eq!(t.undo().unwrap().owner, "overlay-2");
    assert_eq!(t.undo().unwrap().op_id, first.op_id);
    assert_eq!(t.active_ops().len(), 1);
    assert_eq!(t.active_ops()[0].op_id, 0);
    // Redo everything back.
    assert_eq!(t.redo().unwrap().op_id, first.op_id);
    assert_eq!(t.redo().unwrap().owner, "overlay-2");
    assert_eq!(t.redo().unwrap().op_id, second.op_id);
    assert_eq!(t.active_ops().len(), 1);
    assert!(!t.can_redo());
}

#[test]
fn clear_with_only_redo_history_records_an_empty_clear() {
    let mut t = Timeline::new();
    t.commit("overlay", "add");
    t.undo();
    let clear = t.begin_global_clear().unwrap();
    assert_eq!(clear.frozen.len(), 0);
    assert_eq!(clear.op_id, 1);
    assert!(!t.can_redo());
    assert_eq!(t.active_ops().len(), 1);
}

#[test]
fn op_ids_keep_counting_after_reset() {
    let mut t = Timeline::new();
    assert_eq!(t.commit("overlay", "add"), 0);
    t.reset();
    assert_eq!(t.next_op_id(), 1);
    assert_eq!(t.commit("overlay", "add"), 1);
}

#[test]
fn state_reports_availability() {
    let mut t = Timeline::new();
    let s = t.state();
    assert!(!s.can_undo && !s.can_redo);
    t.commit("overlay", "add");
    t.undo();
    let s = t.state();
    assert!(!s.can_undo && s.can_redo);
}

#[test]
fn duplicate_is_a_deep_copy() {
    let mut t = Timeline::new();
    t.commit("overlay", "add");
    t.commit("overlay-2", "erase");
    let clear = t.begin_global_clear().unwrap();
    let copy = clear.duplicate();
    assert_eq!(copy, clear);
}

#[test]
fn op_ids_run_consecutively_across_every_call() {
    let mut t = Timeline::new();
    assert_eq!(t.commit("overlay", "add"), 0);
    assert_eq!(t.commit("overlay", "add"), 1);
    assert_eq!(t.undo().unwrap().op_id, 1);
    assert_eq!(t.redo().unwrap().op_id, 1);
    assert_eq!(t.next_op_id(), 2);
    t.reset();
    assert_eq!(t.next_op_id(), 2);
    // Nothing to clear: no id is handed out.
    assert!(t.begin_global_clear().is_none());
    assert_eq!(t.commit("overlay-2", "add"), 2);
    assert_eq!(t.begin_global_clear().unwrap().op_id, 3);
    t.undo();
    assert_eq!(t.commit("overlay", "add"), 4);
}
