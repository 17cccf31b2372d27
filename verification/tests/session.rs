use cutlass_ui::session::{
    close_route, end_state, enforced_name, export_request, folder_without_media, frame_count,
    open_failed, refused_state, relink_failed, restore_failed, running_state, save_failed, save_route,
    suggested_name, AutosaveSlot, CloseRoute, ExportEnd, ExportGate, ExportThrottle, ProgressStep,
    SaveRoute, SweepStep,
};

#[test]
fn sweeps_write_dirty_sessions_once_and_clean_up() {
    let mut slot = AutosaveSlot::none();
    let s = slot.sweep("a", true, 5);
    assert_eq!(s.step, SweepStep::Write);
    assert!(s.orphan.is_none());
    slot.written("a", 5);
    assert_eq!(slot.sweep("a", true, 5).step, SweepStep::Idle);
    assert_eq!(slot.sweep("a", true, 6).step, SweepStep::Write);
    // A new identity orphans the old slot.
    let moved = slot.sweep("b", true, 6);
    assert_eq!(moved.orphan, Some("a".to_string()));
    assert_eq!(moved.step, SweepStep::Write);
    slot.written("b", 6);
    // Saved: the slot is stale.
    let clean = slot.sweep("b", false, 6);
    assert_eq!(clean.step, SweepStep::Discard);
    assert!(slot.held.is_none());
}

#[test]
fn export_numbers_are_pulled_into_range() {
    let r = export_request("out.mp4", 0, -1, 99);
    assert_eq!((r.target_height, r.fps_num, r.crf), (None, None, 51));
    let r = export_request("out.mp4", 1080, 30, -4);
    assert_eq!((r.target_height, r.fps_num, r.crf), (Some(1080), Some(30), 0));
    assert_eq!(r.path, "out.mp4");
    assert_eq!(frame_count(u64::MAX), i32::MAX);
    assert_eq!(frame_count(12), 12);
}

#[test]
fn one_export_runs_at_a_time() {
    let mut gate = ExportGate::new();
    assert!(gate.start());
    gate.request_cancel();
    assert!(!gate.start());
    assert!(gate.cancel);
    gate.finish();
    assert!(gate.start());
    assert!(!gate.cancel, "a new job starts uncancelled");
}

#[test]
fn progress_is_throttled_but_first_and_last_are_shown() {
    let mut t = ExportThrottle::new();
    assert_eq!(t.on_progress(false, 0, 100, 1_000), ProgressStep::Publish);
    assert_eq!(t.on_progress(false, 1, 100, 1_099), ProgressStep::Skip);
    assert_eq!(t.on_progress(false, 2, 100, 1_100), ProgressStep::Publish);
    assert_eq!(t.on_progress(false, 100, 100, 1_101), ProgressStep::Publish);
    assert_eq!(t.on_progress(true, 5, 100, 9_999), ProgressStep::Stop);
}

#[test]
fn the_dialog_says_how_an_export_ended() {
    let saved = end_state(
        &ExportEnd::Saved {
            frames: 240,
            width: 1920,
            height: 1080,
        },
        "/out.mp4",
    );
    assert_eq!(saved.status, "Saved 1920×1080, 240 frames to /out.mp4");
    assert!(saved.completed && !saved.failed && !saved.running);
    assert_eq!((saved.done, saved.total), (240, 240));
    let cancelled = end_state(&ExportEnd::Cancelled, "x");
    assert_eq!(cancelled.status, "Export cancelled");
    assert!(cancelled.failed && !cancelled.completed);
    let failed = end_state(
        &ExportEnd::Failed {
            reason: "disk full".to_string(),
        },
        "x",
    );
    assert_eq!(failed.status, "Export failed: disk full");
    let unstarted = end_state(
        &ExportEnd::NotStarted {
            reason: "no thread".to_string(),
        },
        "x",
    );
    assert_eq!(unstarted.status, "Export failed to start: no thread");
    let running = running_state(3, 9);
    assert!(running.running && running.status.is_empty());
    assert_eq!((running.done, running.total), (3, 9));
}

#[test]
fn saved_names_get_the_project_extension() {
    assert_eq!(suggested_name(""), "Untitled.cutlass");
    assert_eq!(suggested_name("film"), "film.cutlass");
    assert_eq!(enforced_name(Some("v1.2"), Some("2")).as_deref(), Some("v1.2.cutlass"));
    assert_eq!(enforced_name(Some("film"), None).as_deref(), Some("film.cutlass"));
    assert_eq!(enforced_name(None, None).as_deref(), Some("Untitled.cutlass"));
    assert!(enforced_name(Some("film.cutlass"), Some("cutlass")).is_none());
}

#[test]
fn saving_and_closing_take_the_right_route() {
    assert_eq!(save_route(false, true), SaveRoute::InPlace);
    assert_eq!(save_route(true, true), SaveRoute::Ask);
    assert_eq!(save_route(false, false), SaveRoute::Ask);
    assert_eq!(close_route(true), CloseRoute::Quit);
    assert_eq!(close_route(false), CloseRoute::ToLaunch);
}

#[test]
fn failures_name_the_path_and_the_reason() {
    assert_eq!(save_failed("/p", "no"), "Couldn't save the project to /p: no");
    assert_eq!(open_failed("/p", "no"), "Couldn't open /p: no");
    assert_eq!(relink_failed("/p", "no"), "Couldn't relink to /p: no");
    assert_eq!(
        restore_failed("/p", "no"),
        "Couldn't restore the recovered project /p: no"
    );
    assert_eq!(
        folder_without_media("/m"),
        "No missing media files were found in /m. \
         Pick individual files or choose a folder that contains them."
    );
}

#[test]
fn a_second_export_is_refused_with_a_status() {
    let mut gate = ExportGate::new();
    assert!(gate.request(0, 0).is_none());
    gate.request_cancel();
    let state = gate.request(7, 20).expect("refused");
    assert_eq!((state.running, state.done, state.total), (true, 7, 20));
    assert_eq!(state.status, "Export refused: a job is already running");
    assert!(!state.completed && !state.failed);
    assert!(gate.active && gate.cancel, "the running job's state stays");
    assert_eq!(refused_state(1, 2).status, state.status);
}

#[test]
fn a_slot_spelled_otherwise_is_no_orphan() {
    let mut slot = AutosaveSlot::none();
    slot.written("/a/b", 5);
    let same = slot.sweep("/a//b", true, 5);
    assert!(same.orphan.is_none());
    assert_eq!(same.step, SweepStep::Idle);
    let other = slot.sweep("/a/c", true, 5);
    assert_eq!(other.orphan.as_deref(), Some("/a/b"));
    assert_eq!(other.step, SweepStep::Write);
}
