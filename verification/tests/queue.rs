use cutlass_ui::queue::{
    ends_gesture, execute_alone, mutation_redraws_preview, next_prefetch, Action, Drain, Gesture,
    Incoming, MsgKind,
};

fn msg(kind: MsgKind, number: u64, tick: i64) -> Incoming {
    Incoming { kind, number, tick }
}

fn transform(number: u64) -> Action {
    let gesture = Gesture::Transform;
    Action::Override { gesture, number }
}

fn generator(number: u64) -> Action {
    let gesture = Gesture::Generator;
    Action::Override { gesture, number }
}

fn clear(gesture: Gesture) -> Action {
    Action::ClearOverride { gesture }
}

fn run(first: Incoming, rest: &[Incoming]) -> Vec<Action> {
    let mut drain = Drain::open(first).expect("burst");
    let mut out = Vec::new();
    for m in rest {
        out.extend(drain.take(*m));
    }
    out.extend(drain.close());
    out
}

#[test]
fn scrubs_collapse_to_the_newest_frame() {
    let acts = run(
        msg(MsgKind::Frame, 1, 10),
        &[msg(MsgKind::Frame, 2, 11), msg(MsgKind::Frame, 3, 12)],
    );
    assert_eq!(acts, vec![Action::Render { tick: 12 }, Action::Prefetch { tick: 12 }]);
}

#[test]
fn edits_run_in_order_and_none_is_lost() {
    let acts = run(
        msg(MsgKind::Frame, 1, 10),
        &[
            msg(MsgKind::TrimClip, 2, 0),
            msg(MsgKind::Frame, 3, 20),
            msg(MsgKind::TransformOverride, 4, 30),
            msg(MsgKind::Undo, 5, 0),
            msg(MsgKind::GeneratorOverride, 6, 99),
        ],
    );
    assert_eq!(
        acts,
        vec![
            Action::Execute { number: 2 },
            transform(4),
            Action::Execute { number: 5 },
            Action::Show { gesture: Gesture::Generator, number: 6, tick: 99 },
            Action::Render { tick: 30 },
            Action::Prefetch { tick: 30 },
        ]
    );
}

#[test]
fn an_override_never_outlives_the_commit_that_ends_it() {
    let acts = run(
        msg(MsgKind::TransformOverride, 1, 5),
        &[
            msg(MsgKind::TransformOverride, 2, 5),
            msg(MsgKind::SetTransform, 3, 5),
            msg(MsgKind::Frame, 4, 6),
        ],
    );
    assert_eq!(
        acts,
        vec![
            transform(2),
            clear(Gesture::Transform),
            Action::Execute { number: 3 },
            Action::Render { tick: 6 },
        ]
    );
}

#[test]
fn a_gesture_after_an_edit_is_applied_again() {
    let acts = run(
        msg(MsgKind::PreviewShapeSize, 1, 5),
        &[msg(MsgKind::Undo, 2, 0), msg(MsgKind::PreviewShapeSize, 3, 7)],
    );
    assert_eq!(
        acts,
        vec![
            generator(1),
            Action::Execute { number: 2 },
            generator(3),
            Action::Render { tick: 7 },
        ]
    );
}

#[test]
fn lone_edits_redraw_when_they_change_the_picture() {
    assert!(Drain::open(msg(MsgKind::Undo, 1, 0)).is_none());
    assert_eq!(
        execute_alone(msg(MsgKind::Undo, 1, 0), 33),
        vec![Action::Execute { number: 1 }, Action::Render { tick: 33 }]
    );
    assert_eq!(
        execute_alone(msg(MsgKind::CopyClips, 1, 0), 33),
        vec![Action::Execute { number: 1 }]
    );
    for kind in [MsgKind::SetTransform, MsgKind::ClearTransformOverride, MsgKind::Import] {
        assert!(!mutation_redraws_preview(kind), "{kind:?}");
    }
    for kind in [MsgKind::SetShapeSize, MsgKind::SetCanvas, MsgKind::RelinkFolder] {
        assert!(mutation_redraws_preview(kind), "{kind:?}");
    }
}

#[test]
fn reading_ahead_stops_at_the_end() {
    assert_eq!(next_prefetch(10, 0, 100), Some(11));
    assert_eq!(next_prefetch(10, 3, 100), Some(14));
    assert_eq!(next_prefetch(10, 4, 100), None);
    assert_eq!(next_prefetch(10, 1, 12), None);
}

#[test]
fn the_next_gesture_may_follow_a_commit_in_one_drain() {
    // A text drag, its commit, and the first move of a transform drag.
    let acts = run(
        msg(MsgKind::GeneratorOverride, 1, 5),
        &[msg(MsgKind::SetGenerator, 2, 0), msg(MsgKind::TransformOverride, 3, 8)],
    );
    assert_eq!(
        acts,
        vec![
            generator(1),
            clear(Gesture::Generator),
            Action::Execute { number: 2 },
            transform(3),
            Action::Render { tick: 8 },
        ]
    );
}

#[test]
fn every_message_can_be_drained_behind_every_other() {
    let openers = [
        MsgKind::Frame,
        MsgKind::TransformOverride,
        MsgKind::GeneratorOverride,
        MsgKind::PreviewShapeSize,
    ];
    for first in openers {
        for second in openers {
            let acts = run(
                msg(first, 1, 1),
                &[msg(second, 2, 2), msg(MsgKind::Undo, 3, 0), msg(first, 4, 4)],
            );
            let edits: Vec<&Action> = acts
                .iter()
                .filter(|a| matches!(a, Action::Execute { number: 3 }))
                .collect();
            assert_eq!(edits.len(), 1, "{first:?} {second:?}");
        }
    }
    // A waiting override comes up before a foreign one.
    let acts = run(
        msg(MsgKind::PreviewShapeSize, 1, 5),
        &[msg(MsgKind::TransformOverride, 2, 6)],
    );
    assert_eq!(
        acts,
        vec![
            generator(1),
            transform(2),
            Action::Render { tick: 6 },
        ]
    );
}

#[test]
fn commits_and_clears_drop_their_gestures_override() {
    for kind in [MsgKind::SetTransform, MsgKind::ClearTransformOverride] {
        assert_eq!(ends_gesture(kind), Some(Gesture::Transform), "{kind:?}");
        assert_eq!(
            execute_alone(msg(kind, 4, 9), 1),
            vec![clear(Gesture::Transform), Action::Execute { number: 4 }]
        );
    }
    for kind in [MsgKind::SetGenerator, MsgKind::SetShapeSize, MsgKind::ClearGeneratorOverride] {
        assert_eq!(ends_gesture(kind), Some(Gesture::Generator), "{kind:?}");
        let acts = execute_alone(msg(kind, 4, 9), 1);
        assert_eq!(
            acts[..2],
            [clear(Gesture::Generator), Action::Execute { number: 4 }]
        );
    }
    for kind in [MsgKind::Undo, MsgKind::Frame, MsgKind::TransformOverride, MsgKind::FitClip] {
        assert_eq!(ends_gesture(kind), None, "{kind:?}");
    }
}
