use cutlass_ui::agent::{
    append_assistant_text, on_stage, report_replay, AgentCreated, AgentEntry, LiveOutcome,
    PendingPlan, PlanNext, PromptEnd, PromptStage, Replay, ReplayNext, StageEvent, StepEvent,
};

fn lines(t: &[AgentEntry]) -> Vec<(String, String)> {
    t.iter().map(|e| (e.kind.clone(), e.text.clone())).collect()
}

fn line(kind: &str, text: &str) -> (String, String) {
    (kind.to_string(), text.to_string())
}

#[test]
fn rehearsed_ids_are_mapped_onto_live_ones() {
    // add_track (rehearsed lane 1), add_clip (clip 2), split_clip (clip 3),
    // trim of the right half: the live project hands out other ids.
    let mut replay = Replay::new(4);
    assert_eq!(replay.track(1), 1);
    assert!(matches!(
        replay.on_step(
            Some(AgentCreated::Track(1)),
            &StepEvent::Edited(LiveOutcome::CreatedTrack(101))
        ),
        ReplayNext::Step
    ));
    assert_eq!(replay.track(1), 101);
    assert_eq!(replay.clip(1), 1, "lanes and clips are mapped apart");
    assert!(matches!(
        replay.on_step(
            Some(AgentCreated::Clip(2)),
            &StepEvent::Edited(LiveOutcome::Created(102))
        ),
        ReplayNext::Step
    ));
    assert!(matches!(
        replay.on_step(
            Some(AgentCreated::Clip(3)),
            &StepEvent::Edited(LiveOutcome::Created(103))
        ),
        ReplayNext::Step
    ));
    assert_eq!((replay.clip(2), replay.clip(3)), (102, 103));
    // The whole plan is one commit.
    assert!(matches!(
        replay.on_step(None, &StepEvent::Edited(LiveOutcome::Other)),
        ReplayNext::Commit
    ));
    assert_eq!(replay.done, 4);
}

#[test]
fn a_failed_step_rolls_back_and_is_named() {
    let mut replay = Replay::new(1);
    let next = replay.on_step(
        None,
        &StepEvent::Failed {
            reason: "clip 999999 does not exist".to_string(),
        },
    );
    match next {
        ReplayNext::RollBack { report } => {
            assert!(report.contains("step 1/1"), "names the failing step: {report}");
            assert_eq!(report, "step 1/1: clip 999999 does not exist");
        }
        other => panic!("{other:?}"),
    }
}

#[test]
fn ids_are_recorded_only_when_both_sides_agree() {
    let mut replay = Replay::new(3);
    replay.on_step(
        Some(AgentCreated::Clip(5)),
        &StepEvent::Edited(LiveOutcome::CreatedTrack(50)),
    );
    assert_eq!(replay.clip(5), 5);
    assert_eq!(replay.track(5), 5);
    replay.on_step(
        Some(AgentCreated::Marker(6)),
        &StepEvent::Edited(LiveOutcome::CreatedMarker(60)),
    );
    assert_eq!(replay.marker(6), 60);
}

#[test]
fn streamed_text_joins_the_trailing_assistant_line() {
    let mut t = Vec::new();
    append_assistant_text(&mut t, "Hel");
    append_assistant_text(&mut t, "lo");
    t.push(AgentEntry {
        kind: "action".to_string(),
        text: "Split".to_string(),
    });
    append_assistant_text(&mut t, "Done");
    assert_eq!(
        lines(&t),
        vec![line("assistant", "Hello"), line("action", "Split"), line("assistant", "Done")]
    );
}

#[test]
fn a_new_prompt_discards_the_waiting_plan() {
    let mut t = Vec::new();
    let mut pending = PendingPlan::none();
    pending.on_prompt(&mut t, "trim it");
    assert_eq!(lines(&t), vec![line("user", "trim it")]);
    assert_eq!(
        pending.on_finished(&mut t, &PromptEnd::Completed, 2, true),
        PlanNext::Park
    );
    assert_eq!(pending.steps, 2);
    pending.on_prompt(&mut t, "again");
    assert_eq!(
        lines(&t)[1..],
        [line("status", "Pending plan discarded."), line("user", "again")]
    );
    assert_eq!(pending.steps, 0);
    assert!(!pending.on_apply());
}

#[test]
fn plans_are_applied_parked_or_given_up() {
    let mut t = Vec::new();
    let mut pending = PendingPlan::none();
    assert_eq!(
        pending.on_finished(&mut t, &PromptEnd::Completed, 0, false),
        PlanNext::Nothing
    );
    assert_eq!(
        pending.on_finished(&mut t, &PromptEnd::Completed, 3, false),
        PlanNext::Apply
    );
    let stop = PromptEnd::Aborted {
        reason: "cancelled".to_string(),
    };
    assert_eq!(pending.on_finished(&mut t, &stop, 3, true), PlanNext::Nothing);
    let fail = PromptEnd::Aborted {
        reason: "rate limit".to_string(),
    };
    assert_eq!(pending.on_finished(&mut t, &fail, 3, true), PlanNext::Nothing);
    assert_eq!(
        lines(&t),
        vec![
            line("error", "Stopped — nothing was applied."),
            line("error", "rate limit — nothing was applied."),
        ]
    );
    pending.on_finished(&mut t, &PromptEnd::Completed, 1, true);
    pending.on_discard(&mut t);
    assert_eq!(lines(&t)[2], line("status", "Plan discarded — nothing was applied."));
    pending.on_discard(&mut t);
    assert_eq!(t.len(), 3);
    pending.on_finished(&mut t, &PromptEnd::Completed, 1, true);
    assert!(pending.on_apply());
}

#[test]
fn replays_are_reported() {
    let mut t = Vec::new();
    assert!(report_replay(&mut t, 1, &Some(Ok(()))));
    assert!(report_replay(&mut t, 12, &Some(Ok(()))));
    assert!(!report_replay(&mut t, 2, &Some(Err("step 1/2: no".to_string()))));
    assert!(!report_replay(&mut t, 2, &None));
    assert_eq!(
        lines(&t),
        vec![
            line("applied", "Applied 1 edit as one undo step."),
            line("applied", "Applied 12 edits as one undo step."),
            line("error", "Could not apply the plan: step 1/2: no. Nothing was changed."),
            line("error", "The editor engine is not responding."),
        ]
    );
}

#[test]
fn a_prompt_goes_through_its_stages() {
    let mut lines = Vec::new();
    let (stage, told) = on_stage(&mut lines, PromptStage::LoadConfig, &StageEvent::Passed);
    assert_eq!((stage, told), (PromptStage::ResolveKey, None));
    let (stage, told) = on_stage(&mut lines, stage, &StageEvent::Passed);
    assert_eq!((stage, told), (PromptStage::StartSandbox, Some(true)));
    let (stage, _) = on_stage(&mut lines, stage, &StageEvent::Passed);
    assert_eq!(on_stage(&mut lines, stage, &StageEvent::Passed).0, PromptStage::Run);
    assert!(lines.is_empty());
}

#[test]
fn a_failed_stage_stops_the_prompt() {
    let mut lines = Vec::new();
    let gone = StageEvent::NotConfigured {
        config_path: "/c/config.toml".to_string(),
    };
    assert_eq!(
        on_stage(&mut lines, PromptStage::LoadConfig, &gone),
        (PromptStage::Stopped, Some(false))
    );
    let failed = StageEvent::Failed {
        reason: "no key".to_string(),
    };
    assert_eq!(
        on_stage(&mut lines, PromptStage::ResolveKey, &failed),
        (PromptStage::Stopped, None)
    );
    assert_eq!(
        on_stage(&mut lines, PromptStage::Snapshot, &StageEvent::NoAnswer).0,
        PromptStage::Stopped
    );
    let said: Vec<&str> = lines.iter().map(|l| l.text.as_str()).collect();
    assert_eq!(
        said,
        vec![
            "No AI provider configured. Add an [ai] table to /c/config.toml (base_url + model), \
             then send again.",
            "no key",
            "The editor engine is not responding.",
        ]
    );
    assert!(lines.iter().all(|l| l.kind == "error"));
}
