//! Session upkeep: autosave sweeps, export jobs, saving, and closing.

use vstd::prelude::*;
use vstd::string::StringExecFns;

use crate::num::clamp;
use crate::paths::{may_be_same, same_path};
use crate::text::{decimal, push_decimal, str_eq};

verus! {

// --- autosave -------------------------------------------------------------

/// The slot on disk that holds the session, and the revision it captured.
#[derive(Debug)]
pub struct AutosaveSlot {
    pub held: Option<(String, u64)>,
}

/// The contents of an [`AutosaveSlot`].
pub open spec fn held(s: AutosaveSlot) -> Option<(Seq<char>, u64)> {
    match s.held {
        Some((path, revision)) => Some((path@, revision)),
        None => None,
    }
}

/// What a sweep does with the session's slot.
#[derive(Clone, Copy, Debug, PartialEq, Eq, Structural)]
pub enum SweepStep {
    /// The session is clean: remove the slot.
    Discard,
    /// The slot already holds this revision.
    Idle,
    /// Write a snapshot to the slot.
    Write,
}

/// A sweep: a slot of an earlier identity to remove first, and the step.
#[derive(Debug)]
pub struct Sweep {
    pub orphan: Option<String>,
    pub step: SweepStep,
}

/// The revision that the session's own slot holds, `same` saying whether the slot that
/// was written last is that one.
pub open spec fn kept_here(held: Option<(Seq<char>, u64)>, same: bool) -> Option<u64> {
    match held {
        Some((_, revision)) => if same {
            Some(revision)
        } else {
            None
        },
        None => None,
    }
}

/// What a sweep does with the slot of a session that is dirty or not, when the slot
/// holds revision `kept`.
pub open spec fn sweep_step(kept: Option<u64>, dirty: bool, revision: u64) -> SweepStep {
    if !dirty {
        SweepStep::Discard
    } else if kept == Some(revision) {
        SweepStep::Idle
    } else {
        SweepStep::Write
    }
}

/// What a sweep comes to, `same` saying whether the slot that was written last is the
/// session's: another one is orphaned, a clean session needs no slot, and a dirty
/// session is written unless it is idle.
pub open spec fn swept(
    before: AutosaveSlot,
    after: AutosaveSlot,
    r: Sweep,
    same: bool,
    dirty: bool,
    revision: u64,
) -> bool {
    &&& r.step == sweep_step(kept_here(held(before), same), dirty, revision)
    &&& match held(before) {
        Some((path, _)) => if same {
            r.orphan is None
        } else {
            r.orphan matches Some(o) && o@ == path
        },
        None => r.orphan is None,
    }
    &&& held(after) == (if same && dirty {
        held(before)
    } else {
        None
    })
}

impl AutosaveSlot {
    /// No slot was written.
    pub fn none() -> (r: Self)
        ensures
            held(r) is None,
    {
        AutosaveSlot { held: None }
    }

    /// A sweep, `same` saying whether the slot that was written last is the session's.
    pub fn sweep_when(&mut self, same: bool, dirty: bool, revision: u64) -> (r: Sweep)
        ensures
            swept(*old(self), *final(self), r, same, dirty, revision),
    {
        let taken = self.held.take();
        match taken {
            None => Sweep {
                orphan: None,
                step: if dirty {
                    SweepStep::Write
                } else {
                    SweepStep::Discard
                },
            },
            Some((path, kept)) => {
                if !same {
                    return Sweep {
                        orphan: Some(path),
                        step: if dirty {
                            SweepStep::Write
                        } else {
                            SweepStep::Discard
                        },
                    };
                }
                if !dirty {
                    return Sweep { orphan: None, step: SweepStep::Discard };
                }
                self.held = Some((path, kept));
                Sweep {
                    orphan: None,
                    step: if kept == revision {
                        SweepStep::Idle
                    } else {
                        SweepStep::Write
                    },
                }
            },
        }
    }

    /// Start a sweep of the session whose slot is at `slot`.
    pub fn sweep(&mut self, slot: &str, dirty: bool, revision: u64) -> (r: Sweep)
        ensures
            exists|same: bool|
                (held(*old(self)) matches Some((path, _)) ==> may_be_same(path, slot@, same))
                    && #[trigger] swept(
                    *old(self),
                    *final(self),
                    r,
                    same,
                    dirty,
                    revision,
                ),
    {
        let same: bool = match &self.held {
            Some((path, _)) => same_path(path.as_str(), slot),
            None => false,
        };
        let r = self.sweep_when(same, dirty, revision);
        assert(swept(*old(self), *self, r, same, dirty, revision));
        r
    }

    /// A snapshot and its description were written, or the session was restored
    /// from one.
    pub fn written(&mut self, slot: &str, revision: u64)
        ensures
            held(*final(self)) == Some((slot@, revision)),
    {
        self.held = Some((slot.to_owned(), revision));
    }
}

/// A dirty session that does not change is written once: after a write the next
/// sweep of that slot is idle.
pub proof fn law_idle_session_is_not_rewritten(slot: Seq<char>, revision: u64, same: bool)
    requires
        may_be_same(slot, slot, same),
    ensures
        sweep_step(kept_here(Some((slot, revision)), same), true, revision) == SweepStep::Idle,
{
}

/// Work is never left unwritten: a dirty session whose slot does not hold its revision
/// is written.
pub proof fn law_changed_session_is_written(kept: Option<u64>, revision: u64)
    requires
        kept != Some(revision),
    ensures
        sweep_step(kept, true, revision) == SweepStep::Write,
{
}

/// A clean session needs no slot, whatever the slot holds.
pub proof fn law_clean_session_keeps_no_slot(kept: Option<u64>, revision: u64)
    ensures
        sweep_step(kept, false, revision) == SweepStep::Discard,
{
}

// --- export ---------------------------------------------------------------

/// An export as the dialog asks for it.
#[derive(Debug)]
pub struct ExportRequest {
    pub path: String,
    pub target_height: Option<u32>,
    pub fps_num: Option<i32>,
    pub crf: u8,
}

/// An export request from the dialog's numbers: a height or rate that is not
/// positive means the project's own, and the quality is pulled into range.
pub fn export_request(path: &str, target_height: i32, fps_num: i32, crf: i32) -> (r: ExportRequest)
    ensures
        r.path@ == path@,
        r.target_height == (if target_height > 0 {
            Some(target_height as u32)
        } else {
            None
        }),
        r.fps_num == (if fps_num > 0 {
            Some(fps_num)
        } else {
            None
        }),
        r.crf == clamp(crf as int, 0, 51),
{
    ExportRequest {
        path: path.to_owned(),
        target_height: if target_height > 0 {
            Some(target_height as u32)
        } else {
            None
        },
        fps_num: if fps_num > 0 {
            Some(fps_num)
        } else {
            None
        },
        crf: if crf < 0 {
            0
        } else if crf > 51 {
            51
        } else {
            crf as u8
        },
    }
}

/// One export at a time, and whether it is to be cancelled.
#[derive(Clone, Copy, Debug, PartialEq, Eq, Structural)]
pub struct ExportGate {
    pub active: bool,
    pub cancel: bool,
}

impl ExportGate {
    /// No job.
    pub fn new() -> (r: Self)
        ensures
            r == (ExportGate { active: false, cancel: false }),
    {
        ExportGate { active: false, cancel: false }
    }

    /// Claim the right to run a job; refused while one is running.
    pub fn start(&mut self) -> (r: bool)
        ensures
            r == !old(self).active,
            *final(self) == (if old(self).active {
                *old(self)
            } else {
                ExportGate { active: true, cancel: false }
            }),
    {
        if self.active {
            return false;
        }
        self.active = true;
        self.cancel = false;
        true
    }

    /// Ask the running job to stop.
    pub fn request_cancel(&mut self)
        ensures
            *final(self) == (ExportGate { cancel: true, ..*old(self) }),
    {
        self.cancel = true;
    }

    /// The job ended, whatever came of it.
    pub fn finish(&mut self)
        ensures
            *final(self) == (ExportGate { active: false, ..*old(self) }),
    {
        self.active = false;
    }
}

/// Milliseconds between two published progress states.
pub const PUBLISH_EVERY_MS: u64 = 100;

/// When progress was published last, if it was.
#[derive(Clone, Copy, Debug, PartialEq, Eq, Structural)]
pub struct ExportThrottle {
    pub last_ms: Option<u64>,
}

/// What a progress report leads to.
#[derive(Clone, Copy, Debug, PartialEq, Eq, Structural)]
pub enum ProgressStep {
    /// The job is cancelled: stop.
    Stop,
    /// Go on and show it.
    Publish,
    /// Go on silently.
    Skip,
}

/// Whether a report at `now` is shown: the first, the last, and any that comes at
/// least [`PUBLISH_EVERY_MS`] after the one shown before.
pub open spec fn is_shown(last: Option<u64>, done: u64, total: u64, now: u64) -> bool {
    match last {
        None => true,
        Some(t) => done == total || now - t >= PUBLISH_EVERY_MS,
    }
}

impl ExportThrottle {
    /// Nothing was published.
    pub fn new() -> (r: Self)
        ensures
            r.last_ms is None,
    {
        ExportThrottle { last_ms: None }
    }

    /// Take in a progress report at `now_ms`.
    pub fn on_progress(&mut self, cancelled: bool, done: u64, total: u64, now_ms: u64) -> (r:
        ProgressStep)
        ensures
            r == (if cancelled {
                ProgressStep::Stop
            } else if is_shown(old(self).last_ms, done, total, now_ms) {
                ProgressStep::Publish
            } else {
                ProgressStep::Skip
            }),
            final(self).last_ms == (if r == ProgressStep::Publish {
                Some(now_ms)
            } else {
                old(self).last_ms
            }),
    {
        if cancelled {
            return ProgressStep::Stop;
        }
        let due: bool = match self.last_ms {
            None => true,
            Some(t) => done == total || (now_ms >= t && now_ms - t >= PUBLISH_EVERY_MS),
        };
        if due {
            self.last_ms = Some(now_ms);
            ProgressStep::Publish
        } else {
            ProgressStep::Skip
        }
    }
}

/// The dialog always learns the total and the end: the first report and the last
/// one are shown unless the job is cancelled.
pub proof fn law_first_and_last_progress_are_shown(
    last: Option<u64>,
    done: u64,
    total: u64,
    now: u64,
)
    requires
        last is None || done == total,
    ensures
        is_shown(last, done, total, now),
{
}

/// Between the first report and the last, one is shown only when a tenth of a second has
/// passed since the one before.
pub proof fn law_progress_is_throttled(last: u64, done: u64, total: u64, now: u64)
    requires
        done != total,
    ensures
        is_shown(Some(last), done, total, now) == (now >= last + 100),
{
}

/// What the export dialog shows.
#[derive(Debug)]
pub struct ExportUiState {
    pub running: bool,
    pub done: u64,
    pub total: u64,
    pub completed: bool,
    pub failed: bool,
    pub status: String,
}

/// The contents of an [`ExportUiState`].
pub struct ExportView {
    pub running: bool,
    pub done: int,
    pub total: int,
    pub completed: bool,
    pub failed: bool,
    pub status: Seq<char>,
}

impl View for ExportUiState {
    type V = ExportView;

    open spec fn view(&self) -> ExportView {
        ExportView {
            running: self.running,
            done: self.done as int,
            total: self.total as int,
            completed: self.completed,
            failed: self.failed,
            status: self.status@,
        }
    }
}

/// How an export ended.
#[derive(Debug)]
pub enum ExportEnd {
    Saved { frames: u64, width: u32, height: u32 },
    Cancelled,
    Failed { reason: String },
    /// The job could not start.
    NotStarted { reason: String },
}

/// A job that did not finish.
pub open spec fn failed_view(status: Seq<char>) -> ExportView {
    ExportView { running: false, done: 0, total: 0, completed: false, failed: true, status }
}

/// What the dialog shows when an export to `path` ended.
pub open spec fn end_view(end: ExportEnd, path: Seq<char>) -> ExportView {
    match end {
        ExportEnd::Saved { frames, width, height } => ExportView {
            running: false,
            done: frames as int,
            total: frames as int,
            completed: true,
            failed: false,
            status: "Saved "@ + decimal(width as nat) + "×"@ + decimal(height as nat) + ", "@
                + decimal(frames as nat) + " frames to "@ + path,
        },
        ExportEnd::Cancelled => failed_view("Export cancelled"@),
        ExportEnd::Failed { reason } => failed_view("Export failed: "@ + reason@),
        ExportEnd::NotStarted { reason } => failed_view("Export failed to start: "@ + reason@),
    }
}

/// An export that ended is not running. It is completed exactly when it was saved, with
/// all its frames done, and failed otherwise, with a status that says so.
pub proof fn law_ended_export_is_settled(end: ExportEnd, path: Seq<char>)
    ensures
        !end_view(end, path).running,
        end_view(end, path).completed == (end is Saved),
        end_view(end, path).failed == !(end is Saved),
        end matches ExportEnd::Saved { frames, .. } ==> end_view(end, path).done == frames
            && end_view(end, path).total == frames,
{
}

/// A job that runs.
pub fn running_state(done: u64, total: u64) -> (r: ExportUiState)
    ensures
        r@ == (ExportView {
            running: true,
            done: done as int,
            total: total as int,
            completed: false,
            failed: false,
            status: Seq::empty(),
        }),
{
    ExportUiState {
        running: true,
        done,
        total,
        completed: false,
        failed: false,
        status: String::new(),
    }
}

/// What the dialog shows when another export is asked for while a job has done `done`
/// of `total` frames: the job goes on, and the status says why nothing started.
pub open spec fn refused_view(done: int, total: int) -> ExportView {
    ExportView {
        running: true,
        done,
        total,
        completed: false,
        failed: false,
        status: "Export refused: a job is already running"@,
    }
}

/// What the dialog shows when an export is refused because a job is running.
pub fn refused_state(done: u64, total: u64) -> (r: ExportUiState)
    ensures
        r@ == refused_view(done as int, total as int),
        r@.status.len() > 0,
{
    proof {
        reveal_strlit("Export refused: a job is already running");
    }
    ExportUiState {
        running: true,
        done,
        total,
        completed: false,
        failed: false,
        status: "Export refused: a job is already running".to_owned(),
    }
}

impl ExportGate {
    /// Ask for a job while the running one, if there is one, has done `done` of
    /// `total` frames. `None` lets it start; otherwise it is refused with what the
    /// dialog shows, and the running job's state, a pending cancel too, stays.
    pub fn request(&mut self, done: u64, total: u64) -> (r: Option<ExportUiState>)
        ensures
            match r {
                None => !old(self).active && *final(self) == (ExportGate {
                    active: true,
                    cancel: false,
                }),
                Some(state) => old(self).active && *final(self) == *old(self) && state@
                    == refused_view(done as int, total as int),
            },
    {
        if self.start() {
            None
        } else {
            Some(refused_state(done, total))
        }
    }
}

fn failed_state(status: String) -> (r: ExportUiState)
    ensures
        r@ == failed_view(status@),
{
    ExportUiState { running: false, done: 0, total: 0, completed: false, failed: true, status }
}

/// What the dialog shows when an export to `path` ended.
pub fn end_state(end: &ExportEnd, path: &str) -> (r: ExportUiState)
    ensures
        r@ == end_view(*end, path@),
{
    match end {
        ExportEnd::Saved { frames, width, height } => {
            let mut status: String = "Saved ".to_owned();
            push_decimal(&mut status, *width as u64);
            status.append("×");
            push_decimal(&mut status, *height as u64);
            status.append(", ");
            push_decimal(&mut status, *frames);
            status.append(" frames to ");
            status.append(path);
            ExportUiState {
                running: false,
                done: *frames,
                total: *frames,
                completed: true,
                failed: false,
                status,
            }
        },
        ExportEnd::Cancelled => failed_state("Export cancelled".to_owned()),
        ExportEnd::Failed { reason } => {
            let mut status: String = "Export failed: ".to_owned();
            status.append(reason.as_str());
            failed_state(status)
        },
        ExportEnd::NotStarted { reason } => {
            let mut status: String = "Export failed to start: ".to_owned();
            status.append(reason.as_str());
            failed_state(status)
        },
    }
}

/// A frame count as the dialog's `i32`.
pub fn frame_count(n: u64) -> (r: i32)
    ensures
        r == clamp(n as int, 0, i32::MAX as int),
{
    if n > 0x7fff_ffff {
        i32::MAX
    } else {
        n as i32
    }
}

// --- messages -------------------------------------------------------------

/// `head`, `path`, a colon and the reason.
fn with_reason(head: &str, path: &str, reason: &str) -> (r: String)
    ensures
        r@ == head@ + path@ + ": "@ + reason@,
{
    let mut out: String = head.to_owned();
    out.append(path);
    out.append(": ");
    out.append(reason);
    out
}

/// What a failed save is reported as.
pub fn save_failed(path: &str, reason: &str) -> (r: String)
    ensures
        r@ == "Couldn't save the project to "@ + path@ + ": "@ + reason@,
{
    with_reason("Couldn't save the project to ", path, reason)
}

/// What a failed open is reported as.
pub fn open_failed(path: &str, reason: &str) -> (r: String)
    ensures
        r@ == "Couldn't open "@ + path@ + ": "@ + reason@,
{
    with_reason("Couldn't open ", path, reason)
}

/// What a failed relink is reported as.
pub fn relink_failed(path: &str, reason: &str) -> (r: String)
    ensures
        r@ == "Couldn't relink to "@ + path@ + ": "@ + reason@,
{
    with_reason("Couldn't relink to ", path, reason)
}

/// What a failed restore is reported as.
pub fn restore_failed(path: &str, reason: &str) -> (r: String)
    ensures
        r@ == "Couldn't restore the recovered project "@ + path@ + ": "@ + reason@,
{
    with_reason("Couldn't restore the recovered project ", path, reason)
}

/// What a folder that holds none of the missing files is reported as.
pub fn folder_without_media(folder: &str) -> (r: String)
    ensures
        r@ == "No missing media files were found in "@ + folder@
            + ". Pick individual files or choose a folder that contains them."@,
{
    let mut out: String = "No missing media files were found in ".to_owned();
    out.append(folder);
    out.append(". Pick individual files or choose a folder that contains them.");
    out
}

// --- saving and closing ---------------------------------------------------

/// Name that a save panel suggests for a project with this file stem.
pub fn suggested_name(stem: &str) -> (r: String)
    ensures
        r@ == (if stem@.len() == 0 {
            "Untitled"@
        } else {
            stem@
        }) + ".cutlass"@,
{
    let mut name: String = if stem.is_empty() {
        "Untitled".to_owned()
    } else {
        stem.to_owned()
    };
    name.append(".cutlass");
    name
}

/// File name that a picked path gets instead of its own, given its file name and
/// extension: the project extension is appended, never put in place of another, so
/// that "v1.2" becomes "v1.2.cutlass". `None` when the path has it already.
pub fn enforced_name(file_name: Option<&str>, extension: Option<&str>) -> (r: Option<String>)
    ensures
        (extension matches Some(e) && e@ == "cutlass"@) ==> r is None,
        !(extension matches Some(e) && e@ == "cutlass"@) ==> (r matches Some(name) && name@
            == match file_name {
            Some(n) => n@,
            None => "Untitled"@,
        } + ".cutlass"@),
{
    match extension {
        Some(e) => {
            if str_eq(e, "cutlass") {
                return None;
            }
        },
        None => {},
    }
    let mut name: String = match file_name {
        Some(n) => n.to_owned(),
        None => "Untitled".to_owned(),
    };
    name.append(".cutlass");
    Some(name)
}

/// What a save request does.
#[derive(Clone, Copy, Debug, PartialEq, Eq, Structural)]
pub enum SaveRoute {
    /// Write to the project's own file.
    InPlace,
    /// Ask for a path first.
    Ask,
}

/// A plain save of a project that has a file goes there; the first save and Save
/// As ask for a path.
pub fn save_route(save_as: bool, has_path: bool) -> (r: SaveRoute)
    ensures
        r == (if !save_as && has_path {
            SaveRoute::InPlace
        } else {
            SaveRoute::Ask
        }),
{
    if !save_as && has_path {
        SaveRoute::InPlace
    } else {
        SaveRoute::Ask
    }
}

/// What the close button does.
#[derive(Clone, Copy, Debug, PartialEq, Eq, Structural)]
pub enum CloseRoute {
    Quit,
    /// Snapshot the session and show the launch screen.
    ToLaunch,
}

/// On the launch screen close quits; in the editor it goes back to the launch
/// screen.
pub fn close_route(launch_visible: bool) -> (r: CloseRoute)
    ensures
        r == (if launch_visible {
            CloseRoute::Quit
        } else {
            CloseRoute::ToLaunch
        }),
{
    if launch_visible {
        CloseRoute::Quit
    } else {
        CloseRoute::ToLaunch
    }
}

} // verus!
