//! What the worker keeps between edits: the clipboard and the two switches that
//! change how edits behave.

use vstd::prelude::*;

use crate::clipboard::{block_of, snapshot_block, ClipboardClip};
use crate::edits::{edit_views, Edit};
use crate::project::{lanes_wf, Project};
use crate::ripple::{pack_main_track, pack_steps};
use crate::text::texts;

verus! {

/// The clipboard, and the main-track magnet and linkage switches.
#[derive(Debug)]
pub struct EditorState {
    pub clipboard: Option<Vec<ClipboardClip>>,
    pub main_magnet: bool,
    pub linkage: bool,
}

/// What the clipboard holds.
pub open spec fn clipped(s: EditorState) -> Option<Seq<ClipboardClip>> {
    match s.clipboard {
        Some(block) => Some(block@),
        None => None,
    }
}

impl EditorState {
    /// An empty clipboard and the given switches.
    pub fn new(main_magnet: bool, linkage: bool) -> (r: Self)
        ensures
            clipped(r) is None,
            r.main_magnet == main_magnet,
            r.linkage == linkage,
    {
        EditorState { clipboard: None, main_magnet, linkage }
    }

    /// Copy a selection; says whether it held anything. A selection without clips
    /// leaves the clipboard as it was.
    pub fn copy_clips(&mut self, project: &Project, clips: &Vec<String>) -> (r: bool)
        requires
            lanes_wf(project.lanes@),
        ensures
            final(self).main_magnet == old(self).main_magnet,
            final(self).linkage == old(self).linkage,
            match block_of(*project, texts(clips@)) {
                Some((_, block)) => r && clipped(*final(self)) == Some(block),
                None => !r && clipped(*final(self)) == clipped(*old(self)),
            },
    {
        match snapshot_block(project, clips) {
            Some((_, block)) => {
                self.clipboard = Some(block);
                true
            },
            None => false,
        }
    }

    /// Switch the magnet. Turning it on packs the main lane at once; the steps are
    /// one history group.
    pub fn set_main_magnet(&mut self, project: &Project, enabled: bool) -> (r: Option<Vec<Edit>>)
        requires
            lanes_wf(project.lanes@),
        ensures
            final(self).main_magnet == enabled,
            final(self).linkage == old(self).linkage,
            clipped(*final(self)) == clipped(*old(self)),
            match project.main_lane() {
                Some(m) => if enabled {
                    r matches Some(steps) && edit_views(steps@) == pack_steps(
                        project.lanes@[m].id,
                        project.lanes@[m].clips@,
                        project.lanes@[m].clips@.len() as int,
                    )
                } else {
                    r is None
                },
                None => r is None,
            },
    {
        self.main_magnet = enabled;
        if enabled {
            pack_main_track(project)
        } else {
            None
        }
    }

    /// Switch linkage.
    pub fn set_linkage(&mut self, enabled: bool)
        ensures
            final(self).linkage == enabled,
            final(self).main_magnet == old(self).main_magnet,
            clipped(*final(self)) == clipped(*old(self)),
    {
        self.linkage = enabled;
    }
}

} // verus!
