//! Timeline logic of a video editor: placement, selection, time and audio
//! arithmetic, and the planning behind every edit, each stated as a contract.

pub mod agent;
pub mod arith;
pub mod audio;
pub mod batch;
pub mod clip_edits;
pub mod clip_laws;
pub mod clipboard;
pub mod copy_laws;
pub mod drop_laws;
pub mod edit_laws;
pub mod editor;
pub mod edits;
pub mod find;
pub mod fit;
pub mod gesture_laws;
pub mod group_drag;
pub mod group_laws;
pub mod inspector;
pub mod mixer;
pub mod model;
pub mod moves;
pub mod num;
pub mod order;
pub mod paths;
pub mod picture_laws;
pub mod preview_pick;
pub mod project;
pub mod projection;
pub mod queue;
pub mod raster;
pub mod recent;
pub mod ripple;
pub mod select_laws;
pub mod selection;
pub mod session;
pub mod set_laws;
pub mod show_laws;
pub mod snap;
pub mod sound_laws;
pub mod strips;
pub mod table_laws;
pub mod text;
pub mod thumbnails;
pub mod timeline;
pub mod transport;
