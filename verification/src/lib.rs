//! hush: a voice call that sends nothing while you are quiet.
//!
//! Two people join a room by name and talk, through a relay that passes
//! packets between them. This library holds the rules of the call, each
//! one proved.

pub mod args;
pub mod audio;
pub mod hear;
pub mod net;
pub mod pace;
pub mod relay;
pub mod screen;
pub mod speak;
pub mod text;
pub mod video;
