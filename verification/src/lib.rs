//! An alarm clock that rings only into a connected bluetooth headset: the schedule, the
//! configuration file, the headset test and the single-instance rule, proved.

pub mod text;
pub mod clock;
pub mod config;
pub mod schedule;
pub mod config_file;
pub mod headset;
pub mod instance;
pub mod summary;
pub mod tray;
pub mod ring;
