//! A resumable, file-based backup engine.
//!
//! The crate decides; its caller touches the disk. It says which source
//! files a run has to transfer ([`journal`]), where each lands in the
//! destination tree ([`paths`]), what to do next in a transfer and what to
//! record of it ([`backup`], [`state`]), and which superseded versions to
//! remove ([`retention`]). What it computes is verified against the
//! contracts it states; [`invariants`] holds what is proved of every step
//! of a run, and [`disk`] what a run leaves on a disk, also where it is cut
//! short and taken up again. Three things are taken on trust, as their own descriptions say:
//! the clock and the calendar of `chrono` ([`clock`]), the globs of
//! `globset` ([`journal`]), and `String::push` ([`text`]).

pub mod backup;
pub mod clock;
pub mod config;
pub mod disk;
pub mod invariants;
pub mod journal;
pub mod paths;
pub mod retention;
pub mod state;
pub mod text;
pub mod utils;

pub use config::{BackupOptions, BackupPaths, Config};
pub use state::{load_or_init_state, BackupState, BackupStats, LatestBackup};
