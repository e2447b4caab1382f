//! The verified core of `lport`, a tool that lists listening ports together
//! with the folder each server was launched from.
//!
//! The program around this library runs commands, reads files, asks questions
//! and prints. Everything in between is here:
//!
//! - `args` reads the command line;
//! - `docker`, `ss` and `lsof` read who listens where, and `process`,
//!   `process_mac` and `stats` what is known about each process;
//! - `order` and `listing` choose the rows and their order;
//! - `width`, `table` and `info` lay out what is shown;
//! - `kill` decides step by step how a port is taken back, `wait` how a
//!   process is watched disappearing, and `messages` what is said on the way;
//! - `update` tells of new versions;
//! - `command`, `model`, `number` and `text` are what the others build on.
//!
//! The modules whose names end in `_laws` state what holds of them as a whole:
//! `text_laws`, `socket_laws`, `process_laws`, `docker_laws`, `stats_laws`,
//! `args_laws` and `update_laws` that what is written is read back,
//! `listing_laws`, `table_laws` and `report_laws` what is shown,
//! `kill_laws` what every run does, and `view_laws` that the contracts see each
//! value as it is.

pub mod args;
pub mod args_laws;
pub mod command;
pub mod docker;
pub mod docker_laws;
pub mod info;
pub mod kill;
pub mod kill_laws;
pub mod listing;
pub mod listing_laws;
pub mod lsof;
pub mod messages;
pub mod model;
pub mod number;
pub mod order;
pub mod process;
pub mod process_laws;
pub mod process_mac;
pub mod report_laws;
pub mod socket_laws;
pub mod ss;
pub mod stats;
pub mod stats_laws;
pub mod table;
pub mod table_laws;
pub mod text;
pub mod text_laws;
pub mod update;
pub mod update_laws;
pub mod view_laws;
pub mod wait;
pub mod width;
