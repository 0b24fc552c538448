//! Core of a browsable markdown archive: a directory indexing and ordering
//! engine, a content synchronization state machine, and the guard flag that
//! gates tree reads while a synchronization attempt is in flight.

pub mod file_structure;
pub mod html_generator;
pub mod update_state;
pub mod updater;
