//! Logic of a small knowledge-graph notebook: dates for new notes, text
//! normalisation, `[[link]]` extraction and edges between notes, the
//! editor's state machine, and the integer parts of note placement.
pub mod calendar;
pub mod editor;
pub mod graph;
pub mod layout;
pub mod text;
