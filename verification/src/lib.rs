//! The core of `jofi`, an application launcher for desktop entries: it finds the entries, searches
//! them in spite of typing errors, counts launches, builds the command of an entry and keeps the
//! state of the launcher window.
//!
//! Reading and writing files, starting processes, the clock, the Wayland window and text layout are
//! left to the program around it: they hand in plain values and take plain values back.

pub mod canvas;
pub mod desktop;
pub mod desktop_laws;
pub mod distance;
pub mod drawing_laws;
pub mod events;
pub mod history;
pub mod history_laws;
pub mod launcher;
pub mod launcher_laws;
pub mod order;
pub mod paths;
pub mod place_laws;
pub mod ranking;
pub mod report;
pub mod score_laws;
pub mod search;
pub mod search_laws;
pub mod table;
pub mod telemetry;
pub mod telemetry_laws;
pub mod text;
pub mod text_laws;
pub mod ui;
pub mod ui_laws;
pub mod unicode;
