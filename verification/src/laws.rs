//! What the library promises, said of its inputs and its results.
//!
//! The modules of the library state their contracts over functions that say what is computed. The
//! laws here say what those functions mean: in numbers, letters and places, and by how the results
//! of several calls relate.
pub mod buffer;
pub mod calendar;
pub mod canonical;
pub mod cron;
pub mod duration;
pub mod range;
pub mod spec;
pub mod text;
pub mod time;
pub mod types;
