//! Recurring calendar events: a small line-based event language, the
//! expansion of each event rule into the concrete dates of a year, and the
//! month, year and diary grids that those dates are laid out in.

pub mod calendar;
pub mod easter;
pub mod recurrence;
pub mod laws;
pub mod text;
pub mod parser;
pub mod layout;
pub mod import;
