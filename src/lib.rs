//! A day-by-day journal of tasks and meetings kept as editable text lines.
pub mod text;
pub mod clock;
pub mod codec;
pub mod journal;
pub mod notify;
pub mod query;
pub mod laws;
