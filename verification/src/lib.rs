//! Weekly timetable planning.
//!
//! Subjects are known by their position in a list ordered by priority, slots
//! by their index in the weekly grid. A schedule gives every slot either a
//! subject or [`model::UNASSIGNED`]. Three stages work on it in turn:
//! [`allocation`] shares the weekly hours out among the subjects,
//! [`greedy`] places them first-fit into the grid, and [`minconflicts`]
//! repairs by local search what [`conflicts`] finds a schedule to violate.
//! [`greedy_mc`] runs the three one after the other, and [`basic_function`]
//! rebuilds per-subject groups from flat buffers.
pub mod allocation;
pub mod basic_function;
pub mod conflicts;
pub mod greedy;
pub mod greedy_mc;
pub mod minconflicts;
pub mod model;
pub mod random;
