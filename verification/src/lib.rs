//! Assignment of students to time-slotted course sections.
//!
//! A catalog holds the divisions of every subject, each with a quota and
//! weekly hours; a roster holds the students, each with one decision per
//! tracked subject. The engine enrols students in divisions so that no
//! division holds more students than its quota and no student is enrolled
//! in two divisions that overlap in time.
//!
//! - [`interval`], [`schedule`]: weekly hours, their disjointness and their
//!   written form.
//! - [`subject`], [`student`], [`model`]: divisions, the catalog, students,
//!   and the mathematical views over which all contracts are stated.
//! - [`engine`], [`roster`]: the one step that enrols a student, and what
//!   every step keeps true of roster and catalog.
//! - [`replay`]: counting the enrolments that a roster brings with it.
//! - [`fill`], [`pass`], [`partition`], [`sampling`]: filling divisions
//!   from the eligible students, pass by pass.
//! - [`laws`]: what holds of every run.
//! - [`table`], [`order`], [`text`]: records, rows and the order of rows.
//!
//! Every function carries a contract that Verus checks. The two functions
//! that call code Verus does not see, `sampling::sample` and
//! `table::quote`, say so in their comments.
pub mod engine;
pub mod error;
pub mod fill;
pub mod interval;
pub mod laws;
pub mod model;
pub mod order;
pub mod partition;
pub mod pass;
pub mod replay;
pub mod roster;
pub mod sampling;
pub mod schedule;
pub mod student;
pub mod subject;
pub mod table;
pub mod text;
