//! A genetic-algorithm search for class timetables.
//!
//! A candidate timetable assigns each course an instructor, a room and a
//! half-open time interval measured in minutes. The conflict detector counts
//! pairwise resource clashes, fitness ranks candidates by that count, and the
//! evolution loop breeds better candidates from a randomly seeded population.

pub mod conflict;
pub mod evolve;
pub mod fitness;
mod sampling;
pub mod schedule;
