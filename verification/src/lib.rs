//! Validation of degree plans against a university catalog.
//!
//! A catalog is turned into a bipartite graph of course nodes and k-of-n
//! requirement nodes; a degree plan (a sequence of semester course sets plus a
//! set of bypassed courses) is then checked semester by semester: prerequisites
//! must be met from strictly earlier semesters, corequisites may be met within
//! the same semester.

pub mod course;
pub mod graph;
pub mod laws;
pub mod nebula;
pub mod pgraph;
pub mod pipeline;
pub mod reach;
pub mod requirement;
pub mod semester;
pub mod validator;
