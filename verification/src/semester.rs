use vstd::prelude::*;

verus! {

/// One semester of a validation request: the names of the courses taken
/// concurrently.
#[derive(Clone, Debug, PartialEq, Eq)]
pub struct SemesterData {
    pub courses: Vec<String>,
}

} // verus!
