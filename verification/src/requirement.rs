use vstd::prelude::*;

verus! {

/// A k-of-n gate derived from a catalog collection: it is satisfied once at
/// least `required_child` of its children have fired.
pub struct Requirement {
    pub required_child: u32,
}

impl Requirement {
    pub fn new(required_child: u32) -> (r: Requirement)
        ensures
            r.required_child == required_child,
    {
        Requirement { required_child }
    }

    /// Satisfied when no incoming edge remains unsatisfied, or when at least
    /// `required_child` of the initially incoming edges have fired.
    pub open spec fn spec_is_satisfied(&self, init_requirement: u32, remain_requirement: u32) -> bool {
        remain_requirement == 0 || init_requirement - remain_requirement >= self.required_child
    }

    pub fn is_satisfied(&self, init_requirement: u32, remain_requirement: u32) -> (r: bool)
        requires
            remain_requirement <= init_requirement,
        ensures
            r == self.spec_is_satisfied(init_requirement, remain_requirement),
    {
        remain_requirement == 0 || init_requirement - remain_requirement >= self.required_child
    }
}

} // verus!
