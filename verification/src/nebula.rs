//! The catalog model: course records and their requirement trees, as the
//! external catalog source delivers them.

use vstd::prelude::*;
use vstd::string::StringExecFns;

use crate::course::spec_course_key;
use crate::course::spec_course_name;
use crate::course::Course;

verus! {

#[derive(Clone, Copy, PartialEq, Eq, Structural)]
pub enum RequirementCollectionType {
    COLLECTION,
    COURSE,
}

/// A requirement tree: a `"collection"` node carries `required` (how many of
/// the options must be met) and `options`; a `"course"` node carries
/// `class_reference`, the id of the referenced course. Any other tag is
/// ignored by the graph builder, as is a missing field.
pub struct RequirementCollection {
    pub collection_type: String,
    pub options: Option<Vec<RequirementCollection>>,
    pub class_reference: Option<u64>,
    pub required: Option<i32>,
}

/// A catalog course record: a stable id, the two name parts, and one
/// requirement tree per role.
pub struct NebulaCourse {
    pub id: Option<u64>,
    pub course_number: String,
    pub subject_prefix: String,
    pub prerequisites: RequirementCollection,
    pub corequisites: RequirementCollection,
    pub co_or_pre_requisites: RequirementCollection,
}

impl RequirementCollection {
    pub open spec fn spec_requirement_type(&self) -> Option<RequirementCollectionType> {
        if self.collection_type@ == "collection"@ {
            Some(RequirementCollectionType::COLLECTION)
        } else if self.collection_type@ == "course"@ {
            Some(RequirementCollectionType::COURSE)
        } else {
            None
        }
    }

    pub fn requirement_type(&self) -> (r: Option<RequirementCollectionType>)
        ensures
            r == self.spec_requirement_type(),
    {
        if self.collection_type == String::from_str("collection") {
            Some(RequirementCollectionType::COLLECTION)
        } else if self.collection_type == String::from_str("course") {
            Some(RequirementCollectionType::COURSE)
        } else {
            None
        }
    }

    pub fn subrequirements(&self) -> (r: &Option<Vec<RequirementCollection>>)
        ensures
            r == &self.options,
    {
        &self.options
    }
}

impl NebulaCourse {
    /// A record the builder can take: it has an id and a number long enough
    /// for the group key.
    pub open spec fn wf(&self) -> bool {
        &&& self.id is Some
        &&& self.course_number@.len() >= 2
    }

    pub open spec fn spec_name(&self) -> Seq<char> {
        spec_course_name(self.subject_prefix@, self.course_number@)
    }

    pub open spec fn spec_key(&self) -> Seq<char> {
        spec_course_key(self.subject_prefix@, self.course_number@)
    }

    pub fn name(&self) -> (r: String)
        ensures
            r@ == self.spec_name(),
    {
        let c = Course::new(self.subject_prefix.as_str(), self.course_number.as_str());
        c.name()
    }

    pub fn course_key(&self) -> (r: String)
        requires
            self.wf(),
        ensures
            r@ == self.spec_key(),
    {
        let c = Course::new(self.subject_prefix.as_str(), self.course_number.as_str());
        c.course_key()
    }

    pub fn prerequisites(&self) -> (r: &RequirementCollection)
        ensures
            r == &self.prerequisites,
    {
        &self.prerequisites
    }

    pub fn corequisites(&self) -> (r: &RequirementCollection)
        ensures
            r == &self.corequisites,
    {
        &self.corequisites
    }

    pub fn co_or_pre_requisites(&self) -> (r: &RequirementCollection)
        ensures
            r == &self.co_or_pre_requisites,
    {
        &self.co_or_pre_requisites
    }
}

} // verus!
