use vstd::prelude::*;
use vstd::string::StrSliceExecFns;
use vstd::string::StringExecFns;

verus! {

/// A catalog course: a subject prefix (a department code) and a course number.
pub struct Course {
    pub subject_prefix: String,
    pub course_number: String,
}

/// `"{prefix} {number}"`, the human-readable course name.
pub open spec fn spec_course_name(prefix: Seq<char>, number: Seq<char>) -> Seq<char> {
    prefix + seq![' '] + number
}

/// `"{prefix}_{first digit}{last two digits}"`: the course-group key.
/// Cross-listed courses share it and may stand in for one another.
pub open spec fn spec_course_key(prefix: Seq<char>, number: Seq<char>) -> Seq<char> {
    prefix + seq!['_'] + number.subrange(0, 1) + number.subrange(
        number.len() - 2,
        number.len() as int,
    )
}

impl Course {
    /// The number needs at least two characters for the group key to exist.
    pub open spec fn wf(&self) -> bool {
        self.course_number@.len() >= 2
    }

    pub open spec fn spec_name(&self) -> Seq<char> {
        spec_course_name(self.subject_prefix@, self.course_number@)
    }

    pub open spec fn spec_key(&self) -> Seq<char> {
        spec_course_key(self.subject_prefix@, self.course_number@)
    }

    pub fn new(subject_prefix: &str, course_number: &str) -> (r: Course)
        ensures
            r.subject_prefix@ == subject_prefix@,
            r.course_number@ == course_number@,
    {
        Course {
            subject_prefix: String::from_str(subject_prefix),
            course_number: String::from_str(course_number),
        }
    }

    pub fn name(&self) -> (r: String)
        ensures
            r@ == self.spec_name(),
    {
        let mut r = self.subject_prefix.clone();
        r.append(" ");
        r.append(self.course_number.as_str());
        proof {
            reveal_strlit(" ");
            assert(r@ =~= self.spec_name());
        }
        r
    }

    pub fn course_key(&self) -> (r: String)
        requires
            self.wf(),
        ensures
            r@ == self.spec_key(),
    {
        let len = self.course_number.as_str().unicode_len();
        let mut r = self.subject_prefix.clone();
        r.append("_");
        r.append(self.course_number.as_str().substring_char(0, 1));
        r.append(self.course_number.as_str().substring_char(len - 2, len));
        proof {
            reveal_strlit("_");
            assert(r@ =~= self.spec_key());
        }
        r
    }
}

} // verus!
