//! The request and response shapes of the validation entry point, and the
//! compute part of the route itself. Transport and serialization live outside
//! the library.

use vstd::prelude::*;

use crate::graph::CourseGraph;
use crate::pipeline::spec_error_message;
use crate::pipeline::spec_process;
use crate::pipeline::CourseRecommenderPipeline;
use crate::semester::SemesterData;

verus! {

/// A validation request: semesters in order, plus bypassed course names.
pub struct PrereqData {
    pub semester: Vec<SemesterData>,
    pub bypasses: Vec<String>,
}

/// A validation response: valid, or the reason it is not.
pub struct PrereqResponse {
    pub is_valid: bool,
    pub invalid_reason: String,
}

/// The names of each requested semester, in order.
pub open spec fn spec_request_semesters(payload: PrereqData) -> Seq<Seq<Seq<char>>> {
    Seq::new(payload.semester@.len(), |i: int| payload.semester@[i].courses.deep_view())
}

/// Runs a fresh validation over the shared graph and shapes the outcome as a
/// response: valid with an empty reason, or invalid with the stable message.
pub fn index(course_graph: &CourseGraph, payload: PrereqData) -> (r: PrereqResponse)
    requires
        course_graph.wf(),
    ensures
        (match spec_process(
            *course_graph,
            spec_request_semesters(payload),
            payload.bypasses.deep_view(),
        ) {
            Ok(()) => r.is_valid && r.invalid_reason@ == Seq::<char>::empty(),
            Err(e) => !r.is_valid && r.invalid_reason@ == spec_error_message(e),
        }),
{
    let ghost p = payload;
    let mut semesters: Vec<Vec<String>> = Vec::new();
    let mut i: usize = 0;
    while i < payload.semester.len()
        invariant
            payload == p,
            i <= payload.semester@.len(),
            semesters@.len() == i,
            forall|k: int|
                0 <= k < i ==> (#[trigger] semesters@[k]).deep_view()
                    == payload.semester@[k].courses.deep_view(),
        decreases payload.semester@.len() - i,
    {
        let ghost pre = semesters@;
        let cs = payload.semester[i].courses.clone();
        semesters.push(cs);
        proof {
            assert forall|k: int| 0 <= k < i implies (#[trigger] semesters@[k]).deep_view() == pre[k].deep_view() by {
                assert(semesters@[k] == pre[k]);
            }
            assert forall|j: int|
                0 <= j < payload.semester@[i as int].courses@.len() implies #[trigger] cs@[j]
                == payload.semester@[i as int].courses@[j] by {
                let orig = payload.semester@[i as int].courses@[j];
                assert(vstd::pervasive::cloned::<String>(orig, cs@[j]));
                if vstd::pervasive::strictly_cloned::<String>(orig, cs@[j]) {
                    assert(call_ensures(<String as Clone>::clone, (&orig,), cs@[j]));
                }
            }
            assert(cs.deep_view() =~= payload.semester@[i as int].courses.deep_view());
            assert(semesters@[i as int] == cs);
            assert(semesters.deep_view()[i as int] == cs.deep_view());
        }
        i = i + 1;
    }
    proof {
        assert forall|k: int| 0 <= k < semesters@.len() implies #[trigger] semesters.deep_view()[k]
            == spec_request_semesters(p)[k] by {
            assert(semesters.deep_view()[k] == semesters@[k].deep_view());
        }
        assert(semesters.deep_view() =~= spec_request_semesters(p));
    }
    let mut pipeline = CourseRecommenderPipeline::new(course_graph);
    match pipeline.process(semesters, payload.bypasses) {
        Ok(()) => PrereqResponse { is_valid: true, invalid_reason: String::new() },
        Err(err) => PrereqResponse { is_valid: false, invalid_reason: err },
    }
}

} // verus!
