use course_recommender::course::Course;
use course_recommender::graph::CourseGraph;
use course_recommender::graph::CourseGraphBuilder;
use course_recommender::graph::VertexType;
use course_recommender::requirement::Requirement;
use course_recommender::semester::SemesterData;
use course_recommender::validator::index;
use course_recommender::validator::PrereqData;
use course_recommender::nebula::NebulaCourse;
use course_recommender::nebula::RequirementCollection;
use course_recommender::pipeline::CourseRecommenderPipeline;

fn no_requirements() -> RequirementCollection {
    RequirementCollection {
        collection_type: String::from(""),
        options: None,
        class_reference: None,
        required: None,
    }
}

fn course_ref(id: u64) -> RequirementCollection {
    RequirementCollection {
        collection_type: String::from("course"),
        options: None,
        class_reference: Some(id),
        required: None,
    }
}

fn collection(required: i32, options: Vec<RequirementCollection>) -> RequirementCollection {
    RequirementCollection {
        collection_type: String::from("collection"),
        options: Some(options),
        class_reference: None,
        required: Some(required),
    }
}

fn course(
    id: u64,
    prefix: &str,
    number: &str,
    prerequisites: RequirementCollection,
    corequisites: RequirementCollection,
) -> NebulaCourse {
    NebulaCourse {
        id: Some(id),
        course_number: String::from(number),
        subject_prefix: String::from(prefix),
        prerequisites,
        corequisites,
        co_or_pre_requisites: no_requirements(),
    }
}

/// The four-course catalog of the scenario suite: B needs A beforehand, C
/// needs A alongside, D needs two of A, B, C beforehand.
fn scenario_graph() -> CourseGraph {
    let db = vec![
        course(1, "MATH", "1111", no_requirements(), no_requirements()),
        course(2, "MATH", "2222", collection(1, vec![course_ref(1)]), no_requirements()),
        course(3, "MATH", "3333", no_requirements(), collection(1, vec![course_ref(1)])),
        course(
            4,
            "MATH",
            "4444",
            collection(2, vec![course_ref(1), course_ref(2), course_ref(3)]),
            no_requirements(),
        ),
    ];
    CourseGraphBuilder::build_from_db(&db)
}

fn validate(g: &CourseGraph, semesters: Vec<Vec<&str>>, bypasses: Vec<&str>) -> Result<(), String> {
    let sems: Vec<Vec<String>> = semesters
        .iter()
        .map(|s| s.iter().map(|c| String::from(*c)).collect())
        .collect();
    let byps: Vec<String> = bypasses.iter().map(|c| String::from(*c)).collect();
    let mut pipeline = CourseRecommenderPipeline::new(g);
    pipeline.process(sems, byps)
}

#[test]
fn empty_plan_is_ok() {
    let g = scenario_graph();
    assert_eq!(validate(&g, vec![vec![]], vec![]), Ok(()));
}

#[test]
fn lone_course_without_requirements_is_ok() {
    let g = scenario_graph();
    assert_eq!(validate(&g, vec![vec!["MATH 1111"]], vec![]), Ok(()));
}

#[test]
fn prerequisite_missing_is_reported_with_deficit() {
    let g = scenario_graph();
    assert_eq!(
        validate(&g, vec![vec!["MATH 2222"]], vec![]),
        Err(String::from(
            "Found course with unfulfilled pre/corequisites: MATH 2222 (Need 1 more requirement(s))"
        ))
    );
}

#[test]
fn prerequisite_in_earlier_semester_is_ok() {
    let g = scenario_graph();
    assert_eq!(validate(&g, vec![vec!["MATH 1111"], vec!["MATH 2222"]], vec![]), Ok(()));
}

#[test]
fn corequisite_in_same_semester_is_ok() {
    let g = scenario_graph();
    assert_eq!(validate(&g, vec![vec!["MATH 1111", "MATH 3333"]], vec![]), Ok(()));
}

#[test]
fn two_of_three_gate_fires_across_semesters() {
    let g = scenario_graph();
    assert_eq!(
        validate(&g, vec![vec!["MATH 1111", "MATH 2222"], vec!["MATH 4444"]], vec![]),
        Ok(())
    );
}

#[test]
fn unknown_course_is_invalid() {
    let g = scenario_graph();
    assert_eq!(
        validate(&g, vec![vec!["Z"]], vec![]),
        Err(String::from("Invalid course found: Z"))
    );
}

#[test]
fn unknown_bypass_is_invalid() {
    let g = scenario_graph();
    assert_eq!(
        validate(&g, vec![vec![]], vec!["Z"]),
        Err(String::from("Invalid course found: Z"))
    );
}

#[test]
fn seminar_without_companion_is_rejected() {
    let g = scenario_graph();
    assert_eq!(
        validate(&g, vec![vec!["UNIV 1010"]], vec![]),
        Err(String::from("Missing corequisite for seminar requirement"))
    );
}

#[test]
fn companion_without_seminar_is_rejected() {
    let g = scenario_graph();
    assert_eq!(
        validate(&g, vec![vec!["ECS 1100"]], vec![]),
        Err(String::from("Missing corequisite for seminar requirement"))
    );
}

#[test]
fn seminar_with_companion_is_stripped_and_ok() {
    let g = scenario_graph();
    assert_eq!(validate(&g, vec![vec!["UNIV 1010", "ECS 1100"]], vec![]), Ok(()));
}

#[test]
fn repeated_validation_gives_identical_results() {
    let g = scenario_graph();
    let plan = vec![vec!["MATH 2222"]];
    let first = validate(&g, plan.clone(), vec![]);
    let second = validate(&g, plan, vec![]);
    assert_eq!(first, second);
    let ok_plan = vec![vec!["MATH 1111"], vec!["MATH 2222"]];
    assert_eq!(
        validate(&g, ok_plan.clone(), vec![]),
        validate(&g, ok_plan, vec![])
    );
}

#[test]
fn adding_a_bypass_keeps_a_valid_plan_valid() {
    let g = scenario_graph();
    let plan = vec![vec!["MATH 1111"], vec!["MATH 2222"]];
    assert_eq!(validate(&g, plan.clone(), vec![]), Ok(()));
    assert_eq!(validate(&g, plan, vec!["MATH 3333"]), Ok(()));
}

#[test]
fn bypassed_prerequisite_counts() {
    let g = scenario_graph();
    assert_eq!(validate(&g, vec![vec!["MATH 2222"]], vec!["MATH 1111"]), Ok(()));
}

#[test]
fn prerequisite_order_matters() {
    let g = scenario_graph();
    assert_eq!(validate(&g, vec![vec!["MATH 1111"], vec!["MATH 2222"]], vec![]), Ok(()));
    assert_eq!(
        validate(&g, vec![vec!["MATH 2222"], vec!["MATH 1111"]], vec![]),
        Err(String::from(
            "Found course with unfulfilled pre/corequisites: MATH 2222 (Need 1 more requirement(s))"
        ))
    );
}

/// Two cross-listed courses share the group key MATH_111; one listing may
/// stand in for the other, but a lone member of a larger group does not
/// satisfy its own group.
fn cross_listed_graph() -> CourseGraph {
    let db = vec![
        course(1, "MATH", "1111", no_requirements(), no_requirements()),
        course(2, "MATH", "1011", no_requirements(), no_requirements()),
        course(3, "MATH", "2222", collection(1, vec![course_ref(1)]), no_requirements()),
    ];
    CourseGraphBuilder::build_from_db(&db)
}

#[test]
fn lone_member_of_larger_group_is_unsatisfied() {
    let g = cross_listed_graph();
    assert_eq!(
        validate(&g, vec![vec!["MATH 1111"]], vec![]),
        Err(String::from("Found course with unsatisfied group: MATH 1111"))
    );
}

#[test]
fn cross_listing_satisfies_the_group() {
    let g = cross_listed_graph();
    assert_eq!(validate(&g, vec![vec!["MATH 1111", "MATH 1011"]], vec![]), Ok(()));
}

#[test]
fn cross_listing_feeds_the_requirement_of_a_dependent() {
    let g = cross_listed_graph();
    assert_eq!(
        validate(
            &g,
            vec![vec!["MATH 1111", "MATH 1011"], vec!["MATH 2222"]],
            vec![]
        ),
        Ok(())
    );
}

#[test]
fn mutual_references_are_truncated_to_keep_the_graph_acyclic() {
    // Each course names the other as its prerequisite; the builder drops the
    // edge that would close the cycle, so validation still terminates and one
    // dependency direction survives.
    let db = vec![
        course(1, "MATH", "1111", collection(1, vec![course_ref(2)]), no_requirements()),
        course(2, "PHYS", "2222", collection(1, vec![course_ref(1)]), no_requirements()),
    ];
    let g = CourseGraphBuilder::build_from_db(&db);
    assert_eq!(
        validate(&g, vec![vec!["PHYS 2222"], vec!["MATH 1111"]], vec![]),
        Ok(())
    );
    assert!(validate(&g, vec![vec!["MATH 1111"]], vec![]).is_err());
    assert_eq!(validate(&g, vec![vec!["PHYS 2222"]], vec![]), Ok(()));
}

#[test]
fn seminar_and_companion_in_different_semesters_are_rejected() {
    let g = scenario_graph();
    assert_eq!(
        validate(&g, vec![vec!["UNIV 1010"], vec!["ECS 1100"]], vec![]),
        Err(String::from("Missing corequisite for seminar requirement"))
    );
}

#[test]
fn built_graph_answers_queries() {
    let g = scenario_graph();
    // Four course nodes plus one requirement node per non-empty tree.
    assert_eq!(g.size(), 7);
    let a = g.find_course_by_name("MATH 1111").unwrap();
    let b = g.find_course_by_name("MATH 2222").unwrap();
    let c = g.find_course_by_name("MATH 3333").unwrap();
    let d = g.find_course_by_name("MATH 4444").unwrap();
    assert_eq!((a, b, c, d), (0, 1, 2, 3));
    assert!(g.find_course_by_name("MATH 5555").is_none());
    assert_eq!(g.node_type(a), VertexType::COURSE);
    assert_eq!(g.node_type(4), VertexType::REQUIREMENT);
    assert_eq!(g.node_type(5), VertexType::REQUIREMENT);
    assert_eq!(g.node_type(6), VertexType::REQUIREMENT);
    // A feeds the three requirement gates; nothing feeds into it.
    assert_eq!(g.in_degree(a), 0);
    assert_eq!(g.out_degree(a), 3);
    // Each dependent course is fed by exactly its one top-level gate.
    assert_eq!(g.in_degree(b), 1);
    assert_eq!(g.in_degree(c), 1);
    assert_eq!(g.in_degree(d), 1);
    // The two-of-three gate has one incoming edge per option.
    let d_gate = 6;
    assert_eq!(g.in_degree(d_gate), 3);
}

#[test]
fn requirement_gate_truth_table() {
    let gate = Requirement::new(2);
    assert!(gate.is_satisfied(3, 0));
    assert!(gate.is_satisfied(3, 1));
    assert!(!gate.is_satisfied(3, 2));
    assert!(!gate.is_satisfied(3, 3));
    let zero = Requirement::new(0);
    assert!(zero.is_satisfied(3, 3));
}

#[test]
fn course_name_and_group_key() {
    let c = Course::new("CS", "1337");
    assert_eq!(c.name(), String::from("CS 1337"));
    assert_eq!(c.course_key(), String::from("CS_137"));
    let d = Course::new("CS", "1336");
    assert_eq!(d.course_key(), String::from("CS_136"));
}

#[test]
fn self_references_are_dropped() {
    // A course whose requirement names its own cross-listing gets no gate.
    let db = vec![
        course(1, "MATH", "1111", no_requirements(), no_requirements()),
        course(2, "MATH", "1011", collection(1, vec![course_ref(1)]), no_requirements()),
    ];
    let g = CourseGraphBuilder::build_from_db(&db);
    // No requirement node was created: the only option fell in the course's
    // own group, so the collection was empty.
    assert_eq!(g.size(), 2);
    assert_eq!(
        validate(&g, vec![vec!["MATH 1111", "MATH 1011"]], vec![]),
        Ok(())
    );
}

#[test]
fn unknown_reference_is_ignored() {
    let db = vec![course(
        1,
        "MATH",
        "1111",
        collection(1, vec![course_ref(99)]),
        no_requirements(),
    )];
    let g = CourseGraphBuilder::build_from_db(&db);
    assert_eq!(g.size(), 1);
    assert_eq!(validate(&g, vec![vec!["MATH 1111"]], vec![]), Ok(()));
}

#[test]
fn route_shapes_the_outcome() {
    let g = scenario_graph();
    let ok = index(
        &g,
        PrereqData {
            semester: vec![SemesterData { courses: vec![String::from("MATH 1111")] }],
            bypasses: vec![],
        },
    );
    assert!(ok.is_valid);
    assert_eq!(ok.invalid_reason, String::from(""));
    let bad = index(
        &g,
        PrereqData {
            semester: vec![SemesterData { courses: vec![String::from("Z")] }],
            bypasses: vec![],
        },
    );
    assert!(!bad.is_valid);
    assert_eq!(bad.invalid_reason, String::from("Invalid course found: Z"));
}
