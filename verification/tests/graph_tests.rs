use course_catalog::course::{Course, CourseCode};
use course_catalog::graph::{build_graph, node_identifier};

fn course(prefix: &str, number: u32, pre: Vec<&str>) -> Course {
    Course {
        title: format!("Course {}", number),
        code: CourseCode::new(prefix, number),
        description: "No Description".to_string(),
        credits: "3".to_string(),
        pre_requirements: pre.into_iter().map(|s| s.to_string()).collect(),
        gen_ed_fulfillments: Vec::new(),
        distance_available: false,
        offered_terms: Vec::new(),
    }
}

#[test]
fn graph_of_two_courses_one_prerequisite() {
    let courses = vec![course("BIO", 110, vec![]), course("BIO", 210, vec!["BIO 110"])];
    let g = build_graph(&courses, "BIO");
    assert_eq!(g.nodes, vec!["BIO 110".to_string(), "BIO 210".to_string()]);
    assert_eq!(
        g.edges,
        vec![("BIO 110".to_string(), "BIO 210".to_string())]
    );
}

#[test]
fn wildcard_nodes_are_the_union_over_subjects() {
    let courses = vec![
        course("BIO", 110, vec![]),
        course("CSC", 101, vec![]),
        course("BIO", 210, vec!["BIO 110"]),
    ];
    let all = build_graph(&courses, "*");
    let bio = build_graph(&courses, "BIO");
    let csc = build_graph(&courses, "CSC");
    let mut union: Vec<String> = Vec::new();
    union.extend(bio.nodes.iter().cloned());
    union.extend(csc.nodes.iter().cloned());
    let mut all_nodes = all.nodes.clone();
    all_nodes.sort();
    union.sort();
    assert_eq!(all_nodes, union);
}

#[test]
fn wildcard_generates_no_edges_for_other_prefixes() {
    let courses = vec![course("BIO", 210, vec!["BIO 110"])];
    let g = build_graph(&courses, "*");
    assert_eq!(g.nodes, vec!["BIO 210".to_string()]);
    assert!(g.edges.is_empty());
}

#[test]
fn edge_count_is_the_sum_of_prerequisite_lengths() {
    let courses = vec![
        course("BIO", 110, vec![]),
        course("BIO", 210, vec!["BIO 110", "CHE 103"]),
        course("CSC", 240, vec!["CSC 101"]),
    ];
    let g = build_graph(&courses, "BIO");
    assert_eq!(g.edges.len(), 0 + 2);
    let g = build_graph(&courses, "CSC");
    assert_eq!(g.edges.len(), 1);
}

#[test]
fn prerequisites_from_other_subjects_are_valid_edge_sources() {
    let courses = vec![course("BIO", 210, vec!["CHE 103"])];
    let g = build_graph(&courses, "BIO");
    assert_eq!(
        g.edges,
        vec![("CHE 103".to_string(), "BIO 210".to_string())]
    );
}

#[test]
fn node_identifier_lowercases_and_underscores() {
    assert_eq!(node_identifier("BIO 110"), "bio_110");
    assert_eq!(node_identifier("csc 101"), "csc_101");
}
