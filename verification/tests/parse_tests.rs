use course_catalog::course::CourseCode;
use course_catalog::parse::{
    aggregate, courses_for_subject, enumerate_subjects, parse_block, split_blocks, ParseError,
};

const FULL_BLOCK: &str = "<strong>BIO&#160;110.  Intro to Biology.  3.00 Credit Hours.  </strong><p class=courseblockdesc>Basic concepts.<br />\nPre / Co requisites: <a title=\"BIO 100\">BIO 100</a> <br />\nGen Ed Attribute: Natural Science &amp; Lab.<br />\n</p>\n";

#[test]
fn full_detail_block_parses_every_field() {
    let code = CourseCode::new("BIO", 110);
    let course = parse_block(&code, FULL_BLOCK).unwrap();
    assert_eq!(course.title, "Intro to Biology");
    assert_eq!(course.credits.parse::<f32>().unwrap(), 3.00);
    assert_eq!(course.description, "Basic concepts.");
    assert_eq!(course.pre_requirements, vec!["BIO 100".to_string()]);
    assert_eq!(
        course.gen_ed_fulfillments,
        vec!["Natural Science".to_string(), "Lab".to_string()]
    );
    assert!(!course.distance_available);
    assert!(course.offered_terms.is_empty());
    assert_eq!(course.code.prefix, "BIO");
    assert_eq!(course.code.number, 110);
}

#[test]
fn stub_block_parses_via_fallback() {
    let code = CourseCode::new("CSC", 101);
    let raw = "<strong>CSC&#160;101.  Intro to Programming.  3</strong>";
    let course = parse_block(&code, raw).unwrap();
    assert_eq!(course.title, "Intro to Programming");
    assert_eq!(course.credits.parse::<f32>().unwrap(), 3.0);
    assert_eq!(course.description, "No Description");
    assert!(course.pre_requirements.is_empty());
    assert!(course.gen_ed_fulfillments.is_empty());
    assert!(course.offered_terms.is_empty());
    assert!(!course.distance_available);
}

#[test]
fn reparsing_a_block_reproduces_the_record() {
    let a = parse_block(&CourseCode::new("BIO", 110), FULL_BLOCK).unwrap();
    let b = parse_block(&CourseCode::new("BIO", 110), FULL_BLOCK).unwrap();
    assert_eq!(a.title, b.title);
    assert_eq!(a.code.prefix, b.code.prefix);
    assert_eq!(a.code.number, b.code.number);
    assert_eq!(a.description, b.description);
    assert_eq!(a.credits, b.credits);
    assert_eq!(a.pre_requirements, b.pre_requirements);
    assert_eq!(a.gen_ed_fulfillments, b.gen_ed_fulfillments);
    assert_eq!(a.distance_available, b.distance_available);
    assert_eq!(a.offered_terms, b.offered_terms);
}

#[test]
fn unrecognized_block_is_a_parse_error() {
    let code = CourseCode::new("BIO", 110);
    let err = parse_block(&code, "no course markup here").unwrap_err();
    assert_eq!(err, ParseError::UnrecognizedBlock);
}

#[test]
fn prerequisites_skip_the_self_reference_and_dedup() {
    let code = CourseCode::new("BIO", 210);
    let raw = "<strong>BIO&#160;210.  Genetics.  3.00 Credit Hours.  </strong><p class=courseblockdesc>Genes.<br />\nPre / Co requisites: <a title=\"BIO&#160;210\">BIO 210</a>: <a title=\"BIO&#160;110\">BIO 110</a> and <a title=\"BIO&#160;110\">BIO 110</a> or <a title=\"CHE&#160;103\">CHE 103</a><br />\n</p>\n";
    let course = parse_block(&code, raw).unwrap();
    assert_eq!(
        course.pre_requirements,
        vec!["BIO 110".to_string(), "CHE 103".to_string()]
    );
}

#[test]
fn distance_marker_sets_the_flag() {
    let code = CourseCode::new("PSY", 100);
    let raw = "<strong>PSY&#160;100.  General Psychology.  3.00 Credit Hours.  </strong><p class=courseblockdesc>Minds.<br />\nDistance education offering may be available.<br />\n</p>\n";
    let course = parse_block(&code, raw).unwrap();
    assert!(course.distance_available);
    assert_eq!(course.description, "Minds.");
}

#[test]
fn offered_terms_are_cleaned() {
    let code = CourseCode::new("MAT", 121);
    let raw = "<strong>MAT&#160;121.  Statistics I.  3.00 Credit Hours.  </strong><p class=courseblockdesc>Data.<br />\nTypically offered in Fall, Spring &amp; Summer.<br />\n</p>\n";
    let course = parse_block(&code, raw).unwrap();
    assert_eq!(
        course.offered_terms,
        vec!["Fall".to_string(), "Spring".to_string(), "Summer".to_string()]
    );
    for term in &course.offered_terms {
        assert!(!term.ends_with('.'));
        assert_eq!(term, term.trim());
    }
}

#[test]
fn gen_ed_entries_have_no_trailing_period_or_whitespace() {
    let course = parse_block(&CourseCode::new("BIO", 110), FULL_BLOCK).unwrap();
    for entry in &course.gen_ed_fulfillments {
        assert!(!entry.ends_with('.'));
        assert_eq!(entry, entry.trim());
    }
}

#[test]
fn title_ampersand_is_unescaped() {
    let code = CourseCode::new("HIS", 200);
    let raw = "<strong>HIS&#160;200.  War &amp; Peace.  3.00 Credit Hours.  </strong><p class=courseblockdesc>History.<br />\n</p>\n";
    let course = parse_block(&code, raw).unwrap();
    assert_eq!(course.title, "War & Peace");
}

#[test]
fn split_blocks_finds_each_container() {
    let body = "<course code=\"BIO 110\">\n<![CDATA[<strong>BIO&#160;110.  A.  3</strong>]]>\n<course code=\"BIO 210\">\n<![CDATA[<strong>BIO&#160;210.  B.  4</strong>]]>";
    let blocks = split_blocks(body);
    assert_eq!(blocks.len(), 2);
    assert_eq!(blocks[0].0, 110);
    assert_eq!(blocks[0].1, "<strong>BIO&#160;110.  A.  3</strong>");
    assert_eq!(blocks[1].0, 210);
    assert_eq!(blocks[1].1, "<strong>BIO&#160;210.  B.  4</strong>");
}

#[test]
fn split_blocks_of_empty_body_is_empty() {
    assert!(split_blocks("nothing to see").is_empty());
}

#[test]
fn enumerate_subjects_keeps_order_and_duplicates() {
    let body = "x href=\"/general-information/index-course-prefix-guide/course-index/undergraduate/BIO/\" y general-information/index-course-prefix-guide/course-index/undergraduate/CSC/ z general-information/index-course-prefix-guide/course-index/undergraduate/BIO/";
    let subjects = enumerate_subjects(body);
    assert_eq!(
        subjects,
        vec!["BIO".to_string(), "CSC".to_string(), "BIO".to_string()]
    );
}

#[test]
fn enumerate_subjects_of_plain_body_is_empty() {
    assert!(enumerate_subjects("no links").is_empty());
}

#[test]
fn courses_for_subject_parses_each_block() {
    let body = "<course code=\"CSC 101\">\n<![CDATA[<strong>CSC&#160;101.  Intro to Programming.  3</strong>]]>\n<course code=\"CSC 240\">\n<![CDATA[<strong>CSC&#160;240.  Algorithms.  3</strong>]]>";
    let courses = courses_for_subject("CSC", body).unwrap();
    assert_eq!(courses.len(), 2);
    assert_eq!(courses[0].title, "Intro to Programming");
    assert_eq!(courses[0].code.number, 101);
    assert_eq!(courses[1].title, "Algorithms");
    assert_eq!(courses[1].code.number, 240);
    assert_eq!(courses[1].code.prefix, "CSC");
}

#[test]
fn courses_for_subject_fails_on_a_bad_block() {
    let body = "<course code=\"CSC 101\">\n<![CDATA[garbage]]>";
    let err = courses_for_subject("CSC", body).unwrap_err();
    assert_eq!(err, ParseError::UnrecognizedBlock);
}

#[test]
fn aggregate_concatenates_in_subject_order() {
    let bio = "<course code=\"BIO 110\">\n<![CDATA[<strong>BIO&#160;110.  Biology.  3</strong>]]>".to_string();
    let csc = "<course code=\"CSC 101\">\n<![CDATA[<strong>CSC&#160;101.  Programming.  3</strong>]]>".to_string();
    let subjects = vec!["BIO".to_string(), "CSC".to_string()];
    let bodies = vec![bio, csc];
    let set = aggregate(&subjects, &bodies).unwrap();
    assert_eq!(set.prefixes, subjects);
    assert_eq!(set.courses.len(), 2);
    assert_eq!(set.courses[0].code.display(), "BIO 110");
    assert_eq!(set.courses[1].code.display(), "CSC 101");
}
