use course_catalog::course::CourseCode;

#[test]
fn test_course_code_fmt() {
    let code = CourseCode {
        prefix: "BIO".to_string(),
        number: 110,
    };
    assert_eq!(code.display(), "BIO 110");
    let code = CourseCode {
        prefix: "BIO".to_string(),
        number: 110,
    };
    assert_eq!(code.display(), "BIO 110");
}

#[test]
fn course_code_new_keeps_fields() {
    let code = CourseCode::new("CSC", 435);
    assert_eq!(code.prefix, "CSC");
    assert_eq!(code.number, 435);
    assert_eq!(code.display(), "CSC 435");
}

#[test]
fn course_code_display_large_number() {
    let code = CourseCode::new("FYE", 100);
    assert_eq!(code.display(), "FYE 100");
    let code = CourseCode::new("X", 4294967295);
    assert_eq!(code.display(), "X 4294967295");
}
