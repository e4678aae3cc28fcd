use scheduling::edf::edf_scheduler;
use scheduling::parse::{parse_job_list, ParseError};

#[test]
fn parses_whitespace_separated_records() {
    let v = parse_job_list("A/3/5 B/2/3\nC/4/10").unwrap();
    assert_eq!(v.len(), 3);
    assert_eq!(v[0].name, "A");
    assert_eq!(v[0].p, 3);
    assert_eq!(v[0].d, 5);
    assert_eq!(v[1].name, "B");
    assert_eq!(v[1].p, 2);
    assert_eq!(v[1].d, 3);
    assert_eq!(v[2].name, "C");
    assert_eq!(v[2].p, 4);
    assert_eq!(v[2].d, 10);
}

#[test]
fn parses_tabs_and_carriage_returns_as_separators() {
    let v = parse_job_list("\t A/1/1\r\nB/2/2  ").unwrap();
    assert_eq!(v.len(), 2);
    assert_eq!(v[0].name, "A");
    assert_eq!(v[1].name, "B");
}

#[test]
fn parses_all_unicode_whitespace_as_separators() {
    // Form feed, no-break space, ideographic space: everything
    // `str::split_whitespace` splits on separates records here too.
    let v = parse_job_list("A/1/1\u{000C}B/2/2\u{00A0}C/3/3\u{3000}D/4/4").unwrap();
    assert_eq!(v.len(), 4);
    assert_eq!(v[3].name, "D");
}

#[test]
fn empty_input_is_an_empty_job_list() {
    let v = parse_job_list("").unwrap();
    assert!(v.is_empty());
}

#[test]
fn negative_and_signed_fields_parse() {
    let v = parse_job_list("A/+3/-7").unwrap();
    assert_eq!(v[0].p, 3);
    assert_eq!(v[0].d, -7);
}

#[test]
fn empty_name_is_accepted() {
    let v = parse_job_list("/1/2").unwrap();
    assert_eq!(v[0].name, "");
    assert_eq!(v[0].p, 1);
    assert_eq!(v[0].d, 2);
}

#[test]
fn non_integer_field_is_malformed() {
    assert_eq!(parse_job_list("A/x/5"), Err(ParseError::BadRecord));
}

#[test]
fn missing_field_is_malformed() {
    assert_eq!(parse_job_list("A/3"), Err(ParseError::BadRecord));
}

#[test]
fn extra_field_is_malformed() {
    assert_eq!(parse_job_list("A/3/5/7"), Err(ParseError::BadRecord));
}

#[test]
fn zero_processing_time_is_malformed() {
    assert_eq!(parse_job_list("A/0/5"), Err(ParseError::BadRecord));
}

#[test]
fn negative_processing_time_is_malformed() {
    assert_eq!(parse_job_list("A/-2/5"), Err(ParseError::BadRecord));
}

#[test]
fn out_of_range_number_is_malformed() {
    assert_eq!(parse_job_list("A/99999999999999999999/1"), Err(ParseError::BadRecord));
    assert_eq!(parse_job_list("A/1/2147483648"), Err(ParseError::BadRecord));
}

#[test]
fn extreme_in_range_numbers_parse() {
    let v = parse_job_list("A/2147483647/-2147483648").unwrap();
    assert_eq!(v[0].p, i32::MAX);
    assert_eq!(v[0].d, i32::MIN);
}

#[test]
fn sign_alone_is_malformed() {
    assert_eq!(parse_job_list("A/-/5"), Err(ParseError::BadRecord));
}

#[test]
fn total_processing_time_beyond_the_clock_is_overload() {
    assert_eq!(
        parse_job_list("A/2000000000/1 B/2000000000/1"),
        Err(ParseError::Overload)
    );
}

#[test]
fn parsed_jobs_schedule_directly() {
    let v = parse_job_list("A/3/5 B/2/3 C/4/10").unwrap();
    let r = edf_scheduler(v);
    let order: Vec<&str> = r.jobs.iter().map(|j| j.name.as_str()).collect();
    assert_eq!(order, vec!["B", "A", "C"]);
    assert_eq!(r.cost, 1);
}
