use preprocess_cancellation::layers::{FilterParserError, LayerFilter};

fn filter(expr: &str) -> LayerFilter {
    LayerFilter::try_from(&expr.as_bytes().to_vec()).unwrap()
}

#[test]
fn test_layer_filters_single_layer() {
    let result = filter("1");
    assert!(result.contains(1));
    assert!(!result.contains(2));
}

#[test]
fn test_layer_filter_all_layers() {
    let result = filter("*");
    assert!(result.contains(1));
    assert!(result.contains(100));
}

#[test]
fn test_layer_filter_all_step() {
    let result = filter("*/2");
    assert!(!result.contains(1));
    assert!(result.contains(2));
    assert!(!result.contains(3));
    assert!(result.contains(4));

    assert!(!result.contains(9999));
    assert!(result.contains(10000));
}

#[test]
fn test_layer_filter_bounded_range() {
    let result = filter("1-5");
    assert!(result.contains(1));
    assert!(result.contains(2));
    assert!(result.contains(3));
    assert!(result.contains(4));
    assert!(result.contains(5));
    assert!(!result.contains(6));
}

#[test]
fn test_layer_filter_range_start_unbounded() {
    let result = filter("5-");
    assert!(!result.contains(1));
    assert!(!result.contains(2));
    assert!(!result.contains(3));
    assert!(!result.contains(4));
    assert!(result.contains(5));
    assert!(result.contains(6));
}

#[test]
fn test_layer_filter_range_unbounded_stop() {
    let result = filter("-5");
    assert!(result.contains(1));
    assert!(result.contains(2));
    assert!(result.contains(3));
    assert!(result.contains(4));
    assert!(result.contains(5));
    assert!(!result.contains(6));
}

#[test]
fn test_layer_filter_range_step() {
    let result = filter("1-10/2");
    assert!(result.contains(1));
    assert!(!result.contains(2));
    assert!(result.contains(3));
    assert!(!result.contains(4));
    assert!(result.contains(5));
    assert!(!result.contains(6));
    assert!(result.contains(7));
    assert!(!result.contains(8));
    assert!(result.contains(9));
    assert!(!result.contains(10));
    assert!(!result.contains(11));
}

#[test]
fn test_multi_range() {
    let result = filter("1,3-5,6-10/2");

    assert!(result.contains(1));

    assert!(result.contains(3));
    assert!(result.contains(4));
    assert!(result.contains(5));

    assert!(result.contains(6));
    assert!(result.contains(8));
    assert!(result.contains(10));

    assert!(!result.contains(0));
    assert!(!result.contains(2));
    assert!(!result.contains(7));
    assert!(!result.contains(9));
    assert!(!result.contains(11));
}

#[test]
fn test_bad_step_reports_offending_text() {
    match LayerFilter::try_from(&b"1-5/x2".to_vec()) {
        Err(FilterParserError::StepSize(s)) => assert_eq!(s, b"x2".to_vec()),
        _ => panic!("a non-numeric step must fail as a step-size error"),
    }
}

#[test]
fn test_bad_start_reports_offending_text() {
    match LayerFilter::try_from(&b"a-5".to_vec()) {
        Err(FilterParserError::StartValue(s)) => assert_eq!(s, b"a".to_vec()),
        _ => panic!("a non-numeric start must fail as a start-value error"),
    }
}

#[test]
fn test_bad_stop_reports_offending_text() {
    match LayerFilter::try_from(&b"1-b,7".to_vec()) {
        Err(FilterParserError::StopValue(s)) => assert_eq!(s, b"b".to_vec()),
        _ => panic!("a non-numeric stop must fail as a stop-value error"),
    }
}

#[test]
fn test_first_bad_term_wins() {
    match LayerFilter::try_from(&b"1,2-/q,3-z".to_vec()) {
        Err(FilterParserError::StepSize(s)) => assert_eq!(s, b"q".to_vec()),
        _ => panic!("the first failing term decides the error"),
    }
}

#[test]
fn test_zero_step_parses_but_is_invalid() {
    let result = LayerFilter::try_from(&b"*/0".to_vec()).unwrap();
    assert!(!result.valid());
    assert!(filter("*").valid());
}
