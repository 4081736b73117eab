use sql_ast_benchmark::record::extract_field;
use sql_ast_benchmark::record::extract_mean_and_std_dev;
use sql_ast_benchmark::record::parses_as_float;

const WELL_FORMED: &str = "{\"mean\": {\"confidence_interval\": {\"lower_bound\": 12000.0},\
 \"point_estimate\": 12345.0, \"standard_error\": 3.5},\
 \"std_dev\": {\"point_estimate\": 67.0, \"standard_error\": 0.9}}";

#[test]
fn well_formed_record_yields_both_values() {
    let got = extract_mean_and_std_dev(WELL_FORMED);
    let (mean, std_dev) = got.expect("mean and std_dev should both parse");
    assert_eq!(mean.parse::<f64>().unwrap(), 12345.0);
    assert_eq!(std_dev.parse::<f64>().unwrap(), 67.0);
}

#[test]
fn mean_alone_defaults_std_dev_to_zero() {
    let content = "{\"mean\": {\"point_estimate\": 250.5}}";
    let (mean, std_dev) = extract_mean_and_std_dev(content).unwrap();
    assert_eq!(mean.parse::<f64>().unwrap(), 250.5);
    assert_eq!(std_dev.parse::<f64>().unwrap(), 0.0);
}

#[test]
fn unparsable_mean_yields_none_despite_std_dev() {
    let content = "{\"mean\": {\"point_estimate\": oops},\
                   \"std_dev\": {\"point_estimate\": 67.0}}";
    assert!(extract_mean_and_std_dev(content).is_none());
}

#[test]
fn absent_mean_yields_none_despite_std_dev() {
    let content = "{\"median\": {\"point_estimate\": 1.0},\
                   \"std_dev\": {\"point_estimate\": 67.0}}";
    assert!(extract_mean_and_std_dev(content).is_none());
}

#[test]
fn extract_field_reads_first_occurrence_after_key() {
    let token = extract_field(WELL_FORMED, "\"std_dev\"").unwrap();
    assert_eq!(token, "67.0");
    assert!(extract_field(WELL_FORMED, "\"median\"").is_none());
}

#[test]
fn extract_field_needs_a_delimiter_after_the_token() {
    let content = "\"mean\": {\"point_estimate\": 12345.0";
    assert!(extract_field(content, "\"mean\"").is_none());
}

#[test]
fn scientific_and_special_tokens_parse() {
    assert!(parses_as_float("12345.0"));
    assert!(parses_as_float("-1.5e-3"));
    assert!(parses_as_float("+.5"));
    assert!(parses_as_float("7."));
    assert!(parses_as_float("1e5"));
    assert!(parses_as_float("inf"));
    assert!(parses_as_float("NaN"));
    assert!(parses_as_float("-Infinity"));
}

#[test]
fn malformed_tokens_do_not_parse() {
    assert!(!parses_as_float(""));
    assert!(!parses_as_float("."));
    assert!(!parses_as_float("+"));
    assert!(!parses_as_float("1.2.3"));
    assert!(!parses_as_float("1e"));
    assert!(!parses_as_float("e5"));
    assert!(!parses_as_float("12a"));
    assert!(!parses_as_float("1 2"));
}

#[test]
fn float_acceptance_matches_std_parsing() {
    let samples = [
        "12345.0", "-1.5e-3", "+.5", "7.", "1e5", "inf", "NaN", "-Infinity", "", ".", "+",
        "1.2.3", "1e", "e5", "12a", "1 2", "0012", "9e+09",
    ];
    for s in samples {
        assert_eq!(parses_as_float(s), s.parse::<f64>().is_ok(), "token {s:?}");
    }
}

#[test]
fn extraction_takes_the_first_point_estimate_after_the_key() {
    // Known ordering limitation: a same-named nested field of an unrelated
    // object standing between the container key and its own point estimate
    // is read instead, yielding a wrong value rather than none.
    let content = "{\"mean\": {\"other\": {\"point_estimate\": 99.0},\
 \"point_estimate\": 12345.0}}";
    let token = extract_field(content, "\"mean\"").unwrap();
    assert_eq!(token.parse::<f64>().unwrap(), 99.0);
}
