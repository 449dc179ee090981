use crsec_simulation::cli::{parse_count, population_values, split_csv};

#[test]
fn split_csv_trims_and_drops_empty_fields() {
    assert_eq!(split_csv(" 6, 10 ,,20 ,"), vec!["6", "10", "20"]);
    assert!(split_csv("").is_empty());
    assert!(split_csv(" , ").is_empty());
    assert_eq!(split_csv("a"), vec!["a"]);
}

#[test]
fn counts_are_read_like_usize() {
    assert_eq!(parse_count("42"), Some(42));
    assert_eq!(parse_count("+7"), Some(7));
    assert_eq!(parse_count("007"), Some(7));
    assert_eq!(parse_count("-1"), None);
    assert_eq!(parse_count("+"), None);
    assert_eq!(parse_count(""), None);
    assert_eq!(parse_count("1e3"), None);
    assert_eq!(parse_count("99999999999999999999999"), None);
}

#[test]
fn population_values_name_the_bad_field() {
    assert_eq!(population_values("6,10,20"), Ok(vec![6, 10, 20]));
    assert_eq!(population_values(" 6 , x, 5"), Err("不正な人口: x".to_string()));
    assert_eq!(population_values(""), Ok(vec![]));
}
