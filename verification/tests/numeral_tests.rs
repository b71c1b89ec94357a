use osm_extract_polygon::numeral::i64_to_dec;
use osm_extract_polygon::numeral::parse_i64;
use osm_extract_polygon::numeral::u64_to_dec;
use osm_extract_polygon::tags::Tags;
use osm_extract_polygon::utils::values_to_set;

#[test]
fn test_parse_plain_and_signed_numerals() {
    assert_eq!(parse_i64("42"), Some(42));
    assert_eq!(parse_i64("+7"), Some(7));
    assert_eq!(parse_i64("-8"), Some(-8));
    assert_eq!(parse_i64("0"), Some(0));
    assert_eq!(parse_i64("300"), Some(300));
}

#[test]
fn test_parse_rejects_malformed_input() {
    assert_eq!(parse_i64(""), None);
    assert_eq!(parse_i64("-"), None);
    assert_eq!(parse_i64("+"), None);
    assert_eq!(parse_i64("abc"), None);
    assert_eq!(parse_i64("12x"), None);
    assert_eq!(parse_i64(" 12"), None);
    assert_eq!(parse_i64("1.5"), None);
}

#[test]
fn test_parse_respects_integer_limits() {
    assert_eq!(parse_i64("9223372036854775807"), Some(i64::MAX));
    assert_eq!(parse_i64("-9223372036854775808"), Some(i64::MIN));
    assert_eq!(parse_i64("9223372036854775808"), None);
    assert_eq!(parse_i64("-9223372036854775809"), None);
    assert_eq!(parse_i64("99999999999999999999999999999"), None);
}

#[test]
fn test_decimal_rendering() {
    assert_eq!(u64_to_dec(0), "0");
    assert_eq!(u64_to_dec(7), "7");
    assert_eq!(u64_to_dec(105), "105");
    assert_eq!(i64_to_dec(123), "123");
    assert_eq!(i64_to_dec(-123), "-123");
    assert_eq!(i64_to_dec(i64::MIN), "-9223372036854775808");
}

#[test]
fn test_tags_lookup_finds_first_match() {
    let tags = Tags {
        pairs: vec![
            (String::from("name"), String::from("A")),
            (String::from("boundary"), String::from("administrative")),
        ],
    };
    assert_eq!(tags.get("name").map(|s| s.as_str()), Some("A"));
    assert_eq!(tags.get("nothere"), None);
    assert!(tags.contains("boundary", "administrative"));
    assert!(!tags.contains("boundary", "maritime"));
}

#[test]
fn test_values_to_set_collects_unique_ids() {
    let map = vec![(1i64, vec![10, 20]), (2i64, vec![20, 30]), (3i64, vec![])];
    let mut set = values_to_set(&map);
    set.sort();
    assert_eq!(set, vec![10, 20, 30]);
}
