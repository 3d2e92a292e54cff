use axum_range::{
    parse_range_header, parse_ranges, Bound, ParseRangesError,
};

fn included(ranges: &[(u64, u64)]) -> Vec<(Bound<u64>, Bound<u64>)> {
    ranges.iter().map(|&(a, b)| (Bound::Included(a), Bound::Included(b))).collect()
}

#[test]
fn test_parse_range_header() {
    let tests = [
        ("bytes=0-100", 200, Ok(vec![(Bound::Included(0), Bound::Included(100))])),
        ("bytes=0-100,200-300", 500, Ok(vec![
            (Bound::Included(0), Bound::Included(100)),
            (Bound::Included(200), Bound::Included(300))
        ])),
        ("bytes=0-", 500, Ok(vec![(Bound::Included(0), Bound::Included(499))])),
        ("bytes=-100", 500, Ok(vec![(Bound::Included(400), Bound::Included(499))])),
        ("bytes=100-", 500, Ok(vec![(Bound::Included(100), Bound::Included(499))])),
        ("bytes=100-200", 500, Ok(vec![(Bound::Included(100), Bound::Included(200))])),
        ("bytes=100-200,300-400", 500, Ok(vec![
            (Bound::Included(100), Bound::Included(200)),
            (Bound::Included(300), Bound::Included(400))
        ])),
        ("bytes=-1", 500, Ok(vec![(Bound::Included(499), Bound::Included(499))])),
        ("bytes=0-0", 500, Ok(vec![(Bound::Included(0), Bound::Included(0))])),
        ("bytes=0-0,-1", 500, Ok(vec![
            (Bound::Included(0), Bound::Included(0)),
            (Bound::Included(499), Bound::Included(499))
        ])),
        ("bytes=0-4,-1", 500, Ok(vec![
            (Bound::Included(0), Bound::Included(4)),
            (Bound::Included(499), Bound::Included(499))
        ])),
        ("bytes=0-4,-1/*", 500, Ok(vec![
            (Bound::Included(0), Bound::Included(4)),
            (Bound::Included(499), Bound::Included(499))
        ])),
        ("bytes=0-24646", 500, Ok(vec![(Bound::Included(0), Bound::Included(499))])),
        ("bytes=0-24646/*", 500, Ok(vec![(Bound::Included(0), Bound::Included(499))])),
        ("bytes=0-24646", 500, Ok(vec![(Bound::Included(0), Bound::Included(499))])),
        ("bytes=0-24646/25000", 500, Ok(vec![(Bound::Included(0), Bound::Included(499))])),
        ("none", 500, Err(ParseRangesError::InvalidRange("none".to_string()))),
        ("bleets=100-324", 500, Err(ParseRangesError::InvalidRange("bleets=100-324".to_string()))),
        ("bytes=0-24646,100-200", 500, Ok(vec![
            (Bound::Included(0), Bound::Included(499))
        ])),
        ("bytes=0-24646,100-200,300-400", 500, Ok(vec![
            (Bound::Included(0), Bound::Included(499)),
        ])),
    ];

    for (i, (range_header, target_size, expected)) in tests.iter().enumerate() {
        let result = parse_range_header(range_header, *target_size);
        assert_eq!(result, *expected, "Failed to parse range header #{i}: {}\n{:?}", range_header, tests[i]);
    }
}

#[test]
fn test_parse_ranges() {
    let range_str = "bytes=0-100,200-300,400-500".to_string();
    println!("Ranges to parse: {}", range_str);
    let (ranges, suffix_length) = parse_ranges(range_str).unwrap();
    assert_eq!(ranges.len(), 3);
    assert_eq!(suffix_length, None);
    assert_eq!(ranges[0], (Bound::Included(0), Bound::Included(101)));
    assert_eq!(ranges[1], (Bound::Included(200), Bound::Included(301)));
    assert_eq!(ranges[2], (Bound::Included(400), Bound::Included(501)));

    let range_str = "bytes=-100".to_string();
    let (ranges, suffix_length) = parse_ranges(range_str).unwrap();
    assert_eq!(ranges.len(), 0);
    assert_eq!(suffix_length, Some(Some(100)));

    let range_str = "bytes=0-100".to_string();
    let (ranges, suffix_length) = parse_ranges(range_str).unwrap();
    assert_eq!(ranges.len(), 1);
    assert_eq!(suffix_length, None);
    assert_eq!(ranges[0], (Bound::Included(0), Bound::Included(101)));
}

#[test]
fn overlapping_ranges_are_joined_and_sorted() {
    assert_eq!(
        parse_range_header("bytes=500-700,601-999", 10000),
        Ok(included(&[(500, 999)]))
    );
    assert_eq!(
        parse_range_header("bytes=601-999,500-600", 10000),
        Ok(included(&[(500, 600), (601, 999)]))
    );
    assert_eq!(
        parse_range_header("bytes=30-40,0-9,35-50,5-20", 100),
        Ok(included(&[(0, 20), (30, 50)]))
    );
}

#[test]
fn an_empty_header_asks_for_the_whole_body() {
    assert_eq!(parse_range_header("", 500), Ok(included(&[(0, 499)])));
}

#[test]
fn a_bare_position_asks_for_the_rest() {
    assert_eq!(parse_range_header("bytes=5", 500), Ok(included(&[(5, 499)])));
    assert_eq!(parse_range_header("bytes=+5", 500), Ok(included(&[(5, 499)])));
}

#[test]
fn a_long_suffix_asks_for_the_whole_body() {
    assert_eq!(parse_range_header("bytes=-501", 500), Ok(included(&[(0, 499)])));
    assert_eq!(parse_range_header("bytes=-500", 500), Ok(included(&[(0, 499)])));
}

#[test]
fn ranges_outside_the_body_are_refused() {
    let refused = |header: &str, text: &str| {
        assert_eq!(
            parse_range_header(header, 500),
            Err(ParseRangesError::InvalidByteRange(text.to_string()))
        );
    };
    refused("bytes=500-", "500-");
    refused("bytes=500", "500");
    refused("bytes=0-4,600-700", "600-700");
    refused("bytes=30-29", "30-29");
    refused("bytes=-0", "-0");
    refused("bytes=-", "-");
    refused("bytes=", "");
    refused("bytes=a-4", "a-4");
    refused("bytes=4-b", "4-b");
    refused("bytes= 0-4", " 0-4");
    refused("bytes=18446744073709551616-", "18446744073709551616-");
}

#[test]
fn a_second_dash_is_refused() {
    assert_eq!(
        parse_range_header("bytes=0-4-5", 500),
        Err(ParseRangesError::InvalidRange("0-4-5".to_string()))
    );
}

#[test]
fn the_largest_position_is_cut_to_the_body() {
    assert_eq!(
        parse_range_header("bytes=1-18446744073709551615", 500),
        Ok(included(&[(1, 499)]))
    );
}

#[test]
fn a_set_of_a_body_without_bytes_is_empty() {
    assert_eq!(parse_ranges("bytes=0-100/0".to_string()), Ok((vec![], Some(None))));
}

#[test]
fn a_set_may_name_the_total_length() {
    assert_eq!(
        parse_ranges(" bytes=0-9, 20- /500".to_string()),
        Ok((
            vec![
                (Bound::Included(0), Bound::Included(10)),
                (Bound::Included(20), Bound::Unbounded),
            ],
            None
        ))
    );
}

#[test]
fn a_set_holds_ranges_beside_a_suffix() {
    assert_eq!(
        parse_ranges("bytes=0-9,,-5".to_string()),
        Ok((vec![(Bound::Included(0), Bound::Included(10))], Some(Some(5))))
    );
}

#[test]
fn sets_that_denote_nothing_are_refused() {
    assert_eq!(
        parse_ranges("".to_string()),
        Err(ParseRangesError::InvalidRange("".to_string()))
    );
    assert_eq!(
        parse_ranges("bytes=0-9/many".to_string()),
        Err(ParseRangesError::InvalidRange("many".to_string()))
    );
    assert_eq!(
        parse_ranges("bytes= , ".to_string()),
        Err(ParseRangesError::InvalidRange("bytes= ,".to_string()))
    );
    assert_eq!(
        parse_ranges("lines=0-9".to_string()),
        Err(ParseRangesError::InvalidRange("lines=0-9".to_string()))
    );
    assert_eq!(
        parse_ranges("bytes=0-9-12".to_string()),
        Err(ParseRangesError::InvalidRange("0-9-12".to_string()))
    );
    assert_eq!(
        parse_ranges("bytes=9-0".to_string()),
        Err(ParseRangesError::InvalidByteRange("9-0".to_string()))
    );
    assert_eq!(
        parse_ranges("bytes=-x".to_string()),
        Err(ParseRangesError::InvalidSuffixRange("-x".to_string()))
    );
}
