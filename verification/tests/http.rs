//! Answers to HTTP range requests.

use copc::error::{Error, Fault};
use copc::http::{
    check_body_end, check_length_answer, check_range_answer, parse_content_range, range_of,
};

#[test]
fn parses_strict_content_ranges() {
    assert_eq!(Some((0, 0, 42)), parse_content_range("bytes 0-0/42"));
    assert_eq!(None, parse_content_range("bytes 1-0/42"));
    assert_eq!(None, parse_content_range("bytes 0-42/42"));
    assert_eq!(None, parse_content_range("0-0/42"));
    assert_eq!(None, parse_content_range("bytes 0-0/*"));
}

#[test]
fn content_ranges_with_odd_numbers_are_refused() {
    assert_eq!(Some((7, 12, 20)), parse_content_range("bytes 7-12/20"));
    assert_eq!(None, parse_content_range("bytes 7-12"));
    assert_eq!(None, parse_content_range("bytes 7/20"));
    assert_eq!(None, parse_content_range("bytes -12/20"));
    assert_eq!(None, parse_content_range("bytes 7-12/18446744073709551616"));
    assert_eq!(None, parse_content_range(""));
}

#[test]
fn lengths_and_ranges_of_answers_are_checked() {
    assert_eq!(42, check_length_answer(206, Some((0, 0, 42))).unwrap());
    assert!(matches!(
        check_length_answer(200, Some((0, 0, 42))),
        Err(Error::Unsupported(Fault::HttpStatus { status: 200 }))
    ));
    assert!(matches!(
        check_length_answer(206, None),
        Err(Error::InvalidData(Fault::HttpNoContentRange))
    ));
    assert!(matches!(
        check_length_answer(206, Some((0, 1, 42))),
        Err(Error::InvalidData(Fault::HttpRangeMismatch {
            first: 0,
            last: 1,
            expected_first: 0,
            expected_last: 0,
        }))
    ));
    assert!(matches!(
        check_length_answer(206, Some((0, 0, 0))),
        Err(Error::InvalidData(Fault::HttpZeroTotal))
    ));
    assert_eq!(19, range_of(10, 10).unwrap());
    assert!(matches!(
        range_of(u64::MAX, 2),
        Err(Error::InvalidInput(Fault::HttpRangeOverflow))
    ));
    assert!(check_body_end(0).is_ok());
    assert!(matches!(
        check_body_end(1),
        Err(Error::InvalidData(Fault::HttpBodyTooLong))
    ));
    assert_eq!(
        42,
        check_range_answer(206, Some((10, 19, 42)), (10, 19), Some(42)).unwrap()
    );
    assert_eq!(
        42,
        check_range_answer(206, Some((10, 19, 42)), (10, 19), None).unwrap()
    );
    assert!(check_range_answer(206, Some((10, 18, 42)), (10, 19), None).is_err());
    assert!(matches!(
        check_range_answer(206, Some((10, 19, 43)), (10, 19), Some(42)),
        Err(Error::InvalidData(Fault::HttpTotalChanged {
            expected: 42,
            found: 43,
        }))
    ));
}
