use torrent_core::decoder_helper::{DecodingError, NumberDetail, ParseDetail, StringDetail};
use torrent_core::tracker_response::TrackerResponse;

#[test]
fn failure_reason_is_the_whole_answer() {
    let response = TrackerResponse::from_bytes(b"d14:failure reason14:torrent bannede").unwrap();
    assert_eq!(response.failure_reason, Some("torrent banned".to_string()));
    assert_eq!(response.interval, None);
    assert_eq!(response.complete, None);
    assert_eq!(response.incomplete, None);
}

#[test]
fn failure_reason_keeps_interval_unread() {
    let response =
        TrackerResponse::from_bytes(b"d14:failure reason14:torrent banned8:interval3:bade").unwrap();
    assert_eq!(response.failure_reason, Some("torrent banned".to_string()));
    assert_eq!(response.interval, None);
    let response =
        TrackerResponse::from_bytes(b"d8:completei-4e14:failure reason2:no8:intervali60ee").unwrap();
    assert_eq!(response.failure_reason, Some("no".to_string()));
    assert_eq!(response.interval, None);
    assert_eq!(response.complete, None);
}

#[test]
fn failure_reason_with_a_short_length_is_no_bencode() {
    // The length says 13 bytes, the text has 14: its last byte is left over
    // where the next key should start.
    assert_eq!(
        TrackerResponse::from_bytes(b"d14:failure reason13:torrent bannede"),
        Err(DecodingError::ParseError(ParseDetail::Malformed))
    );
}

#[test]
fn interval_without_failure() {
    let response = TrackerResponse::from_bytes(b"d8:intervali1800ee").unwrap();
    assert_eq!(response.interval, Some(1800));
    assert_eq!(response.failure_reason, None);
    assert_eq!(response.complete, None);
    assert_eq!(response.incomplete, None);
}

#[test]
fn counts_are_read_when_present() {
    let response =
        TrackerResponse::from_bytes(b"d8:completei5e10:incompletei0e8:intervali60e5:peers0:e").unwrap();
    assert_eq!(response.interval, Some(60));
    assert_eq!(response.complete, Some(5));
    assert_eq!(response.incomplete, Some(0));
}

#[test]
fn interval_is_required_and_positive() {
    assert_eq!(
        TrackerResponse::from_bytes(b"de"),
        Err(DecodingError::MissingField("interval".to_string()))
    );
    assert_eq!(
        TrackerResponse::from_bytes(b"d8:intervali0ee"),
        Err(DecodingError::NotANumber(NumberDetail::OutOfRange(0)))
    );
    assert_eq!(
        TrackerResponse::from_bytes(b"d8:intervali2147483648ee"),
        Err(DecodingError::NotANumber(NumberDetail::OutOfRange(2147483648)))
    );
    assert_eq!(
        TrackerResponse::from_bytes(b"d8:intervali2147483647ee").unwrap().interval,
        Some(2147483647)
    );
    assert_eq!(
        TrackerResponse::from_bytes(b"d8:interval2:60e"),
        Err(DecodingError::NotANumber(NumberDetail::InvalidType))
    );
}

#[test]
fn malformed_answers_fail() {
    assert_eq!(TrackerResponse::from_bytes(b"le"), Err(DecodingError::NotADict));
    assert_eq!(
        TrackerResponse::from_bytes(b"d14:failure reasoni1ee"),
        Err(DecodingError::NotAString(StringDetail::InvalidType))
    );
    assert_eq!(
        TrackerResponse::from_bytes(b"d8:completei-1e8:intervali60ee"),
        Err(DecodingError::NotANumber(NumberDetail::OutOfRange(-1)))
    );
    assert_eq!(
        TrackerResponse::from_bytes(b"d10:incomplete1:x8:intervali60ee"),
        Err(DecodingError::NotANumber(NumberDetail::InvalidType))
    );
    assert_eq!(
        TrackerResponse::from_bytes(b"<html>"),
        Err(DecodingError::ParseError(ParseDetail::Malformed))
    );
}
