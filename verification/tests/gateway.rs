//! Range headers and what they resolve to.

use p2p_distribute::gateway::{ContentSlice, RangeError, RangeRequest, ResponseMeta};

/// Bounded range `bytes=0-499` parsed correctly.
#[test]
fn parse_bounded() {
    let r = RangeRequest::parse("bytes=0-499").unwrap();
    assert_eq!(
        r,
        RangeRequest::Bounded {
            start: 0,
            end_inclusive: 499,
        }
    );
}

/// Open-ended range `bytes=500-` parsed correctly.
#[test]
fn parse_open_ended() {
    let r = RangeRequest::parse("bytes=500-").unwrap();
    assert_eq!(r, RangeRequest::OpenEnded { start: 500 });
}

/// Suffix range `bytes=-200` parsed correctly.
#[test]
fn parse_suffix() {
    let r = RangeRequest::parse("bytes=-200").unwrap();
    assert_eq!(r, RangeRequest::Suffix { length: 200 });
}

/// Whitespace around the range is tolerated.
#[test]
fn parse_whitespace_trimmed() {
    let r = RangeRequest::parse("bytes= 100-200 ").unwrap();
    assert_eq!(
        r,
        RangeRequest::Bounded {
            start: 100,
            end_inclusive: 200,
        }
    );
}

/// Missing `bytes=` prefix is rejected.
#[test]
fn parse_missing_prefix() {
    let err = RangeRequest::parse("0-499").unwrap_err();
    assert!(matches!(err, RangeError::InvalidSyntax { .. }));
}

/// Unsupported unit is rejected with specific error.
#[test]
fn parse_unsupported_unit() {
    let err = RangeRequest::parse("items=0-10").unwrap_err();
    assert!(matches!(err, RangeError::UnsupportedUnit { .. }));
}

/// Multi-range is rejected.
#[test]
fn parse_multi_range_rejected() {
    let err = RangeRequest::parse("bytes=0-100, 200-300").unwrap_err();
    assert!(matches!(err, RangeError::InvalidSyntax { .. }));
}

/// Start greater than end is rejected.
#[test]
fn parse_start_greater_than_end() {
    let err = RangeRequest::parse("bytes=500-100").unwrap_err();
    assert!(matches!(err, RangeError::StartGreaterThanEnd { .. }));
}

/// Invalid numeric values are rejected.
#[test]
fn parse_invalid_numbers() {
    let err = RangeRequest::parse("bytes=abc-def").unwrap_err();
    assert!(matches!(err, RangeError::InvalidSyntax { .. }));
}

/// Bounded range resolves to correct slice.
#[test]
fn resolve_bounded() {
    let r = RangeRequest::Bounded {
        start: 100,
        end_inclusive: 199,
    };
    let slice = r.resolve(10_000).unwrap();
    assert_eq!(slice.start, 100);
    assert_eq!(slice.end_exclusive, 200);
    assert_eq!(slice.len(), 100);
}

/// Bounded range is clamped to content length.
#[test]
fn resolve_bounded_clamped() {
    let r = RangeRequest::Bounded {
        start: 0,
        end_inclusive: 99999,
    };
    let slice = r.resolve(500).unwrap();
    assert_eq!(slice.end_exclusive, 500);
    assert_eq!(slice.len(), 500);
}

/// Open-ended range resolves to end of file.
#[test]
fn resolve_open_ended() {
    let r = RangeRequest::OpenEnded { start: 8000 };
    let slice = r.resolve(10_000).unwrap();
    assert_eq!(slice.start, 8000);
    assert_eq!(slice.end_exclusive, 10_000);
    assert_eq!(slice.len(), 2000);
}

/// Suffix range resolves from the end.
#[test]
fn resolve_suffix() {
    let r = RangeRequest::Suffix { length: 500 };
    let slice = r.resolve(10_000).unwrap();
    assert_eq!(slice.start, 9_500);
    assert_eq!(slice.end_exclusive, 10_000);
    assert_eq!(slice.len(), 500);
}

/// Suffix larger than content returns entire file.
#[test]
fn resolve_suffix_larger_than_content() {
    let r = RangeRequest::Suffix { length: 50_000 };
    let slice = r.resolve(1_000).unwrap();
    assert_eq!(slice.start, 0);
    assert_eq!(slice.len(), 1_000);
}

/// Start beyond content length is an error.
#[test]
fn resolve_start_beyond_end() {
    let r = RangeRequest::OpenEnded { start: 10_000 };
    let err = r.resolve(5_000).unwrap_err();
    assert!(matches!(err, RangeError::StartBeyondEnd { .. }));
}

/// Empty slice has zero length.
#[test]
fn content_slice_empty() {
    let slice = ContentSlice {
        start: 100,
        end_exclusive: 100,
        content_length: 1000,
    };
    assert!(slice.is_empty());
    assert_eq!(slice.len(), 0);
}

/// Full response is 200 with no Content-Range.
#[test]
fn response_meta_full() {
    let meta = ResponseMeta::full(5_000);
    assert_eq!(meta.status, 200);
    assert_eq!(meta.content_length, 5_000);
    assert!(meta.content_range.is_none());
}

/// Partial response is 206 with Content-Range header.
#[test]
fn response_meta_partial() {
    let slice = ContentSlice {
        start: 100,
        end_exclusive: 600,
        content_length: 10_000,
    };
    let meta = ResponseMeta::partial(&slice);
    assert_eq!(meta.status, 206);
    assert_eq!(meta.content_length, 500);
    assert_eq!(meta.content_range.as_deref(), Some("bytes 100-599/10000"));
}

/// Error messages contain context.
#[test]
fn gateway_error_display_context() {
    let err = RangeError::StartBeyondEnd {
        start: 5000,
        content_length: 1000,
    };
    let msg = err.display();
    assert!(msg.contains("5000"), "should contain start: {msg}");
    assert!(msg.contains("1000"), "should contain length: {msg}");
}

/// UnsupportedUnit shows the unit.
#[test]
fn error_display_unsupported_unit() {
    let err = RangeError::UnsupportedUnit {
        unit: "pages".into(),
    };
    assert!(err.display().contains("pages"));
}

/// Each error has its own text.
#[test]
fn range_error_texts() {
    let err = RangeRequest::parse("bytes=500-100").unwrap_err();
    assert_eq!(err.display(), "range start 500 is greater than end 100");
    let err = RangeRequest::parse("items=0-10").unwrap_err();
    assert_eq!(
        err.display(),
        "unsupported range unit: items (only 'bytes' is supported)"
    );
    let err = RangeRequest::OpenEnded { start: 5 }.resolve(5).unwrap_err();
    assert_eq!(err.display(), "range start 5 exceeds content length 5");
    let err = RangeRequest::parse("bytes=7").unwrap_err();
    assert!(err.display().starts_with("invalid range syntax: "));
}

/// The largest offsets are read, larger numbers are refused.
#[test]
fn range_number_limits() {
    let max = u64::MAX;
    assert_eq!(
        RangeRequest::parse(&format!("bytes={max}-{max}")).unwrap(),
        RangeRequest::Bounded {
            start: max,
            end_inclusive: max
        }
    );
    let err = RangeRequest::parse("bytes=18446744073709551616-").unwrap_err();
    assert!(matches!(err, RangeError::InvalidSyntax { .. }));
}

/// The last byte of the content can be asked for, the one behind it cannot.
#[test]
fn resolve_at_the_end() {
    let slice = RangeRequest::OpenEnded { start: 99 }.resolve(100).unwrap();
    assert_eq!((slice.start, slice.end_exclusive), (99, 100));
    let r = RangeRequest::Bounded {
        start: 100,
        end_inclusive: 100,
    };
    assert!(matches!(
        r.resolve(100),
        Err(RangeError::StartBeyondEnd {
            start: 100,
            content_length: 100
        })
    ));
}
