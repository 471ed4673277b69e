//! Serving ranges of content that the test holds in memory.

use p2p_distribute::gateway_adapter::{
    GatewayAdapter, GatewayAdapterError, GatewayResponse, ReadOutcome, MAX_READ_SIZE,
};

/// An adapter for content of this length.
fn make_adapter(content: &[u8]) -> GatewayAdapter {
    GatewayAdapter::new(content.len() as u64)
}

/// Plans a response, reads the bytes that it asks for, and completes it.
fn serve(adapter: &GatewayAdapter, content: &[u8], header: Option<&str>) -> GatewayResponse {
    let pending = adapter.serve_range(header).unwrap();
    let start = pending.slice.start as usize;
    let end = pending.slice.end_exclusive as usize;
    let buffer = content[start..end].to_vec();
    let bytes_read = buffer.len();
    pending.complete(ReadOutcome::Read { buffer, bytes_read }).unwrap()
}

/// Serving without a Range header returns 200 with full content.
#[test]
fn serve_full_response() {
    let data = b"Hello, gateway world!";
    let adapter = make_adapter(&data[..]);

    let resp = serve(&adapter, &data[..], None);
    assert_eq!(resp.meta.status, 200);
    assert_eq!(resp.meta.content_length, data.len() as u64);
    assert!(resp.meta.content_range.is_none());
    assert_eq!(resp.body, data);
}

/// Bounded range returns 206 with the correct slice.
#[test]
fn serve_bounded_range() {
    let data = b"0123456789ABCDEF";
    let adapter = make_adapter(&data[..]);

    let resp = serve(&adapter, &data[..], Some("bytes=4-7"));
    assert_eq!(resp.meta.status, 206);
    assert_eq!(resp.body, b"4567");
}

/// Open-ended range returns bytes from start to EOF.
#[test]
fn serve_open_ended_range() {
    let data = b"ABCDEFGHIJ";
    let adapter = make_adapter(&data[..]);

    let resp = serve(&adapter, &data[..], Some("bytes=7-"));
    assert_eq!(resp.meta.status, 206);
    assert_eq!(resp.body, b"HIJ");
}

/// Suffix range returns last N bytes.
#[test]
fn serve_suffix_range() {
    let data = b"ABCDEFGHIJ";
    let adapter = make_adapter(&data[..]);

    let resp = serve(&adapter, &data[..], Some("bytes=-3"));
    assert_eq!(resp.meta.status, 206);
    assert_eq!(resp.body, b"HIJ");
}

/// Invalid range header returns a range error.
#[test]
fn serve_invalid_range_header() {
    let adapter = make_adapter(b"data");
    let err = adapter.serve_range(Some("invalid")).unwrap_err();
    assert!(matches!(err, GatewayAdapterError::Range { .. }));
}

/// Range starting beyond content length returns error.
#[test]
fn serve_range_beyond_eof() {
    let data = b"short";
    let adapter = make_adapter(&data[..]);

    let err = adapter.serve_range(Some("bytes=100-200")).unwrap_err();
    assert!(matches!(err, GatewayAdapterError::Range { .. }));
}

/// Content length reports the file size.
#[test]
fn content_length_matches_file() {
    let data = b"exactly 30 bytes of test data.";
    let adapter = make_adapter(&data[..]);
    assert_eq!(adapter.content_length(), data.len() as u64);
}

/// Multiple sequential range requests work correctly.
#[test]
fn sequential_range_requests() {
    let data: Vec<u8> = (0..=255u8).collect();
    let adapter = make_adapter(&data[..]);

    let r1 = serve(&adapter, &data[..], Some("bytes=0-9"));
    assert_eq!(r1.body, &data[0..10]);

    let r2 = serve(&adapter, &data[..], Some("bytes=10-19"));
    assert_eq!(r2.body, &data[10..20]);

    let r3 = serve(&adapter, &data[..], Some("bytes=250-"));
    assert_eq!(r3.body, &data[250..]);
}

/// Error display messages include context.
#[test]
fn gateway_adapter_error_display_context() {
    let err = GatewayAdapterError::ReaderIo {
        position: 42,
        detail: "broken pipe".into(),
    };
    let msg = err.display();
    assert!(msg.contains("42"));
    assert!(msg.contains("broken pipe"));
}

/// Empty file can be served.
#[test]
fn serve_empty_file() {
    let data = b"";
    let adapter = make_adapter(&data[..]);
    let resp = serve(&adapter, &data[..], None);
    assert_eq!(resp.meta.status, 200);
    assert_eq!(resp.meta.content_length, 0);
    assert!(resp.body.is_empty());
}

/// A large request is cut to the largest read.
#[test]
fn large_reads_are_cut() {
    let adapter = GatewayAdapter::new(MAX_READ_SIZE * 3);
    let pending = adapter.serve_range(Some("bytes=10-")).unwrap();
    assert_eq!(pending.slice.start, 10);
    assert_eq!(pending.slice.len(), MAX_READ_SIZE);
}

/// A short read gives a short body.
#[test]
fn short_read_truncates_body() {
    let adapter = GatewayAdapter::new(4);
    let pending = adapter.serve_range(None).unwrap();
    let outcome = ReadOutcome::Read {
        buffer: vec![1, 2, 0, 0],
        bytes_read: 2,
    };
    let resp = pending.complete(outcome).unwrap();
    assert_eq!(resp.body, vec![1, 2]);
}

/// A failed read is reported with its position.
#[test]
fn failed_read_is_reported() {
    let adapter = GatewayAdapter::new(100);
    let pending = adapter.serve_range(Some("bytes=40-")).unwrap();
    let outcome = ReadOutcome::Failed {
        detail: "gone".into(),
    };
    let err = pending.complete(outcome).unwrap_err();
    assert_eq!(err.display(), "reader I/O error at position 40: gone");
    let err = adapter.serve_range(Some("bytes=100-")).unwrap_err();
    assert_eq!(
        err.display(),
        "range error: range start 100 exceeds content length 100"
    );
}
