//! Gateway adapter: turns HTTP requests into reads of content.
//!
//! [`GatewayAdapter::serve_range`] decides what to answer to a request with or
//! without a `Range` header and which bytes to read for it. The caller seeks
//! and reads, and hands what came of it to [`PendingResponse::complete`],
//! which gives the response.

use vstd::prelude::*;

use crate::gateway::parse_range;
use crate::gateway::ContentSlice;
use crate::gateway::RangeError;
use crate::gateway::RangeErrorView;
use crate::gateway::RangeRequest;
use crate::gateway::ResponseMeta;
use crate::text::decimal;
use crate::text::push_decimal;

verus! {

/// Maximum single read size (16 MiB) to prevent unbounded allocation.
pub const MAX_READ_SIZE: u64 = 16_777_216;

/// Errors from gateway adapter operations.
#[derive(Debug)]
pub enum GatewayAdapterError {
    /// The HTTP Range header could not be parsed or resolved.
    Range {
        /// What is wrong with it.
        source: RangeError,
    },
    /// I/O error during seek or read.
    ReaderIo {
        /// Position where the error occurred.
        position: u64,
        /// Human-readable error detail.
        detail: String,
    },
}

/// What an error says, with its text as a character sequence.
pub enum GatewayAdapterErrorView {
    Range { source: RangeErrorView },
    ReaderIo { position: u64, detail: Seq<char> },
}

impl View for GatewayAdapterError {
    type V = GatewayAdapterErrorView;

    open spec fn view(&self) -> GatewayAdapterErrorView {
        match *self {
            GatewayAdapterError::Range { source } => GatewayAdapterErrorView::Range {
                source: source@,
            },
            GatewayAdapterError::ReaderIo { position, detail } => GatewayAdapterErrorView::ReaderIo {
                position,
                detail: detail@,
            },
        }
    }
}

impl GatewayAdapterErrorView {
    /// The text shown for an error.
    pub open spec fn text(self) -> Seq<char> {
        match self {
            GatewayAdapterErrorView::Range { source } => "range error: "@ + source.text(),
            GatewayAdapterErrorView::ReaderIo { position, detail } => "reader I/O error at position "@
                + decimal(position as nat) + ": "@ + detail,
        }
    }
}

impl GatewayAdapterError {
    /// The text shown for this error.
    pub fn display(&self) -> (r: String)
        ensures
            r@ == self@.text(),
    {
        let mut out = String::new();
        match self {
            GatewayAdapterError::Range { source } => {
                out.append("range error: ");
                out.append(source.display().as_str());
            },
            GatewayAdapterError::ReaderIo { position, detail } => {
                out.append("reader I/O error at position ");
                push_decimal(&mut out, *position);
                out.append(": ");
                out.append(detail.as_str());
            },
        }
        out
    }
}

/// HTTP response to a request.
#[derive(Debug)]
pub struct GatewayResponse {
    /// HTTP response metadata (status code, Content-Length, Content-Range).
    pub meta: ResponseMeta,
    /// Body bytes for this response chunk.
    pub body: Vec<u8>,
}

/// What came of the seek and the read.
#[derive(Debug)]
pub enum ReadOutcome {
    /// The seek or the read failed.
    Failed {
        /// Human-readable error detail.
        detail: String,
    },
    /// The read put so many bytes at the start of the buffer.
    Read {
        /// The buffer that was handed to the read.
        buffer: Vec<u8>,
        /// Number of bytes that were read.
        bytes_read: usize,
    },
}

/// A response that waits for its body.
#[derive(Debug)]
pub struct PendingResponse {
    /// HTTP response metadata.
    pub meta: ResponseMeta,
    /// The bytes to read.
    pub slice: ContentSlice,
}

/// A part of the content, cut to the largest read.
pub open spec fn capped(slice: ContentSlice) -> ContentSlice {
    ContentSlice {
        end_exclusive: if slice.end_exclusive > slice.start + MAX_READ_SIZE {
            (slice.start + MAX_READ_SIZE) as u64
        } else {
            slice.end_exclusive
        },
        ..slice
    }
}

/// The whole content.
pub open spec fn whole(content_length: u64) -> ContentSlice {
    ContentSlice { start: 0, end_exclusive: content_length, content_length }
}

/// Which part of the content a range header asks for.
pub open spec fn requested(header: Seq<char>, content_length: u64) -> Result<
    ContentSlice,
    RangeErrorView,
> {
    match parse_range(header) {
        Ok(request) => request.resolved(content_length),
        Err(e) => Err(e),
    }
}

impl PendingResponse {
    /// Gives the response once the bytes have been read.
    ///
    /// The body is what was read, which may be less than was asked for.
    pub fn complete(self, outcome: ReadOutcome) -> (r: Result<GatewayResponse, GatewayAdapterError>)
        ensures
            match outcome {
                ReadOutcome::Failed { detail } => {
                    &&& r is Err
                    &&& r->Err_0@ == (GatewayAdapterErrorView::ReaderIo {
                        position: self.slice.start,
                        detail: detail@,
                    })
                },
                ReadOutcome::Read { buffer, bytes_read } => {
                    &&& r is Ok
                    &&& r->Ok_0.meta == self.meta
                    &&& r->Ok_0.body@ == (if bytes_read < buffer@.len() {
                        buffer@.take(bytes_read as int)
                    } else {
                        buffer@
                    })
                },
            },
    {
        match outcome {
            ReadOutcome::Failed { detail } => Err(
                GatewayAdapterError::ReaderIo { position: self.slice.start, detail },
            ),
            ReadOutcome::Read { buffer, bytes_read } => {
                let mut body = buffer;
                if bytes_read < body.len() {
                    body.truncate(bytes_read);
                }
                Ok(GatewayResponse { meta: self.meta, body })
            },
        }
    }
}

/// Answers HTTP requests for content of a known length.
#[derive(Debug, Clone, Copy, PartialEq, Eq, Structural)]
pub struct GatewayAdapter {
    content_length: u64,
}

impl GatewayAdapter {
    /// The total content length.
    pub closed spec fn spec_content_length(self) -> u64 {
        self.content_length
    }

    /// Creates a gateway adapter for content of this length.
    pub fn new(content_length: u64) -> (r: GatewayAdapter)
        ensures
            r.spec_content_length() == content_length,
    {
        GatewayAdapter { content_length }
    }

    /// Returns the total content length.
    pub fn content_length(&self) -> (r: u64)
        ensures
            r == self.spec_content_length(),
    {
        self.content_length
    }

    /// Serves an HTTP request, optionally with a `Range` header.
    ///
    /// Without a header the answer is the full content with 200, with one a
    /// 206 partial response. The bytes to read are capped at [`MAX_READ_SIZE`];
    /// the metadata speaks of all that was asked for.
    pub fn serve_range(&self, range_header: Option<&str>) -> (r: Result<
        PendingResponse,
        GatewayAdapterError,
    >)
        ensures
            match range_header {
                None => {
                    &&& r is Ok
                    &&& r->Ok_0.meta.is_full(self.spec_content_length())
                    &&& r->Ok_0.slice == capped(whole(self.spec_content_length()))
                },
                Some(header) => match requested(header@, self.spec_content_length()) {
                    Ok(slice) => {
                        &&& r is Ok
                        &&& r->Ok_0.meta.is_partial(slice)
                        &&& r->Ok_0.slice == capped(slice)
                    },
                    Err(e) => {
                        &&& r is Err
                        &&& r->Err_0@ == (GatewayAdapterErrorView::Range { source: e })
                    },
                },
            },
    {
        match range_header {
            None => {
                let meta = ResponseMeta::full(self.content_length);
                let slice = ContentSlice {
                    start: 0,
                    end_exclusive: if self.content_length < MAX_READ_SIZE {
                        self.content_length
                    } else {
                        MAX_READ_SIZE
                    },
                    content_length: self.content_length,
                };
                Ok(PendingResponse { meta, slice })
            },
            Some(header) => {
                let request = match RangeRequest::parse(header) {
                    Ok(request) => request,
                    Err(source) => return Err(GatewayAdapterError::Range { source }),
                };
                let resolved = match request.resolve(self.content_length) {
                    Ok(slice) => slice,
                    Err(source) => return Err(GatewayAdapterError::Range { source }),
                };
                let limit: u64 = resolved.start.saturating_add(MAX_READ_SIZE);
                let slice = ContentSlice {
                    start: resolved.start,
                    end_exclusive: if limit < resolved.end_exclusive {
                        limit
                    } else {
                        resolved.end_exclusive
                    },
                    content_length: resolved.content_length,
                };
                Ok(PendingResponse { meta: ResponseMeta::partial(&resolved), slice })
            },
        }
    }
}

/// A read never exceeds the cap, starts where it was asked to, stays inside
/// the content, and is all that was asked for unless that exceeds the cap.
pub proof fn law_reads_are_capped(header: Seq<char>, content_length: u64)
    ensures
        requested(header, content_length) matches Ok(slice) ==> {
            &&& capped(slice).byte_count() <= MAX_READ_SIZE
            &&& capped(slice).start == slice.start
            &&& capped(slice).end_exclusive <= content_length
            &&& slice.byte_count() <= MAX_READ_SIZE ==> capped(slice) == slice
        },
        capped(whole(content_length)).byte_count() <= MAX_READ_SIZE,
        content_length <= MAX_READ_SIZE ==> capped(whole(content_length)) == whole(content_length),
{
    crate::gateway::law_resolved_within_content(header, content_length);
}

/// Which bytes are read: those asked for, up to 16 MiB from the first; without a
/// header those of the whole content.
pub proof fn law_read_bytes(slice: ContentSlice, content_length: u64, i: int)
    ensures
        capped(slice).start <= i < capped(slice).end_exclusive <==> slice.start <= i
            < slice.end_exclusive && i < slice.start + 16_777_216,
        capped(slice).start == slice.start,
        capped(slice).content_length == slice.content_length,
        whole(content_length).start <= i < whole(content_length).end_exclusive <==> 0 <= i
            < content_length,
        whole(content_length).content_length == content_length,
{
}

/// A header asks for the bytes that it names: both ends of a bounded range are
/// included, and what cannot be read as a range asks for nothing.
pub proof fn law_header_asks_for_bytes(start: u64, end: u64, content_length: u64, header: Seq<char>)
    requires
        start <= end,
    ensures
        start < content_length ==> (requested(
            "bytes="@ + decimal(start as nat) + "-"@ + decimal(end as nat),
            content_length,
        ) matches Ok(s) && s.start == start && s.end_exclusive == (if end < content_length {
            end + 1
        } else {
            content_length as int
        }) && s.content_length == content_length),
        parse_range(header) is Err ==> requested(header, content_length) == Err::<
            ContentSlice,
            RangeErrorView,
        >(parse_range(header)->Err_0),
{
    crate::gateway::law_parse_bounded(start, end);
}

} // verus!
