//! HTTP range requests against content of a known length.
//!
//! - [`RangeRequest`] is a parsed `Range` header value.
//! - [`ContentSlice`] is a range resolved against a content length.
//! - [`ResponseMeta`] is the status and the headers that answer a request.

use vstd::prelude::*;
use vstd::slice::slice_subrange;

use crate::text::chars_of;
use crate::text::decimal;
use crate::text::find_char;
use crate::text::first_at;
use crate::text::first_index;
use crate::text::is_digit;
use crate::text::law_parse_decimal;
use crate::text::lemma_decimal_digits;
use crate::text::lemma_first_index;
use crate::text::lemma_trimmed_tight;
use crate::text::parse_decimal;
use crate::text::push_chars;
use crate::text::push_decimal;
use crate::text::read_decimal;
use crate::text::starts_with;
use crate::text::string_of;
use crate::text::trim;
use crate::text::trimmed;

verus! {

/// Errors from HTTP range parsing and resolution.
#[derive(Debug)]
pub enum RangeError {
    /// The header is not a single byte range.
    InvalidSyntax {
        /// What is wrong.
        detail: String,
    },
    /// The range starts at or behind the end of the content.
    StartBeyondEnd {
        /// First byte asked for.
        start: u64,
        /// Length of the content.
        content_length: u64,
    },
    /// The range ends before it starts.
    StartGreaterThanEnd {
        /// First byte asked for.
        start: u64,
        /// Last byte asked for.
        end: u64,
    },
    /// The range is not counted in bytes.
    UnsupportedUnit {
        /// The unit of the header.
        unit: String,
    },
}

/// What an error says, with its text as a character sequence.
pub enum RangeErrorView {
    InvalidSyntax { detail: Seq<char> },
    StartBeyondEnd { start: u64, content_length: u64 },
    StartGreaterThanEnd { start: u64, end: u64 },
    UnsupportedUnit { unit: Seq<char> },
}

impl View for RangeError {
    type V = RangeErrorView;

    open spec fn view(&self) -> RangeErrorView {
        match *self {
            RangeError::InvalidSyntax { detail } => RangeErrorView::InvalidSyntax {
                detail: detail@,
            },
            RangeError::StartBeyondEnd { start, content_length } => RangeErrorView::StartBeyondEnd {
                start,
                content_length,
            },
            RangeError::StartGreaterThanEnd { start, end } => RangeErrorView::StartGreaterThanEnd {
                start,
                end,
            },
            RangeError::UnsupportedUnit { unit } => RangeErrorView::UnsupportedUnit { unit: unit@ },
        }
    }
}

impl RangeErrorView {
    /// The text shown for an error.
    pub open spec fn text(self) -> Seq<char> {
        match self {
            RangeErrorView::InvalidSyntax { detail } => "invalid range syntax: "@ + detail,
            RangeErrorView::StartBeyondEnd { start, content_length } => "range start "@ + decimal(
                start as nat,
            ) + " exceeds content length "@ + decimal(content_length as nat),
            RangeErrorView::StartGreaterThanEnd { start, end } => "range start "@ + decimal(
                start as nat,
            ) + " is greater than end "@ + decimal(end as nat),
            RangeErrorView::UnsupportedUnit { unit } => "unsupported range unit: "@ + unit
                + " (only 'bytes' is supported)"@,
        }
    }
}

impl RangeError {
    /// The text shown for this error.
    pub fn display(&self) -> (r: String)
        ensures
            r@ == self@.text(),
    {
        let mut out = String::new();
        match self {
            RangeError::InvalidSyntax { detail } => {
                out.append("invalid range syntax: ");
                out.append(detail.as_str());
            },
            RangeError::StartBeyondEnd { start, content_length } => {
                out.append("range start ");
                push_decimal(&mut out, *start);
                out.append(" exceeds content length ");
                push_decimal(&mut out, *content_length);
            },
            RangeError::StartGreaterThanEnd { start, end } => {
                out.append("range start ");
                push_decimal(&mut out, *start);
                out.append(" is greater than end ");
                push_decimal(&mut out, *end);
            },
            RangeError::UnsupportedUnit { unit } => {
                out.append("unsupported range unit: ");
                out.append(unit.as_str());
                out.append(" (only 'bytes' is supported)");
            },
        }
        out
    }
}

/// A parsed HTTP `Range` header value, in one of its three forms.
#[derive(Debug, Clone, Copy, PartialEq, Eq)]
pub enum RangeRequest {
    /// `bytes=start-end` (inclusive end).
    Bounded {
        /// First byte.
        start: u64,
        /// Last byte.
        end_inclusive: u64,
    },
    /// `bytes=start-` (to the end of the content).
    OpenEnded {
        /// First byte.
        start: u64,
    },
    /// `bytes=-suffix` (the last bytes of the content).
    Suffix {
        /// How many bytes.
        length: u64,
    },
}

/// The fault of a header that is not a single byte range.
pub open spec fn bad_syntax(detail: Seq<char>) -> Result<RangeRequest, RangeErrorView> {
    Err(RangeErrorView::InvalidSyntax { detail })
}

/// What stands between `bytes=` and the end of the header means.
pub open spec fn parse_byte_range(range: Seq<char>) -> Result<RangeRequest, RangeErrorView> {
    if range.contains(',') {
        bad_syntax("multi-range not supported"@)
    } else {
        match first_index(range, '-') {
            None => bad_syntax("missing '-' separator"@),
            Some(dash) => {
                let left = range.take(dash);
                let right = range.skip(dash + 1);
                let first = parse_decimal(left, u64::MAX as nat);
                let last = parse_decimal(right, u64::MAX as nat);
                if left.len() == 0 {
                    match last {
                        Some(length) => Ok(RangeRequest::Suffix { length: length as u64 }),
                        None => bad_syntax("invalid suffix length: '"@ + right + "'"@),
                    }
                } else {
                    match first {
                        None => bad_syntax("invalid start: '"@ + left + "'"@),
                        Some(start) => if right.len() == 0 {
                            Ok(RangeRequest::OpenEnded { start: start as u64 })
                        } else {
                            match last {
                                None => bad_syntax("invalid end: '"@ + right + "'"@),
                                Some(end) => if start > end {
                                    Err(
                                        RangeErrorView::StartGreaterThanEnd {
                                            start: start as u64,
                                            end: end as u64,
                                        },
                                    )
                                } else {
                                    Ok(
                                        RangeRequest::Bounded {
                                            start: start as u64,
                                            end_inclusive: end as u64,
                                        },
                                    )
                                },
                            }
                        },
                    }
                }
            },
        }
    }
}

/// What a `Range` header value means.
pub open spec fn parse_range(header: Seq<char>) -> Result<RangeRequest, RangeErrorView> {
    if "bytes="@.is_prefix_of(header) {
        parse_byte_range(trimmed(header.skip("bytes="@.len() as int)))
    } else {
        match first_index(header, '=') {
            Some(equals) => Err(RangeErrorView::UnsupportedUnit { unit: header.take(equals) }),
            None => bad_syntax("missing 'bytes=' prefix"@),
        }
    }
}

/// The model of a parsing result.
pub open spec fn parsed(r: Result<RangeRequest, RangeError>) -> Result<
    RangeRequest,
    RangeErrorView,
> {
    match r {
        Ok(request) => Ok(request),
        Err(e) => Err(e@),
    }
}

/// The error of a header that is not a single byte range.
fn invalid_syntax(detail: &str) -> (r: Result<RangeRequest, RangeError>)
    ensures
        parsed(r) == bad_syntax(detail@),
{
    Err(RangeError::InvalidSyntax { detail: detail.to_owned() })
}

/// The error of a number that cannot be read.
fn invalid_number(what: &str, number: &[char]) -> (r: Result<RangeRequest, RangeError>)
    ensures
        parsed(r) == bad_syntax(what@ + number@ + "'"@),
{
    let mut detail = String::new();
    detail.append(what);
    push_chars(&mut detail, number);
    detail.append("'");
    Err(RangeError::InvalidSyntax { detail })
}

impl RangeRequest {
    /// Parses an HTTP `Range` header value.
    ///
    /// Only single ranges are supported; a multi-range is refused.
    pub fn parse(header: &str) -> (r: Result<RangeRequest, RangeError>)
        ensures
            parsed(r) == parse_range(header@),
    {
        let chars = chars_of(header);
        if !starts_with(&chars, "bytes=") {
            return match find_char(&chars, '=') {
                Some(equals) => {
                    let unit = string_of(slice_subrange(&chars, 0, equals));
                    Err(RangeError::UnsupportedUnit { unit })
                },
                None => invalid_syntax("missing 'bytes=' prefix"),
            };
        }
        proof {
            reveal_strlit("bytes=");
        }
        let rest = slice_subrange(&chars, 6, chars.len());
        RangeRequest::parse_bytes(trim(rest))
    }

    /// Parses what stands behind the unit.
    fn parse_bytes(range: &[char]) -> (r: Result<RangeRequest, RangeError>)
        ensures
            parsed(r) == parse_byte_range(range@),
    {
        if find_char(range, ',').is_some() {
            return invalid_syntax("multi-range not supported");
        }
        let dash: usize = match find_char(range, '-') {
            Some(dash) => dash,
            None => {
                return invalid_syntax("missing '-' separator");
            },
        };
        let len: usize = range.len();
        let left = slice_subrange(range, 0, dash);
        let right = slice_subrange(range, dash + 1, len);
        if left.len() == 0 {
            return match read_decimal(right, u64::MAX) {
                Some(length) => Ok(RangeRequest::Suffix { length }),
                None => invalid_number("invalid suffix length: '", right),
            };
        }
        let start: u64 = match read_decimal(left, u64::MAX) {
            Some(start) => start,
            None => {
                return invalid_number("invalid start: '", left);
            },
        };
        if right.len() == 0 {
            return Ok(RangeRequest::OpenEnded { start });
        }
        let end: u64 = match read_decimal(right, u64::MAX) {
            Some(end) => end,
            None => {
                return invalid_number("invalid end: '", right);
            },
        };
        if start > end {
            return Err(RangeError::StartGreaterThanEnd { start, end });
        }
        Ok(RangeRequest::Bounded { start, end_inclusive: end })
    }

    /// What the range covers of content of the given length: the end is
    /// clamped to the content, and a range that starts behind it is refused.
    pub open spec fn resolved(self, content_length: u64) -> Result<ContentSlice, RangeErrorView> {
        match self {
            RangeRequest::Bounded { start, end_inclusive } => if start >= content_length {
                Err(RangeErrorView::StartBeyondEnd { start, content_length })
            } else {
                Ok(
                    ContentSlice {
                        start,
                        end_exclusive: if end_inclusive < content_length {
                            (end_inclusive + 1) as u64
                        } else {
                            content_length
                        },
                        content_length,
                    },
                )
            },
            RangeRequest::OpenEnded { start } => if start >= content_length {
                Err(RangeErrorView::StartBeyondEnd { start, content_length })
            } else {
                Ok(ContentSlice { start, end_exclusive: content_length, content_length })
            },
            RangeRequest::Suffix { length } => Ok(
                ContentSlice {
                    start: if length < content_length {
                        (content_length - length) as u64
                    } else {
                        0
                    },
                    end_exclusive: content_length,
                    content_length,
                },
            ),
        }
    }

    /// Resolves this range against a known content length.
    pub fn resolve(&self, content_length: u64) -> (r: Result<ContentSlice, RangeError>)
        ensures
            match r {
                Ok(slice) => self.resolved(content_length) == Ok::<ContentSlice, RangeErrorView>(
                    slice,
                ),
                Err(e) => self.resolved(content_length) == Err::<ContentSlice, RangeErrorView>(e@),
            },
    {
        match *self {
            RangeRequest::Bounded { start, end_inclusive } => {
                if start >= content_length {
                    return Err(RangeError::StartBeyondEnd { start, content_length });
                }
                let next: u64 = end_inclusive.saturating_add(1);
                let end_exclusive: u64 = if next < content_length {
                    next
                } else {
                    content_length
                };
                Ok(ContentSlice { start, end_exclusive, content_length })
            },
            RangeRequest::OpenEnded { start } => {
                if start >= content_length {
                    return Err(RangeError::StartBeyondEnd { start, content_length });
                }
                Ok(ContentSlice { start, end_exclusive: content_length, content_length })
            },
            RangeRequest::Suffix { length } => {
                let start: u64 = content_length.saturating_sub(length);
                Ok(ContentSlice { start, end_exclusive: content_length, content_length })
            },
        }
    }
}

/// A resolved byte range within content.
#[derive(Debug, Clone, Copy, PartialEq, Eq)]
pub struct ContentSlice {
    /// Start byte offset (inclusive).
    pub start: u64,
    /// End byte offset (exclusive).
    pub end_exclusive: u64,
    /// Total content length (for response headers).
    pub content_length: u64,
}

impl ContentSlice {
    /// The number of bytes in the slice.
    pub open spec fn byte_count(self) -> u64 {
        if self.start < self.end_exclusive {
            (self.end_exclusive - self.start) as u64
        } else {
            0
        }
    }

    /// Returns the number of bytes in this slice.
    pub fn len(&self) -> (r: u64)
        ensures
            r == self.byte_count(),
    {
        self.end_exclusive.saturating_sub(self.start)
    }

    /// Whether the slice is empty (zero bytes).
    pub fn is_empty(&self) -> (r: bool)
        ensures
            r == (self.byte_count() == 0),
    {
        self.len() == 0
    }
}

/// HTTP response metadata for a content request.
#[derive(Debug, Clone, PartialEq, Eq)]
pub struct ResponseMeta {
    /// HTTP status code (200 for full content, 206 for partial).
    pub status: u16,
    /// Value of the `Content-Length` header (bytes in this response).
    pub content_length: u64,
    /// Value of the `Content-Range` header (only for 206 responses), in the
    /// form `bytes start-end/total`.
    pub content_range: Option<String>,
}

/// The `Content-Range` value of a slice.
pub open spec fn content_range_text(slice: ContentSlice) -> Seq<char> {
    let last = if slice.end_exclusive > 0 {
        slice.end_exclusive - 1
    } else {
        0
    };
    "bytes "@ + decimal(slice.start as nat) + "-"@ + decimal(last as nat) + "/"@ + decimal(
        slice.content_length as nat,
    )
}

impl ResponseMeta {
    /// Whether this announces the full content.
    pub open spec fn is_full(self, content_length: u64) -> bool {
        &&& self.status == 200
        &&& self.content_length == content_length
        &&& self.content_range is None
    }

    /// Whether this announces the given part of the content.
    pub open spec fn is_partial(self, slice: ContentSlice) -> bool {
        &&& self.status == 206
        &&& self.content_length == slice.byte_count()
        &&& self.content_range is Some
        &&& self.content_range->0@ == content_range_text(slice)
    }

    /// Builds response metadata for a full-content response (200).
    pub fn full(content_length: u64) -> (r: ResponseMeta)
        ensures
            r.is_full(content_length),
    {
        ResponseMeta { status: 200, content_length, content_range: None }
    }

    /// Builds response metadata for a partial-content response (206).
    pub fn partial(slice: &ContentSlice) -> (r: ResponseMeta)
        ensures
            r.is_partial(*slice),
    {
        let mut range = String::new();
        range.append("bytes ");
        push_decimal(&mut range, slice.start);
        range.append("-");
        push_decimal(&mut range, slice.end_exclusive.saturating_sub(1));
        range.append("/");
        push_decimal(&mut range, slice.content_length);
        ResponseMeta { status: 206, content_length: slice.len(), content_range: Some(range) }
    }
}

// ── Laws ────────────────────────────────────────────────────────────

/// A header that parses, resolved against content, gives a range that lies
/// within the content and does not end before it starts.
pub proof fn law_resolved_within_content(header: Seq<char>, content_length: u64)
    ensures
        parse_range(header) matches Ok(request) ==> (request.resolved(content_length) matches Ok(
            slice,
        ) ==> slice.start <= slice.end_exclusive <= content_length),
{
}

/// `bytes=start-end` is the range from `start` to `end`, both included.
pub proof fn law_parse_bounded(start: u64, end: u64)
    requires
        start <= end,
    ensures
        parse_range("bytes="@ + decimal(start as nat) + "-"@ + decimal(end as nat)) == Ok::<
            RangeRequest,
            RangeErrorView,
        >(RangeRequest::Bounded { start, end_inclusive: end }),
{
    let left = decimal(start as nat);
    let right = decimal(end as nat);
    lemma_decimal_digits(start as nat);
    lemma_decimal_digits(end as nat);
    law_parse_decimal(start as nat, u64::MAX as nat);
    law_parse_decimal(end as nat, u64::MAX as nat);
    lemma_parse_dashed(left, right);
    reveal_strlit("-");
    let range = left + "-"@ + right;
    assert(!crate::text::is_white_space(range[0]));
    assert(range.last() == right.last());
    lemma_trimmed_tight(range);
    assert("bytes="@ + left + "-"@ + right == "bytes="@ + range);
    lemma_after_unit("bytes="@ + left + "-"@ + right, range);
}

/// `bytes=start-` is everything from `start` on.
pub proof fn law_parse_open_ended(start: u64)
    ensures
        parse_range("bytes="@ + decimal(start as nat) + "-"@) == Ok::<RangeRequest, RangeErrorView>(
            RangeRequest::OpenEnded { start },
        ),
{
    let left = decimal(start as nat);
    let right = Seq::<char>::empty();
    lemma_decimal_digits(start as nat);
    law_parse_decimal(start as nat, u64::MAX as nat);
    lemma_parse_dashed(left, right);
    reveal_strlit("-");
    let range = left + "-"@ + right;
    assert(range.last() == '-');
    lemma_trimmed_tight(range);
    assert("bytes="@ + left + "-"@ == "bytes="@ + range);
    lemma_after_unit("bytes="@ + left + "-"@, range);
}

/// `bytes=-length` is the last `length` bytes.
pub proof fn law_parse_suffix(length: u64)
    ensures
        parse_range("bytes=-"@ + decimal(length as nat)) == Ok::<RangeRequest, RangeErrorView>(
            RangeRequest::Suffix { length },
        ),
{
    let left = Seq::<char>::empty();
    let right = decimal(length as nat);
    lemma_decimal_digits(length as nat);
    law_parse_decimal(length as nat, u64::MAX as nat);
    lemma_parse_dashed(left, right);
    reveal_strlit("-");
    reveal_strlit("bytes=-");
    reveal_strlit("bytes=");
    let range = left + "-"@ + right;
    assert(range[0] == '-');
    assert(range.last() == right.last());
    lemma_trimmed_tight(range);
    assert("bytes=-"@ + right == "bytes="@ + range);
    lemma_after_unit("bytes=-"@ + right, range);
}

/// Two runs of digits round one dash are told apart at the dash.
proof fn lemma_parse_dashed(left: Seq<char>, right: Seq<char>)
    requires
        forall|i: int| 0 <= i < left.len() ==> is_digit(#[trigger] left[i]),
        forall|i: int| 0 <= i < right.len() ==> is_digit(#[trigger] right[i]),
    ensures
        ({
            let range = left + "-"@ + right;
            &&& !range.contains(',')
            &&& first_index(range, '-') == Some(left.len() as int)
            &&& range.take(left.len() as int) == left
            &&& range.skip(left.len() as int + 1) == right
        }),
{
    reveal_strlit("-");
    let range = left + "-"@ + right;
    assert forall|i: int| 0 <= i < range.len() implies range[i] != ',' by {
        if i < left.len() {
            assert(range[i] == left[i]);
        } else if i > left.len() {
            assert(range[i] == right[i - left.len() - 1]);
        }
    }
    assert forall|j: int| 0 <= j < left.len() implies range[j] != '-' by {
        assert(range[j] == left[j]);
    }
    assert(first_at(range, '-', left.len() as int));
    lemma_first_index(range, '-', left.len() as int);
    assert(range.take(left.len() as int) == left);
    assert(range.skip(left.len() as int + 1) == right);
}

/// Behind `bytes=` stands the range.
proof fn lemma_after_unit(header: Seq<char>, range: Seq<char>)
    requires
        header == "bytes="@ + range,
    ensures
        "bytes="@.is_prefix_of(header),
        header.skip("bytes="@.len() as int) == range,
{
    assert(header.subrange(0, "bytes="@.len() as int) == "bytes="@);
    assert(header.skip("bytes="@.len() as int) == range);
}

/// What a range covers: the bytes from its first to its last, or the rest, or the
/// last so many, as far as the content has them. Only a range that begins behind
/// the content is refused.
pub proof fn law_range_covers(start: u64, end: u64, length: u64, content_length: u64, i: int)
    requires
        start <= end,
    ensures
        ({
            let bounded = RangeRequest::Bounded { start, end_inclusive: end }.resolved(
                content_length,
            );
            let open = RangeRequest::OpenEnded { start }.resolved(content_length);
            let suffix = RangeRequest::Suffix { length }.resolved(content_length);
            let beyond = RangeErrorView::StartBeyondEnd { start, content_length };
            &&& bounded matches Ok(s) ==> s.content_length == content_length && (s.start <= i
                < s.end_exclusive <==> start <= i <= end && i < content_length) && s.start == start
            &&& open matches Ok(s) ==> s.content_length == content_length && (s.start <= i
                < s.end_exclusive <==> start <= i < content_length) && s.start == start
            &&& suffix matches Ok(s) ==> s.content_length == content_length && (s.start <= i
                < s.end_exclusive <==> 0 <= i < content_length && i + length >= content_length)
            &&& start < content_length ==> bounded is Ok && open is Ok
            &&& start >= content_length ==> bounded == Err::<ContentSlice, RangeErrorView>(beyond)
                && open == Err::<ContentSlice, RangeErrorView>(beyond)
            &&& suffix is Ok
        }),
{
}

/// A header that counts in another unit, lists several ranges or ends before it
/// starts is refused, and a bounded range that parses does not end before it
/// starts.
pub proof fn law_refused_headers(header: Seq<char>, range: Seq<char>, start: u64, end: u64)
    ensures
        !"bytes="@.is_prefix_of(header) ==> parse_range(header) is Err,
        trimmed(range).contains(',') ==> parse_range("bytes="@ + range) is Err,
        parse_range(header) matches Ok(RangeRequest::Bounded { start: a, end_inclusive: b }) ==> a
            <= b,
        start > end ==> parse_range("bytes="@ + decimal(start as nat) + "-"@ + decimal(end as nat))
            == Err::<RangeRequest, RangeErrorView>(
            RangeErrorView::StartGreaterThanEnd { start, end },
        ),
{
    lemma_after_unit("bytes="@ + range, range);
    if start > end {
        let left = decimal(start as nat);
        let right = decimal(end as nat);
        lemma_decimal_digits(start as nat);
        lemma_decimal_digits(end as nat);
        law_parse_decimal(start as nat, u64::MAX as nat);
        law_parse_decimal(end as nat, u64::MAX as nat);
        lemma_parse_dashed(left, right);
        reveal_strlit("-");
        let all = left + "-"@ + right;
        assert(!crate::text::is_white_space(all[0]));
        assert(all.last() == right.last());
        lemma_trimmed_tight(all);
        assert("bytes="@ + left + "-"@ + right == "bytes="@ + all);
        lemma_after_unit("bytes="@ + left + "-"@ + right, all);
    }
}

/// What a response announces: all of the content with 200 and no range, or a part
/// with 206, as many bytes as it has, and a range that names its first byte, its
/// last byte and the length of the content.
pub proof fn law_announced_bytes(meta: ResponseMeta, slice: ContentSlice)
    requires
        slice.start < slice.end_exclusive,
    ensures
        slice.byte_count() == slice.end_exclusive - slice.start,
        meta.is_full(slice.content_length) ==> meta.status == 200 && meta.content_length
            == slice.content_length && meta.content_range is None,
        meta.is_partial(slice) ==> meta.status == 206 && meta.content_length == slice.end_exclusive
            - slice.start && meta.content_range is Some && meta.content_range->0@ == "bytes "@
            + decimal(slice.start as nat) + "-"@ + decimal((slice.end_exclusive - 1) as nat) + "/"@
            + decimal(slice.content_length as nat),
{
}

/// Nothing at all is announced as ending at its first byte of all.
pub proof fn law_announced_end(meta: ResponseMeta, slice: ContentSlice)
    requires
        meta.is_partial(slice),
    ensures
        slice.end_exclusive == 0 ==> meta.content_range is Some && meta.content_range->0@
            == "bytes "@ + decimal(slice.start as nat) + "-"@ + decimal(0) + "/"@ + decimal(
            slice.content_length as nat,
        ),
        slice.end_exclusive <= slice.start ==> meta.content_length == 0,
{
}

} // verus!
