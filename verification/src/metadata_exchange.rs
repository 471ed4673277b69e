//! Metadata exchange: resolving a magnet URI without a metadata file.
//!
//! A client that knows only an info hash fetches the info dictionary from
//! peers in blocks of 16 KiB. [`MetadataExchange`] tracks the blocks, assembles
//! them, and accepts the result only if its SHA-1 hash is the info hash.

use vstd::prelude::*;

use crate::codec::arrays_equal;
use crate::digest::sha1;
use crate::digest::sha1_digest;
use crate::text::decimal;
use crate::text::push_decimal;

verus! {

/// Size of each metadata block in bytes.
pub const METADATA_BLOCK_SIZE: usize = 16384;

/// Maximum metadata size that is accepted (10 MiB).
pub const MAX_METADATA_SIZE: usize = 10_485_760;

// ── Protocol messages ───────────────────────────────────────────────

/// Metadata exchange message types.
#[derive(Debug, Clone, PartialEq, Eq)]
pub enum MetadataMessage {
    /// Request a metadata block by index.
    Request {
        /// Block index (0-based).
        piece: u32,
    },
    /// Deliver a metadata block.
    Data {
        /// Block index (0-based).
        piece: u32,
        /// Total metadata size in bytes.
        total_size: usize,
        /// Block payload (up to 16384 bytes).
        payload: Vec<u8>,
    },
    /// Reject a metadata request.
    Reject {
        /// Block index that was rejected.
        piece: u32,
    },
}

impl MetadataMessage {
    /// Returns the `msg_type` integer for this message.
    pub fn msg_type(&self) -> (r: u8)
        ensures
            r == match *self {
                MetadataMessage::Request { .. } => 0u8,
                MetadataMessage::Data { .. } => 1u8,
                MetadataMessage::Reject { .. } => 2u8,
            },
    {
        match self {
            MetadataMessage::Request { .. } => 0,
            MetadataMessage::Data { .. } => 1,
            MetadataMessage::Reject { .. } => 2,
        }
    }

    /// Returns the piece index referenced by this message.
    pub fn piece(&self) -> (r: u32)
        ensures
            r == match *self {
                MetadataMessage::Request { piece } => piece,
                MetadataMessage::Data { piece, .. } => piece,
                MetadataMessage::Reject { piece } => piece,
            },
    {
        match self {
            MetadataMessage::Request { piece } => *piece,
            MetadataMessage::Data { piece, .. } => *piece,
            MetadataMessage::Reject { piece } => *piece,
        }
    }
}

/// Status of a single metadata block.
#[derive(Debug, Clone, Copy, PartialEq, Eq, Structural)]
pub enum BlockStatus {
    /// Not yet requested.
    Missing,
    /// Requested from a peer, awaiting response.
    Pending,
    /// Received and stored.
    Received,
}

// ── Errors ──────────────────────────────────────────────────────────

/// Errors from metadata exchange operations.
#[derive(Debug)]
pub enum MetadataError {
    /// Metadata exceeds the safety cap.
    TooLarge {
        /// Claimed size.
        size: usize,
        /// Maximum allowed.
        max: usize,
    },
    /// Metadata size is zero.
    EmptyMetadata,
    /// Size mismatch between peers.
    SizeMismatch {
        /// Size recorded from the first peer.
        expected: usize,
        /// Size a later peer claimed.
        received: usize,
    },
    /// Block index out of range.
    InvalidBlock {
        /// Received index.
        index: u32,
        /// Total block count.
        count: u32,
    },
    /// Block payload size mismatch.
    BlockSizeMismatch {
        /// Block index.
        piece: u32,
        /// Expected payload size.
        expected: usize,
        /// Received payload size.
        received: usize,
    },
    /// Not all blocks received yet.
    Incomplete {
        /// Blocks received so far.
        received: u32,
        /// Total blocks needed.
        total: u32,
    },
    /// SHA-1 of assembled metadata doesn't match the info hash.
    HashMismatch {
        /// Expected hash.
        expected: [u8; 20],
        /// Actual hash of assembled data.
        actual: [u8; 20],
    },
}

impl MetadataError {
    /// The text shown for an error.
    pub open spec fn text(self) -> Seq<char> {
        match self {
            MetadataError::TooLarge { size, max } => "metadata too large ("@ + decimal(size as nat)
                + " bytes, max "@ + decimal(max as nat) + ")"@,
            MetadataError::EmptyMetadata => "metadata size is zero"@,
            MetadataError::SizeMismatch { expected, received } => "metadata size mismatch: expected "@
                + decimal(expected as nat) + ", received "@ + decimal(received as nat),
            MetadataError::InvalidBlock { index, count } => "invalid block index "@ + decimal(
                index as nat,
            ) + " (only "@ + decimal(count as nat) + " blocks)"@,
            MetadataError::BlockSizeMismatch { piece, expected, received } => "block "@ + decimal(
                piece as nat,
            ) + " size mismatch: expected "@ + decimal(expected as nat) + ", received "@ + decimal(
                received as nat,
            ),
            MetadataError::Incomplete { received, total } => "metadata incomplete: "@ + decimal(
                received as nat,
            ) + "/"@ + decimal(total as nat) + " blocks"@,
            MetadataError::HashMismatch { .. } => "metadata hash mismatch"@,
        }
    }

    /// The text shown for this error.
    pub fn display(&self) -> (r: String)
        ensures
            r@ == self.text(),
    {
        let mut out = String::new();
        match self {
            MetadataError::TooLarge { size, max } => {
                out.append("metadata too large (");
                push_decimal(&mut out, *size as u64);
                out.append(" bytes, max ");
                push_decimal(&mut out, *max as u64);
                out.append(")");
            },
            MetadataError::EmptyMetadata => {
                out.append("metadata size is zero");
            },
            MetadataError::SizeMismatch { expected, received } => {
                out.append("metadata size mismatch: expected ");
                push_decimal(&mut out, *expected as u64);
                out.append(", received ");
                push_decimal(&mut out, *received as u64);
            },
            MetadataError::InvalidBlock { index, count } => {
                out.append("invalid block index ");
                push_decimal(&mut out, *index as u64);
                out.append(" (only ");
                push_decimal(&mut out, *count as u64);
                out.append(" blocks)");
            },
            MetadataError::BlockSizeMismatch { piece, expected, received } => {
                out.append("block ");
                push_decimal(&mut out, *piece as u64);
                out.append(" size mismatch: expected ");
                push_decimal(&mut out, *expected as u64);
                out.append(", received ");
                push_decimal(&mut out, *received as u64);
            },
            MetadataError::Incomplete { received, total } => {
                out.append("metadata incomplete: ");
                push_decimal(&mut out, *received as u64);
                out.append("/");
                push_decimal(&mut out, *total as u64);
                out.append(" blocks");
            },
            MetadataError::HashMismatch { .. } => {
                out.append("metadata hash mismatch");
            },
        }
        out
    }
}

// ── Model ───────────────────────────────────────────────────────────

/// What an exchange holds.
#[verifier::ext_equal]
pub struct ExchangeView {
    /// The info hash to be resolved.
    pub info_hash: Seq<u8>,
    /// Total metadata size, once known.
    pub size: Option<usize>,
    /// Status of each block.
    pub blocks: Seq<BlockStatus>,
    /// Assembled metadata.
    pub buffer: Seq<u8>,
    /// Whether all blocks have been received and verified.
    pub verified: bool,
}

/// Number of blocks of metadata of this size.
pub open spec fn blocks_for(size: int) -> int {
    (size + METADATA_BLOCK_SIZE - 1) / METADATA_BLOCK_SIZE as int
}

/// Where a block starts.
pub open spec fn block_offset(piece: int) -> int {
    piece * METADATA_BLOCK_SIZE
}

/// The length of a block: all are full but perhaps the last.
pub open spec fn block_len(size: int, piece: int) -> int {
    if size - block_offset(piece) < METADATA_BLOCK_SIZE {
        size - block_offset(piece)
    } else {
        METADATA_BLOCK_SIZE as int
    }
}

/// The bytes of one block.
pub open spec fn block_of(data: Seq<u8>, piece: int) -> Seq<u8> {
    data.subrange(block_offset(piece), block_offset(piece) + block_len(data.len() as int, piece))
}

/// `data` with `part` at `at`.
pub open spec fn overwritten(data: Seq<u8>, at: int, part: Seq<u8>) -> Seq<u8> {
    data.take(at) + part + data.skip(at + part.len())
}

/// How many blocks have been received.
pub open spec fn count_received(blocks: Seq<BlockStatus>) -> nat
    decreases blocks.len(),
{
    if blocks.len() == 0 {
        0
    } else {
        count_received(blocks.drop_last()) + if blocks.last() is Received {
            1nat
        } else {
            0nat
        }
    }
}

/// A list of equal statuses.
pub open spec fn all_missing(n: nat) -> Seq<BlockStatus> {
    Seq::new(n, |i: int| BlockStatus::Missing)
}

impl ExchangeView {
    /// Blocks and buffer fit the size, and what counts as verified is all there
    /// and has the right hash.
    pub open spec fn wf(self) -> bool {
        &&& match self.size {
            None => self.blocks.len() == 0 && self.buffer.len() == 0,
            Some(n) => {
                &&& 0 < n <= MAX_METADATA_SIZE
                &&& self.blocks.len() == blocks_for(n as int)
                &&& self.buffer.len() == n
            },
        }
        &&& self.verified ==> self.all_received() && sha1_digest(self.buffer) == self.info_hash
    }

    /// What is wrong with a size, if anything.
    pub open spec fn size_fault(size: usize) -> Option<MetadataError> {
        if size > MAX_METADATA_SIZE {
            Some(MetadataError::TooLarge { size, max: MAX_METADATA_SIZE })
        } else if size == 0 {
            Some(MetadataError::EmptyMetadata)
        } else {
            None
        }
    }

    /// The state once the size is known: nothing requested, nothing received,
    /// nothing verified.
    pub open spec fn sized(self, size: usize) -> ExchangeView {
        ExchangeView {
            size: Some(size),
            blocks: all_missing(blocks_for(size as int) as nat),
            buffer: Seq::new(size as nat, |i: int| 0u8),
            verified: false,
            ..self
        }
    }

    /// What is wrong with a block for metadata of a known size, if anything.
    pub open spec fn block_fault(self, piece: u32, total_size: usize, len: nat) -> Option<
        MetadataError,
    > {
        let size = self.size->0;
        if total_size != size {
            Some(MetadataError::SizeMismatch { expected: size, received: total_size })
        } else if piece >= self.blocks.len() {
            Some(MetadataError::InvalidBlock { index: piece, count: self.blocks.len() as u32 })
        } else if len != block_len(size as int, piece as int) {
            Some(
                MetadataError::BlockSizeMismatch {
                    piece,
                    expected: block_len(size as int, piece as int) as usize,
                    received: len as usize,
                },
            )
        } else {
            None
        }
    }

    /// The state with a block in place, which has yet to be verified.
    pub open spec fn stored(self, piece: u32, payload: Seq<u8>) -> ExchangeView {
        ExchangeView {
            blocks: self.blocks.update(piece as int, BlockStatus::Received),
            buffer: overwritten(self.buffer, block_offset(piece as int), payload),
            verified: false,
            ..self
        }
    }

    /// The state with another status for a block, if it has the one status.
    pub open spec fn with_status(self, piece: u32, from: BlockStatus, to: BlockStatus) -> ExchangeView {
        if piece < self.blocks.len() && self.blocks[piece as int] == from {
            ExchangeView { blocks: self.blocks.update(piece as int, to), ..self }
        } else {
            self
        }
    }

    /// Whether every block has been received, and there is one.
    pub open spec fn all_received(self) -> bool {
        &&& self.blocks.len() > 0
        &&& forall|i: int| 0 <= i < self.blocks.len() ==> (#[trigger] self.blocks[i]) is Received
    }
}

/// Block numbers and lengths fit the size.
proof fn lemma_block_bounds(size: int, piece: int)
    requires
        0 < size,
        0 <= piece < blocks_for(size),
    ensures
        0 <= block_offset(piece) < size,
        0 < block_len(size, piece) <= METADATA_BLOCK_SIZE,
        block_offset(piece) + block_len(size, piece) <= size,
{
}

// ── Exchange ────────────────────────────────────────────────────────

/// Tracks assembly of metadata blocks for a single info hash.
pub struct MetadataExchange {
    info_hash: [u8; 20],
    metadata_size: Option<usize>,
    blocks: Vec<BlockStatus>,
    buffer: Vec<u8>,
    verified: bool,
}

impl View for MetadataExchange {
    type V = ExchangeView;

    closed spec fn view(&self) -> ExchangeView {
        ExchangeView {
            info_hash: self.info_hash@,
            size: self.metadata_size,
            blocks: self.blocks@,
            buffer: self.buffer@,
            verified: self.verified,
        }
    }
}

impl MetadataExchange {
    /// Blocks and buffer fit the size, and what counts as verified is all there
    /// and has the right hash.
    pub open spec fn wf(self) -> bool {
        self@.wf()
    }

    /// Creates a new metadata exchange for the given info hash.
    pub fn new(info_hash: [u8; 20]) -> (r: MetadataExchange)
        ensures
            r.wf(),
            r@ == (ExchangeView {
                info_hash: info_hash@,
                size: None,
                blocks: Seq::empty(),
                buffer: Seq::empty(),
                verified: false,
            }),
    {
        MetadataExchange {
            info_hash,
            metadata_size: None,
            blocks: Vec::new(),
            buffer: Vec::new(),
            verified: false,
        }
    }

    /// Sets the total metadata size and starts over with all blocks missing.
    pub fn set_metadata_size(&mut self, size: usize) -> (r: Result<(), MetadataError>)
        requires
            old(self).wf(),
        ensures
            final(self).wf(),
            match r {
                Ok(()) => {
                    &&& ExchangeView::size_fault(size) is None
                    &&& final(self)@ == old(self)@.sized(size)
                },
                Err(e) => {
                    &&& ExchangeView::size_fault(size) == Some(e)
                    &&& final(self)@ == old(self)@
                },
            },
    {
        if size > MAX_METADATA_SIZE {
            return Err(MetadataError::TooLarge { size, max: MAX_METADATA_SIZE });
        }
        if size == 0 {
            return Err(MetadataError::EmptyMetadata);
        }
        let block_count: usize = (size + METADATA_BLOCK_SIZE - 1) / METADATA_BLOCK_SIZE;
        let mut blocks: Vec<BlockStatus> = Vec::new();
        while blocks.len() < block_count
            invariant
                blocks@.len() <= block_count,
                blocks@ == all_missing(blocks@.len()),
            decreases block_count - blocks@.len(),
        {
            blocks.push(BlockStatus::Missing);
        }
        let mut buffer: Vec<u8> = Vec::new();
        while buffer.len() < size
            invariant
                buffer@.len() <= size,
                buffer@ == Seq::new(buffer@.len(), |i: int| 0u8),
            decreases size - buffer@.len(),
        {
            buffer.push(0);
        }
        self.metadata_size = Some(size);
        self.blocks = blocks;
        self.buffer = buffer;
        self.verified = false;
        Ok(())
    }

    /// Returns the number of blocks needed.
    pub fn block_count(&self) -> (r: usize)
        ensures
            r == self@.blocks.len(),
    {
        self.blocks.len()
    }

    /// Returns the first block index that needs to be requested.
    pub fn next_needed_block(&self) -> (r: Option<u32>)
        requires
            self.wf(),
        ensures
            match r {
                Some(piece) => {
                    &&& piece < self@.blocks.len()
                    &&& self@.blocks[piece as int] is Missing
                    &&& forall|i: int|
                        0 <= i < piece ==> !((#[trigger] self@.blocks[i]) is Missing)
                },
                None => forall|i: int|
                    0 <= i < self@.blocks.len() ==> !((#[trigger] self@.blocks[i]) is Missing),
            },
    {
        let mut i: usize = 0;
        while i < self.blocks.len()
            invariant
                self.wf(),
                self@.blocks == self.blocks@,
                i <= self.blocks@.len(),
                forall|k: int| 0 <= k < i ==> !((#[trigger] self.blocks@[k]) is Missing),
            decreases self.blocks@.len() - i,
        {
            if self.blocks[i] == BlockStatus::Missing {
                return Some(i as u32);
            }
            i += 1;
        }
        None
    }

    /// Marks a missing block as requested from a peer.
    pub fn mark_pending(&mut self, piece: u32)
        requires
            old(self).wf(),
        ensures
            final(self).wf(),
            final(self)@ == old(self)@.with_status(
                piece,
                BlockStatus::Missing,
                BlockStatus::Pending,
            ),
    {
        let i: usize = piece as usize;
        if i < self.blocks.len() {
            if self.blocks[i] == BlockStatus::Missing {
                self.blocks[i] = BlockStatus::Pending;
            }
        }
    }

    /// Handles a received data block and copies it into the buffer. The first
    /// block to arrive sets the metadata size. A new block has to be verified
    /// again.
    pub fn receive_block(&mut self, piece: u32, total_size: usize, payload: &[u8]) -> (r: Result<
        (),
        MetadataError,
    >)
        requires
            old(self).wf(),
        ensures
            final(self).wf(),
            old(self)@.size is None && ExchangeView::size_fault(total_size) is Some ==> {
                &&& r is Err
                &&& r->Err_0 == ExchangeView::size_fault(total_size)->0
                &&& final(self)@ == old(self)@
            },
            !(old(self)@.size is None && ExchangeView::size_fault(total_size) is Some) ==> {
                let start = if old(self)@.size is None {
                    old(self)@.sized(total_size)
                } else {
                    old(self)@
                };
                match r {
                    Ok(()) => {
                        &&& start.block_fault(piece, total_size, payload@.len()) is None
                        &&& final(self)@ == start.stored(piece, payload@)
                    },
                    Err(e) => {
                        &&& start.block_fault(piece, total_size, payload@.len()) == Some(e)
                        &&& final(self)@ == start
                    },
                }
            },
    {
        if self.metadata_size.is_none() {
            match self.set_metadata_size(total_size) {
                Ok(()) => {},
                Err(e) => return Err(e),
            }
        }
        let ghost start = self@;
        let meta_size: usize = match self.metadata_size {
            Some(n) => n,
            None => 0,
        };
        if total_size != meta_size {
            return Err(
                MetadataError::SizeMismatch { expected: meta_size, received: total_size },
            );
        }
        let block: usize = piece as usize;
        if block >= self.blocks.len() {
            return Err(
                MetadataError::InvalidBlock { index: piece, count: self.blocks.len() as u32 },
            );
        }
        proof {
            lemma_block_bounds(meta_size as int, piece as int);
        }
        let offset: usize = block * METADATA_BLOCK_SIZE;
        let left: usize = meta_size - offset;
        let expected_len: usize = if left < METADATA_BLOCK_SIZE {
            left
        } else {
            METADATA_BLOCK_SIZE
        };
        if payload.len() != expected_len {
            return Err(
                MetadataError::BlockSizeMismatch {
                    piece,
                    expected: expected_len,
                    received: payload.len(),
                },
            );
        }
        self.verified = false;
        let mut i: usize = 0;
        while i < payload.len()
            invariant
                i <= payload@.len(),
                offset + payload@.len() <= start.buffer.len(),
                start.buffer.len() == meta_size,
                self.buffer@ == overwritten(start.buffer, offset as int, payload@.take(i as int)),
                self@ == (ExchangeView { buffer: self.buffer@, verified: false, ..start }),
            decreases payload@.len() - i,
        {
            self.buffer[offset + i] = payload[i];
            assert(payload@.take(i + 1) == payload@.take(i as int).push(payload@[i as int]));
            i += 1;
        }
        assert(payload@.take(i as int) == payload@);
        self.blocks[block] = BlockStatus::Received;
        Ok(())
    }

    /// Handles a reject message: a requested block is missing again.
    pub fn handle_reject(&mut self, piece: u32)
        requires
            old(self).wf(),
        ensures
            final(self).wf(),
            final(self)@ == old(self)@.with_status(
                piece,
                BlockStatus::Pending,
                BlockStatus::Missing,
            ),
    {
        let i: usize = piece as usize;
        if i < self.blocks.len() {
            if self.blocks[i] == BlockStatus::Pending {
                self.blocks[i] = BlockStatus::Missing;
            }
        }
    }

    /// Returns whether all blocks have been received (but not yet verified).
    pub fn all_blocks_received(&self) -> (r: bool)
        ensures
            r == self@.all_received(),
    {
        if self.blocks.len() == 0 {
            return false;
        }
        let mut i: usize = 0;
        while i < self.blocks.len()
            invariant
                self@.blocks == self.blocks@,
                i <= self.blocks@.len(),
                forall|k: int| 0 <= k < i ==> (#[trigger] self.blocks@[k]) is Received,
            decreases self.blocks@.len() - i,
        {
            if self.blocks[i] != BlockStatus::Received {
                assert(!(self@.blocks[i as int] is Received));
                return false;
            }
            i += 1;
        }
        true
    }

    /// Returns whether the metadata has been fully verified.
    pub fn is_complete(&self) -> (r: bool)
        requires
            self.wf(),
        ensures
            r == self@.verified,
            r ==> self@.all_received() && sha1_digest(self@.buffer) == self@.info_hash,
    {
        self.verified
    }

    /// Attempts to verify the assembled metadata against the info hash.
    ///
    /// Returns the verified metadata bytes. Where the hash does not match, all
    /// blocks are missing again and nothing is verified.
    pub fn verify(&mut self) -> (r: Result<Vec<u8>, MetadataError>)
        requires
            old(self).wf(),
        ensures
            final(self).wf(),
            match r {
                Ok(bytes) => {
                    &&& old(self)@.all_received()
                    &&& sha1_digest(old(self)@.buffer) == old(self)@.info_hash
                    &&& bytes@ == old(self)@.buffer
                    &&& final(self)@ == (ExchangeView { verified: true, ..old(self)@ })
                },
                Err(MetadataError::Incomplete { received, total }) => {
                    &&& !old(self)@.all_received()
                    &&& received == count_received(old(self)@.blocks)
                    &&& total == old(self)@.blocks.len()
                    &&& final(self)@ == old(self)@
                },
                Err(MetadataError::HashMismatch { expected, actual }) => {
                    &&& old(self)@.all_received()
                    &&& sha1_digest(old(self)@.buffer) != old(self)@.info_hash
                    &&& expected@ == old(self)@.info_hash
                    &&& actual@ == sha1_digest(old(self)@.buffer)
                    &&& final(self)@ == (ExchangeView {
                        blocks: all_missing(old(self)@.blocks.len()),
                        verified: false,
                        ..old(self)@
                    })
                },
                Err(_) => false,
            },
    {
        if !self.all_blocks_received() {
            return Err(
                MetadataError::Incomplete {
                    received: self.received_count(),
                    total: self.blocks.len() as u32,
                },
            );
        }
        let ghost start = self@;
        let actual = sha1(self.buffer.as_slice());
        if !arrays_equal(&actual, &self.info_hash) {
            self.verified = false;
            let mut i: usize = 0;
            while i < self.blocks.len()
                invariant
                    i <= self.blocks@.len(),
                    self.blocks@.len() == start.blocks.len(),
                    forall|k: int| 0 <= k < i ==> (#[trigger] self.blocks@[k]) is Missing,
                    self@ == (ExchangeView { blocks: self.blocks@, verified: false, ..start }),
                decreases self.blocks@.len() - i,
            {
                self.blocks[i] = BlockStatus::Missing;
                i += 1;
            }
            return Err(MetadataError::HashMismatch { expected: self.info_hash, actual });
        }
        self.verified = true;
        Ok(vstd::slice::slice_to_vec(self.buffer.as_slice()))
    }

    /// Returns the count of received blocks.
    pub fn received_count(&self) -> (r: u32)
        requires
            self.wf(),
        ensures
            r == count_received(self@.blocks),
    {
        let mut count: u32 = 0;
        let mut i: usize = 0;
        assert(self.blocks@.take(0) == Seq::<BlockStatus>::empty());
        while i < self.blocks.len()
            invariant
                self.wf(),
                self@.blocks == self.blocks@,
                i <= self.blocks@.len(),
                count <= i,
                count == count_received(self.blocks@.take(i as int)),
            decreases self.blocks@.len() - i,
        {
            assert(self.blocks@.take(i + 1).drop_last() == self.blocks@.take(i as int));
            if self.blocks[i] == BlockStatus::Received {
                count += 1;
            }
            i += 1;
        }
        assert(self.blocks@.take(i as int) == self.blocks@);
        count
    }

    /// Returns the info hash.
    pub fn info_hash(&self) -> (r: &[u8; 20])
        ensures
            r@ == self@.info_hash,
    {
        &self.info_hash
    }

    /// Returns the metadata size if known.
    pub fn metadata_size(&self) -> (r: Option<usize>)
        ensures
            r == self@.size,
    {
        self.metadata_size
    }

    /// Returns the status of a block.
    pub fn block_status(&self, piece: u32) -> (r: Option<BlockStatus>)
        ensures
            r == (if piece < self@.blocks.len() {
                Some(self@.blocks[piece as int])
            } else {
                None
            }),
    {
        let i: usize = piece as usize;
        if i < self.blocks.len() {
            Some(self.blocks[i])
        } else {
            None
        }
    }
}

// ── Laws ────────────────────────────────────────────────────────────

/// An exchange is complete only while every block is there and the metadata has
/// the info hash: a new size or a new block ends it.
pub proof fn law_complete_means_verified(v: ExchangeView, size: usize, piece: u32, payload: Seq<u8>)
    requires
        v.wf(),
    ensures
        v.verified ==> v.all_received() && sha1_digest(v.buffer) == v.info_hash,
        !v.sized(size).verified,
        !v.stored(piece, payload).verified,
{
}

/// A stored block is there, and the other blocks are as they were.
pub proof fn law_stored_block_reads_back(v: ExchangeView, piece: u32, payload: Seq<u8>, other: u32)
    requires
        v.wf(),
        v.size is Some,
        v.block_fault(piece, v.size->0, payload.len()) is None,
        other < v.blocks.len(),
    ensures
        v.stored(piece, payload).wf(),
        block_of(v.stored(piece, payload).buffer, piece as int) == payload,
        v.stored(piece, payload).blocks[piece as int] is Received,
        other != piece ==> {
            &&& block_of(v.stored(piece, payload).buffer, other as int) == block_of(
                v.buffer,
                other as int,
            )
            &&& v.stored(piece, payload).blocks[other as int] == v.blocks[other as int]
        },
{
    let size = v.size->0 as int;
    let w = v.stored(piece, payload);
    lemma_block_bounds(size, piece as int);
    lemma_block_bounds(size, other as int);
    assert(block_of(w.buffer, piece as int) == payload);
    if other < piece {
        assert(block_offset(other as int) + METADATA_BLOCK_SIZE <= block_offset(piece as int));
        assert(block_of(w.buffer, other as int) == block_of(v.buffer, other as int));
    } else if other > piece {
        assert(block_offset(piece as int) + METADATA_BLOCK_SIZE <= block_offset(other as int));
        assert(block_of(w.buffer, other as int) == block_of(v.buffer, other as int));
    }
}

/// Blocks that agree with those of the metadata assemble to the metadata, in
/// whatever order they came.
pub proof fn law_blocks_assemble(buffer: Seq<u8>, data: Seq<u8>)
    requires
        buffer.len() == data.len(),
        forall|piece: int|
            0 <= piece < blocks_for(data.len() as int) ==> #[trigger] block_of(buffer, piece)
                == block_of(data, piece),
    ensures
        buffer == data,
{
    assert forall|i: int| 0 <= i < buffer.len() implies #[trigger] buffer[i] == data[i] by {
        let piece = i / METADATA_BLOCK_SIZE as int;
        assert(0 <= piece < blocks_for(data.len() as int));
        assert(block_of(buffer, piece) == block_of(data, piece));
        let at = i - block_offset(piece);
        assert(0 <= at < block_len(data.len() as int, piece));
        assert(block_of(buffer, piece)[at] == buffer[i]);
        assert(block_of(data, piece)[at] == data[i]);
    }
}

/// Blocks divide the metadata into stretches of 16 KiB: there are as many as it
/// takes, and byte `i` belongs to block `p` exactly if it lies in its stretch.
pub proof fn law_blocks_divide_metadata(size: int, p: int, i: int)
    requires
        size > 0,
    ensures
        (blocks_for(size) - 1) * 16_384 < size <= blocks_for(size) * 16_384,
        0 <= p < blocks_for(size) ==> (block_offset(p) <= i < block_offset(p) + block_len(size, p)
            <==> i < size && p * 16_384 <= i < p * 16_384 + 16_384),
        block_offset(p) == p * 16_384,
{
}

/// Which sizes are refused: nothing at all, and more than 10 MiB.
pub proof fn law_refused_sizes(size: usize)
    ensures
        ExchangeView::size_fault(size) is None <==> 0 < size <= 10_485_760,
        size == 0 ==> ExchangeView::size_fault(size) == Some(MetadataError::EmptyMetadata),
        size > 10_485_760 ==> ExchangeView::size_fault(size) == Some(
            (MetadataError::TooLarge { size, max: 10_485_760 }),
        ),
{
}

/// Once the size is known, all blocks are missing and the buffer is as long as
/// the metadata; the info hash stays.
pub proof fn law_size_is_set(v: ExchangeView, size: usize, p: int)
    requires
        0 < size <= 10_485_760,
    ensures
        ({
            let w = v.sized(size);
            &&& w.size == Some(size)
            &&& w.info_hash == v.info_hash
            &&& w.buffer.len() == size
            &&& (w.blocks.len() - 1) * 16_384 < size <= w.blocks.len() * 16_384
            &&& 0 <= p < w.blocks.len() ==> w.blocks[p] is Missing
            &&& !w.verified
        }),
{
}

/// Which blocks are refused: those of metadata of another size, those behind the
/// last, and those that are not as long as their place.
pub proof fn law_refused_blocks(v: ExchangeView, piece: u32, total: usize, len: nat)
    requires
        v.wf(),
        v.size is Some,
        len <= usize::MAX,
    ensures
        ({
            let size = v.size->0;
            let fault = v.block_fault(piece, total, len);
            let whole = (piece + 1) * 16_384 <= size;
            &&& total != size ==> fault == Some(
                MetadataError::SizeMismatch { expected: size, received: total },
            )
            &&& total == size && piece * 16_384 >= size ==> fault == Some(
                MetadataError::InvalidBlock { index: piece, count: v.blocks.len() as u32 },
            )
            &&& total == size && piece * 16_384 < size ==> {
                let expected: int = if whole {
                    16_384
                } else {
                    size - piece * 16_384
                };
                &&& len == expected ==> fault is None
                &&& len != expected ==> fault == Some(
                    MetadataError::BlockSizeMismatch {
                        piece,
                        expected: expected as usize,
                        received: len as usize,
                    },
                )
            }
        }),
{
}

/// A block is put in its place: its bytes stand from 16 KiB times its number on,
/// all other bytes are as before, and it counts as received. What was verified
/// before is not any more; size and info hash stay.
pub proof fn law_block_is_put_in_place(v: ExchangeView, piece: u32, payload: Seq<u8>, i: int, p: int)
    requires
        v.wf(),
        v.size is Some,
        v.block_fault(piece, v.size->0, payload.len()) is None,
        0 <= i < v.size->0,
        0 <= p < v.blocks.len(),
    ensures
        ({
            let w = v.stored(piece, payload);
            &&& w.buffer.len() == v.buffer.len()
            &&& w.buffer[i] == (if piece * 16_384 <= i < piece * 16_384 + 16_384 {
                payload[i - piece * 16_384]
            } else {
                v.buffer[i]
            })
            &&& p == piece ==> w.blocks[p] is Received
            &&& p != piece ==> w.blocks[p] == v.blocks[p]
            &&& w.blocks.len() == v.blocks.len()
            &&& w.size == v.size && w.info_hash == v.info_hash && !w.verified
        }),
{
    lemma_block_bounds(v.size->0 as int, piece as int);
}

/// A block takes a new status if it had the one that is asked for, and no other
/// block does.
pub proof fn law_status_of_one_block(
    v: ExchangeView,
    piece: u32,
    from: BlockStatus,
    to: BlockStatus,
    p: int,
)
    requires
        0 <= p < v.blocks.len(),
    ensures
        ({
            let w = v.with_status(piece, from, to);
            &&& w.blocks.len() == v.blocks.len()
            &&& w.blocks[p] == (if p == piece && v.blocks[p] == from {
                to
            } else {
                v.blocks[p]
            })
            &&& w.buffer == v.buffer && w.size == v.size && w.verified == v.verified
            &&& w.info_hash == v.info_hash
        }),
{
}

/// Received blocks are counted one by one, and all are received exactly if their
/// number is that of the blocks.
pub proof fn law_counting_blocks(blocks: Seq<BlockStatus>, last: BlockStatus, v: ExchangeView)
    ensures
        count_received(Seq::empty()) == 0,
        count_received(blocks.push(last)) == count_received(blocks) + (if last is Received {
            1int
        } else {
            0
        }),
        v.all_received() <==> v.blocks.len() > 0 && count_received(v.blocks) == v.blocks.len(),
{
    assert(blocks.push(last).drop_last() == blocks);
    lemma_count_received(v.blocks);
}

/// Counting reaches the number of blocks only if all are received.
proof fn lemma_count_received(blocks: Seq<BlockStatus>)
    ensures
        count_received(blocks) <= blocks.len(),
        count_received(blocks) == blocks.len() <==> forall|i: int|
            0 <= i < blocks.len() ==> (#[trigger] blocks[i]) is Received,
    decreases blocks.len(),
{
    if blocks.len() > 0 {
        let front = blocks.drop_last();
        lemma_count_received(front);
        if forall|i: int| 0 <= i < blocks.len() ==> (#[trigger] blocks[i]) is Received {
            assert forall|i: int| 0 <= i < front.len() implies (#[trigger] front[i]) is Received by {
                assert(blocks[i] is Received);
            }
            assert(blocks[blocks.len() - 1] is Received);
        }
        if count_received(blocks) == blocks.len() {
            assert forall|i: int| 0 <= i < blocks.len() implies (#[trigger] blocks[i]) is Received by {
                if i < front.len() {
                    assert(front[i] is Received);
                }
            }
        }
    }
}

} // verus!
