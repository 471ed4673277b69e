//! The metadata of a torrent with one file.

use vstd::prelude::*;

verus! {

/// Length of a piece hash in bytes.
pub const PIECE_HASH_LEN: usize = 20;

/// What a download needs to know of a torrent.
#[derive(Debug, Clone)]
pub struct TorrentInfo {
    /// Nominal piece length in bytes. The last piece may be shorter.
    pub piece_length: u64,
    /// SHA-1 hashes of all pieces, 20 bytes each, in order.
    pub piece_hashes: Vec<u8>,
    /// Size of the file in bytes.
    pub file_size: u64,
    /// Name of the file.
    pub file_name: String,
}

impl TorrentInfo {
    /// Number of pieces that have a hash.
    pub open spec fn pieces(self) -> int {
        self.piece_hashes@.len() as int / 20
    }

    /// The hash of a piece, if it has one.
    pub open spec fn expected_hash(self, piece_index: u32) -> Option<Seq<u8>> {
        if piece_index < self.pieces() {
            Some(self.piece_hashes@.subrange(20 * piece_index, 20 * piece_index + 20))
        } else {
            None
        }
    }

    /// The size of a piece: that of the rest of the file for the last one, and
    /// nothing for a piece that does not exist.
    pub open spec fn size_of_piece(self, piece_index: u32) -> int {
        let start = piece_index * self.piece_length;
        if piece_index >= self.pieces() || start >= self.file_size {
            0
        } else if self.file_size - start < self.piece_length {
            self.file_size - start
        } else {
            self.piece_length as int
        }
    }

    /// Returns the number of pieces, as far as an index can reach.
    pub fn piece_count(&self) -> (r: u32)
        ensures
            r == (if self.pieces() > u32::MAX {
                u32::MAX as int
            } else {
                self.pieces()
            }),
    {
        let count: usize = self.piece_hashes.len() / PIECE_HASH_LEN;
        if count as u64 > u32::MAX as u64 {
            u32::MAX
        } else {
            count as u32
        }
    }

    /// Returns the expected hash of a piece, `None` if there is no such piece.
    pub fn piece_hash(&self, piece_index: u32) -> (r: Option<&[u8]>)
        ensures
            match r {
                Some(hash) => self.expected_hash(piece_index) == Some(hash@),
                None => self.expected_hash(piece_index) is None,
            },
    {
        let count: usize = self.piece_hashes.len() / PIECE_HASH_LEN;
        let index: usize = piece_index as usize;
        if index < count {
            let start: usize = index * PIECE_HASH_LEN;
            Some(
                vstd::slice::slice_subrange(
                    self.piece_hashes.as_slice(),
                    start,
                    start + PIECE_HASH_LEN,
                ),
            )
        } else {
            None
        }
    }

    /// Returns the size of a piece in bytes, 0 if there is no such piece.
    pub fn piece_size(&self, piece_index: u32) -> (r: u64)
        ensures
            r == self.size_of_piece(piece_index),
    {
        let count: usize = self.piece_hashes.len() / PIECE_HASH_LEN;
        if piece_index as usize >= count {
            return 0;
        }
        proof {
            assert(piece_index * self.piece_length <= u32::MAX * u64::MAX) by (nonlinear_arith)
                requires
                    piece_index <= u32::MAX,
                    self.piece_length <= u64::MAX,
            ;
        }
        let start: u128 = piece_index as u128 * self.piece_length as u128;
        if start >= self.file_size as u128 {
            return 0;
        }
        let rest: u64 = self.file_size - start as u64;
        if rest < self.piece_length {
            rest
        } else {
            self.piece_length
        }
    }
}

// ── Laws ────────────────────────────────────────────────────────────

/// The hashes stand one behind the other, 20 bytes each. What is left over at the
/// end is no hash.
pub proof fn law_hashes_stand_in_order(info: TorrentInfo, i: u32, k: int)
    requires
        0 <= k < 20,
    ensures
        20 * i + 20 <= info.piece_hashes@.len() ==> (info.expected_hash(i) matches Some(hash)
            && hash.len() == 20 && hash[k] == info.piece_hashes@[20 * i + k]),
        20 * i + 20 > info.piece_hashes@.len() ==> info.expected_hash(i) is None,
        20 * info.pieces() <= info.piece_hashes@.len() < 20 * info.pieces() + 20,
{
}

/// The pieces divide the file: a byte of the file belongs to piece `i` exactly if
/// it lies within the `i`-th stretch of the piece length, and no piece reaches
/// beyond the end of the file. A piece without a hash has no bytes.
pub proof fn law_pieces_divide_file(info: TorrentInfo, i: u32, b: int)
    ensures
        20 * i + 20 <= info.piece_hashes@.len() ==> (i * info.piece_length <= b < i
            * info.piece_length + info.size_of_piece(i) <==> b < info.file_size && i
            * info.piece_length <= b < (i + 1) * info.piece_length),
        20 * i + 20 > info.piece_hashes@.len() ==> info.size_of_piece(i) == 0,
        0 <= info.size_of_piece(i) <= info.piece_length,
{
    assert((i + 1) * info.piece_length == i * info.piece_length + info.piece_length)
        by (nonlinear_arith);
}

} // verus!
