//! The piece download engine: how a piece splits into blocks, and the
//! integrity gate that a downloaded piece must pass.

use crate::digest::{sha1, sha1_digest};
use crate::torrent::{files_length, total_length, Content, Torrent, TorrentView};
use crate::wire::bytes_equal;
use vstd::arithmetic::div_mod::lemma_fundamental_div_mod;
use vstd::prelude::*;

verus! {

/// A piece whose digest is not the one the metainfo gives for it.
#[derive(Debug, Clone, Copy, PartialEq, Eq)]
pub struct PieceHashMismatch {
    /// The digest that the metainfo gives.
    pub expected: [u8; 20],
    /// The digest of the data.
    pub found: [u8; 20],
}

/// The number of pieces that content of `total` bytes takes at
/// `piece_length` bytes each: the quotient, rounded up.
pub open spec fn piece_count_for(total: nat, piece_length: nat) -> nat
    recommends
        piece_length > 0,
{
    if total == 0 {
        0
    } else {
        ((total - 1) / (piece_length as int) + 1) as nat
    }
}

/// The metainfo keeps its invariant: the piece length is positive, the
/// total length fits the machine, and there is one digest for each piece.
pub open spec fn layout_consistent(t: TorrentView) -> bool {
    &&& t.info.piece_length > 0
    &&& total_length(t.info.content) <= usize::MAX
    &&& t.info.pieces.len() == piece_count_for(total_length(t.info.content), t.info.piece_length)
}

/// The logical length of piece `index`: the piece length, but for the last
/// piece what is left of the content.
pub open spec fn piece_length_of(t: TorrentView, index: int) -> int {
    if index == t.info.pieces.len() - 1 {
        total_length(t.info.content) - t.info.piece_length * (t.info.pieces.len() - 1)
    } else {
        t.info.piece_length as int
    }
}

/// The number of blocks of a piece of `piece_length` bytes: the quotient by
/// the block size, rounded up.
pub open spec fn block_count_of(piece_length: int, block_size: int) -> int
    recommends
        block_size > 0,
{
    if piece_length % block_size == 0 {
        piece_length / block_size
    } else {
        piece_length / block_size + 1
    }
}

/// The length of the last block: the remainder of the piece length by the
/// block size, or a whole block where that is zero.
pub open spec fn last_block_length_of(piece_length: int, block_size: int) -> int
    recommends
        block_size > 0,
{
    if piece_length % block_size == 0 {
        block_size
    } else {
        piece_length % block_size
    }
}

/// In a consistent metainfo every piece has at least one byte and at most
/// a piece length of them, and the pieces before the last leave room for it.
pub proof fn lemma_piece_length_bounds(t: TorrentView, index: int)
    requires
        layout_consistent(t),
        0 <= index < t.info.pieces.len(),
    ensures
        1 <= piece_length_of(t, index) <= t.info.piece_length,
        t.info.piece_length * (t.info.pieces.len() - 1) < total_length(t.info.content),
{
    let total = total_length(t.info.content) as int;
    let pl = t.info.piece_length as int;
    lemma_fundamental_div_mod(total - 1, pl);
    assert(0 <= (total - 1) % pl < pl);
}

/// The blocks of a piece add up to the piece: all but the last are whole.
pub proof fn lemma_blocks_add_up(piece_length: int, block_size: int)
    requires
        piece_length >= 1,
        block_size > 0,
    ensures
        block_count_of(piece_length, block_size) >= 1,
        1 <= last_block_length_of(piece_length, block_size) <= block_size,
        (block_count_of(piece_length, block_size) - 1) * block_size + last_block_length_of(
            piece_length,
            block_size,
        ) == piece_length,
{
    lemma_fundamental_div_mod(piece_length, block_size);
    let q = piece_length / block_size;
    assert(0 <= piece_length % block_size < block_size);
    assert((q - 1) * block_size + block_size == block_size * q) by (nonlinear_arith);
    assert(q * block_size == block_size * q) by (nonlinear_arith);
    if piece_length % block_size == 0 {
        assert(q >= 1) by (nonlinear_arith)
            requires
                piece_length == block_size * q,
                piece_length >= 1,
                block_size > 0,
        ;
    } else {
        assert(q >= 0) by (nonlinear_arith)
            requires
                piece_length == block_size * q + piece_length % block_size,
                0 <= piece_length % block_size < block_size,
                piece_length >= 1,
                block_size > 0,
        ;
    }
}

impl Torrent {
    /// The total number of bytes of the content, or `None` where the sum
    /// does not fit the machine.
    pub fn checked_content_length(&self) -> (total: Option<usize>)
        ensures
            match total {
                Some(n) => n == total_length(self@.info.content),
                None => total_length(self@.info.content) > usize::MAX,
            },
    {
        match &self.info.content {
            Content::SingleFile { length } => Some(*length),
            Content::MultiFile { files } => {
                let ghost views = self@.info.content->files;
                let mut total: usize = 0;
                let mut i: usize = 0;
                while i < files.len()
                    invariant
                        i <= files.len(),
                        views == Seq::new(files.len() as nat, |k: int| files[k]@),
                        total_length(self@.info.content) == files_length(views, files.len() as int),
                        total == files_length(views, i as int),
                    decreases files.len() - i,
                {
                    if files[i].length > usize::MAX - total {
                        proof {
                            crate::torrent::lemma_files_length_grows(
                                views,
                                i + 1,
                                files.len() as int,
                            );
                            assert(files_length(views, i + 1) == total + views[i as int].length);
                        }
                        return None;
                    }
                    total = total + files[i].length;
                    i += 1;
                }
                Some(total)
            },
        }
    }

    /// Whether the metainfo keeps its invariant.
    pub fn is_consistent(&self) -> (ok: bool)
        ensures
            ok == layout_consistent(self@),
    {
        if self.info.piece_length == 0 {
            return false;
        }
        match self.checked_content_length() {
            None => false,
            Some(total) => {
                let count: usize = self.info.pieces.0.len();
                if total == 0 {
                    count == 0
                } else {
                    let whole: usize = (total - 1) / self.info.piece_length;
                    count > 0 && count - 1 == whole
                }
            },
        }
    }
}

/// How piece `piece_index` splits into blocks of `block_size` bytes: the
/// length of the piece, the number of its blocks and the length of the last
/// one. All blocks but the last are whole, and together they make the piece.
pub fn calculate_block_length(torrent: &Torrent, piece_index: usize, block_size: u32) -> (r: (
    usize,
    u32,
    u32,
))
    requires
        layout_consistent(torrent@),
        piece_index < torrent@.info.pieces.len(),
        block_size > 0,
        piece_length_of(torrent@, piece_index as int) <= u32::MAX,
    ensures
        r.0 == piece_length_of(torrent@, piece_index as int),
        r.1 == block_count_of(r.0 as int, block_size as int),
        r.2 == last_block_length_of(r.0 as int, block_size as int),
        r.1 >= 1,
        1 <= r.2 <= block_size,
        (r.1 - 1) * block_size + r.2 == r.0,
{
    let piece_count: usize = torrent.info.pieces.0.len();
    let piece_length: usize = torrent.info.piece_length;
    proof {
        lemma_piece_length_bounds(torrent@, piece_index as int);
    }
    let piece_length: usize = if piece_index == piece_count - 1 {
        let total_length: usize = torrent.content_length();
        total_length - piece_length * (piece_count - 1)
    } else {
        piece_length
    };
    proof {
        lemma_blocks_add_up(piece_length as int, block_size as int);
    }
    let length: u32 = piece_length as u32;
    let whole: u32 = length / block_size;
    let remainder: u32 = length % block_size;
    if remainder == 0 {
        (piece_length, whole, block_size)
    } else {
        proof {
            lemma_fundamental_div_mod(length as int, block_size as int);
            assert(whole < u32::MAX) by (nonlinear_arith)
                requires
                    length == block_size * whole + remainder,
                    remainder >= 1,
                    block_size >= 1,
                    length <= u32::MAX,
            ;
        }
        (piece_length, whole + 1, remainder)
    }
}

/// Compares the digest of a piece with the digest that is expected of it.
pub fn check_digest(expected: &[u8; 20], found: [u8; 20]) -> (r: Result<(), PieceHashMismatch>)
    ensures
        match r {
            Ok(_) => expected@ == found@,
            Err(e) => expected@ != found@ && e.expected == *expected && e.found == found,
        },
{
    if bytes_equal(expected.as_slice(), found.as_slice()) {
        Ok(())
    } else {
        Err(PieceHashMismatch { expected: *expected, found })
    }
}

/// The integrity gate: the data is accepted exactly when its digest is the
/// one that the metainfo gives for piece `piece_index`.
pub fn validate_piece(torrent: &Torrent, piece_index: usize, piece: &[u8]) -> (r: Result<
    (),
    PieceHashMismatch,
>)
    requires
        piece_index < torrent@.info.pieces.len(),
    ensures
        match r {
            Ok(_) => sha1_digest(piece@) == torrent@.info.pieces[piece_index as int],
            Err(e) => sha1_digest(piece@) != torrent@.info.pieces[piece_index as int]
                && e.expected@ == torrent@.info.pieces[piece_index as int] && e.found@
                == sha1_digest(piece@),
        },
{
    let current_hash: [u8; 20] = sha1(piece);
    check_digest(&torrent.info.pieces.0[piece_index], current_hash)
}

} // verus!
