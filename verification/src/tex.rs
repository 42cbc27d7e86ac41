//! The layout of the game's texture files: where in a file the size of a
//! texture and its compressed pixels stand.
//!
//! A single texture file holds 8 bytes, then the width, the height and the
//! format as little-endian 32-bit numbers, 52 more bytes, the length of the
//! payload as such a number, and the payload. An array file holds 8 bytes and
//! then texture after texture: width, height, 56 bytes, the length of the
//! payload, and the payload.
use vstd::prelude::*;
use vstd::slice::slice_subrange;
use crate::endian::{le_u32, read_u32_le};

verus! {

/// Where the payload of a single texture file starts.
pub const TEX_PAYLOAD_START: usize = 76;

/// The length of what stands before each payload of an array file.
pub const ARRAY_ENTRY_HEAD: usize = 68;

/// Why a texture file could not be read.
#[derive(Debug, Copy, Clone, PartialEq, Eq)]
pub enum TexError {
    /// The file ends within a texture.
    Truncated,
}

/// What a single texture file says of its texture.
#[derive(Debug, Copy, Clone, PartialEq, Eq)]
pub struct TexHeader {
    pub width: u32,
    pub height: u32,
    /// 1 for one byte a pixel, 2 for four.
    pub format: u32,
    /// The length of the payload, which starts at byte 76.
    pub payload_len: usize,
}

/// One texture of an array file.
#[derive(Debug, Copy, Clone, PartialEq, Eq)]
pub struct TexEntry {
    pub width: u32,
    pub height: u32,
    /// Where in the file the payload starts.
    pub payload_start: usize,
    /// The length of the payload.
    pub payload_len: usize,
}

/// The little-endian 32-bit number at byte `at`.
pub open spec fn u32_at(bytes: Seq<u8>, at: int) -> u32 {
    le_u32(bytes.subrange(at, at + 4))
}

/// Whether a single texture file is whole: it holds the 76 bytes before the
/// payload, and the payload at its stated length.
pub open spec fn tex_is_whole(bytes: Seq<u8>) -> bool {
    bytes.len() >= 76 && 76 + u32_at(bytes, 72) <= bytes.len()
}

/// The little-endian 32-bit number at byte `at`.
fn read_u32_at(bytes: &[u8], at: usize) -> (n: u32)
    requires
        at + 4 <= bytes@.len(),
    ensures
        n == u32_at(bytes@, at as int),
{
    let len: usize = bytes.len();
    read_u32_le(slice_subrange(bytes, at, at + 4))
}

/// Reads the head of a single texture file.
pub fn parse_tex_header(bytes: &[u8]) -> (res: Result<TexHeader, TexError>)
    ensures
        res is Ok <==> tex_is_whole(bytes@),
        res is Ok ==> res->Ok_0 == (TexHeader {
            width: u32_at(bytes@, 8),
            height: u32_at(bytes@, 12),
            format: u32_at(bytes@, 16),
            payload_len: u32_at(bytes@, 72) as usize,
        }),
{
    if bytes.len() < TEX_PAYLOAD_START {
        return Err(TexError::Truncated);
    }
    let width = read_u32_at(bytes, 8);
    let height = read_u32_at(bytes, 12);
    let format = read_u32_at(bytes, 16);
    let payload_len = read_u32_at(bytes, 72) as usize;
    if payload_len > bytes.len() - TEX_PAYLOAD_START {
        return Err(TexError::Truncated);
    }
    Ok(TexHeader { width, height, format, payload_len })
}

/// The textures of an array file from byte `at` on, or `None` where the file
/// ends within one. Fewer than 4 bytes at the start of a texture end the file.
pub open spec fn entries_from(bytes: Seq<u8>, at: int) -> Option<Seq<TexEntry>>
    decreases bytes.len() - at,
{
    if at < 0 || at + 4 > bytes.len() {
        Some(Seq::empty())
    } else if at + 68 > bytes.len() || at + 68 + u32_at(bytes, at + 64) > bytes.len() {
        None
    } else {
        let entry = TexEntry {
            width: u32_at(bytes, at),
            height: u32_at(bytes, at + 4),
            payload_start: (at + 68) as usize,
            payload_len: u32_at(bytes, at + 64) as usize,
        };
        match entries_from(bytes, at + 68 + u32_at(bytes, at + 64)) {
            Some(rest) => Some(seq![entry] + rest),
            None => None,
        }
    }
}

/// Reads the textures of an array file, in order.
pub fn parse_array_tex(bytes: &[u8]) -> (res: Result<Vec<TexEntry>, TexError>)
    ensures
        res is Ok <==> entries_from(bytes@, 8) is Some,
        res is Ok ==> Some(res->Ok_0@) == entries_from(bytes@, 8),
{
    let mut entries: Vec<TexEntry> = Vec::new();
    let len = bytes.len();
    let mut at: usize = 8;
    while at <= len && len - at >= 4
        invariant
            len == bytes@.len(),
            8 <= at,
            match entries_from(bytes@, at as int) {
                Some(rest) => entries_from(bytes@, 8) == Some(entries@ + rest),
                None => entries_from(bytes@, 8) is None,
            },
        decreases len - at,
    {
        if len - at < ARRAY_ENTRY_HEAD {
            return Err(TexError::Truncated);
        }
        let width = read_u32_at(bytes, at);
        let height = read_u32_at(bytes, at + 4);
        let payload_len = read_u32_at(bytes, at + 64) as usize;
        if payload_len > len - at - ARRAY_ENTRY_HEAD {
            return Err(TexError::Truncated);
        }
        let entry = TexEntry { width, height, payload_start: at + ARRAY_ENTRY_HEAD, payload_len };
        proof {
            let next = entries_from(bytes@, at + 68 + payload_len);
            if next is Some {
                assert(entries@.push(entry) + next->Some_0 =~= entries@ + (seq![entry]
                    + next->Some_0));
            }
        }
        entries.push(entry);
        at = at + ARRAY_ENTRY_HEAD + payload_len;
    }
    proof {
        assert(entries@ + Seq::<TexEntry>::empty() =~= entries@);
    }
    Ok(entries)
}

} // verus!
