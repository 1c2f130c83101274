//! A simple binary save format with integrity hashing: a fixed header
//! carrying element size, element count and a Merkle root, followed by the
//! payload bytes. Loading recomputes the root and rejects corrupted data.

use vstd::prelude::*;
use vstd::bytes::{
    spec_u16_from_le_bytes, spec_u16_to_le_bytes, spec_u32_from_le_bytes, spec_u32_to_le_bytes,
    u16_from_le_bytes, u16_to_le_bytes, u32_from_le_bytes, u32_to_le_bytes,
};
use crate::merkle::{merkle_root, spec_merkle_root};

verus! {

/// The magic tag of the save format.
pub const SAVE_MAGIC: u32 = 0x53415645;

/// The save format version this module writes and accepts.
pub const SAVE_VERSION: u16 = 1;

/// The leaf granularity the save format hashes with.
pub const DEFAULT_CHUNK_SIZE: u32 = 4096;

/// Size in bytes of the serialised save header.
pub const SAVE_HEADER_SIZE: usize = 48;

/// The persisted save header: magic, version, element size and count, the
/// hashing granularity, and the payload's Merkle root.
#[derive(Debug, Clone, Copy)]
pub struct SaveHeader {
    pub magic: u32,
    pub version: u16,
    pub element_size: u16,
    pub element_count: u32,
    pub chunk_size: u32,
    pub merkle_root: [u8; 32],
}

/// Failures of loading a persisted save buffer.
#[derive(Debug, Clone, Copy, PartialEq, Eq, Structural)]
pub enum SaveError {
    /// The buffer does not open with the save magic.
    InvalidMagic,
    /// The version, or the element size, is not the expected one.
    InvalidVersion,
    /// The header declares a zero hashing granularity.
    InvalidChunkSize,
    /// The buffer ends before the header or the declared payload.
    TruncatedInput,
    /// The payload's recomputed Merkle root differs from the stored one.
    HashMismatch,
}

/// The serialised bytes of a save with the given payload and element
/// shape: header fields little-endian, then the payload.
pub open spec fn spec_encode_save(payload: Seq<u8>, element_size: u16, element_count: u32) -> Seq<
    u8,
> {
    spec_u32_to_le_bytes(SAVE_MAGIC) + spec_u16_to_le_bytes(SAVE_VERSION) + spec_u16_to_le_bytes(
        element_size,
    ) + spec_u32_to_le_bytes(element_count) + spec_u32_to_le_bytes(DEFAULT_CHUNK_SIZE)
        + spec_merkle_root(payload, DEFAULT_CHUNK_SIZE as nat) + payload
}

/// Serialises a payload of `element_count` elements of `element_size`
/// bytes each into a save buffer with its integrity root.
pub fn encode_save(payload: &Vec<u8>, element_size: u16, element_count: u32) -> (out: Vec<u8>)
    requires
        payload.len() + SAVE_HEADER_SIZE <= usize::MAX,
    ensures
        out@ == spec_encode_save(payload@, element_size, element_count),
{
    let root = merkle_root(payload, DEFAULT_CHUNK_SIZE as usize);
    let mut out: Vec<u8> = Vec::new();
    let mut b = u32_to_le_bytes(SAVE_MAGIC);
    out.append(&mut b);
    let mut b = u16_to_le_bytes(SAVE_VERSION);
    out.append(&mut b);
    let mut b = u16_to_le_bytes(element_size);
    out.append(&mut b);
    let mut b = u32_to_le_bytes(element_count);
    out.append(&mut b);
    let mut b = u32_to_le_bytes(DEFAULT_CHUNK_SIZE);
    out.append(&mut b);
    let mut root = root;
    out.append(&mut root);
    let mut tail = payload.clone();
    out.append(&mut tail);
    proof {
        assert(out@ =~= spec_encode_save(payload@, element_size, element_count));
    }
    out
}

/// The payload byte count a save header declares.
pub open spec fn spec_save_payload_len(bytes: Seq<u8>) -> int {
    spec_u32_from_le_bytes(bytes.subrange(8, 12)) * spec_u16_from_le_bytes(bytes.subrange(6, 8))
}

/// Whether a save buffer passes every load check: long enough for the
/// header, right magic, version and element size, a positive hashing
/// granularity, enough bytes for the declared payload, and a payload that
/// hashes to the stored root.
pub open spec fn spec_save_ok(bytes: Seq<u8>, expected_element_size: u16) -> bool {
    &&& bytes.len() >= SAVE_HEADER_SIZE
    &&& spec_u32_from_le_bytes(bytes.subrange(0, 4)) == SAVE_MAGIC
    &&& spec_u16_from_le_bytes(bytes.subrange(4, 6)) == SAVE_VERSION
    &&& spec_u16_from_le_bytes(bytes.subrange(6, 8)) == expected_element_size
    &&& spec_u32_from_le_bytes(bytes.subrange(12, 16)) >= 1
    &&& bytes.len() >= SAVE_HEADER_SIZE + spec_save_payload_len(bytes)
    &&& spec_merkle_root(
        bytes.subrange(
            SAVE_HEADER_SIZE as int,
            SAVE_HEADER_SIZE + spec_save_payload_len(bytes),
        ),
        spec_u32_from_le_bytes(bytes.subrange(12, 16)) as nat,
    ) == bytes.subrange(16, 48)
}

/// The error a failing load reports: the first check that fails, in the
/// order the loader makes them.
pub open spec fn spec_save_err(bytes: Seq<u8>, expected_element_size: u16) -> SaveError {
    if bytes.len() < SAVE_HEADER_SIZE {
        SaveError::TruncatedInput
    } else if spec_u32_from_le_bytes(bytes.subrange(0, 4)) != SAVE_MAGIC {
        SaveError::InvalidMagic
    } else if spec_u16_from_le_bytes(bytes.subrange(4, 6)) != SAVE_VERSION {
        SaveError::InvalidVersion
    } else if spec_u16_from_le_bytes(bytes.subrange(6, 8)) != expected_element_size {
        SaveError::InvalidVersion
    } else if spec_u32_from_le_bytes(bytes.subrange(12, 16)) == 0 {
        SaveError::InvalidChunkSize
    } else if bytes.len() < SAVE_HEADER_SIZE + spec_save_payload_len(bytes) {
        SaveError::TruncatedInput
    } else {
        SaveError::HashMismatch
    }
}

/// Validates a save buffer for elements of `expected_element_size` bytes
/// and yields its payload, verifying the integrity root. Bytes after the
/// declared payload are ignored.
#[verifier::loop_isolation(false)]
pub fn decode_save(bytes: &Vec<u8>, expected_element_size: u16) -> (r: Result<Vec<u8>, SaveError>)
    ensures
        r is Ok <==> spec_save_ok(bytes@, expected_element_size),
        match r {
            Ok(p) => p@ == bytes@.subrange(
                SAVE_HEADER_SIZE as int,
                SAVE_HEADER_SIZE + spec_save_payload_len(bytes@),
            ),
            Err(e) => e == spec_save_err(bytes@, expected_element_size),
        },
{
    if bytes.len() < SAVE_HEADER_SIZE {
        return Err(SaveError::TruncatedInput);
    }
    let s = bytes.as_slice();
    let magic = u32_from_le_bytes(&s[0..4]);
    if magic != SAVE_MAGIC {
        return Err(SaveError::InvalidMagic);
    }
    let version = u16_from_le_bytes(&s[4..6]);
    if version != SAVE_VERSION {
        return Err(SaveError::InvalidVersion);
    }
    let element_size = u16_from_le_bytes(&s[6..8]);
    if element_size != expected_element_size {
        return Err(SaveError::InvalidVersion);
    }
    let element_count = u32_from_le_bytes(&s[8..12]);
    let chunk_size = u32_from_le_bytes(&s[12..16]);
    if chunk_size == 0 {
        return Err(SaveError::InvalidChunkSize);
    }
    proof {
        assert((element_count as int) * (element_size as int) <= 0xFFFF_FFFF * 0xFFFF)
            by (nonlinear_arith)
            requires
                element_count <= u32::MAX,
                element_size <= u16::MAX,
        ;
    }
    let payload_len: u64 = (element_count as u64) * (element_size as u64);
    if payload_len > (usize::MAX as u64) - (SAVE_HEADER_SIZE as u64) {
        proof {
            assert(bytes@.len() < SAVE_HEADER_SIZE + spec_save_payload_len(bytes@));
        }
        return Err(SaveError::TruncatedInput);
    }
    let payload_len = payload_len as usize;
    if bytes.len() - SAVE_HEADER_SIZE < payload_len {
        return Err(SaveError::TruncatedInput);
    }
    let payload = vstd::slice::slice_to_vec(
        &s[SAVE_HEADER_SIZE..SAVE_HEADER_SIZE + payload_len],
    );
    let root = merkle_root(&payload, chunk_size as usize);
    let stored = &s[16..48];
    let mut j: usize = 0;
    while j < 32
        invariant
            j <= 32,
            root@ == spec_merkle_root(payload@, chunk_size as nat),
            root.len() == 32,
            stored@ == bytes@.subrange(16, 48),
            payload@ == bytes@.subrange(
                SAVE_HEADER_SIZE as int,
                SAVE_HEADER_SIZE + spec_save_payload_len(bytes@),
            ),
            forall|t: int| 0 <= t < j ==> root@[t] == stored@[t],
        decreases 32 - j,
    {
        if root[j] != stored[j] {
            proof {
                assert(root@ != bytes@.subrange(16, 48));
            }
            return Err(SaveError::HashMismatch);
        }
        j = j + 1;
    }
    proof {
        assert(root@ =~= bytes@.subrange(16, 48));
    }
    Ok(payload)
}

} // verus!
