//! The chunk reader's arithmetic and its byte-level model.
//!
//! A download addresses a file by zero-based part index; part `k` is the
//! byte range `[k * BLOB_SIZE, k * BLOB_SIZE + BLOB_SIZE)`, clamped at end
//! of file. The process reads real files by seeking; it takes the offset
//! and the clamped length from `plan_read`, so the arithmetic it acts on is
//! exactly the one verified here, and `read_range` / `read_part` are the
//! same computations carried out on in-memory contents.

use vstd::prelude::*;
use crate::BLOB_SIZE;

verus! {

/// The bytes of `data` at `[offset, offset + length)`, clamped to the end
/// of `data`: reading at or past the end yields nothing, a range hanging
/// over the end yields what is there, and nothing ever underflows.
pub open spec fn range_of(data: Seq<u8>, offset: int, length: int) -> Seq<u8> {
    let start = if offset > data.len() { data.len() as int } else { offset };
    let end = if offset + length > data.len() { data.len() as int } else { offset + length };
    data.subrange(start, end)
}

/// How many bytes a read of `length` at `offset` in a file of `file_len`
/// bytes actually delivers: `min(length, file_len - offset)`, and zero when
/// the offset is at or past the end.
pub open spec fn clamped_len(file_len: int, offset: int, length: int) -> int {
    if offset >= file_len {
        0
    } else if file_len - offset < length {
        file_len - offset
    } else {
        length
    }
}

/// The clamp delivers exactly the length of the clamped range.
pub proof fn lemma_clamped_len(data: Seq<u8>, offset: int, length: int)
    requires
        0 <= offset,
        0 <= length,
    ensures
        range_of(data, offset, length).len() == clamped_len(data.len() as int, offset, length),
{
}

/// The number of bytes to read for a request of `length` bytes at `offset`
/// in a file of `file_len` bytes. The process seeks to `offset` and reads
/// exactly this many bytes.
pub fn plan_read(file_len: u64, offset: u64, length: usize) -> (n: usize)
    ensures
        n == clamped_len(file_len as int, offset as int, length as int),
{
    if offset >= file_len {
        0
    } else {
        let remaining = file_len - offset;
        if remaining < length as u64 {
            remaining as usize
        } else {
            length
        }
    }
}

/// A bounds-checked read of `[offset, offset + length)` out of `data`:
/// exactly the bytes of that range, clamped at the end of the contents.
pub fn read_range(data: &Vec<u8>, offset: u64, length: usize) -> (out: Vec<u8>)
    ensures
        out@ == range_of(data@, offset as int, length as int),
{
    let n = plan_read(data.len() as u64, offset, length);
    let mut out: Vec<u8> = Vec::new();
    if n == 0 {
        proof {
            assert(out@ =~= range_of(data@, offset as int, length as int));
        }
        return out;
    }
    let start = offset as usize;
    let mut j: usize = 0;
    while j < n
        invariant
            j <= n,
            start == offset,
            start + n <= data@.len(),
            data@.len() <= usize::MAX,
            n == clamped_len(data@.len() as int, offset as int, length as int),
            out@ == data@.subrange(start as int, start as int + j),
        decreases n - j,
    {
        out.push(data[start + j]);
        proof {
            assert(out@ =~= data@.subrange(start as int, start as int + j + 1));
        }
        j = j + 1;
    }
    proof {
        assert(out@ =~= range_of(data@, offset as int, length as int));
    }
    out
}

/// The byte offset at which part `part` starts, exact and overflow-free.
pub open spec fn part_offset(part: int) -> int {
    part * BLOB_SIZE
}

/// Reads part `part` of `data`: by definition the same bytes as a
/// `read_range` of `BLOB_SIZE` bytes at offset `part * BLOB_SIZE`, clamped
/// at end of file — chunking is deterministic in the range reader.
pub fn read_part(data: &Vec<u8>, part: usize) -> (out: Vec<u8>)
    ensures
        out@ == range_of(data@, part_offset(part as int), BLOB_SIZE as int),
{
    let offset_wide: u128 = (part as u128) * (BLOB_SIZE as u128);
    if offset_wide >= data.len() as u128 {
        let out: Vec<u8> = Vec::new();
        proof {
            assert(out@ =~= range_of(data@, part_offset(part as int), BLOB_SIZE as int));
        }
        out
    } else {
        read_range(data, offset_wide as u64, BLOB_SIZE)
    }
}

/// The seek-and-read plan for part `part` of a file of `file_len` bytes:
/// the offset to seek to and the number of bytes to read there. Past the
/// end of the file nothing is read, and the arithmetic neither underflows
/// nor overflows whatever the part index.
pub fn plan_part_read(file_len: u64, part: usize) -> (r: (u64, usize))
    ensures
        r.1 == clamped_len(file_len as int, part_offset(part as int), BLOB_SIZE as int),
        r.0 == if part_offset(part as int) > file_len {
            file_len as int
        } else {
            part_offset(part as int)
        },
{
    let offset_wide: u128 = (part as u128) * (BLOB_SIZE as u128);
    if offset_wide >= file_len as u128 {
        (file_len, 0)
    } else {
        let offset = offset_wide as u64;
        (offset, plan_read(file_len, offset, BLOB_SIZE))
    }
}

} // verus!
