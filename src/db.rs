//! The rows of the index database.
use vstd::prelude::*;

use crate::entry::{ChunkInfo, FileEntry, SplitInfo};
use crate::hash::HASH_SIZE;

verus! {

/// A row of the file table: a file and the hash of its content.
#[derive(Debug)]
pub struct IndexRow {
    pub entry: FileEntry,
    pub hash: [u8; HASH_SIZE],
}

/// A row of the chunk table: where one chunk of a file's content is stored.
#[derive(Clone, Copy, Debug)]
pub struct ChunkRow {
    pub file_hash: [u8; HASH_SIZE],
    pub chunk_hash: [u8; HASH_SIZE],
    pub bak_n: i32,
    /// Offset of this chunk in the bak file's payload.
    pub offset: u64,
    pub size: u64,
}

/// The chunk-table row of chunk `c` of a file with hash `file_hash`.
pub open spec fn chunk_row(file_hash: Seq<u8>, c: ChunkInfo) -> ChunkRowModel {
    ChunkRowModel {
        file_hash,
        chunk_hash: c.hash@,
        bak_n: c.bak_n,
        offset: c.offset,
        size: c.size,
    }
}

/// What a chunk row holds.
pub struct ChunkRowModel {
    pub file_hash: Seq<u8>,
    pub chunk_hash: Seq<u8>,
    pub bak_n: i32,
    pub offset: u64,
    pub size: u64,
}

impl View for ChunkRow {
    type V = ChunkRowModel;

    open spec fn view(&self) -> ChunkRowModel {
        ChunkRowModel {
            file_hash: self.file_hash@,
            chunk_hash: self.chunk_hash@,
            bak_n: self.bak_n,
            offset: self.offset,
            size: self.size,
        }
    }
}

/// The chunk table of a run: the rows of each file's chunks, file after
/// file, each file's chunks in order.
pub open spec fn chunk_rows_of(splits: Seq<SplitInfo>) -> Seq<ChunkRowModel>
    decreases splits.len(),
{
    if splits.len() == 0 {
        Seq::empty()
    } else {
        chunk_rows_of(splits.drop_last()) + splits.last().chunks@.map_values(
            |c: ChunkInfo| chunk_row(splits.last().file_hash@, c),
        )
    }
}

/// The chunk-table rows for the files that were packed.
pub fn chunk_rows(splits: &Vec<SplitInfo>) -> (r: Vec<ChunkRow>)
    ensures
        r@.map_values(|row: ChunkRow| row@) == chunk_rows_of(splits@),
{
    let mut rows: Vec<ChunkRow> = Vec::new();
    let mut i: usize = 0;
    while i < splits.len()
        invariant
            i <= splits@.len(),
            rows@.map_values(|row: ChunkRow| row@) == chunk_rows_of(splits@.subrange(0, i as int)),
        decreases splits@.len() - i,
    {
        let split = &splits[i];
        let ghost before = rows@.map_values(|row: ChunkRow| row@);
        let mut j: usize = 0;
        while j < split.chunks.len()
            invariant
                i < splits@.len(),
                *split == splits@[i as int],
                j <= split.chunks@.len(),
                rows@.map_values(|row: ChunkRow| row@) == before + split.chunks@.subrange(
                    0,
                    j as int,
                ).map_values(|c: ChunkInfo| chunk_row(split.file_hash@, c)),
            decreases split.chunks@.len() - j,
        {
            let c = split.chunks[j];
            let ghost prev = rows@;
            rows.push(
                ChunkRow {
                    file_hash: split.file_hash.0,
                    chunk_hash: c.hash.0,
                    bak_n: c.bak_n,
                    offset: c.offset,
                    size: c.size,
                },
            );
            proof {
                let f = |c: ChunkInfo| chunk_row(split.file_hash@, c);
                assert(rows@.last()@ == f(split.chunks@[j as int]));
                assert(rows@.map_values(|row: ChunkRow| row@) =~= prev.map_values(|row: ChunkRow| row@).push(rows@.last()@));
                assert(split.chunks@.subrange(0, j + 1).map_values(f) =~= split.chunks@.subrange(0, j as int).map_values(f).push(f(split.chunks@[j as int])));
                assert(rows@.map_values(|row: ChunkRow| row@) =~= before + split.chunks@.subrange(
                    0,
                    j + 1,
                ).map_values(|c: ChunkInfo| chunk_row(split.file_hash@, c)));
            }
            j = j + 1;
        }
        proof {
            let next = splits@.subrange(0, i + 1);
            assert(next.drop_last() =~= splits@.subrange(0, i as int));
            assert(split.chunks@.subrange(0, split.chunks@.len() as int) =~= split.chunks@);
        }
        i = i + 1;
    }
    proof {
        assert(splits@.subrange(0, splits@.len() as int) =~= splits@);
    }
    rows
}

} // verus!
