//! Fixed-size chunking of a file's byte range.
use vstd::prelude::*;

verus! {

/// Number of chunks of a file of `size` bytes: every full chunk, and one
/// more for a nonzero remainder.
pub open spec fn chunk_count(size: nat, chunk_size: nat) -> nat
    recommends
        chunk_size > 0,
{
    size / chunk_size + if size % chunk_size == 0 { 0nat } else { 1nat }
}

/// Length of chunk `j`: `chunk_size`, except for the remainder at the end.
pub open spec fn chunk_len(size: nat, chunk_size: nat, j: int) -> nat
    recommends
        chunk_size > 0,
{
    if j < size / chunk_size {
        chunk_size
    } else {
        size % chunk_size
    }
}

/// A byte range of a file.
#[derive(Clone, Copy, Debug, PartialEq, Eq)]
pub struct Range {
    pub start: u64,
    pub size: u64,
}

/// The chunk ranges of a file of `file_size` bytes: `file_size / chunk_size`
/// ranges of `chunk_size` bytes, then the remainder if it is nonzero. An
/// empty file has no chunks.
pub fn chunks_ranges(file_size: u64, chunk_size: u64) -> (r: Vec<Range>)
    requires
        chunk_size > 0,
    ensures
        r@.len() == chunk_count(file_size as nat, chunk_size as nat),
        forall|j: int|
            0 <= j < r@.len() ==> (#[trigger] r@[j]).start == j * chunk_size && r@[j].size == chunk_len(
                file_size as nat,
                chunk_size as nat,
                j,
            ),
        forall|j: int| 0 <= j < r@.len() ==> 0 < #[trigger] r@[j].size <= chunk_size,
        forall|j: int| 0 <= j < r@.len() - 1 ==> #[trigger] r@[j].size == chunk_size,
        r@.len() > 0 ==> r@.last().start + r@.last().size == file_size,
{
    let mut ranges: Vec<Range> = Vec::new();
    let n: u64 = file_size / chunk_size;
    let rem: u64 = file_size % chunk_size;
    proof {
        assert(n * chunk_size + rem == file_size) by (nonlinear_arith)
            requires
                n == file_size / chunk_size,
                rem == file_size % chunk_size,
                chunk_size > 0,
        ;
    }
    let mut i: u64 = 0;
    let mut start: u64 = 0;
    while i < n
        invariant
            i <= n,
            n * chunk_size + rem == file_size,
            n == file_size / chunk_size,
            chunk_size > 0,
            start == i * chunk_size,
            ranges@.len() == i,
            forall|j: int|
                0 <= j < i ==> ranges@[j].start == j * chunk_size && ranges@[j].size == chunk_size,
        decreases n - i,
    {
        proof {
            assert(start + chunk_size <= file_size) by (nonlinear_arith)
                requires
                    start == i * chunk_size,
                    i < n,
                    n * chunk_size + rem == file_size,
                    rem >= 0,
            ;
            assert(start + chunk_size == (i + 1) * chunk_size) by (nonlinear_arith)
                requires
                    start == i * chunk_size,
            ;
        }
        ranges.push(Range { start, size: chunk_size });
        start = start + chunk_size;
        i = i + 1;
    }
    if rem != 0 {
        ranges.push(Range { start, size: rem });
    }
    proof {
        assert(rem < chunk_size);
        assert forall|j: int|
            0 <= j < ranges@.len() implies ranges@[j].start == j * chunk_size
                && ranges@[j].size == chunk_len(file_size as nat, chunk_size as nat, j) by {
            if j < n {
            } else {
                assert(j == n);
            }
        }
        if rem == 0 && n > 0 {
            assert((n - 1) * chunk_size + chunk_size == n * chunk_size) by (nonlinear_arith);
        }
    }
    ranges
}

} // verus!
