//! The chunk and pack engine: files are cut into chunks, and the chunks are
//! packed one after another into bak files whose payload stays within a cap.
//!
//! The engine decides and records; the caller reads the source files and
//! writes the bak files. For each file the caller calls `begin_file`, then,
//! for each chunk, `next_chunk` (which says where the chunk goes, and
//! whether a new bak file must be opened first), `absorb` for the bytes
//! as they are copied, and `finish_chunk`; then `end_file`.
//!
//! Alongside, the engine keeps a model of every bak file's payload and of
//! every file's bytes, over which its invariants are stated.
use vstd::prelude::*;

use crate::chunking::{chunk_count, chunk_len, chunks_ranges, Range};
use crate::entry::{ChunkInfo, SplitInfo};
use crate::hash::Hash as ContentHash;
use crate::hash::{digest16, StreamHasher};

verus! {

/// One past the last payload byte of a chunk.
pub open spec fn chunk_end(c: ChunkInfo) -> int {
    c.offset + c.size
}

/// The bytes a chunk row points at.
pub open spec fn chunk_bytes(payloads: Seq<Seq<u8>>, c: ChunkInfo) -> Seq<u8> {
    payloads[c.bak_n as int].subrange(c.offset as int, chunk_end(c))
}

/// The chunk row points inside the payload of an existing bak file.
pub open spec fn within(payloads: Seq<Seq<u8>>, c: ChunkInfo) -> bool {
    &&& 0 <= c.bak_n < payloads.len()
    &&& chunk_end(c) <= payloads[c.bak_n as int].len()
}

/// The chunk row points at bytes whose hash it records.
pub open spec fn placed(payloads: Seq<Seq<u8>>, c: ChunkInfo) -> bool {
    &&& within(payloads, c)
    &&& c.hash@ == digest16(chunk_bytes(payloads, c))
}

/// The bytes of a file read back from the bak files, chunk after chunk.
pub open spec fn read_back(payloads: Seq<Seq<u8>>, cs: Seq<ChunkInfo>) -> Seq<u8>
    decreases cs.len(),
{
    if cs.len() == 0 {
        Seq::empty()
    } else {
        read_back(payloads, cs.drop_last()) + chunk_bytes(payloads, cs.last())
    }
}

/// The chunk rows of all files, in order.
pub open spec fn all_chunks(splits: Seq<SplitInfo>) -> Seq<ChunkInfo>
    decreases splits.len(),
{
    if splits.len() == 0 {
        Seq::empty()
    } else {
        all_chunks(splits.drop_last()) + splits.last().chunks@
    }
}

/// `next` comes right after `prev`: in the same bak file, adjacent; or at the
/// start of the next bak file, `prev` having filled its own to the end.
pub open spec fn follows(prev: ChunkInfo, next: ChunkInfo, payloads: Seq<Seq<u8>>) -> bool {
    ||| next.bak_n == prev.bak_n && next.offset == chunk_end(prev)
    ||| next.bak_n == prev.bak_n + 1 && next.offset == 0 && chunk_end(prev)
        == payloads[prev.bak_n as int].len()
}

/// The chunk rows tile the bak payloads: bak files are filled in order, each
/// from offset 0 to its end with no gap and no overlap, and only a freshly
/// opened last bak file may still be empty.
pub open spec fn tiled(cs: Seq<ChunkInfo>, payloads: Seq<Seq<u8>>) -> bool {
    &&& payloads.len() > 0
    &&& forall|k: int| 0 <= k < cs.len() ==> 0 <= #[trigger] cs[k].bak_n < payloads.len()
    &&& forall|k: int| 0 < k < cs.len() ==> follows(cs[k - 1], #[trigger] cs[k], payloads)
    &&& cs.len() == 0 ==> payloads.len() == 1 && payloads[0].len() == 0
    &&& cs.len() > 0 ==> {
        &&& cs[0].bak_n == 0
        &&& cs[0].offset == 0
        &&& chunk_end(cs.last()) == payloads[cs.last().bak_n as int].len()
        &&& (payloads.len() == cs.last().bak_n + 1 || (payloads.len() == cs.last().bak_n + 2
            && payloads.last().len() == 0))
    }
}

/// A file that was packed whole: its chunks have the sizes its length
/// dictates, and its hash is the hash of its bytes.
pub open spec fn file_packed(s: SplitInfo, content: Seq<u8>, chunk_size: nat) -> bool {
    &&& s.chunks@.len() == chunk_count(content.len(), chunk_size)
    &&& forall|j: int|
        0 <= j < s.chunks@.len() ==> #[trigger] s.chunks@[j].size == chunk_len(
            content.len(),
            chunk_size,
            j,
        )
    &&& s.file_hash@ == digest16(content)
}

/// Every payload of `old` is a prefix of the payload at the same index in `new`.
pub open spec fn extends(new: Seq<Seq<u8>>, old: Seq<Seq<u8>>) -> bool {
    &&& old.len() <= new.len()
    &&& forall|n: int|
        0 <= n < old.len() ==> old[n].len() <= new[n].len() && #[trigger] new[n].subrange(
            0,
            old[n].len() as int,
        ) == old[n]
}

proof fn lemma_chunk_bytes_extends(new: Seq<Seq<u8>>, old: Seq<Seq<u8>>, c: ChunkInfo)
    requires
        extends(new, old),
        within(old, c),
    ensures
        within(new, c),
        chunk_bytes(new, c) == chunk_bytes(old, c),
{
    let b = c.bak_n as int;
    assert(new[b].subrange(0, old[b].len() as int) == old[b]);
    assert(chunk_bytes(new, c) =~= new[b].subrange(0, old[b].len() as int).subrange(
        c.offset as int,
        chunk_end(c),
    ));
}

proof fn lemma_read_back_extends(new: Seq<Seq<u8>>, old: Seq<Seq<u8>>, cs: Seq<ChunkInfo>)
    requires
        extends(new, old),
        forall|j: int| 0 <= j < cs.len() ==> within(old, #[trigger] cs[j]),
    ensures
        read_back(new, cs) == read_back(old, cs),
    decreases cs.len(),
{
    if cs.len() > 0 {
        lemma_read_back_extends(new, old, cs.drop_last());
        lemma_chunk_bytes_extends(new, old, cs.last());
    }
}

proof fn lemma_append_extends(old: Seq<Seq<u8>>, b: int, data: Seq<u8>)
    requires
        0 <= b < old.len(),
    ensures
        extends(old.update(b, old[b] + data), old),
{
    let np = old.update(b, old[b] + data);
    assert forall|n: int| 0 <= n < old.len() implies old[n].len() <= np[n].len()
        && #[trigger] np[n].subrange(0, old[n].len() as int) == old[n] by {
        assert(np[n].subrange(0, old[n].len() as int) =~= old[n]);
    }
}

proof fn lemma_all_chunks_push(old: Seq<SplitInfo>, new: Seq<SplitInfo>, c: ChunkInfo)
    requires
        old.len() > 0,
        new.len() == old.len(),
        new.drop_last() == old.drop_last(),
        new.last().chunks@ == old.last().chunks@.push(c),
    ensures
        all_chunks(new) == all_chunks(old).push(c),
{
    assert(all_chunks(new) =~= all_chunks(old).push(c));
}

/// Appending a chunk's bytes to the last bak file keeps every recorded row
/// valid, and records the new one.
proof fn lemma_rows_push(
    op: Seq<Seq<u8>>,
    np: Seq<Seq<u8>>,
    os: Seq<SplitInfo>,
    ns: Seq<SplitInfo>,
    oc: Seq<Seq<u8>>,
    nc: Seq<Seq<u8>>,
    info: ChunkInfo,
    data: Seq<u8>,
)
    requires
        op.len() > 0,
        os.len() > 0,
        oc.len() == os.len(),
        np == op.update(op.len() - 1, op.last() + data),
        info.bak_n == op.len() - 1,
        info.offset == op.last().len(),
        info.size == data.len(),
        info.hash@ == digest16(data),
        ns.len() == os.len(),
        ns.drop_last() == os.drop_last(),
        ns.last().chunks@ == os.last().chunks@.push(info),
        nc == oc.update(oc.len() - 1, oc.last() + data),
        forall|i: int, j: int|
            0 <= i < os.len() && 0 <= j < os[i].chunks@.len() ==> placed(
                op,
                #[trigger] os[i].chunks@[j],
            ),
        forall|i: int| 0 <= i < os.len() ==> #[trigger] oc[i] == read_back(op, os[i].chunks@),
    ensures
        forall|i: int, j: int|
            0 <= i < ns.len() && 0 <= j < ns[i].chunks@.len() ==> placed(
                np,
                #[trigger] ns[i].chunks@[j],
            ),
        forall|i: int| 0 <= i < ns.len() ==> #[trigger] nc[i] == read_back(np, ns[i].chunks@),
{
    let b = op.len() - 1;
    let last = os.len() - 1;
    lemma_append_extends(op, b, data);
    assert(chunk_bytes(np, info) =~= data);
    assert forall|i: int, j: int|
        0 <= i < ns.len() && 0 <= j < ns[i].chunks@.len() implies placed(
        np,
        #[trigger] ns[i].chunks@[j],
    ) by {
        if i < last {
            assert(ns[i] == ns.drop_last()[i]);
            assert(os[i] == os.drop_last()[i]);
            lemma_chunk_bytes_extends(np, op, os[i].chunks@[j]);
        } else if j < ns[i].chunks@.len() - 1 {
            assert(ns[i].chunks@[j] == os[i].chunks@[j]);
            lemma_chunk_bytes_extends(np, op, os[i].chunks@[j]);
        }
    }
    assert forall|i: int| 0 <= i < ns.len() implies #[trigger] nc[i] == read_back(
        np,
        ns[i].chunks@,
    ) by {
        assert forall|j: int| 0 <= j < os[i].chunks@.len() implies within(
            op,
            #[trigger] os[i].chunks@[j],
        ) by {
            assert(placed(op, os[i].chunks@[j]));
        }
        lemma_read_back_extends(np, op, os[i].chunks@);
        if i == last {
            assert(ns[i].chunks@.drop_last() =~= os[i].chunks@);
        } else {
            assert(ns[i] == ns.drop_last()[i]);
            assert(os[i] == os.drop_last()[i]);
        }
    }
}

/// Appending a chunk's bytes at the end of the last bak file keeps the
/// rows tiled.
proof fn lemma_tiled_push(
    cs: Seq<ChunkInfo>,
    op: Seq<Seq<u8>>,
    np: Seq<Seq<u8>>,
    info: ChunkInfo,
    data: Seq<u8>,
)
    requires
        tiled(cs, op),
        np == op.update(op.len() - 1, op.last() + data),
        info.bak_n == op.len() - 1,
        info.offset == op.last().len(),
        info.size == data.len(),
    ensures
        tiled(cs.push(info), np),
{
    let b = op.len() - 1;
    let ncs = cs.push(info);
    assert forall|k: int| 0 <= k < ncs.len() implies 0 <= #[trigger] ncs[k].bak_n < np.len() by {
        if k < cs.len() {
            assert(ncs[k] == cs[k]);
        }
    }
    if cs.len() > 0 {
        let p = cs.last();
        if p.bak_n == b {
            assert(follows(p, info, np));
        } else {
            assert(np[p.bak_n as int] == op[p.bak_n as int]);
            assert(follows(p, info, np));
        }
    }
    assert forall|k: int| 0 < k < ncs.len() implies follows(ncs[k - 1], #[trigger] ncs[k], np) by {
        if k < cs.len() {
            assert(ncs[k] == cs[k]);
            assert(ncs[k - 1] == cs[k - 1]);
            assert(follows(cs[k - 1], cs[k], op));
            let pb = cs[k - 1].bak_n as int;
            if cs[k].bak_n == cs[k - 1].bak_n + 1 {
                assert(pb < b);
                assert(np[pb] == op[pb]);
            }
        } else {
            assert(ncs[k - 1] == cs.last());
        }
    }
}

/// Chunk sizes of a packed file: every chunk holds `chunk_size` bytes but
/// the last, which holds between one byte and `chunk_size` bytes.
pub proof fn lemma_packed_chunk_sizes(s: SplitInfo, content: Seq<u8>, chunk_size: nat)
    requires
        chunk_size > 0,
        file_packed(s, content, chunk_size),
    ensures
        content.len() > 0 ==> s.chunks@.len() > 0,
        forall|j: int| 0 <= j < s.chunks@.len() - 1 ==> #[trigger] s.chunks@[j].size == chunk_size,
        s.chunks@.len() > 0 ==> 0 < s.chunks@.last().size <= chunk_size,
{
    let n = content.len();
    let q = n / chunk_size;
    let r = n % chunk_size;
    assert(r < chunk_size && n == q * chunk_size + r) by (nonlinear_arith)
        requires
            q == n / chunk_size,
            r == n % chunk_size,
            chunk_size > 0,
    ;
    if n > 0 && r == 0 {
        assert(q > 0) by (nonlinear_arith)
            requires
                n == q * chunk_size + r,
                r == 0,
                n > 0,
        ;
    }
    assert forall|j: int| 0 <= j < s.chunks@.len() - 1 implies #[trigger] s.chunks@[j].size
        == chunk_size by {
        assert(j < q);
    }
}

/// Why the engine refused a step.
#[derive(Clone, Copy, Debug, PartialEq, Eq)]
pub enum PackError {
    /// A new bak file is needed but its number would not fit in an `i32`.
    TooManyBaks,
    /// More bytes were offered than the chunk holds.
    ChunkOverrun,
    /// The chunk was closed before all its bytes were absorbed.
    ShortChunk,
    /// The file was closed before all its chunks were packed.
    FileIncomplete,
    /// The bytes packed do not have the hash the file was announced with.
    FileHashMismatch,
}

/// Where the next chunk goes.
#[derive(Clone, Copy, Debug, PartialEq, Eq)]
pub struct Placement {
    pub bak_n: i32,
    pub offset: u64,
    pub size: u64,
    /// The chunk did not fit: the current bak file is to be closed and bak
    /// file `bak_n` opened before the chunk is written.
    pub rotated: bool,
}

struct OpenFile {
    size: u64,
    ranges: Vec<Range>,
    next: usize,
    hasher: StreamHasher,
}

struct OpenChunk {
    size: u64,
    fed: u64,
    hasher: StreamHasher,
}

pub struct PackEngine {
    chunk_size: u64,
    cap: u64,
    bak_n: i32,
    offset: u64,
    splits: Vec<SplitInfo>,
    file: Option<OpenFile>,
    chunk: Option<OpenChunk>,
    payloads: Ghost<Seq<Seq<u8>>>,
    contents: Ghost<Seq<Seq<u8>>>,
}

impl PackEngine {
    /// The payload handed so far to each bak file.
    pub closed spec fn payloads(&self) -> Seq<Seq<u8>> {
        self.payloads@
    }

    /// The bytes absorbed so far of each file begun, in order.
    pub closed spec fn contents(&self) -> Seq<Seq<u8>> {
        self.contents@
    }

    /// The chunk rows recorded so far of each file begun, in order.
    pub closed spec fn splits(&self) -> Seq<SplitInfo> {
        self.splits@
    }

    pub closed spec fn chunk_size(&self) -> u64 {
        self.chunk_size
    }

    /// The payload cap of a bak file.
    pub closed spec fn cap(&self) -> u64 {
        self.cap
    }

    pub closed spec fn in_file(&self) -> bool {
        self.file is Some
    }

    pub closed spec fn in_chunk(&self) -> bool {
        self.chunk is Some
    }

    /// Size of the open file.
    pub closed spec fn file_size(&self) -> nat {
        self.file->0.size as nat
    }

    /// Index of the next chunk of the open file.
    pub closed spec fn next_index(&self) -> int {
        self.file->0.next as int
    }

    /// Size of the open chunk.
    pub closed spec fn chunk_target(&self) -> nat {
        self.chunk->0.size as nat
    }

    /// Bytes of the open chunk absorbed so far.
    pub closed spec fn pending(&self) -> Seq<u8> {
        self.chunk->0.hasher.absorbed()
    }

    /// Number of files that were packed whole.
    pub open spec fn done_count(&self) -> int {
        if self.in_file() {
            self.splits().len() - 1
        } else {
            self.splits().len() as int
        }
    }

    spec fn wf_bak(&self) -> bool {
        &&& 0 < self.chunk_size <= self.cap
        &&& 0 <= self.bak_n
        &&& self.payloads@.len() == self.bak_n + 1
        &&& self.payloads@[self.bak_n as int].len() == self.offset
        &&& forall|n: int|
            0 <= n < self.payloads@.len() ==> #[trigger] self.payloads@[n].len() <= self.cap
    }

    spec fn wf_rows(&self) -> bool {
        &&& self.contents@.len() == self.splits@.len()
        &&& forall|i: int, j: int|
            0 <= i < self.splits@.len() && 0 <= j < self.splits@[i].chunks@.len() ==> placed(
                self.payloads@,
                #[trigger] self.splits@[i].chunks@[j],
            )
        &&& forall|i: int|
            0 <= i < self.splits@.len() ==> #[trigger] self.contents@[i] == read_back(
                self.payloads@,
                self.splits@[i].chunks@,
            )
        &&& tiled(all_chunks(self.splits@), self.payloads@)
        &&& forall|i: int|
            0 <= i < self.done_count() ==> file_packed(
                #[trigger] self.splits@[i],
                self.contents@[i],
                self.chunk_size as nat,
            )
    }

    spec fn wf_open(&self) -> bool {
        &&& self.chunk is Some ==> self.file is Some
        &&& self.file is Some ==> {
            let f = self.file->0;
            let last = self.splits@.len() - 1;
            &&& self.splits@.len() > 0
            &&& f.ranges@.len() == chunk_count(f.size as nat, self.chunk_size as nat)
            &&& forall|j: int|
                0 <= j < f.ranges@.len() ==> (#[trigger] f.ranges@[j]).start == j
                    * self.chunk_size && f.ranges@[j].size == chunk_len(
                    f.size as nat,
                    self.chunk_size as nat,
                    j,
                )
            &&& f.ranges@.len() > 0 ==> f.ranges@.last().start + f.ranges@.last().size == f.size
            &&& f.next <= f.ranges@.len()
            &&& self.splits@[last].chunks@.len() == f.next
            &&& forall|j: int|
                0 <= j < f.next ==> (#[trigger] self.splits@[last].chunks@[j]).size
                    == f.ranges@[j].size
            &&& f.next < f.ranges@.len() ==> self.contents@[last].len() == f.ranges@[f.next as int].start
            &&& f.next == f.ranges@.len() ==> self.contents@[last].len() == f.size
            &&& self.chunk is None ==> f.hasher.absorbed() == self.contents@[last]
            &&& self.chunk is Some ==> f.hasher.absorbed() == self.contents@[last]
                + self.chunk->0.hasher.absorbed()
        }
        &&& self.chunk is Some ==> {
            let f = self.file->0;
            let c = self.chunk->0;
            &&& f.next < f.ranges@.len()
            &&& c.size == f.ranges@[f.next as int].size
            &&& c.fed == c.hasher.absorbed().len()
            &&& c.fed <= c.size
            &&& self.offset + c.size <= self.cap
        }
    }

    /// The engine's invariant.
    pub closed spec fn wf(&self) -> bool {
        &&& self.wf_bak()
        &&& self.wf_rows()
        &&& self.wf_open()
    }

    /// An engine with bak file 0 open and empty.
    pub fn new(chunk_size: u64, cap: u64) -> (r: PackEngine)
        requires
            0 < chunk_size <= cap,
        ensures
            r.wf(),
            r.chunk_size() == chunk_size,
            r.cap() == cap,
            r.payloads() == seq![Seq::<u8>::empty()],
            r.splits().len() == 0,
            r.contents().len() == 0,
            !r.in_file(),
    {
        let ghost first: Seq<Seq<u8>> = seq![Seq::<u8>::empty()];
        let r = PackEngine {
            chunk_size,
            cap,
            bak_n: 0,
            offset: 0,
            splits: Vec::new(),
            file: None,
            chunk: None,
            payloads: Ghost(first),
            contents: Ghost(Seq::<Seq<u8>>::empty()),
        };
        proof {
            assert(all_chunks(r.splits@) =~= Seq::<ChunkInfo>::empty());
        }
        r
    }

    /// Opens the next file, whose content has hash `file_hash` and is
    /// `size` bytes long.
    pub fn begin_file(&mut self, file_hash: ContentHash, size: u64)
        requires
            old(self).wf(),
            !old(self).in_file(),
        ensures
            final(self).wf(),
            final(self).in_file(),
            !final(self).in_chunk(),
            final(self).file_size() == size,
            final(self).next_index() == 0,
            final(self).chunk_size() == old(self).chunk_size(),
            final(self).cap() == old(self).cap(),
            final(self).payloads() == old(self).payloads(),
            final(self).contents() == old(self).contents().push(Seq::<u8>::empty()),
            final(self).splits().len() == old(self).splits().len() + 1,
            final(self).splits().drop_last() == old(self).splits(),
            final(self).splits().last().file_hash == file_hash,
            final(self).splits().last().chunks@.len() == 0,
    {
        let ranges = chunks_ranges(size, self.chunk_size);
        let ghost old_splits = self.splits@;
        self.splits.push(SplitInfo { file_hash, chunks: Vec::new() });
        self.contents = Ghost(self.contents@.push(Seq::<u8>::empty()));
        self.file = Some(OpenFile { size, ranges, next: 0, hasher: StreamHasher::new() });
        proof {
            assert(self.splits@.drop_last() =~= old_splits);
            assert(all_chunks(self.splits@) =~= all_chunks(old_splits));
            let last = self.splits@.len() - 1;
            assert(read_back(self.payloads@, self.splits@[last].chunks@) =~= Seq::<u8>::empty());
            assert forall|i: int| 0 <= i < self.done_count() implies file_packed(
                #[trigger] self.splits@[i],
                self.contents@[i],
                self.chunk_size as nat,
            ) by {
                assert(self.splits@[i] == old_splits[i]);
            }
            let f = self.file->0;
            if f.ranges@.len() > 0 {
                assert(f.ranges@[0].start == 0 * self.chunk_size);
                assert(0 * self.chunk_size == 0) by (nonlinear_arith);
            }
            if f.ranges@.len() == 0 {
                let (n, cs) = (f.size as int, self.chunk_size as int);
                assert(n == 0) by (nonlinear_arith)
                    requires
                        cs > 0,
                        n >= 0,
                        n / cs == 0,
                        n % cs == 0,
                ;
            }
        }
    }

    /// Says where the next chunk of the open file goes, opening a new bak
    /// file first when the chunk does not fit in the current one; `None`
    /// when every chunk of the file has been packed.
    pub fn next_chunk(&mut self) -> (r: Result<Option<Placement>, PackError>)
        requires
            old(self).wf(),
            old(self).in_file(),
            !old(self).in_chunk(),
        ensures
            final(self).wf(),
            final(self).chunk_size() == old(self).chunk_size(),
            final(self).cap() == old(self).cap(),
            final(self).splits() == old(self).splits(),
            final(self).contents() == old(self).contents(),
            final(self).in_file(),
            final(self).file_size() == old(self).file_size(),
            final(self).next_index() == old(self).next_index(),
            r == Ok::<Option<Placement>, PackError>(None) <==> old(self).next_index() == chunk_count(
                old(self).file_size(),
                old(self).chunk_size() as nat,
            ),
            r is Err ==> r == Err::<Option<Placement>, PackError>(PackError::TooManyBaks)
                && old(self).payloads().len() - 1 == i32::MAX,
            !(r is Ok && r->Ok_0 is Some) ==> *final(self) == *old(self),
            r is Ok && r->Ok_0 is Some ==> {
                let p = r->Ok_0->Some_0;
                let fill = old(self).payloads().last().len();
                &&& p.size == chunk_len(
                    old(self).file_size(),
                    old(self).chunk_size() as nat,
                    old(self).next_index(),
                )
                &&& p.rotated == (fill + p.size > old(self).cap())
                &&& !p.rotated ==> p.bak_n == old(self).payloads().len() - 1 && p.offset == fill
                    && final(self).payloads() == old(self).payloads()
                &&& p.rotated ==> p.bak_n == old(self).payloads().len() && p.offset == 0
                    && final(self).payloads() == old(self).payloads().push(Seq::<u8>::empty())
                &&& final(self).in_chunk()
                &&& final(self).chunk_target() == p.size
                &&& final(self).pending() == Seq::<u8>::empty()
            },
    {
        let (next, size) = match &self.file {
            Some(f) => {
                if f.next >= f.ranges.len() {
                    return Ok(None);
                }
                (f.next, f.ranges[f.next].size)
            },
            None => {
                return Ok(None);
            },
        };
        proof {
            let f = self.file->0;
            assert(size <= self.chunk_size) by (nonlinear_arith)
                requires
                    size == chunk_len(f.size as nat, self.chunk_size as nat, next as int),
                    self.chunk_size > 0,
            ;
        }
        let mut rotated = false;
        if size > self.cap - self.offset {
            if self.bak_n == i32::MAX {
                return Err(PackError::TooManyBaks);
            }
            let ghost old_payloads = self.payloads@;
            let ghost cs = all_chunks(self.splits@);
            proof {
                assert(self.offset > 0);
                assert(cs.len() > 0);
                assert(self.payloads@.len() == cs.last().bak_n + 1);
            }
            self.bak_n = self.bak_n + 1;
            self.offset = 0;
            self.payloads = Ghost(self.payloads@.push(Seq::<u8>::empty()));
            rotated = true;
            proof {
                let np = self.payloads@;
                assert(extends(np, old_payloads)) by {
                    assert forall|n: int| 0 <= n < old_payloads.len() implies old_payloads[n].len()
                        <= np[n].len() && #[trigger] np[n].subrange(0, old_payloads[n].len() as int)
                        == old_payloads[n] by {
                        assert(np[n] == old_payloads[n]);
                        assert(np[n].subrange(0, old_payloads[n].len() as int) =~= old_payloads[n]);
                    }
                }
                assert forall|i: int, j: int|
                    0 <= i < self.splits@.len() && 0 <= j
                        < self.splits@[i].chunks@.len() implies placed(
                    np,
                    #[trigger] self.splits@[i].chunks@[j],
                ) by {
                    lemma_chunk_bytes_extends(np, old_payloads, self.splits@[i].chunks@[j]);
                }
                assert forall|i: int| 0 <= i < self.splits@.len() implies #[trigger] self.contents@[i]
                    == read_back(np, self.splits@[i].chunks@) by {
                    lemma_read_back_extends(np, old_payloads, self.splits@[i].chunks@);
                }
                assert forall|k: int| 0 < k < cs.len() implies follows(
                    cs[k - 1],
                    #[trigger] cs[k],
                    np,
                ) by {
                    assert(follows(cs[k - 1], cs[k], old_payloads));
                    assert(np[cs[k - 1].bak_n as int] == old_payloads[cs[k - 1].bak_n as int]);
                }
                assert(np[cs.last().bak_n as int] == old_payloads[cs.last().bak_n as int]);
                assert forall|n: int| 0 <= n < np.len() implies #[trigger] np[n].len()
                    <= self.cap by {
                    if n < old_payloads.len() {
                        assert(np[n] == old_payloads[n]);
                    }
                }
            }
        }
        self.chunk = Some(OpenChunk { size, fed: 0, hasher: StreamHasher::new() });
        Ok(Some(Placement { bak_n: self.bak_n, offset: self.offset, size, rotated }))
    }

    /// Takes bytes of the open chunk as they are copied to the bak file.
    pub fn absorb(&mut self, data: &[u8]) -> (r: Result<(), PackError>)
        requires
            old(self).wf(),
            old(self).in_chunk(),
        ensures
            final(self).wf(),
            r is Err <==> old(self).pending().len() + data@.len() > old(self).chunk_target(),
            r is Err ==> r == Err::<(), PackError>(PackError::ChunkOverrun) && *final(self) == *old(
                self,
            ),
            r is Ok ==> {
                &&& final(self).pending() == old(self).pending() + data@
                &&& final(self).in_chunk()
                &&& final(self).in_file()
                &&& final(self).chunk_target() == old(self).chunk_target()
                &&& final(self).chunk_size() == old(self).chunk_size()
                &&& final(self).cap() == old(self).cap()
                &&& final(self).payloads() == old(self).payloads()
                &&& final(self).splits() == old(self).splits()
                &&& final(self).contents() == old(self).contents()
                &&& final(self).file_size() == old(self).file_size()
                &&& final(self).next_index() == old(self).next_index()
            },
    {
        let room = match &self.chunk {
            Some(c) => c.size - c.fed,
            None => 0,
        };
        if data.len() as u64 > room {
            return Err(PackError::ChunkOverrun);
        }
        let mut c = self.chunk.take().unwrap();
        let mut f = self.file.take().unwrap();
        c.hasher.update(data);
        c.fed = c.fed + data.len() as u64;
        f.hasher.update(data);
        proof {
            let last = self.splits@.len() - 1;
            assert(f.hasher.absorbed() =~= self.contents@[last] + c.hasher.absorbed());
        }
        self.chunk = Some(c);
        self.file = Some(f);
        Ok(())
    }

    /// Closes the open chunk once all its bytes were absorbed, and records
    /// its row: its hash, and where it was put.
    #[verifier::rlimit(100)]
    #[verifier::spinoff_prover]
    pub fn finish_chunk(&mut self) -> (r: Result<ChunkInfo, PackError>)
        requires
            old(self).wf(),
            old(self).in_chunk(),
        ensures
            final(self).wf(),
            r is Err <==> old(self).pending().len() < old(self).chunk_target(),
            r is Err ==> r == Err::<ChunkInfo, PackError>(PackError::ShortChunk) && *final(self)
                == *old(self),
            r is Ok ==> {
                let c = r->Ok_0;
                let data = old(self).pending();
                let b = old(self).payloads().len() - 1;
                let last = old(self).splits().len() - 1;
                &&& c.hash@ == digest16(data)
                &&& c.bak_n == b
                &&& c.offset == old(self).payloads()[b].len()
                &&& c.size == data.len()
                &&& final(self).payloads() == old(self).payloads().update(
                    b,
                    old(self).payloads()[b] + data,
                )
                &&& final(self).contents() == old(self).contents().update(
                    last,
                    old(self).contents()[last] + data,
                )
                &&& final(self).splits().len() == old(self).splits().len()
                &&& final(self).splits().drop_last() == old(self).splits().drop_last()
                &&& final(self).splits().last().file_hash == old(self).splits().last().file_hash
                &&& final(self).splits().last().chunks@ == old(self).splits().last().chunks@.push(c)
                &&& !final(self).in_chunk()
                &&& final(self).in_file()
                &&& final(self).next_index() == old(self).next_index() + 1
                &&& final(self).file_size() == old(self).file_size()
                &&& final(self).chunk_size() == old(self).chunk_size()
                &&& final(self).cap() == old(self).cap()
            },
    {
        let short = match &self.chunk {
            Some(c) => c.fed < c.size,
            None => false,
        };
        if short {
            return Err(PackError::ShortChunk);
        }
        let c = self.chunk.take().unwrap();
        let mut f = self.file.take().unwrap();
        let ghost data = c.hasher.absorbed();
        let ghost old_payloads = self.payloads@;
        let ghost old_splits = self.splits@;
        let ghost old_contents = self.contents@;
        let ghost cs = all_chunks(old_splits);
        let ghost b = self.bak_n as int;
        let ghost last = old_splits.len() - 1;
        let info = ChunkInfo {
            hash: c.hasher.finalize(),
            bak_n: self.bak_n,
            offset: self.offset,
            size: c.size,
        };
        let mut split = self.splits.pop().unwrap();
        split.chunks.push(info);
        self.splits.push(split);
        let nranges = f.ranges.len();
        proof {
            assert(f.next < nranges);
        }
        f.next = f.next + 1;
        self.offset = self.offset + c.size;
        self.payloads = Ghost(old_payloads.update(b, old_payloads[b] + data));
        self.contents = Ghost(old_contents.update(last, old_contents[last] + data));
        self.file = Some(f);
        proof {
            let np = self.payloads@;
            let ns = self.splits@;
            assert(ns.drop_last() =~= old_splits.drop_last());
            lemma_rows_push(old_payloads, np, old_splits, ns, old_contents, self.contents@, info, data);
            lemma_all_chunks_push(old_splits, ns, info);
            lemma_tiled_push(cs, old_payloads, np, info, data);
            assert forall|n: int| 0 <= n < np.len() implies #[trigger] np[n].len() <= self.cap by {
                if n != b {
                    assert(np[n] == old_payloads[n]);
                }
            }
            // sizes of the open file
            let of = self.file->0;
            assert forall|j: int| 0 <= j < of.next implies (#[trigger] ns[last].chunks@[j]).size
                == of.ranges@[j].size by {
                if j < of.next - 1 {
                    assert(ns[last].chunks@[j] == old_splits[last].chunks@[j]);
                }
            }
            let j = of.next - 1;
            let rj = of.ranges@[j];
            assert(rj.start == j * self.chunk_size);
            assert(old_contents[last].len() == rj.start);
            if of.next < of.ranges@.len() {
                assert(rj.size == self.chunk_size) by (nonlinear_arith)
                    requires
                        rj.size == chunk_len(of.size as nat, self.chunk_size as nat, j),
                        of.ranges@.len() == chunk_count(of.size as nat, self.chunk_size as nat),
                        j + 1 < of.ranges@.len(),
                        self.chunk_size > 0,
                ;
                let nr = of.ranges@[of.next as int];
                assert(nr.start == (j + 1) * self.chunk_size);
                assert((j + 1) * self.chunk_size == j * self.chunk_size + self.chunk_size)
                    by (nonlinear_arith);
            }
            assert(f.hasher.absorbed() == self.contents@[last]);
            assert forall|i: int| 0 <= i < self.done_count() implies file_packed(
                #[trigger] ns[i],
                self.contents@[i],
                self.chunk_size as nat,
            ) by {
                assert(ns[i] == old_splits[i]);
            }
        }
        Ok(info)
    }

    /// Closes the open file once all its chunks were packed and its bytes
    /// have the hash it was announced with.
    pub fn end_file(&mut self) -> (r: Result<(), PackError>)
        requires
            old(self).wf(),
            old(self).in_file(),
            !old(self).in_chunk(),
        ensures
            final(self).wf(),
            old(self).next_index() < chunk_count(old(self).file_size(), old(self).chunk_size() as nat)
                ==> r == Err::<(), PackError>(PackError::FileIncomplete),
            old(self).next_index() == chunk_count(
                old(self).file_size(),
                old(self).chunk_size() as nat,
            ) && digest16(old(self).contents().last()) != old(self).splits().last().file_hash@
                ==> r == Err::<(), PackError>(PackError::FileHashMismatch),
            old(self).next_index() == chunk_count(
                old(self).file_size(),
                old(self).chunk_size() as nat,
            ) && digest16(old(self).contents().last()) == old(self).splits().last().file_hash@
                ==> r is Ok,
            r is Err ==> *final(self) == *old(self),
            r is Ok ==> {
                &&& !final(self).in_file()
                &&& !final(self).in_chunk()
                &&& final(self).payloads() == old(self).payloads()
                &&& final(self).splits() == old(self).splits()
                &&& final(self).contents() == old(self).contents()
                &&& final(self).chunk_size() == old(self).chunk_size()
                &&& final(self).cap() == old(self).cap()
                &&& old(self).contents().last().len() == old(self).file_size()
            },
    {
        let f = self.file.take().unwrap();
        if f.next < f.ranges.len() {
            self.file = Some(f);
            return Err(PackError::FileIncomplete);
        }
        let whole = f.hasher.finalize();
        let last = self.splits.len() - 1;
        if whole != self.splits[last].file_hash {
            self.file = Some(f);
            return Err(PackError::FileHashMismatch);
        }
        proof {
            let content = self.contents@[last as int];
            let sp = self.splits@[last as int];
            assert(content.len() == f.size);
            assert forall|j: int| 0 <= j < sp.chunks@.len() implies #[trigger] sp.chunks@[j].size
                == chunk_len(content.len(), self.chunk_size as nat, j) by {
                assert(sp.chunks@[j].size == f.ranges@[j].size);
            }
            assert(file_packed(sp, content, self.chunk_size as nat));
        }
        Ok(())
    }

    /// Whether a file is open.
    pub fn has_open_file(&self) -> (r: bool)
        ensures
            r == self.in_file(),
    {
        self.file.is_some()
    }

    /// Whether a chunk is open.
    pub fn has_open_chunk(&self) -> (r: bool)
        ensures
            r == self.in_chunk(),
    {
        self.chunk.is_some()
    }

    /// The rows of every file packed, once no file is open.
    ///
    /// Read back from the bak files, each file's rows give the file's bytes
    /// and their hashes; chunks have the configured size but for the last of
    /// each file; the rows tile the bak payloads, none of which exceeds the
    /// cap.
    pub fn finish(self) -> (r: Vec<SplitInfo>)
        requires
            self.wf(),
            !self.in_file(),
        ensures
            r@ == self.splits(),
            r@.len() == self.contents().len(),
            forall|i: int|
                0 <= i < r@.len() ==> read_back(self.payloads(), #[trigger] r@[i].chunks@)
                    == self.contents()[i],
            forall|i: int|
                0 <= i < r@.len() ==> file_packed(
                    #[trigger] r@[i],
                    self.contents()[i],
                    self.chunk_size() as nat,
                ),
            forall|i: int|
                0 <= i < r@.len() ==> (#[trigger] r@[i]).file_hash@ == digest16(
                    read_back(self.payloads(), r@[i].chunks@),
                ),
            forall|i: int, j: int|
                0 <= i < r@.len() && 0 <= j < r@[i].chunks@.len() ==> placed(
                    self.payloads(),
                    #[trigger] r@[i].chunks@[j],
                ),
            tiled(all_chunks(r@), self.payloads()),
            forall|n: int|
                0 <= n < self.payloads().len() ==> #[trigger] self.payloads()[n].len()
                    <= self.cap(),
    {
        self.splits
    }
}

} // verus!
