//! What the scanner reports of each file, and where its chunks were put.
use vstd::prelude::*;

use crate::hash::Hash as ContentHash;

verus! {

/// The raw bytes of a path, as the file system gives them.
#[derive(Clone, Debug, PartialEq, Eq)]
pub struct PathBytes(pub Vec<u8>);

impl View for PathBytes {
    type V = Seq<u8>;

    open spec fn view(&self) -> Seq<u8> {
        self.0@
    }
}

/// The byte `/`.
pub const PATH_SEPARATOR: u8 = 0x2f;

/// A path `rel` joined below the directory `dir`, with one `/` between them.
pub open spec fn joined_path(dir: Seq<u8>, rel: Seq<u8>) -> Seq<u8> {
    if dir.len() == 0 {
        rel
    } else if dir.last() == PATH_SEPARATOR {
        dir + rel
    } else {
        dir + seq![PATH_SEPARATOR] + rel
    }
}

/// A modification time in nanoseconds since the Unix epoch.
#[derive(Clone, Copy, Debug, PartialEq, Eq, Hash)]
pub struct FileNanoTime(pub u64);

pub const NANOS_PER_SEC: u64 = 1000000000;

impl FileNanoTime {
    /// `seconds * 10^9 + nanos`, or `None` for a time before the epoch or
    /// one that does not fit in 64 bits.
    pub fn from_parts(seconds: i64, nanos: u32) -> (r: Option<FileNanoTime>)
        ensures
            r is Some <==> 0 <= seconds && seconds * NANOS_PER_SEC + nanos <= u64::MAX,
            r is Some ==> r == Some(FileNanoTime((seconds * NANOS_PER_SEC + nanos) as u64)),
    {
        if seconds < 0 {
            return None;
        }
        let s = seconds as u64;
        match s.checked_mul(NANOS_PER_SEC) {
            None => None,
            Some(whole) => match whole.checked_add(nanos as u64) {
                None => None,
                Some(t) => Some(FileNanoTime(t)),
            },
        }
    }
}

/// A regular file found under the source directory.
#[derive(Clone, Debug)]
pub struct FileEntry {
    /// Relative to the source directory.
    pub path: PathBytes,
    pub size: u64,
    pub mtime: FileNanoTime,
}

/// What a file entry says: its path bytes, size and modification time.
pub struct EntryModel {
    pub path: Seq<u8>,
    pub size: u64,
    pub mtime: u64,
}

impl View for FileEntry {
    type V = EntryModel;

    open spec fn view(&self) -> EntryModel {
        EntryModel { path: self.path@, size: self.size, mtime: self.mtime.0 }
    }
}

/// The views of a sequence of entries.
pub open spec fn entries_view(s: Seq<FileEntry>) -> Seq<EntryModel> {
    s.map_values(|e: FileEntry| e@)
}

impl FileEntry {
    /// A copy of the entry.
    pub fn copy_entry(&self) -> (r: FileEntry)
        ensures
            r@ == self@,
    {
        FileEntry { path: PathBytes(self.path.0.clone()), size: self.size, mtime: self.mtime }
    }

    /// The path of the file below the source directory `source_dir`.
    pub fn full_path(&self, source_dir: &PathBytes) -> (r: PathBytes)
        requires
            source_dir@.len() + 1 + self.path@.len() <= usize::MAX,
        ensures
            r@ == joined_path(source_dir@, self.path@),
    {
        let dir = &source_dir.0;
        let mut out: Vec<u8> = Vec::new();
        let mut i: usize = 0;
        while i < dir.len()
            invariant
                i <= dir@.len(),
                out@ == dir@.subrange(0, i as int),
            decreases dir@.len() - i,
        {
            out.push(dir[i]);
            i = i + 1;
        }
        if dir.len() > 0 && dir[dir.len() - 1] != PATH_SEPARATOR {
            out.push(PATH_SEPARATOR);
        }
        let rel = &self.path.0;
        let ghost base = out@;
        let mut k: usize = 0;
        while k < rel.len()
            invariant
                k <= rel@.len(),
                out@ == base + rel@.subrange(0, k as int),
            decreases rel@.len() - k,
        {
            out.push(rel[k]);
            k = k + 1;
        }
        proof {
            assert(dir@.subrange(0, dir@.len() as int) =~= dir@);
            assert(rel@.subrange(0, rel@.len() as int) =~= rel@);
            if dir@.len() == 0 {
                assert(base =~= Seq::<u8>::empty());
                assert(out@ =~= rel@);
            }
        }
        PathBytes(out)
    }
}

/// Where one chunk of a file was put.
#[derive(Clone, Copy, Debug)]
pub struct ChunkInfo {
    pub hash: ContentHash,
    /// Which bak file holds it.
    pub bak_n: i32,
    /// Where it starts in that bak file's payload.
    pub offset: u64,
    pub size: u64,
}

/// The chunks of one file, in the order they appear in it.
#[derive(Clone, Debug)]
pub struct SplitInfo {
    pub file_hash: ContentHash,
    pub chunks: Vec<ChunkInfo>,
}

/// The scanner's policy for empty files: they are left out of the backup,
/// so every backed-up file has at least one chunk.
pub fn drop_empty_files(entries: Vec<FileEntry>) -> (r: Vec<FileEntry>)
    ensures
        entries_view(r@) == entries_view(entries@).filter(|e: EntryModel| e.size > 0),
{
    let mut out: Vec<FileEntry> = Vec::new();
    let mut i: usize = 0;
    while i < entries.len()
        invariant
            i <= entries@.len(),
            entries_view(out@) == entries_view(entries@.subrange(0, i as int)).filter(
                |e: EntryModel| e.size > 0,
            ),
        decreases entries@.len() - i,
    {
        let ghost prev = out@;
        proof {
            reveal(Seq::filter);
            assert(entries_view(entries@.subrange(0, i + 1)).drop_last() =~= entries_view(
                entries@.subrange(0, i as int),
            ));
            assert(entries_view(entries@.subrange(0, i + 1)).last() == entries@[i as int]@);
        }
        if entries[i].size > 0 {
            out.push(entries[i].copy_entry());
            proof {
                assert(entries_view(out@) =~= entries_view(prev).push(entries@[i as int]@));
            }
        }
        i = i + 1;
    }
    proof {
        assert(entries@.subrange(0, entries@.len() as int) =~= entries@);
    }
    out
}

} // verus!
