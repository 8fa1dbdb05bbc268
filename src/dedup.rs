//! Deciding which files of a scan need their content written, and the file
//! table of the new snapshot.
//!
//! Without a reference index, every distinct content is written once. With
//! one, a file is copied from the reference when its path, modification
//! time and size match a reference row (no read needed), or else when the
//! hash of its content is among the reference's hashes; the rest is written.
//!
//! The chunk table of a snapshot lists only the chunks written in its own
//! run. A copied file's content lives in the bak files of the snapshot that
//! first wrote it, so restoring it walks back along the chain of snapshots.
use vstd::prelude::*;

use core::cmp::Ordering;

use crate::buckets::{bucket_ok, Buckets};
use crate::db::IndexRow;
use crate::entry::{EntryModel, FileEntry, PathBytes};
use crate::hash::Hash as ContentHash;
use crate::hash::hash_key;

verus! {

broadcast use vstd::seq_lib::group_to_multiset_ensures;

/// `a` comes before `b` in byte-wise lexicographic order: at the first
/// position where they differ `a` has the smaller byte, or `a` is a proper
/// prefix of `b`.
pub open spec fn lex_lt(a: Seq<u8>, b: Seq<u8>) -> bool {
    exists|i: int|
        0 <= i <= a.len() && i <= b.len() && #[trigger] a.subrange(0, i) == b.subrange(0, i) && ((
        i < a.len() && i < b.len() && a[i] < b[i]) || (i == a.len() && i < b.len()))
}

/// The order of paths by their bytes.
pub open spec fn path_order(a: Seq<u8>, b: Seq<u8>) -> Ordering {
    if a == b {
        Ordering::Equal
    } else if lex_lt(a, b) {
        Ordering::Less
    } else {
        Ordering::Greater
    }
}

/// Compares two paths byte by byte.
pub fn compare_paths(a: &PathBytes, b: &PathBytes) -> (r: Ordering)
    ensures
        r == path_order(a@, b@),
{
    let x = &a.0;
    let y = &b.0;
    let mut i: usize = 0;
    while i < x.len() && i < y.len() && x[i] == y[i]
        invariant
            i <= x@.len(),
            i <= y@.len(),
            x@.subrange(0, i as int) == y@.subrange(0, i as int),
        decreases x@.len() - i,
    {
        proof {
            assert(x@.subrange(0, i + 1) =~= x@.subrange(0, i as int).push(x@[i as int]));
            assert(y@.subrange(0, i + 1) =~= y@.subrange(0, i as int).push(y@[i as int]));
        }
        i = i + 1;
    }
    let ghost (s, t) = (x@, y@);
    proof {
        assert forall|j: int| 0 <= j < i implies s[j] == t[j] by {
            assert(s.subrange(0, i as int)[j] == t.subrange(0, i as int)[j]);
        }
    }
    if i < x.len() && i < y.len() {
        if x[i] < y[i] {
            assert(s.subrange(0, i as int) == t.subrange(0, i as int));
            assert(s[i as int] != t[i as int]);
            Ordering::Less
        } else {
            assert(s[i as int] != t[i as int]);
            assert(!lex_lt(s, t)) by {
                if lex_lt(s, t) {
                    let j = choose|j: int|
                        0 <= j <= s.len() && j <= t.len() && #[trigger] s.subrange(0, j)
                            == t.subrange(0, j) && ((j < s.len() && j < t.len() && s[j] < t[j]) || (
                        j == s.len() && j < t.len()));
                    if j > i {
                        assert(s.subrange(0, j)[i as int] == t.subrange(0, j)[i as int]);
                    }
                }
            }
            Ordering::Greater
        }
    } else if i == x.len() && i == y.len() {
        assert(s =~= t) by {
            assert(s.subrange(0, i as int) =~= s);
            assert(t.subrange(0, i as int) =~= t);
        }
        Ordering::Equal
    } else if i == x.len() {
        assert(s.subrange(0, i as int) =~= s);
        assert(s.len() != t.len());
        Ordering::Less
    } else {
        assert(t.subrange(0, i as int) =~= t);
        assert(s.len() != t.len());
        assert(!lex_lt(s, t)) by {
            if lex_lt(s, t) {
                let j = choose|j: int|
                    0 <= j <= s.len() && j <= t.len() && #[trigger] s.subrange(0, j) == t.subrange(
                        0,
                        j,
                    ) && ((j < s.len() && j < t.len() && s[j] < t[j]) || (j == s.len() && j
                        < t.len()));
                assert(j <= t.len());
            }
        }
        Ordering::Greater
    }
}

/// The entries are in path order: no entry's path comes after that of an
/// entry further on.
pub open spec fn sorted_by_path(s: Seq<(ContentHash, FileEntry)>) -> bool {
    forall|a: int, b: int|
        0 <= a < b < s.len() ==> path_order(#[trigger] s[a].1.path@, #[trigger] s[b].1.path@)
            != Ordering::Greater
}

/// Relies on `slice::sort_by`: the elements are reordered, none lost or
/// duplicated, so that the comparison (`compare_paths`, a total order)
/// never ranks an element after one that follows it.
#[verifier::external_body]
fn sort_by_path(v: &mut Vec<(ContentHash, FileEntry)>)
    ensures
        final(v)@.to_multiset() == old(v)@.to_multiset(),
        sorted_by_path(final(v)@),
{
    v.sort_by(|x, y| compare_paths(&x.1.path, &y.1.path));
}

/// What a pending write says: the content hash and the file.
pub open spec fn pending_view(p: (ContentHash, FileEntry)) -> (Seq<u8>, EntryModel) {
    (p.0@, p.1@)
}

/// The files a run is to write, and the file table of its snapshot.
pub struct Plan {
    /// One row per scanned file.
    pub rows: Vec<IndexRow>,
    /// The files whose content is packed, with its hash, in path order.
    pub to_write: Vec<(ContentHash, FileEntry)>,
    /// Number of scanned files whose content is not packed in this run.
    pub copied: usize,
}

/// The file-table row of an entry.
pub open spec fn row_view(r: IndexRow) -> (EntryModel, Seq<u8>) {
    (r.entry@, r.hash@)
}

fn make_row(entry: &FileEntry, hash: &ContentHash) -> (r: IndexRow)
    ensures
        row_view(r) == (entry@, hash@),
{
    IndexRow { entry: entry.copy_entry(), hash: hash.0 }
}

/// The hash `h` is the content hash of some row of `rows`.
pub open spec fn known_hash(h: Seq<u8>, rows: Seq<IndexRow>) -> bool {
    exists|j: int| 0 <= j < rows.len() && (#[trigger] rows[j]).hash@ == h
}

/// The reference rows grouped by the key of their hash.
fn hash_buckets(rows: &Vec<IndexRow>) -> (r: Buckets)
    ensures
        r.wf(),
        r.keys() == rows@.map_values(|row: IndexRow| hash_key(row.hash@)),
{
    let mut b = Buckets::new();
    let mut j: usize = 0;
    while j < rows.len()
        invariant
            j <= rows@.len(),
            b.wf(),
            b.keys() == rows@.subrange(0, j as int).map_values(|row: IndexRow| hash_key(row.hash@)),
        decreases rows@.len() - j,
    {
        b.add(ContentHash(rows[j].hash).key());
        proof {
            assert(rows@.subrange(0, j + 1).map_values(|row: IndexRow| hash_key(row.hash@))
                =~= rows@.subrange(0, j as int).map_values(|row: IndexRow| hash_key(row.hash@)).push(
                hash_key(rows@[j as int].hash@),
            ));
        }
        j = j + 1;
    }
    proof {
        assert(rows@.subrange(0, rows@.len() as int) =~= rows@);
    }
    b
}

fn has_hash(rows: &Vec<IndexRow>, by_hash: &Buckets, h: &ContentHash) -> (r: bool)
    requires
        by_hash.wf(),
        by_hash.keys() == rows@.map_values(|row: IndexRow| hash_key(row.hash@)),
    ensures
        r == known_hash(h@, rows@),
{
    let cands = by_hash.candidates(h.key());
    let mut t: usize = 0;
    while t < cands.len()
        invariant
            t <= cands@.len(),
            bucket_ok(cands@, hash_key(h@), by_hash.keys()),
            forall|j: int|
                0 <= j < by_hash.keys().len() && #[trigger] by_hash.keys()[j] == hash_key(h@)
                    ==> cands@.contains(j as usize),
            by_hash.keys() == rows@.map_values(|row: IndexRow| hash_key(row.hash@)),
            forall|s: int| 0 <= s < t ==> (#[trigger] rows@[cands@[s] as int]).hash@ != h@,
        decreases cands@.len() - t,
    {
        proof {
            assert(cands@[t as int] < by_hash.keys().len());
        }
        if ContentHash(rows[cands[t]].hash) == *h {
            return true;
        }
        t = t + 1;
    }
    let n = rows.len();
    proof {
        assert forall|j: int| 0 <= j < rows@.len() implies (#[trigger] rows@[j]).hash@ != h@ by {
            assert(j < n);
            if rows@[j].hash@ == h@ {
                assert(by_hash.keys()[j] == hash_key(h@));
                assert(cands@.contains(j as usize));
                let s = choose|s: int| 0 <= s < cands@.len() && cands@[s] == j as usize;
                assert(rows@[cands@[s] as int].hash@ != h@);
            }
        }
    }
    false
}

proof fn lemma_same_elements(
    old: Seq<(ContentHash, FileEntry)>,
    new: Seq<(ContentHash, FileEntry)>,
)
    requires
        new.to_multiset() == old.to_multiset(),
    ensures
        new.len() == old.len(),
        forall|k: int| 0 <= k < new.len() ==> old.contains(#[trigger] new[k]),
        forall|i: int| 0 <= i < old.len() ==> new.contains(#[trigger] old[i]),
{
    old.to_multiset_ensures();
    new.to_multiset_ensures();
    assert forall|k: int| 0 <= k < new.len() implies old.contains(#[trigger] new[k]) by {
        let x = new[k];
        assert(new.contains(x));
        assert(new.to_multiset().count(x) > 0);
    }
    assert forall|i: int| 0 <= i < old.len() implies new.contains(#[trigger] old[i]) by {
        let x = old[i];
        assert(old.contains(x));
        assert(old.to_multiset().count(x) > 0);
    }
    assert(new.to_multiset().len() == old.to_multiset().len());
}

/// `p` is a scanned file together with its hash.
pub open spec fn scanned_pair(
    p: (Seq<u8>, EntryModel),
    files: Seq<FileEntry>,
    hashes: Seq<ContentHash>,
) -> bool {
    exists|i: int| 0 <= i < files.len() && p == (#[trigger] hashes[i]@, files[i]@)
}

/// Some pending write has content hash `h`.
pub open spec fn lists_hash(s: Seq<(ContentHash, FileEntry)>, h: Seq<u8>) -> bool {
    exists|k: int| 0 <= k < s.len() && (#[trigger] s[k]).0@ == h
}

/// One file-table row per scanned file, with its hash.
fn rows_for(files: &Vec<FileEntry>, hashes: &Vec<ContentHash>) -> (r: Vec<IndexRow>)
    requires
        files@.len() == hashes@.len(),
    ensures
        r@.len() == files@.len(),
        forall|i: int| 0 <= i < files@.len() ==> row_view(#[trigger] r@[i]) == (files@[i]@, hashes@[i]@),
{
    let mut rows: Vec<IndexRow> = Vec::new();
    let mut i: usize = 0;
    while i < files.len()
        invariant
            files@.len() == hashes@.len(),
            i <= files@.len(),
            rows@.len() == i,
            forall|k: int| 0 <= k < i ==> row_view(#[trigger] rows@[k]) == (files@[k]@, hashes@[k]@),
        decreases files@.len() - i,
    {
        rows.push(make_row(&files[i], &hashes[i]));
        i = i + 1;
    }
    rows
}

/// Initial mode: every scanned file gets a row with its hash; one file of
/// each distinct content is written, the first in path order.
pub fn plan_initial(files: &Vec<FileEntry>, hashes: &Vec<ContentHash>) -> (r: Plan)
    requires
        files@.len() == hashes@.len(),
    ensures
        r.rows@.len() == files@.len(),
        forall|i: int|
            0 <= i < files@.len() ==> row_view(#[trigger] r.rows@[i]) == (files@[i]@, hashes@[i]@),
        forall|k: int|
            0 <= k < r.to_write@.len() ==> scanned_pair(
                pending_view(#[trigger] r.to_write@[k]),
                files@,
                hashes@,
            ),
        forall|i: int| 0 <= i < files@.len() ==> lists_hash(r.to_write@, #[trigger] hashes@[i]@),
        forall|a: int, b: int|
            0 <= a < b < r.to_write@.len() ==> (#[trigger] r.to_write@[a]).0@ != (
            #[trigger] r.to_write@[b]).0@,
        sorted_by_path(r.to_write@),
        r.copied + r.to_write@.len() == files@.len(),
{
    let rows = rows_for(files, hashes);
    let mut pairs: Vec<(ContentHash, FileEntry)> = Vec::new();
    let mut i: usize = 0;
    while i < files.len()
        invariant
            files@.len() == hashes@.len(),
            i <= files@.len(),
            pairs@.len() == i,
            forall|k: int|
                0 <= k < i ==> pending_view(#[trigger] pairs@[k]) == (hashes@[k]@, files@[k]@),
        decreases files@.len() - i,
    {
        pairs.push((hashes[i], files[i].copy_entry()));
        i = i + 1;
    }
    let ghost unsorted = pairs@;
    sort_by_path(&mut pairs);
    proof {
        lemma_same_elements(unsorted, pairs@);
    }
    let ghost sorted = pairs@;
    let mut reps: Vec<(ContentHash, FileEntry)> = Vec::new();
    let mut by_hash = Buckets::new();
    let ghost mut pos: Seq<int> = Seq::empty();
    let mut m: usize = 0;
    proof {
        assert(by_hash.keys() =~= reps@.map_values(|p: (ContentHash, FileEntry)| hash_key(p.0@)));
    }
    while m < pairs.len()
        invariant
            by_hash.wf(),
            by_hash.keys() == reps@.map_values(|p: (ContentHash, FileEntry)| hash_key(p.0@)),
            pairs@ == sorted,
            sorted_by_path(sorted),
            m <= sorted.len(),
            reps@.len() == pos.len(),
            reps@.len() <= m,
            forall|k: int| 0 <= k < pos.len() ==> 0 <= #[trigger] pos[k] < m,
            forall|a: int, b: int| 0 <= a < b < pos.len() ==> #[trigger] pos[a] < #[trigger] pos[b],
            forall|k: int|
                0 <= k < reps@.len() ==> pending_view(#[trigger] reps@[k]) == pending_view(
                    sorted[pos[k]],
                ),
            forall|a: int, b: int|
                0 <= a < b < reps@.len() ==> (#[trigger] reps@[a]).0@ != (#[trigger] reps@[b]).0@,
            forall|q: int|
                #![trigger sorted[q]]
                0 <= q < m ==> exists|k: int|
                    #![trigger reps@[k]]
                    0 <= k < reps@.len() && reps@[k].0@ == sorted[q].0@,
        decreases sorted.len() - m,
    {
        let h = pairs[m].0;
        let cands = by_hash.candidates(h.key());
        let mut seen = false;
        let mut t: usize = 0;
        while t < cands.len() && !seen
            invariant
                t <= cands@.len(),
                bucket_ok(cands@, hash_key(h@), by_hash.keys()),
                by_hash.keys() == reps@.map_values(|p: (ContentHash, FileEntry)| hash_key(p.0@)),
                !seen ==> forall|s: int| 0 <= s < t ==> (#[trigger] reps@[cands@[s] as int]).0@ != h@,
                seen ==> exists|k: int| 0 <= k < reps@.len() && (#[trigger] reps@[k]).0@ == h@,
            decreases cands@.len() - t,
        {
            let j = cands[t];
            proof {
                assert(j < by_hash.keys().len());
            }
            if reps[j].0 == h {
                seen = true;
            }
            t = t + 1;
        }
        let nreps = reps.len();
        proof {
            if !seen {
                assert forall|k: int| 0 <= k < reps@.len() implies (#[trigger] reps@[k]).0@ != h@ by {
                    assert(k < nreps);
                    if reps@[k].0@ == h@ {
                        assert(by_hash.keys()[k] == hash_key(h@));
                        assert(cands@.contains(k as usize));
                        let s = choose|s: int| 0 <= s < cands@.len() && cands@[s] == k as usize;
                        assert(reps@[cands@[s] as int].0@ != h@);
                    }
                }
            }
        }
        let ghost old_reps = reps@;
        if !seen {
            let entry = pairs[m].1.copy_entry();
            reps.push((h, entry));
            by_hash.add(h.key());
            proof {
                assert(by_hash.keys() =~= reps@.map_values(
                    |p: (ContentHash, FileEntry)| hash_key(p.0@),
                ));
                pos = pos.push(m as int);
                assert forall|q: int| #![trigger sorted[q]] 0 <= q < m + 1 implies exists|k: int|
                    #![trigger reps@[k]]
                    0 <= k < reps@.len() && reps@[k].0@ == sorted[q].0@ by {
                    if q == m {
                        assert(reps@[reps@.len() - 1].0@ == sorted[q].0@);
                    } else {
                        let k0 = choose|k: int|
                            #![trigger old_reps[k]]
                            0 <= k < old_reps.len() && old_reps[k].0@ == sorted[q].0@;
                        assert(reps@[k0] == old_reps[k0]);
                        assert(reps@[k0].0@ == sorted[q].0@);
                    }
                }
            }
        } else {
            proof {
                assert forall|q: int| #![trigger sorted[q]] 0 <= q < m + 1 implies exists|k: int|
                    #![trigger reps@[k]]
                    0 <= k < reps@.len() && reps@[k].0@ == sorted[q].0@ by {
                    if q < m {
                        let k0 = choose|k: int|
                            #![trigger reps@[k]]
                            0 <= k < reps@.len() && reps@[k].0@ == sorted[q].0@;
                        assert(reps@[k0].0@ == sorted[q].0@);
                    }
                }
            }
        }
        m = m + 1;
    }
    proof {
        assert forall|a: int, b: int| 0 <= a < b < reps@.len() implies path_order(
            #[trigger] reps@[a].1.path@,
            #[trigger] reps@[b].1.path@,
        ) != Ordering::Greater by {
            assert(pos[a] < pos[b]);
            assert(path_order(sorted[pos[a]].1.path@, sorted[pos[b]].1.path@) != Ordering::Greater);
        }
        assert forall|k: int| 0 <= k < reps@.len() implies scanned_pair(
            pending_view(#[trigger] reps@[k]),
            files@,
            hashes@,
        ) by {
            assert(unsorted.contains(sorted[pos[k]]));
            let i = choose|i: int| 0 <= i < unsorted.len() && unsorted[i] == sorted[pos[k]];
            assert(pending_view(unsorted[i]) == (hashes@[i]@, files@[i]@));
        }
        assert forall|i: int| 0 <= i < files@.len() implies lists_hash(
            reps@,
            #[trigger] hashes@[i]@,
        ) by {
            assert(sorted.contains(unsorted[i]));
            let q = choose|q: int| 0 <= q < sorted.len() && sorted[q] == unsorted[i];
            assert(pending_view(unsorted[i]) == (hashes@[i]@, files@[i]@));
            let k0 = choose|k: int| #![trigger reps@[k]] 0 <= k < reps@.len() && reps@[k].0@ == sorted[q].0@;
            assert(reps@[k0].0@ == hashes@[i]@);
        }
    }
    let copied = files.len() - reps.len();
    Plan { rows, to_write: reps, copied }
}

/// Two entries agree on path, size and modification time.
pub fn same_metadata(a: &FileEntry, b: &FileEntry) -> (r: bool)
    ensures
        r == (a@ == b@),
{
    a.size == b.size && a.mtime.0 == b.mtime.0 && matches!(compare_paths(&a.path, &b.path), Ordering::Equal)
}

/// The view of an optional hash.
pub open spec fn hash_opt_view(o: Option<ContentHash>) -> Option<Seq<u8>> {
    match o {
        Some(h) => Some(h@),
        None => None,
    }
}

/// The metadata tier: the hash of the first reference row whose path,
/// modification time and size are those of the entry.
pub open spec fn metadata_hash(e: EntryModel, rows: Seq<IndexRow>) -> Option<Seq<u8>>
    decreases rows.len(),
{
    if rows.len() == 0 {
        None
    } else {
        match metadata_hash(e, rows.drop_last()) {
            Some(h) => Some(h),
            None => if rows.last().entry@ == e {
                Some(rows.last().hash@)
            } else {
                None
            },
        }
    }
}

proof fn lemma_metadata_hash_none(e: EntryModel, rows: Seq<IndexRow>)
    requires
        forall|j: int| 0 <= j < rows.len() ==> (#[trigger] rows[j]).entry@ != e,
    ensures
        metadata_hash(e, rows) is None,
    decreases rows.len(),
{
    if rows.len() > 0 {
        assert forall|j: int| 0 <= j < rows.len() - 1 implies (
        #[trigger] rows.drop_last()[j]).entry@ != e by {
            assert(rows.drop_last()[j] == rows[j]);
        }
        lemma_metadata_hash_none(e, rows.drop_last());
    }
}

proof fn lemma_metadata_hash_first(e: EntryModel, rows: Seq<IndexRow>, j: int)
    requires
        0 <= j < rows.len(),
        rows[j].entry@ == e,
        forall|i: int| 0 <= i < j ==> (#[trigger] rows[i]).entry@ != e,
    ensures
        metadata_hash(e, rows) == Some(rows[j].hash@),
    decreases rows.len(),
{
    let init = rows.drop_last();
    assert forall|i: int| 0 <= i < j && i < init.len() implies (#[trigger] init[i]).entry@ != e by {
        assert(init[i] == rows[i]);
    }
    if j < rows.len() - 1 {
        assert(init[j] == rows[j]);
        lemma_metadata_hash_first(e, init, j);
    } else {
        lemma_metadata_hash_none(e, init);
    }
}

/// The reference rows grouped by modification time.
fn mtime_buckets(rows: &Vec<IndexRow>) -> (r: Buckets)
    ensures
        r.wf(),
        r.keys() == rows@.map_values(|row: IndexRow| row.entry.mtime.0),
{
    let mut b = Buckets::new();
    let mut j: usize = 0;
    while j < rows.len()
        invariant
            j <= rows@.len(),
            b.wf(),
            b.keys() == rows@.subrange(0, j as int).map_values(|row: IndexRow| row.entry.mtime.0),
        decreases rows@.len() - j,
    {
        b.add(rows[j].entry.mtime.0);
        proof {
            assert(rows@.subrange(0, j + 1).map_values(|row: IndexRow| row.entry.mtime.0)
                =~= rows@.subrange(0, j as int).map_values(|row: IndexRow| row.entry.mtime.0).push(
                rows@[j as int].entry.mtime.0,
            ));
        }
        j = j + 1;
    }
    proof {
        assert(rows@.subrange(0, rows@.len() as int) =~= rows@);
    }
    b
}

fn lookup_metadata(e: &FileEntry, rows: &Vec<IndexRow>, by_mtime: &Buckets) -> (r: Option<
    ContentHash,
>)
    requires
        by_mtime.wf(),
        by_mtime.keys() == rows@.map_values(|row: IndexRow| row.entry.mtime.0),
    ensures
        hash_opt_view(r) == metadata_hash(e@, rows@),
{
    let key = e.mtime.0;
    let cands = by_mtime.candidates(key);
    let n = rows.len();
    let mut t: usize = 0;
    while t < cands.len()
        invariant
            t <= cands@.len(),
            n == rows@.len(),
            bucket_ok(cands@, key, by_mtime.keys()),
            forall|j: int|
                0 <= j < by_mtime.keys().len() && #[trigger] by_mtime.keys()[j] == key
                    ==> cands@.contains(j as usize),
            by_mtime.keys() == rows@.map_values(|row: IndexRow| row.entry.mtime.0),
            forall|s: int| 0 <= s < t ==> (#[trigger] rows@[cands@[s] as int]).entry@ != e@,
        decreases cands@.len() - t,
    {
        let j = cands[t];
        proof {
            assert(by_mtime.keys()[j as int] == key);
        }
        if same_metadata(&rows[j].entry, e) {
            proof {
                assert forall|i: int| 0 <= i < j implies (#[trigger] rows@[i]).entry@ != e@ by {
                    if rows@[i].entry@ == e@ {
                        assert(by_mtime.keys()[i] == key);
                        assert(cands@.contains(i as usize));
                        let s = choose|s: int| 0 <= s < cands@.len() && cands@[s] == i as usize;
                        if s >= t {
                            if s > t {
                                assert(cands@[t as int] < cands@[s]);
                            }
                        }
                        assert(rows@[cands@[s] as int].entry@ != e@);
                    }
                }
                lemma_metadata_hash_first(e@, rows@, j as int);
            }
            return Some(ContentHash(rows[j].hash));
        }
        t = t + 1;
    }
    proof {
        assert forall|i: int| 0 <= i < rows@.len() implies (#[trigger] rows@[i]).entry@ != e@ by {
            if rows@[i].entry@ == e@ {
                assert(by_mtime.keys()[i] == key);
                assert(cands@.contains(i as usize));
                let s = choose|s: int| 0 <= s < cands@.len() && cands@[s] == i as usize;
                assert(rows@[cands@[s] as int].entry@ != e@);
            }
        }
        lemma_metadata_hash_none(e@, rows@);
    }
    None
}

/// The metadata tier for every scanned file: the reference hash of each
/// file that it matches.
pub fn metadata_matches(files: &Vec<FileEntry>, reference: &Vec<IndexRow>) -> (r: Vec<
    Option<ContentHash>,
>)
    ensures
        r@.len() == files@.len(),
        forall|i: int|
            0 <= i < files@.len() ==> hash_opt_view(#[trigger] r@[i]) == metadata_hash(
                files@[i]@,
                reference@,
            ),
{
    let by_mtime = mtime_buckets(reference);
    let mut out: Vec<Option<ContentHash>> = Vec::new();
    let mut i: usize = 0;
    while i < files.len()
        invariant
            by_mtime.wf(),
            by_mtime.keys() == reference@.map_values(|row: IndexRow| row.entry.mtime.0),
            i <= files@.len(),
            out@.len() == i,
            forall|k: int|
                0 <= k < i ==> hash_opt_view(#[trigger] out@[k]) == metadata_hash(
                    files@[k]@,
                    reference@,
                ),
        decreases files@.len() - i,
    {
        out.push(lookup_metadata(&files[i], reference, &by_mtime));
        i = i + 1;
    }
    out
}

/// A file must be written: the metadata tier did not match it, and its
/// hash is not among the reference's.
pub open spec fn needs_write(
    known: Option<Seq<u8>>,
    computed: Seq<u8>,
    reference: Seq<IndexRow>,
) -> bool {
    known is None && !known_hash(computed, reference)
}

/// The hash recorded for a file: the reference's when the metadata tier
/// matched, else the one computed from its content.
pub open spec fn chosen_hash(known: Option<Seq<u8>>, computed: Seq<u8>) -> Seq<u8> {
    match known {
        Some(h) => h,
        None => computed,
    }
}

/// Number of the first `n` files that must be written.
pub open spec fn write_count(
    known: Seq<Option<ContentHash>>,
    computed: Seq<ContentHash>,
    reference: Seq<IndexRow>,
    n: int,
) -> nat
    decreases n,
{
    if n <= 0 {
        0
    } else {
        write_count(known, computed, reference, n - 1) + if needs_write(
            hash_opt_view(known[n - 1]),
            computed[n - 1]@,
            reference,
        ) {
            1nat
        } else {
            0nat
        }
    }
}

/// `p` is a file that must be written, with its computed hash.
pub open spec fn written_pair(
    p: (Seq<u8>, EntryModel),
    files: Seq<FileEntry>,
    known: Seq<Option<ContentHash>>,
    computed: Seq<ContentHash>,
    reference: Seq<IndexRow>,
) -> bool {
    exists|i: int|
        0 <= i < files.len() && needs_write(hash_opt_view(known[i]), computed[i]@, reference) && p
            == (#[trigger] computed[i]@, files[i]@)
}

/// Some pending write is `p`.
pub open spec fn lists_pair(s: Seq<(ContentHash, FileEntry)>, p: (Seq<u8>, EntryModel)) -> bool {
    exists|k: int| 0 <= k < s.len() && pending_view(#[trigger] s[k]) == p
}

/// No two scanned files share a path.
pub open spec fn distinct_paths(files: Seq<FileEntry>) -> bool {
    forall|a: int, b: int|
        0 <= a < b < files.len() ==> (#[trigger] files[a]).path@ != (#[trigger] files[b]).path@
}

/// No two pending writes share a path.
pub open spec fn pending_distinct_paths(s: Seq<(ContentHash, FileEntry)>) -> bool {
    forall|a: int, b: int|
        0 <= a < s.len() && 0 <= b < s.len() && a != b ==> (#[trigger] s[a]).1.path@ != (
        #[trigger] s[b]).1.path@
}

/// The pending writes are in strictly increasing path order.
pub open spec fn strictly_sorted(s: Seq<(Seq<u8>, EntryModel)>) -> bool {
    forall|a: int, b: int|
        0 <= a < b < s.len() ==> path_order((#[trigger] s[a]).1.path, (#[trigger] s[b]).1.path)
            == Ordering::Less
}

/// The views of pending writes.
pub open spec fn pending_views(s: Seq<(ContentHash, FileEntry)>) -> Seq<(Seq<u8>, EntryModel)> {
    s.map_values(|p: (ContentHash, FileEntry)| pending_view(p))
}

proof fn lemma_lex_antisymmetric(x: Seq<u8>, y: Seq<u8>)
    requires
        lex_lt(x, y),
    ensures
        !lex_lt(y, x),
{
    let i = choose|i: int|
        0 <= i <= x.len() && i <= y.len() && #[trigger] x.subrange(0, i) == y.subrange(0, i) && ((
        i < x.len() && i < y.len() && x[i] < y[i]) || (i == x.len() && i < y.len()));
    if lex_lt(y, x) {
        let j = choose|j: int|
            0 <= j <= y.len() && j <= x.len() && #[trigger] y.subrange(0, j) == x.subrange(0, j)
                && ((j < y.len() && j < x.len() && y[j] < x[j]) || (j == y.len() && j < x.len()));
        if i < j {
            assert(x.subrange(0, j)[i] == y.subrange(0, j)[i]);
        } else if j < i {
            assert(x.subrange(0, i)[j] == y.subrange(0, i)[j]);
        }
    }
}

/// Sorting keeps paths distinct.
proof fn lemma_permutation_distinct_paths(
    old: Seq<(ContentHash, FileEntry)>,
    new: Seq<(ContentHash, FileEntry)>,
)
    requires
        new.to_multiset() == old.to_multiset(),
        pending_distinct_paths(old),
    ensures
        pending_distinct_paths(new),
{
    assert(old.no_duplicates());
    old.lemma_multiset_has_no_duplicates();
    new.lemma_multiset_has_no_duplicates_conv();
    lemma_same_elements(old, new);
    assert forall|a: int, b: int|
        0 <= a < new.len() && 0 <= b < new.len() && a != b implies (#[trigger] new[a]).1.path@
        != (#[trigger] new[b]).1.path@ by {
        assert(old.contains(new[a]));
        assert(old.contains(new[b]));
        let pa = choose|p: int| 0 <= p < old.len() && old[p] == new[a];
        let pb = choose|p: int| 0 <= p < old.len() && old[p] == new[b];
        assert(new[a] != new[b]);
    }
}

/// What a differential plan is: a row for every scanned file with the hash
/// it is recorded with; as pending writes, exactly the files that must be
/// written, each with its computed hash, in path order.
pub open spec fn differential_plan(
    files: Seq<FileEntry>,
    known: Seq<Option<ContentHash>>,
    computed: Seq<ContentHash>,
    reference: Seq<IndexRow>,
    rows: Seq<IndexRow>,
    to_write: Seq<(ContentHash, FileEntry)>,
) -> bool {
    &&& rows.len() == files.len()
    &&& forall|i: int|
        0 <= i < files.len() ==> row_view(#[trigger] rows[i]) == (
            files[i]@,
            chosen_hash(hash_opt_view(known[i]), computed[i]@),
        )
    &&& forall|k: int|
        0 <= k < to_write.len() ==> written_pair(
            pending_view(#[trigger] to_write[k]),
            files,
            known,
            computed,
            reference,
        )
    &&& forall|i: int|
        0 <= i < files.len() && needs_write(
            hash_opt_view(known[i]),
            computed[i]@,
            reference,
        ) ==> lists_pair(to_write, (#[trigger] computed[i]@, files[i]@))
    &&& to_write.len() == write_count(known, computed, reference, files.len() as int)
    &&& sorted_by_path(to_write)
    &&& distinct_paths(files) ==> strictly_sorted(pending_views(to_write))
}

/// Differential mode. `known` is the metadata tier's answer for each file
/// (see `metadata_matches`); `computed` holds the hash of the content of
/// each file it did not match (other entries are not read). Every scanned
/// file gets a row; the files that must be written are listed in path order.
pub fn plan_differential(
    files: &Vec<FileEntry>,
    known: &Vec<Option<ContentHash>>,
    computed: &Vec<ContentHash>,
    reference: &Vec<IndexRow>,
) -> (r: Plan)
    requires
        known@.len() == files@.len(),
        computed@.len() == files@.len(),
    ensures
        differential_plan(files@, known@, computed@, reference@, r.rows@, r.to_write@),
        r.copied + r.to_write@.len() == files@.len(),
{
    let by_hash = hash_buckets(reference);
    let mut rows: Vec<IndexRow> = Vec::new();
    let ghost mut idx: Seq<int> = Seq::empty();
    let mut pairs: Vec<(ContentHash, FileEntry)> = Vec::new();
    let mut i: usize = 0;
    while i < files.len()
        invariant
            known@.len() == files@.len(),
            computed@.len() == files@.len(),
            by_hash.wf(),
            by_hash.keys() == reference@.map_values(|row: IndexRow| hash_key(row.hash@)),
            i <= files@.len(),
            rows@.len() == i,
            forall|k: int|
                0 <= k < i ==> row_view(#[trigger] rows@[k]) == (
                    files@[k]@,
                    chosen_hash(hash_opt_view(known@[k]), computed@[k]@),
                ),
            pairs@.len() == write_count(known@, computed@, reference@, i as int),
            pairs@.len() <= i,
            forall|k: int|
                0 <= k < pairs@.len() ==> written_pair(
                    pending_view(#[trigger] pairs@[k]),
                    files@,
                    known@,
                    computed@,
                    reference@,
                ),
            forall|q: int|
                0 <= q < i && needs_write(hash_opt_view(known@[q]), computed@[q]@, reference@)
                    ==> lists_pair(pairs@, (#[trigger] computed@[q]@, files@[q]@)),
            idx.len() == pairs@.len(),
            forall|k: int|
                0 <= k < idx.len() ==> 0 <= #[trigger] idx[k] < i && pairs@[k].1.path@
                    == files@[idx[k]].path@,
            forall|a: int, b: int| 0 <= a < b < idx.len() ==> #[trigger] idx[a] < #[trigger] idx[b],
        decreases files@.len() - i,
    {
        let ghost old_pairs = pairs@;
        match known[i] {
            Some(h) => {
                rows.push(make_row(&files[i], &h));
            },
            None => {
                rows.push(make_row(&files[i], &computed[i]));
                if !has_hash(reference, &by_hash, &computed[i]) {
                    pairs.push((computed[i], files[i].copy_entry()));
                    proof {
                        idx = idx.push(i as int);
                        assert(pending_view(pairs@[pairs@.len() - 1]) == (
                            computed@[i as int]@,
                            files@[i as int]@,
                        ));
                    }
                }
            },
        }
        proof {
            assert forall|k: int| 0 <= k < pairs@.len() implies written_pair(
                pending_view(#[trigger] pairs@[k]),
                files@,
                known@,
                computed@,
                reference@,
            ) by {
                if k < old_pairs.len() {
                    assert(pairs@[k] == old_pairs[k]);
                }
            }
            assert forall|q: int|
                0 <= q < i + 1 && needs_write(
                    hash_opt_view(known@[q]),
                    computed@[q]@,
                    reference@,
                ) implies lists_pair(pairs@, (#[trigger] computed@[q]@, files@[q]@)) by {
                if q < i {
                    let k = choose|k: int|
                        0 <= k < old_pairs.len() && pending_view(#[trigger] old_pairs[k]) == (
                            computed@[q]@,
                            files@[q]@,
                        );
                    assert(pairs@[k] == old_pairs[k]);
                } else {
                    assert(pending_view(pairs@[pairs@.len() - 1]) == (
                        computed@[q]@,
                        files@[q]@,
                    ));
                }
            }
        }
        i = i + 1;
    }
    let ghost unsorted = pairs@;
    sort_by_path(&mut pairs);
    proof {
        lemma_same_elements(unsorted, pairs@);
        if distinct_paths(files@) {
            assert forall|a: int, b: int|
                0 <= a < unsorted.len() && 0 <= b < unsorted.len() && a != b implies (
                #[trigger] unsorted[a]).1.path@ != (#[trigger] unsorted[b]).1.path@ by {
                if a < b {
                    assert(idx[a] < idx[b]);
                    assert(files@[idx[a]].path@ != files@[idx[b]].path@);
                } else {
                    assert(idx[b] < idx[a]);
                    assert(files@[idx[b]].path@ != files@[idx[a]].path@);
                }
            }
            lemma_permutation_distinct_paths(unsorted, pairs@);
            let v = pending_views(pairs@);
            assert forall|a: int, b: int| 0 <= a < b < v.len() implies path_order(
                (#[trigger] v[a]).1.path,
                (#[trigger] v[b]).1.path,
            ) == Ordering::Less by {
                assert(path_order(pairs@[a].1.path@, pairs@[b].1.path@) != Ordering::Greater);
                assert(pairs@[a].1.path@ != pairs@[b].1.path@);
            }
        }
        assert forall|k: int| 0 <= k < pairs@.len() implies written_pair(
            pending_view(#[trigger] pairs@[k]),
            files@,
            known@,
            computed@,
            reference@,
        ) by {
            assert(unsorted.contains(pairs@[k]));
            let j = choose|j: int| 0 <= j < unsorted.len() && unsorted[j] == pairs@[k];
            assert(written_pair(pending_view(unsorted[j]), files@, known@, computed@, reference@));
        }
        assert forall|q: int|
            0 <= q < files@.len() && needs_write(
                hash_opt_view(known@[q]),
                computed@[q]@,
                reference@,
            ) implies lists_pair(pairs@, (#[trigger] computed@[q]@, files@[q]@)) by {
            let k = choose|k: int|
                0 <= k < unsorted.len() && pending_view(#[trigger] unsorted[k]) == (
                    computed@[q]@,
                    files@[q]@,
                );
            assert(pairs@.contains(unsorted[k]));
            let m = choose|m: int| 0 <= m < pairs@.len() && pairs@[m] == unsorted[k];
            assert(pending_view(pairs@[m]) == (computed@[q]@, files@[q]@));
        }
    }
    let copied = files.len() - pairs.len();
    Plan { rows, to_write: pairs, copied }
}

proof fn lemma_metadata_hash_found(e: EntryModel, rows: Seq<IndexRow>, j: int)
    requires
        0 <= j < rows.len(),
        rows[j].entry@ == e,
    ensures
        metadata_hash(e, rows) is Some,
    decreases rows.len(),
{
    if j < rows.len() - 1 {
        assert(rows.drop_last()[j] == rows[j]);
        lemma_metadata_hash_found(e, rows.drop_last(), j);
    }
}

/// A source unchanged since the reference snapshot: every file meets its
/// reference row in the metadata tier, so none has to be written, and each
/// file's row has that reference row's path, size and modification time.
pub proof fn lemma_unchanged_source_writes_nothing(
    files: Seq<FileEntry>,
    reference: Seq<IndexRow>,
    computed: Seq<ContentHash>,
)
    requires
        files.len() == reference.len(),
        forall|i: int| 0 <= i < files.len() ==> (#[trigger] files[i])@ == reference[i].entry@,
    ensures
        forall|i: int|
            0 <= i < files.len() ==> (#[trigger] metadata_hash(files[i]@, reference)) is Some,
        forall|i: int, c: Seq<u8>|
            0 <= i < files.len() ==> !(#[trigger] needs_write(
                metadata_hash(files[i]@, reference),
                c,
                reference,
            )),
        forall|known: Seq<Option<ContentHash>>, n: int|
            0 <= n <= files.len() && known.len() == files.len() && (forall|i: int|
                0 <= i < files.len() ==> hash_opt_view(#[trigger] known[i]) == metadata_hash(
                    files[i]@,
                    reference,
                )) ==> #[trigger] write_count(known, computed, reference, n) == 0,
{
    assert forall|i: int| 0 <= i < files.len() implies (#[trigger] metadata_hash(
        files[i]@,
        reference,
    )) is Some by {
        lemma_metadata_hash_found(files[i]@, reference, i);
    }
    assert forall|known: Seq<Option<ContentHash>>, n: int|
        0 <= n <= files.len() && known.len() == files.len() && (forall|i: int|
            0 <= i < files.len() ==> hash_opt_view(#[trigger] known[i]) == metadata_hash(
                files[i]@,
                reference,
            )) implies #[trigger] write_count(known, computed, reference, n) == 0 by {
        lemma_write_count_zero(files, known, computed, reference, n);
    }
}

proof fn lemma_write_count_zero(
    files: Seq<FileEntry>,
    known: Seq<Option<ContentHash>>,
    computed: Seq<ContentHash>,
    reference: Seq<IndexRow>,
    n: int,
)
    requires
        0 <= n <= files.len(),
        known.len() == files.len(),
        forall|i: int| 0 <= i < files.len() ==> (#[trigger] metadata_hash(files[i]@, reference)) is Some,
        forall|i: int|
            0 <= i < files.len() ==> hash_opt_view(#[trigger] known[i]) == metadata_hash(
                files[i]@,
                reference,
            ),
    ensures
        write_count(known, computed, reference, n) == 0,
    decreases n,
{
    if n > 0 {
        lemma_write_count_zero(files, known, computed, reference, n - 1);
        assert(hash_opt_view(known[n - 1]) == metadata_hash(files[n - 1]@, reference));
        assert(metadata_hash(files[n - 1]@, reference) is Some);
    }
}

proof fn lemma_sorted_views_unique(a: Seq<(Seq<u8>, EntryModel)>, b: Seq<(Seq<u8>, EntryModel)>)
    requires
        strictly_sorted(a),
        strictly_sorted(b),
        forall|k: int| 0 <= k < a.len() ==> b.contains(#[trigger] a[k]),
        forall|k: int| 0 <= k < b.len() ==> a.contains(#[trigger] b[k]),
    ensures
        a == b,
    decreases a.len(),
{
    if a.len() == 0 {
        if b.len() > 0 {
            assert(a.contains(b[0]));
        }
        assert(a =~= b);
    } else {
        assert(b.contains(a[0]));
        let m = choose|m: int| 0 <= m < b.len() && b[m] == a[0];
        assert(a.contains(b[0]));
        let p = choose|p: int| 0 <= p < a.len() && a[p] == b[0];
        if p > 0 {
            assert(path_order(a[0].1.path, a[p].1.path) == Ordering::Less);
            if m > 0 {
                assert(path_order(b[0].1.path, b[m].1.path) == Ordering::Less);
                lemma_lex_antisymmetric(a[0].1.path, b[0].1.path);
            } else {
                assert(a[p] == a[0]);
            }
        }
        assert(a[0] == b[0]);
        let (ra, rb) = (a.drop_first(), b.drop_first());
        assert forall|k: int| 0 <= k < ra.len() implies rb.contains(#[trigger] ra[k]) by {
            assert(a[k + 1] == ra[k]);
            assert(b.contains(a[k + 1]));
            let t = choose|t: int| 0 <= t < b.len() && b[t] == a[k + 1];
            assert(path_order(a[0].1.path, a[k + 1].1.path) == Ordering::Less);
            assert(t != 0);
            assert(rb[t - 1] == ra[k]);
        }
        assert forall|k: int| 0 <= k < rb.len() implies ra.contains(#[trigger] rb[k]) by {
            assert(b[k + 1] == rb[k]);
            assert(a.contains(b[k + 1]));
            let t = choose|t: int| 0 <= t < a.len() && a[t] == b[k + 1];
            assert(path_order(b[0].1.path, b[k + 1].1.path) == Ordering::Less);
            assert(t != 0);
            assert(ra[t - 1] == rb[k]);
        }
        lemma_sorted_views_unique(ra, rb);
        assert(a =~= b) by {
            assert forall|k: int| 0 <= k < a.len() implies a[k] == b[k] by {
                if k > 0 {
                    assert(ra[k - 1] == rb[k - 1]);
                }
            }
        }
    }
}

/// A differential plan is determined by its inputs: two plans of the same
/// scan (paths distinct), metadata-tier answers, hashes and reference have
/// the same file table and the same pending writes in the same order, so
/// runs made from them lay out the same bak files and index.
pub proof fn lemma_differential_plan_unique(
    files: Seq<FileEntry>,
    known: Seq<Option<ContentHash>>,
    computed: Seq<ContentHash>,
    reference: Seq<IndexRow>,
    rows1: Seq<IndexRow>,
    write1: Seq<(ContentHash, FileEntry)>,
    rows2: Seq<IndexRow>,
    write2: Seq<(ContentHash, FileEntry)>,
)
    requires
        distinct_paths(files),
        differential_plan(files, known, computed, reference, rows1, write1),
        differential_plan(files, known, computed, reference, rows2, write2),
    ensures
        rows1.map_values(|r: IndexRow| row_view(r)) == rows2.map_values(|r: IndexRow| row_view(r)),
        pending_views(write1) == pending_views(write2),
{
    assert(rows1.map_values(|r: IndexRow| row_view(r)) =~= rows2.map_values(
        |r: IndexRow| row_view(r),
    ));
    let (v1, v2) = (pending_views(write1), pending_views(write2));
    assert forall|k: int| 0 <= k < v1.len() implies v2.contains(#[trigger] v1[k]) by {
        assert(written_pair(pending_view(write1[k]), files, known, computed, reference));
        let i = choose|i: int|
            0 <= i < files.len() && needs_write(hash_opt_view(known[i]), computed[i]@, reference)
                && pending_view(write1[k]) == (#[trigger] computed[i]@, files[i]@);
        assert(lists_pair(write2, (computed[i]@, files[i]@)));
        let m = choose|m: int|
            0 <= m < write2.len() && pending_view(#[trigger] write2[m]) == (
                computed[i]@,
                files[i]@,
            );
        assert(v2[m] == v1[k]);
    }
    assert forall|k: int| 0 <= k < v2.len() implies v1.contains(#[trigger] v2[k]) by {
        assert(written_pair(pending_view(write2[k]), files, known, computed, reference));
        let i = choose|i: int|
            0 <= i < files.len() && needs_write(hash_opt_view(known[i]), computed[i]@, reference)
                && pending_view(write2[k]) == (#[trigger] computed[i]@, files[i]@);
        assert(lists_pair(write1, (computed[i]@, files[i]@)));
        let m = choose|m: int|
            0 <= m < write1.len() && pending_view(#[trigger] write1[m]) == (
                computed[i]@,
                files[i]@,
            );
        assert(v1[m] == v2[k]);
    }
    lemma_sorted_views_unique(v1, v2);
}

} // verus!
