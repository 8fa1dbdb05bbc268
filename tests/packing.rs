use backup_tool::chunking::chunks_ranges;
use backup_tool::db::chunk_rows;
use backup_tool::entry::SplitInfo;
use backup_tool::hash;
use backup_tool::packer::{PackEngine, PackError, Placement};

/// Packs in-memory files the way a run does, feeding each chunk in pieces
/// of at most `piece` bytes; returns the bak payloads and the rows.
fn pack(chunk_size: u64, cap: u64, files: &[&[u8]], piece: usize) -> (Vec<Vec<u8>>, Vec<SplitInfo>) {
    let mut engine = PackEngine::new(chunk_size, cap);
    let mut baks: Vec<Vec<u8>> = vec![Vec::new()];
    for content in files {
        engine.begin_file(hash::Hash::of_bytes(content), content.len() as u64);
        let mut pos = 0usize;
        while let Some(p) = engine.next_chunk().unwrap() {
            if p.rotated {
                baks.push(Vec::new());
            }
            assert_eq!(p.bak_n as usize, baks.len() - 1);
            assert_eq!(p.offset as usize, baks.last().unwrap().len());
            let end = pos + p.size as usize;
            while pos < end {
                let stop = std::cmp::min(end, pos + piece);
                engine.absorb(&content[pos..stop]).unwrap();
                baks.last_mut().unwrap().extend_from_slice(&content[pos..stop]);
                pos = stop;
            }
            engine.finish_chunk().unwrap();
        }
        engine.end_file().unwrap();
    }
    (baks, engine.finish())
}

fn read_back(baks: &[Vec<u8>], split: &SplitInfo) -> Vec<u8> {
    let mut out = Vec::new();
    for c in &split.chunks {
        let start = c.offset as usize;
        out.extend_from_slice(&baks[c.bak_n as usize][start..start + c.size as usize]);
    }
    out
}

#[test]
fn ranges_of_twenty_bytes_in_chunks_of_eight() {
    let r = chunks_ranges(20, 8);
    let got: Vec<(u64, u64)> = r.iter().map(|x| (x.start, x.size)).collect();
    assert_eq!(got, vec![(0, 8), (8, 8), (16, 4)]);
}

#[test]
fn ranges_of_exact_multiple_have_no_remainder() {
    let r = chunks_ranges(16, 8);
    let got: Vec<(u64, u64)> = r.iter().map(|x| (x.start, x.size)).collect();
    assert_eq!(got, vec![(0, 8), (8, 8)]);
}

#[test]
fn ranges_of_empty_file_are_empty() {
    assert!(chunks_ranges(0, 8).is_empty());
}

#[test]
fn ranges_of_small_file_are_one_chunk() {
    let r = chunks_ranges(3, 128);
    assert_eq!(r.len(), 1);
    assert_eq!((r[0].start, r[0].size), (0, 3));
}

#[test]
fn two_files_rotate_when_the_cap_would_be_passed() {
    let (baks, splits) = pack(4, 10, &[b"hello", b"world!!"], 3);
    assert_eq!(baks.len(), 2);
    assert_eq!(baks[0], b"helloworl".to_vec());
    assert_eq!(baks[1], b"d!!".to_vec());
    let a: Vec<(i32, u64, u64)> = splits[0].chunks.iter().map(|c| (c.bak_n, c.offset, c.size)).collect();
    let b: Vec<(i32, u64, u64)> = splits[1].chunks.iter().map(|c| (c.bak_n, c.offset, c.size)).collect();
    assert_eq!(a, vec![(0, 0, 4), (0, 4, 1)]);
    assert_eq!(b, vec![(0, 5, 4), (1, 0, 3)]);
}

#[test]
fn full_baks_take_one_chunk_each() {
    let content: Vec<u8> = (0u8..20).collect();
    let (baks, splits) = pack(8, 8, &[&content], 5);
    let sizes: Vec<usize> = baks.iter().map(|b| b.len()).collect();
    assert_eq!(sizes, vec![8, 8, 4]);
    let placed: Vec<(i32, u64, u64)> = splits[0].chunks.iter().map(|c| (c.bak_n, c.offset, c.size)).collect();
    assert_eq!(placed, vec![(0, 0, 8), (1, 0, 8), (2, 0, 4)]);
}

#[test]
fn empty_file_gets_no_chunk_rows() {
    let (baks, splits) = pack(4, 10, &[b""], 4);
    assert_eq!(baks, vec![Vec::<u8>::new()]);
    assert_eq!(splits.len(), 1);
    assert!(splits[0].chunks.is_empty());
}

#[test]
fn rows_read_back_to_the_files_and_carry_their_hashes() {
    let files: Vec<Vec<u8>> = vec![
        b"the quick brown fox".to_vec(),
        (0u8..=255).collect(),
        b"x".to_vec(),
        vec![7u8; 64],
    ];
    let refs: Vec<&[u8]> = files.iter().map(|f| f.as_slice()).collect();
    let (baks, splits) = pack(16, 40, &refs, 7);
    for (f, s) in files.iter().zip(&splits) {
        let back = read_back(&baks, s);
        assert_eq!(&back, f);
        assert_eq!(s.file_hash, hash::Hash::of_bytes(f));
        for c in &s.chunks {
            let start = c.offset as usize;
            let bytes = &baks[c.bak_n as usize][start..start + c.size as usize];
            assert_eq!(c.hash, hash::Hash::of_bytes(bytes));
        }
        let n = s.chunks.len();
        for (j, c) in s.chunks.iter().enumerate() {
            if j + 1 < n {
                assert_eq!(c.size, 16);
            } else {
                assert!(c.size > 0 && c.size <= 16);
            }
        }
    }
    for b in &baks {
        assert!(b.len() <= 40);
    }
}

#[test]
fn rows_tile_each_bak_without_gaps() {
    let files: Vec<Vec<u8>> = vec![vec![1u8; 33], vec![2u8; 9], vec![3u8; 50]];
    let refs: Vec<&[u8]> = files.iter().map(|f| f.as_slice()).collect();
    let (baks, splits) = pack(10, 25, &refs, 10);
    let mut next: Vec<u64> = vec![0; baks.len()];
    for s in &splits {
        for c in &s.chunks {
            assert_eq!(c.offset, next[c.bak_n as usize]);
            next[c.bak_n as usize] += c.size;
        }
    }
    for (n, b) in baks.iter().enumerate() {
        assert_eq!(next[n], b.len() as u64);
    }
}

#[test]
fn chunk_table_lists_chunks_file_by_file() {
    let (_, splits) = pack(4, 10, &[b"hello", b"world!!"], 4);
    let rows = chunk_rows(&splits);
    assert_eq!(rows.len(), 4);
    assert_eq!(rows[0].file_hash, splits[0].file_hash.0);
    assert_eq!(rows[2].file_hash, splits[1].file_hash.0);
    let placed: Vec<(i32, u64, u64)> = rows.iter().map(|r| (r.bak_n, r.offset, r.size)).collect();
    assert_eq!(placed, vec![(0, 0, 4), (0, 4, 1), (0, 5, 4), (1, 0, 3)]);
    assert_eq!(rows[3].chunk_hash, hash::Hash::of_bytes(b"d!!").0);
}

#[test]
fn placement_reports_rotation() {
    let mut engine = PackEngine::new(4, 4);
    engine.begin_file(hash::Hash::of_bytes(b"abcdefgh"), 8);
    let p = engine.next_chunk().unwrap().unwrap();
    assert_eq!(p, Placement { bak_n: 0, offset: 0, size: 4, rotated: false });
    engine.absorb(b"abcd").unwrap();
    engine.finish_chunk().unwrap();
    let p = engine.next_chunk().unwrap().unwrap();
    assert_eq!(p, Placement { bak_n: 1, offset: 0, size: 4, rotated: true });
}

#[test]
fn too_many_bytes_for_a_chunk_are_refused() {
    let mut engine = PackEngine::new(4, 8);
    engine.begin_file(hash::Hash::of_bytes(b"abc"), 3);
    engine.next_chunk().unwrap().unwrap();
    assert_eq!(engine.absorb(b"abcd"), Err(PackError::ChunkOverrun));
    engine.absorb(b"ab").unwrap();
    assert_eq!(engine.absorb(b"cd"), Err(PackError::ChunkOverrun));
}

#[test]
fn short_chunk_is_refused() {
    let mut engine = PackEngine::new(4, 8);
    engine.begin_file(hash::Hash::of_bytes(b"abc"), 3);
    engine.next_chunk().unwrap().unwrap();
    engine.absorb(b"ab").unwrap();
    assert_eq!(engine.finish_chunk().unwrap_err(), PackError::ShortChunk);
    engine.absorb(b"c").unwrap();
    assert!(engine.finish_chunk().is_ok());
}

#[test]
fn file_closed_early_is_refused() {
    let mut engine = PackEngine::new(4, 8);
    engine.begin_file(hash::Hash::of_bytes(b"abcdef"), 6);
    engine.next_chunk().unwrap().unwrap();
    engine.absorb(b"abcd").unwrap();
    engine.finish_chunk().unwrap();
    assert_eq!(engine.end_file(), Err(PackError::FileIncomplete));
    assert!(engine.has_open_file());
}

#[test]
fn changed_content_is_refused() {
    let mut engine = PackEngine::new(4, 8);
    engine.begin_file(hash::Hash::of_bytes(b"abc"), 3);
    engine.next_chunk().unwrap().unwrap();
    engine.absorb(b"abd").unwrap();
    engine.finish_chunk().unwrap();
    assert!(engine.next_chunk().unwrap().is_none());
    assert_eq!(engine.end_file(), Err(PackError::FileHashMismatch));
}
