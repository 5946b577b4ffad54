use droplet_rs::manifest::{
    chunk_record, finish_manifest, new_chunk, new_chunk_id, ChunkData, FileEntry, ManifestBuilder,
    ManifestError,
};
use droplet_rs::planner::Slice;
use droplet_rs::types::VersionFile;

const ABC_SHA256: &str = "ba7816bf8f01cfea414140de5dae2223b00361a396177a9cb410ff61f20015ad";
const EMPTY_SHA256: &str = "e3b0c44298fc1c149afbf4c8996fb92427ae41e4649b934ca495991b7852b855";

fn files() -> Vec<VersionFile> {
    vec![
        VersionFile { relative_filename: "bin/game".to_string(), permission: 0o755, size: 2 },
        VersionFile { relative_filename: "data.pak".to_string(), permission: 0o644, size: 1 },
    ]
}

fn record_of(lengths: &[usize]) -> ChunkData {
    ChunkData {
        files: lengths
            .iter()
            .map(|l| FileEntry { filename: "f".to_string(), start: 0, length: *l, permissions: 0 })
            .collect(),
        checksum: String::new(),
        iv: [0; 16],
    }
}

#[test]
fn record_lists_slices_and_digests_the_payload() {
    let chunk = vec![Slice { file: 1, start: 0, length: 1 }, Slice { file: 0, start: 0, length: 2 }];
    let parts = vec![b"a".to_vec(), b"bc".to_vec()];
    let iv = [7u8; 16];
    let r = chunk_record(&chunk, &files(), &parts, iv);
    assert_eq!(r.checksum, ABC_SHA256);
    assert_eq!(r.iv, iv);
    assert_eq!(r.files.len(), 2);
    assert_eq!(r.files[0].filename, "data.pak");
    assert_eq!(r.files[0].permissions, 0o644);
    assert_eq!((r.files[0].start, r.files[0].length), (0, 1));
    assert_eq!(r.files[1].filename, "bin/game");
    assert_eq!(r.files[1].permissions, 0o755);
    assert_eq!((r.files[1].start, r.files[1].length), (0, 2));
}

#[test]
fn digest_depends_on_concatenation_only() {
    let chunk = vec![Slice { file: 0, start: 0, length: 2 }, Slice { file: 1, start: 0, length: 1 }];
    let a = chunk_record(&chunk, &files(), &vec![b"ab".to_vec(), b"c".to_vec()], [0; 16]);
    let b = chunk_record(&chunk, &files(), &vec![b"abc".to_vec(), Vec::new()], [0; 16]);
    assert_eq!(a.checksum, b.checksum);
    assert_eq!(a.checksum, ABC_SHA256);
}

#[test]
fn empty_payload_digest() {
    let chunk = vec![Slice { file: 0, start: 0, length: 0 }];
    let r = chunk_record(&chunk, &files(), &vec![Vec::new()], [0; 16]);
    assert_eq!(r.checksum, EMPTY_SHA256);
}

#[test]
fn new_chunk_draws_a_version_four_id() {
    let chunk = vec![Slice { file: 0, start: 0, length: 2 }];
    let (id, data) = new_chunk(&chunk, &files(), &vec![b"hi".to_vec()]).unwrap();
    assert_eq!((id >> 76) & 0xf, 4);
    assert_eq!((id >> 62) & 0x3, 2);
    assert_eq!(data.checksum.len(), 64);
    let other = new_chunk_id().unwrap();
    assert_ne!(id, other);
}

#[test]
fn builder_sums_payload_lengths() {
    let mut b = ManifestBuilder::new();
    assert_eq!(b.insert(1, record_of(&[10, 20])), Ok(()));
    assert_eq!(b.insert(2, record_of(&[5])), Ok(()));
    assert_eq!(b.total, 35);
    let m = b.finish([9; 16]);
    assert_eq!(m.version, "2");
    assert_eq!(m.size, 35);
    assert_eq!(m.key, [9; 16]);
    let sum: usize = m.chunks.iter().flat_map(|c| c.1.files.iter()).map(|f| f.length).sum();
    assert_eq!(sum as u64, m.size);
}

#[test]
fn builder_refuses_a_repeated_id() {
    let mut b = ManifestBuilder::new();
    assert_eq!(b.insert(7, record_of(&[1])), Ok(()));
    assert_eq!(b.insert(7, record_of(&[2])), Err(ManifestError::DuplicateChunkId));
    assert_eq!(b.chunks.len(), 1);
    assert_eq!(b.total, 1);
    assert!(b.contains(7));
    assert!(!b.contains(8));
}

#[test]
fn builder_refuses_a_total_past_u64() {
    let mut b = ManifestBuilder::new();
    assert_eq!(b.insert(1, record_of(&[usize::MAX])), Ok(()));
    assert_eq!(b.insert(2, record_of(&[1])), Err(ManifestError::SizeOverflow));
    assert_eq!(b.total, usize::MAX as u64);
    assert_eq!(b.chunks.len(), 1);
}

#[test]
fn finished_manifest_has_unique_ids() {
    let mut b = ManifestBuilder::new();
    for id in 0..5u128 {
        assert_eq!(b.insert(id, record_of(&[1])), Ok(()));
    }
    let m = finish_manifest(b).unwrap();
    assert_eq!(m.size, 5);
    let mut ids: Vec<u128> = m.chunks.iter().map(|c| c.0).collect();
    ids.sort();
    ids.dedup();
    assert_eq!(ids.len(), 5);
}
