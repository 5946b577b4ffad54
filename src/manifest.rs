use vstd::prelude::*;

use sha2::Digest as _;

use crate::planner::Slice;
use crate::types::VersionFile;

verus! {

/// Where one slice of a file sits inside a chunk's payload.
#[derive(Clone, Debug)]
pub struct FileEntry {
    pub filename: String,
    pub start: usize,
    pub length: usize,
    pub permissions: u32,
}

/// One digested chunk: its file entries in payload order, the hex-encoded
/// SHA-256 digest of its payload, and the IV reserved for encrypting it.
#[derive(Clone, Debug)]
pub struct ChunkData {
    pub files: Vec<FileEntry>,
    pub checksum: String,
    pub iv: [u8; 16],
}

/// Why a chunk or a manifest could not be produced.
#[derive(Clone, Copy, Debug, PartialEq, Eq, Structural)]
pub enum ManifestError {
    /// The system's secure random source failed.
    Randomness,
    /// Two chunks drew the same identifier.
    DuplicateChunkId,
    /// The total payload size does not fit in 64 bits.
    SizeOverflow,
}

#[verifier::external_type_specification]
#[verifier::external_body]
pub struct ExRandomError(getrandom::Error);

// ---------------------------------------------------------------------
// Digest and encoding.

/// The SHA-256 digest of a byte sequence.
pub uninterp spec fn sha256_of(data: Seq<u8>) -> Seq<u8>;

pub open spec fn hex_digits() -> Seq<char> {
    seq!['0', '1', '2', '3', '4', '5', '6', '7', '8', '9', 'a', 'b', 'c', 'd', 'e', 'f']
}

/// Two lower-case hex digits per byte, high nibble first.
pub open spec fn hex_lower(b: Seq<u8>) -> Seq<char>
    decreases b.len(),
{
    if b.len() == 0 {
        seq![]
    } else {
        hex_lower(b.drop_last()) + seq![
            hex_digits()[b.last() as int / 16],
            hex_digits()[b.last() as int % 16],
        ]
    }
}

/// Relies on sha2's `Sha256::digest`: the digest of exactly the given bytes.
#[verifier::external_body]
fn sha256(data: &Vec<u8>) -> (r: Vec<u8>)
    ensures
        r@ == sha256_of(data@),
{
    sha2::Sha256::digest(data.as_slice()).to_vec()
}

/// Relies on `hex::encode`: two lower-case digits per byte, in order.
#[verifier::external_body]
fn to_hex(b: &Vec<u8>) -> (r: String)
    ensures
        r@ == hex_lower(b@),
{
    hex::encode(b)
}

// ---------------------------------------------------------------------
// Randomness and identifiers.

/// Relies on `getrandom::fill`: sixteen bytes from the system's secure
/// random source, or its error. Nothing is known of the bytes.
#[verifier::external_body]
fn random_block() -> (r: Result<[u8; 16], getrandom::Error>) {
    let mut block = [0u8; 16];
    match getrandom::fill(&mut block) {
        Ok(()) => Ok(block),
        Err(e) => Err(e),
    }
}

/// The bytes of a random (version 4, RFC 4122 variant) UUID built from
/// sixteen random bytes.
pub open spec fn v4_bytes(b: Seq<u8>) -> Seq<u8> {
    b.update(6, (b[6] & 0x0fu8) | 0x40u8).update(8, (b[8] & 0x3fu8) | 0x80u8)
}

/// A byte sequence read as a big-endian number.
pub open spec fn big_endian(b: Seq<u8>) -> nat
    decreases b.len(),
{
    if b.len() == 0 {
        0
    } else {
        (big_endian(b.drop_last()) * 256 + b.last()) as nat
    }
}

/// Relies on uuid's `Builder::from_random_bytes` (sets the version nibble
/// of byte 6 to 4 and the top bits of byte 8 to the RFC 4122 variant) and
/// `Uuid::as_u128` (the sixteen bytes read big-endian).
#[verifier::external_body]
fn uuid_v4(bytes: [u8; 16]) -> (r: u128)
    ensures
        r as nat == big_endian(v4_bytes(bytes@)),
{
    uuid::Builder::from_random_bytes(bytes).into_uuid().as_u128()
}

/// Draws sixteen bytes from the system's secure random source.
pub fn random_bytes() -> (r: Result<[u8; 16], ManifestError>)
    ensures
        r is Err ==> r == Err::<[u8; 16], ManifestError>(ManifestError::Randomness),
{
    match random_block() {
        Ok(b) => Ok(b),
        Err(_) => Err(ManifestError::Randomness),
    }
}

/// Draws a fresh random chunk identifier, a version 4 UUID.
pub fn new_chunk_id() -> (r: Result<u128, ManifestError>)
    ensures
        r is Err ==> r == Err::<u128, ManifestError>(ManifestError::Randomness),
        r is Ok ==> exists|b: Seq<u8>| b.len() == 16 && r->Ok_0 as nat == big_endian(#[trigger] v4_bytes(b)),
{
    let b = random_bytes()?;
    let id = uuid_v4(b);
    proof {
        assert(b@.len() == 16);
        assert(id as nat == big_endian(v4_bytes(b@)));
    }
    Ok(id)
}

// ---------------------------------------------------------------------
// Chunk records.

pub open spec fn entry_of(s: Slice, f: VersionFile) -> FileEntry {
    FileEntry {
        filename: f.relative_filename,
        start: s.start as usize,
        length: s.length as usize,
        permissions: f.permission,
    }
}

/// The byte sequences of `parts`, one after the other.
pub open spec fn concat(parts: Seq<Seq<u8>>) -> Seq<u8>
    decreases parts.len(),
{
    if parts.len() == 0 {
        seq![]
    } else {
        concat(parts.drop_last()) + parts.last()
    }
}

pub open spec fn parts_view(parts: Seq<Vec<u8>>) -> Seq<Seq<u8>> {
    parts.map_values(|p: Vec<u8>| p@)
}

/// Every slice names one of `files`, and its offsets fit in a `usize`.
pub open spec fn slices_fit(chunk: Seq<Slice>, files: Seq<VersionFile>) -> bool {
    forall|j: int|
        0 <= j < chunk.len() ==> (#[trigger] chunk[j]).file < files.len() && chunk[j].start
            <= usize::MAX && chunk[j].length <= usize::MAX
}

/// `d` records the slices of `chunk`, in order, and the digest of the
/// payload whose pieces are `parts`.
pub open spec fn records(
    d: ChunkData,
    chunk: Seq<Slice>,
    files: Seq<VersionFile>,
    parts: Seq<Seq<u8>>,
) -> bool {
    &&& d.files@.len() == chunk.len()
    &&& forall|j: int|
        0 <= j < chunk.len() ==> (#[trigger] d.files@[j]) == entry_of(
            chunk[j],
            files[chunk[j].file as int],
        )
    &&& d.checksum@ == hex_lower(sha256_of(concat(parts)))
}

/// The record of one chunk: one entry per slice, in order, with the file's
/// name and permissions; the hex SHA-256 of the payload, the pieces of
/// `parts` one after the other (the bytes of each slice, in order); and `iv`.
pub fn chunk_record(
    chunk: &Vec<Slice>,
    files: &Vec<VersionFile>,
    parts: &Vec<Vec<u8>>,
    iv: [u8; 16],
) -> (r: ChunkData)
    requires
        slices_fit(chunk@, files@),
    ensures
        records(r, chunk@, files@, parts_view(parts@)),
        r.iv == iv,
{
    let mut entries: Vec<FileEntry> = Vec::new();
    let mut j: usize = 0;
    while j < chunk.len()
        invariant
            0 <= j <= chunk.len(),
            slices_fit(chunk@, files@),
            entries@.len() == j,
            forall|q: int|
                0 <= q < j ==> (#[trigger] entries@[q]) == entry_of(
                    chunk@[q],
                    files@[chunk@[q].file as int],
                ),
        decreases chunk.len() - j,
    {
        let s = chunk[j];
        let f = &files[s.file];
        entries.push(
            FileEntry {
                filename: f.relative_filename.clone(),
                start: s.start as usize,
                length: s.length as usize,
                permissions: f.permission,
            },
        );
        j = j + 1;
    }
    let mut payload: Vec<u8> = Vec::new();
    let mut p: usize = 0;
    proof {
        assert(concat(parts_view(parts@).take(0)) =~= payload@);
    }
    while p < parts.len()
        invariant
            0 <= p <= parts.len(),
            payload@ == concat(parts_view(parts@).take(p as int)),
        decreases parts.len() - p,
    {
        let part = &parts[p];
        let ghost before = payload@;
        let mut b: usize = 0;
        while b < part.len()
            invariant
                0 <= b <= part.len(),
                payload@ == before + part@.take(b as int),
            decreases part.len() - b,
        {
            payload.push(part[b]);
            proof {
                assert(part@.take(b + 1) =~= part@.take(b as int).push(part@[b as int]));
                assert(payload@ =~= before + part@.take(b + 1));
            }
            b = b + 1;
        }
        proof {
            let pv = parts_view(parts@);
            assert(pv.take(p + 1).drop_last() =~= pv.take(p as int));
            assert(part@.take(b as int) =~= part@);
        }
        p = p + 1;
    }
    proof {
        assert(parts_view(parts@).take(p as int) =~= parts_view(parts@));
    }
    let digest = sha256(&payload);
    ChunkData { files: entries, checksum: to_hex(&digest), iv }
}

/// Digests one chunk: draws its identifier and IV from the secure random
/// source, then records it as `chunk_record` does. Fails only when the
/// random source fails.
pub fn new_chunk(
    chunk: &Vec<Slice>,
    files: &Vec<VersionFile>,
    parts: &Vec<Vec<u8>>,
) -> (r: Result<(u128, ChunkData), ManifestError>)
    requires
        slices_fit(chunk@, files@),
    ensures
        r is Ok ==> records(r->Ok_0.1, chunk@, files@, parts_view(parts@)),
        r is Err ==> r->Err_0 == ManifestError::Randomness,
{
    let id = new_chunk_id()?;
    let iv = random_bytes()?;
    Ok((id, chunk_record(chunk, files, parts, iv)))
}

// ---------------------------------------------------------------------
// The manifest.

/// The payload length that a list of entries declares.
pub open spec fn entries_len(e: Seq<FileEntry>) -> int
    decreases e.len(),
{
    if e.len() == 0 {
        0
    } else {
        entries_len(e.drop_last()) + e.last().length
    }
}

pub open spec fn payload_len(d: ChunkData) -> int {
    entries_len(d.files@)
}

/// The sum of the payload lengths of all chunks.
pub open spec fn total_len(chunks: Seq<(u128, ChunkData)>) -> int
    decreases chunks.len(),
{
    if chunks.len() == 0 {
        0
    } else {
        total_len(chunks.drop_last()) + payload_len(chunks.last().1)
    }
}

pub open spec fn ids_unique(chunks: Seq<(u128, ChunkData)>) -> bool {
    forall|j: int, k: int| 0 <= j < k < chunks.len() ==> (#[trigger] chunks[j]).0 != (#[trigger] chunks[k]).0
}

pub open spec fn has_id(chunks: Seq<(u128, ChunkData)>, id: u128) -> bool {
    exists|j: int| 0 <= j < chunks.len() && (#[trigger] chunks[j]).0 == id
}

proof fn lemma_entries_len_prefix(e: Seq<FileEntry>, j: int)
    requires
        0 <= j <= e.len(),
    ensures
        0 <= entries_len(e.take(j)) <= entries_len(e),
    decreases e.len(),
{
    if j < e.len() {
        assert(e.drop_last().take(j) =~= e.take(j));
        lemma_entries_len_prefix(e.drop_last(), j);
    } else {
        assert(e.take(j) =~= e);
        if e.len() > 0 {
            lemma_entries_len_prefix(e.drop_last(), e.len() - 1);
            assert(e.drop_last().take(e.len() - 1) =~= e.drop_last());
        }
    }
}

/// The finished manifest: format version, the chunks under their
/// identifiers, the total payload size and a key reserved for encryption.
pub struct Manifest {
    pub version: String,
    pub chunks: Vec<(u128, ChunkData)>,
    pub size: u64,
    pub key: [u8; 16],
}

/// Collects digested chunks as they complete, in any order, and keeps the
/// running total of their payload sizes.
pub struct ManifestBuilder {
    pub chunks: Vec<(u128, ChunkData)>,
    pub total: u64,
}

impl ManifestBuilder {
    /// No identifier twice, and the running total is the payload sum.
    pub open spec fn wf(&self) -> bool {
        &&& ids_unique(self.chunks@)
        &&& self.total == total_len(self.chunks@)
    }

    pub fn new() -> (r: ManifestBuilder)
        ensures
            r.wf(),
            r.chunks@.len() == 0,
            r.total == 0,
    {
        ManifestBuilder { chunks: Vec::new(), total: 0 }
    }

    pub fn contains(&self, id: u128) -> (r: bool)
        ensures
            r == has_id(self.chunks@, id),
    {
        let mut j: usize = 0;
        while j < self.chunks.len()
            invariant
                0 <= j <= self.chunks.len(),
                forall|q: int| 0 <= q < j ==> (#[trigger] self.chunks@[q]).0 != id,
            decreases self.chunks.len() - j,
        {
            if self.chunks[j].0 == id {
                return true;
            }
            j = j + 1;
        }
        false
    }

    /// Adds a chunk under `id` and adds its payload length to the total.
    /// Refuses an identifier already present, and a total past `u64::MAX`;
    /// a refusal changes nothing.
    pub fn insert(&mut self, id: u128, data: ChunkData) -> (r: Result<(), ManifestError>)
        requires
            old(self).wf(),
        ensures
            final(self).wf(),
            r is Ok <==> !has_id(old(self).chunks@, id) && old(self).total + payload_len(data)
                <= u64::MAX,
            r == Err::<(), ManifestError>(ManifestError::DuplicateChunkId) <==> has_id(
                old(self).chunks@,
                id,
            ),
            r == Err::<(), ManifestError>(ManifestError::SizeOverflow) <==> !has_id(
                old(self).chunks@,
                id,
            ) && old(self).total + payload_len(data) > u64::MAX,
            r is Ok ==> final(self).chunks@ == old(self).chunks@.push((id, data))
                && final(self).total == old(self).total + payload_len(data),
            r is Err ==> *final(self) == *old(self),
    {
        if self.contains(id) {
            return Err(ManifestError::DuplicateChunkId);
        }
        let mut acc: u64 = 0;
        let mut j: usize = 0;
        while j < data.files.len()
            invariant
                0 <= j <= data.files.len(),
                acc == entries_len(data.files@.take(j as int)),
                self.total + acc <= u64::MAX,
                *self == *old(self),
                self.wf(),
                !has_id(self.chunks@, id),
            decreases data.files.len() - j,
        {
            let len = data.files[j].length as u64;
            proof {
                assert(data.files@.take(j + 1).drop_last() =~= data.files@.take(j as int));
                lemma_entries_len_prefix(data.files@, j + 1);
            }
            if len > u64::MAX - self.total - acc {
                return Err(ManifestError::SizeOverflow);
            }
            acc = acc + len;
            j = j + 1;
        }
        proof {
            assert(data.files@.take(j as int) =~= data.files@);
        }
        let ghost before = self.chunks@;
        self.total = self.total + acc;
        self.chunks.push((id, data));
        proof {
            assert(self.chunks@.drop_last() =~= before);
            assert forall|a: int, b: int|
                0 <= a < b < self.chunks@.len() implies (#[trigger] self.chunks@[a]).0
                != (#[trigger] self.chunks@[b]).0 by {
                if b == before.len() {
                    assert(self.chunks@[a] == before[a]);
                } else {
                    assert(self.chunks@[a] == before[a] && self.chunks@[b] == before[b]);
                }
            }
        }
        Ok(())
    }

    /// The manifest, version "2": the collected chunks, the running total as
    /// its size, which is the sum of their payload lengths, and `key`.
    pub fn finish(self, key: [u8; 16]) -> (r: Manifest)
        requires
            self.wf(),
        ensures
            r.version@ == "2"@,
            r.chunks@ == self.chunks@,
            r.size == self.total,
            r.key == key,
            r.size == total_len(r.chunks@),
            ids_unique(r.chunks@),
    {
        Manifest { version: "2".to_owned(), chunks: self.chunks, size: self.total, key }
    }
}

/// Finishes a manifest with a fresh key from the secure random source.
/// Fails only when that source fails.
pub fn finish_manifest(builder: ManifestBuilder) -> (r: Result<Manifest, ManifestError>)
    requires
        builder.wf(),
    ensures
        r is Ok ==> r->Ok_0.chunks@ == builder.chunks@ && r->Ok_0.size == builder.total
            && r->Ok_0.size == total_len(r->Ok_0.chunks@) && ids_unique(r->Ok_0.chunks@)
            && r->Ok_0.version@ == "2"@,
        r is Err ==> r->Err_0 == ManifestError::Randomness,
{
    let key = random_bytes()?;
    Ok(builder.finish(key))
}

} // verus!
