//! Content-defined chunking.
//!
//! Splits bytes at boundaries determined by the content rather than by offset,
//! so that inserting or removing bytes does not shift every subsequent boundary.

use vstd::prelude::*;

use crate::bytes::part;
use crate::digest;
use crate::digest::blake3_of;

verus! {

/// Chunk size bounds, in bytes.
pub const MIN_CHUNK: u32 = 131072;

pub const AVG_CHUNK: u32 = 524288;

pub const MAX_CHUNK: u32 = 2097152;

/// A content hash.
pub type ContentHash = [u8; 32];

/// One chunk's position within a file, and the hash of its contents.
#[derive(Debug, Clone, Copy, PartialEq, Eq)]
pub struct ChunkRef {
    pub hash: ContentHash,
    pub offset: u64,
    pub len: u32,
}

/// A file reduced to an ordered list of chunk references plus a whole-file hash.
///
/// The whole-file hash is what verifies a reassembled file end to end; the
/// chunk hashes alone would not catch chunks being reassembled in the wrong
/// order.
#[derive(Debug, Clone)]
pub struct Manifest {
    pub file_hash: ContentHash,
    pub size: u64,
    pub chunks: Vec<ChunkRef>,
}

/// Where FastCDC cuts `data`: offset and length of each chunk, in order.
pub uninterp spec fn fastcdc_cuts(data: Seq<u8>, min: int, avg: int, max: int) -> Seq<
    (usize, usize),
>;

/// The cuts lie one behind the other and together cover `len` bytes.
pub open spec fn covers(cuts: Seq<(usize, usize)>, len: int) -> bool {
    &&& cuts.len() == 0 ==> len == 0
    &&& cuts.len() > 0 ==> cuts[0].0 == 0 && cuts.last().0 + cuts.last().1 == len
    &&& forall|i: int|
        #![trigger cuts[i]]
        0 <= i < cuts.len() ==> cuts[i].1 > 0 && cuts[i].0 + cuts[i].1 <= len
    &&& forall|i: int, j: int|
        #![trigger cuts[i], cuts[j]]
        0 <= i && j == i + 1 && j < cuts.len() ==> cuts[i].0 + cuts[i].1 == cuts[j].0
}

/// `fastcdc::v2020::FastCDC`: where the data is cut depends on the data and the
/// three sizes alone. The chunks follow each other from the first byte to the
/// last, none is empty, none is longer than the greatest size, and only the last
/// may be shorter than the least.
#[verifier::external_body]
pub(crate) fn cut(data: &[u8], min: u32, avg: u32, max: u32) -> (cuts: Vec<(usize, usize)>)
    requires
        64 <= min <= 1_048_576,
        256 <= avg <= 4_194_304,
        1024 <= max <= 16_777_216,
        min <= avg <= max,
        min % 2 == 0,
    ensures
        cuts@ == fastcdc_cuts(data@, min as int, avg as int, max as int),
        covers(cuts@, data@.len() as int),
        forall|i: int| #![trigger cuts@[i]] 0 <= i < cuts@.len() ==> cuts@[i].1 <= max,
        forall|i: int| #![trigger cuts@[i]] 0 <= i < cuts@.len() - 1 ==> cuts@[i].1 >= min,
{
    fastcdc::v2020::FastCDC::new(data, min, avg, max).map(|c| (c.offset, c.length)).collect()
}

/// The chunks of `data` between the cuts, each with its hash.
pub open spec fn is_manifest(m: Manifest, data: Seq<u8>, cuts: Seq<(usize, usize)>) -> bool {
    &&& m.file_hash@ == digest::blake3_digest(data)
    &&& m.size == data.len()
    &&& m.chunks@.len() == cuts.len()
    &&& forall|i: int|
        #![trigger m.chunks@[i]]
        0 <= i < cuts.len() ==> {
            &&& m.chunks@[i].offset == cuts[i].0
            &&& m.chunks@[i].len == cuts[i].1
            &&& m.chunks@[i].hash@ == digest::blake3_digest(
                data.subrange(cuts[i].0 as int, cuts[i].0 + cuts[i].1),
            )
        }
}

/// Chunk a buffer.
pub fn chunk_bytes(data: &[u8]) -> (manifest: Manifest)
    ensures
        manifest_for(manifest, data@),
        covers(
            fastcdc_cuts(data@, MIN_CHUNK as int, AVG_CHUNK as int, MAX_CHUNK as int),
            data@.len() as int,
        ),
        forall|i: int|
            #![trigger manifest.chunks@[i]]
            0 <= i < manifest.chunks@.len() ==> manifest.chunks@[i].len <= MAX_CHUNK,
        forall|i: int|
            #![trigger manifest.chunks@[i]]
            0 <= i < manifest.chunks@.len() - 1 ==> manifest.chunks@[i].len >= MIN_CHUNK,
{
    let cuts: Vec<(usize, usize)> = cut(data, MIN_CHUNK, AVG_CHUNK, MAX_CHUNK);
    let manifest: Manifest = manifest_of(data, &cuts);
    proof {
        covered_once(manifest, data@, cuts@, cuts@.len() as int);
    }
    manifest
}

/// The manifest of a buffer, given where it is cut.
pub fn manifest_of(data: &[u8], cuts: &Vec<(usize, usize)>) -> (manifest: Manifest)
    requires
        forall|i: int|
            #![trigger cuts@[i]]
            0 <= i < cuts@.len() ==> cuts@[i].0 + cuts@[i].1 <= data@.len() && cuts@[i].1
                <= u32::MAX,
    ensures
        is_manifest(manifest, data@, cuts@),
{
    let mut chunks: Vec<ChunkRef> = Vec::new();
    let mut i: usize = 0;
    while i < cuts.len()
        invariant
            i <= cuts@.len(),
            chunks@.len() == i,
            forall|j: int|
                #![trigger cuts@[j]]
                0 <= j < cuts@.len() ==> cuts@[j].0 + cuts@[j].1 <= data@.len() && cuts@[j].1
                    <= u32::MAX,
            forall|j: int|
                #![trigger chunks@[j]]
                0 <= j < i ==> {
                    &&& chunks@[j].offset == cuts@[j].0
                    &&& chunks@[j].len == cuts@[j].1
                    &&& chunks@[j].hash@ == digest::blake3_digest(
                        data@.subrange(cuts@[j].0 as int, cuts@[j].0 + cuts@[j].1),
                    )
                },
        decreases cuts@.len() - i,
    {
        let (offset, len) = cuts[i];
        let bytes: &[u8] = part(data, offset, len);
        chunks.push(ChunkRef { hash: blake3_of(bytes), offset: offset as u64, len: len as u32 });
        i += 1;
    }
    Manifest { file_hash: blake3_of(data), size: data.len() as u64, chunks }
}

/// The bytes of the first `n` chunks of `data`, one behind the other.
pub open spec fn laid_out(m: Manifest, data: Seq<u8>, n: int) -> Seq<u8>
    decreases n,
{
    if n <= 0 {
        Seq::empty()
    } else {
        let c = m.chunks@[n - 1];
        laid_out(m, data, n - 1) + data.subrange(c.offset as int, c.offset + c.len)
    }
}

/// A manifest that describes `data`: its chunks cover the data exactly once, in
/// order, and every hash is right.
pub open spec fn chunked(m: Manifest, data: Seq<u8>) -> bool {
    &&& m.file_hash@ == digest::blake3_digest(data)
    &&& m.size == data.len()
    &&& laid_out(m, data, m.chunks@.len() as int) == data
    &&& forall|i: int|
        #![trigger m.chunks@[i]]
        0 <= i < m.chunks@.len() ==> {
            let c = m.chunks@[i];
            &&& c.len > 0
            &&& c.offset + c.len <= data.len()
            &&& c.hash@ == digest::blake3_digest(data.subrange(c.offset as int, c.offset + c.len))
        }
}

proof fn covered_once(m: Manifest, data: Seq<u8>, cuts: Seq<(usize, usize)>, n: int)
    requires
        is_manifest(m, data, cuts),
        covers(cuts, data.len() as int),
        0 <= n <= cuts.len(),
    ensures
        laid_out(m, data, n) == data.take(
            if n == 0 {
                0
            } else {
                cuts[n - 1].0 + cuts[n - 1].1
            },
        ),
        n == cuts.len() ==> laid_out(m, data, n) == data,
    decreases n,
{
    if n > 0 {
        covered_once(m, data, cuts, n - 1);
        let c = m.chunks@[n - 1];
        assert(cuts[n - 1].0 == c.offset && cuts[n - 1].1 == c.len);
        if n > 1 {
            assert(cuts[n - 2].0 + cuts[n - 2].1 == cuts[n - 1].0);
        }
        assert(data.take(c.offset as int) + data.subrange(c.offset as int, c.offset + c.len)
            =~= data.take(c.offset + c.len));
        if n == cuts.len() {
            assert(data.take(data.len() as int) =~= data);
        }
    } else {
        assert(data.take(0) =~= Seq::<u8>::empty());
        if cuts.len() == 0 {
            assert(data =~= Seq::<u8>::empty());
        }
    }
}

/// The manifest that `data` gets.
pub open spec fn manifest_for(m: Manifest, data: Seq<u8>) -> bool {
    &&& is_manifest(
        m,
        data,
        fastcdc_cuts(data, MIN_CHUNK as int, AVG_CHUNK as int, MAX_CHUNK as int),
    )
    &&& chunked(m, data)
}

} // verus!
