//! Measuring what chunking costs and buys.

use vstd::prelude::*;

use crate::digest;
use crate::digest::blake3_of;
use crate::order::same_bytes;
use crate::size;
use crate::size::{held_of, nearest_of, unit_of};
use crate::storage::chunker;
use crate::storage::chunker::{cut, ChunkRef, ContentHash, Manifest};
use crate::storage::db;
use crate::storage::db::has_hash;
use crate::bytes::{append, part};
use crate::text::{decimal_of, hex_of, zero_padded_of};
use crate::text;

verus! {

/// What storing chunks came to.
#[derive(Debug, Clone, Copy, PartialEq, Eq, Structural)]
pub struct WriteStats {
    pub written: u64,
    pub deduped: u64,
    pub bytes_written: u64,
    pub bytes_deduped: u64,
}

impl Default for WriteStats {
    fn default() -> (stats: Self)
        ensures
            stats == (WriteStats { written: 0, deduped: 0, bytes_written: 0, bytes_deduped: 0 }),
    {
        WriteStats { written: 0, deduped: 0, bytes_written: 0, bytes_deduped: 0 }
    }
}

/// Whether a chunk is new when its turn comes: it was not held before, and no
/// earlier chunk of the list is the same.
pub open spec fn is_new(list: Seq<ChunkRef>, held: Seq<Seq<u8>>, i: int) -> bool {
    !held.contains(list[i].hash@) && !exists|j: int|
        0 <= j < i && (#[trigger] list[j]).hash@ == list[i].hash@
}

/// What storing the first `n` chunks comes to: chunks written and not, bytes
/// written and not.
pub open spec fn tally(list: Seq<ChunkRef>, held: Seq<Seq<u8>>, n: int) -> (nat, nat, nat, nat)
    decreases n,
{
    if n <= 0 {
        (0, 0, 0, 0)
    } else {
        let (a, b, c, d) = tally(list, held, n - 1);
        let len = list[n - 1].len as nat;
        if is_new(list, held, n - 1) {
            (a + 1, b, c + len, d)
        } else {
            (a, b + 1, c, d + len)
        }
    }
}

proof fn tally_bounds(list: Seq<ChunkRef>, held: Seq<Seq<u8>>, n: int)
    requires
        0 <= n <= list.len(),
    ensures
        tally(list, held, n).0 + tally(list, held, n).1 == n,
        tally(list, held, n).2 + tally(list, held, n).3 <= n * 0xffff_ffff,
    decreases n,
{
    if n > 0 {
        tally_bounds(list, held, n - 1);
    }
}

/// What storing a file's chunks comes to, given what is held already.
pub fn ingest(manifest: &Manifest, held: &Vec<ContentHash>) -> (stats: WriteStats)
    requires
        manifest.chunks@.len() <= 0xffff_ffff,
    ensures
        ({
            let n = manifest.chunks@.len() as int;
            let t = tally(manifest.chunks@, db::hashes(held@), n);
            stats.written == t.0 && stats.deduped == t.1 && stats.bytes_written == t.2
                && stats.bytes_deduped == t.3
        }),
{
    let list: &Vec<ChunkRef> = &manifest.chunks;
    let ghost h = db::hashes(held@);
    let mut stats: WriteStats = WriteStats::default();
    let mut i: usize = 0;
    while i < list.len()
        invariant
            i <= list@.len() <= 0xffff_ffff,
            h == db::hashes(held@),
            stats.written == tally(list@, h, i as int).0,
            stats.deduped == tally(list@, h, i as int).1,
            stats.bytes_written == tally(list@, h, i as int).2,
            stats.bytes_deduped == tally(list@, h, i as int).3,
        decreases list@.len() - i,
    {
        proof {
            tally_bounds(list@, h, i as int);
            tally_bounds(list@, h, i + 1);
        }
        let len: u64 = list[i].len as u64;
        if !has_hash(held, &list[i].hash) && !came_before(list, i) {
            stats.written = stats.written + 1;
            stats.bytes_written = stats.bytes_written + len;
        } else {
            stats.deduped = stats.deduped + 1;
            stats.bytes_deduped = stats.bytes_deduped + len;
        }
        i += 1;
    }
    stats
}

/// Whether an earlier chunk of the list is the same.
fn came_before(list: &Vec<ChunkRef>, i: usize) -> (yes: bool)
    requires
        i < list@.len(),
    ensures
        yes == exists|j: int| 0 <= j < i && (#[trigger] list@[j]).hash@ == list@[i as int].hash@,
{
    let mut j: usize = 0;
    while j < i
        invariant
            j <= i < list@.len(),
            forall|k: int| 0 <= k < j ==> (#[trigger] list@[k]).hash@ != list@[i as int].hash@,
        decreases i - j,
    {
        if same_bytes(&list[j].hash, &list[i].hash) {
            assert(list@[j as int].hash@ == list@[i as int].hash@);
            return true;
        }
        j += 1;
    }
    false
}

impl Manifest {
    /// The hashes of the chunks, each once, in the order in which they first
    /// come.
    pub fn distinct_chunks(&self) -> (out: Vec<ContentHash>)
        ensures
            db::hashes(out@).no_duplicates(),
            forall|h: Seq<u8>| #[trigger]
                db::hashes(out@).contains(h) <==> exists|i: int|
                    0 <= i < self.chunks@.len() && (#[trigger] self.chunks@[i]).hash@ == h,
    {
        let ghost list = self.chunks@;
        let mut out: Vec<ContentHash> = Vec::new();
        let mut i: usize = 0;
        while i < self.chunks.len()
            invariant
                i <= self.chunks@.len(),
                list == self.chunks@,
                db::hashes(out@).no_duplicates(),
                forall|k: int|
                    #![trigger out@[k]]
                    0 <= k < out@.len() ==> exists|j: int|
                        0 <= j < list.len() && (#[trigger] list[j]).hash@ == out@[k]@,
                forall|j: int|
                    #![trigger list[j]]
                    0 <= j < i ==> db::hashes(out@).contains(list[j].hash@),
            decreases self.chunks@.len() - i,
        {
            let hash: ContentHash = self.chunks[i].hash;
            assert(list[i as int].hash@ == hash@);
            if !has_hash(&out, &hash) {
                let ghost before = db::hashes(out@);
                out.push(hash);
                proof {
                    let after = before.push(hash@);
                    assert(db::hashes(out@) =~= after);
                    assert(after[before.len() as int] == hash@);
                    assert forall|g: Seq<u8>| #[trigger] before.contains(g) implies after.contains(
                        g,
                    ) by {
                        let n = choose|n: int| 0 <= n < before.len() && before[n] == g;
                        assert(after[n] == g);
                    }
                }
            }
            i += 1;
        }
        proof {
            let all = db::hashes(out@);
            assert forall|h: Seq<u8>| #[trigger] all.contains(h) <==> exists|i: int|
                0 <= i < list.len() && (#[trigger] list[i]).hash@ == h by {
                if all.contains(h) {
                    let k = choose|k: int| 0 <= k < all.len() && all[k] == h;
                    assert(out@[k]@ == h);
                }
            }
        }
        out
    }
}

/// How many of a list stand in another.
pub open spec fn shared_count(a: Seq<Seq<u8>>, b: Seq<Seq<u8>>) -> nat
    decreases a.len(),
{
    if a.len() == 0 {
        0
    } else {
        shared_count(a.drop_last(), b) + if b.contains(a.last()) {
            1nat
        } else {
            0
        }
    }
}

/// How many chunks survive an edit.
pub fn survived(before: &Vec<ContentHash>, after: &Vec<ContentHash>) -> (n: usize)
    ensures
        n == shared_count(db::hashes(before@), db::hashes(after@)),
        n <= before@.len(),
{
    let ghost a = db::hashes(before@);
    let ghost b = db::hashes(after@);
    let len: usize = before.len();
    let mut n: usize = 0;
    let mut i: usize = 0;
    while i < len
        invariant
            i <= len == before@.len(),
            n <= i,
            a == db::hashes(before@),
            b == db::hashes(after@),
            n == shared_count(a.take(i as int), b),
        decreases len - i,
    {
        assert(a.take(i + 1).drop_last() =~= a.take(i as int));
        assert(a.take(i + 1).last() == before@[i as int]@);
        if has_hash(after, &before[i]) {
            n += 1;
        }
        i += 1;
    }
    assert(a.take(i as int) =~= a);
    n
}

/// Static blocks of four mebibytes, to compare against.
pub const FIXED_BLOCK: usize = 0x40_0000;

/// The hashes of the static blocks of the first `n` bytes, `n` being the end of a
/// block.
pub open spec fn block_hashes(data: Seq<u8>, blocks: int) -> Seq<Seq<u8>>
    decreases blocks,
{
    if blocks <= 0 {
        Seq::empty()
    } else {
        let from = (blocks - 1) * FIXED_BLOCK;
        let to = if from + FIXED_BLOCK <= data.len() {
            from + FIXED_BLOCK
        } else {
            data.len() as int
        };
        block_hashes(data, blocks - 1).push(digest::blake3_digest(data.subrange(from, to)))
    }
}

/// How many static blocks there are.
pub open spec fn block_count(len: nat) -> nat {
    (len + 0x3f_ffff) / 0x40_0000
}

/// The entries of a list, each once, in the order in which they first come.
pub open spec fn once(list: Seq<Seq<u8>>) -> Seq<Seq<u8>>
    decreases list.len(),
{
    if list.len() == 0 {
        Seq::empty()
    } else {
        let before = once(list.drop_last());
        if before.contains(list.last()) {
            before
        } else {
            before.push(list.last())
        }
    }
}

/// The hashes of the static blocks of some data, each once, in the order in
/// which they first come.
pub fn fixed_hashes(data: &[u8]) -> (out: Vec<ContentHash>)
    ensures
        db::hashes(out@) == once(block_hashes(data@, block_count(data@.len()) as int)),
{
    let len: usize = data.len();
    let mut out: Vec<ContentHash> = Vec::new();
    let mut at: usize = 0;
    let ghost mut k: int = 0;
    assert(db::hashes(out@) =~= once(block_hashes(data@, 0)));
    while at < len
        invariant
            len == data@.len(),
            at <= len,
            0 <= k,
            at == k * FIXED_BLOCK || (at == len && k == block_count(len as nat)),
            at < len ==> at == k * FIXED_BLOCK,
            at == len ==> k == block_count(len as nat),
            db::hashes(out@) == once(block_hashes(data@, k)),
        decreases len - at,
    {
        let rest: usize = len - at;
        let n: usize = if rest < FIXED_BLOCK {
            rest
        } else {
            FIXED_BLOCK
        };
        let ghost before = db::hashes(out@);
        let hash: ContentHash = blake3_of(part(data, at, n));
        if !has_hash(&out, &hash) {
            out.push(hash);
            assert(db::hashes(out@) =~= before.push(hash@));
        }
        proof {
            k = k + 1;
            assert(data@.subrange(at as int, at + n) == data@.subrange(
                (k - 1) * FIXED_BLOCK,
                if (k - 1) * FIXED_BLOCK + FIXED_BLOCK <= data@.len() {
                    (k - 1) * FIXED_BLOCK + FIXED_BLOCK
                } else {
                    data@.len() as int
                },
            ));
            assert(block_hashes(data@, k).drop_last() =~= block_hashes(data@, k - 1));
            assert(block_hashes(data@, k).last() == hash@);
        }
        at = at + n;
    }
    out
}

/// What was seen of chunks: the hash of each, and how long it is.
pub open spec fn seen_views(seen: Seq<(ContentHash, u32)>) -> Seq<(Seq<u8>, u32)> {
    Seq::new(seen.len(), |i: int| (seen[i].0@, seen[i].1))
}

/// Whether a hash was seen.
pub open spec fn was_seen(seen: Seq<(Seq<u8>, u32)>, hash: Seq<u8>) -> bool {
    exists|i: int| 0 <= i < seen.len() && (#[trigger] seen[i]).0 == hash
}

/// What was seen once the first `n` chunks of `data` are too: each hash that was
/// not there yet stands behind the others, once, with the length of its chunk.
pub open spec fn swept(
    seen: Seq<(Seq<u8>, u32)>,
    data: Seq<u8>,
    cuts: Seq<(usize, usize)>,
    n: int,
) -> Seq<(Seq<u8>, u32)>
    decreases n,
{
    if n <= 0 {
        seen
    } else {
        let before = swept(seen, data, cuts, n - 1);
        let (at, len) = cuts[n - 1];
        let hash = digest::blake3_digest(data.subrange(at as int, at + len));
        if was_seen(before, hash) {
            before
        } else {
            before.push((hash, len as u32))
        }
    }
}

/// Whether a hash was seen.
fn has_seen(seen: &Vec<(ContentHash, u32)>, hash: &ContentHash) -> (yes: bool)
    ensures
        yes == was_seen(seen_views(seen@), hash@),
{
    let ghost views = seen_views(seen@);
    let mut i: usize = 0;
    while i < seen.len()
        invariant
            i <= seen@.len(),
            views == seen_views(seen@),
            forall|j: int| 0 <= j < i ==> (#[trigger] views[j]).0 != hash@,
        decreases seen@.len() - i,
    {
        assert(views[i as int].0 == seen@[i as int].0@);
        if same_bytes(&seen[i].0, hash) {
            return true;
        }
        i += 1;
    }
    false
}

/// Takes note of the chunks of some data, given where it is cut.
pub fn sweep_cuts(seen: &mut Vec<(ContentHash, u32)>, data: &[u8], cuts: &Vec<(usize, usize)>)
    requires
        forall|i: int|
            #![trigger cuts@[i]]
            0 <= i < cuts@.len() ==> cuts@[i].0 + cuts@[i].1 <= data@.len() && cuts@[i].1
                <= u32::MAX,
    ensures
        seen_views(final(seen)@) == swept(
            seen_views(old(seen)@),
            data@,
            cuts@,
            cuts@.len() as int,
        ),
{
    let ghost before = seen_views(seen@);
    let mut i: usize = 0;
    while i < cuts.len()
        invariant
            i <= cuts@.len(),
            seen_views(seen@) == swept(before, data@, cuts@, i as int),
            forall|j: int|
                #![trigger cuts@[j]]
                0 <= j < cuts@.len() ==> cuts@[j].0 + cuts@[j].1 <= data@.len() && cuts@[j].1
                    <= u32::MAX,
        decreases cuts@.len() - i,
    {
        let (at, len) = cuts[i];
        let hash: ContentHash = blake3_of(part(data, at, len));
        if !has_seen(seen, &hash) {
            let ghost so_far = seen_views(seen@);
            seen.push((hash, len as u32));
            assert(seen_views(seen@) =~= so_far.push((hash@, len as u32)));
        }
        i += 1;
    }
}

/// Takes note of the chunks that some data has with chunks of these sizes, and
/// says how many there are.
pub fn sweep_file(
    seen: &mut Vec<(ContentHash, u32)>,
    data: &[u8],
    min: u32,
    avg: u32,
    max: u32,
) -> (n: u64)
    requires
        64 <= min <= 1_048_576,
        256 <= avg <= 4_194_304,
        1024 <= max <= 16_777_216,
        min <= avg <= max,
        min % 2 == 0,
    ensures
        ({
            let cuts = chunker::fastcdc_cuts(data@, min as int, avg as int, max as int);
            &&& n == cuts.len()
            &&& seen_views(final(seen)@) == swept(
                seen_views(old(seen)@),
                data@,
                cuts,
                cuts.len() as int,
            )
        }),
{
    let cuts: Vec<(usize, usize)> = cut(data, min, avg, max);
    sweep_cuts(seen, data, &cuts);
    cuts.len() as u64
}

/// What chunks come to, each counted once.
pub open spec fn seen_total(seen: Seq<(Seq<u8>, u32)>) -> nat
    decreases seen.len(),
{
    if seen.len() == 0 {
        0
    } else {
        seen_total(seen.drop_last()) + seen.last().1 as nat
    }
}

proof fn seen_total_grows(seen: Seq<(Seq<u8>, u32)>, n: int)
    requires
        0 <= n <= seen.len(),
    ensures
        seen_total(seen.take(n)) <= seen_total(seen),
    decreases seen.len() - n,
{
    if n < seen.len() {
        seen_total_grows(seen, n + 1);
        assert(seen.take(n + 1).drop_last() =~= seen.take(n));
    } else {
        assert(seen.take(n) =~= seen);
    }
}

/// How many bytes are left to store once no chunk is stored twice.
pub fn stored_bytes(seen: &Vec<(ContentHash, u32)>) -> (n: u64)
    requires
        seen_total(seen_views(seen@)) <= u64::MAX,
    ensures
        n == seen_total(seen_views(seen@)),
{
    let ghost views = seen_views(seen@);
    let mut n: u64 = 0;
    let mut i: usize = 0;
    assert(views.take(0) =~= Seq::<(Seq<u8>, u32)>::empty());
    while i < seen.len()
        invariant
            i <= seen@.len(),
            views == seen_views(seen@),
            n == seen_total(views.take(i as int)),
            seen_total(views) <= u64::MAX,
        decreases seen@.len() - i,
    {
        proof {
            assert(views.take(i + 1).drop_last() =~= views.take(i as int));
            assert(views.take(i + 1).last() == views[i as int]);
            seen_total_grows(views, i + 1);
        }
        n = n + seen[i].1 as u64;
        i += 1;
    }
    assert(views.take(i as int) =~= views);
    n
}

/// Bytes of index per chunk: hash, file, offset, length, count and what the
/// index itself costs. Deliberately conservative.
pub const INDEX_BYTES_PER_CHUNK: u64 = 96;

/// The mean size of a chunk, and what the index of a library of a tebibyte would
/// cost at that size.
pub fn index_cost(total: u64, chunks: u64) -> (cost: (u64, u64))
    ensures
        cost.0 == if chunks > 0 {
            total as int / chunks as int
        } else {
            0
        },
        cost.1 == if cost.0 > 0 {
            (0x100_0000_0000int / cost.0 as int) * INDEX_BYTES_PER_CHUNK
        } else {
            0
        },
{
    let mean: u64 = if chunks > 0 {
        total / chunks
    } else {
        0
    };
    let per_tib: u64 = if mean > 0 {
        0x100_0000_0000u64 / mean
    } else {
        0
    };
    proof {
        if mean > 0 {
            vstd::arithmetic::div_mod::lemma_div_is_ordered_by_denominator(
                0x100_0000_0000,
                1,
                mean as int,
            );
        }
    }
    (mean, per_tib * INDEX_BYTES_PER_CHUNK)
}

/// Bytes read back under a name have to hash to it.
pub fn check_chunk(hash: &ContentHash, read: &[u8]) -> (result: Result<(), String>)
    ensures
        match result {
            Ok(_) => digest::blake3_digest(read@) == hash@,
            Err(e) => {
                &&& digest::blake3_digest(read@) != hash@
                &&& e@ == "chunk "@ + text::hex(hash@) + " failed integrity check (got "@
                    + text::hex(digest::blake3_digest(read@)) + ")"@
            },
        },
{
    let actual: [u8; 32] = blake3_of(read);
    if same_bytes(&actual, hash) {
        Ok(())
    } else {
        Err(
            "chunk ".to_owned().concat(&hex_of(hash.as_slice())).concat(
                " failed integrity check (got ",
            ).concat(&hex_of(actual.as_slice())).concat(")"),
        )
    }
}

/// What reading a file back comes to.
pub enum Rebuilt {
    Whole { bytes: Seq<u8> },
    Broken { why: Seq<char> },
}

pub open spec fn read_views(s: Seq<Vec<u8>>) -> Seq<Seq<u8>> {
    Seq::new(s.len(), |i: int| s[i]@)
}

/// What the first `n` chunks come to. The first that is not what it claims to be
/// decides.
pub open spec fn rebuilt(list: Seq<ChunkRef>, read: Seq<Seq<u8>>, n: int) -> Rebuilt
    decreases n,
{
    if n <= 0 {
        Rebuilt::Whole { bytes: Seq::empty() }
    } else {
        match rebuilt(list, read, n - 1) {
            Rebuilt::Broken { why } => Rebuilt::Broken { why },
            Rebuilt::Whole { bytes } => {
                let c = list[n - 1];
                let got = digest::blake3_digest(read[n - 1]);
                if got != c.hash@ {
                    Rebuilt::Broken {
                        why: "chunk "@ + text::hex(c.hash@) + " failed integrity check (got "@
                            + text::hex(got) + ")"@,
                    }
                } else if read[n - 1].len() != c.len {
                    Rebuilt::Broken {
                        why: "chunk "@ + text::hex(c.hash@) + " has wrong length"@,
                    }
                } else {
                    Rebuilt::Whole { bytes: bytes + read[n - 1] }
                }
            },
        }
    }
}

/// What the file comes to, held against the hash of the whole.
pub open spec fn rebuilt_file(m: Manifest, read: Seq<Seq<u8>>) -> Rebuilt {
    match rebuilt(m.chunks@, read, m.chunks@.len() as int) {
        Rebuilt::Broken { why } => Rebuilt::Broken { why },
        Rebuilt::Whole { bytes } => {
            let got = digest::blake3_digest(bytes);
            if got == m.file_hash@ {
                Rebuilt::Whole { bytes }
            } else {
                Rebuilt::Broken {
                    why: "reassembled file hash mismatch: "@ + text::hex(got) + " != "@ + text::hex(
                        m.file_hash@,
                    ),
                }
            }
        },
    }
}

proof fn stays_broken(list: Seq<ChunkRef>, read: Seq<Seq<u8>>, n: int, m: int)
    requires
        0 <= n <= m,
        rebuilt(list, read, n) is Broken,
    ensures
        rebuilt(list, read, m) == rebuilt(list, read, n),
    decreases m - n,
{
    if n < m {
        stays_broken(list, read, n, m - 1);
    }
}

/// Rebuild a file from what was read under the names of its chunks, and verify
/// the result end to end.
pub fn reassemble(manifest: &Manifest, read: &Vec<Vec<u8>>) -> (result: Result<Vec<u8>, String>)
    requires
        read@.len() == manifest.chunks@.len(),
    ensures
        rebuilt_file(*manifest, read_views(read@)) == (match result {
            Ok(bytes) => Rebuilt::Whole { bytes: bytes@ },
            Err(why) => Rebuilt::Broken { why: why@ },
        }),
{
    let list: &Vec<ChunkRef> = &manifest.chunks;
    let ghost r = read_views(read@);
    let ghost n = list@.len() as int;
    let mut out: Vec<u8> = Vec::new();
    let mut i: usize = 0;
    while i < list.len()
        invariant
            i <= list@.len() == read@.len(),
            list@ == manifest.chunks@,
            n == list@.len(),
            r == read_views(read@),
            rebuilt(list@, r, i as int) == (Rebuilt::Whole { bytes: out@ }),
        decreases list@.len() - i,
    {
        let c: ChunkRef = list[i];
        assert(r[i as int] == read@[i as int]@);
        match check_chunk(&c.hash, read[i].as_slice()) {
            Err(why) => {
                proof {
                    assert(rebuilt(list@, r, i + 1) == (Rebuilt::Broken { why: why@ }));
                    stays_broken(list@, r, i + 1, n);
                }
                return Err(why);
            },
            Ok(_) => {},
        }
        if read[i].len() as u64 != c.len as u64 {
            let why: String = "chunk ".to_owned().concat(&hex_of(c.hash.as_slice())).concat(
                " has wrong length",
            );
            proof {
                assert(rebuilt(list@, r, i + 1) == (Rebuilt::Broken { why: why@ }));
                stays_broken(list@, r, i + 1, n);
            }
            return Err(why);
        }
        append(&mut out, read[i].as_slice());
        i += 1;
    }
    let got: [u8; 32] = blake3_of(out.as_slice());
    if same_bytes(&got, &manifest.file_hash) {
        Ok(out)
    } else {
        Err(
            "reassembled file hash mismatch: ".to_owned().concat(&hex_of(got.as_slice())).concat(
                " != ",
            ).concat(&hex_of(manifest.file_hash.as_slice())),
        )
    }
}

/// A size to two decimals of the largest unit of which there is at least one.
pub fn human(bytes: u64) -> (text: String)
    ensures
        text@ == size::measured(bytes as nat),
{
    let n: u128 = held_of(bytes);
    let (u, p): (u8, u128) = unit_of(n);
    let q: u128 = nearest_of(100 * n, p);
    proof {
        if u > 0 {
            size::small_enough(q as int, p as int, 100 * n as int);
        }
    }
    let number: String = decimal_of((q / 100) as u64).concat(".").concat(
        &zero_padded_of((q % 100) as u64, 2),
    );
    if u == 0 {
        number.concat(" B")
    } else if u == 1 {
        number.concat(" KiB")
    } else if u == 2 {
        number.concat(" MiB")
    } else if u == 3 {
        number.concat(" GiB")
    } else {
        number.concat(" TiB")
    }
}

/// What an ingest counts adds up: every chunk was written or saved, and so was every
/// byte of them. A chunk is saved exactly where it is held already, or came before in
/// the same list.
pub proof fn law_an_ingest_adds_up(list: Seq<ChunkRef>, held: Seq<Seq<u8>>, n: int)
    requires
        0 < n <= list.len(),
    ensures
        tally(list, held, n).0 + tally(list, held, n).1 == n,
        ({
            let before = tally(list, held, n - 1);
            let after = tally(list, held, n);
            let c = list[n - 1];
            let saved = held.contains(c.hash@) || exists|j: int|
                0 <= j < n - 1 && (#[trigger] list[j]).hash@ == c.hash@;
            &&& saved ==> after == (before.0, before.1 + 1, before.2, before.3 + c.len as nat)
            &&& !saved ==> after == (before.0 + 1, before.1, before.2 + c.len as nat, before.3)
        }),
        tally(list, held, 0) == (0nat, 0nat, 0nat, 0nat),
{
    tally_bounds(list, held, n);
}

/// What is rebuilt is whole or not at all. What is whole hashes to the file's own
/// hash, and is made of chunks that each hash to their name and are as long as
/// recorded, one behind the other.
pub proof fn law_a_rebuilt_file_is_whole(m: Manifest, read: Seq<Seq<u8>>, bytes: Seq<u8>, i: int)
    requires
        read.len() == m.chunks@.len(),
        rebuilt_file(m, read) == (Rebuilt::Whole { bytes }),
        0 <= i < m.chunks@.len(),
    ensures
        digest::blake3_digest(bytes) == m.file_hash@,
        digest::blake3_digest(read[i]) == m.chunks@[i].hash@,
        read[i].len() == m.chunks@[i].len,
        bytes == read.flatten(),
{
    let n = m.chunks@.len() as int;
    whole_chunks(m.chunks@, read, n, i);
    whole_in_order(m.chunks@, read, n);
    assert(read.take(n) =~= read);
}

proof fn whole_chunks(list: Seq<ChunkRef>, read: Seq<Seq<u8>>, n: int, i: int)
    requires
        0 <= i < n,
        rebuilt(list, read, n) is Whole,
    ensures
        digest::blake3_digest(read[i]) == list[i].hash@,
        read[i].len() == list[i].len,
    decreases n,
{
    if i < n - 1 {
        whole_chunks(list, read, n - 1, i);
    }
}

proof fn whole_in_order(list: Seq<ChunkRef>, read: Seq<Seq<u8>>, n: int)
    requires
        0 <= n <= read.len(),
        rebuilt(list, read, n) is Whole,
    ensures
        rebuilt(list, read, n)->bytes == read.take(n).flatten(),
    decreases n,
{
    if n > 0 {
        whole_in_order(list, read, n - 1);
        let all = read.take(n);
        assert(all.drop_last() =~= read.take(n - 1));
        all.lemma_flatten_and_flatten_alt_are_equivalent();
        all.drop_last().lemma_flatten_and_flatten_alt_are_equivalent();
        assert(all.last() == read[n - 1]);
    } else {
        assert(read.take(0).flatten() =~= Seq::<u8>::empty());
    }
}

/// Taken once, a list holds what it held, and nothing twice.
pub proof fn law_nothing_is_taken_twice(list: Seq<Seq<u8>>, h: Seq<u8>)
    ensures
        once(list).contains(h) <==> list.contains(h),
        once(list).no_duplicates(),
    decreases list.len(),
{
    if list.len() > 0 {
        let rest = list.drop_last();
        law_nothing_is_taken_twice(rest, h);
        let a = once(rest);
        let b = once(list);
        let last = list.last();
        assert(list[list.len() - 1] == last);
        law_nothing_is_taken_twice(rest, last);
        if rest.contains(h) {
            let k = choose|k: int| 0 <= k < rest.len() && rest[k] == h;
            assert(list[k] == h);
        }
        if list.contains(h) {
            let k = choose|k: int| 0 <= k < list.len() && list[k] == h;
            if k < rest.len() {
                assert(rest[k] == h);
            }
        }
        if a.contains(h) {
            let k = choose|k: int| 0 <= k < a.len() && a[k] == h;
            assert(b[k] == h);
        }
        if b.contains(h) {
            let k = choose|k: int| 0 <= k < b.len() && b[k] == h;
            if k < a.len() {
                assert(a[k] == h);
            }
        }
        if !a.contains(last) {
            assert(b[a.len() as int] == last);
        }
    }
}

/// Blocks of one length cover the data: the next block starts where the last one
/// ended, and only the last may be shorter.
pub proof fn law_blocks_cover_the_data(data: Seq<u8>, k: int)
    requires
        0 <= k < block_count(data.len()),
    ensures
        block_hashes(data, block_count(data.len()) as int).len() == block_count(data.len()),
        (block_count(data.len()) - 1) * 0x40_0000 < data.len() <= block_count(data.len())
            * 0x40_0000,
        block_hashes(data, block_count(data.len()) as int)[k] == digest::blake3_digest(
            data.subrange(
                k * 0x40_0000,
                if (k + 1) * 0x40_0000 <= data.len() {
                    (k + 1) * 0x40_0000
                } else {
                    data.len() as int
                },
            ),
        ),
{
    block_at(data, block_count(data.len()) as int, k);
}

proof fn block_at(data: Seq<u8>, n: int, k: int)
    requires
        0 <= k < n,
    ensures
        block_hashes(data, n).len() == n,
        block_hashes(data, n)[k] == digest::blake3_digest(
            data.subrange(
                k * 0x40_0000,
                if (k + 1) * 0x40_0000 <= data.len() {
                    (k + 1) * 0x40_0000
                } else {
                    data.len() as int
                },
            ),
        ),
    decreases n,
{
    if k < n - 1 {
        block_at(data, n - 1, k);
    } else {
        blocks_in_all(data, n - 1);
    }
}

proof fn blocks_in_all(data: Seq<u8>, n: int)
    requires
        0 <= n,
    ensures
        block_hashes(data, n).len() == n,
    decreases n,
{
    if n > 0 {
        blocks_in_all(data, n - 1);
    }
}

/// What two lists share is counted once for each entry of the first that the second
/// has too.
pub proof fn law_what_is_shared_is_counted(a: Seq<Seq<u8>>, b: Seq<Seq<u8>>, h: Seq<u8>)
    ensures
        shared_count(Seq::empty(), b) == 0,
        b.contains(h) ==> shared_count(a.push(h), b) == shared_count(a, b) + 1,
        !b.contains(h) ==> shared_count(a.push(h), b) == shared_count(a, b),
{
    assert(a.push(h).drop_last() =~= a);
}

/// A sweep remembers each piece once, with its length: what was seen stays, and the
/// hash of every piece has been seen afterwards.
pub proof fn law_a_sweep_remembers_each_piece(
    seen: Seq<(Seq<u8>, u32)>,
    data: Seq<u8>,
    cuts: Seq<(usize, usize)>,
    n: int,
    i: int,
)
    requires
        0 <= i < n <= cuts.len(),
    ensures
        was_seen(
            swept(seen, data, cuts, n),
            digest::blake3_digest(
                data.subrange(cuts[i].0 as int, cuts[i].0 + cuts[i].1),
            ),
        ),
        swept(seen, data, cuts, n).len() >= seen.len(),
        swept(seen, data, cuts, n).take(seen.len() as int) == seen,
    decreases n,
{
    let before = swept(seen, data, cuts, n - 1);
    let after = swept(seen, data, cuts, n);
    sweeping_keeps(seen, data, cuts, n - 1);
    sweeping_keeps(seen, data, cuts, n);
    let (at, len) = cuts[i];
    let hash = digest::blake3_digest(data.subrange(at as int, at + len));
    if i < n - 1 {
        law_a_sweep_remembers_each_piece(seen, data, cuts, n - 1, i);
        let k = choose|k: int| 0 <= k < before.len() && (#[trigger] before[k]).0 == hash;
        assert(after[k].0 == hash);
    } else if !was_seen(before, hash) {
        assert(after[before.len() as int].0 == hash);
    }
}

proof fn sweeping_keeps(
    seen: Seq<(Seq<u8>, u32)>,
    data: Seq<u8>,
    cuts: Seq<(usize, usize)>,
    n: int,
)
    requires
        0 <= n <= cuts.len(),
    ensures
        swept(seen, data, cuts, n).len() >= seen.len(),
        swept(seen, data, cuts, n).take(seen.len() as int) == seen,
    decreases n,
{
    if n > 0 {
        sweeping_keeps(seen, data, cuts, n - 1);
        let before = swept(seen, data, cuts, n - 1);
        let after = swept(seen, data, cuts, n);
        assert(after.take(seen.len() as int) =~= before.take(seen.len() as int));
    } else {
        assert(seen.take(seen.len() as int) =~= seen);
    }
}

/// What was seen takes the sum of what each piece takes.
pub proof fn law_what_was_seen_adds_up(seen: Seq<(Seq<u8>, u32)>, piece: (Seq<u8>, u32))
    ensures
        seen_total(Seq::empty()) == 0,
        seen_total(seen.push(piece)) == seen_total(seen) + piece.1,
{
    assert(seen.push(piece).drop_last() =~= seen);
}

} // verus!
