//! Why reference counts do not drift.
//!
//! Whatever is done to the files of an index comes down to three things: a file
//! is added, a file is given another chunk list, a file is taken out. Each of
//! them counts its links up or down, and each keeps what [`counted`] and
//! [`all_known`] say.
//!
//! [`counted`]: super::db::counted
//! [`all_known`]: super::db::all_known

use vstd::prelude::*;

use super::db;
use super::db::{ChunkFacts, File, Index};

verus! {

/// The index with another file in place of the `i`-th.
pub open spec fn with_file(ix: Index, i: int, f: File, now: i64) -> Index {
    Index {
        files: ix.files.update(i, f),
        chunks: db::all_linked(db::all_unlinked(ix.chunks, ix.files[i].chunks, now), f.chunks),
        ..ix
    }
}

/// The index with one more file.
pub open spec fn with_new_file(ix: Index, f: File) -> Index {
    Index { files: ix.files.push(f), chunks: db::all_linked(ix.chunks, f.chunks), ..ix }
}

/// The index without the `i`-th file.
pub open spec fn without_file(ix: Index, i: int, now: i64) -> Index {
    Index {
        files: ix.files.remove(i),
        chunks: db::all_unlinked(ix.chunks, ix.files[i].chunks, now),
        ..ix
    }
}

/// Counts that a machine word can hold.
pub open spec fn countable(files: Seq<File>) -> bool {
    forall|h: Seq<u8>| #[trigger] db::links(files, h) <= i64::MAX
}

pub proof fn uses_bounds(list: Seq<Seq<u8>>, h: Seq<u8>)
    ensures
        db::uses(list, h) <= list.len(),
        db::uses(list, h) > 0 <==> list.contains(h),
    decreases list.len(),
{
    if list.len() > 0 {
        let rest = list.drop_last();
        uses_bounds(rest, h);
        if list.last() == h {
            assert(list[list.len() - 1] == h);
        }
        if rest.contains(h) {
            let k = choose|k: int| 0 <= k < rest.len() && rest[k] == h;
            assert(list[k] == h);
        }
        if list.contains(h) && list.last() != h {
            let k = choose|k: int| 0 <= k < list.len() && list[k] == h;
            assert(rest[k] == h);
        }
    }
}

/// What linking a list does to one chunk.
pub proof fn linking_one(chunks: Map<Seq<u8>, ChunkFacts>, list: Seq<Seq<u8>>, h: Seq<u8>)
    requires
        chunks.contains_key(h) ==> chunks[h].refcount + db::uses(list, h) <= i64::MAX,
    ensures
        db::all_linked(chunks, list).contains_key(h) == chunks.contains_key(h),
        chunks.contains_key(h) ==> {
            let c = db::all_linked(chunks, list)[h];
            &&& c.refcount == chunks[h].refcount + db::uses(list, h)
            &&& c.unreferenced_at == if db::uses(list, h) > 0 {
                None
            } else {
                chunks[h].unreferenced_at
            }
            &&& c.size == chunks[h].size
            &&& c.stored_size == chunks[h].stored_size
        },
    decreases list.len(),
{
    if list.len() > 0 {
        linking_one(chunks, list.drop_last(), h);
    }
}

/// What unlinking a list does to one chunk.
pub proof fn unlinking_one(
    chunks: Map<Seq<u8>, ChunkFacts>,
    list: Seq<Seq<u8>>,
    now: i64,
    h: Seq<u8>,
)
    requires
        chunks.contains_key(h) ==> chunks[h].refcount >= db::uses(list, h),
    ensures
        db::all_unlinked(chunks, list, now).contains_key(h) == chunks.contains_key(h),
        chunks.contains_key(h) ==> {
            let c = db::all_unlinked(chunks, list, now)[h];
            &&& c.refcount == chunks[h].refcount - db::uses(list, h)
            &&& c.unreferenced_at == if db::uses(list, h) == 0 {
                chunks[h].unreferenced_at
            } else if c.refcount == 0 {
                Some(now)
            } else {
                None
            }
            &&& c.size == chunks[h].size
            &&& c.stored_size == chunks[h].stored_size
        },
    decreases list.len(),
{
    if list.len() > 0 {
        unlinking_one(chunks, list.drop_last(), now, h);
    }
}

/// Linking and unlinking neither add nor remove chunks.
pub proof fn relinking_keeps_domain(
    chunks: Map<Seq<u8>, ChunkFacts>,
    old_list: Seq<Seq<u8>>,
    new_list: Seq<Seq<u8>>,
    now: i64,
    h: Seq<u8>,
)
    ensures
        db::all_unlinked(chunks, old_list, now).contains_key(h) == chunks.contains_key(h),
        db::all_linked(chunks, new_list).contains_key(h) == chunks.contains_key(h),
    decreases old_list.len() + new_list.len(),
{
    if old_list.len() > 0 {
        relinking_keeps_domain(chunks, old_list.drop_last(), new_list, now, h);
    }
    if new_list.len() > 0 {
        relinking_keeps_domain(chunks, old_list, new_list.drop_last(), now, h);
    }
}

pub proof fn links_of_update(files: Seq<File>, i: int, f: File, h: Seq<u8>)
    requires
        0 <= i < files.len(),
    ensures
        db::links(files.update(i, f), h) == db::links(files, h) - db::uses(files[i].chunks, h)
            + db::uses(f.chunks, h),
        db::links(files, h) >= db::uses(files[i].chunks, h),
    decreases files.len(),
{
    let n = files.len() - 1;
    let next = files.update(i, f);
    if i == n {
        assert(next.drop_last() =~= files.drop_last());
    } else {
        links_of_update(files.drop_last(), i, f, h);
        assert(next.drop_last() =~= files.drop_last().update(i, f));
        assert(next.last() == files.last());
    }
}

pub proof fn links_of_push(files: Seq<File>, f: File, h: Seq<u8>)
    ensures
        db::links(files.push(f), h) == db::links(files, h) + db::uses(f.chunks, h),
{
    assert(files.push(f).drop_last() =~= files);
}

pub proof fn links_of_remove(files: Seq<File>, i: int, h: Seq<u8>)
    requires
        0 <= i < files.len(),
    ensures
        db::links(files.remove(i), h) == db::links(files, h) - db::uses(files[i].chunks, h),
        db::links(files, h) >= db::uses(files[i].chunks, h),
    decreases files.len(),
{
    let n = files.len() - 1;
    if i == n {
        assert(files.remove(i) =~= files.drop_last());
    } else {
        links_of_remove(files.drop_last(), i, h);
        assert(files.remove(i).drop_last() =~= files.drop_last().remove(i));
        assert(files.remove(i).last() == files.last());
    }
}

/// A chunk that some file uses has a link; one that has none is used by no file.
pub proof fn link_means_use(files: Seq<File>, h: Seq<u8>)
    ensures
        db::links(files, h) > 0 <==> exists|i: int|
            0 <= i < files.len() && (#[trigger] files[i]).chunks.contains(h),
    decreases files.len(),
{
    if files.len() > 0 {
        let rest = files.drop_last();
        link_means_use(rest, h);
        uses_bounds(files.last().chunks, h);
        if db::links(rest, h) > 0 {
            let i = choose|i: int| 0 <= i < rest.len() && (#[trigger] rest[i]).chunks.contains(h);
            assert(files[i].chunks.contains(h));
        }
        if db::uses(files.last().chunks, h) > 0 {
            assert(files[files.len() - 1].chunks.contains(h));
        }
        if exists|i: int| 0 <= i < files.len() && (#[trigger] files[i]).chunks.contains(h) {
            let i = choose|i: int|
                0 <= i < files.len() && (#[trigger] files[i]).chunks.contains(h);
            if i < rest.len() {
                assert(rest[i].chunks.contains(h));
            }
        }
    }
}

/// Giving a file another chunk list keeps every count right.
pub proof fn law_replacing_a_file_keeps_the_counts(ix: Index, i: int, f: File, now: i64)
    requires
        db::counted(ix),
        0 <= i < ix.files.len(),
        countable(ix.files.update(i, f)),
    ensures
        db::counted(with_file(ix, i, f, now)),
        forall|h: Seq<u8>| #[trigger]
            with_file(ix, i, f, now).chunks.contains_key(h) == ix.chunks.contains_key(h),
{
    let old_list = ix.files[i].chunks;
    let middle = db::all_unlinked(ix.chunks, old_list, now);
    let after = with_file(ix, i, f, now);
    assert forall|h: Seq<u8>| #[trigger] after.chunks.contains_key(h) == ix.chunks.contains_key(
        h,
    ) by {
        relinking_keeps_domain(ix.chunks, old_list, f.chunks, now, h);
        relinking_keeps_domain(middle, old_list, f.chunks, now, h);
    }
    assert forall|h: Seq<u8>| #[trigger] after.chunks.contains_key(h) implies {
        &&& after.chunks[h].refcount == db::links(after.files, h)
        &&& after.chunks[h].refcount == 0 <==> after.chunks[h].unreferenced_at is Some
    } by {
        assert(ix.chunks.contains_key(h));
        links_of_update(ix.files, i, f, h);
        unlinking_one(ix.chunks, old_list, now, h);
        assert(db::links(ix.files.update(i, f), h) <= i64::MAX);
        linking_one(middle, f.chunks, h);
    }
}

/// Adding a file keeps every count right.
pub proof fn law_adding_a_file_keeps_the_counts(ix: Index, f: File)
    requires
        db::counted(ix),
        countable(ix.files.push(f)),
    ensures
        db::counted(with_new_file(ix, f)),
        forall|h: Seq<u8>| #[trigger]
            with_new_file(ix, f).chunks.contains_key(h) == ix.chunks.contains_key(h),
{
    let after = with_new_file(ix, f);
    assert forall|h: Seq<u8>| #[trigger] after.chunks.contains_key(h) == ix.chunks.contains_key(
        h,
    ) by {
        relinking_keeps_domain(ix.chunks, f.chunks, f.chunks, 0, h);
    }
    assert forall|h: Seq<u8>| #[trigger] after.chunks.contains_key(h) implies {
        &&& after.chunks[h].refcount == db::links(after.files, h)
        &&& after.chunks[h].refcount == 0 <==> after.chunks[h].unreferenced_at is Some
    } by {
        assert(ix.chunks.contains_key(h));
        links_of_push(ix.files, f, h);
        assert(db::links(ix.files.push(f), h) <= i64::MAX);
        linking_one(ix.chunks, f.chunks, h);
    }
}

/// Taking a file out keeps every count right.
pub proof fn law_removing_a_file_keeps_the_counts(ix: Index, i: int, now: i64)
    requires
        db::counted(ix),
        0 <= i < ix.files.len(),
    ensures
        db::counted(without_file(ix, i, now)),
        forall|h: Seq<u8>| #[trigger]
            without_file(ix, i, now).chunks.contains_key(h) == ix.chunks.contains_key(h),
{
    let list = ix.files[i].chunks;
    let after = without_file(ix, i, now);
    assert forall|h: Seq<u8>| #[trigger] after.chunks.contains_key(h) == ix.chunks.contains_key(
        h,
    ) by {
        relinking_keeps_domain(ix.chunks, list, list, now, h);
    }
    assert forall|h: Seq<u8>| #[trigger] after.chunks.contains_key(h) implies {
        &&& after.chunks[h].refcount == db::links(after.files, h)
        &&& after.chunks[h].refcount == 0 <==> after.chunks[h].unreferenced_at is Some
    } by {
        assert(ix.chunks.contains_key(h));
        links_of_remove(ix.files, i, h);
        unlinking_one(ix.chunks, list, now, h);
    }
}

/// Changing what is recorded of a file besides its chunks leaves every link.
pub proof fn links_of_retouched(files: Seq<File>, i: int, f: File)
    requires
        0 <= i < files.len(),
        f.chunks == files[i].chunks,
    ensures
        forall|h: Seq<u8>| #[trigger] db::links(files.update(i, f), h) == db::links(files, h),
{
    assert forall|h: Seq<u8>| #[trigger] db::links(files.update(i, f), h) == db::links(
        files,
        h,
    ) by {
        links_of_update(files, i, f, h);
    }
}

/// Recording a chunk that is not known yet keeps every count right, as long as
/// no file claims a chunk that the index does not know.
pub proof fn law_recording_a_chunk_keeps_the_counts(
    ix: Index,
    hash: Seq<u8>,
    size: u64,
    stored_size: u64,
    now: i64,
)
    requires
        db::counted(ix),
        db::all_known(ix),
    ensures
        ({
            let after = Index {
                chunks: db::chunk_inserted(ix.chunks, hash, size, stored_size, now),
                ..ix
            };
            db::counted(after) && db::all_known(after)
        }),
{
    if !ix.chunks.contains_key(hash) {
        link_means_use(ix.files, hash);
        if db::links(ix.files, hash) > 0 {
            let i = choose|i: int|
                0 <= i < ix.files.len() && (#[trigger] ix.files[i]).chunks.contains(hash);
            let k = choose|k: int|
                0 <= k < ix.files[i].chunks.len() && ix.files[i].chunks[k] == hash;
            assert(ix.chunks.contains_key(ix.files[i].chunks[k]));
        }
    }
}

} // verus!
