//! Parallel processing of chunks.

use vstd::prelude::*;
use rayon::iter::{IntoParallelRefIterator, ParallelIterator};
use crate::chunk::{chunk_raw_data, chunk_verify_ok, Chunk, ChunkView, ProcessingStats, SMALL_CHUNK_LIMIT};
use crate::error::Result;

verus! {

/// All chunks named in a group pass verification.
pub open spec fn group_ok(chunks: Seq<Chunk>, group: Seq<usize>) -> bool {
    forall|k: int| 0 <= k < group.len() ==> chunk_verify_ok(#[trigger] chunks[group[k] as int]@)
}

/// Every index of every group is a chunk's.
pub open spec fn groups_in_range(chunks: Seq<Chunk>, groups: Seq<Vec<usize>>) -> bool {
    forall|g: int, k: int|
        0 <= g < groups.len() && 0 <= k < groups[g]@.len() ==> #[trigger] groups[g]@[k] < chunks.len()
}

/// Verifies the chunks of one group in order.
fn verify_group(chunks: &[Chunk], group: &Vec<usize>) -> (r: Result<()>)
    requires
        forall|k: int| 0 <= k < group@.len() ==> #[trigger] group@[k] < chunks@.len(),
    ensures
        r is Ok <==> group_ok(chunks@, group@),
{
    let mut k: usize = 0;
    while k < group.len()
        invariant
            k <= group@.len(),
            forall|q: int| 0 <= q < group@.len() ==> #[trigger] group@[q] < chunks@.len(),
            forall|q: int| 0 <= q < k ==> chunk_verify_ok(#[trigger] chunks@[group@[q] as int]@),
        decreases group@.len() - k,
    {
        let idx = group[k];
        match chunks[idx].verify() {
            Ok(()) => {},
            Err(e) => {
                return Err(e);
            },
        }
        k += 1;
    }
    Ok(())
}

/// Runs `verify_group` over the groups in parallel through rayon's `par_iter` and
/// `try_for_each`, which stops at an error. Claims success exactly when every group
/// verifies.
#[verifier::external_body]
fn par_verify_groups(chunks: &[Chunk], groups: &Vec<Vec<usize>>) -> (r: Result<()>)
    requires
        groups_in_range(chunks@, groups@),
    ensures
        r is Ok <==> forall|g: int| 0 <= g < groups@.len() ==> group_ok(chunks@, #[trigger] groups@[g]@),
{
    groups.par_iter().try_for_each(|group| verify_group(chunks, group))
}

/// Index `j` sits in one of the groups.
pub open spec fn in_groups(groups: Seq<Vec<usize>>, j: usize) -> bool {
    exists|g: int| 0 <= g < groups.len() && #[trigger] groups[g]@.contains(j)
}

/// All chunks pass exactly when all groups do, when every index is in a group.
proof fn lemma_groups_cover(chunks: Seq<Chunk>, large: Seq<Vec<usize>>, small: Seq<Vec<usize>>)
    requires
        chunks.len() <= usize::MAX,
        groups_in_range(chunks, large),
        groups_in_range(chunks, small),
        forall|j: usize| j < chunks.len() ==> #[trigger] in_groups(large, j) || in_groups(small, j),
    ensures
        (forall|j: int| 0 <= j < chunks.len() ==> chunk_verify_ok(#[trigger] chunks[j]@)) <==> (
        forall|g: int| 0 <= g < large.len() ==> group_ok(chunks, #[trigger] large[g]@)) && (forall|
            g: int,
        | 0 <= g < small.len() ==> group_ok(chunks, #[trigger] small[g]@)),
{
    if forall|j: int| 0 <= j < chunks.len() ==> chunk_verify_ok(#[trigger] chunks[j]@) {
        assert forall|g: int| 0 <= g < large.len() implies group_ok(chunks, #[trigger] large[g]@) by {
            assert forall|k: int| 0 <= k < large[g]@.len() implies chunk_verify_ok(
                #[trigger] chunks[large[g]@[k] as int]@,
            ) by {
                assert(large[g]@[k] < chunks.len());
            }
        }
        assert forall|g: int| 0 <= g < small.len() implies group_ok(chunks, #[trigger] small[g]@) by {
            assert forall|k: int| 0 <= k < small[g]@.len() implies chunk_verify_ok(
                #[trigger] chunks[small[g]@[k] as int]@,
            ) by {
                assert(small[g]@[k] < chunks.len());
            }
        }
    }
    if (forall|g: int| 0 <= g < large.len() ==> group_ok(chunks, #[trigger] large[g]@)) && (forall|
        g: int,
    | 0 <= g < small.len() ==> group_ok(chunks, #[trigger] small[g]@)) {
        assert forall|j: int| 0 <= j < chunks.len() implies chunk_verify_ok(#[trigger] chunks[j]@) by {
            let ju = j as usize;
            assert(ju as int == j);
            if in_groups(large, ju) {
                let g = choose|g: int| 0 <= g < large.len() && #[trigger] large[g]@.contains(ju);
                let k = choose|k: int| 0 <= k < large[g]@.len() && large[g]@[k] == ju;
                assert(group_ok(chunks, large[g]@));
                assert(chunk_verify_ok(chunks[large[g]@[k] as int]@));
            } else {
                assert(in_groups(small, ju));
                let g = choose|g: int| 0 <= g < small.len() && #[trigger] small[g]@.contains(ju);
                let k = choose|k: int| 0 <= k < small[g]@.len() && small[g]@[k] == ju;
                assert(group_ok(chunks, small[g]@));
                assert(chunk_verify_ok(chunks[small[g]@[k] as int]@));
            }
        }
    }
}

/// Verifies all chunks, chunks of 64 KiB or more each on its own and smaller ones in
/// batches of eight, in parallel.
pub fn verify_chunks_parallel(chunks: &[Chunk]) -> (r: Result<()>)
    ensures
        r is Ok <==> forall|i: int| 0 <= i < chunks@.len() ==> chunk_verify_ok(#[trigger] chunks@[i]@),
{
    let mut large_groups: Vec<Vec<usize>> = Vec::new();
    let mut small_groups: Vec<Vec<usize>> = Vec::new();
    let mut batch: Vec<usize> = Vec::new();
    let mut i: usize = 0;
    while i < chunks.len()
        invariant
            i <= chunks@.len(),
            batch@.len() < 8,
            groups_in_range(chunks@, large_groups@),
            groups_in_range(chunks@, small_groups@),
            forall|k: int| 0 <= k < batch@.len() ==> #[trigger] batch@[k] < i,
            forall|j: usize|
                j < i ==> #[trigger] in_groups(large_groups@, j) || in_groups(small_groups@, j)
                    || batch@.contains(j),
        decreases chunks@.len() - i,
    {
        let ghost old_large = large_groups@;
        let ghost old_small = small_groups@;
        let ghost old_batch = batch@;
        if chunks[i].raw_size < SMALL_CHUNK_LIMIT {
            batch.push(i);
            assert(batch@[batch@.len() - 1] == i);
            if batch.len() == 8 {
                let full = batch;
                batch = Vec::new();
                small_groups.push(full);
                assert(small_groups@[small_groups@.len() - 1]@ == full@);
            }
        } else {
            large_groups.push(vec![i]);
            assert(large_groups@[large_groups@.len() - 1]@[0] == i);
        }
        assert forall|j: usize| j < i + 1 implies #[trigger] in_groups(large_groups@, j)
            || in_groups(small_groups@, j) || batch@.contains(j) by {
            if j < i {
                if in_groups(old_large, j) {
                    let g = choose|g: int| 0 <= g < old_large.len() && #[trigger] old_large[g]@.contains(j);
                    assert(large_groups@[g] == old_large[g]);
                    assert(large_groups@[g]@.contains(j));
                    assert(in_groups(large_groups@, j));
                } else if in_groups(old_small, j) {
                    let g = choose|g: int| 0 <= g < old_small.len() && #[trigger] old_small[g]@.contains(j);
                    assert(small_groups@[g] == old_small[g]);
                    assert(small_groups@[g]@.contains(j));
                    assert(in_groups(small_groups@, j));
                } else {
                    assert(old_batch.contains(j));
                    let k = choose|k: int| 0 <= k < old_batch.len() && old_batch[k] == j;
                    if batch@.len() == 0 && chunks@[i as int].raw_size < SMALL_CHUNK_LIMIT {
                        let g = small_groups@.len() - 1;
                        assert(small_groups@[g]@[k] == j);
                        assert(small_groups@[g]@.contains(j));
                        assert(in_groups(small_groups@, j));
                    } else {
                        assert(batch@[k] == j);
                        assert(batch@.contains(j));
                    }
                }
            } else {
                if chunks@[i as int].raw_size < SMALL_CHUNK_LIMIT {
                    if batch@.len() == 0 {
                        let g = small_groups@.len() - 1;
                        assert(small_groups@[g]@[7] == i);
                        assert(small_groups@[g]@.contains(j));
                        assert(in_groups(small_groups@, j));
                    } else {
                        assert(batch@[batch@.len() - 1] == i);
                        assert(batch@.contains(j));
                    }
                } else {
                    let g = large_groups@.len() - 1;
                    assert(large_groups@[g]@[0] == i);
                    assert(large_groups@[g]@.contains(j));
                    assert(in_groups(large_groups@, j));
                }
            }
        }
        i += 1;
    }
    let ghost before_small = small_groups@;
    if batch.len() > 0 {
        let ghost b = batch@;
        small_groups.push(batch);
        assert forall|j: usize| j < chunks@.len() implies #[trigger] in_groups(large_groups@, j)
            || in_groups(small_groups@, j) by {
            if in_groups(before_small, j) {
                let g = choose|g: int| 0 <= g < before_small.len() && #[trigger] before_small[g]@.contains(j);
                assert(small_groups@[g] == before_small[g]);
                assert(small_groups@[g]@.contains(j));
            }
            if b.contains(j) {
                let k = choose|k: int| 0 <= k < b.len() && b[k] == j;
                let g = small_groups@.len() - 1;
                assert(small_groups@[g]@[k] == j);
                assert(small_groups@[g]@.contains(j));
            }
        }
    }
    proof {
        lemma_groups_cover(chunks@, large_groups@, small_groups@);
    }
    match par_verify_groups(chunks, &large_groups) {
        Ok(()) => {},
        Err(e) => {
            return Err(e);
        },
    }
    if small_groups.len() > 0 {
        match par_verify_groups(chunks, &small_groups) {
            Ok(()) => {},
            Err(e) => {
                return Err(e);
            },
        }
    }
    Ok(())
}

/// The raw data of every chunk, in order, through rayon's `par_iter`, `map` with
/// `Chunk::get_raw_data` and `collect` into a `Result`. Claims success exactly when every
/// chunk gives its raw data, each at its chunk's position.
#[verifier::external_body]
fn par_raw_data(chunks: &[Chunk]) -> (r: Result<Vec<Vec<u8>>>)
    ensures
        r is Ok <==> forall|i: int| 0 <= i < chunks@.len() ==> (#[trigger] chunk_raw_data(chunks@[i]@)) is Some,
        r matches Ok(v) ==> v@.len() == chunks@.len() && forall|i: int|
            0 <= i < chunks@.len() ==> Some(#[trigger] v@[i]@) == chunk_raw_data(chunks@[i]@),
{
    chunks.par_iter().map(|chunk| chunk.get_raw_data()).collect()
}

/// The raw data of every chunk, in order, extracted in parallel.
pub fn extract_raw_data_parallel(chunks: &[Chunk]) -> (r: Result<Vec<Vec<u8>>>)
    ensures
        r is Ok <==> forall|i: int| 0 <= i < chunks@.len() ==> (#[trigger] chunk_raw_data(chunks@[i]@)) is Some,
        r matches Ok(v) ==> v@.len() == chunks@.len() && forall|i: int|
            0 <= i < chunks@.len() ==> Some(#[trigger] v@[i]@) == chunk_raw_data(chunks@[i]@),
{
    par_raw_data(chunks)
}

/// Sum of the raw sizes of the chunks.
pub open spec fn total_raw(chunks: Seq<ChunkView>) -> nat
    decreases chunks.len(),
{
    if chunks.len() == 0 {
        0
    } else {
        total_raw(chunks.drop_last()) + chunks.last().raw_size as nat
    }
}

/// Sum of the payload sizes of the chunks.
pub open spec fn total_compressed(chunks: Seq<ChunkView>) -> nat
    decreases chunks.len(),
{
    if chunks.len() == 0 {
        0
    } else {
        total_compressed(chunks.drop_last()) + chunks.last().compressed_size as nat
    }
}

/// Number of chunks under 64 KiB of raw data.
pub open spec fn small_count(chunks: Seq<ChunkView>) -> nat
    decreases chunks.len(),
{
    if chunks.len() == 0 {
        0
    } else {
        small_count(chunks.drop_last()) + if chunks.last().raw_size < SMALL_CHUNK_LIMIT {
            1nat
        } else {
            0nat
        }
    }
}

/// Views of a slice of chunks.
pub open spec fn chunk_views(chunks: Seq<Chunk>) -> Seq<ChunkView> {
    chunks.map_values(|c: Chunk| c@)
}

proof fn lemma_totals_bound(chunks: Seq<ChunkView>)
    ensures
        total_raw(chunks) <= chunks.len() * 0xffff_ffff,
        total_compressed(chunks) <= chunks.len() * 0xffff_ffff,
        small_count(chunks) <= chunks.len(),
    decreases chunks.len(),
{
    if chunks.len() > 0 {
        lemma_totals_bound(chunks.drop_last());
    }
}

proof fn lemma_totals_prefix(chunks: Seq<ChunkView>, k: int)
    requires
        0 <= k <= chunks.len(),
    ensures
        total_raw(chunks.take(k)) <= total_raw(chunks),
        total_compressed(chunks.take(k)) <= total_compressed(chunks),
    decreases chunks.len() - k,
{
    if k < chunks.len() {
        lemma_totals_prefix(chunks, k + 1);
        assert(chunks.take(k + 1).drop_last() =~= chunks.take(k));
    } else {
        assert(chunks.take(k) =~= chunks);
    }
}

/// Counts and size totals of the chunks (the sums fitting 64 bits).
pub fn get_processing_stats(chunks: &[Chunk]) -> (r: ProcessingStats)
    requires
        total_raw(chunk_views(chunks@)) <= u64::MAX,
        total_compressed(chunk_views(chunks@)) <= u64::MAX,
    ensures
        r.total_chunks == chunks@.len(),
        r.small_chunks == small_count(chunk_views(chunks@)),
        r.large_chunks == chunks@.len() - small_count(chunk_views(chunks@)),
        r.total_raw_size == total_raw(chunk_views(chunks@)),
        r.total_compressed_size == total_compressed(chunk_views(chunks@)),
{
    let mut total_raw_size: u64 = 0;
    let mut total_compressed_size: u64 = 0;
    let mut small_chunks: usize = 0;
    let mut i: usize = 0;
    while i < chunks.len()
        invariant
            i <= chunks@.len(),
            total_raw_size == total_raw(chunk_views(chunks@).take(i as int)),
            total_compressed_size == total_compressed(chunk_views(chunks@).take(i as int)),
            small_chunks == small_count(chunk_views(chunks@).take(i as int)),
            total_raw(chunk_views(chunks@)) <= u64::MAX,
            total_compressed(chunk_views(chunks@)) <= u64::MAX,
        decreases chunks@.len() - i,
    {
        let ghost prefix = chunk_views(chunks@).take(i + 1);
        assert(prefix.drop_last() =~= chunk_views(chunks@).take(i as int));
        proof {
            lemma_totals_prefix(chunk_views(chunks@), i + 1);
            lemma_totals_bound(prefix.drop_last());
        }
        total_raw_size = total_raw_size + chunks[i].raw_size as u64;
        total_compressed_size = total_compressed_size + chunks[i].compressed_size as u64;
        if chunks[i].raw_size < SMALL_CHUNK_LIMIT {
            small_chunks = small_chunks + 1;
        }
        i += 1;
    }
    assert(chunk_views(chunks@).take(i as int) =~= chunk_views(chunks@));
    proof {
        lemma_totals_bound(chunk_views(chunks@));
    }
    ProcessingStats {
        total_chunks: chunks.len(),
        small_chunks,
        large_chunks: chunks.len() - small_chunks,
        total_raw_size,
        total_compressed_size,
    }
}

} // verus!
