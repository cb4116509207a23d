//! Chunked file transfer: chunks of an upload held by index, assembled in
//! index order, and stored files read back by byte range.

use std::collections::HashMap;
use vstd::prelude::*;
use vstd::set_lib::{lemma_int_range, lemma_len_subset, lemma_subset_equality, set_int_range};

verus! {

/// Why a transfer request was not served.
#[derive(Debug, PartialEq, Eq, Clone, Copy)]
pub enum TransferError {
    /// A required field is empty, or the chunk index lies outside the declared count.
    Validation,
    /// The store underneath could not create, write, read or seek.
    Storage,
    /// No stored file has the requested name.
    NotFound,
    /// Assembly found no chunk at this index.
    MissingChunk(u64),
}

/// What became of an accepted chunk.
#[derive(Debug, PartialEq, Eq, Clone, Copy)]
pub enum UploadStatus {
    /// The chunk is held; some index below the declared count is still missing.
    Pending,
    /// The chunk completed the upload: the file was assembled and its chunks dropped.
    Assembled,
}

/// The outcome of a range read on a stored file.
#[derive(Debug, PartialEq, Eq)]
pub enum RangeRead {
    /// The range starts at or past the end of the file, or asks for no bytes.
    NoContent,
    /// The bytes of the range, never empty.
    Bytes(Vec<u8>),
}

/// The chunk contents of a chunk table, by index.
pub open spec fn chunk_view(m: Map<u64, Vec<u8>>) -> Map<u64, Seq<u8>> {
    m.map_values(|v: Vec<u8>| v@)
}

/// Every index below `total` holds a chunk.
pub open spec fn all_present(chunks: Map<u64, Seq<u8>>, total: nat) -> bool {
    forall|i: u64| (i as nat) < total ==> #[trigger] chunks.contains_key(i)
}

/// The chunks at indices `0 .. n`, concatenated in index order.
pub open spec fn concat_chunks(chunks: Map<u64, Seq<u8>>, n: nat) -> Seq<u8>
    decreases n,
{
    if n == 0 {
        Seq::empty()
    } else {
        concat_chunks(chunks, (n - 1) as nat) + chunks[(n - 1) as u64]
    }
}

/// The bytes of `data` from `offset`, at most `size` of them.
pub open spec fn range_of(data: Seq<u8>, offset: nat, size: nat) -> Seq<u8> {
    if offset >= data.len() {
        Seq::empty()
    } else if offset + size >= data.len() {
        data.subrange(offset as int, data.len() as int)
    } else {
        data.subrange(offset as int, (offset + size) as int)
    }
}

/// Concatenates the chunks at indices `0 .. total_chunks` in index order.
/// Fails with the least index that holds no chunk, if there is one.
pub fn assemble_chunks(chunks: &HashMap<u64, Vec<u8>>, total_chunks: u64) -> (r: Result<
    Vec<u8>,
    TransferError,
>)
    ensures
        r is Ok <==> all_present(chunk_view(chunks@), total_chunks as nat),
        r matches Ok(out) ==> out@ == concat_chunks(chunk_view(chunks@), total_chunks as nat),
        r matches Err(e) ==> e matches TransferError::MissingChunk(i) && i < total_chunks
            && !chunks@.contains_key(i) && forall|j: u64| j < i ==> #[trigger] chunks@.contains_key(j),
{
    let ghost view = chunk_view(chunks@);
    let mut out: Vec<u8> = Vec::new();
    let mut i: u64 = 0;
    while i < total_chunks
        invariant
            view == chunk_view(chunks@),
            i <= total_chunks,
            all_present(view, i as nat),
            out@ == concat_chunks(view, i as nat),
        decreases total_chunks - i,
    {
        match chunks.get(&i) {
            Some(c) => {
                let ghost base = out@;
                let mut k: usize = 0;
                while k < c.len()
                    invariant
                        k <= c@.len(),
                        out@ == base + c@.subrange(0, k as int),
                    decreases c@.len() - k,
                {
                    out.push(c[k]);
                    assert(c@.subrange(0, k + 1) =~= c@.subrange(0, k as int).push(c@[k as int]));
                    assert(out@ =~= base + c@.subrange(0, k + 1));
                    k += 1;
                }
                assert(c@.subrange(0, c@.len() as int) =~= c@);
                assert(view[i] == c@);
                i += 1;
            },
            None => {
                assert(!chunks@.contains_key(i));
                assert(!view.contains_key(i));
                assert forall|j: u64| j < i implies #[trigger] chunks@.contains_key(j) by {
                    assert(view.contains_key(j));
                }
                return Err(TransferError::MissingChunk(i));
            },
        }
    }
    Ok(out)
}

/// The bytes of `data` from `offset`, at most `chunk_size` of them; `NoContent`
/// where that is no byte at all.
pub fn slice_range(data: &Vec<u8>, offset: u64, chunk_size: u64) -> (r: RangeRead)
    ensures
        r is NoContent <==> range_of(data@, offset as nat, chunk_size as nat).len() == 0,
        r matches RangeRead::Bytes(b) ==> b@ == range_of(data@, offset as nat, chunk_size as nat),
{
    let len = data.len() as u64;
    if offset >= len || chunk_size == 0 {
        return RangeRead::NoContent;
    }
    let end: u64 = if chunk_size >= len - offset { len } else { offset + chunk_size };
    let mut out: Vec<u8> = Vec::new();
    let mut k: usize = offset as usize;
    while k < end as usize
        invariant
            offset <= k <= end <= data@.len(),
            out@ == data@.subrange(offset as int, k as int),
        decreases end - k,
    {
        out.push(data[k]);
        assert(data@.subrange(offset as int, k + 1) =~= data@.subrange(offset as int, k as int).push(data@[k as int]));
        k += 1;
    }
    RangeRead::Bytes(out)
}

/// The chunk table after chunks arrive in the order of `arrivals`, each as
/// (index, bytes), starting from `m`.
pub open spec fn receive_all(m: Map<u64, Seq<u8>>, arrivals: Seq<(u64, Seq<u8>)>) -> Map<
    u64,
    Seq<u8>,
>
    decreases arrivals.len(),
{
    if arrivals.len() == 0 {
        m
    } else {
        receive_all(m, arrivals.drop_last()).insert(arrivals.last().0, arrivals.last().1)
    }
}

/// No two arrivals carry the same index.
pub open spec fn distinct_indices(arrivals: Seq<(u64, Seq<u8>)>) -> bool {
    forall|i: int, j: int| 0 <= i < j < arrivals.len() ==> arrivals[i].0 != arrivals[j].0
}

proof fn lemma_concat_prefix(m: Map<u64, Seq<u8>>, j: nat, n: nat)
    requires
        j <= n,
    ensures
        concat_chunks(m, j).len() <= concat_chunks(m, n).len(),
        concat_chunks(m, n).subrange(0, concat_chunks(m, j).len() as int) == concat_chunks(m, j),
    decreases n,
{
    if j < n {
        lemma_concat_prefix(m, j, (n - 1) as nat);
        let p = concat_chunks(m, (n - 1) as nat);
        let q = concat_chunks(m, j);
        assert(concat_chunks(m, n).subrange(0, q.len() as int) =~= p.subrange(0, q.len() as int));
    } else {
        assert(concat_chunks(m, n).subrange(0, concat_chunks(m, n).len() as int) =~= concat_chunks(m, n));
    }
}

/// A chunk sent again at one index replaces the earlier bytes there: the table
/// is as if only the later bytes had come, and the assembled file holds them at
/// that index's place.
pub proof fn lemma_resent_chunk_replaces(
    m: Map<u64, Seq<u8>>,
    k: u64,
    first: Seq<u8>,
    second: Seq<u8>,
    total: nat,
)
    requires
        (k as nat) < total,
    ensures
        m.insert(k, first).insert(k, second) == m.insert(k, second),
        ({
            let a = m.insert(k, second);
            let start = concat_chunks(a, k as nat).len();
            concat_chunks(a, total).subrange(start as int, (start + second.len()) as int) == second
        }),
{
    assert(m.insert(k, first).insert(k, second) =~= m.insert(k, second));
    let a = m.insert(k, second);
    let before = concat_chunks(a, k as nat);
    let upto = concat_chunks(a, (k + 1) as nat);
    assert(upto == before + second);
    lemma_concat_prefix(a, (k + 1) as nat, total);
    let whole = concat_chunks(a, total);
    assert(whole.subrange(before.len() as int, (before.len() + second.len()) as int) =~= upto.subrange(
        before.len() as int,
        (before.len() + second.len()) as int,
    ));
    assert(upto.subrange(before.len() as int, (before.len() + second.len()) as int) =~= second);
}

/// Some arrival carries index `k`.
pub open spec fn index_among(arrivals: Seq<(u64, Seq<u8>)>, k: u64) -> bool {
    exists|j: int| 0 <= j < arrivals.len() && arrivals[j].0 == k
}

proof fn lemma_receive_all_distinct(m: Map<u64, Seq<u8>>, arrivals: Seq<(u64, Seq<u8>)>)
    requires
        distinct_indices(arrivals),
    ensures
        forall|j: int|
            0 <= j < arrivals.len() ==> receive_all(m, arrivals).contains_key(#[trigger] arrivals[j].0)
                && receive_all(m, arrivals)[arrivals[j].0] == arrivals[j].1,
        forall|k: u64|
            !index_among(arrivals, k) ==> (#[trigger] receive_all(m, arrivals).contains_key(k)
                == m.contains_key(k) && (m.contains_key(k) ==> receive_all(m, arrivals)[k] == m[k])),
    decreases arrivals.len(),
{
    if arrivals.len() > 0 {
        let front = arrivals.drop_last();
        lemma_receive_all_distinct(m, front);
        assert forall|j: int| 0 <= j < arrivals.len() implies receive_all(m, arrivals).contains_key(
            #[trigger] arrivals[j].0,
        ) && receive_all(m, arrivals)[arrivals[j].0] == arrivals[j].1 by {
            if j < arrivals.len() - 1 {
                assert(front[j] == arrivals[j]);
            }
        }
        assert forall|k: u64| !index_among(arrivals, k) implies (#[trigger] receive_all(
            m,
            arrivals,
        ).contains_key(k) == m.contains_key(k) && (m.contains_key(k) ==> receive_all(m, arrivals)[k]
            == m[k])) by {
            assert(arrivals[arrivals.len() - 1].0 != k);
            if index_among(front, k) {
                let j = choose|j: int| 0 <= j < front.len() && front[j].0 == k;
                assert(front[j] == arrivals[j]);
            }
            assert(receive_all(m, front).contains_key(k) == m.contains_key(k));
        }
    }
}

/// Chunks with distinct indices give the same table, and so the same
/// assembled file, in whatever order they arrive.
pub proof fn lemma_arrival_order_irrelevant(
    m: Map<u64, Seq<u8>>,
    arrivals: Seq<(u64, Seq<u8>)>,
    reordered: Seq<(u64, Seq<u8>)>,
    total: nat,
)
    requires
        distinct_indices(arrivals),
        distinct_indices(reordered),
        arrivals.to_multiset() == reordered.to_multiset(),
    ensures
        receive_all(m, arrivals) == receive_all(m, reordered),
        concat_chunks(receive_all(m, arrivals), total) == concat_chunks(
            receive_all(m, reordered),
            total,
        ),
{
    broadcast use vstd::seq_lib::group_to_multiset_ensures;

    lemma_receive_all_distinct(m, arrivals);
    lemma_receive_all_distinct(m, reordered);
    let a = receive_all(m, arrivals);
    let b = receive_all(m, reordered);
    assert forall|k: u64| #[trigger] a.contains_key(k) == b.contains_key(k) && (a.contains_key(k) ==> a[k] == b[k]) by {
        if exists|j: int| 0 <= j < arrivals.len() && #[trigger] arrivals[j].0 == k {
            let j = choose|j: int| 0 <= j < arrivals.len() && #[trigger] arrivals[j].0 == k;
            arrivals.to_multiset_ensures();
            reordered.to_multiset_ensures();
            assert(arrivals.contains(arrivals[j]));
            assert(arrivals.to_multiset().count(arrivals[j]) > 0);
            assert(reordered.contains(arrivals[j]));
            let j2 = choose|j2: int| 0 <= j2 < reordered.len() && reordered[j2] == arrivals[j];
            assert(reordered[j2].0 == k);
        } else if exists|j: int| 0 <= j < reordered.len() && #[trigger] reordered[j].0 == k {
            let j = choose|j: int| 0 <= j < reordered.len() && #[trigger] reordered[j].0 == k;
            arrivals.to_multiset_ensures();
            reordered.to_multiset_ensures();
            assert(reordered.contains(reordered[j]));
            assert(reordered.to_multiset().count(reordered[j]) > 0);
            assert(arrivals.contains(reordered[j]));
            let j2 = choose|j2: int| 0 <= j2 < arrivals.len() && arrivals[j2] == reordered[j];
            assert(arrivals[j2].0 == k);
        } else {
            assert(!index_among(arrivals, k));
            assert(!index_among(reordered, k));
            assert(a.contains_key(k) == m.contains_key(k));
            assert(b.contains_key(k) == m.contains_key(k));
        }
    }
    assert(a =~= b);
}

/// What one key holds: the chunks of its upload in progress, and the file
/// assembled last.
pub type KeyState = (Map<u64, Seq<u8>>, Option<Seq<u8>>);

/// One accepted chunk on a key: it is held at its index; when every index
/// below `total` then holds a chunk, the file is assembled and the chunks go.
pub open spec fn upload_step(state: KeyState, index: u64, bytes: Seq<u8>, total: nat) -> KeyState {
    let m = state.0.insert(index, bytes);
    if all_present(m, total) {
        (Map::empty(), Some(concat_chunks(m, total)))
    } else {
        (m, state.1)
    }
}

/// The state of a key after accepted chunks arrive in the order of `arrivals`.
pub open spec fn upload_run(state: KeyState, arrivals: Seq<(u64, Seq<u8>)>, total: nat) -> KeyState
    decreases arrivals.len(),
{
    if arrivals.len() == 0 {
        state
    } else {
        let last = arrivals.last();
        upload_step(upload_run(state, arrivals.drop_last(), total), last.0, last.1, total)
    }
}

/// The indices the arrivals carry, as integers.
spec fn index_set(arrivals: Seq<(u64, Seq<u8>)>) -> Set<int> {
    arrivals.map_values(|p: (u64, Seq<u8>)| p.0 as int).to_set()
}

proof fn lemma_index_set(arrivals: Seq<(u64, Seq<u8>)>)
    requires
        distinct_indices(arrivals),
    ensures
        index_set(arrivals).finite(),
        index_set(arrivals).len() == arrivals.len(),
        forall|x: int| #[trigger]
            index_set(arrivals).contains(x) <==> exists|j: int|
                0 <= j < arrivals.len() && arrivals[j].0 as int == x,
{
    let ix = arrivals.map_values(|p: (u64, Seq<u8>)| p.0 as int);
    assert(ix.no_duplicates());
    ix.unique_seq_to_set();
    assert forall|x: int| #[trigger]
        index_set(arrivals).contains(x) <==> exists|j: int|
            0 <= j < arrivals.len() && arrivals[j].0 as int == x by {
        if index_set(arrivals).contains(x) {
            assert(ix.contains(x));
            let j = choose|j: int| 0 <= j < ix.len() && ix[j] == x;
            assert(arrivals[j].0 as int == x);
        }
        if exists|j: int| 0 <= j < arrivals.len() && arrivals[j].0 as int == x {
            let j = choose|j: int| 0 <= j < arrivals.len() && arrivals[j].0 as int == x;
            assert(ix[j] == x);
            assert(ix.contains(x));
        }
    }
}

/// Fewer distinct arrivals than the declared count never complete an upload.
proof fn lemma_short_run_incomplete(arrivals: Seq<(u64, Seq<u8>)>, total: nat)
    requires
        distinct_indices(arrivals),
        arrivals.len() < total,
        total <= u64::MAX,
    ensures
        !all_present(receive_all(Map::empty(), arrivals), total),
{
    let m = receive_all(Map::empty(), arrivals);
    if all_present(m, total) {
        lemma_receive_all_distinct(Map::empty(), arrivals);
        lemma_index_set(arrivals);
        lemma_int_range(0, total as int);
        assert forall|x: int| #[trigger] set_int_range(0, total as int).contains(x) implies index_set(
            arrivals,
        ).contains(x) by {
            let i = x as u64;
            assert(m.contains_key(i));
            if !index_among(arrivals, i) {
                assert(!Map::<u64, Seq<u8>>::empty().contains_key(i));
            }
            let j = choose|j: int| 0 <= j < arrivals.len() && arrivals[j].0 == i;
            assert(arrivals[j].0 as int == x);
        }
        lemma_len_subset(set_int_range(0, total as int), index_set(arrivals));
    }
}

/// Arrivals of every index below the count, each once, complete the upload.
proof fn lemma_full_run_complete(arrivals: Seq<(u64, Seq<u8>)>, total: nat)
    requires
        distinct_indices(arrivals),
        arrivals.len() == total,
        forall|j: int| 0 <= j < arrivals.len() ==> (#[trigger] arrivals[j].0 as nat) < total,
    ensures
        all_present(receive_all(Map::empty(), arrivals), total),
{
    let m = receive_all(Map::empty(), arrivals);
    lemma_receive_all_distinct(Map::empty(), arrivals);
    lemma_index_set(arrivals);
    lemma_int_range(0, total as int);
    assert(index_set(arrivals).subset_of(set_int_range(0, total as int))) by {
        assert forall|x: int| #[trigger] index_set(arrivals).contains(x) implies set_int_range(
            0,
            total as int,
        ).contains(x) by {
            let j = choose|j: int| 0 <= j < arrivals.len() && arrivals[j].0 as int == x;
            assert((arrivals[j].0 as nat) < total);
        }
    }
    lemma_subset_equality(index_set(arrivals), set_int_range(0, total as int));
    assert forall|i: u64| (i as nat) < total implies #[trigger] m.contains_key(i) by {
        assert(set_int_range(0, total as int).contains(i as int));
        assert(index_set(arrivals).contains(i as int));
        let j = choose|j: int| 0 <= j < arrivals.len() && arrivals[j].0 as int == i as int;
        assert(arrivals[j].0 == i);
    }
}

proof fn lemma_run_prefix(arrivals: Seq<(u64, Seq<u8>)>, total: nat, before: Option<Seq<u8>>, j: int)
    requires
        distinct_indices(arrivals),
        arrivals.len() == total,
        1 <= total <= u64::MAX,
        forall|i: int| 0 <= i < arrivals.len() ==> (#[trigger] arrivals[i].0 as nat) < total,
        0 <= j <= total,
    ensures
        j < total ==> upload_run((Map::empty(), before), arrivals.take(j), total) == (
        receive_all(Map::empty(), arrivals.take(j)),
        before,
        ),
        j == total ==> upload_run((Map::empty(), before), arrivals.take(j), total) == (
        Map::<u64, Seq<u8>>::empty(),
        Some(concat_chunks(receive_all(Map::empty(), arrivals), total)),
        ),
    decreases j,
{
    if j > 0 {
        lemma_run_prefix(arrivals, total, before, j - 1);
        let pre = arrivals.take(j);
        assert(pre.drop_last() =~= arrivals.take(j - 1));
        assert(pre.last() == arrivals[j - 1]);
        assert(distinct_indices(pre));
        if j < total {
            lemma_short_run_incomplete(pre, total);
        } else {
            assert(pre =~= arrivals);
            lemma_full_run_complete(arrivals, total);
        }
    } else {
        assert(arrivals.take(0) =~= Seq::<(u64, Seq<u8>)>::empty());
    }
}

/// Each index below the count arriving once, in any order: no arrival but
/// the last assembles (the chunks so far are held and the stored file is
/// untouched), the last assembles exactly once, and the file is the same as
/// for any other order of the same chunks.
pub proof fn lemma_permuted_upload(
    arrivals: Seq<(u64, Seq<u8>)>,
    reordered: Seq<(u64, Seq<u8>)>,
    total: u64,
    before: Option<Seq<u8>>,
)
    requires
        distinct_indices(arrivals),
        distinct_indices(reordered),
        arrivals.to_multiset() == reordered.to_multiset(),
        total >= 1,
        arrivals.len() == total,
        forall|i: int| 0 <= i < arrivals.len() ==> #[trigger] arrivals[i].0 < total,
    ensures
        forall|j: int|
            0 <= j < total ==> #[trigger] upload_run(
                (Map::empty(), before),
                arrivals.take(j),
                total as nat,
            ) == (receive_all(Map::empty(), arrivals.take(j)), before),
        upload_run((Map::empty(), before), arrivals, total as nat) == (
        Map::<u64, Seq<u8>>::empty(),
        Some(concat_chunks(receive_all(Map::empty(), arrivals), total as nat)),
        ),
        upload_run((Map::empty(), before), reordered, total as nat) == upload_run(
            (Map::empty(), before),
            arrivals,
            total as nat,
        ),
{
    broadcast use vstd::seq_lib::group_to_multiset_ensures;

    assert forall|j: int| 0 <= j < total implies #[trigger] upload_run(
        (Map::empty(), before),
        arrivals.take(j),
        total as nat,
    ) == (receive_all(Map::empty(), arrivals.take(j)), before) by {
        lemma_run_prefix(arrivals, total as nat, before, j);
    }
    lemma_run_prefix(arrivals, total as nat, before, total as int);
    assert(arrivals.take(total as int) =~= arrivals);
    arrivals.to_multiset_ensures();
    reordered.to_multiset_ensures();
    assert(reordered.len() == total);
    assert forall|i: int| 0 <= i < reordered.len() implies (#[trigger] reordered[i].0 as nat) < total by {
        assert(reordered.contains(reordered[i]));
        assert(reordered.to_multiset().count(reordered[i]) > 0);
        assert(arrivals.contains(reordered[i]));
        let k = choose|k: int| 0 <= k < arrivals.len() && arrivals[k] == reordered[i];
        assert(arrivals[k].0 < total);
    }
    lemma_run_prefix(reordered, total as nat, before, total as int);
    assert(reordered.take(total as int) =~= reordered);
    lemma_arrival_order_irrelevant(Map::empty(), arrivals, reordered, total as nat);
}

/// The edges of a range read on a file of `data.len()` bytes: from the end,
/// no byte; from the last byte, one; from the start with room to spare, the
/// whole file.
pub proof fn lemma_range_boundaries(data: Seq<u8>, size: nat)
    requires
        size > 0,
    ensures
        range_of(data, data.len(), size).len() == 0,
        data.len() > 0 ==> range_of(data, (data.len() - 1) as nat, size).len() == 1,
        range_of(data, 0, data.len() + size) == data,
{
    if data.len() > 0 {
        assert(range_of(data, 0, data.len() + size) =~= data);
    }
}

} // verus!
