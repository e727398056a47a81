use vstd::prelude::*;
use std::path::Path;
use ext_sort::buffer::mem::MemoryLimitedBufferBuilder;
use ext_sort::{ExternalSorter, ExternalSorterBuilder};
use crate::codec::{decode_stream, parse_stream};
use crate::collate::distinct_positions;
use crate::record::{bytes_lt, Record, RecordView, views};

verus! {

/// `a` may stand before `b` in a table sorted by hash, ties kept in position order.
pub open spec fn key_le(a: RecordView, b: RecordView) -> bool {
    bytes_lt(a.hash, b.hash) || (a.hash == b.hash && a.position <= b.position)
}

/// Sorted by hash, with records of equal hash in position order.
pub open spec fn hash_sorted(vs: Seq<RecordView>) -> bool {
    forall|i: int, j: int| 0 <= i < j < vs.len() ==> key_le(#[trigger] vs[i], #[trigger] vs[j])
}

/// The models of the records that came through, in order.
pub open spec fn delivered(v: Seq<Option<Record>>) -> Seq<RecordView>
    decreases v.len(),
{
    if v.len() == 0 {
        Seq::empty()
    } else {
        match v.last() {
            Some(r) => delivered(v.drop_last()).push(r@),
            None => delivered(v.drop_last()),
        }
    }
}

/// How many records failed to come through.
pub open spec fn failures(v: Seq<Option<Record>>) -> nat
    decreases v.len(),
{
    if v.len() == 0 {
        0
    } else {
        failures(v.drop_last()) + if v.last() is None { 1nat } else { 0nat }
    }
}

/// Relies on ext_sort's `ExternalSorter::sort`, which sorts chunks that fit the
/// memory limit, spills them to files under `tmp_dir` and merges them. Records are
/// ordered as the tuple (hash, position, offset, nonce). `None` when the sorter
/// could not start; `None` items where the merge reported an error. When no item
/// failed, the output holds exactly the input records, in that order.
#[verifier::external_body]
fn external_sort(records: Vec<Record>, memory_limit: u64, tmp_dir: &str) -> (r: Option<Vec<Option<Record>>>)
    ensures
        match r {
            Some(v) => failures(v@) == 0 ==> {
                &&& delivered(v@).to_multiset() == views(records@).to_multiset()
                &&& hash_sorted(delivered(v@))
            },
            None => true,
        },
{
    let sorter: ExternalSorter<([u8; 32], u64, u64, [u8; 4]), std::io::Error, MemoryLimitedBufferBuilder> =
        ExternalSorterBuilder::new().with_tmp_dir(Path::new(tmp_dir)).with_buffer(
        MemoryLimitedBufferBuilder::new(memory_limit)).build().ok()?;
    let input = records.into_iter().map(|r| Ok((r.hash, r.position, r.offset, r.nonce)));
    let merged = sorter.sort(input).ok()?;
    Some(merged.map(|item| item.ok().map(|(h, p, o, n)| Record::new(n, h, p, o))).collect())
}

proof fn lemma_bytes_lt_asymmetric(a: Seq<u8>, b: Seq<u8>)
    ensures
        !(bytes_lt(a, b) && bytes_lt(b, a)),
        !bytes_lt(a, a),
    decreases a.len(),
{
    if a.len() > 0 && b.len() > 0 && a[0] == b[0] {
        lemma_bytes_lt_asymmetric(a.drop_first(), b.drop_first());
    }
    if a.len() > 0 {
        lemma_bytes_lt_asymmetric(a.drop_first(), a.drop_first());
    }
}

proof fn lemma_key_le_antisymmetric(x: RecordView, y: RecordView)
    requires
        key_le(x, y),
        key_le(y, x),
    ensures
        x.position == y.position,
{
    lemma_bytes_lt_asymmetric(x.hash, y.hash);
    lemma_bytes_lt_asymmetric(x.hash, x.hash);
}

proof fn lemma_sorted_unique(a: Seq<RecordView>, b: Seq<RecordView>, src: Seq<RecordView>)
    requires
        a.to_multiset() == src.to_multiset(),
        b.to_multiset() == src.to_multiset(),
        distinct_positions(src),
        hash_sorted(a),
        hash_sorted(b),
    ensures
        a == b,
    decreases src.len(),
{
    broadcast use vstd::seq_lib::group_to_multiset_ensures;

    assert(a.to_multiset().len() == a.len() && b.to_multiset().len() == b.len());
    assert(src.to_multiset().len() == src.len());
    if a.len() == 0 {
        assert(a =~= b);
        return;
    }
    let x = a[0];
    let y = b[0];
    assert(a.to_multiset().count(x) > 0 && b.to_multiset().count(y) > 0);
    assert(a.contains(y) && b.contains(x));
    let ka = choose|k: int| 0 <= k < a.len() && a[k] == y;
    let kb = choose|k: int| 0 <= k < b.len() && b[k] == x;
    lemma_bytes_lt_asymmetric(x.hash, x.hash);
    if ka > 0 {
        assert(key_le(a[0], a[ka]));
    }
    if kb > 0 {
        assert(key_le(b[0], b[kb]));
    }
    lemma_key_le_antisymmetric(x, y);
    assert(src.contains(x) && src.contains(y));
    let ix = choose|k: int| 0 <= k < src.len() && src[k] == x;
    let iy = choose|k: int| 0 <= k < src.len() && src[k] == y;
    if ix < iy {
        assert(src[ix].position != src[iy].position);
    } else if iy < ix {
        assert(src[iy].position != src[ix].position);
    }
    assert(x == y);
    let rest = src.remove(ix);
    assert(rest.to_multiset() == src.to_multiset().remove(x));
    assert(a.remove(0) =~= a.drop_first());
    assert(b.remove(0) =~= b.drop_first());
    assert(a.remove(0).to_multiset() == a.to_multiset().remove(a[0]));
    assert(b.remove(0).to_multiset() == b.to_multiset().remove(b[0]));
    assert forall|i: int, j: int| 0 <= i < j < rest.len() implies (#[trigger] rest[i]).position
        != (#[trigger] rest[j]).position by {
        let si = if i < ix { i } else { i + 1 };
        let sj = if j < ix { j } else { j + 1 };
        assert(rest[i] == src[si] && rest[j] == src[sj]);
    }
    assert forall|i: int, j: int| 0 <= i < j < a.drop_first().len() implies key_le(
        #[trigger] a.drop_first()[i],
        #[trigger] a.drop_first()[j],
    ) by {
        assert(key_le(a[i + 1], a[j + 1]));
    }
    assert forall|i: int, j: int| 0 <= i < j < b.drop_first().len() implies key_le(
        #[trigger] b.drop_first()[i],
        #[trigger] b.drop_first()[j],
    ) by {
        assert(key_le(b[i + 1], b[j + 1]));
    }
    lemma_sorted_unique(a.drop_first(), b.drop_first(), rest);
    assert(a =~= seq![x] + a.drop_first());
    assert(b =~= seq![y] + b.drop_first());
}

/// The records of an intermediate stream have distinct positions: their indices.
pub proof fn lemma_stream_positions_distinct(stream: Seq<u8>)
    requires
        stream.len() <= usize::MAX,
    ensures
        distinct_positions(parse_stream(stream)),
{
    let vs = parse_stream(stream);
    assert forall|i: int, j: int| 0 <= i < j < vs.len() implies (#[trigger] vs[i]).position
        != (#[trigger] vs[j]).position by {
        assert(vs.len() <= stream.len());
        assert(vs[i].position == i as u64 && vs[j].position == j as u64);
    }
}

/// The sort stage's result is determined by its input: any two orderings of a
/// stream's records that are sorted by hash, ties in stream order, are the same.
/// Two runs that skip nothing therefore give the same table.
pub proof fn lemma_sort_deterministic(stream: Seq<u8>, a: Seq<RecordView>, b: Seq<RecordView>)
    requires
        stream.len() <= usize::MAX,
        a.to_multiset() == parse_stream(stream).to_multiset(),
        b.to_multiset() == parse_stream(stream).to_multiset(),
        hash_sorted(a),
        hash_sorted(b),
    ensures
        a == b,
{
    lemma_stream_positions_distinct(stream);
    lemma_sorted_unique(a, b, parse_stream(stream));
}

/// A table after the sort stage.
pub struct SortedTable {
    /// The records that came through the sort, in sorted order.
    pub records: Vec<Record>,
    /// How many records the sort reported as failed and were skipped.
    pub skipped: usize,
}

/// The sort stage could not run.
#[derive(Clone, Copy, Debug, PartialEq, Eq)]
pub enum SortStageError {
    SorterUnavailable,
}

/// Keeps the records that came through a merge, in order, and counts the others.
pub fn collect_delivered(merged: Vec<Option<Record>>) -> (r: SortedTable)
    ensures
        views(r.records@) == delivered(merged@),
        r.skipped == failures(merged@),
{
    let mut records: Vec<Record> = Vec::new();
    let mut skipped: usize = 0;
    let mut i: usize = 0;
    while i < merged.len()
        invariant
            i <= merged@.len(),
            views(records@) == delivered(merged@.subrange(0, i as int)),
            skipped == failures(merged@.subrange(0, i as int)),
            skipped <= i,
        decreases merged@.len() - i,
    {
        let ghost before = records@;
        assert(merged@.subrange(0, i + 1).drop_last() =~= merged@.subrange(0, i as int));
        match merged[i] {
            Some(rec) => {
                records.push(rec);
                assert(views(records@) =~= views(before).push(rec@));
            },
            None => {
                skipped = skipped + 1;
            },
        }
        i = i + 1;
    }
    assert(merged@.subrange(0, i as int) =~= merged@);
    SortedTable { records, skipped }
}

/// Sorts a table's intermediate stream by hash under a memory limit. Each record's
/// position and offset are its index in the stream, so records of equal hash keep
/// stream order. When nothing was skipped, the result holds exactly the records of
/// the stream, sorted.
pub fn sort_table(stream: &[u8], memory_limit: u64, tmp_dir: &str) -> (r: Result<SortedTable, SortStageError>)
    ensures
        match r {
            Ok(t) => t.skipped == 0 ==> {
                &&& views(t.records@).to_multiset() == parse_stream(stream@).to_multiset()
                &&& hash_sorted(views(t.records@))
            },
            Err(_) => true,
        },
{
    let records = decode_stream(stream);
    match external_sort(records, memory_limit, tmp_dir) {
        Some(merged) => Ok(collect_delivered(merged)),
        None => Err(SortStageError::SorterUnavailable),
    }
}

} // verus!
