use vstd::prelude::*;
use rayon::iter::IntoParallelRefIterator;
use rayon::iter::ParallelIterator;
use crate::matching::{compute_matching_function, matching_spec};
use crate::record::{Record, RecordView, views};

verus! {

/// Little-endian bytes of a 32-bit integer: the nonce of a generation index.
pub open spec fn le32(x: u32) -> Seq<u8> {
    seq![x as u8, (x >> 8u32) as u8, (x >> 16u32) as u8, (x >> 24u32) as u8]
}

/// Table 0 of one batch: `n` records whose nonces are the indices from `base` on.
pub open spec fn table0_batch(base: nat, n: nat) -> Seq<RecordView> {
    Seq::new(
        n,
        |i: int|
            RecordView {
                nonce: le32((base + i) as u32),
                hash: matching_spec(le32((base + i) as u32)),
                position: i as u64,
                offset: i as u64,
            },
    )
}

/// The batch of the next table derived from a parent batch: each record keeps
/// its parent's nonce, hashes it anew, and links to its parent's index.
pub open spec fn derived_batch(parent: Seq<RecordView>) -> Seq<RecordView> {
    Seq::new(
        parent.len(),
        |j: int|
            RecordView {
                nonce: parent[j].nonce,
                hash: matching_spec(parent[j].nonce),
                position: j as u64,
                offset: j as u64,
            },
    )
}

/// Relies on rayon's `par_iter().map(..).collect()` into a `Vec`: the results of
/// an indexed parallel iterator are collected in input order.
#[verifier::external_body]
fn par_matching(nonces: &Vec<[u8; 4]>) -> (r: Vec<[u8; 32]>)
    ensures
        r@.len() == nonces@.len(),
        forall|i: int| 0 <= i < r@.len() ==> (#[trigger] r@[i])@ == matching_spec(nonces@[i]@),
{
    nonces.par_iter().map(|n| compute_matching_function(n)).collect()
}

/// The nonce of a generation index: its four little-endian bytes.
pub fn nonce_of(x: u32) -> (r: [u8; 4])
    ensures
        r@ == le32(x),
{
    let r: [u8; 4] = [x as u8, (x >> 8u32) as u8, (x >> 16u32) as u8, (x >> 24u32) as u8];
    assert(r@ =~= le32(x));
    r
}

fn pair_up(nonces: &Vec<[u8; 4]>, hashes: &Vec<[u8; 32]>) -> (r: Vec<Record>)
    requires
        nonces@.len() == hashes@.len(),
        forall|i: int| 0 <= i < hashes@.len() ==> (#[trigger] hashes@[i])@ == matching_spec(nonces@[i]@),
    ensures
        r@.len() == nonces@.len(),
        forall|i: int|
            0 <= i < r@.len() ==> (#[trigger] r@[i])@ == (RecordView {
                nonce: nonces@[i]@,
                hash: matching_spec(nonces@[i]@),
                position: i as u64,
                offset: i as u64,
            }),
{
    let mut out: Vec<Record> = Vec::new();
    let mut i: usize = 0;
    while i < nonces.len()
        invariant
            nonces@.len() == hashes@.len(),
            forall|k: int| 0 <= k < hashes@.len() ==> (#[trigger] hashes@[k])@ == matching_spec(nonces@[k]@),
            i <= nonces@.len(),
            out@.len() == i,
            forall|k: int|
                0 <= k < i ==> (#[trigger] out@[k])@ == (RecordView {
                    nonce: nonces@[k]@,
                    hash: matching_spec(nonces@[k]@),
                    position: k as u64,
                    offset: k as u64,
                }),
        decreases nonces@.len() - i,
    {
        out.push(Record::new(nonces[i], hashes[i], i as u64, i as u64));
        i = i + 1;
    }
    out
}

/// Generates table 0 of one batch: the records of generation indices
/// `base .. base + n`, each linked to its index within the batch.
pub fn generate_first_table(base: u64, n: u64) -> (r: Vec<Record>)
    requires
        base + n <= u32::MAX + 1,
    ensures
        views(r@) == table0_batch(base as nat, n as nat),
{
    let mut nonces: Vec<[u8; 4]> = Vec::new();
    let mut i: u64 = 0;
    while i < n
        invariant
            base + n <= u32::MAX + 1,
            i <= n,
            nonces@.len() == i,
            forall|k: int| 0 <= k < i ==> (#[trigger] nonces@[k])@ == le32((base + k) as u32),
        decreases n - i,
    {
        nonces.push(nonce_of((base + i) as u32));
        i = i + 1;
    }
    let hashes = par_matching(&nonces);
    let r = pair_up(&nonces, &hashes);
    assert(views(r@) =~= table0_batch(base as nat, n as nat));
    r
}

/// Derives the batch of the next table from its parent's batch.
pub fn derive_table(parent: &Vec<Record>) -> (r: Vec<Record>)
    ensures
        views(r@) == derived_batch(views(parent@)),
{
    let mut nonces: Vec<[u8; 4]> = Vec::new();
    let mut i: usize = 0;
    while i < parent.len()
        invariant
            i <= parent@.len(),
            nonces@.len() == i,
            forall|k: int| 0 <= k < i ==> (#[trigger] nonces@[k]) == parent@[k].nonce,
        decreases parent@.len() - i,
    {
        nonces.push(parent[i].nonce);
        i = i + 1;
    }
    let hashes = par_matching(&nonces);
    let r = pair_up(&nonces, &hashes);
    assert(views(r@) =~= derived_batch(views(parent@)));
    r
}

/// Generates one batch of every table. Table 0 holds the generation indices
/// `batch_index * batch_size ..` of this batch, so that nonces never repeat
/// across batches; each later table is derived from the one before it.
pub fn forward_propagation(table_count: usize, batch_index: u64, batch_size: u64) -> (r: Vec<Vec<Record>>)
    requires
        batch_index * batch_size + batch_size <= u32::MAX + 1,
    ensures
        r@.len() == table_count,
        table_count > 0 ==> views(r@[0]@) == table0_batch(
            (batch_index * batch_size) as nat,
            batch_size as nat,
        ),
        forall|t: int| 0 < t < table_count ==> views(#[trigger] r@[t]@) == derived_batch(views(r@[t - 1]@)),
{
    let mut tables: Vec<Vec<Record>> = Vec::new();
    if table_count == 0 {
        return tables;
    }
    assert(batch_index * batch_size <= u32::MAX + 1) by (nonlinear_arith)
        requires
            batch_index * batch_size + batch_size <= u32::MAX + 1,
    ;
    let base: u64 = batch_index * batch_size;
    let first = generate_first_table(base, batch_size);
    tables.push(first);
    let mut t: usize = 1;
    while t < table_count
        invariant
            1 <= t <= table_count,
            tables@.len() == t,
            views(tables@[0]@) == table0_batch(base as nat, batch_size as nat),
            forall|u: int| 0 < u < t ==> views(#[trigger] tables@[u]@) == derived_batch(views(tables@[u - 1]@)),
        decreases table_count - t,
    {
        let next = derive_table(&tables[t - 1]);
        tables.push(next);
        t = t + 1;
    }
    tables
}

} // verus!
