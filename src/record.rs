use vstd::prelude::*;
use std::cmp::Ordering;

verus! {

/// Width of a nonce in bytes.
pub const NONCE_SIZE: usize = 4;

/// Width of a matching-function digest in bytes.
pub const HASH_SIZE: usize = 32;

/// One entry of a table.
///
/// `nonce` names the generation unit, `hash` is its matching value, and
/// `position` / `offset` link the entry back into its parent's index space.
#[derive(Clone, Copy, Debug)]
pub struct Record {
    pub nonce: [u8; 4],
    pub hash: [u8; 32],
    pub position: u64,
    pub offset: u64,
}

/// The mathematical model of a [`Record`]: its bytes as sequences and its links.
pub struct RecordView {
    pub nonce: Seq<u8>,
    pub hash: Seq<u8>,
    pub position: u64,
    pub offset: u64,
}

impl View for Record {
    type V = RecordView;

    open spec fn view(&self) -> RecordView {
        RecordView { nonce: self.nonce@, hash: self.hash@, position: self.position, offset: self.offset }
    }
}

/// The models of a sequence of records.
pub open spec fn views(rs: Seq<Record>) -> Seq<RecordView> {
    rs.map_values(|r: Record| r@)
}

/// Lexicographic "less than" on byte strings, as arrays of bytes are ordered.
pub open spec fn bytes_lt(a: Seq<u8>, b: Seq<u8>) -> bool
    decreases a.len(),
{
    if a.len() == 0 || b.len() == 0 {
        a.len() < b.len()
    } else if a[0] != b[0] {
        a[0] < b[0]
    } else {
        bytes_lt(a.drop_first(), b.drop_first())
    }
}

/// How two hashes compare, lexicographically.
pub open spec fn hash_order(a: Seq<u8>, b: Seq<u8>) -> Ordering {
    if bytes_lt(a, b) {
        Ordering::Less
    } else if bytes_lt(b, a) {
        Ordering::Greater
    } else {
        Ordering::Equal
    }
}

proof fn lemma_bytes_lt_skip(a: Seq<u8>, b: Seq<u8>, i: int)
    requires
        0 <= i <= a.len(),
        a.len() == b.len(),
        a.subrange(0, i) == b.subrange(0, i),
    ensures
        bytes_lt(a, b) == bytes_lt(a.subrange(i, a.len() as int), b.subrange(i, b.len() as int)),
    decreases i,
{
    if i == 0 {
        assert(a.subrange(0, a.len() as int) =~= a);
        assert(b.subrange(0, b.len() as int) =~= b);
    } else {
        assert(a[0] == a.subrange(0, i)[0] && b[0] == b.subrange(0, i)[0]);
        assert(a.drop_first().subrange(0, i - 1) =~= a.subrange(0, i).drop_first());
        assert(b.drop_first().subrange(0, i - 1) =~= b.subrange(0, i).drop_first());
        lemma_bytes_lt_skip(a.drop_first(), b.drop_first(), i - 1);
        assert(a.drop_first().subrange(i - 1, a.len() - 1) =~= a.subrange(i, a.len() as int));
        assert(b.drop_first().subrange(i - 1, b.len() - 1) =~= b.subrange(i, b.len() as int));
    }
}

proof fn lemma_bytes_lt_irreflexive(a: Seq<u8>)
    ensures
        !bytes_lt(a, a),
    decreases a.len(),
{
    if a.len() > 0 {
        lemma_bytes_lt_irreflexive(a.drop_first());
    }
}

/// Compares two hashes lexicographically.
pub fn compare_hashes(a: &[u8; 32], b: &[u8; 32]) -> (r: Ordering)
    ensures
        r == hash_order(a@, b@),
        (r == Ordering::Equal) == (a@ == b@),
{
    let mut i: usize = 0;
    assert(a@.subrange(0, 0) =~= b@.subrange(0, 0));
    while i < 32
        invariant
            i <= 32,
            a@.len() == 32 && b@.len() == 32,
            a@.subrange(0, i as int) == b@.subrange(0, i as int),
        decreases 32 - i,
    {
        if a[i] != b[i] {
            proof {
                lemma_bytes_lt_skip(a@, b@, i as int);
                lemma_bytes_lt_skip(b@, a@, i as int);
                assert(a@.subrange(i as int, 32)[0] == a@[i as int]);
                assert(b@.subrange(i as int, 32)[0] == b@[i as int]);
                assert(a@[i as int] != b@[i as int]);
            }
            return if a[i] < b[i] {
                Ordering::Less
            } else {
                Ordering::Greater
            };
        }
        proof {
            assert(a@.subrange(0, i + 1) =~= a@.subrange(0, i as int).push(a@[i as int]));
            assert(b@.subrange(0, i + 1) =~= b@.subrange(0, i as int).push(b@[i as int]));
        }
        i = i + 1;
    }
    proof {
        assert(a@ =~= a@.subrange(0, 32));
        assert(b@ =~= b@.subrange(0, 32));
        lemma_bytes_lt_irreflexive(a@);
    }
    Ordering::Equal
}

impl PartialEq for Record {
    /// Records are equal when their hashes are: the hash is the matching key.
    fn eq(&self, other: &Record) -> (r: bool) {
        match compare_hashes(&self.hash, &other.hash) {
            Ordering::Equal => true,
            _ => false,
        }
    }
}

impl vstd::std_specs::cmp::PartialEqSpecImpl for Record {
    open spec fn obeys_eq_spec() -> bool {
        true
    }

    open spec fn eq_spec(&self, other: &Record) -> bool {
        self.hash@ == other.hash@
    }
}

impl Eq for Record {}

impl PartialOrd for Record {
    /// Records are ordered by their hashes alone.
    fn partial_cmp(&self, other: &Record) -> (r: Option<Ordering>) {
        Some(compare_hashes(&self.hash, &other.hash))
    }
}

impl vstd::std_specs::cmp::PartialOrdSpecImpl for Record {
    open spec fn obeys_partial_cmp_spec() -> bool {
        true
    }

    open spec fn partial_cmp_spec(&self, other: &Record) -> Option<Ordering> {
        Some(hash_order(self.hash@, other.hash@))
    }
}

impl Record {
    pub fn new(nonce: [u8; 4], hash: [u8; 32], position: u64, offset: u64) -> (r: Record)
        ensures
            r@ == (RecordView { nonce: nonce@, hash: hash@, position, offset }),
    {
        Record { nonce, hash, position, offset }
    }
}

} // verus!
