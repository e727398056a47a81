use vstd::prelude::*;
use std::collections::HashMap;
use crate::record::{Record, RecordView, views};

verus! {

broadcast use vstd::std_specs::hash::group_hash_axioms;

/// Largest distance, exclusive, allowed between the links of a child and its parent.
pub const LINK_WINDOW: u64 = 10;

/// Leading hash bytes that a child and its parent must share.
pub const PREFIX_LEN: usize = 8;

/// The lookup key of a nonce: its bytes read as a little-endian integer.
pub open spec fn nonce_key(n: Seq<u8>) -> u32 {
    (n[0] as int + 256 * n[1] as int + 65536 * n[2] as int + 16777216 * n[3] as int) as u32
}

/// Distinct four-byte nonces have distinct lookup keys, so a lookup by key is a
/// lookup by nonce.
pub proof fn lemma_nonce_key_injective(a: Seq<u8>, b: Seq<u8>)
    requires
        a.len() == 4,
        b.len() == 4,
        nonce_key(a) == nonce_key(b),
    ensures
        a == b,
{
    let (a0, a1, a2, a3) = (a[0] as int, a[1] as int, a[2] as int, a[3] as int);
    let (b0, b1, b2, b3) = (b[0] as int, b[1] as int, b[2] as int, b[3] as int);
    assert(a0 + 256 * a1 + 65536 * a2 + 16777216 * a3 == b0 + 256 * b1 + 65536 * b2 + 16777216 * b3);
    assert(a0 == b0 && a1 == b1 && a2 == b2 && a3 == b3) by (nonlinear_arith)
        requires
            0 <= a0 < 256 && 0 <= a1 < 256 && 0 <= a2 < 256 && 0 <= a3 < 256,
            0 <= b0 < 256 && 0 <= b1 < 256 && 0 <= b2 < 256 && 0 <= b3 < 256,
            a0 + 256 * a1 + 65536 * a2 + 16777216 * a3 == b0 + 256 * b1 + 65536 * b2 + 16777216 * b3,
    ;
    assert(a =~= b);
}

/// The record of `prev` found for a key: the last one whose nonce has that key.
pub open spec fn parent_in(prev: Seq<RecordView>, key: u32) -> Option<RecordView>
    decreases prev.len(),
{
    if prev.len() == 0 {
        None
    } else if nonce_key(prev.last().nonce) == key {
        Some(prev.last())
    } else {
        parent_in(prev.drop_last(), key)
    }
}

/// The distance between two links.
pub open spec fn distance(a: u64, b: u64) -> int {
    if a >= b {
        a - b
    } else {
        b - a
    }
}

/// The collation predicate: equal first eight hash bytes, and positions and
/// offsets each less than ten apart.
pub open spec fn collation_holds(c: RecordView, p: RecordView) -> bool {
    &&& c.hash.subrange(0, 8) == p.hash.subrange(0, 8)
    &&& distance(c.position, p.position) < 10
    &&& distance(c.offset, p.offset) < 10
}

/// What a child that passes becomes: its nonce and position, its parent's hash and offset.
pub open spec fn survivor(c: RecordView, p: RecordView) -> RecordView {
    RecordView { nonce: c.nonce, hash: p.hash, position: c.position, offset: p.offset }
}

/// The survivors of `curr` against `prev`, in the order of `curr`.
pub open spec fn survivors(prev: Seq<RecordView>, curr: Seq<RecordView>) -> Seq<RecordView>
    decreases curr.len(),
{
    if curr.len() == 0 {
        Seq::empty()
    } else {
        let c = curr.last();
        let rest = survivors(prev, curr.drop_last());
        match parent_in(prev, nonce_key(c.nonce)) {
            Some(p) => if collation_holds(c, p) {
                rest.push(survivor(c, p))
            } else {
                rest
            },
            None => rest,
        }
    }
}

/// Non-decreasing by position.
pub open spec fn position_sorted(vs: Seq<RecordView>) -> bool {
    forall|i: int, j: int| 0 <= i < j < vs.len() ==> (#[trigger] vs[i]).position <= (#[trigger] vs[j]).position
}

/// Strictly ascending by position.
pub open spec fn position_ascending(vs: Seq<RecordView>) -> bool {
    forall|i: int, j: int| 0 <= i < j < vs.len() ==> (#[trigger] vs[i]).position < (#[trigger] vs[j]).position
}

/// No two records share a position.
pub open spec fn distinct_positions(vs: Seq<RecordView>) -> bool {
    forall|i: int, j: int| 0 <= i < j < vs.len() ==> (#[trigger] vs[i]).position != (#[trigger] vs[j]).position
}

/// The lookup key of a nonce.
pub fn nonce_key_of(n: &[u8; 4]) -> (r: u32)
    ensures
        r == nonce_key(n@),
{
    n[0] as u32 + 256 * (n[1] as u32) + 65536 * (n[2] as u32) + 16777216 * (n[3] as u32)
}

fn within_window(a: u64, b: u64) -> (r: bool)
    ensures
        r == (distance(a, b) < 10),
{
    if a >= b {
        a - b < LINK_WINDOW
    } else {
        b - a < LINK_WINDOW
    }
}

/// The collation predicate on a child record and its parent.
pub fn collation_match(current: &Record, previous: &Record) -> (r: bool)
    ensures
        r == collation_holds(current@, previous@),
{
    let mut same = true;
    let mut j: usize = 0;
    assert(current.hash@.subrange(0, 0) =~= previous.hash@.subrange(0, 0));
    while j < PREFIX_LEN
        invariant
            j <= 8,
            same == (current.hash@.subrange(0, j as int) == previous.hash@.subrange(0, j as int)),
        decreases 8 - j,
    {
        proof {
            let a = current.hash@;
            let b = previous.hash@;
            assert(a.subrange(0, j + 1) == a.subrange(0, j as int).push(a[j as int]));
            assert(b.subrange(0, j + 1) == b.subrange(0, j as int).push(b[j as int]));
            if a.subrange(0, j + 1) == b.subrange(0, j + 1) {
                assert(a.subrange(0, j + 1)[j as int] == b.subrange(0, j + 1)[j as int]);
                assert(a.subrange(0, j as int) =~= a.subrange(0, j + 1).drop_last());
                assert(b.subrange(0, j as int) =~= b.subrange(0, j + 1).drop_last());
            }
        }
        same = same && current.hash[j] == previous.hash[j];
        j = j + 1;
    }
    same && within_window(current.position, previous.position) && within_window(
        current.offset,
        previous.offset,
    )
}

/// Builds the lookup from nonce key to the record of `prev` found for it.
pub fn build_lookup(prev: &Vec<Record>) -> (m: HashMap<u32, Record>)
    ensures
        forall|key: u32|
            #![trigger parent_in(views(prev@), key)]
            match parent_in(views(prev@), key) {
                Some(p) => m@.contains_key(key) && m@[key]@ == p,
                None => !m@.contains_key(key),
            },
{
    let mut m: HashMap<u32, Record> = HashMap::new();
    let mut i: usize = 0;
    while i < prev.len()
        invariant
            i <= prev@.len(),
            forall|key: u32|
                #![trigger parent_in(views(prev@.subrange(0, i as int)), key)]
                match parent_in(views(prev@.subrange(0, i as int)), key) {
                    Some(p) => m@.contains_key(key) && m@[key]@ == p,
                    None => !m@.contains_key(key),
                },
        decreases prev@.len() - i,
    {
        let rec = prev[i];
        let k = nonce_key_of(&rec.nonce);
        m.insert(k, rec);
        proof {
            let now = views(prev@.subrange(0, i + 1));
            assert(now.drop_last() =~= views(prev@.subrange(0, i as int)));
            assert(now.last() == rec@);
            assert forall|key: u32| #![trigger parent_in(now, key)]
                match parent_in(now, key) {
                    Some(p) => m@.contains_key(key) && m@[key]@ == p,
                    None => !m@.contains_key(key),
                } by {
                assert(parent_in(views(prev@.subrange(0, i as int)), key) == parent_in(now.drop_last(), key));
            }
        }
        i = i + 1;
    }
    assert(prev@.subrange(0, i as int) =~= prev@);
    m
}

/// Relies on std's `slice::sort_by_key`: the same records, ordered by position.
#[verifier::external_body]
fn sort_by_position(v: &mut Vec<Record>)
    ensures
        views(final(v)@).to_multiset() == views(old(v)@).to_multiset(),
        position_sorted(views(final(v)@)),
{
    v.sort_by_key(|r| r.position)
}

proof fn lemma_survivors_from_curr(prev: Seq<RecordView>, curr: Seq<RecordView>)
    ensures
        survivors(prev, curr).len() <= curr.len(),
        forall|i: int|
            0 <= i < survivors(prev, curr).len() ==> exists|k: int|
                0 <= k < curr.len() && (#[trigger] survivors(prev, curr)[i]).position == curr[k].position,
        distinct_positions(curr) ==> distinct_positions(survivors(prev, curr)),
    decreases curr.len(),
{
    if curr.len() > 0 {
        let p = curr.drop_last();
        lemma_survivors_from_curr(prev, p);
        let s = survivors(prev, curr);
        let sp = survivors(prev, p);
        assert forall|i: int| 0 <= i < s.len() implies exists|k: int|
            0 <= k < curr.len() && (#[trigger] s[i]).position == curr[k].position by {
            if i < sp.len() {
                assert(s[i] == sp[i]);
                let k = choose|k: int| 0 <= k < p.len() && sp[i].position == p[k].position;
                assert(curr[k] == p[k]);
            } else {
                assert(s[i].position == curr[curr.len() - 1].position);
            }
        }
        if distinct_positions(curr) {
            assert forall|i: int, j: int| 0 <= i < j < s.len() implies (#[trigger] s[i]).position
                != (#[trigger] s[j]).position by {
                assert(s[i] == sp[i]);
                if j < sp.len() {
                    assert(s[j] == sp[j]);
                    assert(distinct_positions(p)) by {
                        assert forall|a: int, b: int| 0 <= a < b < p.len() implies (#[trigger] p[a]).position
                            != (#[trigger] p[b]).position by {
                            assert(p[a] == curr[a] && p[b] == curr[b]);
                        }
                    }
                } else {
                    let k = choose|k: int| 0 <= k < p.len() && sp[i].position == p[k].position;
                    assert(curr[k] == p[k]);
                    assert(s[j].position == curr[curr.len() - 1].position);
                }
            }
        }
    }
}

/// A permutation of a sequence whose positions are distinct, sorted by position,
/// is strictly ascending by position.
proof fn lemma_sorted_distinct(out: Seq<RecordView>, src: Seq<RecordView>)
    requires
        out.to_multiset() == src.to_multiset(),
        distinct_positions(src),
        position_sorted(out),
    ensures
        position_ascending(out),
{
    broadcast use vstd::seq_lib::group_to_multiset_ensures;

    assert(src.no_duplicates()) by {
        assert forall|i: int, j: int| 0 <= i < src.len() && 0 <= j < src.len() && i != j implies src[i]
            != src[j] by {
            if i < j {
                assert(src[i].position != src[j].position);
            } else {
                assert(src[j].position != src[i].position);
            }
        }
    }
    src.lemma_multiset_has_no_duplicates();
    out.lemma_multiset_has_no_duplicates_conv();
    assert forall|i: int, j: int| 0 <= i < j < out.len() implies (#[trigger] out[i]).position
        < (#[trigger] out[j]).position by {
        assert(out.to_multiset().count(out[i]) > 0);
        assert(out.to_multiset().count(out[j]) > 0);
        assert(src.contains(out[i]));
        assert(src.contains(out[j]));
        let a = choose|a: int| 0 <= a < src.len() && src[a] == out[i];
        let b = choose|b: int| 0 <= b < src.len() && src[b] == out[j];
        assert(out[i] != out[j]);
        assert(a != b);
        if a < b {
            assert(src[a].position != src[b].position);
        } else {
            assert(src[b].position != src[a].position);
        }
    }
}

/// One step of the backward pass: keeps each record of `curr` whose parent in
/// `prev` passes the collation predicate, rewritten as [`survivor`], and orders
/// the result by position.
pub fn collate_tables(prev: &Vec<Record>, curr: &Vec<Record>) -> (r: Vec<Record>)
    ensures
        views(r@).to_multiset() == survivors(views(prev@), views(curr@)).to_multiset(),
        position_sorted(views(r@)),
        r@.len() <= curr@.len(),
        distinct_positions(views(curr@)) ==> position_ascending(views(r@)),
{
    let lookup = build_lookup(prev);
    let ghost pv = views(prev@);
    let mut out: Vec<Record> = Vec::new();
    let mut i: usize = 0;
    while i < curr.len()
        invariant
            i <= curr@.len(),
            pv == views(prev@),
            forall|key: u32|
                #![trigger parent_in(pv, key)]
                match parent_in(pv, key) {
                    Some(p) => lookup@.contains_key(key) && lookup@[key]@ == p,
                    None => !lookup@.contains_key(key),
                },
            views(out@) == survivors(pv, views(curr@.subrange(0, i as int))),
        decreases curr@.len() - i,
    {
        let c = curr[i];
        let ghost before = out@;
        proof {
            let now = views(curr@.subrange(0, i + 1));
            assert(now.drop_last() =~= views(curr@.subrange(0, i as int)));
            assert(now.last() == c@);
        }
        let k = nonce_key_of(&c.nonce);
        assert(parent_in(pv, k) == parent_in(pv, nonce_key(c@.nonce)));
        match lookup.get(&k) {
            Some(p) => {
                if collation_match(&c, p) {
                    out.push(Record::new(c.nonce, p.hash, c.position, p.offset));
                    assert(views(out@) =~= views(before).push(survivor(c@, p@)));
                }
            },
            None => {},
        }
        i = i + 1;
    }
    assert(curr@.subrange(0, i as int) =~= curr@);
    let ghost unsorted = out@;
    sort_by_position(&mut out);
    proof {
        broadcast use vstd::seq_lib::group_to_multiset_ensures;

        lemma_survivors_from_curr(pv, views(curr@));
        assert(views(out@).to_multiset().len() == views(out@).len());
        assert(views(unsorted).to_multiset().len() == views(unsorted).len());
        assert(views(out@).len() == views(unsorted).len());
        if distinct_positions(views(curr@)) {
            lemma_sorted_distinct(views(out@), survivors(pv, views(curr@)));
        }
    }
    out
}

} // verus!
