use vstd::prelude::*;
use crate::record::{Record, RecordView, views};

verus! {

/// Bytes of one unit of an intermediate stream: nonce, then hash.
pub const STREAM_UNIT_SIZE: usize = 36;

/// Bytes of one unit of a table file: nonce, hash, position and offset.
pub const TABLE_UNIT_SIZE: usize = 52;

/// Little-endian bytes of a 64-bit integer.
pub open spec fn le64(x: u64) -> Seq<u8> {
    seq![
        x as u8,
        (x >> 8u64) as u8,
        (x >> 16u64) as u8,
        (x >> 24u64) as u8,
        (x >> 32u64) as u8,
        (x >> 40u64) as u8,
        (x >> 48u64) as u8,
        (x >> 56u64) as u8,
    ]
}

/// The integer whose little-endian bytes are the first eight of `b`.
pub open spec fn from_le64(b: Seq<u8>) -> u64 {
    b[0] as u64 | (b[1] as u64) << 8u64 | (b[2] as u64) << 16u64 | (b[3] as u64) << 24u64
        | (b[4] as u64) << 32u64 | (b[5] as u64) << 40u64 | (b[6] as u64) << 48u64
        | (b[7] as u64) << 56u64
}

/// One record as an intermediate-stream unit.
pub open spec fn stream_unit(v: RecordView) -> Seq<u8> {
    v.nonce + v.hash
}

/// One record as a table-file unit.
pub open spec fn table_unit(v: RecordView) -> Seq<u8> {
    v.nonce + v.hash + le64(v.position) + le64(v.offset)
}

/// A sequence of records as an intermediate stream.
pub open spec fn stream_bytes(vs: Seq<RecordView>) -> Seq<u8>
    decreases vs.len(),
{
    if vs.len() == 0 {
        Seq::empty()
    } else {
        stream_bytes(vs.drop_last()) + stream_unit(vs.last())
    }
}

/// A sequence of records as a table file.
pub open spec fn table_bytes(vs: Seq<RecordView>) -> Seq<u8>
    decreases vs.len(),
{
    if vs.len() == 0 {
        Seq::empty()
    } else {
        table_bytes(vs.drop_last()) + table_unit(vs.last())
    }
}

/// The record read from the stream unit at index `i`: its links are its index.
pub open spec fn stream_record_at(b: Seq<u8>, i: int) -> RecordView {
    RecordView {
        nonce: b.subrange(36 * i, 36 * i + 4),
        hash: b.subrange(36 * i + 4, 36 * i + 36),
        position: i as u64,
        offset: i as u64,
    }
}

/// The records of an intermediate stream; a partial trailing unit is dropped.
pub open spec fn parse_stream(b: Seq<u8>) -> Seq<RecordView> {
    Seq::new(b.len() / 36, |i: int| stream_record_at(b, i))
}

/// The record read from the table unit at index `i`.
pub open spec fn table_record_at(b: Seq<u8>, i: int) -> RecordView {
    RecordView {
        nonce: b.subrange(52 * i, 52 * i + 4),
        hash: b.subrange(52 * i + 4, 52 * i + 36),
        position: from_le64(b.subrange(52 * i + 36, 52 * i + 44)),
        offset: from_le64(b.subrange(52 * i + 44, 52 * i + 52)),
    }
}

/// The records of a table file; a partial trailing unit is dropped.
pub open spec fn parse_table(b: Seq<u8>) -> Seq<RecordView> {
    Seq::new(b.len() / 52, |i: int| table_record_at(b, i))
}

fn append_bytes(out: &mut Vec<u8>, src: &[u8])
    ensures
        final(out)@ == old(out)@ + src@,
{
    let mut j: usize = 0;
    while j < src.len()
        invariant
            j <= src@.len(),
            out@ == old(out)@ + src@.subrange(0, j as int),
        decreases src@.len() - j,
    {
        out.push(src[j]);
        j = j + 1;
        assert(src@.subrange(0, j as int) == src@.subrange(0, j - 1) + seq![src@[j - 1]]);
    }
    assert(src@.subrange(0, j as int) == src@);
}

fn append_le64(out: &mut Vec<u8>, x: u64)
    ensures
        final(out)@ == old(out)@ + le64(x),
{
    out.push(x as u8);
    out.push((x >> 8u64) as u8);
    out.push((x >> 16u64) as u8);
    out.push((x >> 24u64) as u8);
    out.push((x >> 32u64) as u8);
    out.push((x >> 40u64) as u8);
    out.push((x >> 48u64) as u8);
    out.push((x >> 56u64) as u8);
    assert(out@ == old(out)@ + le64(x));
}

fn read_le64(b: &[u8], at: usize) -> (r: u64)
    requires
        at + 8 <= b@.len(),
    ensures
        r == from_le64(b@.subrange(at as int, at + 8)),
{
    b[at] as u64 | (b[at + 1] as u64) << 8u64 | (b[at + 2] as u64) << 16u64 | (b[at + 3] as u64)
        << 24u64 | (b[at + 4] as u64) << 32u64 | (b[at + 5] as u64) << 40u64 | (b[at + 6] as u64)
        << 48u64 | (b[at + 7] as u64) << 56u64
}

/// Decoding the little-endian bytes of an integer gives the integer back.
pub proof fn lemma_le64_round_trip(x: u64)
    ensures
        from_le64(le64(x)) == x,
{
    assert(x as u8 as u64 | ((x >> 8u64) as u8 as u64) << 8u64 | ((x >> 16u64) as u8 as u64)
        << 16u64 | ((x >> 24u64) as u8 as u64) << 24u64 | ((x >> 32u64) as u8 as u64) << 32u64
        | ((x >> 40u64) as u8 as u64) << 40u64 | ((x >> 48u64) as u8 as u64) << 48u64 | ((x
        >> 56u64) as u8 as u64) << 56u64 == x) by (bit_vector);
}

fn read_nonce(b: &[u8], at: usize) -> (r: [u8; 4])
    requires
        at + 4 <= b@.len(),
    ensures
        r@ == b@.subrange(at as int, at + 4),
{
    let r: [u8; 4] = [b[at], b[at + 1], b[at + 2], b[at + 3]];
    assert(r@ =~= b@.subrange(at as int, at + 4));
    r
}

fn read_hash(b: &[u8], at: usize) -> (r: [u8; 32])
    requires
        at + 32 <= b@.len(),
    ensures
        r@ == b@.subrange(at as int, at + 32),
{
    let mut r: [u8; 32] = [0u8; 32];
    let len: usize = b.len();
    let mut j: usize = 0;
    while j < 32
        invariant
            len == b@.len(),
            at + 32 <= b@.len(),
            j <= 32,
            r@.len() == 32,
            forall|k: int| 0 <= k < j ==> r@[k] == b@[at + k],
        decreases 32 - j,
    {
        r[j] = b[at + j];
        j = j + 1;
    }
    assert(r@ =~= b@.subrange(at as int, at + 32));
    r
}

/// Encodes records as an intermediate stream: nonce then hash, 36 bytes each.
pub fn encode_stream(rs: &Vec<Record>) -> (r: Vec<u8>)
    ensures
        r@ == stream_bytes(views(rs@)),
{
    let mut out: Vec<u8> = Vec::new();
    let mut i: usize = 0;
    while i < rs.len()
        invariant
            i <= rs@.len(),
            out@ == stream_bytes(views(rs@.subrange(0, i as int))),
        decreases rs@.len() - i,
    {
        let rec = rs[i];
        append_bytes(&mut out, rec.nonce.as_slice());
        append_bytes(&mut out, rec.hash.as_slice());
        proof {
            let vs = views(rs@.subrange(0, i + 1));
            assert(vs.drop_last() =~= views(rs@.subrange(0, i as int)));
            assert(vs.last() == rec@);
        }
        i = i + 1;
    }
    assert(rs@.subrange(0, i as int) =~= rs@);
    out
}

/// Encodes records as a table file: nonce, hash, position and offset
/// (little-endian, 8 bytes each), 52 bytes per record.
pub fn encode_table(rs: &Vec<Record>) -> (r: Vec<u8>)
    ensures
        r@ == table_bytes(views(rs@)),
{
    let mut out: Vec<u8> = Vec::new();
    let mut i: usize = 0;
    while i < rs.len()
        invariant
            i <= rs@.len(),
            out@ == table_bytes(views(rs@.subrange(0, i as int))),
        decreases rs@.len() - i,
    {
        let rec = rs[i];
        append_bytes(&mut out, rec.nonce.as_slice());
        append_bytes(&mut out, rec.hash.as_slice());
        append_le64(&mut out, rec.position);
        append_le64(&mut out, rec.offset);
        proof {
            let vs = views(rs@.subrange(0, i + 1));
            assert(vs.drop_last() =~= views(rs@.subrange(0, i as int)));
            assert(vs.last() == rec@);
        }
        i = i + 1;
    }
    assert(rs@.subrange(0, i as int) =~= rs@);
    out
}

/// Decodes an intermediate stream. Each record's position and offset are its
/// index in the stream; a partial trailing unit is dropped.
pub fn decode_stream(b: &[u8]) -> (r: Vec<Record>)
    ensures
        views(r@) == parse_stream(b@),
{
    let n: usize = b.len() / STREAM_UNIT_SIZE;
    let mut out: Vec<Record> = Vec::new();
    let mut i: usize = 0;
    let len: usize = b.len();
    while i < n
        invariant
            len == b@.len(),
            n == b@.len() / 36,
            i <= n,
            views(out@) =~= parse_stream(b@).subrange(0, i as int),
        decreases n - i,
    {
        assert(i * 36 + 36 <= b@.len()) by (nonlinear_arith)
            requires
                i < n,
                n == b@.len() / 36,
        ;
        let at: usize = i * STREAM_UNIT_SIZE;
        let rec = Record::new(read_nonce(b, at), read_hash(b, at + 4), i as u64, i as u64);
        let ghost before = out@;
        out.push(rec);
        proof {
            assert(views(out@) =~= views(before).push(rec@));
        }
        i = i + 1;
    }
    out
}

/// Decodes a table file; a partial trailing unit is dropped.
pub fn decode_table(b: &[u8]) -> (r: Vec<Record>)
    ensures
        views(r@) == parse_table(b@),
{
    let n: usize = b.len() / TABLE_UNIT_SIZE;
    let mut out: Vec<Record> = Vec::new();
    let mut i: usize = 0;
    let len: usize = b.len();
    while i < n
        invariant
            len == b@.len(),
            n == b@.len() / 52,
            i <= n,
            views(out@) =~= parse_table(b@).subrange(0, i as int),
        decreases n - i,
    {
        assert(i * 52 + 52 <= b@.len()) by (nonlinear_arith)
            requires
                i < n,
                n == b@.len() / 52,
        ;
        let at: usize = i * TABLE_UNIT_SIZE;
        let position = read_le64(b, at + 36);
        let offset = read_le64(b, at + 44);
        let rec = Record::new(read_nonce(b, at), read_hash(b, at + 4), position, offset);
        let ghost before = out@;
        out.push(rec);
        proof {
            assert(views(out@) =~= views(before).push(rec@));
        }
        i = i + 1;
    }
    out
}

/// Holds of the model of every record: the widths of its byte fields.
pub open spec fn widths_ok(vs: Seq<RecordView>) -> bool {
    forall|i: int| 0 <= i < vs.len() ==> #[trigger] vs[i].nonce.len() == 4 && vs[i].hash.len() == 32
}

proof fn lemma_stream_layout(vs: Seq<RecordView>)
    requires
        widths_ok(vs),
    ensures
        stream_bytes(vs).len() == 36 * vs.len(),
        forall|i: int|
            0 <= i < vs.len() ==> #[trigger] stream_bytes(vs).subrange(36 * i, 36 * i + 36)
                == stream_unit(vs[i]),
    decreases vs.len(),
{
    if vs.len() > 0 {
        let p = vs.drop_last();
        lemma_stream_layout(p);
        assert forall|i: int| 0 <= i < vs.len() implies #[trigger] stream_bytes(vs).subrange(
            36 * i,
            36 * i + 36,
        ) == stream_unit(vs[i]) by {
            if i < p.len() {
                assert(p[i] == vs[i]);
                assert(stream_bytes(vs).subrange(36 * i, 36 * i + 36) =~= stream_bytes(p).subrange(
                    36 * i,
                    36 * i + 36,
                ));
            } else {
                assert(stream_bytes(vs).subrange(36 * i, 36 * i + 36) =~= stream_unit(vs.last()));
            }
        }
    }
}

proof fn lemma_table_layout(vs: Seq<RecordView>)
    requires
        widths_ok(vs),
    ensures
        table_bytes(vs).len() == 52 * vs.len(),
        forall|i: int|
            0 <= i < vs.len() ==> #[trigger] table_bytes(vs).subrange(52 * i, 52 * i + 52)
                == table_unit(vs[i]),
    decreases vs.len(),
{
    if vs.len() > 0 {
        let p = vs.drop_last();
        lemma_table_layout(p);
        assert forall|i: int| 0 <= i < vs.len() implies #[trigger] table_bytes(vs).subrange(
            52 * i,
            52 * i + 52,
        ) == table_unit(vs[i]) by {
            if i < p.len() {
                assert(p[i] == vs[i]);
                assert(table_bytes(vs).subrange(52 * i, 52 * i + 52) =~= table_bytes(p).subrange(
                    52 * i,
                    52 * i + 52,
                ));
            } else {
                assert(table_bytes(vs).subrange(52 * i, 52 * i + 52) =~= table_unit(vs.last()));
            }
        }
    }
}

/// Decoding an encoded intermediate stream gives back every record's nonce and
/// hash, in order; each link becomes the record's index in the stream.
pub proof fn lemma_stream_round_trip(vs: Seq<RecordView>)
    requires
        widths_ok(vs),
    ensures
        parse_stream(stream_bytes(vs)).len() == vs.len(),
        forall|i: int|
            0 <= i < vs.len() ==> (#[trigger] parse_stream(stream_bytes(vs))[i]) == (RecordView {
                nonce: vs[i].nonce,
                hash: vs[i].hash,
                position: i as u64,
                offset: i as u64,
            }),
{
    lemma_stream_layout(vs);
    let b = stream_bytes(vs);
    assert forall|i: int| 0 <= i < vs.len() implies (#[trigger] parse_stream(b)[i]) == (RecordView {
        nonce: vs[i].nonce,
        hash: vs[i].hash,
        position: i as u64,
        offset: i as u64,
    }) by {
        let u = b.subrange(36 * i, 36 * i + 36);
        assert(u == stream_unit(vs[i]));
        assert(b.subrange(36 * i, 36 * i + 4) =~= u.subrange(0, 4));
        assert(b.subrange(36 * i + 4, 36 * i + 36) =~= u.subrange(4, 36));
        assert(u.subrange(0, 4) =~= vs[i].nonce);
        assert(u.subrange(4, 36) =~= vs[i].hash);
    }
}

/// Decoding an encoded table file gives back exactly the records encoded.
pub proof fn lemma_table_round_trip(vs: Seq<RecordView>)
    requires
        widths_ok(vs),
    ensures
        parse_table(table_bytes(vs)) == vs,
{
    lemma_table_layout(vs);
    let b = table_bytes(vs);
    assert forall|i: int| 0 <= i < vs.len() implies #[trigger] parse_table(b)[i] == vs[i] by {
        let u = b.subrange(52 * i, 52 * i + 52);
        let v = vs[i];
        assert(u == table_unit(v));
        assert(b.subrange(52 * i, 52 * i + 4) =~= u.subrange(0, 4));
        assert(b.subrange(52 * i + 4, 52 * i + 36) =~= u.subrange(4, 36));
        assert(b.subrange(52 * i + 36, 52 * i + 44) =~= u.subrange(36, 44));
        assert(b.subrange(52 * i + 44, 52 * i + 52) =~= u.subrange(44, 52));
        assert(u.subrange(0, 4) =~= v.nonce);
        assert(u.subrange(4, 36) =~= v.hash);
        assert(u.subrange(36, 44) =~= le64(v.position));
        assert(u.subrange(44, 52) =~= le64(v.offset));
        lemma_le64_round_trip(v.position);
        lemma_le64_round_trip(v.offset);
    }
    assert(parse_table(b) =~= vs);
}

} // verus!
