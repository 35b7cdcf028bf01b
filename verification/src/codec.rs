//! The on-disk record format and the mathematical model of the byte log.
//!
//! A record is stored as a tag byte, the key length and the value length
//! as little-endian unsigned 64-bit integers, then the key bytes and the
//! value bytes.  The encoding is self-delimiting, and no record encoding
//! starts with a zero byte, so a scan of a log with a zero-filled tail
//! stops exactly at the end of the written records.

use vstd::prelude::*;

use crate::record::Record;
use crate::record::RecordView;

verus! {

/// First byte of every record encoding; never zero, so that a zero-filled
/// file tail is not mistaken for a record.
pub const RECORD_TAG: u8 = 1;

/// Bytes of the fixed header: the tag byte and the two length fields.
pub const RECORD_HEADER_LEN: usize = 17;

/// The eight bytes of `n` in little-endian order.
#[verifier::opaque]
pub open spec fn u64_le(n: u64) -> Seq<u8> {
    seq![
        (n & 0xff) as u8,
        ((n >> 8) & 0xff) as u8,
        ((n >> 16) & 0xff) as u8,
        ((n >> 24) & 0xff) as u8,
        ((n >> 32) & 0xff) as u8,
        ((n >> 40) & 0xff) as u8,
        ((n >> 48) & 0xff) as u8,
        ((n >> 56) & 0xff) as u8,
    ]
}

/// The unsigned 64-bit integer whose little-endian bytes are `s`.
#[verifier::opaque]
pub open spec fn u64_of_le(s: Seq<u8>) -> u64
    recommends
        s.len() == 8,
{
    ((s[0] as u64) | ((s[1] as u64) << 8) | ((s[2] as u64) << 16) | ((s[3] as u64) << 24)
        | ((s[4] as u64) << 32) | ((s[5] as u64) << 40) | ((s[6] as u64) << 48) | ((
    s[7] as u64) << 56)) as u64
}

/// Number of bytes the encoding of `r` occupies.
pub open spec fn record_size(r: RecordView) -> nat {
    (RECORD_HEADER_LEN + r.key.len() + r.value.len()) as nat
}

/// Whether both length fields of `r` fit in the 64-bit length encoding.
/// Every record built from in-memory byte vectors is valid.
pub open spec fn valid_record(r: RecordView) -> bool {
    &&& r.key.len() <= u64::MAX
    &&& r.value.len() <= u64::MAX
}

/// All records of `rs` are valid.
pub open spec fn wf_records(rs: Seq<RecordView>) -> bool {
    forall|i: int| 0 <= i < rs.len() ==> valid_record(#[trigger] rs[i])
}

/// The encoding of one record.
#[verifier::opaque]
pub open spec fn encode_record(r: RecordView) -> Seq<u8> {
    seq![RECORD_TAG] + u64_le(r.key.len() as u64) + u64_le(r.value.len() as u64) + r.key + r.value
}

/// Decode one record from the head of `b`: the record and the number of
/// bytes consumed, or `None` when no whole record starts at `b`.
#[verifier::opaque]
pub open spec fn parse_record(b: Seq<u8>) -> Option<(RecordView, nat)> {
    if b.len() >= RECORD_HEADER_LEN && b[0] == RECORD_TAG {
        let k = u64_of_le(b.subrange(1, 9)) as int;
        let v = u64_of_le(b.subrange(9, 17)) as int;
        if RECORD_HEADER_LEN + k + v <= b.len() {
            Some(
                (
                    RecordView {
                        key: b.subrange(17, 17 + k),
                        value: b.subrange(17 + k, 17 + k + v),
                    },
                    (RECORD_HEADER_LEN + k + v) as nat,
                ),
            )
        } else {
            None
        }
    } else {
        None
    }
}

/// The concatenation of the encodings of `rs`, in order.
pub open spec fn records_bytes(rs: Seq<RecordView>) -> Seq<u8>
    decreases rs.len(),
{
    if rs.len() == 0 {
        Seq::<u8>::empty()
    } else {
        encode_record(rs[0]) + records_bytes(rs.skip(1))
    }
}

/// All records decodable from the head of `b`, in order: decoding stops
/// at the first position where no whole record can be read.
pub open spec fn parse_records(b: Seq<u8>) -> Seq<RecordView>
    decreases b.len(),
    via parse_records_decreases
{
    match parse_record(b) {
        Some(rn) => seq![rn.0] + parse_records(b.skip(rn.1 as int)),
        None => Seq::<RecordView>::empty(),
    }
}

#[via_fn]
proof fn parse_records_decreases(b: Seq<u8>) {
    reveal(parse_record);
}

/// At most the first `m` bytes of `b`: what a map of size `m` can see of
/// a file's content.
pub open spec fn clamped(b: Seq<u8>, m: nat) -> Seq<u8> {
    if b.len() <= m {
        b
    } else {
        b.take(m as int)
    }
}

/// Byte offset at which the `i`-th record of `rs` begins in the log.
#[verifier::opaque]
pub open spec fn offset_of(rs: Seq<RecordView>, i: int) -> nat {
    records_bytes(rs.take(i)).len()
}

/// The mathematical contents of a vector of records.
pub open spec fn views_of(rs: Seq<Record>) -> Seq<RecordView> {
    rs.map_values(|r: Record| r@)
}

/// Key of record `i` does not repeat anywhere in `rs`.
pub open spec fn distinct_keys(rs: Seq<RecordView>) -> bool {
    forall|i: int, j: int| 0 <= i < j < rs.len() ==> rs[i].key != rs[j].key
}

/// Some record of `rs` has key `key`.
pub open spec fn log_contains_key(rs: Seq<RecordView>, key: Seq<u8>) -> bool {
    exists|i: int| 0 <= i < rs.len() && rs[i].key == key
}

/// The first record of `rs` whose key is `key`, if any.
pub open spec fn lookup(rs: Seq<RecordView>, key: Seq<u8>) -> Option<RecordView>
    decreases rs.len(),
{
    if rs.len() == 0 {
        None
    } else if rs[0].key == key {
        Some(rs[0])
    } else {
        lookup(rs.skip(1), key)
    }
}

/// The key index that a scan of the records `rs` builds: each key maps to
/// the offset of the record bearing it, a later record winning when a key
/// repeats.
pub open spec fn key_map(rs: Seq<RecordView>) -> Map<Seq<u8>, usize>
    decreases rs.len(),
{
    if rs.len() == 0 {
        Map::<Seq<u8>, usize>::empty()
    } else {
        key_map(rs.drop_last()).insert(
            rs.last().key,
            offset_of(rs, rs.len() - 1) as usize,
        )
    }
}

/// Decoding the little-endian bytes of `n` gives `n` back.
pub proof fn lemma_u64_le_round_trip(n: u64)
    ensures
        u64_of_le(u64_le(n)) == n,
{
    reveal(u64_le);
    reveal(u64_of_le);
    assert((((n & 0xff) as u8 as u64) | (((n >> 8) & 0xff) as u8 as u64) << 8 | (((n >> 16)
        & 0xff) as u8 as u64) << 16 | (((n >> 24) & 0xff) as u8 as u64) << 24 | (((n >> 32)
        & 0xff) as u8 as u64) << 32 | (((n >> 40) & 0xff) as u8 as u64) << 40 | (((n >> 48)
        & 0xff) as u8 as u64) << 48 | (((n >> 56) & 0xff) as u8 as u64) << 56) == n)
        by (bit_vector);
}

/// Encoding the integer decoded from eight bytes gives the bytes back.
pub proof fn lemma_u64_le_inverse(s: Seq<u8>)
    requires
        s.len() == 8,
    ensures
        u64_le(u64_of_le(s)) == s,
{
    reveal(u64_le);
    reveal(u64_of_le);
    let b0 = s[0];
    let b1 = s[1];
    let b2 = s[2];
    let b3 = s[3];
    let b4 = s[4];
    let b5 = s[5];
    let b6 = s[6];
    let b7 = s[7];
    let x = u64_of_le(s);
    assert(x == ((b0 as u64) | ((b1 as u64) << 8) | ((b2 as u64) << 16) | ((b3 as u64) << 24) | ((
    b4 as u64) << 32) | ((b5 as u64) << 40) | ((b6 as u64) << 48) | ((b7 as u64) << 56)) as u64);
    assert({
        let y = ((b0 as u64) | ((b1 as u64) << 8) | ((b2 as u64) << 16) | ((b3 as u64) << 24) | ((
        b4 as u64) << 32) | ((b5 as u64) << 40) | ((b6 as u64) << 48) | ((b7 as u64) << 56)) as u64;
        (y & 0xff) as u8 == b0 && ((y >> 8) & 0xff) as u8 == b1 && ((y >> 16) & 0xff) as u8 == b2
            && ((y >> 24) & 0xff) as u8 == b3 && ((y >> 32) & 0xff) as u8 == b4 && ((y >> 40)
            & 0xff) as u8 == b5 && ((y >> 48) & 0xff) as u8 == b6 && ((y >> 56) & 0xff) as u8 == b7
    }) by (bit_vector);
    assert(u64_le(x) =~= s);
}

/// The log bytes of a concatenation are the concatenation of the log bytes.
pub proof fn lemma_records_bytes_concat(a: Seq<RecordView>, b: Seq<RecordView>)
    ensures
        records_bytes(a + b) == records_bytes(a) + records_bytes(b),
    decreases a.len(),
{
    if a.len() == 0 {
        assert(a + b =~= b);
        assert(records_bytes(a) + records_bytes(b) =~= records_bytes(b));
    } else {
        lemma_records_bytes_concat(a.skip(1), b);
        assert((a + b).skip(1) =~= a.skip(1) + b);
        assert(encode_record(a[0]) + (records_bytes(a.skip(1)) + records_bytes(b)) =~= (
        encode_record(a[0]) + records_bytes(a.skip(1))) + records_bytes(b));
    }
}

/// Appending one record to the log appends its encoding to the log bytes.
pub proof fn lemma_records_bytes_push(rs: Seq<RecordView>, r: RecordView)
    ensures
        records_bytes(rs.push(r)) == records_bytes(rs) + encode_record(r),
{
    lemma_records_bytes_concat(rs, seq![r]);
    assert(rs.push(r) =~= rs + seq![r]);
    assert(seq![r].skip(1) =~= Seq::<RecordView>::empty());
    assert(records_bytes(Seq::<RecordView>::empty()) == Seq::<u8>::empty());
    assert(seq![r][0] == r);
    assert(records_bytes(seq![r]) == encode_record(r) + Seq::<u8>::empty());
    assert(encode_record(r) + Seq::<u8>::empty() =~= encode_record(r));
}

/// Decoding at the head of an encoded record recovers that record and
/// consumes exactly its encoding, whatever follows it.
pub proof fn lemma_parse_encode(r: RecordView, t: Seq<u8>)
    requires
        valid_record(r),
    ensures
        parse_record(encode_record(r) + t) == Some((r, record_size(r))),
{
    reveal(encode_record);
    reveal(parse_record);
    reveal(u64_le);
    let b = encode_record(r) + t;
    let k = r.key.len() as u64;
    let v = r.value.len() as u64;
    assert(b.len() == 17 + r.key.len() + r.value.len() + t.len());
    assert(b[0] == RECORD_TAG);
    assert(b.subrange(1, 9) =~= u64_le(k));
    assert(b.subrange(9, 17) =~= u64_le(v));
    lemma_u64_le_round_trip(k);
    lemma_u64_le_round_trip(v);
    assert(b.subrange(17, 17 + k as int) =~= r.key);
    assert(b.subrange(17 + k as int, 17 + k as int + v as int) =~= r.value);
}

/// Whatever one decode consumes is the encoding of the record it returns.
pub proof fn lemma_encode_of_parse(b: Seq<u8>, r: RecordView, n: nat)
    requires
        parse_record(b) == Some((r, n)),
    ensures
        valid_record(r),
        record_size(r) == n,
        17 <= n <= b.len(),
        encode_record(r) == b.take(n as int),
    {
    reveal(encode_record);
    reveal(parse_record);
    reveal(u64_le);
    let k = u64_of_le(b.subrange(1, 9));
    let v = u64_of_le(b.subrange(9, 17));
    lemma_u64_le_inverse(b.subrange(1, 9));
    lemma_u64_le_inverse(b.subrange(9, 17));
    assert(encode_record(r).len() == n);
    assert(r.key.len() as u64 == k);
    assert(r.value.len() as u64 == v);
    assert(encode_record(r) =~= b.take(n as int));
}

/// Concatenation of sequences is associative.
proof fn lemma_add_assoc<T>(x: Seq<T>, y: Seq<T>, z: Seq<T>)
    ensures
        (x + y) + z == x + (y + z),
{
    assert((x + y) + z =~= x + (y + z));
}

/// Skipping the first part of a concatenation leaves the second.
proof fn lemma_add_skip<T>(x: Seq<T>, y: Seq<T>)
    ensures
        (x + y).skip(x.len() as int) == y,
{
    assert((x + y).skip(x.len() as int) =~= y);
}

/// A non-empty sequence is its head followed by its tail.
proof fn lemma_cons_skip<T>(s: Seq<T>)
    requires
        s.len() > 0,
    ensures
        seq![s[0]] + s.skip(1) == s,
{
    assert(seq![s[0]] + s.skip(1) =~= s);
}

/// Decoding a log that begins with one encoded record yields that record,
/// then whatever the rest of the log yields.
#[verifier::spinoff_prover]
pub proof fn lemma_parse_records_cons(r: RecordView, t: Seq<u8>)
    requires
        valid_record(r),
    ensures
        parse_records(encode_record(r) + t) == seq![r] + parse_records(t),
{
    reveal(encode_record);
    reveal(u64_le);
    let b = encode_record(r) + t;
    lemma_parse_encode(r, t);
    let n = record_size(r);
    assert(encode_record(r).len() == n);
    lemma_add_skip(encode_record(r), t);
    assert(b.skip(n as int) == t);
    assert(parse_records(b) == seq![r] + parse_records(t));
}

/// Decoding a log made of encoded records followed by anything recovers
/// the records, then goes on with the tail.
#[verifier::spinoff_prover]
pub proof fn lemma_parse_records_concat(rs: Seq<RecordView>, t: Seq<u8>)
    requires
        wf_records(rs),
    ensures
        parse_records(records_bytes(rs) + t) == rs + parse_records(t),
    decreases rs.len(),
{
    if rs.len() == 0 {
        assert(records_bytes(rs) + t =~= t);
        assert(rs + parse_records(t) =~= parse_records(t));
    } else {
        let e = encode_record(rs[0]);
        let rb1 = records_bytes(rs.skip(1));
        let rest = rb1 + t;
        let b = records_bytes(rs) + t;
        assert(records_bytes(rs) == e + rb1);
        lemma_add_assoc(e, rb1, t);
        assert(b == e + rest);
        lemma_parse_records_cons(rs[0], rest);
        assert(wf_records(rs.skip(1))) by {
            assert forall|i: int| 0 <= i < rs.skip(1).len() implies valid_record(
                #[trigger] rs.skip(1)[i],
            ) by {
                assert(rs.skip(1)[i] == rs[i + 1]);
            }
        }
        lemma_parse_records_concat(rs.skip(1), t);
        lemma_add_assoc(seq![rs[0]], rs.skip(1), parse_records(t));
        lemma_cons_skip(rs);
        assert(parse_records(b) == rs + parse_records(t));
    }
}

/// Recovery: scanning a log that holds the encodings of `rs` followed by
/// a tail at which decoding stops (for instance a zero-filled or empty
/// tail) yields exactly `rs`.  Closing a database and reopening it over
/// the same bytes therefore rebuilds the same record sequence.
pub proof fn lemma_recovery(rs: Seq<RecordView>, pad: Seq<u8>)
    requires
        wf_records(rs),
        parse_record(pad) is None,
    ensures
        parse_records(records_bytes(rs) + pad) == rs,
{
    lemma_parse_records_concat(rs, pad);
    assert(parse_records(pad) =~= Seq::<RecordView>::empty());
    assert(rs + parse_records(pad) =~= rs);
}

/// Scanning exactly the encodings of `rs` yields `rs`.
pub proof fn lemma_log_round_trip(rs: Seq<RecordView>)
    requires
        wf_records(rs),
    ensures
        parse_records(records_bytes(rs)) == rs,
{
    reveal(parse_record);
    assert(records_bytes(rs) + Seq::<u8>::empty() =~= records_bytes(rs));
    lemma_recovery(rs, Seq::<u8>::empty());
}

/// The log bytes split at a record boundary.
pub proof fn lemma_records_bytes_split(rs: Seq<RecordView>, i: int)
    requires
        0 <= i <= rs.len(),
    ensures
        records_bytes(rs) == records_bytes(rs.take(i)) + records_bytes(rs.skip(i)),
        offset_of(rs, i) <= records_bytes(rs).len(),
{
    reveal(offset_of);
    lemma_records_bytes_concat(rs.take(i), rs.skip(i));
    assert(rs.take(i) + rs.skip(i) =~= rs);
}

/// The log bytes from a record boundary on are the log bytes of the
/// records from there on.
pub proof fn lemma_records_bytes_skip(rs: Seq<RecordView>, i: int)
    requires
        0 <= i <= rs.len(),
    ensures
        records_bytes(rs).skip(offset_of(rs, i) as int) == records_bytes(rs.skip(i)),
{
    reveal(offset_of);
    lemma_records_bytes_split(rs, i);
    lemma_add_skip(records_bytes(rs.take(i)), records_bytes(rs.skip(i)));
}

/// Each record begins at its offset: decoding there yields that record.
pub proof fn lemma_record_at(rs: Seq<RecordView>, i: int)
    requires
        wf_records(rs),
        0 <= i < rs.len(),
    ensures
        parse_record(records_bytes(rs).skip(offset_of(rs, i) as int)) == Some(
            (rs[i], record_size(rs[i])),
        ),
        offset_of(rs, i) + record_size(rs[i]) <= records_bytes(rs).len(),
{
    reveal(offset_of);
    reveal(encode_record);
    reveal(u64_le);
    lemma_records_bytes_split(rs, i);
    let off = offset_of(rs, i) as int;
    assert(records_bytes(rs).skip(off) =~= records_bytes(rs.skip(i)));
    assert(rs.skip(i)[0] == rs[i]);
    assert(rs.skip(i).skip(1) =~= rs.skip(i + 1));
    assert(records_bytes(rs.skip(i)) == encode_record(rs[i]) + records_bytes(rs.skip(i + 1)));
    lemma_parse_encode(rs[i], records_bytes(rs.skip(i + 1)));
}

/// The offset of the next record is this record's offset plus its size.
pub proof fn lemma_offset_step(rs: Seq<RecordView>, i: int)
    requires
        0 <= i < rs.len(),
    ensures
        offset_of(rs, i + 1) == offset_of(rs, i) + record_size(rs[i]),
{
    reveal(offset_of);
    reveal(encode_record);
    reveal(u64_le);
    assert(rs.take(i + 1) =~= rs.take(i).push(rs[i]));
    lemma_records_bytes_push(rs.take(i), rs[i]);
}

/// Offsets of records grow strictly with their sequence numbers.
pub proof fn lemma_offsets_increasing(rs: Seq<RecordView>, i: int, j: int)
    requires
        0 <= i < j <= rs.len(),
    ensures
        offset_of(rs, i) < offset_of(rs, j),
    decreases j - i,
{
    lemma_offset_step(rs, i);
    if i + 1 < j {
        lemma_offsets_increasing(rs, i + 1, j);
    }
}

/// Offsets within a prefix do not move when the log grows.
pub proof fn lemma_offset_of_prefix(rs: Seq<RecordView>, ext: Seq<RecordView>, i: int)
    requires
        0 <= i <= rs.len(),
    ensures
        offset_of(rs + ext, i) == offset_of(rs, i),
{
    reveal(offset_of);
    assert((rs + ext).take(i) =~= rs.take(i));
}

/// One step of a log scan: a record decoded at the frontier extends the
/// parsed prefix and moves the frontier past its encoding.
pub proof fn lemma_scan_step(b: Seq<u8>, parsed: Seq<RecordView>, pos: nat, r: RecordView, n: nat)
    requires
        pos <= b.len(),
        wf_records(parsed),
        records_bytes(parsed) == b.take(pos as int),
        parse_records(b) == parsed + parse_records(b.skip(pos as int)),
        parse_record(b.skip(pos as int)) == Some((r, n)),
    ensures
        pos + n <= b.len(),
        wf_records(parsed.push(r)),
        records_bytes(parsed.push(r)) == b.take((pos + n) as int),
        parse_records(b) == parsed.push(r) + parse_records(b.skip((pos + n) as int)),
        records_bytes(parsed).len() == pos,
        offset_of(parse_records(b), parsed.len() as int) == pos,
        parse_records(b).len() > parsed.len(),
        parse_records(b)[parsed.len() as int] == r,
{
    reveal(offset_of);
    let tail = b.skip(pos as int);
    lemma_encode_of_parse(tail, r, n);
    assert(pos + n <= b.len());
    lemma_records_bytes_push(parsed, r);
    assert(encode_record(r) == tail.take(n as int));
    assert(b.take((pos + n) as int) =~= b.take(pos as int) + tail.take(n as int));
    assert(records_bytes(parsed.push(r)) == b.take((pos + n) as int));
    assert(parse_records(tail) == seq![r] + parse_records(tail.skip(n as int)));
    assert(tail.skip(n as int) =~= b.skip((pos + n) as int));
    assert(parsed + (seq![r] + parse_records(b.skip((pos + n) as int))) =~= parsed.push(r)
        + parse_records(b.skip((pos + n) as int)));
    assert(wf_records(parsed.push(r)));
    let all = parse_records(b);
    assert(all =~= parsed.push(r) + parse_records(b.skip((pos + n) as int)));
    assert(all.take(parsed.len() as int) =~= parsed);
    assert(all[parsed.len() as int] == r);
}

/// End of a log scan: when no record decodes at the frontier, the parsed
/// prefix is the whole parse and its bytes end at the frontier.
pub proof fn lemma_scan_end(b: Seq<u8>, parsed: Seq<RecordView>, pos: nat)
    requires
        pos <= b.len(),
        wf_records(parsed),
        records_bytes(parsed) == b.take(pos as int),
        parse_records(b) == parsed + parse_records(b.skip(pos as int)),
        parse_record(b.skip(pos as int)) is None,
    ensures
        parse_records(b) == parsed,
        records_bytes(parse_records(b)) == b.take(pos as int),
        offset_of(parse_records(b), parse_records(b).len() as int) == pos,
{
    reveal(offset_of);
    assert(parse_records(b.skip(pos as int)) =~= Seq::<RecordView>::empty());
    assert(parsed + Seq::<RecordView>::empty() =~= parsed);
    let all = parse_records(b);
    assert(all.take(all.len() as int) =~= all);
}

/// The log bytes never shrink when records are appended.
pub proof fn lemma_log_growth(a: Seq<RecordView>, b: Seq<RecordView>)
    ensures
        records_bytes(a + b).len() == records_bytes(a).len() + records_bytes(b).len(),
{
    lemma_records_bytes_concat(a, b);
}

/// With pairwise-distinct keys, looking a key up finds exactly the record
/// that bears it.
pub proof fn lemma_lookup_distinct(rs: Seq<RecordView>, i: int)
    requires
        distinct_keys(rs),
        0 <= i < rs.len(),
    ensures
        lookup(rs, rs[i].key) == Some(rs[i]),
    decreases rs.len(),
{
    if i > 0 {
        assert(rs[0].key != rs[i].key);
        assert(rs.skip(1)[i - 1] == rs[i]);
        assert(distinct_keys(rs.skip(1))) by {
            assert(forall|x: int, y: int|
                0 <= x < y < rs.skip(1).len() ==> rs.skip(1)[x] == rs[x + 1] && rs.skip(1)[y] == rs[
                y + 1]);
        }
        lemma_lookup_distinct(rs.skip(1), i - 1);
    }
}

/// The key index of a log holds exactly the keys of its records.
pub proof fn lemma_key_map_dom(rs: Seq<RecordView>, k: Seq<u8>)
    ensures
        key_map(rs).contains_key(k) <==> log_contains_key(rs, k),
    decreases rs.len(),
{
    if rs.len() > 0 {
        lemma_key_map_dom(rs.drop_last(), k);
        if rs.last().key == k {
            assert(rs[rs.len() - 1].key == k);
        } else {
            if log_contains_key(rs.drop_last(), k) {
                let w = choose|i: int| 0 <= i < rs.drop_last().len() && rs.drop_last()[i].key == k;
                assert(rs[w].key == k);
            }
            if log_contains_key(rs, k) {
                let w = choose|i: int| 0 <= i < rs.len() && rs[i].key == k;
                assert(rs.drop_last()[w].key == k);
            }
        }
    }
}

/// Growing the log extends its key index with the new key.
pub proof fn lemma_key_map_push(rs: Seq<RecordView>, r: RecordView)
    ensures
        key_map(rs.push(r)) == key_map(rs).insert(
            r.key,
            records_bytes(rs).len() as usize,
        ),
{
    reveal(offset_of);
    let p = rs.push(r);
    assert(p.drop_last() =~= rs);
    assert(p.last() == r);
    assert(p.take(p.len() - 1) =~= rs);
    assert(offset_of(p, p.len() - 1) == records_bytes(rs).len());
}

/// With pairwise-distinct keys, the key index maps each record's key to
/// that record's offset.
pub proof fn lemma_key_map_distinct(rs: Seq<RecordView>, i: int)
    requires
        distinct_keys(rs),
        0 <= i < rs.len(),
    ensures
        key_map(rs).contains_key(rs[i].key),
        key_map(rs)[rs[i].key] == offset_of(rs, i) as usize,
    decreases rs.len(),
{
    reveal(offset_of);
    let last = rs.len() - 1;
    assert(rs.drop_last() =~= rs.take(last));
    if i == last {
        assert(key_map(rs)[rs[i].key] == offset_of(rs, last) as usize);
    } else {
        assert(rs.last().key != rs[i].key);
        assert(distinct_keys(rs.drop_last()));
        assert(rs.drop_last()[i] == rs[i]);
        lemma_key_map_distinct(rs.drop_last(), i);
        assert(rs.drop_last().take(i) =~= rs.take(i));
    }
}

/// The key index maps the key of record `i` to the offset of some record
/// at or after `i` that bears the same key.
pub proof fn lemma_key_map_at_or_after(rs: Seq<RecordView>, i: int)
    requires
        0 <= i < rs.len(),
    ensures
        key_map(rs).contains_key(rs[i].key),
        exists|m: int|
            i <= m < rs.len() && rs[m].key == rs[i].key && key_map(rs)[rs[i].key] == offset_of(
                rs,
                m,
            ) as usize,
    decreases rs.len(),
{
    reveal(offset_of);
    let last = rs.len() - 1;
    assert(rs.drop_last() =~= rs.take(last));
    if rs.last().key == rs[i].key {
        assert(i <= last < rs.len() && rs[last].key == rs[i].key && key_map(rs)[rs[i].key]
            == offset_of(rs, last) as usize);
    } else {
        assert(i < last);
        assert(rs.drop_last()[i] == rs[i]);
        lemma_key_map_at_or_after(rs.drop_last(), i);
        let m = choose|m: int|
            i <= m < rs.drop_last().len() && rs.drop_last()[m].key == rs.drop_last()[i].key
                && key_map(rs.drop_last())[rs.drop_last()[i].key] == offset_of(
                rs.drop_last(),
                m,
            ) as usize;
        assert(rs.drop_last().take(m) =~= rs.take(m));
        assert(i <= m < rs.len() && rs[m].key == rs[i].key && key_map(rs)[rs[i].key] == offset_of(
            rs,
            m,
        ) as usize);
    }
}

/// When a key repeats later in the log, the key index does not map it to
/// the offset of its earlier record.
pub proof fn lemma_key_map_dup(rs: Seq<RecordView>, i: int, j: int)
    requires
        0 <= i < j < rs.len(),
        rs[i].key == rs[j].key,
        records_bytes(rs).len() <= usize::MAX,
    ensures
        key_map(rs)[rs[i].key] != offset_of(rs, i) as usize,
{
    lemma_key_map_at_or_after(rs, j);
    let m = choose|m: int|
        j <= m < rs.len() && rs[m].key == rs[j].key && key_map(rs)[rs[j].key] == offset_of(
            rs,
            m,
        ) as usize;
    lemma_offsets_increasing(rs, i, m);
    lemma_records_bytes_split(rs, m);
    lemma_records_bytes_split(rs, i);
}

/// Write `x` to the end of `buf` as eight little-endian bytes.
pub fn write_u64_le(buf: &mut Vec<u8>, x: u64)
    ensures
        final(buf)@ == old(buf)@ + u64_le(x),
{
    proof {
        reveal(u64_le);
        assert(x & 0xff <= 0xff && (x >> 8) & 0xff <= 0xff && (x >> 16) & 0xff <= 0xff && (x >> 24)
            & 0xff <= 0xff && (x >> 32) & 0xff <= 0xff && (x >> 40) & 0xff <= 0xff && (x >> 48)
            & 0xff <= 0xff && (x >> 56) & 0xff <= 0xff) by (bit_vector);
    }
    buf.push((x & 0xff) as u8);
    buf.push(((x >> 8) & 0xff) as u8);
    buf.push(((x >> 16) & 0xff) as u8);
    buf.push(((x >> 24) & 0xff) as u8);
    buf.push(((x >> 32) & 0xff) as u8);
    buf.push(((x >> 40) & 0xff) as u8);
    buf.push(((x >> 48) & 0xff) as u8);
    buf.push(((x >> 56) & 0xff) as u8);
    proof {
        assert(buf@ =~= old(buf)@ + u64_le(x));
    }
}

/// Read the unsigned 64-bit integer stored at `off` in little-endian order.
pub fn read_u64_le(data: &[u8], off: usize) -> (r: u64)
    requires
        off + 8 <= data@.len(),
    ensures
        r == u64_of_le(data@.subrange(off as int, off as int + 8)),
{
    let r = (data[off] as u64) | ((data[off + 1] as u64) << 8) | ((data[off + 2] as u64) << 16) | ((
    data[off + 3] as u64) << 24) | ((data[off + 4] as u64) << 32) | ((data[off + 5] as u64) << 40)
        | ((data[off + 6] as u64) << 48) | ((data[off + 7] as u64) << 56);
    proof {
        reveal(u64_of_le);
        let s = data@.subrange(off as int, off as int + 8);
        assert(s[0] == data@[off as int] && s[1] == data@[off as int + 1] && s[2] == data@[off as int
            + 2] && s[3] == data@[off as int + 3] && s[4] == data@[off as int + 4] && s[5]
            == data@[off as int + 5] && s[6] == data@[off as int + 6] && s[7] == data@[off as int
            + 7]);
    }
    r
}

/// Append all of `bytes` to `buf`.
pub fn push_bytes(buf: &mut Vec<u8>, bytes: &[u8])
    ensures
        final(buf)@ == old(buf)@ + bytes@,
{
    let n = bytes.len();
    let mut i: usize = 0;
    while i < n
        invariant
            i <= n,
            n == bytes@.len(),
            buf@ == old(buf)@ + bytes@.take(i as int),
        decreases n - i,
    {
        buf.push(bytes[i]);
        proof {
            assert(old(buf)@ + bytes@.take(i as int) + seq![bytes@[i as int]] =~= old(buf)@
                + bytes@.take(i as int + 1));
        }
        i = i + 1;
    }
    proof {
        assert(bytes@.take(n as int) =~= bytes@);
    }
}

/// Whether two byte strings hold the same bytes.
pub fn bytes_eq(a: &[u8], b: &[u8]) -> (r: bool)
    ensures
        r == (a@ == b@),
{
    let n = a.len();
    if n != b.len() {
        return false;
    }
    let mut i: usize = 0;
    while i < n
        invariant
            i <= n,
            n == a@.len() == b@.len(),
            forall|j: int| 0 <= j < i ==> a@[j] == b@[j],
        decreases n - i,
    {
        if a[i] != b[i] {
            return false;
        }
        i = i + 1;
    }
    proof {
        assert(a@ =~= b@);
    }
    true
}

/// Copy the bytes of `data` in `[start, end)` into a fresh vector.
pub fn copy_range(data: &[u8], start: usize, end: usize) -> (r: Vec<u8>)
    requires
        start <= end <= data@.len(),
    ensures
        r@ == data@.subrange(start as int, end as int),
{
    let s: &[u8] = &data[start..end];
    vstd::slice::slice_to_vec(s)
}

/// Append the encoding of `r` to `buf`.
pub fn encode_record_into(buf: &mut Vec<u8>, r: &Record)
    ensures
        final(buf)@ == old(buf)@ + encode_record(r@),
        valid_record(r@),
{
    buf.push(RECORD_TAG);
    write_u64_le(buf, r.key().len() as u64);
    write_u64_le(buf, r.value().len() as u64);
    push_bytes(buf, r.key());
    push_bytes(buf, r.value());
    proof {
        reveal(encode_record);
        assert(buf@ =~= old(buf)@ + encode_record(r@));
    }
}

/// Number of bytes the encoding of `r` occupies.
pub fn record_len(r: &Record) -> (n: usize)
    requires
        record_size(r@) <= usize::MAX,
    ensures
        n == record_size(r@),
{
    RECORD_HEADER_LEN + r.key().len() + r.value().len()
}

/// Decode one record starting at `off`, returning it with the number of
/// bytes its encoding occupies, or `None` when no whole record starts
/// there.
pub fn parse_record_at(data: &[u8], off: usize) -> (r: Option<(Record, usize)>)
    requires
        off <= data@.len(),
    ensures
        match r {
            Some(rn) => {
                &&& parse_record(data@.skip(off as int)) == Some((rn.0@, rn.1 as nat))
                &&& off + rn.1 <= data@.len()
                &&& off + rn.1 <= usize::MAX
                &&& RECORD_HEADER_LEN <= rn.1
            },
            None => parse_record(data@.skip(off as int)) is None,
        },
{
    proof {
        reveal(parse_record);
    }
    let n = data.len();
    let ghost b = data@.skip(off as int);
    if n - off < RECORD_HEADER_LEN {
        return None;
    }
    if data[off] != RECORD_TAG {
        return None;
    }
    let klen64 = read_u64_le(data, off + 1);
    let vlen64 = read_u64_le(data, off + 9);
    proof {
        assert(b.subrange(1, 9) =~= data@.subrange(off as int + 1, off as int + 9));
        assert(b.subrange(9, 17) =~= data@.subrange(off as int + 9, off as int + 17));
        assert(b[0] == data@[off as int]);
    }
    let avail = (n - off - RECORD_HEADER_LEN) as u64;
    if klen64 > avail {
        return None;
    }
    if vlen64 > avail - klen64 {
        return None;
    }
    let klen = klen64 as usize;
    let vlen = vlen64 as usize;
    let key: &[u8] = &data[off + RECORD_HEADER_LEN..off + RECORD_HEADER_LEN + klen];
    let value: &[u8] = &data[off + RECORD_HEADER_LEN + klen..off + RECORD_HEADER_LEN + klen + vlen];
    let rec = Record::new(key, value);
    proof {
        assert(b.subrange(17, 17 + klen as int) =~= data@.subrange(
            off as int + 17,
            off as int + 17 + klen as int,
        ));
        assert(b.subrange(17 + klen as int, 17 + klen as int + vlen as int) =~= data@.subrange(
            off as int + 17 + klen as int,
            off as int + 17 + klen as int + vlen as int,
        ));
    }
    Some((rec, RECORD_HEADER_LEN + klen + vlen))
}

} // verus!
