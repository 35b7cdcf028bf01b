//! The database: composes the flatfile, the sequence-number index and the
//! key index, and enforces the cross-structure invariants on append.

use vstd::prelude::*;

use crate::codec::bytes_eq;
use crate::codec::clamped;
use crate::codec::distinct_keys;
use crate::codec::key_map;
use crate::codec::lemma_key_map_at_or_after;
use crate::codec::lemma_key_map_distinct;
use crate::codec::lemma_key_map_dom;
use crate::codec::lemma_key_map_dup;
use crate::codec::lemma_key_map_push;
use crate::codec::lemma_log_round_trip;
use crate::codec::lemma_lookup_distinct;
use crate::codec::lemma_offset_of_prefix;
use crate::codec::lemma_offset_step;
use crate::codec::lemma_record_at;
use crate::codec::lemma_records_bytes_concat;
use crate::codec::lemma_records_bytes_skip;
use crate::codec::lemma_records_bytes_split;
use crate::codec::lemma_scan_end;
use crate::codec::lemma_scan_step;
use crate::codec::log_contains_key;
use crate::codec::lookup;
use crate::codec::offset_of;
use crate::codec::parse_record_at;
use crate::codec::parse_records;
use crate::codec::record_len;
use crate::codec::records_bytes;
use crate::codec::views_of;
use crate::codec::wf_records;
use crate::error::Error;
use crate::flatfile::FlatFile;
use crate::flatfile::SeqNoIter;
use crate::index::Index;
use crate::record::Record;
use crate::record::RecordView;
use crate::seqno::offsets_bytes;
use crate::seqno::SeqNoIndex;

verus! {

/// Default bound of the flatfile map: 4 GiB, clamped to what the
/// platform's address space can hold.
pub const DEFAULT_FLATFILE_MAP_SIZE: u64 = 4294967296;

/// Default bound of the sequence-number index map: 512 MiB, clamped like
/// the flatfile's.
pub const DEFAULT_SEQNO_INDEX_MAP_SIZE: u64 = 536870912;

/// A configured size, as far as the platform's address space can hold it.
pub open spec fn clamped_size(x: u64) -> nat {
    if x <= usize::MAX {
        x as nat
    } else {
        usize::MAX as nat
    }
}

/// The largest usize not above `x`.
fn clamp_to_usize(x: u64) -> (r: usize)
    ensures
        r as nat == clamped_size(x),
{
    if x <= usize::MAX as u64 {
        x as usize
    } else {
        usize::MAX
    }
}

/// Build `Database` instances.
pub struct DatabaseBuilder {
    flatfile_map_size: usize,
    seqno_index_map_size: usize,
}

/// The append-only key-value store.  Its view is the sequence of records
/// inserted so far, in insertion order.
#[derive(Debug)]
pub struct Database {
    flatfile: FlatFile,
    seqno_index: SeqNoIndex,
    index: Index,
}

impl View for Database {
    type V = Seq<RecordView>;

    closed spec fn view(&self) -> Seq<RecordView> {
        parse_records(self.flatfile@)
    }
}

/// Two records of `rs` bear the key `k`.
pub open spec fn repeated_key(rs: Seq<RecordView>, k: Seq<u8>) -> bool {
    exists|i: int, j: int|
        #![trigger rs[i].key, rs[j].key]
        0 <= i < j < rs.len() && rs[i].key == k && rs[j].key == k
}

/// No key of `batch` occurs in the records `db`.
pub open spec fn batch_fresh(db: Seq<RecordView>, batch: Seq<RecordView>) -> bool {
    forall|i: int| 0 <= i < batch.len() ==> !log_contains_key(db, #[trigger] batch[i].key)
}

impl Database {
    /// The configured bound on the flatfile's size in bytes.
    pub closed spec fn flat_capacity(&self) -> nat {
        self.flatfile.map_size_spec()
    }

    /// The configured bound on the sequence-number index's size in bytes.
    pub closed spec fn seqno_capacity(&self) -> nat {
        self.seqno_index.map_size_spec()
    }

    /// The bytes of the flatfile.
    pub closed spec fn log_bytes(&self) -> Seq<u8> {
        self.flatfile@
    }

    /// The entries of the sequence-number index.
    pub closed spec fn seqno_view(&self) -> Seq<u64> {
        self.seqno_index@
    }

    /// The key index's mapping.
    pub closed spec fn key_index(&self) -> Map<Seq<u8>, usize> {
        self.index@
    }

    /// The cross-structure invariants: the flatfile holds exactly the
    /// encodings of the inserted records; keys are pairwise distinct; the
    /// sequence-number index holds each record's offset at its sequence
    /// number; and the key index maps each key to its record's offset.
    pub closed spec fn inv(&self) -> bool {
        &&& self.flatfile.inv()
        &&& self.seqno_index.inv()
        &&& self.index.inv()
        &&& self.log_bytes() == records_bytes(self@)
        &&& wf_records(self@)
        &&& distinct_keys(self@)
        &&& self.seqno_view().len() == self@.len()
        &&& (forall|i: int|
            0 <= i < self@.len() ==> self.seqno_view()[i] == offset_of(self@, i) as u64)
        &&& self.key_index() == key_map(self@)
    }

    /// Number of bytes of records the flatfile holds.
    pub fn flatfile_len(&self) -> (r: usize)
        ensures
            r == self.log_bytes().len(),
    {
        self.flatfile.len()
    }

    /// A copy of the flatfile's bytes, for the host to persist.  Opening
    /// a database over these bytes recovers the same records.
    pub fn data_bytes(&self) -> (r: Vec<u8>)
        ensures
            r@ == self.log_bytes(),
    {
        let b = self.flatfile.bytes_from(0);
        proof {
            assert(self.log_bytes().skip(0) =~= self.log_bytes());
        }
        b
    }

    /// The on-disk bytes of the sequence-number index, eight little-endian
    /// bytes per entry, for the host to persist.
    pub fn seqno_bytes(&self) -> (r: Vec<u8>)
        ensures
            r@ == offsets_bytes(self.seqno_view()),
    {
        let b = self.seqno_index.bytes_from(0);
        proof {
            assert(self.seqno_view().skip(0) =~= self.seqno_view());
        }
        b
    }

    /// Append a batch of records atomically.  The whole batch is refused
    /// when any of its keys is already present or repeats within the
    /// batch, or when it would overrun the flatfile map or the
    /// sequence-number map; a refused append leaves the database
    /// unchanged.
    #[verifier::spinoff_prover]
    #[verifier::rlimit(100)]
    pub fn append(&mut self, records: &[Record]) -> (r: Result<(), Error>)
        requires
            old(self).inv(),
        ensures
            final(self).inv(),
            final(self).flat_capacity() == old(self).flat_capacity(),
            final(self).seqno_capacity() == old(self).seqno_capacity(),
            match r {
                Ok(()) => {
                    &&& batch_fresh(old(self)@, views_of(records@))
                    &&& distinct_keys(views_of(records@))
                    &&& records_bytes(old(self)@).len() + records_bytes(views_of(records@)).len()
                        <= old(self).flat_capacity()
                    &&& 8 * (old(self)@.len() + records@.len()) <= old(self).seqno_capacity()
                    &&& final(self)@ == old(self)@ + views_of(records@)
                },
                Err(Error::RecordExists(k)) => {
                    &&& final(self)@ == old(self)@
                    &&& final(self).seqno_view() == old(self).seqno_view()
                    &&& final(self).key_index() == old(self).key_index()
                    &&& exists|i: int| 0 <= i < records@.len() && views_of(records@)[i].key == k@
                    &&& (log_contains_key(old(self)@, k@) || exists|i: int, j: int|
                        0 <= i < j < records@.len() && views_of(records@)[i].key == k@ && views_of(
                            records@,
                        )[j].key == k@)
                },
                Err(Error::OutOfSpace) => {
                    &&& final(self)@ == old(self)@
                    &&& final(self).seqno_view() == old(self).seqno_view()
                    &&& final(self).key_index() == old(self).key_index()
                    &&& batch_fresh(old(self)@, views_of(records@))
                    &&& distinct_keys(views_of(records@))
                    &&& (records_bytes(old(self)@).len() + records_bytes(
                        views_of(records@),
                    ).len() > old(self).flat_capacity() || 8 * (old(self)@.len() + records@.len())
                        > old(self).seqno_capacity())
                },
            },
    {
        let ghost old_rs = old(self)@;
        let ghost batch = views_of(records@);
        let n = records.len();

        // Validate the whole batch before touching anything: every key
        // must be absent from the database and must not repeat within the
        // batch.
        let mut i: usize = 0;
        while i < n
            invariant
                i <= n,
                n == records@.len(),
                old(self).inv(),
                *self == *old(self),
                old_rs == old(self)@,
                batch == views_of(records@),
                forall|j: int| 0 <= j < i ==> !log_contains_key(old_rs, #[trigger] batch[j].key),
                forall|x: int, y: int| 0 <= x < y < i ==> batch[x].key != batch[y].key,
            decreases n - i,
        {
            let key = records[i].key();
            proof {
                assert(batch[i as int].key == key@);
            }
            if self.index.contains(key) {
                proof {
                    lemma_key_map_dom(old_rs, key@);
                    assert(views_of(records@)[i as int].key == key@);
                }
                return Err(Error::RecordExists(vstd::slice::slice_to_vec(key)));
            }
            proof {
                lemma_key_map_dom(old_rs, key@);
            }
            let mut j: usize = 0;
            while j < i
                invariant
                    j <= i < n,
                    n == records@.len(),
                    old(self).inv(),
                    *self == *old(self),
                    old_rs == old(self)@,
                    batch == views_of(records@),
                    key@ == batch[i as int].key,
                    forall|x: int| 0 <= x < j ==> batch[x].key != batch[i as int].key,
                decreases i - j,
            {
                if bytes_eq(records[j].key(), key) {
                    proof {
                        assert(views_of(records@)[j as int].key == key@);
                        assert(views_of(records@)[i as int].key == key@);
                    }
                    return Err(Error::RecordExists(vstd::slice::slice_to_vec(key)));
                }
                j = j + 1;
            }
            i = i + 1;
        }
        proof {
            assert(batch_fresh(old_rs, batch));
            assert(distinct_keys(batch));
        }

        // Reserve room in the sequence-number index before writing the
        // flatfile, so that an append never leaves the two diverged.
        if !self.seqno_index.can_hold(n) {
            return Err(Error::OutOfSpace);
        }

        let initial = self.flatfile.len();
        match self.flatfile.append(records) {
            Err(e) => {
                return Err(e);
            },
            Ok(()) => {},
        }
        let ghost new_rs = old_rs + batch;
        proof {
            lemma_records_bytes_concat(old_rs, batch);
            assert(wf_records(new_rs)) by {
                assert forall|t: int| 0 <= t < new_rs.len() implies crate::codec::valid_record(
                    #[trigger] new_rs[t],
                ) by {
                    if t < old_rs.len() {
                        assert(new_rs[t] == old_rs[t]);
                    } else {
                        assert(new_rs[t] == batch[t - old_rs.len()]);
                    }
                }
            }
            lemma_log_round_trip(new_rs);
        }

        // Publish the new records in the key index and collect their
        // offsets for the sequence-number index.
        let mut offs: Vec<u64> = Vec::new();
        let mut offset: usize = initial;
        let mut k: usize = 0;
        proof {
            assert(old_rs + batch.take(0) =~= old_rs);
            assert(new_rs.take(old_rs.len() as int) =~= old_rs);
        }
        while k < n
            invariant
                k <= n,
                n == records@.len(),
                batch == views_of(records@),
                new_rs == old_rs + batch,
                wf_records(new_rs),
                initial == records_bytes(old_rs).len(),
                self.flatfile@ == records_bytes(new_rs),
                self.flatfile.inv(),
                self.flatfile.map_size_spec() == old(self).flat_capacity(),
                self.seqno_index == old(self).seqno_index,
                old(self).inv(),
                old_rs == old(self)@,
                records_bytes(new_rs).len() <= old(self).flat_capacity(),
                self.index.inv(),
                self.index@ == key_map(old_rs + batch.take(k as int)),
                offset == records_bytes(old_rs + batch.take(k as int)).len(),
                offs@.len() == k,
                forall|j: int| 0 <= j < k ==> offs@[j] == offset_of(new_rs, old_rs.len() + j) as u64,
            decreases n - k,
        {
            let ghost pre = old_rs + batch.take(k as int);
            let ghost idx = old_rs.len() + k;
            proof {
                reveal(crate::codec::offset_of);
                assert(new_rs.take(idx as int) =~= pre);
                assert(new_rs[idx as int] == batch[k as int]);
                lemma_records_bytes_split(new_rs, idx as int);
                assert(offset == offset_of(new_rs, idx as int));
                lemma_record_at(new_rs, idx as int);
                lemma_offset_step(new_rs, idx as int);
                assert(pre.push(batch[k as int]) =~= old_rs + batch.take(k as int + 1));
                lemma_key_map_push(pre, batch[k as int]);
                assert(views_of(records@)[k as int] == records@[k as int]@);
            }
            let rec = &records[k];
            self.index.put(rec.key(), offset);
            offs.push(offset as u64);
            proof {
                assert(new_rs.take(idx as int + 1) =~= old_rs + batch.take(k as int + 1));
            }
            let len_k = record_len(rec);
            offset = offset + len_k;
            k = k + 1;
        }
        proof {
            assert(batch.take(n as int) =~= batch);
        }
        match self.seqno_index.append(&offs) {
            Ok(()) => {},
            Err(_) => {
                proof {
                    assert(false);
                }
                return Err(Error::OutOfSpace);
            },
        }
        proof {
            assert(distinct_keys(new_rs)) by {
                assert forall|x: int, y: int|
                    0 <= x < y < new_rs.len() implies new_rs[x].key != new_rs[y].key by {
                    if y < old_rs.len() {
                        assert(new_rs[x] == old_rs[x] && new_rs[y] == old_rs[y]);
                    } else if x >= old_rs.len() {
                        assert(new_rs[x] == batch[x - old_rs.len()] && new_rs[y] == batch[y
                            - old_rs.len()]);
                    } else {
                        assert(new_rs[x] == old_rs[x] && new_rs[y] == batch[y - old_rs.len()]);
                        assert(!log_contains_key(old_rs, batch[y - old_rs.len()].key));
                        if old_rs[x].key == batch[y - old_rs.len()].key {
                            assert(log_contains_key(old_rs, batch[y - old_rs.len()].key));
                        }
                    }
                }
            }
            assert forall|t: int| 0 <= t < new_rs.len() implies self.seqno_index@[t] == offset_of(
                new_rs,
                t,
            ) as u64 by {
                if t < old_rs.len() {
                    lemma_offset_of_prefix(old_rs, batch, t);
                    assert(old(self).seqno_view()[t] == offset_of(old_rs, t) as u64);
                }
            }
        }
        Ok(())
    }

    /// Look a record up by its key.
    #[verifier::spinoff_prover]
    #[verifier::rlimit(100)]
    pub fn get(&self, key: &[u8]) -> (r: Option<Record>)
        requires
            self.inv(),
        ensures
            match r {
                Some(rec) => log_contains_key(self@, key@) && lookup(self@, key@) == Some(rec@),
                None => !log_contains_key(self@, key@),
            },
    {
        let off = match self.index.get(key) {
            Some(off) => off,
            None => {
                proof {
                    lemma_key_map_dom(self@, key@);
                }
                return None;
            },
        };
        proof {
            lemma_key_map_dom(self@, key@);
            let i = choose|i: int| 0 <= i < self@.len() && self@[i].key == key@;
            lemma_key_map_distinct(self@, i);
            lemma_records_bytes_split(self@, i);
            lemma_record_at(self@, i);
            lemma_lookup_distinct(self@, i);
        }
        match self.flatfile.get_record_at_offset(off) {
            Some(rec) => Some(rec),
            None => {
                proof {
                    assert(false);
                }
                None
            },
        }
    }

    /// Look a record up by its sequence number: the `i`-th inserted
    /// record, or `None` when fewer than `i + 1` records were inserted.
    #[verifier::spinoff_prover]
    #[verifier::rlimit(100)]
    pub fn get_by_seqno(&self, seqno: usize) -> (r: Option<Record>)
        requires
            self.inv(),
        ensures
            match r {
                Some(rec) => seqno < self@.len() && rec@ == self@[seqno as int],
                None => seqno >= self@.len(),
            },
    {
        let off64 = match self.seqno_index.get_pointer_to_value(seqno) {
            Some(o) => o,
            None => {
                return None;
            },
        };
        proof {
            lemma_records_bytes_split(self@, seqno as int);
            lemma_record_at(self@, seqno as int);
        }
        let off = off64 as usize;
        match self.flatfile.get_record_at_offset(off) {
            Some(rec) => Some(rec),
            None => {
                proof {
                    assert(false);
                }
                None
            },
        }
    }

    /// Iterate the records in insertion order, starting at the given
    /// sequence number, over a snapshot of the log taken now.  `None`
    /// when no record has that sequence number yet.
    #[verifier::spinoff_prover]
    #[verifier::rlimit(100)]
    pub fn iter_from_seqno(&self, seqno: usize) -> (r: Option<SeqNoIter>)
        requires
            self.inv(),
        ensures
            match r {
                Some(it) => {
                    &&& seqno < self@.len()
                    &&& it.inv()
                    &&& it@ == self@.skip(seqno as int)
                },
                None => seqno >= self@.len(),
            },
    {
        let off64 = match self.seqno_index.get_pointer_to_value(seqno) {
            Some(o) => o,
            None => {
                return None;
            },
        };
        proof {
            lemma_records_bytes_split(self@, seqno as int);
            lemma_records_bytes_skip(self@, seqno as int);
            assert(wf_records(self@.skip(seqno as int))) by {
                assert forall|t: int|
                    0 <= t < self@.skip(seqno as int).len() implies crate::codec::valid_record(
                    #[trigger] self@.skip(seqno as int)[t],
                ) by {
                    assert(self@.skip(seqno as int)[t] == self@[t + seqno]);
                }
            }
            lemma_log_round_trip(self@.skip(seqno as int));
        }
        let it = SeqNoIter::new(&self.flatfile, off64 as usize);
        Some(it)
    }
}

impl DatabaseBuilder {
    /// The configured flatfile map size.
    pub closed spec fn flatfile_map_size_spec(&self) -> nat {
        self.flatfile_map_size as nat
    }

    /// The configured sequence-number index map size.
    pub closed spec fn seqno_index_map_size_spec(&self) -> nat {
        self.seqno_index_map_size as nat
    }

    /// A builder with the default map sizes.
    pub fn new() -> (r: DatabaseBuilder)
        ensures
            r.flatfile_map_size_spec() == clamped_size(DEFAULT_FLATFILE_MAP_SIZE),
            r.seqno_index_map_size_spec() == clamped_size(DEFAULT_SEQNO_INDEX_MAP_SIZE),
    {
        DatabaseBuilder {
            flatfile_map_size: clamp_to_usize(DEFAULT_FLATFILE_MAP_SIZE),
            seqno_index_map_size: clamp_to_usize(DEFAULT_SEQNO_INDEX_MAP_SIZE),
        }
    }

    /// Bound the flatfile map: at most this many bytes of records.
    pub fn flatfile_map_size(self, value: usize) -> (r: DatabaseBuilder)
        ensures
            r.flatfile_map_size_spec() == value,
            r.seqno_index_map_size_spec() == self.seqno_index_map_size_spec(),
    {
        DatabaseBuilder { flatfile_map_size: value, ..self }
    }

    /// Bound the sequence-number index map: at most an eighth of this
    /// many records.
    pub fn seqno_index_map_size(self, value: usize) -> (r: DatabaseBuilder)
        ensures
            r.seqno_index_map_size_spec() == value,
            r.flatfile_map_size_spec() == self.flatfile_map_size_spec(),
    {
        DatabaseBuilder { seqno_index_map_size: value, ..self }
    }

    /// Open a database over the content of its data file (empty for a new
    /// database).  The records are recovered by scanning the bytes; the
    /// key index and the sequence-number index are rebuilt from that scan,
    /// the flatfile being the sole source of truth.  Fails when the
    /// recovered records repeat a key, or overrun the sequence-number map.
    #[verifier::spinoff_prover]
    #[verifier::rlimit(100)]
    pub fn open(self, data: Vec<u8>) -> (r: Result<Database, Error>)
        ensures
            match r {
                Ok(db) => {
                    &&& db.inv()
                    &&& db@ == parse_records(clamped(data@, self.flatfile_map_size_spec()))
                    &&& db.flat_capacity() == self.flatfile_map_size_spec()
                    &&& db.seqno_capacity() == self.seqno_index_map_size_spec()
                    &&& 8 * db@.len() <= self.seqno_index_map_size_spec()
                },
                Err(Error::RecordExists(k)) => repeated_key(
                    parse_records(clamped(data@, self.flatfile_map_size_spec())),
                    k@,
                ),
                Err(Error::OutOfSpace) => {
                    let rs = parse_records(clamped(data@, self.flatfile_map_size_spec()));
                    distinct_keys(rs) && 8 * rs.len() > self.seqno_index_map_size_spec()
                },
            },
    {
        let flatfile = FlatFile::open(data, self.flatfile_map_size);
        let ghost rs = parse_records(flatfile@);
        let index = Index::new(&flatfile);
        let bytes = flatfile.bytes_from(0);
        proof {
            assert(flatfile@.skip(0) =~= flatfile@);
        }
        let mut offs: Vec<u64> = Vec::new();
        let mut pos: usize = 0;
        let ghost mut parsed = Seq::<RecordView>::empty();
        proof {
            assert(bytes@.take(0) =~= Seq::<u8>::empty());
            assert(records_bytes(Seq::<RecordView>::empty()) == Seq::<u8>::empty());
            assert(bytes@.skip(0) =~= bytes@);
            assert(parsed + parse_records(bytes@) =~= parse_records(bytes@));
        }
        loop
            invariant
                pos <= bytes@.len(),
                bytes@ == flatfile@,
                rs == parse_records(bytes@),
                rs == parse_records(clamped(data@, self.flatfile_map_size_spec())),
                flatfile@ == records_bytes(rs),
                index.inv(),
                index@ == key_map(rs),
                wf_records(parsed),
                records_bytes(parsed) == bytes@.take(pos as int),
                parse_records(bytes@) == parsed + parse_records(bytes@.skip(pos as int)),
                offs@.len() == parsed.len(),
                forall|j: int| 0 <= j < parsed.len() ==> offs@[j] == offset_of(rs, j) as u64,
                forall|j: int|
                    0 <= j < parsed.len() ==> key_map(rs)[#[trigger] rs[j].key] == offset_of(
                        rs,
                        j,
                    ) as usize,
            ensures
                parsed == rs,
                offs@.len() == rs.len(),
                forall|j: int| 0 <= j < rs.len() ==> offs@[j] == offset_of(rs, j) as u64,
                forall|j: int|
                    0 <= j < rs.len() ==> key_map(rs)[#[trigger] rs[j].key] == offset_of(
                        rs,
                        j,
                    ) as usize,
            decreases bytes@.len() - pos,
        {
            match parse_record_at(bytes.as_slice(), pos) {
                Some(rn) => {
                    let ghost cur = parsed.len() as int;
                    proof {
                        lemma_scan_step(bytes@, parsed, pos as nat, rn.0@, rn.1 as nat);
                        assert(rs[cur] == rn.0@);
                        assert(offset_of(rs, cur) == pos);
                    }
                    let key = rn.0.key();
                    match index.get(key) {
                        Some(o) => {
                            if o != pos {
                                proof {
                                    lemma_key_map_at_or_after(rs, cur);
                                    let m = choose|m: int|
                                        cur <= m < rs.len() && rs[m].key == rs[cur].key && key_map(
                                            rs,
                                        )[rs[cur].key] == offset_of(rs, m) as usize;
                                    assert(m != cur);
                                    assert(rs[cur].key == key@ && rs[m].key == key@);
                                }
                                return Err(Error::RecordExists(vstd::slice::slice_to_vec(key)));
                            }
                        },
                        None => {
                            proof {
                                lemma_key_map_dom(rs, key@);
                                assert(log_contains_key(rs, rs[cur].key));
                                assert(false);
                            }
                            return Err(Error::OutOfSpace);
                        },
                    }
                    offs.push(pos as u64);
                    proof {
                        parsed = parsed.push(rn.0@);
                    }
                    pos = pos + rn.1;
                },
                None => {
                    proof {
                        lemma_scan_end(bytes@, parsed, pos as nat);
                    }
                    break ;
                },
            }
        }
        proof {
            assert(distinct_keys(rs)) by {
                assert forall|x: int, y: int|
                    0 <= x < y < rs.len() implies rs[x].key != rs[y].key by {
                    if rs[x].key == rs[y].key {
                        lemma_key_map_dup(rs, x, y);
                    }
                }
            }
        }
        let mut seqno_index = SeqNoIndex::new(self.seqno_index_map_size);
        match seqno_index.append(&offs) {
            Ok(()) => {},
            Err(_) => {
                return Err(Error::OutOfSpace);
            },
        }
        let db = Database { flatfile, seqno_index, index };
        proof {
            assert(db.seqno_view() =~= offs@);
        }
        Ok(db)
    }
}

/// Round trip by key: appending a batch whose keys are absent from the
/// database and pairwise distinct makes every batch record retrievable by
/// its own key.
pub proof fn lemma_round_trip_by_key(pre: Seq<RecordView>, batch: Seq<RecordView>)
    requires
        distinct_keys(pre),
        distinct_keys(batch),
        batch_fresh(pre, batch),
    ensures
        forall|i: int|
            0 <= i < batch.len() ==> lookup(pre + batch, #[trigger] batch[i].key) == Some(batch[i]),
{
    let all = pre + batch;
    assert(distinct_keys(all)) by {
        assert forall|x: int, y: int| 0 <= x < y < all.len() implies all[x].key != all[y].key by {
            if y < pre.len() {
                assert(all[x] == pre[x] && all[y] == pre[y]);
            } else if x >= pre.len() {
                assert(all[x] == batch[x - pre.len()] && all[y] == batch[y - pre.len()]);
            } else {
                assert(all[x] == pre[x] && all[y] == batch[y - pre.len()]);
                assert(!log_contains_key(pre, batch[y - pre.len()].key));
                if pre[x].key == batch[y - pre.len()].key {
                    assert(log_contains_key(pre, batch[y - pre.len()].key));
                }
            }
        }
    }
    assert forall|i: int|
        0 <= i < batch.len() implies lookup(pre + batch, #[trigger] batch[i].key) == Some(
        batch[i],
    ) by {
        assert(all[pre.len() + i] == batch[i]);
        lemma_lookup_distinct(all, pre.len() + i);
    }
}

/// A batch append and the same records appended one at a time reach the
/// same sequence of records, and therefore the same database state: every
/// observable answer is a function of that sequence.
pub proof fn lemma_batch_equals_single_appends(
    pre: Seq<RecordView>,
    batch: Seq<RecordView>,
    i: int,
)
    requires
        0 <= i < batch.len(),
    ensures
        (pre + batch.take(i)).push(batch[i]) == pre + batch.take(i + 1),
{
    assert((pre + batch.take(i)).push(batch[i]) =~= pre + batch.take(i + 1));
}

/// Offset consistency: for every record, the key index's offset for its
/// key equals the sequence-number index's entry at its sequence number.
#[verifier::spinoff_prover]
#[verifier::rlimit(100)]
pub proof fn lemma_offset_consistency(db: &Database)
    requires
        db.inv(),
    ensures
        forall|i: int|
            0 <= i < db@.len() ==> db.key_index().contains_key(#[trigger] db@[i].key)
                && db.key_index()[db@[i].key] as u64 == db.seqno_view()[i],
{
    assert forall|i: int|
        0 <= i < db@.len() implies db.key_index().contains_key(#[trigger] db@[i].key)
        && db.key_index()[db@[i].key] as u64 == db.seqno_view()[i] by {
        lemma_key_map_distinct(db@, i);
        lemma_records_bytes_split(db@, i);
    }
}

} // verus!
