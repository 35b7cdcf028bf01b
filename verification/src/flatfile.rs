//! The flatfile: an append-only byte log bounded by a configured map size,
//! and the iterator that walks its records in insertion order.

use vstd::prelude::*;

use crate::codec::encode_record_into;
use crate::codec::lemma_log_round_trip;
use crate::codec::lemma_records_bytes_push;
use crate::codec::lemma_scan_end;
use crate::codec::lemma_scan_step;
use crate::codec::parse_record;
use crate::codec::parse_record_at;
use crate::codec::parse_records;
use crate::codec::record_size;
use crate::codec::records_bytes;
use crate::codec::views_of;
use crate::codec::wf_records;
use crate::error::Error;
use crate::record::Record;
use crate::record::RecordView;

verus! {

/// The append-only byte log.  Its view is the sequence of bytes written
/// so far; the map size bounds how many bytes it can ever hold.  The log
/// always holds a whole number of record encodings.
#[derive(Debug)]
pub struct FlatFile {
    data: Vec<u8>,
    map_size: usize,
}

impl View for FlatFile {
    type V = Seq<u8>;

    closed spec fn view(&self) -> Seq<u8> {
        self.data@
    }
}

impl FlatFile {
    /// The configured bound on the log's size in bytes.
    pub closed spec fn map_size_spec(&self) -> nat {
        self.map_size as nat
    }

    /// The written bytes never exceed the map size, itself a usize.
    pub open spec fn inv(&self) -> bool {
        &&& self@.len() <= self.map_size_spec()
        &&& self.map_size_spec() <= usize::MAX
    }

    /// Open a log over the given file bytes.  At most `map_size` bytes are
    /// considered; the logical length is recovered by decoding records
    /// from the start until decoding fails (a zero-filled or truncated
    /// tail ends the log), and everything past it is discarded.
    pub fn open(existing: Vec<u8>, map_size: usize) -> (r: FlatFile)
        ensures
            r.inv(),
            r.map_size_spec() == map_size,
            r@ == records_bytes(parse_records(r@)),
            parse_records(r@) == parse_records(crate::codec::clamped(existing@, map_size as nat)),
            wf_records(parse_records(r@)),
    {
        let mut data = existing;
        if data.len() > map_size {
            data.truncate(map_size);
        }
        let ghost clamped = data@;
        let mut pos: usize = 0;
        let ghost mut parsed = Seq::<RecordView>::empty();
        proof {
            assert(data@.take(0) =~= Seq::<u8>::empty());
            assert(records_bytes(Seq::<RecordView>::empty()) == Seq::<u8>::empty());
            assert(data@.skip(0) =~= data@);
            assert(parsed + parse_records(data@) =~= parse_records(data@));
        }
        loop
            invariant
                pos <= data@.len(),
                data@ == clamped,
                data@.len() <= map_size,
                wf_records(parsed),
                records_bytes(parsed) == data@.take(pos as int),
                parse_records(data@) == parsed + parse_records(data@.skip(pos as int)),
            ensures
                pos <= data@.len(),
                data@ == clamped,
                wf_records(parsed),
                records_bytes(parsed) == data@.take(pos as int),
                parse_records(data@) == parsed + parse_records(data@.skip(pos as int)),
                parse_record(data@.skip(pos as int)) is None,
            decreases data@.len() - pos,
        {
            match parse_record_at(data.as_slice(), pos) {
                Some(rn) => {
                    proof {
                        lemma_scan_step(data@, parsed, pos as nat, rn.0@, rn.1 as nat);
                        parsed = parsed.push(rn.0@);
                    }
                    pos = pos + rn.1;
                },
                None => {
                    break ;
                },
            }
        }
        data.truncate(pos);
        proof {
            lemma_scan_end(clamped, parsed, pos as nat);
            lemma_log_round_trip(parsed);
            assert(data@ == clamped.take(pos as int));
            assert(crate::codec::clamped(existing@, map_size as nat) =~= clamped);
        }
        FlatFile { data, map_size }
    }

    /// The logical length: how many bytes of records the log holds.
    pub fn len(&self) -> (r: usize)
        ensures
            r == self@.len(),
    {
        self.data.len()
    }

    /// Copy the written bytes from `start` to the logical end.
    pub fn bytes_from(&self, start: usize) -> (r: Vec<u8>)
        requires
            start <= self@.len(),
        ensures
            r@ == self@.skip(start as int),
    {
        let r = crate::codec::copy_range(self.data.as_slice(), start, self.data.len());
        proof {
            assert(self@.subrange(start as int, self@.len() as int) =~= self@.skip(start as int));
        }
        r
    }

    /// Append a whole batch of records atomically.  The batch is encoded
    /// into one buffer; if it does not fit in the remaining map space the
    /// log is left unchanged and the append fails.
    pub fn append(&mut self, records: &[Record]) -> (r: Result<(), Error>)
        requires
            old(self).inv(),
        ensures
            final(self).inv(),
            final(self).map_size_spec() == old(self).map_size_spec(),
            wf_records(views_of(records@)),
            match r {
                Ok(()) => {
                    &&& old(self)@.len() + records_bytes(views_of(records@)).len() <= old(
                        self,
                    ).map_size_spec()
                    &&& final(self)@ == old(self)@ + records_bytes(views_of(records@))
                },
                Err(e) => {
                    &&& e == Error::OutOfSpace
                    &&& old(self)@.len() + records_bytes(views_of(records@)).len() > old(
                        self,
                    ).map_size_spec()
                    &&& final(self)@ == old(self)@
                },
            },
    {
        let mut buf: Vec<u8> = Vec::new();
        let n = records.len();
        let mut i: usize = 0;
        proof {
            assert(views_of(records@.take(0)) =~= Seq::<RecordView>::empty());
            assert(records_bytes(Seq::<RecordView>::empty()) == Seq::<u8>::empty());
        }
        while i < n
            invariant
                i <= n,
                n == records@.len(),
                buf@ == records_bytes(views_of(records@.take(i as int))),
                forall|j: int| 0 <= j < i ==> crate::codec::valid_record(#[trigger] views_of(records@)[j]),
            decreases n - i,
        {
            encode_record_into(&mut buf, &records[i]);
            proof {
                assert(views_of(records@.take(i + 1)) =~= views_of(records@.take(i as int)).push(
                    records@[i as int]@,
                ));
                lemma_records_bytes_push(views_of(records@.take(i as int)), records@[i as int]@);
                assert(views_of(records@)[i as int] == records@[i as int]@);
            }
            i = i + 1;
        }
        proof {
            assert(records@.take(n as int) =~= records@);
        }
        if buf.len() > self.map_size - self.data.len() {
            return Err(Error::OutOfSpace);
        }
        self.data.append(&mut buf);
        Ok(())
    }

    /// Decode the record that begins at `offset`, or `None` when `offset`
    /// is at or past the logical end or no whole record decodes there.
    pub fn get_record_at_offset(&self, offset: usize) -> (r: Option<Record>)
        ensures
            match r {
                Some(rec) => offset <= self@.len() && parse_record(self@.skip(offset as int))
                    == Some((rec@, record_size(rec@))),
                None => offset >= self@.len() || parse_record(self@.skip(offset as int)) is None,
            },
    {
        if offset >= self.data.len() {
            return None;
        }
        match parse_record_at(self.data.as_slice(), offset) {
            Some(rn) => {
                proof {
                    crate::codec::lemma_encode_of_parse(
                        self@.skip(offset as int),
                        rn.0@,
                        rn.1 as nat,
                    );
                }
                Some(rn.0)
            },
            None => None,
        }
    }
}

/// An iterator over the records of the log, in insertion order, from a
/// starting offset.  It walks a snapshot of the log taken when it was
/// created: records appended later are not observed, so iteration always
/// terminates.  Its view is the sequence of records it has yet to yield.
pub struct SeqNoIter {
    data: Vec<u8>,
    pos: usize,
}

impl View for SeqNoIter {
    type V = Seq<RecordView>;

    closed spec fn view(&self) -> Seq<RecordView> {
        parse_records(self.data@.skip(self.pos as int))
    }
}

impl SeqNoIter {
    /// The cursor never passes the end of the snapshot.
    pub closed spec fn inv(&self) -> bool {
        self.pos <= self.data@.len()
    }

    /// Start an iterator at `offset` over a snapshot of the log.
    pub fn new(file: &FlatFile, offset: usize) -> (r: SeqNoIter)
        requires
            offset <= file@.len(),
        ensures
            r.inv(),
            r@ == parse_records(file@.skip(offset as int)),
    {
        let data = file.bytes_from(offset);
        let r = SeqNoIter { data, pos: 0 };
        proof {
            assert(r.data@.skip(0) =~= r.data@);
        }
        r
    }

    /// Yield the next record, or `None` when the snapshot is exhausted.
    pub fn next(&mut self) -> (r: Option<Record>)
        requires
            old(self).inv(),
        ensures
            final(self).inv(),
            match r {
                Some(rec) => {
                    &&& old(self)@.len() > 0
                    &&& rec@ == old(self)@[0]
                    &&& final(self)@ == old(self)@.skip(1)
                },
                None => {
                    &&& old(self)@.len() == 0
                    &&& final(self)@ == old(self)@
                },
            },
    {
        match parse_record_at(self.data.as_slice(), self.pos) {
            Some(rn) => {
                proof {
                    let b = self.data@.skip(self.pos as int);
                    assert(parse_records(b) == seq![rn.0@] + parse_records(b.skip(rn.1 as int)));
                    assert(b.skip(rn.1 as int) =~= self.data@.skip(self.pos as int + rn.1 as int));
                    assert((seq![rn.0@] + parse_records(
                        self.data@.skip(self.pos as int + rn.1 as int),
                    ))[0] == rn.0@);
                    assert((seq![rn.0@] + parse_records(
                        self.data@.skip(self.pos as int + rn.1 as int),
                    )).skip(1) =~= parse_records(self.data@.skip(self.pos as int + rn.1 as int)));
                }
                self.pos = self.pos + rn.1;
                Some(rn.0)
            },
            None => None,
        }
    }
}

} // verus!
