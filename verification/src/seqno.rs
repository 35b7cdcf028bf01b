//! The sequence-number index: an append-only array of 64-bit flatfile
//! offsets, one per record, indexed by insertion sequence number.  Its
//! on-disk form is eight little-endian bytes per entry, so the configured
//! map size bounds the entry count to an eighth of it.

use vstd::prelude::*;

use crate::codec::u64_le;
use crate::codec::write_u64_le;
use crate::error::Error;

verus! {

/// The index from sequence number to flatfile offset.  Its view is the
/// sequence of offsets, in insertion order.
#[derive(Debug)]
pub struct SeqNoIndex {
    offsets: Vec<u64>,
    map_size: usize,
}

impl View for SeqNoIndex {
    type V = Seq<u64>;

    closed spec fn view(&self) -> Seq<u64> {
        self.offsets@
    }
}

/// The little-endian encoding of a sequence of 64-bit offsets.
pub open spec fn offsets_bytes(s: Seq<u64>) -> Seq<u8>
    decreases s.len(),
{
    if s.len() == 0 {
        Seq::<u8>::empty()
    } else {
        u64_le(s[0]) + offsets_bytes(s.skip(1))
    }
}

impl SeqNoIndex {
    /// The configured bound on the index's size in bytes.
    pub closed spec fn map_size_spec(&self) -> nat {
        self.map_size as nat
    }

    /// The stored entries never exceed the map size, at eight bytes each;
    /// the map size is itself a usize.
    pub open spec fn inv(&self) -> bool {
        &&& 8 * self@.len() <= self.map_size_spec()
        &&& self.map_size_spec() <= usize::MAX
    }

    /// An empty index with the given map size.  The index is derived
    /// state: on open it is rebuilt from the flatfile, never read back
    /// from disk.
    pub fn new(map_size: usize) -> (r: SeqNoIndex)
        ensures
            r.inv(),
            r@ == Seq::<u64>::empty(),
            r.map_size_spec() == map_size,
    {
        SeqNoIndex { offsets: Vec::new(), map_size }
    }

    /// Number of entries.
    pub fn len(&self) -> (r: usize)
        ensures
            r == self@.len(),
    {
        self.offsets.len()
    }

    /// Whether `extra` more entries would still fit within the map size.
    pub fn can_hold(&self, extra: usize) -> (r: bool)
        requires
            self.inv(),
        ensures
            r == (8 * (self@.len() + extra) <= self.map_size_spec()),
    {
        let cap_entries = self.map_size / 8;
        extra <= cap_entries - self.offsets.len()
    }

    /// Append a batch of offsets atomically: either all fit within the
    /// map size and are added, or the index is left unchanged.
    pub fn append(&mut self, offsets: &Vec<u64>) -> (r: Result<(), Error>)
        requires
            old(self).inv(),
        ensures
            final(self).inv(),
            final(self).map_size_spec() == old(self).map_size_spec(),
            match r {
                Ok(()) => {
                    &&& 8 * (old(self)@.len() + offsets@.len()) <= old(self).map_size_spec()
                    &&& final(self)@ == old(self)@ + offsets@
                },
                Err(e) => {
                    &&& e == Error::OutOfSpace
                    &&& 8 * (old(self)@.len() + offsets@.len()) > old(self).map_size_spec()
                    &&& final(self)@ == old(self)@
                },
            },
    {
        let cap_entries = self.map_size / 8;
        if offsets.len() > cap_entries - self.offsets.len() {
            return Err(Error::OutOfSpace);
        }
        let n = offsets.len();
        let mut i: usize = 0;
        proof {
            assert(self.offsets@ + offsets@.take(0) =~= self.offsets@);
        }
        while i < n
            invariant
                i <= n,
                n == offsets@.len(),
                self.offsets@ == old(self).offsets@ + offsets@.take(i as int),
                self.map_size == old(self).map_size,
            decreases n - i,
        {
            self.offsets.push(offsets[i]);
            proof {
                assert(old(self).offsets@ + offsets@.take(i as int) + seq![offsets@[i as int]]
                    =~= old(self).offsets@ + offsets@.take(i + 1));
            }
            i = i + 1;
        }
        proof {
            assert(offsets@.take(n as int) =~= offsets@);
        }
        Ok(())
    }

    /// The flatfile offset of the record with sequence number `seqno`, or
    /// `None` when no such record has been inserted.
    pub fn get_pointer_to_value(&self, seqno: usize) -> (r: Option<u64>)
        ensures
            r == if seqno < self@.len() {
                Some(self@[seqno as int])
            } else {
                None::<u64>
            },
    {
        if seqno < self.offsets.len() {
            Some(self.offsets[seqno])
        } else {
            None
        }
    }

    /// The on-disk bytes of the entries from `start` on: eight
    /// little-endian bytes per offset.  The host appends these to the
    /// index file after a successful append.
    pub fn bytes_from(&self, start: usize) -> (r: Vec<u8>)
        requires
            start <= self@.len(),
        ensures
            r@ == offsets_bytes(self@.skip(start as int)),
    {
        let n = self.offsets.len();
        let mut out: Vec<u8> = Vec::new();
        let mut i: usize = start;
        proof {
            assert(offsets_bytes(self@.skip(start as int).take(0)) == Seq::<u8>::empty());
            assert(out@ =~= offsets_bytes(self@.skip(start as int).take(0)));
        }
        while i < n
            invariant
                start <= i <= n,
                n == self@.len(),
                out@ == offsets_bytes(self@.skip(start as int).take(i - start)),
            decreases n - i,
        {
            write_u64_le(&mut out, self.offsets[i]);
            proof {
                lemma_offsets_bytes_push(self@.skip(start as int), i - start);
            }
            i = i + 1;
        }
        proof {
            assert(self@.skip(start as int).take(n - start) =~= self@.skip(start as int));
        }
        out
    }
}

/// Encoding one more offset appends its eight bytes.
proof fn lemma_offsets_bytes_push(s: Seq<u64>, i: int)
    requires
        0 <= i < s.len(),
    ensures
        offsets_bytes(s.take(i + 1)) == offsets_bytes(s.take(i)) + u64_le(s[i]),
    decreases i,
{
    if i == 0 {
        assert(s.take(1)[0] == s[0]);
        assert(s.take(1).skip(1) =~= Seq::<u64>::empty());
        assert(offsets_bytes(Seq::<u64>::empty()) == Seq::<u8>::empty());
        assert(offsets_bytes(s.take(0)) == Seq::<u8>::empty());
        assert(offsets_bytes(s.take(1)) == u64_le(s[0]) + Seq::<u8>::empty());
        assert(u64_le(s[0]) + Seq::<u8>::empty() =~= u64_le(s[0]));
        assert(Seq::<u8>::empty() + u64_le(s[0]) =~= u64_le(s[0]));
    } else {
        lemma_offsets_bytes_push(s.skip(1), i - 1);
        assert(s.take(i + 1)[0] == s[0]);
        assert(s.take(i + 1).skip(1) =~= s.skip(1).take(i));
        assert(s.take(i).skip(1) =~= s.skip(1).take(i - 1));
        assert(s.take(i)[0] == s[0]);
        assert(s.skip(1)[i - 1] == s[i]);
        assert(offsets_bytes(s.take(i + 1)) == u64_le(s[0]) + offsets_bytes(s.skip(1).take(i)));
        assert(offsets_bytes(s.take(i)) == u64_le(s[0]) + offsets_bytes(s.skip(1).take(i - 1)));
        assert(u64_le(s[0]) + (offsets_bytes(s.skip(1).take(i - 1)) + u64_le(s[i])) =~= (u64_le(
            s[0],
        ) + offsets_bytes(s.skip(1).take(i - 1))) + u64_le(s[i]));
    }
}

} // verus!
