//! The in-memory key index: a mapping from record keys to flatfile
//! offsets.  It is derived state, rebuilt by scanning the flatfile when a
//! database is opened, and never persisted.

use vstd::prelude::*;

use crate::codec::bytes_eq;
use crate::codec::key_map;
use crate::codec::lemma_key_map_push;
use crate::codec::lemma_scan_end;
use crate::codec::lemma_scan_step;
use crate::codec::parse_record_at;
use crate::codec::parse_records;
use crate::codec::records_bytes;
use crate::codec::wf_records;
use crate::flatfile::FlatFile;
use crate::record::RecordView;

verus! {

/// The key index.  Its view is a mapping from key bytes to the flatfile
/// offset of the record bearing the key.  Keys are stored by owned value,
/// independent of the log's bytes.
#[derive(Debug)]
pub struct Index {
    entries: Vec<(Vec<u8>, usize)>,
}

/// The mathematical contents of the stored entries, in insertion order.
pub open spec fn entry_views(entries: Seq<(Vec<u8>, usize)>) -> Seq<(Seq<u8>, usize)> {
    entries.map_values(|e: (Vec<u8>, usize)| (e.0@, e.1))
}

/// The mapping that a list of entries denotes, a later entry winning when
/// a key repeats.
pub open spec fn map_of(s: Seq<(Seq<u8>, usize)>) -> Map<Seq<u8>, usize>
    decreases s.len(),
{
    if s.len() == 0 {
        Map::<Seq<u8>, usize>::empty()
    } else {
        map_of(s.drop_last()).insert(s.last().0, s.last().1)
    }
}

impl View for Index {
    type V = Map<Seq<u8>, usize>;

    closed spec fn view(&self) -> Map<Seq<u8>, usize> {
        map_of(entry_views(self.entries@))
    }
}

/// A key occurs in the mapping exactly when some entry bears it.
proof fn lemma_map_of_contains(s: Seq<(Seq<u8>, usize)>, k: Seq<u8>)
    ensures
        map_of(s).contains_key(k) <==> exists|i: int| 0 <= i < s.len() && s[i].0 == k,
    decreases s.len(),
{
    if s.len() > 0 {
        lemma_map_of_contains(s.drop_last(), k);
        if s.last().0 == k {
            assert(s[s.len() - 1].0 == k);
        } else {
            if exists|i: int| 0 <= i < s.drop_last().len() && s.drop_last()[i].0 == k {
                let w = choose|i: int| 0 <= i < s.drop_last().len() && s.drop_last()[i].0 == k;
                assert(s[w].0 == k);
            }
            if exists|i: int| 0 <= i < s.len() && s[i].0 == k {
                let w = choose|i: int| 0 <= i < s.len() && s[i].0 == k;
                assert(s.drop_last()[w].0 == k);
            }
        }
    }
}

/// With pairwise-distinct keys, the mapping sends each entry's key to
/// that entry's offset.
proof fn lemma_map_of_get(s: Seq<(Seq<u8>, usize)>, i: int)
    requires
        forall|x: int, y: int| 0 <= x < y < s.len() ==> s[x].0 != s[y].0,
        0 <= i < s.len(),
    ensures
        map_of(s).contains_key(s[i].0),
        map_of(s)[s[i].0] == s[i].1,
    decreases s.len(),
{
    if i < s.len() - 1 {
        assert(s.last().0 != s[i].0);
        assert(s.drop_last()[i] == s[i]);
        lemma_map_of_get(s.drop_last(), i);
    }
}

/// Overwriting the entry that bears `k` updates the mapping at `k`.
proof fn lemma_map_of_update(s: Seq<(Seq<u8>, usize)>, i: int, k: Seq<u8>, v: usize)
    requires
        forall|x: int, y: int| 0 <= x < y < s.len() ==> s[x].0 != s[y].0,
        0 <= i < s.len(),
        s[i].0 == k,
    ensures
        map_of(s.update(i, (k, v))) == map_of(s).insert(k, v),
    decreases s.len(),
{
    let u = s.update(i, (k, v));
    if i == s.len() - 1 {
        assert(u.drop_last() =~= s.drop_last());
        assert(u.last() == (k, v));
        assert(map_of(s.drop_last()).insert(k, s[i].1).insert(k, v) =~= map_of(
            s.drop_last(),
        ).insert(k, v));
    } else {
        assert(u.drop_last() =~= s.drop_last().update(i, (k, v)));
        assert(u.last() == s.last());
        assert(s.drop_last()[i] == s[i]);
        lemma_map_of_update(s.drop_last(), i, k, v);
        let lk = s.last().0;
        let lv = s.last().1;
        assert(lk != k);
        assert(map_of(s.drop_last()).insert(k, v).insert(lk, lv) =~= map_of(s.drop_last()).insert(
            lk,
            lv,
        ).insert(k, v));
        assert(map_of(u) == map_of(s.drop_last()).insert(k, v).insert(lk, lv));
        assert(map_of(s).insert(k, v) == map_of(s.drop_last()).insert(lk, lv).insert(k, v));
    }
}

/// Each entry's view pairs the key's bytes with the stored offset.
proof fn lemma_entry_views_index(entries: Seq<(Vec<u8>, usize)>)
    ensures
        entry_views(entries).len() == entries.len(),
        forall|x: int|
            0 <= x < entries.len() ==> entry_views(entries)[x] == (entries[x].0@, entries[x].1),
{
}

impl Index {
    /// No two stored entries bear the same key.
    pub closed spec fn inv(&self) -> bool {
        forall|x: int, y: int|
            0 <= x < y < self.entries@.len() ==> self.entries@[x].0@ != self.entries@[y].0@
    }

    /// Build the index by scanning the log: every record's key is mapped
    /// to the offset at which the record begins, a later record winning
    /// when a key repeats.
    pub fn new(data: &FlatFile) -> (r: Index)
        ensures
            r.inv(),
            r@ == key_map(parse_records(data@)),
    {
        let bytes = data.bytes_from(0);
        proof {
            assert(data@.skip(0) =~= data@);
        }
        let mut index = Index { entries: Vec::new() };
        let mut pos: usize = 0;
        let ghost mut parsed = Seq::<RecordView>::empty();
        proof {
            assert(bytes@.take(0) =~= Seq::<u8>::empty());
            assert(records_bytes(Seq::<RecordView>::empty()) == Seq::<u8>::empty());
            assert(bytes@.skip(0) =~= bytes@);
            assert(parsed + parse_records(bytes@) =~= parse_records(bytes@));
            assert(entry_views(index.entries@) =~= Seq::<(Seq<u8>, usize)>::empty());
            assert(index@ =~= key_map(parsed));
        }
        loop
            invariant
                pos <= bytes@.len(),
                wf_records(parsed),
                records_bytes(parsed) == bytes@.take(pos as int),
                parse_records(bytes@) == parsed + parse_records(bytes@.skip(pos as int)),
                index.inv(),
                index@ == key_map(parsed),
            ensures
                parse_records(bytes@) == parsed,
                index.inv(),
                index@ == key_map(parsed),
            decreases bytes@.len() - pos,
        {
            match parse_record_at(bytes.as_slice(), pos) {
                Some(rn) => {
                    proof {
                        lemma_scan_step(bytes@, parsed, pos as nat, rn.0@, rn.1 as nat);
                        lemma_key_map_push(parsed, rn.0@);
                    }
                    index.put(rn.0.key(), pos);
                    proof {
                        parsed = parsed.push(rn.0@);
                    }
                    pos = pos + rn.1;
                },
                None => {
                    proof {
                        lemma_scan_end(bytes@, parsed, pos as nat);
                    }
                    break ;
                },
            }
        }
        index
    }

    /// Map `key` to `offset`, replacing any earlier mapping of `key`.
    pub fn put(&mut self, key: &[u8], offset: usize)
        requires
            old(self).inv(),
        ensures
            final(self).inv(),
            final(self)@ == old(self)@.insert(key@, offset),
    {
        let n = self.entries.len();
        let mut i: usize = 0;
        while i < n
            invariant
                i <= n,
                n == self.entries@.len(),
                old(self).inv(),
                self.entries@ == old(self).entries@,
                forall|j: int| 0 <= j < i ==> self.entries@[j].0@ != key@,
            decreases n - i,
        {
            if bytes_eq(self.entries[i].0.as_slice(), key) {
                proof {
                    let s = entry_views(old(self).entries@);
                    lemma_entry_views_index(old(self).entries@);
                    assert(old(self).entries@[i as int].0@ == key@);
                    assert forall|x: int, y: int| 0 <= x < y < s.len() implies s[x].0 != s[y].0 by {
                        assert(s[x] == (old(self).entries@[x].0@, old(self).entries@[x].1));
                        assert(s[y] == (old(self).entries@[y].0@, old(self).entries@[y].1));
                        assert(old(self).entries@[x].0@ != old(self).entries@[y].0@);
                    }
                    lemma_map_of_update(s, i as int, key@, offset);
                }
                self.entries[i] = (vstd::slice::slice_to_vec(key), offset);
                proof {
                    lemma_entry_views_index(self.entries@);
                    lemma_entry_views_index(old(self).entries@);
                    assert(self.entries@[i as int].0@ == key@);
                    assert(forall|j: int|
                        0 <= j < self.entries@.len() && j != i ==> self.entries@[j] == old(
                            self,
                        ).entries@[j]);
                    assert(entry_views(self.entries@) =~= entry_views(old(self).entries@).update(
                        i as int,
                        (key@, offset),
                    ));
                    assert forall|x: int, y: int|
                        0 <= x < y < self.entries@.len() implies self.entries@[x].0@
                        != self.entries@[y].0@ by {
                        if x == i {
                            assert(self.entries@[x].0@ == old(self).entries@[x].0@);
                        }
                        if y == i {
                            assert(self.entries@[y].0@ == old(self).entries@[y].0@);
                        }
                        assert(old(self).entries@[x].0@ != old(self).entries@[y].0@);
                    }
                }
                return ;
            }
            i = i + 1;
        }
        self.entries.push((vstd::slice::slice_to_vec(key), offset));
        proof {
            lemma_entry_views_index(old(self).entries@);
            lemma_entry_views_index(self.entries@);
            let s = entry_views(old(self).entries@);
            assert(entry_views(self.entries@) =~= s.push((key@, offset)));
            assert(s.push((key@, offset)).drop_last() =~= s);
            assert(map_of(s.push((key@, offset))) == map_of(s).insert(key@, offset));
        }
    }

    /// The offset mapped to `key`, or `None` when `key` is absent.
    pub fn get(&self, key: &[u8]) -> (r: Option<usize>)
        requires
            self.inv(),
        ensures
            r == if self@.contains_key(key@) {
                Some(self@[key@])
            } else {
                None::<usize>
            },
    {
        let n = self.entries.len();
        let mut i: usize = 0;
        while i < n
            invariant
                i <= n,
                n == self.entries@.len(),
                self.inv(),
                forall|j: int| 0 <= j < i ==> self.entries@[j].0@ != key@,
            decreases n - i,
        {
            if bytes_eq(self.entries[i].0.as_slice(), key) {
                proof {
                    lemma_entry_views_index(self.entries@);
                    lemma_map_of_get(entry_views(self.entries@), i as int);
                }
                return Some(self.entries[i].1);
            }
            i = i + 1;
        }
        proof {
            lemma_entry_views_index(self.entries@);
            lemma_map_of_contains(entry_views(self.entries@), key@);
        }
        None
    }

    /// Whether `key` is present.
    pub fn contains(&self, key: &[u8]) -> (r: bool)
        requires
            self.inv(),
        ensures
            r == self@.contains_key(key@),
    {
        let r = self.get(key);
        r.is_some()
    }
}

} // verus!
