//! On-disk storage engine: a persistent key-value bucket per group.
//!
//! Records travel to disk as one encoded line each, under their index
//! as an eight-byte big-endian key.  Opening a group loads and decodes
//! every stored line into the verified in-memory table, which then
//! carries the group-store contract; every mutation is written through
//! to the bucket.  What the store holds between runs depends on the
//! disk, so nothing is assumed of loaded content beyond what decodes.
use vstd::prelude::*;

use crate::backend::{
    fresh_for, indices_bounded, BackendGroup, CleanCfg, GroupV, Record, RecordV, Time,
};
use crate::clip::Entry;
use crate::codec::{
    chars_to_string, emit_entry, emit_u64, emit_usize, glue, lemma_glue_assoc, p_entry, p_u64,
    p_usize, prepend, px_entry, px_u64, px_usize, str_to_chars,
};
use crate::memory::{
    group_of, lemma_pairs_at, lemma_pairs_keys, lemma_pairs_push, lemma_pairs_update, pairs_map,
    unique_keys, MemoryGroup,
};

verus! {

/// Parse one record: its index, its two timestamps, then its entry.
pub open spec fn p_rec(s: Seq<char>) -> Option<(RecordV, Seq<char>)> {
    match p_usize(s) {
        Some((ix, r1)) => match p_u64(r1) {
            Some((lu, r2)) => match p_u64(r2) {
                Some((ed, r3)) => match p_entry(r3) {
                    Some((entry, r4)) => Some(
                        (
                            RecordV {
                                index: ix,
                                entry,
                                last_used: lu as u64,
                                entry_date: ed as u64,
                            },
                            r4,
                        ),
                    ),
                    None => None,
                },
                None => None,
            },
            None => None,
        },
        None => None,
    }
}

/// The record a stored line denotes, if it parses in full.
pub open spec fn rec_line(s: Seq<char>) -> Option<RecordV> {
    match p_rec(s) {
        Some((r, rest)) => if rest.len() == 0 {
            Some(r)
        } else {
            None
        },
        None => None,
    }
}

/// Render a record as one line that parses back to it.
fn emit_rec(rec: &Record) -> (line: String)
    ensures
        rec_line(line@) == Some(rec@),
{
    let c1 = emit_usize(rec.index);
    let c2 = emit_u64(rec.last_used);
    let c3 = emit_u64(rec.entry_date);
    let c4 = emit_entry(&rec.entry);
    let ghost g1 = c1@;
    let ghost g2 = c2@;
    let ghost g3 = c3@;
    let ghost g4 = c4@;
    let out = prepend(c1, prepend(c2, prepend(c3, c4)));
    proof {
        assert(out@ =~= g1 + seq![' '] + (g2 + seq![' '] + (g3 + seq![' '] + g4)));
        lemma_glue_assoc(g3, g4, Seq::<char>::empty());
        lemma_glue_assoc(g2, g3 + seq![' '] + g4, Seq::<char>::empty());
        lemma_glue_assoc(g1, g2 + seq![' '] + (g3 + seq![' '] + g4), Seq::<char>::empty());
        assert(out@ == glue(g1, glue(g2, glue(g3, g4))));
    }
    chars_to_string(&out)
}

/// Parse one stored line back into a record.
fn parse_rec(line: &str) -> (r: Option<Record>)
    ensures
        match r {
            Some(rec) => rec_line(line@) == Some(rec@),
            None => rec_line(line@) is None,
        },
{
    let v = str_to_chars(line);
    proof {
        assert(v@.skip(0) =~= line@);
    }
    let (index, r1) = match px_usize(&v, 0) {
        Some(x) => x,
        None => {
            return None;
        },
    };
    let (last_used, r2) = match px_u64(&v, r1) {
        Some(x) => x,
        None => {
            return None;
        },
    };
    let (entry_date, r3) = match px_u64(&v, r2) {
        Some(x) => x,
        None => {
            return None;
        },
    };
    let (entry, r4) = match px_entry(&v, r3) {
        Some(x) => x,
        None => {
            return None;
        },
    };
    if r4 == v.len() {
        return Some(Record { index, entry, last_used, entry_date });
    }
    proof {
        assert(v@.skip(r4 as int).len() != 0);
    }
    None
}

/// A handle on one persistent store.
#[verifier::external_body]
pub struct DiskHandle {
    store: kv::Store,
}

/// One group's bucket within a persistent store.
#[verifier::external_body]
pub struct DiskTable {
    bucket: kv::Bucket<'static, kv::Raw, kv::Raw>,
}

/// Relies on kv's `Store::new`: opens or creates the persistent store
/// at the path.  Whether it succeeds depends on the disk.
#[verifier::external_body]
fn open_store(path: &str) -> Option<DiskHandle> {
    let store = kv::Store::new(kv::Config::new(path)).ok()?;
    Some(DiskHandle { store })
}

/// Relies on kv's `Store::bucket`: opens the named bucket.  Whether it
/// succeeds, and what it holds, depends on the disk.
#[verifier::external_body]
fn open_bucket(h: &DiskHandle, name: &str) -> Option<DiskTable> {
    let bucket = h.store.bucket(Some(name)).ok()?;
    Some(DiskTable { bucket })
}

/// Relies on kv's `Store::buckets`: the names of every bucket the
/// store holds, the engine's own internal default bucket included.  The
/// answer depends on the disk.
#[verifier::external_body]
fn list_buckets(h: &DiskHandle) -> Vec<String> {
    h.store.buckets()
}

/// Relies on kv's `Bucket::iter` and `Item::{key, value}`: every stored
/// pair, keys read as eight-byte big-endian numbers.  What is stored
/// depends on the disk.
#[verifier::external_body]
fn load_lines(t: &DiskTable) -> Vec<(u64, Vec<u8>)> {
    t.bucket
        .iter()
        .filter_map(|item| item.ok())
        .filter_map(|item| {
            let key: kv::Raw = item.key().ok()?;
            let value: kv::Raw = item.value().ok()?;
            Some((u64::from_be_bytes(key.as_ref().try_into().ok()?), value.to_vec()))
        })
        .collect()
}

/// Relies on kv's `Bucket::set`: stores the line under the key, best
/// effort; a storage failure leaves the write out.
#[verifier::external_body]
fn store_line(t: &DiskTable, key: u64, line: &str) {
    let _ = t.bucket.set(&kv::Raw::from(&key.to_be_bytes()[..]), &kv::Raw::from(line.as_bytes()));
}

/// Relies on kv's `Bucket::remove`: drops the key, best effort.
#[verifier::external_body]
fn remove_line(t: &DiskTable, key: u64) {
    let _ = t.bucket.remove(&kv::Raw::from(&key.to_be_bytes()[..]));
}

/// One group backed by a persistent bucket: the verified table carries
/// the group-store contract, and every mutation is written through.
pub struct DiskGroup {
    pub table: DiskTable,
    pub cache: MemoryGroup,
}

impl DiskGroup {
    /// Open a group: decode every stored line that parses back to a
    /// well-formed record under its own key and within the caller's
    /// clock, and drop the rest.
    fn load(table: DiskTable, now: Time) -> (g: DiskGroup)
        ensures
            g.inv(),
            fresh_for(g.model(), now),
            indices_bounded(g.model()),
    {
        let lines = load_lines(&table);
        let mut cache = MemoryGroup::new();
        let mut i: usize = 0;
        while i < lines.len()
            invariant
                cache.inv(),
                fresh_for(cache.model(), now),
                indices_bounded(cache.model()),
            decreases lines.len() - i,
        {
            let (key, bytes) = (lines[i].0, dup_pair_bytes(&lines, i));
            if let Some(text) = crate::mime::bytes_to_string(&bytes) {
                if let Some(rec) = parse_rec(text.as_str()) {
                    if rec.index as u64 == key && rec.last_used >= rec.entry_date && rec.entry_date
                        <= now && rec.index < usize::MAX {
                        let index = rec.index;
                        cache.insert(index, rec);
                    }
                }
            }
            i = i + 1;
        }
        DiskGroup { table, cache }
    }
}

/// Copy the byte payload of one loaded pair.
fn dup_pair_bytes(lines: &Vec<(u64, Vec<u8>)>, i: usize) -> (r: Vec<u8>)
    requires
        i < lines@.len(),
    ensures
        r@ == lines@[i as int].1@,
{
    crate::clip::dup_bytes(&lines[i].1)
}

impl BackendGroup for DiskGroup {
    open spec fn model(&self) -> crate::backend::GroupV {
        self.cache.model()
    }

    open spec fn inv(&self) -> bool {
        self.cache.inv()
    }

    proof fn inv_wf(&self) {
        self.cache.inv_wf();
    }

    fn records(&self) -> (r: Vec<Record>) {
        self.cache.records()
    }

    fn get(&self, index: usize) -> (r: Option<Record>) {
        self.cache.get(index)
    }

    fn insert(&mut self, index: usize, record: Record) {
        let line = emit_rec(&record);
        store_line(&self.table, index as u64, line.as_str());
        self.cache.insert(index, record);
    }

    fn delete(&mut self, index: usize) {
        remove_line(&self.table, index as u64);
        self.cache.delete(index);
    }

    fn next_index(&self) -> (r: usize) {
        self.cache.next_index()
    }
}

/// A persistent storage engine: one store on disk, one bucket per
/// group.
pub struct Disk {
    pub handle: DiskHandle,
}

impl Disk {
    /// Open or create the persistent store at a path.
    pub fn new(path: &str) -> Option<Disk> {
        let handle = open_store(path)?;
        Some(Disk { handle })
    }

    /// The names of the groups the store holds.
    pub fn groups(&self) -> Vec<String> {
        list_buckets(&self.handle)
    }

    /// Open one group of the store, loading what decodes and lies
    /// within the caller's clock.
    pub fn group(&self, name: &str, now: Time) -> (r: Option<DiskGroup>)
        ensures
            match r {
                Some(g) => g.inv() && fresh_for(g.model(), now) && indices_bounded(g.model()),
                None => true,
            },
    {
        match open_bucket(&self.handle, name) {
            Some(table) => Some(DiskGroup::load(table, now)),
            None => None,
        }
    }
}

/// A storage-engine failure: the persistent store or one of its
/// buckets could not be opened.  The request in progress fails; no
/// in-memory state is disturbed.
#[derive(Debug, Clone, Copy, PartialEq, Eq, Structural)]
pub struct StorageError;

/// The persistent storage engine: one loaded, write-through group table
/// per group name, plus the store they all live in.
pub struct DiskStore {
    pub handle: DiskHandle,
    pub names: Vec<String>,
    pub tables: Vec<DiskGroup>,
}

impl DiskStore {
    /// The engine's value: loaded group contents by group name.
    pub open spec fn model(&self) -> Map<Seq<char>, GroupV> {
        pairs_map(self.names.deep_view(), self.tables@.map_values(|g: DiskGroup| g.model()))
    }

    /// The engine's well-formedness: names unique, tables well formed.
    pub open spec fn inv(&self) -> bool {
        &&& self.names@.len() == self.tables@.len()
        &&& unique_keys(self.names.deep_view())
        &&& forall|j: int| 0 <= j < self.tables@.len() ==> (#[trigger] self.tables@[j]).inv()
    }

    /// Open or create the persistent store at a path, with no group
    /// loaded yet.
    pub fn new(path: &str) -> (r: Result<DiskStore, StorageError>)
        ensures
            match r {
                Ok(d) => d.inv() && d.model() == Map::<Seq<char>, GroupV>::empty(),
                Err(_) => true,
            },
    {
        match open_store(path) {
            Some(handle) => {
                let d = DiskStore { handle, names: Vec::new(), tables: Vec::new() };
                proof {
                    assert(d.names.deep_view() =~= Seq::<Seq<char>>::empty());
                }
                Ok(d)
            },
            None => Err(StorageError),
        }
    }

    /// A well-formed engine holds only well-formed groups.
    pub proof fn inv_groups_wf(&self)
        requires
            self.inv(),
        ensures
            forall|n: Seq<char>|
                crate::backend::group_wf(#[trigger] group_of(self.model(), n)),
    {
        let ks = self.names.deep_view();
        let vs = self.tables@.map_values(|g: DiskGroup| g.model());
        lemma_pairs_keys(ks, vs);
        assert forall|n: Seq<char>|
            crate::backend::group_wf(#[trigger] group_of(self.model(), n)) by {
            if self.model().contains_key(n) {
                let j = choose|j: int| 0 <= j < ks.len() && ks[j] == n;
                lemma_pairs_at(ks, vs, j);
                self.tables@[j].inv_wf();
            } else {
                assert(GroupV::empty().dom() =~= Set::<nat>::empty());
            }
        }
    }

    /// The names of the groups the engine has loaded, followed by the
    /// names of any further buckets the store holds on disk; the
    /// engine's internal default bucket is left out.
    pub fn groups(&self) -> (r: Vec<String>)
        requires
            self.inv(),
        ensures
            forall|k: Seq<char>| #[trigger]
                self.model().contains_key(k) ==> r.deep_view().contains(k),
    {
        let mut out = crate::clip::dup_strings(&self.names);
        proof {
            lemma_pairs_keys(
                self.names.deep_view(),
                self.tables@.map_values(|g: DiskGroup| g.model()),
            );
        }
        let ghost loaded = out.deep_view();
        let raw = list_buckets(&self.handle);
        let mut i: usize = 0;
        while i < raw.len()
            invariant
                forall|j: int| 0 <= j < loaded.len() ==> out.deep_view()[j] == loaded[j],
                out.deep_view().len() >= loaded.len(),
            decreases raw.len() - i,
        {
            let name = &raw[i];
            let mut seen = crate::mime::str_eq_str(name.as_str(), "__sled__default");
            let mut j: usize = 0;
            while j < out.len()
                invariant
                    forall|q: int| 0 <= q < loaded.len() ==> out.deep_view()[q] == loaded[q],
                    out.deep_view().len() >= loaded.len(),
                decreases out.len() - j,
            {
                if crate::mime::str_eq_str(out[j].as_str(), name.as_str()) {
                    seen = true;
                }
                j = j + 1;
            }
            if !seen {
                let ghost pre = out.deep_view();
                out.push(name.clone());
                proof {
                    assert(forall|q: int| 0 <= q < pre.len() ==> out.deep_view()[q] == pre[q]);
                }
            }
            i = i + 1;
        }
        proof {
            assert forall|k: Seq<char>| #[trigger]
                self.model().contains_key(k) implies out.deep_view().contains(k) by {
                let j = choose|j: int|
                    0 <= j < self.names.deep_view().len() && self.names.deep_view()[j] == k;
                assert(loaded[j] == k);
                assert(out.deep_view()[j] == k);
            }
        }
        out
    }

    /// The position of a group by name, opening and loading its bucket
    /// when the engine has not loaded it yet.
    fn ensure_group(&mut self, name: &str, now: Time) -> (r: Result<usize, StorageError>)
        requires
            old(self).inv(),
        ensures
            final(self).inv(),
            old(self).model().contains_key(name@) ==> r is Ok,
            match r {
                Ok(gi) => {
                    &&& gi < final(self).names@.len()
                    &&& final(self).names@[gi as int]@ == name@
                    &&& final(self).model().contains_key(name@)
                    &&& final(self).model()[name@] == final(self).tables@[gi as int].model()
                    &&& (old(self).model().contains_key(name@)
                        ==> final(self).model() == old(self).model())
                    &&& (!old(self).model().contains_key(name@)
                        ==> (fresh_for(final(self).model()[name@], now)
                            && indices_bounded(final(self).model()[name@])))
                    &&& forall|k: Seq<char>|
                        k != name@ ==> (((#[trigger] final(self).model().contains_key(k))
                            <==> old(self).model().contains_key(k))
                            && (final(self).model().contains_key(k)
                                ==> final(self).model().index(k) == old(self).model().index(k)))
                },
                Err(_) => *final(self) == *old(self),
            },
    {
        let ghost ks = self.names.deep_view();
        let ghost vs = self.tables@.map_values(|g: DiskGroup| g.model());
        proof {
            lemma_pairs_keys(ks, vs);
        }
        let mut j: usize = 0;
        while j < self.names.len()
            invariant
                j <= self.names@.len(),
                self.inv(),
                *self == *old(self),
                ks == self.names.deep_view(),
                vs == self.tables@.map_values(|g: DiskGroup| g.model()),
                forall|i: int| 0 <= i < j ==> ks[i] != name@,
            decreases self.names@.len() - j,
        {
            if crate::mime::str_eq_str(self.names[j].as_str(), name) {
                proof {
                    lemma_pairs_at(ks, vs, j as int);
                }
                return Ok(j);
            }
            j = j + 1;
        }
        proof {
            if pairs_map(ks, vs).contains_key(name@) {
                let i = choose|i: int| 0 <= i < ks.len() && ks[i] == name@;
            }
        }
        let table = match open_bucket(&self.handle, name) {
            Some(table) => table,
            None => {
                return Err(StorageError);
            },
        };
        let fresh = DiskGroup::load(table, now);
        let ghost fm = fresh.model();
        let gi = self.names.len();
        self.names.push(String::from_str(name));
        self.tables.push(fresh);
        proof {
            assert(self.names.deep_view() =~= ks.push(name@));
            assert(self.tables@.map_values(|g: DiskGroup| g.model()) =~= vs.push(fm));
            lemma_pairs_push(ks, vs, name@, fm);
            assert(unique_keys(ks.push(name@))) by {
                assert(forall|i: int| 0 <= i < ks.len() ==> ks[i] != name@);
                assert(forall|i: int, j2: int|
                    0 <= i < j2 < ks.push(name@).len() ==> ks.push(name@)[i] != ks.push(
                        name@,
                    )[j2]);
            }
            lemma_pairs_at(ks.push(name@), vs.push(fm), gi as int);
        }
        Ok(gi)
    }

    /// Open, clean and push into the named group: an already-present
    /// body is touched and keeps its index, a new body is stored under
    /// the group's next free index, and the change is written through.
    pub fn push_entry(&mut self, name: &str, cfg: &CleanCfg, entry: Entry, now: Time) -> (r:
        Result<usize, StorageError>)
        requires
            old(self).inv(),
            fresh_for(group_of(old(self).model(), name@), now),
            indices_bounded(group_of(old(self).model(), name@)),
        ensures
            final(self).inv(),
            old(self).model().contains_key(name@) ==> r is Ok,
            match r {
                Ok(idx) => {
                    &&& final(self).model().contains_key(name@)
                    &&& exists|g0: GroupV, g1: GroupV|
                        #![trigger crate::backend::clean_post(g0, *cfg, g1)]
                    (old(self).model().contains_key(name@) ==> g0 == old(self).model()[name@])
                        && fresh_for(g0, now) && indices_bounded(g0)
                        && (!old(self).model().contains_key(name@) ==> (fresh_for(g0, now)
                            && indices_bounded(g0)))
                        && crate::backend::group_wf(g0) && crate::backend::clean_post(g0, *cfg, g1)
                        && crate::backend::push_post(
                            g1,
                            entry@,
                            now,
                            final(self).model()[name@],
                            idx as nat,
                        )
                    &&& forall|k: Seq<char>|
                        k != name@ ==> (((#[trigger] final(self).model().contains_key(k))
                            <==> old(self).model().contains_key(k))
                            && (final(self).model().contains_key(k)
                                ==> final(self).model().index(k) == old(self).model().index(k)))
                },
                Err(_) => *final(self) == *old(self),
            },
    {
        let ghost m0 = old(self).model();
        let gi = match self.ensure_group(name, now) {
            Ok(gi) => gi,
            Err(e) => {
                return Err(e);
            },
        };
        let ghost ks = self.names.deep_view();
        let ghost vs = self.tables@.map_values(|g: DiskGroup| g.model());
        let ghost mid = self.model();
        let mut g = self.tables.remove(gi);
        let n = self.names.remove(gi);
        let ghost g0 = g.model();
        proof {
            g.inv_wf();
        }
        g.clean(cfg);
        let ghost g1 = g.model();
        proof {
            crate::memory::lemma_clean_keeps(g0, *cfg, g1);
        }
        let idx = g.push(entry, now);
        self.names.insert(gi, n);
        self.tables.insert(gi, g);
        proof {
            assert(self.names.deep_view() =~= ks);
            assert(self.tables@.map_values(|t: DiskGroup| t.model()) =~= vs.update(
                gi as int,
                g.model(),
            ));
            lemma_pairs_update(ks, vs, gi as int, g.model());
            assert(ks[gi as int] == name@);
            assert(self.model() == mid.insert(name@, g.model()));
        }
        Ok(idx)
    }

    /// Open and clean the named group, then store an entry under an
    /// explicit index, replacing any record already there.
    pub fn put_at(
        &mut self,
        name: &str,
        cfg: &CleanCfg,
        index: usize,
        entry: Entry,
        now: Time,
    ) -> (r: Result<(), StorageError>)
        requires
            old(self).inv(),
        ensures
            final(self).inv(),
            old(self).model().contains_key(name@) ==> r is Ok,
            match r {
                Ok(_) => {
                    &&& final(self).model().contains_key(name@)
                    &&& exists|g0: GroupV, g1: GroupV|
                        #![trigger crate::backend::clean_post(g0, *cfg, g1)]
                    (old(self).model().contains_key(name@) ==> g0 == old(self).model()[name@])
                        && (!old(self).model().contains_key(name@) ==> (fresh_for(g0, now)
                            && indices_bounded(g0)))
                        && crate::backend::group_wf(g0) && crate::backend::clean_post(g0, *cfg, g1)
                        && final(self).model()[name@] == g1.insert(
                            index as nat,
                            crate::backend::made(index as nat, entry@, now),
                        )
                    &&& forall|k: Seq<char>|
                        k != name@ ==> (((#[trigger] final(self).model().contains_key(k))
                            <==> old(self).model().contains_key(k))
                            && (final(self).model().contains_key(k)
                                ==> final(self).model().index(k) == old(self).model().index(k)))
                },
                Err(_) => *final(self) == *old(self),
            },
    {
        let ghost m0 = old(self).model();
        let gi = match self.ensure_group(name, now) {
            Ok(gi) => gi,
            Err(e) => {
                return Err(e);
            },
        };
        let ghost ks = self.names.deep_view();
        let ghost vs = self.tables@.map_values(|g: DiskGroup| g.model());
        let ghost mid = self.model();
        let mut g = self.tables.remove(gi);
        let n = self.names.remove(gi);
        let ghost g0 = g.model();
        proof {
            g.inv_wf();
        }
        g.clean(cfg);
        let ghost g1 = g.model();
        proof {
            crate::memory::lemma_clean_keeps(g0, *cfg, g1);
        }
        let rec = Record::new(index, entry, now);
        g.insert(index, rec);
        self.names.insert(gi, n);
        self.tables.insert(gi, g);
        proof {
            assert(self.names.deep_view() =~= ks);
            assert(self.tables@.map_values(|t: DiskGroup| t.model()) =~= vs.update(
                gi as int,
                g.model(),
            ));
            lemma_pairs_update(ks, vs, gi as int, g.model());
            assert(ks[gi as int] == name@);
            assert(self.model() == mid.insert(name@, g.model()));
        }
        Ok(())
    }

    /// Open and clean the named group, then find a record by optional
    /// index and count the view as a use.
    pub fn select_at(&mut self, name: &str, cfg: &CleanCfg, index: Option<usize>, now: Time) -> (r:
        Result<Option<Record>, StorageError>)
        requires
            old(self).inv(),
            fresh_for(group_of(old(self).model(), name@), now),
        ensures
            final(self).inv(),
            old(self).model().contains_key(name@) ==> r is Ok,
            match r {
                Ok(found) => {
                    &&& final(self).model().contains_key(name@)
                    &&& exists|g0: GroupV, g1: GroupV|
                        #![trigger crate::backend::clean_post(g0, *cfg, g1)]
                    (old(self).model().contains_key(name@) ==> g0 == old(self).model()[name@])
                        && fresh_for(g0, now)
                        && (!old(self).model().contains_key(name@) ==> (fresh_for(g0, now)
                            && indices_bounded(g0)))
                        && crate::backend::group_wf(g0) && crate::backend::clean_post(g0, *cfg, g1)
                        && crate::backend::select_post(
                            g1,
                            crate::backend::opt_nat(index),
                            now,
                            final(self).model()[name@],
                            crate::backend::opt_view(found),
                        )
                    &&& forall|k: Seq<char>|
                        k != name@ ==> (((#[trigger] final(self).model().contains_key(k))
                            <==> old(self).model().contains_key(k))
                            && (final(self).model().contains_key(k)
                                ==> final(self).model().index(k) == old(self).model().index(k)))
                },
                Err(_) => *final(self) == *old(self),
            },
    {
        let ghost m0 = old(self).model();
        let gi = match self.ensure_group(name, now) {
            Ok(gi) => gi,
            Err(e) => {
                return Err(e);
            },
        };
        let ghost ks = self.names.deep_view();
        let ghost vs = self.tables@.map_values(|g: DiskGroup| g.model());
        let ghost mid = self.model();
        let mut g = self.tables.remove(gi);
        let n = self.names.remove(gi);
        let ghost g0 = g.model();
        proof {
            g.inv_wf();
        }
        g.clean(cfg);
        let ghost g1 = g.model();
        proof {
            crate::memory::lemma_clean_keeps(g0, *cfg, g1);
        }
        let found = g.select(index, now);
        self.names.insert(gi, n);
        self.tables.insert(gi, g);
        proof {
            assert(self.names.deep_view() =~= ks);
            assert(self.tables@.map_values(|t: DiskGroup| t.model()) =~= vs.update(
                gi as int,
                g.model(),
            ));
            lemma_pairs_update(ks, vs, gi as int, g.model());
            assert(ks[gi as int] == name@);
            assert(self.model() == mid.insert(name@, g.model()));
        }
        Ok(found)
    }

    /// Open and clean the named group, then find a record by optional
    /// index without counting the view as a use.
    pub fn find_at(&mut self, name: &str, cfg: &CleanCfg, index: Option<usize>, now: Time) -> (r:
        Result<Option<Record>, StorageError>)
        requires
            old(self).inv(),
        ensures
            final(self).inv(),
            old(self).model().contains_key(name@) ==> r is Ok,
            match r {
                Ok(found) => {
                    &&& final(self).model().contains_key(name@)
                    &&& exists|g0: GroupV, g1: GroupV|
                        #![trigger crate::backend::clean_post(g0, *cfg, g1)]
                    (old(self).model().contains_key(name@) ==> g0 == old(self).model()[name@])
                        && (!old(self).model().contains_key(name@) ==> (fresh_for(g0, now)
                            && indices_bounded(g0)))
                        && crate::backend::group_wf(g0) && crate::backend::clean_post(g0, *cfg, g1)
                        && crate::backend::find_post(
                            g1,
                            crate::backend::opt_nat(index),
                            crate::backend::opt_view(found),
                        ) && final(self).model()[name@] == g1
                    &&& forall|k: Seq<char>|
                        k != name@ ==> (((#[trigger] final(self).model().contains_key(k))
                            <==> old(self).model().contains_key(k))
                            && (final(self).model().contains_key(k)
                                ==> final(self).model().index(k) == old(self).model().index(k)))
                },
                Err(_) => *final(self) == *old(self),
            },
    {
        let ghost m0 = old(self).model();
        let gi = match self.ensure_group(name, now) {
            Ok(gi) => gi,
            Err(e) => {
                return Err(e);
            },
        };
        let ghost ks = self.names.deep_view();
        let ghost vs = self.tables@.map_values(|g: DiskGroup| g.model());
        let ghost mid = self.model();
        let mut g = self.tables.remove(gi);
        let n = self.names.remove(gi);
        let ghost g0 = g.model();
        proof {
            g.inv_wf();
        }
        g.clean(cfg);
        let ghost g1 = g.model();
        proof {
            crate::memory::lemma_clean_keeps(g0, *cfg, g1);
        }
        let found = g.find(index);
        self.names.insert(gi, n);
        self.tables.insert(gi, g);
        proof {
            assert(self.names.deep_view() =~= ks);
            assert(self.tables@.map_values(|t: DiskGroup| t.model()) =~= vs.update(
                gi as int,
                g.model(),
            ));
            lemma_pairs_update(ks, vs, gi as int, g.model());
            assert(ks[gi as int] == name@);
            assert(self.model() == mid.insert(name@, g.model()));
        }
        Ok(found)
    }

    /// Open and clean the named group, then remove the record under an
    /// index; an absent index is a no-op.
    pub fn delete_at(&mut self, name: &str, cfg: &CleanCfg, index: usize, now: Time) -> (r: Result<
        (),
        StorageError,
    >)
        requires
            old(self).inv(),
        ensures
            final(self).inv(),
            old(self).model().contains_key(name@) ==> r is Ok,
            match r {
                Ok(_) => {
                    &&& final(self).model().contains_key(name@)
                    &&& exists|g0: GroupV, g1: GroupV|
                        #![trigger crate::backend::clean_post(g0, *cfg, g1)]
                    (old(self).model().contains_key(name@) ==> g0 == old(self).model()[name@])
                        && (!old(self).model().contains_key(name@) ==> (fresh_for(g0, now)
                            && indices_bounded(g0)))
                        && crate::backend::group_wf(g0) && crate::backend::clean_post(g0, *cfg, g1)
                        && final(self).model()[name@] == g1.remove(index as nat)
                    &&& forall|k: Seq<char>|
                        k != name@ ==> (((#[trigger] final(self).model().contains_key(k))
                            <==> old(self).model().contains_key(k))
                            && (final(self).model().contains_key(k)
                                ==> final(self).model().index(k) == old(self).model().index(k)))
                },
                Err(_) => *final(self) == *old(self),
            },
    {
        let ghost m0 = old(self).model();
        let gi = match self.ensure_group(name, now) {
            Ok(gi) => gi,
            Err(e) => {
                return Err(e);
            },
        };
        let ghost ks = self.names.deep_view();
        let ghost vs = self.tables@.map_values(|g: DiskGroup| g.model());
        let ghost mid = self.model();
        let mut g = self.tables.remove(gi);
        let n = self.names.remove(gi);
        let ghost g0 = g.model();
        proof {
            g.inv_wf();
        }
        g.clean(cfg);
        let ghost g1 = g.model();
        proof {
            crate::memory::lemma_clean_keeps(g0, *cfg, g1);
        }
        g.delete(index);
        self.names.insert(gi, n);
        self.tables.insert(gi, g);
        proof {
            assert(self.names.deep_view() =~= ks);
            assert(self.tables@.map_values(|t: DiskGroup| t.model()) =~= vs.update(
                gi as int,
                g.model(),
            ));
            lemma_pairs_update(ks, vs, gi as int, g.model());
            assert(ks[gi as int] == name@);
            assert(self.model() == mid.insert(name@, g.model()));
        }
        Ok(())
    }

    /// Delete every record of the named group.
    pub fn clear_at(&mut self, name: &str, now: Time) -> (r: Result<(), StorageError>)
        requires
            old(self).inv(),
        ensures
            final(self).inv(),
            old(self).model().contains_key(name@) ==> r is Ok,
            match r {
                Ok(_) => {
                    &&& final(self).model().contains_key(name@)
                    &&& final(self).model()[name@] == GroupV::empty()
                    &&& forall|k: Seq<char>|
                        k != name@ ==> (((#[trigger] final(self).model().contains_key(k))
                            <==> old(self).model().contains_key(k))
                            && (final(self).model().contains_key(k)
                                ==> final(self).model().index(k) == old(self).model().index(k)))
                },
                Err(_) => *final(self) == *old(self),
            },
    {
        let ghost m0 = old(self).model();
        let gi = match self.ensure_group(name, now) {
            Ok(gi) => gi,
            Err(e) => {
                return Err(e);
            },
        };
        let ghost ks = self.names.deep_view();
        let ghost vs = self.tables@.map_values(|g: DiskGroup| g.model());
        let ghost mid = self.model();
        let mut g = self.tables.remove(gi);
        let n = self.names.remove(gi);
        g.clear();
        self.names.insert(gi, n);
        self.tables.insert(gi, g);
        proof {
            assert(self.names.deep_view() =~= ks);
            assert(self.tables@.map_values(|t: DiskGroup| t.model()) =~= vs.update(
                gi as int,
                g.model(),
            ));
            lemma_pairs_update(ks, vs, gi as int, g.model());
            assert(ks[gi as int] == name@);
            assert(self.model() == mid.insert(name@, g.model()));
        }
        Ok(())
    }

    /// Open and clean the named group, then list its records as preview
    /// rows, newest first.
    pub fn previews_at(&mut self, name: &str, cfg: &CleanCfg, size: usize, now: Time) -> (r:
        Result<Vec<crate::clip::Preview>, StorageError>)
        requires
            old(self).inv(),
        ensures
            final(self).inv(),
            old(self).model().contains_key(name@) ==> r is Ok,
            match r {
                Ok(rows) => {
                    &&& final(self).model().contains_key(name@)
                    &&& exists|g0: GroupV, g1: GroupV|
                        #![trigger crate::backend::clean_post(g0, *cfg, g1)]
                    (old(self).model().contains_key(name@) ==> g0 == old(self).model()[name@])
                        && (!old(self).model().contains_key(name@) ==> (fresh_for(g0, now)
                            && indices_bounded(g0)))
                        && crate::backend::group_wf(g0) && crate::backend::clean_post(g0, *cfg, g1)
                        && crate::backend::preview_post(
                            g1,
                            size as nat,
                            crate::backend::rows_of(rows@),
                        ) && final(self).model()[name@] == g1
                    &&& forall|k: Seq<char>|
                        k != name@ ==> (((#[trigger] final(self).model().contains_key(k))
                            <==> old(self).model().contains_key(k))
                            && (final(self).model().contains_key(k)
                                ==> final(self).model().index(k) == old(self).model().index(k)))
                },
                Err(_) => *final(self) == *old(self),
            },
    {
        let ghost m0 = old(self).model();
        let gi = match self.ensure_group(name, now) {
            Ok(gi) => gi,
            Err(e) => {
                return Err(e);
            },
        };
        let ghost ks = self.names.deep_view();
        let ghost vs = self.tables@.map_values(|g: DiskGroup| g.model());
        let ghost mid = self.model();
        let mut g = self.tables.remove(gi);
        let n = self.names.remove(gi);
        let ghost g0 = g.model();
        proof {
            g.inv_wf();
        }
        g.clean(cfg);
        let ghost g1 = g.model();
        proof {
            crate::memory::lemma_clean_keeps(g0, *cfg, g1);
        }
        let rows = g.preview(size);
        self.names.insert(gi, n);
        self.tables.insert(gi, g);
        proof {
            assert(self.names.deep_view() =~= ks);
            assert(self.tables@.map_values(|t: DiskGroup| t.model()) =~= vs.update(
                gi as int,
                g.model(),
            ));
            lemma_pairs_update(ks, vs, gi as int, g.model());
            assert(ks[gi as int] == name@);
            assert(self.model() == mid.insert(name@, g.model()));
        }
        Ok(rows)
    }

}
} // verus!
