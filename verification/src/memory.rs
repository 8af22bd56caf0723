//! In-memory storage engine: one table of records per group.
use vstd::prelude::*;

use crate::backend::{
    lemma_seq_map_at, lemma_seq_map_keys, lemma_seq_map_push, lemma_seq_map_remove,
    lemma_seq_map_update, record_wf, recs_view, seq_map, unique_indices,
    BackendGroup, CleanCfg, GroupV, Record, RecordV, Time,
};
use crate::clip::Entry;

verus! {

/// One group held in memory as a vector of records with unique indices.
pub struct MemoryGroup {
    pub recs: Vec<Record>,
}

impl MemoryGroup {
    /// Create an empty group.
    pub fn new() -> (g: MemoryGroup)
        ensures
            g.inv(),
            g.model() == GroupV::empty(),
    {
        let g = MemoryGroup { recs: Vec::new() };
        proof {
            assert(recs_view(g.recs@) =~= Seq::<RecordV>::empty());
        }
        g
    }
}

impl BackendGroup for MemoryGroup {
    open spec fn model(&self) -> GroupV {
        seq_map(recs_view(self.recs@))
    }

    open spec fn inv(&self) -> bool {
        &&& unique_indices(recs_view(self.recs@))
        &&& forall|j: int|
            0 <= j < self.recs@.len() ==> record_wf(#[trigger] recs_view(self.recs@)[j])
    }

    proof fn inv_wf(&self) {
        let s = recs_view(self.recs@);
        lemma_seq_map_keys(s);
        assert forall|k: nat| #[trigger] self.model().contains_key(k) implies self.model()[k].index
            == k && record_wf(self.model()[k]) by {
            let j = choose|j: int| 0 <= j < s.len() && s[j].index == k;
            lemma_seq_map_at(s, j);
        }
    }

    fn records(&self) -> (r: Vec<Record>)
    {
        let ghost s = recs_view(self.recs@);
        let mut out: Vec<Record> = Vec::new();
        let mut i: usize = 0;
        while i < self.recs.len()
            invariant
                i <= self.recs.len(),
                out.len() == i,
                forall|j: int| 0 <= j < i ==> out@[j]@ == self.recs@[j]@,
            decreases self.recs.len() - i,
        {
            out.push(self.recs[i].duplicate());
            i = i + 1;
        }
        proof {
            assert(recs_view(out@) =~= recs_view(self.recs@));
        }
        out
    }

    fn get(&self, index: usize) -> (r: Option<Record>)
    {
        let ghost s = recs_view(self.recs@);
        let mut j: usize = 0;
        while j < self.recs.len()
            invariant
                j <= self.recs.len(),
                self.inv(),
                s == recs_view(self.recs@),
                forall|i: int| 0 <= i < j ==> s[i].index != index as nat,
            decreases self.recs.len() - j,
        {
            if self.recs[j].index == index {
                proof {
                    lemma_seq_map_at(s, j as int);
                }
                return Some(self.recs[j].duplicate());
            }
            j = j + 1;
        }
        proof {
            lemma_seq_map_keys(s);
            if self.model().contains_key(index as nat) {
                let i = choose|i: int| 0 <= i < s.len() && s[i].index == index as nat;
            }
        }
        None
    }

    fn insert(&mut self, index: usize, record: Record)
    {
        let ghost s = recs_view(self.recs@);
        let mut j: usize = 0;
        while j < self.recs.len()
            invariant
                j <= self.recs.len(),
                forall|i: int| 0 <= i < j ==> s[i].index != index as nat,
                old(self).inv(),
                *self == *old(self),
                s == recs_view(self.recs@),
                record@.index == index as nat,
                record_wf(record@),
            decreases self.recs.len() - j,
        {
            if self.recs[j].index == index {
                self.recs.set(j, record);
                proof {
                    assert(recs_view(self.recs@) =~= s.update(j as int, record@));
                    lemma_seq_map_update(s, j as int, record@);
                }
                return ;
            }
            j = j + 1;
        }
        self.recs.push(record);
        proof {
            assert(recs_view(self.recs@) =~= s.push(record@));
            lemma_seq_map_push(s, record@);
        }
    }

    fn delete(&mut self, index: usize)
    {
        let ghost s = recs_view(self.recs@);
        let mut j: usize = 0;
        while j < self.recs.len()
            invariant
                j <= self.recs.len(),
                forall|i: int| 0 <= i < j ==> s[i].index != index as nat,
                old(self).inv(),
                *self == *old(self),
                s == recs_view(self.recs@),
            decreases self.recs.len() - j,
        {
            if self.recs[j].index == index {
                let _ = self.recs.remove(j);
                proof {
                    assert(recs_view(self.recs@) =~= s.remove(j as int));
                    lemma_seq_map_remove(s, j as int);
                    assert(forall|a: int, b: int|
                        0 <= a < b < s.remove(j as int).len() ==> s.remove(j as int)[a].index != s.remove(
                            j as int,
                        )[b].index);
                }
                return ;
            }
            j = j + 1;
        }
        proof {
            lemma_seq_map_keys(s);
            if self.model().contains_key(index as nat) {
                let i = choose|i: int| 0 <= i < s.len() && s[i].index == index as nat;
            }
            assert(seq_map(s).remove(index as nat) =~= seq_map(s));
        }
    }

    fn next_index(&self) -> (r: usize)
    {
        let ghost s = recs_view(self.recs@);
        proof {
            assert forall|i: int| 0 <= i < s.len() implies (#[trigger] s[i].index)
                < usize::MAX as nat by {
                lemma_seq_map_at(s, i);
            }
        }
        let mut best: usize = 0;
        let mut j: usize = 0;
        while j < self.recs.len()
            invariant
                j <= self.recs.len(),
                self.inv(),
                s == recs_view(self.recs@),
                indices_bounded_local(s),
                forall|i: int| 0 <= i < j ==> recs_view(self.recs@)[i].index < best as nat,
                best == 0 || exists|i: int|
                    0 <= i < j && recs_view(self.recs@)[i].index == (best - 1) as nat,
            decreases self.recs.len() - j,
        {
            if self.recs[j].index >= best {
                proof {
                    lemma_seq_map_at(s, j as int);
                }
                best = self.recs[j].index + 1;
                proof {
                    assert(s[j as int].index == (best - 1) as nat);
                }
            }
            j = j + 1;
        }
        proof {
            lemma_seq_map_keys(s);
            assert forall|k: nat| #[trigger] self.model().contains_key(k) implies k
                < best as nat by {
                let i = choose|i: int| 0 <= i < s.len() && s[i].index == k;
            }
            if best != 0 {
                let i = choose|i: int| 0 <= i < s.len() && s[i].index == (best - 1) as nat;
                lemma_seq_map_at(s, i);
            }
        }
        best
    }
}

/// All indices of the sequence leave room for one more.
pub open spec fn indices_bounded_local(s: Seq<RecordV>) -> bool {
    forall|j: int| 0 <= j < s.len() ==> (#[trigger] s[j].index) < usize::MAX as nat
}

/// The group a map of groups holds under a name: empty when absent.
pub open spec fn group_of(mm: Map<Seq<char>, GroupV>, n: Seq<char>) -> GroupV {
    if mm.contains_key(n) {
        mm[n]
    } else {
        GroupV::empty()
    }
}

/// A cleanup pass only keeps records the group already had.
pub proof fn lemma_clean_keeps(g0: GroupV, cfg: crate::backend::CleanCfg, g1: GroupV)
    requires
        crate::backend::clean_post(g0, cfg, g1),
    ensures
        forall|k: nat| #[trigger] g1.contains_key(k) ==> g0.contains_key(k) && g1[k] == g0[k],
{
    let valid = g0.restrict(crate::backend::valid_keys(g0, cfg));
    match cfg.max_entries {
        None => {},
        Some(_) => {},
    }
}

/// The map denoted by parallel key and value sequences.
pub open spec fn pairs_map<K, V>(ks: Seq<K>, vs: Seq<V>) -> Map<K, V>
    decreases ks.len(),
{
    if ks.len() == 0 || vs.len() == 0 {
        Map::empty()
    } else {
        pairs_map(ks.drop_last(), vs.drop_last()).insert(ks.last(), vs.last())
    }
}

/// No two keys of the sequence are equal.
pub open spec fn unique_keys<K>(ks: Seq<K>) -> bool {
    forall|i: int, j: int| 0 <= i < j < ks.len() ==> ks[i] != ks[j]
}

/// A key is in the denoted map exactly when the key sequence holds it.
pub proof fn lemma_pairs_keys<K, V>(ks: Seq<K>, vs: Seq<V>)
    requires
        ks.len() == vs.len(),
    ensures
        forall|k: K| #[trigger]
            pairs_map(ks, vs).contains_key(k) <==> (exists|j: int| 0 <= j < ks.len() && ks[j] == k),
        pairs_map(ks, vs).dom().finite(),
    decreases ks.len(),
{
    if ks.len() > 0 {
        lemma_pairs_keys(ks.drop_last(), vs.drop_last());
        assert forall|k: K| #[trigger] pairs_map(ks, vs).contains_key(k) implies (exists|j: int|
            0 <= j < ks.len() && ks[j] == k) by {
            if k == ks.last() {
                assert(ks[ks.len() - 1] == k);
            } else {
                let j = choose|j: int| 0 <= j < ks.drop_last().len() && ks.drop_last()[j] == k;
                assert(ks[j] == k);
            }
        }
        assert forall|k: K| (exists|j: int| 0 <= j < ks.len() && ks[j] == k) implies #[trigger]
            pairs_map(ks, vs).contains_key(k) by {
            let j = choose|j: int| 0 <= j < ks.len() && ks[j] == k;
            if j < ks.len() - 1 {
                assert(ks.drop_last()[j] == k);
            }
        }
    }
}

/// With unique keys each value is found under its own key.
pub proof fn lemma_pairs_at<K, V>(ks: Seq<K>, vs: Seq<V>, j: int)
    requires
        ks.len() == vs.len(),
        unique_keys(ks),
        0 <= j < ks.len(),
    ensures
        pairs_map(ks, vs).contains_key(ks[j]),
        pairs_map(ks, vs)[ks[j]] == vs[j],
    decreases ks.len(),
{
    if j == ks.len() - 1 {
    } else {
        assert(unique_keys(ks.drop_last()));
        assert(ks.drop_last()[j] == ks[j]);
        assert(vs.drop_last()[j] == vs[j]);
        lemma_pairs_at(ks.drop_last(), vs.drop_last(), j);
        assert(ks[j] != ks.last());
    }
}

/// Replacing one value denotes overwriting its key.
pub proof fn lemma_pairs_update<K, V>(ks: Seq<K>, vs: Seq<V>, j: int, v: V)
    requires
        ks.len() == vs.len(),
        unique_keys(ks),
        0 <= j < ks.len(),
    ensures
        pairs_map(ks, vs.update(j, v)) == pairs_map(ks, vs).insert(ks[j], v),
    decreases ks.len(),
{
    let t = vs.update(j, v);
    if j == ks.len() - 1 {
        assert(t.drop_last() =~= vs.drop_last());
        assert(t.last() == v);
        assert(pairs_map(ks, t) =~= pairs_map(ks, vs).insert(ks[j], v));
    } else {
        assert(t.drop_last() =~= vs.drop_last().update(j, v));
        assert(t.last() == vs.last());
        assert(unique_keys(ks.drop_last()));
        assert(ks.drop_last()[j] == ks[j]);
        lemma_pairs_update(ks.drop_last(), vs.drop_last(), j, v);
        assert(ks[j] != ks.last());
        assert(pairs_map(ks, t) =~= pairs_map(ks, vs).insert(ks[j], v));
    }
}

/// Appending a pair denotes inserting it.
pub proof fn lemma_pairs_push<K, V>(ks: Seq<K>, vs: Seq<V>, k: K, v: V)
    requires
        ks.len() == vs.len(),
    ensures
        pairs_map(ks.push(k), vs.push(v)) == pairs_map(ks, vs).insert(k, v),
{
    assert(ks.push(k).drop_last() =~= ks);
    assert(vs.push(v).drop_last() =~= vs);
    assert(ks.push(k).last() == k);
    assert(vs.push(v).last() == v);
}

/// The in-memory storage engine: one group table per group name.
pub struct Memory {
    pub names: Vec<String>,
    pub tables: Vec<MemoryGroup>,
}

impl Memory {
    /// The engine's value: group contents by group name.
    pub open spec fn model(&self) -> Map<Seq<char>, GroupV> {
        pairs_map(self.names.deep_view(), self.tables@.map_values(|g: MemoryGroup| g.model()))
    }

    /// The engine's well-formedness: names unique, tables well formed.
    pub open spec fn inv(&self) -> bool {
        &&& self.names@.len() == self.tables@.len()
        &&& unique_keys(self.names.deep_view())
        &&& forall|j: int| 0 <= j < self.tables@.len() ==> (#[trigger] self.tables@[j]).inv()
    }

    /// Create an engine with no groups.
    pub fn new() -> (r: Memory)
        ensures
            r.inv(),
            r.model() == Map::<Seq<char>, GroupV>::empty(),
    {
        let r = Memory { names: Vec::new(), tables: Vec::new() };
        proof {
            assert(r.names.deep_view() =~= Seq::<Seq<char>>::empty());
        }
        r
    }

    /// The names of the groups the engine holds.
    pub fn groups(&self) -> (r: Vec<String>)
        requires
            self.inv(),
        ensures
            unique_keys(r.deep_view()),
            forall|k: Seq<char>| #[trigger]
                self.model().contains_key(k) <==> (exists|j: int|
                    0 <= j < r.deep_view().len() && r.deep_view()[j] == k),
    {
        let r = crate::clip::dup_strings(&self.names);
        proof {
            lemma_pairs_keys(
                self.names.deep_view(),
                self.tables@.map_values(|g: MemoryGroup| g.model()),
            );
        }
        r
    }

    /// The position of a group by name.
    fn find_group(&self, name: &str) -> (r: Option<usize>)
        requires
            self.inv(),
        ensures
            match r {
                Some(gi) => gi < self.names@.len() && self.names@[gi as int]@ == name@
                    && self.model().contains_key(name@) && self.model()[name@]
                    == self.tables@[gi as int].model(),
                None => !self.model().contains_key(name@),
            },
    {
        let ghost ks = self.names.deep_view();
        let ghost vs = self.tables@.map_values(|g: MemoryGroup| g.model());
        proof {
            lemma_pairs_keys(ks, vs);
        }
        let mut j: usize = 0;
        while j < self.names.len()
            invariant
                j <= self.names@.len(),
                self.inv(),
                ks == self.names.deep_view(),
                vs == self.tables@.map_values(|g: MemoryGroup| g.model()),
                forall|i: int| 0 <= i < j ==> ks[i] != name@,
            decreases self.names@.len() - j,
        {
            if crate::mime::str_eq_str(self.names[j].as_str(), name) {
                proof {
                    lemma_pairs_at(ks, vs, j as int);
                }
                return Some(j);
            }
            j = j + 1;
        }
        proof {
            lemma_pairs_keys(ks, vs);
            if self.model().contains_key(name@) {
                let i = choose|i: int| 0 <= i < ks.len() && ks[i] == name@;
            }
        }
        None
    }

    /// The position of a group by name, creating an empty one when the
    /// engine does not hold it yet.
    fn ensure_group(&mut self, name: &str) -> (gi: usize)
        requires
            old(self).inv(),
        ensures
            final(self).inv(),
            gi < final(self).names@.len(),
            final(self).names@[gi as int]@ == name@,
            final(self).model() == (if old(self).model().contains_key(name@) {
                old(self).model()
            } else {
                old(self).model().insert(name@, GroupV::empty())
            }),
            final(self).model().contains_key(name@),
            final(self).model()[name@] == final(self).tables@[gi as int].model(),
    {
        let ghost ks = self.names.deep_view();
        let ghost vs = self.tables@.map_values(|g: MemoryGroup| g.model());
        match self.find_group(name) {
            Some(gi) => gi,
            None => {
                let gi = self.names.len();
                let fresh = MemoryGroup::new();
                let ghost fm = fresh.model();
                self.names.push(String::from_str(name));
                self.tables.push(fresh);
                proof {
                    assert(self.names.deep_view() =~= ks.push(name@));
                    assert(self.tables@.map_values(|g: MemoryGroup| g.model()) =~= vs.push(fm));
                    lemma_pairs_push(ks, vs, name@, fm);
                    lemma_pairs_keys(ks, vs);
                    assert(unique_keys(ks.push(name@))) by {
                        assert(forall|i: int| 0 <= i < ks.len() ==> ks[i] != name@) by {
                            if exists|i: int| 0 <= i < ks.len() && ks[i] == name@ {
                                let i = choose|i: int| 0 <= i < ks.len() && ks[i] == name@;
                                assert(old(self).model().contains_key(name@));
                            }
                        }
                        assert(forall|i: int, j: int|
                            0 <= i < j < ks.push(name@).len() ==> ks.push(name@)[i] != ks.push(
                                name@,
                            )[j]);
                    }
                    lemma_pairs_at(ks.push(name@), vs.push(fm), gi as int);
                }
                gi
            },
        }
    }

    /// A well-formed engine holds only well-formed groups.
    pub proof fn inv_groups_wf(&self)
        requires
            self.inv(),
        ensures
            forall|n: Seq<char>|
                crate::backend::group_wf(#[trigger] group_of(self.model(), n)),
    {
        let ks = self.names.deep_view();
        let vs = self.tables@.map_values(|g: MemoryGroup| g.model());
        lemma_pairs_keys(ks, vs);
        assert forall|n: Seq<char>|
            crate::backend::group_wf(#[trigger] group_of(self.model(), n)) by {
            if self.model().contains_key(n) {
                let j = choose|j: int| 0 <= j < ks.len() && ks[j] == n;
                lemma_pairs_at(ks, vs, j);
                self.tables@[j].inv_wf();
            } else {
                assert(GroupV::empty().dom() =~= Set::<nat>::empty());
            }
        }
    }

    /// Clean the named group and push an entry into it, creating the
    /// group first when the engine does not hold it yet.
    pub fn push_entry(&mut self, name: &str, cfg: &CleanCfg, entry: Entry, now: Time) -> (r: usize)
        requires
            old(self).inv(),
            crate::backend::fresh_for(group_of(old(self).model(), name@), now),
            crate::backend::indices_bounded(group_of(old(self).model(), name@)),
        ensures
            final(self).inv(),
            final(self).model().contains_key(name@),
            exists|g1: GroupV|
                #[trigger] crate::backend::clean_post(group_of(old(self).model(), name@), *cfg, g1)
                    && crate::backend::push_post(
                    g1,
                    entry@,
                    now,
                    final(self).model()[name@],
                    r as nat,
                ),
            forall|k: Seq<char>|
                k != name@ ==> (((#[trigger] final(self).model().contains_key(k))
                    <==> old(self).model().contains_key(k))
                    && (final(self).model().contains_key(k)
                        ==> final(self).model().index(k) == old(self).model().index(k))),
    {
        let ghost g0 = group_of(old(self).model(), name@);
        let gi = self.ensure_group(name);
        let ghost ks = self.names.deep_view();
        let ghost vs = self.tables@.map_values(|g: MemoryGroup| g.model());
        let ghost mid = self.model();
        let mut g = self.tables.remove(gi);
        let n = self.names.remove(gi);
        proof {
            assert(g.model() == g0);
        }
        g.clean(cfg);
        let ghost g1 = g.model();
        proof {
            lemma_clean_keeps(g0, *cfg, g1);
        }
        let r = g.push(entry, now);
        self.names.insert(gi, n);
        self.tables.insert(gi, g);
        proof {
            assert(self.names.deep_view() =~= ks);
            assert(self.tables@.map_values(|t: MemoryGroup| t.model()) =~= vs.update(
                gi as int,
                g.model(),
            ));
            lemma_pairs_update(ks, vs, gi as int, g.model());
            assert(ks[gi as int] == name@);
            assert(self.model() == mid.insert(name@, g.model()));
            assert(crate::backend::clean_post(g0, *cfg, g1) && crate::backend::push_post(
                g1,
                entry@,
                now,
                self.model()[name@],
                r as nat,
            ));
        }
        r
    }

    /// Clean the named group and store an entry under an explicit index,
    /// replacing any record already there.
    pub fn put_at(&mut self, name: &str, cfg: &CleanCfg, index: usize, entry: Entry, now: Time)
        requires
            old(self).inv(),
        ensures
            final(self).inv(),
            final(self).model().contains_key(name@),
            exists|g1: GroupV|
                #[trigger] crate::backend::clean_post(group_of(old(self).model(), name@), *cfg, g1)
                    && final(self).model()[name@] == g1.insert(
                    index as nat,
                    crate::backend::made(index as nat, entry@, now),
                ),
            forall|k: Seq<char>|
                k != name@ ==> (((#[trigger] final(self).model().contains_key(k))
                    <==> old(self).model().contains_key(k))
                    && (final(self).model().contains_key(k)
                        ==> final(self).model().index(k) == old(self).model().index(k))),
    {
        let ghost g0 = group_of(old(self).model(), name@);
        let gi = self.ensure_group(name);
        let ghost ks = self.names.deep_view();
        let ghost vs = self.tables@.map_values(|g: MemoryGroup| g.model());
        let ghost mid = self.model();
        let mut g = self.tables.remove(gi);
        let n = self.names.remove(gi);
        proof {
            assert(g.model() == g0);
        }
        g.clean(cfg);
        let ghost g1 = g.model();
        let rec = Record::new(index, entry, now);
        g.insert(index, rec);
        self.names.insert(gi, n);
        self.tables.insert(gi, g);
        proof {
            assert(self.names.deep_view() =~= ks);
            assert(self.tables@.map_values(|t: MemoryGroup| t.model()) =~= vs.update(
                gi as int,
                g.model(),
            ));
            lemma_pairs_update(ks, vs, gi as int, g.model());
            assert(ks[gi as int] == name@);
            assert(self.model() == mid.insert(name@, g.model()));
            assert(crate::backend::clean_post(g0, *cfg, g1) && self.model()[name@] == g1.insert(
                index as nat,
                crate::backend::made(index as nat, entry@, now),
            ));
        }
    }

    /// Clean the named group, then find a record by optional index and
    /// count the view as a use.
    pub fn select_at(&mut self, name: &str, cfg: &CleanCfg, index: Option<usize>, now: Time) -> (r:
        Option<Record>)
        requires
            old(self).inv(),
            crate::backend::fresh_for(group_of(old(self).model(), name@), now),
        ensures
            final(self).inv(),
            final(self).model().contains_key(name@),
            exists|g1: GroupV|
                #[trigger] crate::backend::clean_post(group_of(old(self).model(), name@), *cfg, g1)
                    && crate::backend::select_post(
                    g1,
                    crate::backend::opt_nat(index),
                    now,
                    final(self).model()[name@],
                    crate::backend::opt_view(r),
                ),
            forall|k: Seq<char>|
                k != name@ ==> (((#[trigger] final(self).model().contains_key(k))
                    <==> old(self).model().contains_key(k))
                    && (final(self).model().contains_key(k)
                        ==> final(self).model().index(k) == old(self).model().index(k))),
    {
        let ghost g0 = group_of(old(self).model(), name@);
        let gi = self.ensure_group(name);
        let ghost ks = self.names.deep_view();
        let ghost vs = self.tables@.map_values(|g: MemoryGroup| g.model());
        let ghost mid = self.model();
        let mut g = self.tables.remove(gi);
        let n = self.names.remove(gi);
        proof {
            assert(g.model() == g0);
        }
        g.clean(cfg);
        let ghost g1 = g.model();
        proof {
            lemma_clean_keeps(g0, *cfg, g1);
        }
        let r = g.select(index, now);
        self.names.insert(gi, n);
        self.tables.insert(gi, g);
        proof {
            assert(self.names.deep_view() =~= ks);
            assert(self.tables@.map_values(|t: MemoryGroup| t.model()) =~= vs.update(
                gi as int,
                g.model(),
            ));
            lemma_pairs_update(ks, vs, gi as int, g.model());
            assert(ks[gi as int] == name@);
            assert(self.model() == mid.insert(name@, g.model()));
            assert(crate::backend::clean_post(g0, *cfg, g1) && crate::backend::select_post(
                g1,
                crate::backend::opt_nat(index),
                now,
                self.model()[name@],
                crate::backend::opt_view(r),
            ));
        }
        r
    }

    /// Clean the named group, then find a record by optional index
    /// without counting it as a use.
    pub fn find_at(&mut self, name: &str, cfg: &CleanCfg, index: Option<usize>) -> (r: Option<
        Record,
    >)
        requires
            old(self).inv(),
        ensures
            final(self).inv(),
            final(self).model().contains_key(name@),
            exists|g1: GroupV|
                #[trigger] crate::backend::clean_post(group_of(old(self).model(), name@), *cfg, g1)
                    && crate::backend::find_post(
                    g1,
                    crate::backend::opt_nat(index),
                    crate::backend::opt_view(r),
                ) && final(self).model()[name@] == g1,
            forall|k: Seq<char>|
                k != name@ ==> (((#[trigger] final(self).model().contains_key(k))
                    <==> old(self).model().contains_key(k))
                    && (final(self).model().contains_key(k)
                        ==> final(self).model().index(k) == old(self).model().index(k))),
    {
        let ghost g0 = group_of(old(self).model(), name@);
        let gi = self.ensure_group(name);
        let ghost ks = self.names.deep_view();
        let ghost vs = self.tables@.map_values(|g: MemoryGroup| g.model());
        let ghost mid = self.model();
        let mut g = self.tables.remove(gi);
        let n = self.names.remove(gi);
        proof {
            assert(g.model() == g0);
        }
        g.clean(cfg);
        let ghost g1 = g.model();
        let r = g.find(index);
        self.names.insert(gi, n);
        self.tables.insert(gi, g);
        proof {
            assert(self.names.deep_view() =~= ks);
            assert(self.tables@.map_values(|t: MemoryGroup| t.model()) =~= vs.update(
                gi as int,
                g.model(),
            ));
            lemma_pairs_update(ks, vs, gi as int, g.model());
            assert(ks[gi as int] == name@);
            assert(self.model() == mid.insert(name@, g.model()));
            assert(crate::backend::clean_post(g0, *cfg, g1) && crate::backend::find_post(
                g1,
                crate::backend::opt_nat(index),
                crate::backend::opt_view(r),
            ) && self.model()[name@] == g1);
        }
        r
    }

    /// Clean the named group, then remove the record under an index.
    pub fn delete_at(&mut self, name: &str, cfg: &CleanCfg, index: usize)
        requires
            old(self).inv(),
        ensures
            final(self).inv(),
            final(self).model().contains_key(name@),
            exists|g1: GroupV|
                #[trigger] crate::backend::clean_post(group_of(old(self).model(), name@), *cfg, g1)
                    && final(self).model()[name@] == g1.remove(index as nat),
            forall|k: Seq<char>|
                k != name@ ==> (((#[trigger] final(self).model().contains_key(k))
                    <==> old(self).model().contains_key(k))
                    && (final(self).model().contains_key(k)
                        ==> final(self).model().index(k) == old(self).model().index(k))),
    {
        let ghost g0 = group_of(old(self).model(), name@);
        let gi = self.ensure_group(name);
        let ghost ks = self.names.deep_view();
        let ghost vs = self.tables@.map_values(|g: MemoryGroup| g.model());
        let ghost mid = self.model();
        let mut g = self.tables.remove(gi);
        let n = self.names.remove(gi);
        proof {
            assert(g.model() == g0);
        }
        g.clean(cfg);
        let ghost g1 = g.model();
        g.delete(index);
        self.names.insert(gi, n);
        self.tables.insert(gi, g);
        proof {
            assert(self.names.deep_view() =~= ks);
            assert(self.tables@.map_values(|t: MemoryGroup| t.model()) =~= vs.update(
                gi as int,
                g.model(),
            ));
            lemma_pairs_update(ks, vs, gi as int, g.model());
            assert(ks[gi as int] == name@);
            assert(self.model() == mid.insert(name@, g.model()));
            assert(crate::backend::clean_post(g0, *cfg, g1) && self.model()[name@] == g1.remove(
                index as nat,
            ));
        }
    }

    /// Delete every record of the named group.
    pub fn clear_at(&mut self, name: &str)
        requires
            old(self).inv(),
        ensures
            final(self).inv(),
            final(self).model().contains_key(name@),
            final(self).model()[name@] == GroupV::empty(),
            forall|k: Seq<char>|
                k != name@ ==> (((#[trigger] final(self).model().contains_key(k))
                    <==> old(self).model().contains_key(k))
                    && (final(self).model().contains_key(k)
                        ==> final(self).model().index(k) == old(self).model().index(k))),
    {
        let gi = self.ensure_group(name);
        let ghost ks = self.names.deep_view();
        let ghost vs = self.tables@.map_values(|g: MemoryGroup| g.model());
        let ghost mid = self.model();
        let mut g = self.tables.remove(gi);
        let n = self.names.remove(gi);
        g.clear();
        self.names.insert(gi, n);
        self.tables.insert(gi, g);
        proof {
            assert(self.names.deep_view() =~= ks);
            assert(self.tables@.map_values(|t: MemoryGroup| t.model()) =~= vs.update(
                gi as int,
                g.model(),
            ));
            lemma_pairs_update(ks, vs, gi as int, g.model());
            assert(ks[gi as int] == name@);
            assert(self.model() == mid.insert(name@, g.model()));
        }
    }

    /// Clean the named group, then list its records as preview rows,
    /// newest first.
    pub fn previews_at(&mut self, name: &str, cfg: &CleanCfg, size: usize) -> (r: Vec<
        crate::clip::Preview,
    >)
        requires
            old(self).inv(),
        ensures
            final(self).inv(),
            final(self).model().contains_key(name@),
            exists|g1: GroupV|
                #[trigger] crate::backend::clean_post(group_of(old(self).model(), name@), *cfg, g1)
                    && crate::backend::preview_post(
                    g1,
                    size as nat,
                    crate::backend::rows_of(r@),
                ) && final(self).model()[name@] == g1,
            forall|k: Seq<char>|
                k != name@ ==> (((#[trigger] final(self).model().contains_key(k))
                    <==> old(self).model().contains_key(k))
                    && (final(self).model().contains_key(k)
                        ==> final(self).model().index(k) == old(self).model().index(k))),
    {
        let ghost g0 = group_of(old(self).model(), name@);
        let gi = self.ensure_group(name);
        let ghost ks = self.names.deep_view();
        let ghost vs = self.tables@.map_values(|g: MemoryGroup| g.model());
        let ghost mid = self.model();
        let mut g = self.tables.remove(gi);
        let n = self.names.remove(gi);
        proof {
            assert(g.model() == g0);
        }
        g.clean(cfg);
        let ghost g1 = g.model();
        let r = g.preview(size);
        self.names.insert(gi, n);
        self.tables.insert(gi, g);
        proof {
            assert(self.names.deep_view() =~= ks);
            assert(self.tables@.map_values(|t: MemoryGroup| t.model()) =~= vs.update(
                gi as int,
                g.model(),
            ));
            lemma_pairs_update(ks, vs, gi as int, g.model());
            assert(ks[gi as int] == name@);
            assert(self.model() == mid.insert(name@, g.model()));
            assert(crate::backend::clean_post(g0, *cfg, g1) && crate::backend::preview_post(
                g1,
                size as nat,
                crate::backend::rows_of(r@),
            ) && self.model()[name@] == g1);
        }
        r
    }
}

} // verus!
