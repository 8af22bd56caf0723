//! Storage records, cleanup configuration and the group-store contract.
//!
//! A group is modelled as a finite map from record index to record value.
//! Concrete engines (an in-memory table, an on-disk bucket) provide the
//! primitive operations; every derived operation (dedup push, recency
//! touch, eviction) is implemented once against the primitives' contracts.
use vstd::prelude::*;

use crate::clip::{body_eq, Entry, EntryV, Preview, PreviewV};

verus! {

/// Timestamps are milliseconds since the Unix epoch.
pub type Time = u64;

/// Mathematical value of a stored record.
#[verifier::ext_equal]
pub struct RecordV {
    pub index: nat,
    pub entry: EntryV,
    pub last_used: Time,
    pub entry_date: Time,
}

/// A stored record: an immutable entry plus usage metadata.  `index` is
/// unique within its group; `last_used` is refreshed on every duplicate
/// push or selection and never precedes `entry_date`.
#[derive(Debug, Clone)]
pub struct Record {
    pub index: usize,
    pub entry: Entry,
    pub last_used: Time,
    pub entry_date: Time,
}

impl View for Record {
    type V = RecordV;

    open spec fn view(&self) -> RecordV {
        RecordV {
            index: self.index as nat,
            entry: self.entry@,
            last_used: self.last_used,
            entry_date: self.entry_date,
        }
    }
}

/// A record never reports a use older than its creation.
pub open spec fn record_wf(r: RecordV) -> bool {
    r.last_used >= r.entry_date
}

impl Record {
    /// Create a fresh record: both timestamps are the creation moment.
    pub fn new(index: usize, entry: Entry, now: Time) -> (r: Record)
        ensures
            r@ == (RecordV { index: index as nat, entry: entry@, last_used: now, entry_date: now }),
            record_wf(r@),
    {
        Record { index, entry, last_used: now, entry_date: now }
    }

    /// Copy the record, field by field.
    pub fn duplicate(&self) -> (r: Record)
        ensures
            r@ == self@,
    {
        Record {
            index: self.index,
            entry: self.entry.duplicate(),
            last_used: self.last_used,
            entry_date: self.entry_date,
        }
    }
}

impl Record {
    /// Render the record as a preview row.
    pub fn preview(&self, size: usize) -> (p: Preview)
        ensures
            p@.index == self@.index,
            p@.last_used == self@.last_used,
            self@.entry.body is Text ==> p@.preview == crate::clip::spec_preview(
                self@.entry.body->Text_0,
                size as nat,
            ),
            exists|described: Seq<char>|
                p@.preview == crate::clip::spec_preview(described, size as nat),
    {
        Preview {
            index: self.index,
            preview: self.entry.preview(size),
            last_used: self.last_used,
        }
    }
}

/// The mathematical value of a whole group: a finite map from index to
/// record, where each record carries its own key.
pub type GroupV = Map<nat, RecordV>;

/// Well-formedness of a group value.
pub open spec fn group_wf(m: GroupV) -> bool {
    &&& m.dom().finite()
    &&& forall|k: nat| #[trigger] m.contains_key(k) ==> m[k].index == k && record_wf(m[k])
}

/// All creation moments in the group lie at or before `now`: the caller's
/// clock has not run backwards relative to the stored history.
pub open spec fn fresh_for(m: GroupV, now: Time) -> bool {
    forall|k: nat| #[trigger] m.contains_key(k) ==> m[k].entry_date <= now
}

/// Every index leaves room for one more: `max + 1` still fits in `usize`.
pub open spec fn indices_bounded(m: GroupV) -> bool {
    forall|k: nat| #[trigger] m.contains_key(k) ==> k < usize::MAX as nat
}

/// Resolved eviction thresholds, derived from a group's configuration on
/// each access.  A record is expired when its last use is at or before
/// the fixed or the dynamic moment, whichever is configured.
#[derive(Debug, Clone)]
pub struct CleanCfg {
    pub fixed: Option<Time>,
    pub dynamic: Option<Time>,
    pub max_entries: Option<usize>,
}

/// Threshold value of an optional expiration moment: absent means the
/// epoch itself, which no positive timestamp can precede.
pub open spec fn bound_of(t: Option<Time>) -> Time {
    match t {
        Some(v) => v,
        None => 0,
    }
}

impl CleanCfg {
    /// A last-use moment is expired when it is at or before either bound.
    pub open spec fn spec_is_expired(&self, last_used: Time) -> bool {
        last_used <= bound_of(self.fixed) || last_used <= bound_of(self.dynamic)
    }

    /// Check a last-use moment against both expiration bounds.
    pub fn is_expired(&self, last_used: Time) -> (r: bool)
        ensures
            r == self.spec_is_expired(last_used),
    {
        let fixed = match self.fixed {
            Some(v) => v,
            None => 0,
        };
        let dynamic = match self.dynamic {
            Some(v) => v,
            None => 0,
        };
        last_used <= fixed || last_used <= dynamic
    }
}

/// Recency order used for eviction and `latest`: records are ranked by
/// last use, ties broken by index.  Indices are unique, so the order is
/// total and strict on any one group.
pub open spec fn older(a: RecordV, b: RecordV) -> bool {
    a.last_used < b.last_used || (a.last_used == b.last_used && a.index < b.index)
}

/// View of a vector of records as a sequence of record values.
pub open spec fn recs_view(r: Seq<Record>) -> Seq<RecordV> {
    r.map_values(|x: Record| x@)
}

/// No two records of the sequence share an index.
pub open spec fn unique_indices(s: Seq<RecordV>) -> bool {
    forall|i: int, j: int| 0 <= i < j < s.len() ==> s[i].index != s[j].index
}

/// The group value denoted by a snapshot sequence: each record keyed by
/// its own index.
pub open spec fn seq_map(s: Seq<RecordV>) -> GroupV
    decreases s.len(),
{
    if s.len() == 0 {
        Map::empty()
    } else {
        seq_map(s.drop_last()).insert(s.last().index, s.last())
    }
}

/// A key is in the denoted map exactly when some element carries it, and
/// the map never invents indices.
pub proof fn lemma_seq_map_keys(s: Seq<RecordV>)
    ensures
        forall|k: nat| #[trigger]
            seq_map(s).contains_key(k) <==> (exists|j: int| 0 <= j < s.len() && s[j].index == k),
        forall|k: nat| #[trigger] seq_map(s).contains_key(k) ==> seq_map(s)[k].index == k,
        seq_map(s).dom().finite(),
    decreases s.len(),
{
    if s.len() > 0 {
        lemma_seq_map_keys(s.drop_last());
        assert forall|k: nat| #[trigger] seq_map(s).contains_key(k) implies (exists|j: int|
            0 <= j < s.len() && s[j].index == k) by {
            if k == s.last().index {
                assert(s[s.len() - 1].index == k);
            } else {
                let j = choose|j: int| 0 <= j < s.drop_last().len() && s.drop_last()[j].index == k;
                assert(s[j].index == k);
            }
        }
        assert forall|k: nat| (exists|j: int| 0 <= j < s.len() && s[j].index == k) implies #[trigger]
            seq_map(s).contains_key(k) by {
            let j = choose|j: int| 0 <= j < s.len() && s[j].index == k;
            if j < s.len() - 1 {
                assert(s.drop_last()[j].index == k);
            }
        }
    }
}

/// With unique indices, each element is found at its own key.
pub proof fn lemma_seq_map_at(s: Seq<RecordV>, j: int)
    requires
        unique_indices(s),
        0 <= j < s.len(),
    ensures
        seq_map(s).contains_key(s[j].index),
        seq_map(s)[s[j].index] == s[j],
    decreases s.len(),
{
    if j == s.len() - 1 {
    } else {
        assert(unique_indices(s.drop_last()));
        assert(s.drop_last()[j] == s[j]);
        lemma_seq_map_at(s.drop_last(), j);
        assert(s[j].index != s.last().index);
    }
}

/// The record as refreshed by a use at `now`.
pub open spec fn touched(r: RecordV, now: Time) -> RecordV {
    RecordV { index: r.index, entry: r.entry, last_used: now, entry_date: r.entry_date }
}

/// The record freshly created for `e` at `now` under index `i`.
pub open spec fn made(i: nat, e: EntryV, now: Time) -> RecordV {
    RecordV { index: i, entry: e, last_used: now, entry_date: now }
}

/// Some record of the group has this body.
pub open spec fn has_body(m: GroupV, e: EntryV) -> bool {
    exists|k: nat| #[trigger] m.contains_key(k) && body_eq(m[k].entry.body, e.body)
}

/// `r` is the next free index: strictly above every present index, and
/// either zero or one past a present index.
pub open spec fn next_index_is(m: GroupV, r: nat) -> bool {
    &&& forall|k: nat| #[trigger] m.contains_key(k) ==> k < r
    &&& r == 0 || m.contains_key((r - 1) as nat)
}

/// What a push leaves behind: a duplicate body is touched under its own
/// index, a new body is stored under the next free index.
pub open spec fn push_post(m: GroupV, e: EntryV, now: Time, m2: GroupV, r: nat) -> bool {
    if has_body(m, e) {
        &&& m.contains_key(r)
        &&& body_eq(m[r].entry.body, e.body)
        &&& m2 == m.insert(r, touched(m[r], now))
    } else {
        &&& next_index_is(m, r)
        &&& m2 == m.insert(r, made(r, e, now))
    }
}

/// What a touch leaves behind: the addressed record refreshed, an absent
/// index left alone.
pub open spec fn touch_post(m: GroupV, i: nat, now: Time, m2: GroupV) -> bool {
    m2 == if m.contains_key(i) {
        m.insert(i, touched(m[i], now))
    } else {
        m
    }
}

/// `r` is the most recently used record of `m`, ties broken by highest
/// index, or nothing when the group is empty.
pub open spec fn latest_post(m: GroupV, r: Option<RecordV>) -> bool {
    match r {
        None => forall|k: nat| !(#[trigger] m.contains_key(k)),
        Some(rec) => {
            &&& m.contains_key(rec.index)
            &&& m[rec.index] == rec
            &&& forall|k: nat|
                #[trigger] m.contains_key(k) && k != rec.index ==> older(m[k], rec)
        },
    }
}

/// `r` is the record found for an optional index: a lookup when one is
/// given, the latest record otherwise.
pub open spec fn find_post(m: GroupV, index: Option<nat>, r: Option<RecordV>) -> bool {
    match index {
        Some(i) => r == if m.contains_key(i) {
            Some(m[i])
        } else {
            None::<RecordV>
        },
        None => latest_post(m, r),
    }
}

/// The indices of `m` whose records survive the expiry phase.
pub open spec fn valid_keys(m: GroupV, cfg: CleanCfg) -> Set<nat> {
    m.dom().filter(|k: nat| !cfg.spec_is_expired(m[k].last_used))
}

/// The record value carried by an optional record.
pub open spec fn opt_view(r: Option<Record>) -> Option<RecordV> {
    match r {
        Some(rec) => Some(rec@),
        None => None,
    }
}

/// The index carried by an optional index argument.
pub open spec fn opt_nat(i: Option<usize>) -> Option<nat> {
    match i {
        Some(v) => Some(v as nat),
        None => None,
    }
}

/// What a selection leaves behind: the record found for the optional
/// index, already touched in the group but returned as it stood.
pub open spec fn select_post(
    m: GroupV,
    index: Option<nat>,
    now: Time,
    m2: GroupV,
    r: Option<RecordV>,
) -> bool {
    match r {
        Some(rec) => find_post(m, index, Some(rec)) && m.contains_key(rec.index) && m2 == m.insert(
            rec.index,
            touched(rec, now),
        ),
        None => find_post(m, index, None) && m2 == m,
    }
}

/// The preview values carried by a vector of rows.
pub open spec fn rows_of(v: Seq<Preview>) -> Seq<PreviewV> {
    v.map_values(|p: Preview| p@)
}

/// One preview row ranks strictly below another: less recently used,
/// ties to the lower index.
pub open spec fn row_older(a: PreviewV, b: PreviewV) -> bool {
    a.last_used < b.last_used || (a.last_used == b.last_used && a.index < b.index)
}

/// What a preview listing holds: one row per record, index and last use
/// taken from the record, text bodies rendered exactly, rows sorted
/// newest first with ties to the higher index.
pub open spec fn preview_post(m: GroupV, size: nat, rows: Seq<PreviewV>) -> bool {
    &&& rows.len() == m.dom().len()
    &&& forall|j: int|
        0 <= j < rows.len() ==> m.contains_key(#[trigger] rows[j].index) && rows[j].last_used
            == m[rows[j].index].last_used && (m[rows[j].index].entry.body is Text
            ==> rows[j].preview == crate::clip::spec_preview(
            m[rows[j].index].entry.body->Text_0,
            size,
        )) && (exists|described: Seq<char>|
            rows[j].preview == crate::clip::spec_preview(described, size))
    &&& forall|k: nat| #[trigger]
        m.contains_key(k) ==> exists|j: int| 0 <= j < rows.len() && rows[j].index == k
    &&& forall|a: int, b: int| 0 <= a < b < rows.len() ==> row_older(rows[b], rows[a])
}

/// What a cleanup pass leaves behind.  Expired records are gone; if a
/// maximum count is configured and exceeded, only the `max` newest of the
/// survivors (by last use, ties to the higher index) remain.
pub open spec fn clean_post(m: GroupV, cfg: CleanCfg, m2: GroupV) -> bool {
    let valid = m.restrict(valid_keys(m, cfg));
    match cfg.max_entries {
        None => m2 == valid,
        Some(mx) => {
            if valid.dom().len() <= mx {
                m2 == valid
            } else {
                &&& m2.dom().subset_of(valid.dom())
                &&& forall|k: nat| #[trigger] m2.contains_key(k) ==> m2[k] == valid[k]
                &&& m2.dom().len() == mx
                &&& forall|a: nat, b: nat|
                    #[trigger] valid.contains_key(a) && !m2.contains_key(a)
                        && #[trigger] m2.contains_key(b) ==> older(valid[a], valid[b])
            }
        },
    }
}

/// With unique indices the denoted map has exactly one key per element.
pub proof fn lemma_seq_map_len(s: Seq<RecordV>)
    requires
        unique_indices(s),
    ensures
        seq_map(s).dom().len() == s.len(),
    decreases s.len(),
{
    if s.len() > 0 {
        assert(unique_indices(s.drop_last()));
        lemma_seq_map_len(s.drop_last());
        lemma_seq_map_keys(s.drop_last());
        assert(!seq_map(s.drop_last()).contains_key(s.last().index)) by {
            if seq_map(s.drop_last()).contains_key(s.last().index) {
                let j = choose|j: int|
                    0 <= j < s.drop_last().len() && s.drop_last()[j].index == s.last().index;
                assert(s[j].index == s.last().index);
            }
        }
        assert(seq_map(s).dom() =~= seq_map(s.drop_last()).dom().insert(s.last().index));
        vstd::set::axiom_set_insert_len(seq_map(s.drop_last()).dom(), s.last().index);
    }
}

/// Appending a record denotes inserting it under its own index.
pub proof fn lemma_seq_map_push(s: Seq<RecordV>, r: RecordV)
    ensures
        seq_map(s.push(r)) == seq_map(s).insert(r.index, r),
{
    assert(s.push(r).drop_last() =~= s);
    assert(s.push(r).last() == r);
}

/// Replacing the record at one position denotes overwriting its key.
pub proof fn lemma_seq_map_update(s: Seq<RecordV>, j: int, r: RecordV)
    requires
        unique_indices(s),
        0 <= j < s.len(),
        r.index == s[j].index,
    ensures
        seq_map(s.update(j, r)) == seq_map(s).insert(r.index, r),
    decreases s.len(),
{
    let t = s.update(j, r);
    if j == s.len() - 1 {
        assert(t.drop_last() =~= s.drop_last());
        assert(t.last() == r);
        assert(seq_map(t) =~= seq_map(s).insert(r.index, r));
    } else {
        assert(t.drop_last() =~= s.drop_last().update(j, r));
        assert(t.last() == s.last());
        assert(unique_indices(s.drop_last()));
        assert(s.drop_last()[j] == s[j]);
        lemma_seq_map_update(s.drop_last(), j, r);
        assert(s[j].index != s.last().index);
        assert(seq_map(t) =~= seq_map(s).insert(r.index, r));
    }
}

/// Removing the record at one position denotes removing its key.
pub proof fn lemma_seq_map_remove(s: Seq<RecordV>, j: int)
    requires
        unique_indices(s),
        0 <= j < s.len(),
    ensures
        seq_map(s.remove(j)) == seq_map(s).remove(s[j].index),
    decreases s.len(),
{
    let t = s.remove(j);
    if j == s.len() - 1 {
        assert(t =~= s.drop_last());
        lemma_seq_map_keys(s.drop_last());
        assert(!seq_map(s.drop_last()).contains_key(s.last().index)) by {
            if seq_map(s.drop_last()).contains_key(s.last().index) {
                let i = choose|i: int|
                    0 <= i < s.drop_last().len() && s.drop_last()[i].index == s.last().index;
                assert(s[i].index == s.last().index);
            }
        }
        assert(seq_map(t) =~= seq_map(s).remove(s[j].index));
    } else {
        assert(t.drop_last() =~= s.drop_last().remove(j));
        assert(t.last() == s.last());
        assert(unique_indices(s.drop_last()));
        assert(s.drop_last()[j] == s[j]);
        lemma_seq_map_remove(s.drop_last(), j);
        assert(s[j].index != s.last().index);
        assert(seq_map(t) =~= seq_map(s).remove(s[j].index));
    }
}

/// The group-store contract.  A storage engine provides the primitive
/// operations against the group's mathematical value; the derived
/// operations of the cache — dedup push, recency touch, selection and
/// eviction — are implemented here once, on top of those primitives.
pub trait BackendGroup: Sized {
    /// The group's mathematical value.
    spec fn model(&self) -> GroupV;

    /// The engine's internal well-formedness.
    spec fn inv(&self) -> bool;

    /// A well-formed engine holds a well-formed group.
    proof fn inv_wf(&self)
        requires
            self.inv(),
        ensures
            group_wf(self.model()),
    ;

    /// A snapshot of every record, in some order, each index once.
    fn records(&self) -> (r: Vec<Record>)
        requires
            self.inv(),
        ensures
            unique_indices(recs_view(r@)),
            seq_map(recs_view(r@)) == self.model(),
    ;

    /// Look one record up by index.
    fn get(&self, index: usize) -> (r: Option<Record>)
        requires
            self.inv(),
        ensures
            ({
                let m = self.model();
                match r {
                    Some(rec) => m.contains_key(index as nat) && rec@ == m[index as nat],
                    None => !m.contains_key(index as nat),
                }
            }),
    ;

    /// Store a record under an explicit index, replacing any present one.
    fn insert(&mut self, index: usize, record: Record)
        requires
            old(self).inv(),
            record@.index == index as nat,
            record_wf(record@),
        ensures
            final(self).inv(),
            final(self).model() == old(self).model().insert(index as nat, record@),
    ;

    /// Remove the record under an index; an absent index is a no-op.
    fn delete(&mut self, index: usize)
        requires
            old(self).inv(),
        ensures
            final(self).inv(),
            final(self).model() == old(self).model().remove(index as nat),
    ;

    /// The next free index: one past the highest present index, or zero
    /// for an empty group.
    fn next_index(&self) -> (r: usize)
        requires
            self.inv(),
            indices_bounded(self.model()),
        ensures
            next_index_is(self.model(), r as nat),
    ;

    /// The most recently used record, ties to the highest index; nothing
    /// when the group is empty.
    fn latest(&self) -> (r: Option<Record>)
        requires
            self.inv(),
        ensures
            latest_post(self.model(), opt_view(r)),
    {
        let recs = self.records();
        let ghost rv = recs_view(recs@);
        if recs.len() == 0 {
            proof {
                lemma_seq_map_keys(rv);
            }
            return None;
        }
        let mut bi: usize = 0;
        let mut j: usize = 1;
        while j < recs.len()
            invariant
                0 < recs.len(),
                bi < j <= recs.len(),
                rv == recs_view(recs@),
                unique_indices(rv),
                seq_map(rv) == self.model(),
                forall|i: int| 0 <= i < j && i != bi ==> older(rv[i], rv[bi as int]),
            decreases recs.len() - j,
        {
            let newer = recs[j].last_used > recs[bi].last_used || (recs[j].last_used
                == recs[bi].last_used && recs[j].index > recs[bi].index);
            if newer {
                bi = j;
            }
            j = j + 1;
        }
        proof {
            lemma_seq_map_at(rv, bi as int);
            lemma_seq_map_keys(rv);
            assert forall|k: nat|
                #[trigger] self.model().contains_key(k) && k != rv[bi as int].index implies older(
                self.model()[k],
                rv[bi as int],
            ) by {
                let i = choose|i: int| 0 <= i < rv.len() && rv[i].index == k;
                lemma_seq_map_at(rv, i);
            }
        }
        Some(recs[bi].duplicate())
    }

    /// The index of some record whose entry has the given body, used as
    /// the dedup check on push; nothing when no body matches.
    fn exists_entry(&self, entry: &Entry) -> (r: Option<usize>)
        requires
            self.inv(),
        ensures
            match r {
                Some(i) => self.model().contains_key(i as nat) && body_eq(
                    self.model()[i as nat].entry.body,
                    entry@.body,
                ),
                None => !has_body(self.model(), entry@),
            },
    {
        let recs = self.records();
        let ghost rv = recs_view(recs@);
        let mut j: usize = 0;
        while j < recs.len()
            invariant
                j <= recs.len(),
                rv == recs_view(recs@),
                unique_indices(rv),
                seq_map(rv) == self.model(),
                forall|i: int| 0 <= i < j ==> !body_eq(rv[i].entry.body, entry@.body),
            decreases recs.len() - j,
        {
            if recs[j].entry.same(entry) {
                proof {
                    lemma_seq_map_at(rv, j as int);
                }
                return Some(recs[j].index);
            }
            j = j + 1;
        }
        proof {
            lemma_seq_map_keys(rv);
            if has_body(self.model(), entry@) {
                let k = choose|k: nat|
                    #[trigger] self.model().contains_key(k) && body_eq(
                        self.model()[k].entry.body,
                        entry@.body,
                    );
                let i = choose|i: int| 0 <= i < rv.len() && rv[i].index == k;
                lemma_seq_map_at(rv, i);
            }
        }
        None
    }

    /// Find the record under the given index, or the latest record when
    /// no index is given.
    fn find(&self, index: Option<usize>) -> (r: Option<Record>)
        requires
            self.inv(),
        ensures
            find_post(self.model(), opt_nat(index), opt_view(r)),
    {
        match index {
            Some(i) => self.get(i),
            None => self.latest(),
        }
    }

    /// Refresh the last-use moment of the record under an index; an
    /// absent index is a no-op.
    fn touch(&mut self, index: usize, now: Time)
        requires
            old(self).inv(),
            fresh_for(old(self).model(), now),
        ensures
            final(self).inv(),
            touch_post(old(self).model(), index as nat, now, final(self).model()),
    {
        proof {
            self.inv_wf();
        }
        match self.get(index) {
            Some(rec) => {
                let updated = Record {
                    index: rec.index,
                    entry: rec.entry,
                    last_used: now,
                    entry_date: rec.entry_date,
                };
                self.insert(index, updated);
            },
            None => {},
        }
    }

    /// Push an entry: an already-present body is touched and keeps its
    /// index, a new body is stored under the next free index.  At most
    /// one record per distinct body ever arises from pushes.
    fn push(&mut self, entry: Entry, now: Time) -> (r: usize)
        requires
            old(self).inv(),
            fresh_for(old(self).model(), now),
            indices_bounded(old(self).model()),
        ensures
            final(self).inv(),
            push_post(old(self).model(), entry@, now, final(self).model(), r as nat),
    {
        match self.exists_entry(&entry) {
            Some(index) => {
                self.touch(index, now);
                index
            },
            None => {
                let index = self.next_index();
                let rec = Record::new(index, entry, now);
                self.insert(index, rec);
                index
            },
        }
    }

    /// Find a record by optional index and, when found, count the view
    /// as a use: the stored record is touched, the record as it stood is
    /// returned.
    fn select(&mut self, index: Option<usize>, now: Time) -> (r: Option<Record>)
        requires
            old(self).inv(),
            fresh_for(old(self).model(), now),
        ensures
            final(self).inv(),
            select_post(old(self).model(), opt_nat(index), now, final(self).model(), opt_view(r)),
    {
        proof {
            self.inv_wf();
        }
        match self.find(index) {
            Some(rec) => {
                let out = rec.duplicate();
                self.touch(rec.index, now);
                Some(out)
            },
            None => None,
        }
    }

    /// Delete every record of the group.
    fn clear(&mut self)
        requires
            old(self).inv(),
        ensures
            final(self).inv(),
            final(self).model() == GroupV::empty(),
    {
        let recs = self.records();
        let ghost rv = recs_view(recs@);
        let ghost m0 = self.model();
        let mut j: usize = 0;
        while j < recs.len()
            invariant
                j <= recs.len(),
                rv == recs_view(recs@),
                unique_indices(rv),
                seq_map(rv) == m0,
                self.inv(),
                forall|k: nat| #[trigger]
                    self.model().contains_key(k) ==> m0.contains_key(k) && !(exists|i: int|
                        0 <= i < j && rv[i].index == k),
            decreases recs.len() - j,
        {
            self.delete(recs[j].index);
            proof {
                assert forall|k: nat| #[trigger] self.model().contains_key(k) implies m0.contains_key(
                    k,
                ) && !(exists|i: int| 0 <= i < j + 1 && rv[i].index == k) by {
                    if exists|i: int| 0 <= i < j + 1 && rv[i].index == k {
                        let i = choose|i: int| 0 <= i < j + 1 && rv[i].index == k;
                    }
                }
            }
            j = j + 1;
        }
        proof {
            lemma_seq_map_keys(rv);
            assert forall|k: nat| !(#[trigger] self.model().contains_key(k)) by {
                if self.model().contains_key(k) {
                    let i = choose|i: int| 0 <= i < rv.len() && rv[i].index == k;
                }
            }
            assert(self.model() =~= GroupV::empty());
        }
    }

    /// List every record as a preview row, newest first, ties to the
    /// higher index.
    #[verifier::rlimit(40)]
    fn preview(&self, size: usize) -> (r: Vec<Preview>)
        requires
            self.inv(),
        ensures
            preview_post(self.model(), size as nat, rows_of(r@)),
    {
        proof {
            self.inv_wf();
        }
        let ghost m = self.model();
        let mut scratch = self.records();
        proof {
            lemma_seq_map_len(recs_view(scratch@));
            lemma_seq_map_keys(recs_view(scratch@));
            assert forall|l: int| 0 <= l < scratch@.len() implies m.contains_key(
                #[trigger] recs_view(scratch@)[l].index,
            ) && m[recs_view(scratch@)[l].index] == recs_view(scratch@)[l] by {
                lemma_seq_map_at(recs_view(scratch@), l);
            }
        }
        let mut out: Vec<Preview> = Vec::new();
        while scratch.len() > 0
            invariant
                m == self.model(),
                self.inv(),
                unique_indices(recs_view(scratch@)),
                forall|l: int|
                    0 <= l < scratch@.len() ==> m.contains_key(
                        #[trigger] recs_view(scratch@)[l].index,
                    ) && m[recs_view(scratch@)[l].index] == recs_view(scratch@)[l],
                forall|j: int|
                    0 <= j < out@.len() ==> ({
                        let k = (#[trigger] rows_of(out@)[j]).index;
                        m.contains_key(k) && rows_of(out@)[j].last_used == m[k].last_used && (
                        m[k].entry.body is Text ==> rows_of(out@)[j].preview
                            == crate::clip::spec_preview(m[k].entry.body->Text_0, size as nat))
                            && (exists|described: Seq<char>|
                            rows_of(out@)[j].preview == crate::clip::spec_preview(
                                described,
                                size as nat,
                            ))
                    }),
                forall|k: nat| #[trigger]
                    m.contains_key(k) ==> (exists|j: int|
                        0 <= j < out@.len() && rows_of(out@)[j].index == k) || (exists|l: int|
                        0 <= l < scratch@.len() && recs_view(scratch@)[l].index == k),
                forall|j: int, l: int|
                    0 <= j < out@.len() && 0 <= l < scratch@.len() ==> (#[trigger] rows_of(
                        out@,
                    )[j]).index != (#[trigger] recs_view(scratch@)[l]).index,
                forall|a: int, b: int|
                    0 <= a < b < out@.len() ==> row_older(rows_of(out@)[b], rows_of(out@)[a]),
                forall|j: int, l: int|
                    0 <= j < out@.len() && 0 <= l < scratch@.len() ==> ((#[trigger] recs_view(
                        scratch@,
                    )[l]).last_used < (#[trigger] rows_of(out@)[j]).last_used || (recs_view(
                        scratch@,
                    )[l].last_used == rows_of(out@)[j].last_used && recs_view(scratch@)[l].index
                        < rows_of(out@)[j].index)),
                out@.len() + scratch@.len() == m.dom().len(),
            decreases scratch@.len(),
        {
            let ghost rv = recs_view(scratch@);
            // Find the newest remaining record.
            let mut bi: usize = 0;
            let mut j2: usize = 1;
            while j2 < scratch.len()
                invariant
                    0 < scratch.len(),
                    bi < j2 <= scratch.len(),
                    rv == recs_view(scratch@),
                    unique_indices(rv),
                    forall|i: int| 0 <= i < j2 && i != bi ==> older(rv[i], rv[bi as int]),
                decreases scratch.len() - j2,
            {
                let newer = scratch[j2].last_used > scratch[bi].last_used || (scratch[j2].last_used
                    == scratch[bi].last_used && scratch[j2].index > scratch[bi].index);
                if newer {
                    bi = j2;
                }
                j2 = j2 + 1;
            }
            let row = scratch[bi].preview(size);
            let ghost pre_rows = rows_of(out@);
            let ghost picked = rv[bi as int];
            out.push(row);
            let _ = scratch.remove(bi);
            proof {
                assert(rows_of(out@) =~= pre_rows.push(row@));
                assert(recs_view(scratch@) =~= rv.remove(bi as int));
                assert(forall|a: int, b: int|
                    0 <= a < b < recs_view(scratch@).len() ==> recs_view(scratch@)[a].index
                        != recs_view(scratch@)[b].index);
                assert forall|k: nat| #[trigger]
                    m.contains_key(k) implies (exists|j: int|
                    0 <= j < out@.len() && rows_of(out@)[j].index == k) || (exists|l: int|
                    0 <= l < scratch@.len() && recs_view(scratch@)[l].index == k) by {
                    if exists|j: int| 0 <= j < pre_rows.len() && pre_rows[j].index == k {
                        let j = choose|j: int| 0 <= j < pre_rows.len() && pre_rows[j].index == k;
                        assert(rows_of(out@)[j].index == k);
                    } else if exists|l: int| 0 <= l < rv.len() && rv[l].index == k {
                        let l = choose|l: int| 0 <= l < rv.len() && rv[l].index == k;
                        if l == bi {
                            assert(rows_of(out@)[pre_rows.len() as int].index == k);
                        } else if l < bi {
                            assert(recs_view(scratch@)[l].index == k);
                        } else {
                            assert(recs_view(scratch@)[l - 1].index == k);
                        }
                    }
                }
                assert forall|j: int, l: int|
                    0 <= j < out@.len() && 0 <= l < scratch@.len() implies ((#[trigger] recs_view(
                    scratch@,
                )[l]).last_used < (#[trigger] rows_of(out@)[j]).last_used || (recs_view(
                    scratch@,
                )[l].last_used == rows_of(out@)[j].last_used && recs_view(scratch@)[l].index
                    < rows_of(out@)[j].index)) by {
                    let l0 = if l < bi {
                        l
                    } else {
                        l + 1
                    };
                    assert(recs_view(scratch@)[l] == rv[l0]);
                    if j < pre_rows.len() {
                    } else {
                        assert(rows_of(out@)[j] == row@);
                        assert(older(rv[l0], picked));
                    }
                }
                assert forall|j: int, l: int|
                    0 <= j < out@.len() && 0 <= l < scratch@.len() implies (#[trigger] rows_of(
                    out@,
                )[j]).index != (#[trigger] recs_view(scratch@)[l]).index by {
                    let l0 = if l < bi {
                        l
                    } else {
                        l + 1
                    };
                    assert(recs_view(scratch@)[l] == rv[l0]);
                    if j == pre_rows.len() {
                        assert(rows_of(out@)[j] == row@);
                        if l0 < bi {
                            assert(rv[l0].index != rv[bi as int].index);
                        } else {
                            assert(rv[l0].index != rv[bi as int].index);
                        }
                    }
                }
                assert forall|a: int, b: int|
                    0 <= a < b < out@.len() implies row_older(
                    rows_of(out@)[b],
                    rows_of(out@)[a],
                ) by {
                    if b == pre_rows.len() {
                        assert(rows_of(out@)[a] == pre_rows[a]);
                        assert(rows_of(out@)[b] == row@);
                    }
                }
            }
        }
        proof {
            assert(rows_of(out@).len() == m.dom().len());
        }
        out
    }

    /// The two-phase eviction pass: drop every expired record, then, if a
    /// maximum count is configured and exceeded, drop the oldest
    /// survivors (by last use, ties to the lower index) until it holds.
    fn clean(&mut self, cfg: &CleanCfg)
        requires
            old(self).inv(),
        ensures
            final(self).inv(),
            clean_post(old(self).model(), *cfg, final(self).model()),
    {
        let ghost m0 = old(self).model();
        let ghost valid = m0.restrict(valid_keys(m0, *cfg));
        proof {
            self.inv_wf();
            m0.dom().lemma_len_filter(|k: nat| !cfg.spec_is_expired(m0[k].last_used));
            assert(valid.dom() =~= valid_keys(m0, *cfg));
        }
        // Expiry phase: delete every record whose last use crossed a bound.
        let recs = self.records();
        let ghost rv = recs_view(recs@);
        let mut j: usize = 0;
        while j < recs.len()
            invariant
                j <= recs.len(),
                rv == recs_view(recs@),
                unique_indices(rv),
                seq_map(rv) == m0,
                self.inv(),
                forall|k: nat| #[trigger]
                    self.model().contains_key(k) <==> (m0.contains_key(k) && !(exists|i: int|
                        0 <= i < j && rv[i].index == k && cfg.spec_is_expired(rv[i].last_used))),
                forall|k: nat| #[trigger]
                    self.model().contains_key(k) ==> self.model()[k] == m0[k],
            decreases recs.len() - j,
        {
            let ghost pre = self.model();
            let expired = cfg.is_expired(recs[j].last_used);
            if expired {
                self.delete(recs[j].index);
            }
            proof {
                let ghost jj = j as int;
                assert forall|k: nat| #[trigger] self.model().contains_key(k) implies (
                m0.contains_key(k) && !(exists|i: int|
                    0 <= i < jj + 1 && rv[i].index == k && cfg.spec_is_expired(
                        rv[i].last_used,
                    ))) by {
                    assert(pre.contains_key(k));
                    if exists|i: int|
                        0 <= i < jj + 1 && rv[i].index == k && cfg.spec_is_expired(
                            rv[i].last_used,
                        ) {
                        let i = choose|i: int|
                            0 <= i < jj + 1 && rv[i].index == k && cfg.spec_is_expired(
                                rv[i].last_used,
                            );
                        assert(i == jj);
                        assert(cfg.spec_is_expired(rv[jj].last_used));
                        assert(k == rv[jj].index);
                        assert(!self.model().contains_key(k));
                    }
                }
                assert forall|k: nat|
                    m0.contains_key(k) && !(exists|i: int|
                        0 <= i < jj + 1 && rv[i].index == k && cfg.spec_is_expired(
                            rv[i].last_used,
                        )) implies #[trigger] self.model().contains_key(k) by {
                    assert(!(exists|i: int|
                        0 <= i < jj && rv[i].index == k && cfg.spec_is_expired(rv[i].last_used)))
                        by {
                        if exists|i: int|
                            0 <= i < jj && rv[i].index == k && cfg.spec_is_expired(
                                rv[i].last_used,
                            ) {
                            let i = choose|i: int|
                                0 <= i < jj && rv[i].index == k && cfg.spec_is_expired(
                                    rv[i].last_used,
                                );
                            assert(0 <= i < jj + 1 && rv[i].index == k && cfg.spec_is_expired(
                                rv[i].last_used,
                            ));
                        }
                    }
                    assert(pre.contains_key(k));
                    if expired && k == rv[jj].index {
                        assert(0 <= jj < jj + 1 && rv[jj].index == k && cfg.spec_is_expired(
                            rv[jj].last_used,
                        ));
                    }
                }
            }
            j = j + 1;
        }
        proof {
            lemma_seq_map_keys(rv);
            assert forall|k: nat| #[trigger]
                self.model().contains_key(k) <==> valid.contains_key(k) by {
                if m0.contains_key(k) {
                    let i = choose|i: int| 0 <= i < rv.len() && rv[i].index == k;
                    lemma_seq_map_at(rv, i);
                    assert(rv[i] == m0[k]);
                    if cfg.spec_is_expired(m0[k].last_used) {
                        assert(rv[i].index == k && cfg.spec_is_expired(rv[i].last_used));
                    } else {
                        if exists|i2: int|
                            0 <= i2 < rv.len() && rv[i2].index == k && cfg.spec_is_expired(
                                rv[i2].last_used,
                            ) {
                            let i2 = choose|i2: int|
                                0 <= i2 < rv.len() && rv[i2].index == k && cfg.spec_is_expired(
                                    rv[i2].last_used,
                                );
                            lemma_seq_map_at(rv, i2);
                        }
                    }
                }
            }
            assert(self.model() =~= valid);
        }
        // Capacity phase: delete the oldest survivors while over the cap.
        let max = match cfg.max_entries {
            Some(mx) => mx,
            None => {
                return ;
            },
        };
        loop
            invariant_except_break
                self.inv(),
                valid == m0.restrict(valid_keys(m0, *cfg)),
                forall|k: nat| #[trigger]
                    self.model().contains_key(k) ==> valid.contains_key(k) && self.model()[k]
                        == valid[k],
                forall|a: nat, b: nat|
                    #[trigger] valid.contains_key(a) && !self.model().contains_key(a)
                        && #[trigger] self.model().contains_key(b) ==> older(valid[a], valid[b]),
                valid.dom().finite(),
                valid.dom().len() <= max ==> self.model() == valid,
                valid.dom().len() > max ==> self.model().dom().len() >= max,
                cfg.max_entries == Some(max),
            ensures
                self.inv(),
                clean_post(m0, *cfg, self.model()),
            decreases self.model().dom().len(),
        {
            let cur = self.records();
            let ghost rv2 = recs_view(cur@);
            proof {
                self.inv_wf();
                lemma_seq_map_len(rv2);
            }
            if cur.len() <= max {
                proof {
                    if valid.dom().len() <= max {
                        assert(self.model() == valid);
                    } else {
                        assert(self.model().dom().len() == max);
                        assert(self.model().dom().subset_of(valid.dom())) by {
                            assert forall|k: nat|
                                #[trigger] self.model().dom().contains(k) implies valid.dom().contains(
                                k,
                            ) by {
                                assert(self.model().contains_key(k));
                            }
                        }
                    }
                    let m2 = self.model();
                    if valid.dom().len() <= max {
                        assert(m2 == valid);
                    } else {
                        assert(m2.dom().subset_of(valid.dom()));
                        assert(forall|k: nat| #[trigger] m2.contains_key(k) ==> m2[k] == valid[k]);
                        assert(m2.dom().len() == max);
                        assert(forall|a: nat, b: nat|
                            #[trigger] valid.contains_key(a) && !m2.contains_key(a)
                                && #[trigger] m2.contains_key(b) ==> older(valid[a], valid[b]));
                    }
                    assert(clean_post(m0, *cfg, self.model()));
                }
                break ;
            }
            // Find the oldest record in the snapshot.
            let mut oi: usize = 0;
            let mut j2: usize = 1;
            while j2 < cur.len()
                invariant
                    0 < cur.len(),
                    oi < j2 <= cur.len(),
                    rv2 == recs_view(cur@),
                    unique_indices(rv2),
                    forall|i: int| 0 <= i < j2 && i != oi ==> older(rv2[oi as int], rv2[i]),
                decreases cur.len() - j2,
            {
                let lower = cur[j2].last_used < cur[oi].last_used || (cur[j2].last_used
                    == cur[oi].last_used && cur[j2].index < cur[oi].index);
                if lower {
                    oi = j2;
                }
                j2 = j2 + 1;
            }
            let ghost pre = self.model();
            let ghost gone = cur[oi as int]@.index;
            proof {
                lemma_seq_map_at(rv2, oi as int);
            }
            self.delete(cur[oi].index);
            proof {
                lemma_seq_map_keys(rv2);
                vstd::set::axiom_set_remove_len(pre.dom(), gone);
                assert(self.model().dom() =~= pre.dom().remove(gone));
                assert forall|a: nat, b: nat|
                    #[trigger] valid.contains_key(a) && !self.model().contains_key(a)
                        && #[trigger] self.model().contains_key(b) implies older(
                    valid[a],
                    valid[b],
                ) by {
                    if pre.contains_key(a) {
                        // `a` is the record deleted just now: it was the
                        // oldest of the snapshot.
                        let i = choose|i: int| 0 <= i < rv2.len() && rv2[i].index == b;
                        lemma_seq_map_at(rv2, i);
                        assert(rv2[i] == pre[b]);
                        assert(a == gone);
                        assert(rv2[oi as int] == pre[a]);
                        if i != oi {
                            assert(older(rv2[oi as int], rv2[i]));
                        }
                    }
                }
            }
        }
    }
}

} // verus!
