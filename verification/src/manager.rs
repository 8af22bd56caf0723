//! The group router: it maps group names to storage engines.
//!
//! Configuration is looked up by exact name, then under the default
//! name, and a default entry is synthesized and persisted for an
//! unknown name.  Engines are cached by storage class, not by group
//! name; groups in one engine occupy disjoint namespaces.  Every access
//! cleans the resolved group with the thresholds its configuration
//! yields, so eviction happens lazily, on access.
use vstd::prelude::*;

use crate::backend::{
    clean_post, fresh_for, group_wf, indices_bounded, opt_nat, opt_view, preview_post, push_post,
    rows_of, select_post, CleanCfg, GroupV, Record, Time,
};
use crate::disk::{DiskStore, StorageError};
use crate::clip::Entry;
use crate::config::{
    default_cat, spec_class_id, spec_clean_cfg, BackendConfig, CategoryConfig, Moments,
};
use crate::memory::{
    group_of, lemma_pairs_at, lemma_pairs_keys, lemma_pairs_push, lemma_pairs_update, pairs_map,
    unique_keys, Memory,
};

verus! {

/// The first configuration entry under a name.
pub open spec fn cfg_lookup(c: Seq<(String, CategoryConfig)>, n: Seq<char>) -> Option<
    CategoryConfig,
>
    decreases c.len(),
{
    if c.len() == 0 {
        None
    } else if c[0].0@ == n {
        Some(c[0].1)
    } else {
        cfg_lookup(c.subrange(1, c.len() as int), n)
    }
}

/// The configuration a group name resolves to: its own entry, else the
/// default entry, else the synthesized default.
pub open spec fn resolved_cfg(c: Seq<(String, CategoryConfig)>, n: Seq<char>) -> CategoryConfig {
    match cfg_lookup(c, n) {
        Some(x) => x,
        None => match cfg_lookup(c, "default"@) {
            Some(d) => d,
            None => default_cat(),
        },
    }
}

/// Appending an entry leaves every earlier lookup in place.
pub proof fn lemma_lookup_push(
    c: Seq<(String, CategoryConfig)>,
    p: (String, CategoryConfig),
    n: Seq<char>,
)
    ensures
        cfg_lookup(c.push(p), n) == (match cfg_lookup(c, n) {
            Some(x) => Some(x),
            None => if p.0@ == n {
                Some(p.1)
            } else {
                None
            },
        }),
    decreases c.len(),
{
    let t = c.push(p);
    if c.len() == 0 {
        assert(t[0] == p);
        assert(t.subrange(1, t.len() as int) =~= Seq::<(String, CategoryConfig)>::empty());
        assert(cfg_lookup(c, n) is None);
        if p.0@ == n {
            assert(cfg_lookup(t, n) == Some(p.1));
        } else {
            assert(cfg_lookup(t, n) == cfg_lookup(t.subrange(1, t.len() as int), n));
            assert(cfg_lookup(t.subrange(1, t.len() as int), n) is None);
        }
    } else {
        assert(t[0] == c[0]);
        assert(t.subrange(1, t.len() as int) =~= c.subrange(1, c.len() as int).push(p));
        lemma_lookup_push(c.subrange(1, c.len() as int), p, n);
        if c[0].0@ == n {
            assert(cfg_lookup(t, n) == Some(c[0].1));
            assert(cfg_lookup(c, n) == Some(c[0].1));
        } else {
            assert(cfg_lookup(t, n) == cfg_lookup(c.subrange(1, c.len() as int).push(p), n));
            assert(cfg_lookup(c, n) == cfg_lookup(c.subrange(1, c.len() as int), n));
        }
    }
}

/// Synthesizing the default entry for an unknown name changes no name's
/// resolved configuration.
pub proof fn lemma_resolve_push(c: Seq<(String, CategoryConfig)>, p: (String, CategoryConfig))
    requires
        cfg_lookup(c, p.0@) is None,
        cfg_lookup(c, "default"@) is None,
        p.1 == default_cat(),
    ensures
        forall|n: Seq<char>| #[trigger] resolved_cfg(c.push(p), n) == resolved_cfg(c, n),
{
    assert forall|n: Seq<char>| #[trigger] resolved_cfg(c.push(p), n) == resolved_cfg(c, n) by {
        lemma_lookup_push(c, p, n);
        lemma_lookup_push(c, p, "default"@);
    }
}


/// One cached storage engine: a table-per-group engine in memory, or a
/// persistent store on disk.
pub enum Engine {
    Memory(Memory),
    Disk(DiskStore),
}

impl Engine {
    /// The engine's value: group contents by group name.
    pub open spec fn model(&self) -> Map<Seq<char>, GroupV> {
        match self {
            Engine::Memory(m) => m.model(),
            Engine::Disk(d) => d.model(),
        }
    }

    /// The engine's well-formedness.
    pub open spec fn inv(&self) -> bool {
        match self {
            Engine::Memory(m) => m.inv(),
            Engine::Disk(d) => d.inv(),
        }
    }

    /// A well-formed engine holds only well-formed groups.
    pub proof fn inv_groups_wf(&self)
        requires
            self.inv(),
        ensures
            forall|n: Seq<char>| group_wf(#[trigger] group_of(self.model(), n)),
    {
        match self {
            Engine::Memory(m) => m.inv_groups_wf(),
            Engine::Disk(d) => d.inv_groups_wf(),
        }
    }

    /// Clean the named group and push an entry into it.  A memory
    /// engine cannot fail; a disk engine fails only when its bucket
    /// cannot be opened, leaving every group as it was.
    pub fn push_entry(self, name: &str, cfg: &CleanCfg, entry: Entry, now: Time) -> (r: (
        Engine,
        Result<usize, StorageError>,
    ))
        requires
            self.inv(),
            fresh_for(group_of(self.model(), name@), now),
            indices_bounded(group_of(self.model(), name@)),
        ensures
            r.0.inv(),
            r.0 is Memory <==> self is Memory,
            self.model().contains_key(name@) ==> r.1 is Ok,
            match r.1 {
                Ok(idx) => {
                    &&& r.0.model().contains_key(name@)
                    &&& exists|g0: GroupV, g1: GroupV|
                        #![trigger clean_post(g0, *cfg, g1)]
                        (self.model().contains_key(name@) ==> g0 == self.model()[name@]) && (
                        self is Memory && !self.model().contains_key(name@) ==> g0
                            == GroupV::empty()) && fresh_for(g0, now) && indices_bounded(g0) && (
                        !self.model().contains_key(name@) ==> (fresh_for(g0, now)
                            && indices_bounded(g0))) && group_wf(g0) && clean_post(g0, *cfg, g1) && push_post(
                            g1,
                            entry@,
                            now,
                            r.0.model()[name@],
                            idx as nat,
                        )
                    &&& forall|k: Seq<char>|
                        k != name@ ==> (((#[trigger] r.0.model().contains_key(k))
                            <==> self.model().contains_key(k)) && (r.0.model().contains_key(k)
                            ==> r.0.model().index(k) == self.model().index(k)))
                },
                Err(_) => r.0.model() == self.model() && !(self is Memory),
            },
    {
        match self {
            Engine::Memory(mut m) => {
                proof {
                    m.inv_groups_wf();
                }
                let idx = m.push_entry(name, cfg, entry, now);
                (Engine::Memory(m), Ok(idx))
            },
            Engine::Disk(mut d) => {
                proof {
                    d.inv_groups_wf();
                }
                let res = d.push_entry(name, cfg, entry, now);
                (Engine::Disk(d), res)
            },
        }
    }

    /// Clean the named group and store an entry under an explicit
    /// index, replacing any record already there.
    pub fn put_at(self, name: &str, cfg: &CleanCfg, index: usize, entry: Entry, now: Time) -> (r: (
        Engine,
        Result<(), StorageError>,
    ))
        requires
            self.inv(),
        ensures
            r.0.inv(),
            r.0 is Memory <==> self is Memory,
            self.model().contains_key(name@) ==> r.1 is Ok,
            match r.1 {
                Ok(_) => {
                    &&& r.0.model().contains_key(name@)
                    &&& exists|g0: GroupV, g1: GroupV|
                        #![trigger clean_post(g0, *cfg, g1)]
                        (self.model().contains_key(name@) ==> g0 == self.model()[name@]) && (
                        self is Memory && !self.model().contains_key(name@) ==> g0
                            == GroupV::empty()) && (!self.model().contains_key(name@) ==> (
                        fresh_for(g0, now) && indices_bounded(g0))) && group_wf(g0) && clean_post(
                            g0,
                            *cfg,
                            g1,
                        )
                            && r.0.model()[name@] == g1.insert(
                            index as nat,
                            crate::backend::made(index as nat, entry@, now),
                        )
                    &&& forall|k: Seq<char>|
                        k != name@ ==> (((#[trigger] r.0.model().contains_key(k))
                            <==> self.model().contains_key(k)) && (r.0.model().contains_key(k)
                            ==> r.0.model().index(k) == self.model().index(k)))
                },
                Err(_) => r.0.model() == self.model() && !(self is Memory),
            },
    {
        match self {
            Engine::Memory(mut m) => {
                proof {
                    m.inv_groups_wf();
                }
                m.put_at(name, cfg, index, entry, now);
                (Engine::Memory(m), Ok(()))
            },
            Engine::Disk(mut d) => {
                proof {
                    d.inv_groups_wf();
                }
                let res = d.put_at(name, cfg, index, entry, now);
                (Engine::Disk(d), res)
            },
        }
    }

    /// Clean the named group, then find a record by optional index and
    /// count the view as a use.
    pub fn select_at(self, name: &str, cfg: &CleanCfg, index: Option<usize>, now: Time) -> (r: (
        Engine,
        Result<Option<Record>, StorageError>,
    ))
        requires
            self.inv(),
            fresh_for(group_of(self.model(), name@), now),
        ensures
            r.0.inv(),
            r.0 is Memory <==> self is Memory,
            self.model().contains_key(name@) ==> r.1 is Ok,
            match r.1 {
                Ok(found) => {
                    &&& r.0.model().contains_key(name@)
                    &&& exists|g0: GroupV, g1: GroupV|
                        #![trigger clean_post(g0, *cfg, g1)]
                        (self.model().contains_key(name@) ==> g0 == self.model()[name@]) && (
                        self is Memory && !self.model().contains_key(name@) ==> g0
                            == GroupV::empty()) && fresh_for(g0, now) && (
                        !self.model().contains_key(name@) ==> (fresh_for(g0, now)
                            && indices_bounded(g0))) && group_wf(g0) && clean_post(g0, *cfg, g1)
                            && select_post(
                            g1,
                            opt_nat(index),
                            now,
                            r.0.model()[name@],
                            opt_view(found),
                        )
                    &&& forall|k: Seq<char>|
                        k != name@ ==> (((#[trigger] r.0.model().contains_key(k))
                            <==> self.model().contains_key(k)) && (r.0.model().contains_key(k)
                            ==> r.0.model().index(k) == self.model().index(k)))
                },
                Err(_) => r.0.model() == self.model() && !(self is Memory),
            },
    {
        match self {
            Engine::Memory(mut m) => {
                proof {
                    m.inv_groups_wf();
                }
                let found = m.select_at(name, cfg, index, now);
                (Engine::Memory(m), Ok(found))
            },
            Engine::Disk(mut d) => {
                proof {
                    d.inv_groups_wf();
                }
                let res = d.select_at(name, cfg, index, now);
                (Engine::Disk(d), res)
            },
        }
    }

    /// Clean the named group, then find a record by optional index
    /// without counting the view as a use.
    pub fn find_at(self, name: &str, cfg: &CleanCfg, index: Option<usize>, now: Time) -> (r: (
        Engine,
        Result<Option<Record>, StorageError>,
    ))
        requires
            self.inv(),
        ensures
            r.0.inv(),
            r.0 is Memory <==> self is Memory,
            self.model().contains_key(name@) ==> r.1 is Ok,
            match r.1 {
                Ok(found) => {
                    &&& r.0.model().contains_key(name@)
                    &&& exists|g0: GroupV, g1: GroupV|
                        #![trigger clean_post(g0, *cfg, g1)]
                        (self.model().contains_key(name@) ==> g0 == self.model()[name@]) && (
                        self is Memory && !self.model().contains_key(name@) ==> g0
                            == GroupV::empty()) && (!self.model().contains_key(name@) ==> (
                        fresh_for(g0, now) && indices_bounded(g0))) && group_wf(g0) && clean_post(
                            g0,
                            *cfg,
                            g1,
                        )
                            && crate::backend::find_post(g1, opt_nat(index), opt_view(found))
                            && r.0.model()[name@] == g1
                    &&& forall|k: Seq<char>|
                        k != name@ ==> (((#[trigger] r.0.model().contains_key(k))
                            <==> self.model().contains_key(k)) && (r.0.model().contains_key(k)
                            ==> r.0.model().index(k) == self.model().index(k)))
                },
                Err(_) => r.0.model() == self.model() && !(self is Memory),
            },
    {
        match self {
            Engine::Memory(mut m) => {
                proof {
                    m.inv_groups_wf();
                }
                let found = m.find_at(name, cfg, index);
                (Engine::Memory(m), Ok(found))
            },
            Engine::Disk(mut d) => {
                proof {
                    d.inv_groups_wf();
                }
                let res = d.find_at(name, cfg, index, now);
                (Engine::Disk(d), res)
            },
        }
    }

    /// Clean the named group, then remove the record under an index.
    pub fn delete_at(self, name: &str, cfg: &CleanCfg, index: usize, now: Time) -> (r: (
        Engine,
        Result<(), StorageError>,
    ))
        requires
            self.inv(),
        ensures
            r.0.inv(),
            r.0 is Memory <==> self is Memory,
            self.model().contains_key(name@) ==> r.1 is Ok,
            match r.1 {
                Ok(_) => {
                    &&& r.0.model().contains_key(name@)
                    &&& exists|g0: GroupV, g1: GroupV|
                        #![trigger clean_post(g0, *cfg, g1)]
                        (self.model().contains_key(name@) ==> g0 == self.model()[name@]) && (
                        self is Memory && !self.model().contains_key(name@) ==> g0
                            == GroupV::empty()) && (!self.model().contains_key(name@) ==> (
                        fresh_for(g0, now) && indices_bounded(g0))) && group_wf(g0) && clean_post(
                            g0,
                            *cfg,
                            g1,
                        )
                            && r.0.model()[name@] == g1.remove(index as nat)
                    &&& forall|k: Seq<char>|
                        k != name@ ==> (((#[trigger] r.0.model().contains_key(k))
                            <==> self.model().contains_key(k)) && (r.0.model().contains_key(k)
                            ==> r.0.model().index(k) == self.model().index(k)))
                },
                Err(_) => r.0.model() == self.model() && !(self is Memory),
            },
    {
        match self {
            Engine::Memory(mut m) => {
                proof {
                    m.inv_groups_wf();
                }
                m.delete_at(name, cfg, index);
                (Engine::Memory(m), Ok(()))
            },
            Engine::Disk(mut d) => {
                proof {
                    d.inv_groups_wf();
                }
                let res = d.delete_at(name, cfg, index, now);
                (Engine::Disk(d), res)
            },
        }
    }

    /// Delete every record of the named group.
    pub fn clear_at(self, name: &str, now: Time) -> (r: (Engine, Result<(), StorageError>))
        requires
            self.inv(),
        ensures
            r.0.inv(),
            r.0 is Memory <==> self is Memory,
            self.model().contains_key(name@) ==> r.1 is Ok,
            match r.1 {
                Ok(_) => {
                    &&& r.0.model().contains_key(name@)
                    &&& r.0.model()[name@] == GroupV::empty()
                    &&& forall|k: Seq<char>|
                        k != name@ ==> (((#[trigger] r.0.model().contains_key(k))
                            <==> self.model().contains_key(k)) && (r.0.model().contains_key(k)
                            ==> r.0.model().index(k) == self.model().index(k)))
                },
                Err(_) => r.0.model() == self.model() && !(self is Memory),
            },
    {
        match self {
            Engine::Memory(mut m) => {
                m.clear_at(name);
                (Engine::Memory(m), Ok(()))
            },
            Engine::Disk(mut d) => {
                let res = d.clear_at(name, now);
                (Engine::Disk(d), res)
            },
        }
    }

    /// Clean the named group, then list its records as preview rows,
    /// newest first.
    pub fn previews_at(self, name: &str, cfg: &CleanCfg, size: usize, now: Time) -> (r: (
        Engine,
        Result<Vec<crate::clip::Preview>, StorageError>,
    ))
        requires
            self.inv(),
        ensures
            r.0.inv(),
            r.0 is Memory <==> self is Memory,
            self.model().contains_key(name@) ==> r.1 is Ok,
            match r.1 {
                Ok(rows) => {
                    &&& r.0.model().contains_key(name@)
                    &&& exists|g0: GroupV, g1: GroupV|
                        #![trigger clean_post(g0, *cfg, g1)]
                        (self.model().contains_key(name@) ==> g0 == self.model()[name@]) && (
                        self is Memory && !self.model().contains_key(name@) ==> g0
                            == GroupV::empty()) && (!self.model().contains_key(name@) ==> (
                        fresh_for(g0, now) && indices_bounded(g0))) && group_wf(g0) && clean_post(
                            g0,
                            *cfg,
                            g1,
                        )
                            && preview_post(g1, size as nat, rows_of(rows@))
                            && r.0.model()[name@] == g1
                    &&& forall|k: Seq<char>|
                        k != name@ ==> (((#[trigger] r.0.model().contains_key(k))
                            <==> self.model().contains_key(k)) && (r.0.model().contains_key(k)
                            ==> r.0.model().index(k) == self.model().index(k)))
                },
                Err(_) => r.0.model() == self.model() && !(self is Memory),
            },
    {
        match self {
            Engine::Memory(mut m) => {
                proof {
                    m.inv_groups_wf();
                }
                let rows = m.previews_at(name, cfg, size);
                (Engine::Memory(m), Ok(rows))
            },
            Engine::Disk(mut d) => {
                proof {
                    d.inv_groups_wf();
                }
                let res = d.previews_at(name, cfg, size, now);
                (Engine::Disk(d), res)
            },
        }
    }

    /// The names of every group the engine holds: for a disk engine,
    /// buckets from earlier runs are listed as well.
    pub fn group_names(&self) -> (r: Vec<String>)
        requires
            self.inv(),
        ensures
            forall|k: Seq<char>| #[trigger]
                self.model().contains_key(k) ==> r.deep_view().contains(k),
    {
        match self {
            Engine::Memory(m) => {
                let names = m.groups();
                proof {
                    assert forall|k: Seq<char>| #[trigger]
                        self.model().contains_key(k) implies names.deep_view().contains(k) by {
                        let j = choose|j: int|
                            0 <= j < names.deep_view().len() && names.deep_view()[j] == k;
                        assert(names.deep_view()[j] == k);
                    }
                }
                names
            },
            Engine::Disk(d) => d.groups(),
        }
    }
}

/// The group router.  It owns the per-group configuration, the cached
/// storage engines keyed by class identifier, and the environment
/// moments that fixed expiration policies refer to.
pub struct Manager {
    pub config: BackendConfig,
    pub class_ids: Vec<String>,
    pub engines: Vec<Engine>,
    pub moments: Moments,
}

/// The disk class identifiers never collide with the memory class.
pub proof fn lemma_class_distinct(p: Seq<char>)
    ensures
        "disk:"@ + p != "memory"@,
{
    reveal_strlit("disk:");
    reveal_strlit("memory");
    if "disk:"@ + p == "memory"@ {
        assert(("disk:"@ + p)[0] == "disk:"@[0]);
    }
}

/// The group an operation starts from: the group as loaded when the
/// router already holds it, the empty group for an unloaded group of a
/// memory class, and for an unloaded group of a disk class whatever
/// well-formed content its bucket decodes to.
pub open spec fn group_source(m: Manager, n: Seq<char>, now: Time, g0: GroupV) -> bool {
    &&& (m.group_loaded(n) ==> g0 == m.group_model(n))
    &&& (!m.group_loaded(n) && resolved_cfg(m.config@, n).storage is Memory ==> g0
        == GroupV::empty())
    &&& (!m.group_loaded(n) ==> (fresh_for(g0, now) && indices_bounded(g0)))
    &&& group_wf(g0)
}

impl Manager {
    /// The router's well-formedness: class identifiers unique, engines
    /// well formed, and the memory class held by a memory engine.
    pub open spec fn inv(&self) -> bool {
        &&& self.class_ids@.len() == self.engines@.len()
        &&& unique_keys(self.class_ids.deep_view())
        &&& forall|j: int| 0 <= j < self.engines@.len() ==> (#[trigger] self.engines@[j]).inv()
        &&& forall|j: int|
            0 <= j < self.engines@.len() ==> ((#[trigger] self.class_ids@[j]@) == "memory"@
                ==> self.engines@[j] is Memory)
    }

    /// The contents of the engine cached under a class identifier:
    /// empty before the engine is built.
    pub open spec fn eng_model(&self, cls: Seq<char>) -> Map<Seq<char>, GroupV> {
        let em = pairs_map(
            self.class_ids.deep_view(),
            self.engines@.map_values(|e: Engine| e.model()),
        );
        if em.contains_key(cls) {
            em[cls]
        } else {
            Map::empty()
        }
    }

    /// The group a name resolves to: the name's group in the engine of
    /// its configured storage class.
    pub open spec fn group_model(&self, n: Seq<char>) -> GroupV {
        group_of(self.eng_model(spec_class_id(resolved_cfg(self.config@, n).storage)), n)
    }

    /// Whether the engine of a name's class has the name's group loaded.
    pub open spec fn group_loaded(&self, n: Seq<char>) -> bool {
        self.eng_model(spec_class_id(resolved_cfg(self.config@, n).storage)).contains_key(n)
    }

    /// Create a router with no engines built yet.
    pub fn new(config: BackendConfig, moments: Moments) -> (r: Manager)
        ensures
            r.inv(),
            r.config == config,
            r.moments == moments,
            forall|n: Seq<char>| #[trigger] r.group_model(n) == GroupV::empty(),
            forall|n: Seq<char>| !(#[trigger] r.group_loaded(n)),
    {
        let r = Manager { config, class_ids: Vec::new(), engines: Vec::new(), moments };
        proof {
            assert(r.class_ids.deep_view() =~= Seq::<Seq<char>>::empty());
            lemma_pairs_keys(r.class_ids.deep_view(), r.engines@.map_values(|e: Engine| e.model()));
        }
        r
    }

    /// Resolve the configuration for a group name, synthesizing and
    /// persisting a default entry when nothing configures it, and hand
    /// back the cleanup thresholds now in force and the storage class.
    fn get_config(&mut self, name: &str, now: Time) -> (r: (CleanCfg, String))
        requires
            old(self).inv(),
        ensures
            final(self).inv(),
            r.0 == spec_clean_cfg(resolved_cfg(old(self).config@, name@), now, old(self).moments),
            r.1@ == spec_class_id(resolved_cfg(old(self).config@, name@).storage),
            final(self).class_ids == old(self).class_ids,
            final(self).engines == old(self).engines,
            final(self).moments == old(self).moments,
            forall|n: Seq<char>| #[trigger]
                resolved_cfg(final(self).config@, n) == resolved_cfg(old(self).config@, n),
    {
        let ghost c0 = self.config@;
        let mut j: usize = 0;
        while j < self.config.len()
            invariant
                j <= self.config@.len(),
                c0 == self.config@,
                self.inv(),
                forall|i: int| 0 <= i < j ==> (#[trigger] c0[i].0@) != name@,
            decreases self.config@.len() - j,
        {
            if crate::mime::str_eq_str(self.config[j].0.as_str(), name) {
                proof {
                    lemma_lookup_first(c0, name@, j as int);
                }
                let cc = self.config[j].1.clean_cfg(now, self.moments);
                let cls = self.config[j].1.storage.class_id();
                return (cc, cls);
            }
            j = j + 1;
        }
        proof {
            lemma_lookup_none(c0, name@);
        }
        let mut j2: usize = 0;
        while j2 < self.config.len()
            invariant
                j2 <= self.config@.len(),
                c0 == self.config@,
                self.inv(),
                cfg_lookup(c0, name@) is None,
                forall|i: int| 0 <= i < j2 ==> (#[trigger] c0[i].0@) != "default"@,
            decreases self.config@.len() - j2,
        {
            if crate::mime::str_eq_str(self.config[j2].0.as_str(), "default") {
                proof {
                    lemma_lookup_first(c0, "default"@, j2 as int);
                }
                let cc = self.config[j2].1.clean_cfg(now, self.moments);
                let cls = self.config[j2].1.storage.class_id();
                return (cc, cls);
            }
            j2 = j2 + 1;
        }
        proof {
            lemma_lookup_none(c0, "default"@);
        }
        let fresh = CategoryConfig::default();
        let cc = fresh.clean_cfg(now, self.moments);
        let cls = fresh.storage.class_id();
        let entry = (String::from_str(name), fresh);
        let ghost p = entry;
        self.config.push(entry);
        proof {
            lemma_resolve_push(c0, p);
        }
        (cc, cls)
    }

    /// The position of the engine cached under a class identifier,
    /// building one for the class when none is cached yet: a memory
    /// engine for the memory class, a persistent store for a disk class.
    fn ensure_engine(&mut self, cls: &String) -> (r: Result<usize, StorageError>)
        requires
            old(self).inv(),
        ensures
            final(self).inv(),
            final(self).config == old(self).config,
            final(self).moments == old(self).moments,
            (exists|j: int|
                0 <= j < old(self).class_ids@.len() && (#[trigger] old(
                    self,
                ).class_ids@[j]@) == cls@) ==> r is Ok,
            match r {
                Ok(ei) => {
                    &&& ei < final(self).class_ids@.len()
                    &&& final(self).class_ids@[ei as int]@ == cls@
                    &&& final(self).engines@[ei as int].model() == old(self).eng_model(cls@)
                    &&& (cls@ == "memory"@ ==> final(self).engines@[ei as int] is Memory)
                    &&& forall|c2: Seq<char>| #[trigger]
                        final(self).eng_model(c2) == old(self).eng_model(c2)
                },
                Err(_) => *final(self) == *old(self) && cls@ != "memory"@,
            },
    {
        let ghost ks = self.class_ids.deep_view();
        let ghost vs = self.engines@.map_values(|e: Engine| e.model());
        proof {
            lemma_pairs_keys(ks, vs);
        }
        let mut j: usize = 0;
        while j < self.class_ids.len()
            invariant
                j <= self.class_ids@.len(),
                self.inv(),
                *self == *old(self),
                ks == self.class_ids.deep_view(),
                vs == self.engines@.map_values(|e: Engine| e.model()),
                forall|i: int| 0 <= i < j ==> ks[i] != cls@,
            decreases self.class_ids@.len() - j,
        {
            if crate::mime::str_eq_str(self.class_ids[j].as_str(), cls.as_str()) {
                proof {
                    lemma_pairs_at(ks, vs, j as int);
                }
                return Ok(j);
            }
            j = j + 1;
        }
        proof {
            if pairs_map(ks, vs).contains_key(cls@) {
                let i = choose|i: int| 0 <= i < ks.len() && ks[i] == cls@;
            }
        }
        let fresh = match engine_for(cls.as_str()) {
            Ok(fresh) => fresh,
            Err(e) => {
                proof {
                    if exists|j2: int|
                        0 <= j2 < old(self).class_ids@.len() && (#[trigger] old(
                            self,
                        ).class_ids@[j2]@) == cls@ {
                        let j2 = choose|j2: int|
                            0 <= j2 < old(self).class_ids@.len() && (#[trigger] old(
                                self,
                            ).class_ids@[j2]@) == cls@;
                        assert(ks[j2] == cls@);
                    }
                }
                return Err(e);
            },
        };
        let ghost fm = fresh.model();
        let ei = self.class_ids.len();
        self.class_ids.push(cls.clone());
        self.engines.push(fresh);
        proof {
            assert(self.class_ids.deep_view() =~= ks.push(cls@));
            assert(self.engines@.map_values(|e: Engine| e.model()) =~= vs.push(fm));
            lemma_pairs_push(ks, vs, cls@, fm);
            assert(unique_keys(ks.push(cls@))) by {
                assert(forall|i: int| 0 <= i < ks.len() ==> ks[i] != cls@);
                assert(forall|i: int, j2: int|
                    0 <= i < j2 < ks.push(cls@).len() ==> ks.push(cls@)[i] != ks.push(cls@)[j2]);
            }
            lemma_pairs_at(ks.push(cls@), vs.push(fm), ei as int);
            assert forall|c2: Seq<char>| #[trigger]
                final(self).eng_model(c2) == old(self).eng_model(c2) by {
                lemma_pairs_keys(ks, vs);
                if c2 == cls@ {
                    assert(fm =~= Map::<Seq<char>, GroupV>::empty());
                }
            }
        }
        Ok(ei)
    }

    /// Resolve a group, clean it, and push an entry into it: an
    /// already-present body is touched and keeps its index, a new body
    /// is stored under the group's next free index.
    pub fn push(&mut self, name: &str, entry: Entry, now: Time) -> (r: Result<usize, StorageError>)
        requires
            old(self).inv(),
            fresh_for(old(self).group_model(name@), now),
            indices_bounded(old(self).group_model(name@)),
        ensures
            final(self).inv(),
            final(self).moments == old(self).moments,
            old(self).group_loaded(name@) ==> r is Ok,
            forall|n2: Seq<char>| #[trigger]
                resolved_cfg(final(self).config@, n2) == resolved_cfg(old(self).config@, n2),
            match r {
                Ok(idx) => {
                    &&& final(self).group_loaded(name@)
                    &&& exists|g0: GroupV, g1: GroupV|
                        #![trigger clean_post(g0, spec_clean_cfg(resolved_cfg(old(self).config@, name@), now, old(self).moments), g1)]
                        group_source(*old(self), name@, now, g0) && fresh_for(g0, now)
                            && indices_bounded(g0) && clean_post(
                            g0,
                            spec_clean_cfg(
                                resolved_cfg(old(self).config@, name@),
                                now,
                                old(self).moments,
                            ),
                            g1,
                        ) && push_post(g1, entry@, now, final(self).group_model(name@), idx as nat)
                    &&& forall|n2: Seq<char>|
                        n2 != name@ ==> #[trigger] final(self).group_model(n2) == old(
                            self,
                        ).group_model(n2)
                },
                Err(_) => {
                    &&& !(resolved_cfg(old(self).config@, name@).storage is Memory)
                    &&& forall|n2: Seq<char>| #[trigger]
                        final(self).group_model(n2) == old(self).group_model(n2)
                },
            },
    {
        let ghost m_old = *old(self);
        let (ccfg, cls) = self.get_config(name, now);
        let ei = match self.ensure_engine(&cls) {
            Ok(ei) => ei,
            Err(e) => {
                proof {
                    if old(self).group_loaded(name@) {
                        lemma_pairs_keys(
                            old(self).class_ids.deep_view(),
                            old(self).engines@.map_values(|en: Engine| en.model()),
                        );
                        let j2 = choose|j2: int|
                            0 <= j2 < old(self).class_ids.deep_view().len() && old(
                                self,
                            ).class_ids.deep_view()[j2] == cls@;
                        assert(old(self).class_ids@[j2]@ == cls@);
                    }
                }
                return Err(e);
            },
        };
        let ghost ks = self.class_ids.deep_view();
        let ghost vs = self.engines@.map_values(|e: Engine| e.model());
        let ghost mid = *self;
        let eng = self.engines.remove(ei);
        let cid = self.class_ids.remove(ei);
        proof {
            assert(eng.model() == m_old.eng_model(cls@));
            assert(group_of(eng.model(), name@) == m_old.group_model(name@));
        }
        let (eng, res) = eng.push_entry(name, &ccfg, entry, now);
        self.class_ids.insert(ei, cid);
        self.engines.insert(ei, eng);
        proof {
            assert(self.class_ids.deep_view() =~= ks);
            assert(self.engines@.map_values(|e: Engine| e.model()) =~= vs.update(
                ei as int,
                eng.model(),
            ));
            self.lemma_after_engine_op(m_old, mid, ks, vs, ei as int, cls@, name@, eng.model());
        }
        match res {
            Ok(out) => {
                proof {
                    assert(final(self).group_model(name@) == eng.model()[name@]);
                }
                Ok(out)
            },
            Err(e) => {
                proof {
                    if resolved_cfg(m_old.config@, name@).storage is Memory {
                        assert(cls@ == "memory"@);
                        assert(mid.engines@[ei as int] is Memory);
                    }
                    if old(self).group_loaded(name@) {
                        assert(m_old.eng_model(cls@).contains_key(name@));
                    }
                }
                Err(e)
            },
        }
    }

    /// Resolve a group, clean it, and store an entry under an explicit
    /// index, replacing any record already there.
    pub fn put_at(&mut self, name: &str, index: usize, entry: Entry, now: Time) -> (r: Result<(), StorageError>)
        requires
            old(self).inv(),
        ensures
            final(self).inv(),
            final(self).moments == old(self).moments,
            old(self).group_loaded(name@) ==> r is Ok,
            forall|n2: Seq<char>| #[trigger]
                resolved_cfg(final(self).config@, n2) == resolved_cfg(old(self).config@, n2),
            match r {
                Ok(_x) => {
                    &&& final(self).group_loaded(name@)
                    &&& exists|g0: GroupV, g1: GroupV|
                        #![trigger clean_post(g0, spec_clean_cfg(resolved_cfg(old(self).config@, name@), now, old(self).moments), g1)]
                        group_source(*old(self), name@, now, g0) && clean_post(
                            g0,
                            spec_clean_cfg(
                                resolved_cfg(old(self).config@, name@),
                                now,
                                old(self).moments,
                            ),
                            g1,
                        ) && final(self).group_model(name@) == g1.insert(
                            index as nat,
                            crate::backend::made(index as nat, entry@, now),
                        )
                    &&& forall|n2: Seq<char>|
                        n2 != name@ ==> #[trigger] final(self).group_model(n2) == old(
                            self,
                        ).group_model(n2)
                },
                Err(_) => {
                    &&& !(resolved_cfg(old(self).config@, name@).storage is Memory)
                    &&& forall|n2: Seq<char>| #[trigger]
                        final(self).group_model(n2) == old(self).group_model(n2)
                },
            },
    {
        let ghost m_old = *old(self);
        let (ccfg, cls) = self.get_config(name, now);
        let ei = match self.ensure_engine(&cls) {
            Ok(ei) => ei,
            Err(e) => {
                proof {
                    if old(self).group_loaded(name@) {
                        lemma_pairs_keys(
                            old(self).class_ids.deep_view(),
                            old(self).engines@.map_values(|en: Engine| en.model()),
                        );
                        let j2 = choose|j2: int|
                            0 <= j2 < old(self).class_ids.deep_view().len() && old(
                                self,
                            ).class_ids.deep_view()[j2] == cls@;
                        assert(old(self).class_ids@[j2]@ == cls@);
                    }
                }
                return Err(e);
            },
        };
        let ghost ks = self.class_ids.deep_view();
        let ghost vs = self.engines@.map_values(|e: Engine| e.model());
        let ghost mid = *self;
        let eng = self.engines.remove(ei);
        let cid = self.class_ids.remove(ei);
        proof {
            assert(eng.model() == m_old.eng_model(cls@));
            assert(group_of(eng.model(), name@) == m_old.group_model(name@));
        }
        let (eng, res) = eng.put_at(name, &ccfg, index, entry, now);
        self.class_ids.insert(ei, cid);
        self.engines.insert(ei, eng);
        proof {
            assert(self.class_ids.deep_view() =~= ks);
            assert(self.engines@.map_values(|e: Engine| e.model()) =~= vs.update(
                ei as int,
                eng.model(),
            ));
            self.lemma_after_engine_op(m_old, mid, ks, vs, ei as int, cls@, name@, eng.model());
        }
        match res {
            Ok(out) => {
                proof {
                    assert(final(self).group_model(name@) == eng.model()[name@]);
                }
                Ok(out)
            },
            Err(e) => {
                proof {
                    if resolved_cfg(m_old.config@, name@).storage is Memory {
                        assert(cls@ == "memory"@);
                        assert(mid.engines@[ei as int] is Memory);
                    }
                    if old(self).group_loaded(name@) {
                        assert(m_old.eng_model(cls@).contains_key(name@));
                    }
                }
                Err(e)
            },
        }
    }

    /// Resolve a group, clean it, and select a record by optional index:
    /// the record is returned as it stood and touched in the group.
    pub fn select(&mut self, name: &str, index: Option<usize>, now: Time) -> (r: Result<Option<Record>, StorageError>)
        requires
            old(self).inv(),
            fresh_for(old(self).group_model(name@), now),
        ensures
            final(self).inv(),
            final(self).moments == old(self).moments,
            old(self).group_loaded(name@) ==> r is Ok,
            forall|n2: Seq<char>| #[trigger]
                resolved_cfg(final(self).config@, n2) == resolved_cfg(old(self).config@, n2),
            match r {
                Ok(found) => {
                    &&& final(self).group_loaded(name@)
                    &&& exists|g0: GroupV, g1: GroupV|
                        #![trigger clean_post(g0, spec_clean_cfg(resolved_cfg(old(self).config@, name@), now, old(self).moments), g1)]
                        group_source(*old(self), name@, now, g0) && fresh_for(g0, now) && clean_post(
                            g0,
                            spec_clean_cfg(
                                resolved_cfg(old(self).config@, name@),
                                now,
                                old(self).moments,
                            ),
                            g1,
                        ) && select_post(
                            g1,
                            opt_nat(index),
                            now,
                            final(self).group_model(name@),
                            opt_view(found),
                        )
                    &&& forall|n2: Seq<char>|
                        n2 != name@ ==> #[trigger] final(self).group_model(n2) == old(
                            self,
                        ).group_model(n2)
                },
                Err(_) => {
                    &&& !(resolved_cfg(old(self).config@, name@).storage is Memory)
                    &&& forall|n2: Seq<char>| #[trigger]
                        final(self).group_model(n2) == old(self).group_model(n2)
                },
            },
    {
        let ghost m_old = *old(self);
        let (ccfg, cls) = self.get_config(name, now);
        let ei = match self.ensure_engine(&cls) {
            Ok(ei) => ei,
            Err(e) => {
                proof {
                    if old(self).group_loaded(name@) {
                        lemma_pairs_keys(
                            old(self).class_ids.deep_view(),
                            old(self).engines@.map_values(|en: Engine| en.model()),
                        );
                        let j2 = choose|j2: int|
                            0 <= j2 < old(self).class_ids.deep_view().len() && old(
                                self,
                            ).class_ids.deep_view()[j2] == cls@;
                        assert(old(self).class_ids@[j2]@ == cls@);
                    }
                }
                return Err(e);
            },
        };
        let ghost ks = self.class_ids.deep_view();
        let ghost vs = self.engines@.map_values(|e: Engine| e.model());
        let ghost mid = *self;
        let eng = self.engines.remove(ei);
        let cid = self.class_ids.remove(ei);
        proof {
            assert(eng.model() == m_old.eng_model(cls@));
            assert(group_of(eng.model(), name@) == m_old.group_model(name@));
        }
        let (eng, res) = eng.select_at(name, &ccfg, index, now);
        self.class_ids.insert(ei, cid);
        self.engines.insert(ei, eng);
        proof {
            assert(self.class_ids.deep_view() =~= ks);
            assert(self.engines@.map_values(|e: Engine| e.model()) =~= vs.update(
                ei as int,
                eng.model(),
            ));
            self.lemma_after_engine_op(m_old, mid, ks, vs, ei as int, cls@, name@, eng.model());
        }
        match res {
            Ok(out) => {
                proof {
                    assert(final(self).group_model(name@) == eng.model()[name@]);
                }
                Ok(out)
            },
            Err(e) => {
                proof {
                    if resolved_cfg(m_old.config@, name@).storage is Memory {
                        assert(cls@ == "memory"@);
                        assert(mid.engines@[ei as int] is Memory);
                    }
                    if old(self).group_loaded(name@) {
                        assert(m_old.eng_model(cls@).contains_key(name@));
                    }
                }
                Err(e)
            },
        }
    }

    /// Resolve a group, clean it, and find a record by optional index
    /// without counting the view as a use.
    pub fn find(&mut self, name: &str, index: Option<usize>, now: Time) -> (r: Result<Option<Record>, StorageError>)
        requires
            old(self).inv(),
        ensures
            final(self).inv(),
            final(self).moments == old(self).moments,
            old(self).group_loaded(name@) ==> r is Ok,
            forall|n2: Seq<char>| #[trigger]
                resolved_cfg(final(self).config@, n2) == resolved_cfg(old(self).config@, n2),
            match r {
                Ok(found) => {
                    &&& final(self).group_loaded(name@)
                    &&& exists|g0: GroupV, g1: GroupV|
                        #![trigger clean_post(g0, spec_clean_cfg(resolved_cfg(old(self).config@, name@), now, old(self).moments), g1)]
                        group_source(*old(self), name@, now, g0) && clean_post(
                            g0,
                            spec_clean_cfg(
                                resolved_cfg(old(self).config@, name@),
                                now,
                                old(self).moments,
                            ),
                            g1,
                        ) && crate::backend::find_post(g1, opt_nat(index), opt_view(found))
                            && final(self).group_model(name@) == g1
                    &&& forall|n2: Seq<char>|
                        n2 != name@ ==> #[trigger] final(self).group_model(n2) == old(
                            self,
                        ).group_model(n2)
                },
                Err(_) => {
                    &&& !(resolved_cfg(old(self).config@, name@).storage is Memory)
                    &&& forall|n2: Seq<char>| #[trigger]
                        final(self).group_model(n2) == old(self).group_model(n2)
                },
            },
    {
        let ghost m_old = *old(self);
        let (ccfg, cls) = self.get_config(name, now);
        let ei = match self.ensure_engine(&cls) {
            Ok(ei) => ei,
            Err(e) => {
                proof {
                    if old(self).group_loaded(name@) {
                        lemma_pairs_keys(
                            old(self).class_ids.deep_view(),
                            old(self).engines@.map_values(|en: Engine| en.model()),
                        );
                        let j2 = choose|j2: int|
                            0 <= j2 < old(self).class_ids.deep_view().len() && old(
                                self,
                            ).class_ids.deep_view()[j2] == cls@;
                        assert(old(self).class_ids@[j2]@ == cls@);
                    }
                }
                return Err(e);
            },
        };
        let ghost ks = self.class_ids.deep_view();
        let ghost vs = self.engines@.map_values(|e: Engine| e.model());
        let ghost mid = *self;
        let eng = self.engines.remove(ei);
        let cid = self.class_ids.remove(ei);
        proof {
            assert(eng.model() == m_old.eng_model(cls@));
            assert(group_of(eng.model(), name@) == m_old.group_model(name@));
        }
        let (eng, res) = eng.find_at(name, &ccfg, index, now);
        self.class_ids.insert(ei, cid);
        self.engines.insert(ei, eng);
        proof {
            assert(self.class_ids.deep_view() =~= ks);
            assert(self.engines@.map_values(|e: Engine| e.model()) =~= vs.update(
                ei as int,
                eng.model(),
            ));
            self.lemma_after_engine_op(m_old, mid, ks, vs, ei as int, cls@, name@, eng.model());
        }
        match res {
            Ok(out) => {
                proof {
                    assert(final(self).group_model(name@) == eng.model()[name@]);
                }
                Ok(out)
            },
            Err(e) => {
                proof {
                    if resolved_cfg(m_old.config@, name@).storage is Memory {
                        assert(cls@ == "memory"@);
                        assert(mid.engines@[ei as int] is Memory);
                    }
                    if old(self).group_loaded(name@) {
                        assert(m_old.eng_model(cls@).contains_key(name@));
                    }
                }
                Err(e)
            },
        }
    }

    /// Resolve a group, clean it, and remove the record under an index;
    /// an absent index is a no-op.
    pub fn delete(&mut self, name: &str, index: usize, now: Time) -> (r: Result<(), StorageError>)
        requires
            old(self).inv(),
        ensures
            final(self).inv(),
            final(self).moments == old(self).moments,
            old(self).group_loaded(name@) ==> r is Ok,
            forall|n2: Seq<char>| #[trigger]
                resolved_cfg(final(self).config@, n2) == resolved_cfg(old(self).config@, n2),
            match r {
                Ok(_x) => {
                    &&& final(self).group_loaded(name@)
                    &&& exists|g0: GroupV, g1: GroupV|
                        #![trigger clean_post(g0, spec_clean_cfg(resolved_cfg(old(self).config@, name@), now, old(self).moments), g1)]
                        group_source(*old(self), name@, now, g0) && clean_post(
                            g0,
                            spec_clean_cfg(
                                resolved_cfg(old(self).config@, name@),
                                now,
                                old(self).moments,
                            ),
                            g1,
                        ) && final(self).group_model(name@) == g1.remove(index as nat)
                    &&& forall|n2: Seq<char>|
                        n2 != name@ ==> #[trigger] final(self).group_model(n2) == old(
                            self,
                        ).group_model(n2)
                },
                Err(_) => {
                    &&& !(resolved_cfg(old(self).config@, name@).storage is Memory)
                    &&& forall|n2: Seq<char>| #[trigger]
                        final(self).group_model(n2) == old(self).group_model(n2)
                },
            },
    {
        let ghost m_old = *old(self);
        let (ccfg, cls) = self.get_config(name, now);
        let ei = match self.ensure_engine(&cls) {
            Ok(ei) => ei,
            Err(e) => {
                proof {
                    if old(self).group_loaded(name@) {
                        lemma_pairs_keys(
                            old(self).class_ids.deep_view(),
                            old(self).engines@.map_values(|en: Engine| en.model()),
                        );
                        let j2 = choose|j2: int|
                            0 <= j2 < old(self).class_ids.deep_view().len() && old(
                                self,
                            ).class_ids.deep_view()[j2] == cls@;
                        assert(old(self).class_ids@[j2]@ == cls@);
                    }
                }
                return Err(e);
            },
        };
        let ghost ks = self.class_ids.deep_view();
        let ghost vs = self.engines@.map_values(|e: Engine| e.model());
        let ghost mid = *self;
        let eng = self.engines.remove(ei);
        let cid = self.class_ids.remove(ei);
        proof {
            assert(eng.model() == m_old.eng_model(cls@));
            assert(group_of(eng.model(), name@) == m_old.group_model(name@));
        }
        let (eng, res) = eng.delete_at(name, &ccfg, index, now);
        self.class_ids.insert(ei, cid);
        self.engines.insert(ei, eng);
        proof {
            assert(self.class_ids.deep_view() =~= ks);
            assert(self.engines@.map_values(|e: Engine| e.model()) =~= vs.update(
                ei as int,
                eng.model(),
            ));
            self.lemma_after_engine_op(m_old, mid, ks, vs, ei as int, cls@, name@, eng.model());
        }
        match res {
            Ok(out) => {
                proof {
                    assert(final(self).group_model(name@) == eng.model()[name@]);
                }
                Ok(out)
            },
            Err(e) => {
                proof {
                    if resolved_cfg(m_old.config@, name@).storage is Memory {
                        assert(cls@ == "memory"@);
                        assert(mid.engines@[ei as int] is Memory);
                    }
                    if old(self).group_loaded(name@) {
                        assert(m_old.eng_model(cls@).contains_key(name@));
                    }
                }
                Err(e)
            },
        }
    }

    /// Resolve a group and delete every record it holds.
    pub fn clear_group(&mut self, name: &str, now: Time) -> (r: Result<(), StorageError>)
        requires
            old(self).inv(),
        ensures
            final(self).inv(),
            final(self).moments == old(self).moments,
            old(self).group_loaded(name@) ==> r is Ok,
            forall|n2: Seq<char>| #[trigger]
                resolved_cfg(final(self).config@, n2) == resolved_cfg(old(self).config@, n2),
            match r {
                Ok(_x) => {
                    &&& final(self).group_loaded(name@)
                    &&& final(self).group_model(name@) == GroupV::empty()
                    &&& forall|n2: Seq<char>|
                        n2 != name@ ==> #[trigger] final(self).group_model(n2) == old(
                            self,
                        ).group_model(n2)
                },
                Err(_) => {
                    &&& !(resolved_cfg(old(self).config@, name@).storage is Memory)
                    &&& forall|n2: Seq<char>| #[trigger]
                        final(self).group_model(n2) == old(self).group_model(n2)
                },
            },
    {
        let ghost m_old = *old(self);
        let (ccfg, cls) = self.get_config(name, now);
        let ei = match self.ensure_engine(&cls) {
            Ok(ei) => ei,
            Err(e) => {
                proof {
                    if old(self).group_loaded(name@) {
                        lemma_pairs_keys(
                            old(self).class_ids.deep_view(),
                            old(self).engines@.map_values(|en: Engine| en.model()),
                        );
                        let j2 = choose|j2: int|
                            0 <= j2 < old(self).class_ids.deep_view().len() && old(
                                self,
                            ).class_ids.deep_view()[j2] == cls@;
                        assert(old(self).class_ids@[j2]@ == cls@);
                    }
                }
                return Err(e);
            },
        };
        let ghost ks = self.class_ids.deep_view();
        let ghost vs = self.engines@.map_values(|e: Engine| e.model());
        let ghost mid = *self;
        let eng = self.engines.remove(ei);
        let cid = self.class_ids.remove(ei);
        proof {
            assert(eng.model() == m_old.eng_model(cls@));
            assert(group_of(eng.model(), name@) == m_old.group_model(name@));
        }
        let (eng, res) = eng.clear_at(name, now);
        self.class_ids.insert(ei, cid);
        self.engines.insert(ei, eng);
        proof {
            assert(self.class_ids.deep_view() =~= ks);
            assert(self.engines@.map_values(|e: Engine| e.model()) =~= vs.update(
                ei as int,
                eng.model(),
            ));
            self.lemma_after_engine_op(m_old, mid, ks, vs, ei as int, cls@, name@, eng.model());
        }
        match res {
            Ok(out) => {
                proof {
                    assert(final(self).group_model(name@) == eng.model()[name@]);
                }
                Ok(out)
            },
            Err(e) => {
                proof {
                    if resolved_cfg(m_old.config@, name@).storage is Memory {
                        assert(cls@ == "memory"@);
                        assert(mid.engines@[ei as int] is Memory);
                    }
                    if old(self).group_loaded(name@) {
                        assert(m_old.eng_model(cls@).contains_key(name@));
                    }
                }
                Err(e)
            },
        }
    }

    /// Resolve a group, clean it, and list its records as preview rows,
    /// newest first.
    pub fn previews(&mut self, name: &str, size: usize, now: Time) -> (r: Result<Vec<crate::clip::Preview>, StorageError>)
        requires
            old(self).inv(),
        ensures
            final(self).inv(),
            final(self).moments == old(self).moments,
            old(self).group_loaded(name@) ==> r is Ok,
            forall|n2: Seq<char>| #[trigger]
                resolved_cfg(final(self).config@, n2) == resolved_cfg(old(self).config@, n2),
            match r {
                Ok(rows) => {
                    &&& final(self).group_loaded(name@)
                    &&& exists|g0: GroupV, g1: GroupV|
                        #![trigger clean_post(g0, spec_clean_cfg(resolved_cfg(old(self).config@, name@), now, old(self).moments), g1)]
                        group_source(*old(self), name@, now, g0) && clean_post(
                            g0,
                            spec_clean_cfg(
                                resolved_cfg(old(self).config@, name@),
                                now,
                                old(self).moments,
                            ),
                            g1,
                        ) && preview_post(g1, size as nat, rows_of(rows@))
                            && final(self).group_model(name@) == g1
                    &&& forall|n2: Seq<char>|
                        n2 != name@ ==> #[trigger] final(self).group_model(n2) == old(
                            self,
                        ).group_model(n2)
                },
                Err(_) => {
                    &&& !(resolved_cfg(old(self).config@, name@).storage is Memory)
                    &&& forall|n2: Seq<char>| #[trigger]
                        final(self).group_model(n2) == old(self).group_model(n2)
                },
            },
    {
        let ghost m_old = *old(self);
        let (ccfg, cls) = self.get_config(name, now);
        let ei = match self.ensure_engine(&cls) {
            Ok(ei) => ei,
            Err(e) => {
                proof {
                    if old(self).group_loaded(name@) {
                        lemma_pairs_keys(
                            old(self).class_ids.deep_view(),
                            old(self).engines@.map_values(|en: Engine| en.model()),
                        );
                        let j2 = choose|j2: int|
                            0 <= j2 < old(self).class_ids.deep_view().len() && old(
                                self,
                            ).class_ids.deep_view()[j2] == cls@;
                        assert(old(self).class_ids@[j2]@ == cls@);
                    }
                }
                return Err(e);
            },
        };
        let ghost ks = self.class_ids.deep_view();
        let ghost vs = self.engines@.map_values(|e: Engine| e.model());
        let ghost mid = *self;
        let eng = self.engines.remove(ei);
        let cid = self.class_ids.remove(ei);
        proof {
            assert(eng.model() == m_old.eng_model(cls@));
            assert(group_of(eng.model(), name@) == m_old.group_model(name@));
        }
        let (eng, res) = eng.previews_at(name, &ccfg, size, now);
        self.class_ids.insert(ei, cid);
        self.engines.insert(ei, eng);
        proof {
            assert(self.class_ids.deep_view() =~= ks);
            assert(self.engines@.map_values(|e: Engine| e.model()) =~= vs.update(
                ei as int,
                eng.model(),
            ));
            self.lemma_after_engine_op(m_old, mid, ks, vs, ei as int, cls@, name@, eng.model());
        }
        match res {
            Ok(out) => {
                proof {
                    assert(final(self).group_model(name@) == eng.model()[name@]);
                }
                Ok(out)
            },
            Err(e) => {
                proof {
                    if resolved_cfg(m_old.config@, name@).storage is Memory {
                        assert(cls@ == "memory"@);
                        assert(mid.engines@[ei as int] is Memory);
                    }
                    if old(self).group_loaded(name@) {
                        assert(m_old.eng_model(cls@).contains_key(name@));
                    }
                }
                Err(e)
            },
        }
    }

    /// The names of every group any cached engine holds; for disk
    /// classes, buckets written by earlier runs are listed as well, on
    /// the store's word.
    pub fn groups(&self) -> (r: Vec<String>)
        requires
            self.inv(),
        ensures
            forall|jj: int, k: Seq<char>|
                0 <= jj < self.engines@.len() && (#[trigger] self.engines@[jj].model().contains_key(
                    k,
                )) ==> r.deep_view().contains(k),
    {
        let mut out: Vec<String> = Vec::new();
        let mut j: usize = 0;
        while j < self.engines.len()
            invariant
                j <= self.engines@.len(),
                self.inv(),
                forall|jj: int, k: Seq<char>|
                    0 <= jj < j && (#[trigger] self.engines@[jj].model().contains_key(k))
                        ==> out.deep_view().contains(k),
            decreases self.engines@.len() - j,
        {
            let ghost pre = out.deep_view();
            let mut names = self.engines[j].group_names();
            let ghost nv = names.deep_view();
            out.append(&mut names);
            proof {
                assert(out.deep_view() =~= pre + nv);
                assert forall|jj: int, k: Seq<char>|
                    0 <= jj < j + 1 && (#[trigger] self.engines@[jj].model().contains_key(
                        k,
                    )) implies out.deep_view().contains(k) by {
                    if jj < j {
                        let i = choose|i: int| 0 <= i < pre.len() && pre[i] == k;
                        assert(out.deep_view()[i] == k);
                    } else {
                        let i = choose|i: int| 0 <= i < nv.len() && nv[i] == k;
                        assert(out.deep_view()[pre.len() + i] == k);
                    }
                }
            }
            j = j + 1;
        }
        out
    }

    /// A well-formed router resolves every name to a well-formed group.
    pub proof fn inv_groups_wf(&self)
        requires
            self.inv(),
        ensures
            forall|n: Seq<char>| group_wf(#[trigger] self.group_model(n)),
    {
        let ks = self.class_ids.deep_view();
        let vs = self.engines@.map_values(|e: Engine| e.model());
        lemma_pairs_keys(ks, vs);
        assert forall|n: Seq<char>| group_wf(#[trigger] self.group_model(n)) by {
            let cls = spec_class_id(resolved_cfg(self.config@, n).storage);
            if pairs_map(ks, vs).contains_key(cls) {
                let j = choose|j: int| 0 <= j < ks.len() && ks[j] == cls;
                lemma_pairs_at(ks, vs, j);
                self.engines@[j].inv_groups_wf();
            } else {
                assert(group_of(Map::<Seq<char>, GroupV>::empty(), n) == GroupV::empty());
                assert(GroupV::empty().dom() =~= Set::<nat>::empty());
            }
        }
    }

    /// After one engine operation: the named group in the touched
    /// engine is the engine's view of it, and every other group of every
    /// class is as it was.
    proof fn lemma_after_engine_op(
        &self,
        m_old: Manager,
        mid: Manager,
        ks: Seq<Seq<char>>,
        vs: Seq<Map<Seq<char>, GroupV>>,
        ei: int,
        cls: Seq<char>,
        name: Seq<char>,
        newm: Map<Seq<char>, GroupV>,
    )
        requires
            mid.inv(),
            0 <= ei < ks.len(),
            ks == mid.class_ids.deep_view(),
            vs == mid.engines@.map_values(|e: Engine| e.model()),
            ks[ei] == cls,
            self.class_ids.deep_view() == ks,
            self.engines@.len() == mid.engines@.len(),
            self.engines@.map_values(|e: Engine| e.model()) == vs.update(ei, newm),
            self.config == mid.config,
            self.moments == mid.moments,
            forall|j: int| 0 <= j < self.engines@.len() ==> (#[trigger] self.engines@[j]).inv(),
            forall|j: int|
                0 <= j < self.engines@.len() ==> ((#[trigger] self.class_ids@[j]@) == "memory"@
                    ==> self.engines@[j] is Memory),
            // the touched engine only changed the named group
            forall|k: Seq<char>|
                k != name ==> (((#[trigger] newm.contains_key(k)) <==> vs[ei].contains_key(k)) && (
                newm.contains_key(k) ==> newm.index(k) == vs[ei].index(k))),
            // the middle state matches the starting state up to resolution
            forall|n2: Seq<char>| #[trigger]
                resolved_cfg(mid.config@, n2) == resolved_cfg(m_old.config@, n2),
            forall|c2: Seq<char>| #[trigger] mid.eng_model(c2) == m_old.eng_model(c2),
            cls == spec_class_id(resolved_cfg(m_old.config@, name).storage),
        ensures
            self.inv(),
            self.eng_model(cls) == newm,
            forall|n2: Seq<char>|
                n2 != name ==> #[trigger] self.group_model(n2) == m_old.group_model(n2),
            self.group_model(name) == group_of(newm, name),
    {
        lemma_pairs_update(ks, vs, ei, newm);
        lemma_pairs_keys(ks, vs);
        lemma_pairs_keys(ks, vs.update(ei, newm));
        lemma_pairs_at(ks, vs, ei);
        assert(pairs_map(ks, vs.update(ei, newm)) == pairs_map(ks, vs).insert(cls, newm));
        assert forall|c2: Seq<char>|
            c2 != cls implies #[trigger] self.eng_model(c2) == mid.eng_model(c2) by {}
        assert(self.eng_model(cls) == newm);
        assert forall|n2: Seq<char>|
            n2 != name implies #[trigger] self.group_model(n2) == m_old.group_model(n2) by {
            let c2 = spec_class_id(resolved_cfg(self.config@, n2).storage);
            assert(resolved_cfg(self.config@, n2) == resolved_cfg(m_old.config@, n2));
            if c2 == cls {
                assert(mid.eng_model(cls) == vs[ei]);
                assert(group_of(newm, n2) == group_of(vs[ei], n2));
            }
        }
    }
}

impl crate::config::Storage {
    /// Build the storage engine for this class: a table-per-group
    /// engine for the memory class, a persistent store for a disk
    /// class.  Only opening a persistent store can fail.
    pub fn backend(&self) -> (r: Result<Engine, StorageError>)
        ensures
            match r {
                Ok(e) => e.inv() && e.model() == Map::<Seq<char>, GroupV>::empty() && (
                *self is Memory ==> e is Memory),
                Err(_) => !(*self is Memory),
            },
    {
        let cls = self.class_id();
        proof {
            reveal_strlit("memory");
        }
        engine_for(cls.as_str())
    }
}

/// Build the engine for a storage-class identifier: the memory class
/// always succeeds; a disk class opens its persistent store, which can
/// fail.
fn engine_for(cls: &str) -> (r: Result<Engine, StorageError>)
    ensures
        match r {
            Ok(e) => e.inv() && e.model() == Map::<Seq<char>, GroupV>::empty() && (cls@
                == "memory"@ ==> e is Memory),
            Err(_) => cls@ != "memory"@,
        },
{
    if crate::mime::str_eq_str(cls, "memory") {
        proof {
            reveal_strlit("memory");
        }
        return Ok(Engine::Memory(Memory::new()));
    }
    if crate::mime::str_has_prefix(cls, "disk:") {
        let n = cls.unicode_len();
        proof {
            reveal_strlit("disk:");
        }
        let path = cls.substring_char(5, n);
        match DiskStore::new(path) {
            Ok(d) => {
                proof {
                    reveal_strlit("memory");
                    reveal_strlit("disk:");
                    assert(cls@[0] == "disk:"@[0]);
                }
                return Ok(Engine::Disk(d));
            },
            Err(e) => {
                proof {
                    reveal_strlit("memory");
                    reveal_strlit("disk:");
                    assert(cls@[0] == "disk:"@[0]);
                }
                return Err(e);
            },
        }
    }
    Ok(Engine::Memory(Memory::new()))
}

/// A scan that found the name at one position looked past no earlier
/// entry with it: the first-match lookup returns this entry.
pub proof fn lemma_lookup_first(c: Seq<(String, CategoryConfig)>, n: Seq<char>, j: int)
    requires
        0 <= j < c.len(),
        c[j].0@ == n,
        forall|i: int| 0 <= i < j ==> (#[trigger] c[i].0@) != n,
    ensures
        cfg_lookup(c, n) == Some(c[j].1),
    decreases c.len(),
{
    if j > 0 {
        let t = c.subrange(1, c.len() as int);
        assert forall|i: int| 0 <= i < j - 1 implies (#[trigger] t[i].0@) != n by {
            assert(t[i] == c[i + 1]);
        }
        assert(t[j - 1] == c[j]);
        lemma_lookup_first(t, n, j - 1);
    }
}

/// A scan that found the name nowhere leaves the lookup empty.
pub proof fn lemma_lookup_none(c: Seq<(String, CategoryConfig)>, n: Seq<char>)
    requires
        forall|i: int| 0 <= i < c.len() ==> (#[trigger] c[i].0@) != n,
    ensures
        cfg_lookup(c, n) is None,
    decreases c.len(),
{
    if c.len() > 0 {
        let t = c.subrange(1, c.len() as int);
        assert forall|i: int| 0 <= i < t.len() implies (#[trigger] t[i].0@) != n by {
            assert(t[i] == c[i + 1]);
        }
        lemma_lookup_none(t, n);
    }
}

} // verus!
