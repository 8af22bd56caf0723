//! The daemon core: shared state and request dispatch.
//!
//! The daemon serialises every cache operation behind one lock; this
//! module is the logic that runs under that lock.  It dispatches one
//! request into the shared state and hands back the response together
//! with the clipboard writes to perform and whether a shutdown was
//! requested; the socket loop, the live-capture loop and the clipboard
//! sink live outside.
use vstd::prelude::*;

use crate::backend::{
    clean_post, find_post, fresh_for, indices_bounded, opt_nat, opt_view, preview_post, push_post,
    select_post, touched, GroupV, Time,
};
use crate::clip::{body_eq, BodyV, Entry, EntryV};
use crate::config::{spec_clean_cfg, DaemonConfig, Moments};
use crate::disk::StorageError;
use crate::manager::{group_source, resolved_cfg, Manager};
use crate::message::{grp_view, Grp, Request, RequestV, Response, ResponseV, Wipe, WipeV};

verus! {

/// One pending write to the live clipboard: the entry to place and the
/// selection to place it on.
pub struct ClipWrite {
    pub entry: Entry,
    pub primary: bool,
}

/// Mathematical value of a pending clipboard write.
#[verifier::ext_equal]
pub struct WriteV {
    pub entry: EntryV,
    pub primary: bool,
}

impl View for ClipWrite {
    type V = WriteV;

    open spec fn view(&self) -> WriteV {
        WriteV { entry: self.entry@, primary: self.primary }
    }
}

/// The group name an optional request group resolves to, given the
/// configured fallback group.
pub open spec fn effective(g: Option<Seq<char>>, fallback: Option<Seq<char>>) -> Seq<char> {
    match g {
        Some(x) => x,
        None => match fallback {
            Some(x) => x,
            None => "default"@,
        },
    }
}

/// Whether the echo-suppression slot holds an entry with this body.
pub open spec fn ignore_matches(slot: Option<Entry>, e: EntryV) -> bool {
    match slot {
        Some(x) => body_eq(x@.body, e.body),
        None => false,
    }
}

/// The state all of the daemon's loops share under one lock: the
/// echo-suppression slot, the group router, and the fallback groups for
/// terminal requests and live captures.
pub struct Shared {
    pub ignore: Option<Entry>,
    pub backend: Manager,
    pub term_group: Grp,
    pub live_group: Grp,
}

impl Shared {
    /// The shared state's well-formedness.
    pub open spec fn wf(&self) -> bool {
        self.backend.inv()
    }

    /// Build the shared state from the daemon's configuration and the
    /// environment's fixed moments.
    pub fn new(cfg: DaemonConfig, moments: Moments) -> (r: Shared)
        ensures
            r.wf(),
            r.ignore is None,
            r.term_group == cfg.term_backend,
            r.live_group == cfg.live_backend,
            r.backend.moments == moments,
            forall|n: Seq<char>| #[trigger] r.backend.group_model(n) == GroupV::empty(),
    {
        Shared {
            ignore: None,
            backend: Manager::new(cfg.backends, moments),
            term_group: cfg.term_backend,
            live_group: cfg.live_backend,
        }
    }

    /// Resolve the group a terminal request addresses.
    pub fn group(&self, group: &Grp) -> (r: String)
        ensures
            r@ == effective(grp_view(group), grp_view(&self.term_group)),
    {
        match group {
            Some(g) => g.clone(),
            None => match &self.term_group {
                Some(t) => t.clone(),
                None => {
                    let mut out = String::new();
                    out.append("default");
                    proof {
                        assert(out@ =~= "default"@);
                    }
                    out
                },
            },
        }
    }
}

/// The daemon core: its behaviour flags and the shared state.
pub struct Daemon {
    pub kill: bool,
    pub live: bool,
    pub recopy: bool,
    pub shared: Shared,
}

/// Every group's history lies at or before `now`, with room for one
/// more index: the caller's clock has not run backwards.
pub open spec fn clock_ok(d: &Daemon, now: Time) -> bool {
    forall|n: Seq<char>|
        fresh_for(#[trigger] d.shared.backend.group_model(n), now) && indices_bounded(
            d.shared.backend.group_model(n),
        )
}

impl Daemon {
    /// The daemon's well-formedness.
    pub open spec fn wf(&self) -> bool {
        self.shared.wf()
    }

    /// Build the daemon core from its configuration and the
    /// environment's fixed moments.
    pub fn new(cfg: DaemonConfig, moments: Moments) -> (r: Daemon)
        ensures
            r.wf(),
            r.kill == cfg.kill,
            r.live == cfg.capture_live,
            r.recopy == cfg.recopy_live,
            r.shared.ignore is None,
            forall|n: Seq<char>| #[trigger] r.shared.backend.group_model(n) == GroupV::empty(),
    {
        let kill = cfg.kill;
        let live = cfg.capture_live;
        let recopy = cfg.recopy_live;
        Daemon { kill, live, recopy, shared: Shared::new(cfg, moments) }
    }

    /// The writes that clear both clipboard selections: one empty text
    /// entry per selection.  The cache is not touched.
    pub fn clear(&self) -> (w: Vec<ClipWrite>)
        ensures
            w@.len() == 2,
            w@[0]@.entry.body == BodyV::Text(Seq::<char>::empty()),
            w@[1]@.entry.body == BodyV::Text(Seq::<char>::empty()),
            w@[0]@.primary,
            !w@[1]@.primary,
    {
        let first = Entry::text(String::new(), None);
        let second = Entry::text(String::new(), None);
        let mut w: Vec<ClipWrite> = Vec::new();
        w.push(ClipWrite { entry: first, primary: true });
        w.push(ClipWrite { entry: second, primary: false });
        w
    }

    /// Store an entry and hand back the write that places it on the
    /// clipboard.  On success the entry is recorded in the
    /// echo-suppression slot, so the capture loop will not re-ingest
    /// this very write; a storage failure leaves every group and the
    /// slot untouched, and nothing is written.
    pub fn copy(&mut self, entry: Entry, primary: bool, group: Grp, index: Option<usize>, now: Time) -> (w:
        Result<ClipWrite, StorageError>)
        requires
            old(self).wf(),
            clock_ok(old(self), now),
        ensures
            final(self).wf(),
            old(self).shared.backend.group_loaded(
                effective(grp_view(&group), grp_view(&old(self).shared.term_group)),
            ) ==> w is Ok,
            ({
                let name = effective(grp_view(&group), grp_view(&old(self).shared.term_group));
                let pre = old(self).shared.backend;
                let post = final(self).shared.backend;
                let cfg = spec_clean_cfg(resolved_cfg(pre.config@, name), now, pre.moments);
                match w {
                    Ok(write) => {
                        &&& write@.entry == entry@
                        &&& write@.primary == primary
                        &&& ignore_matches(final(self).shared.ignore, entry@)
                        &&& (match index {
                            None => exists|g0: GroupV, g1: GroupV, r: nat|
                                #![trigger clean_post(g0, cfg, g1), push_post(g1, entry@, now, post.group_model(name), r)]
                                group_source(pre, name, now, g0) && fresh_for(g0, now)
                                    && indices_bounded(g0) && clean_post(g0, cfg, g1) && push_post(
                                    g1,
                                    entry@,
                                    now,
                                    post.group_model(name),
                                    r,
                                ),
                            Some(ix) => exists|g0: GroupV, g1: GroupV|
                                #![trigger clean_post(g0, cfg, g1)]
                                group_source(pre, name, now, g0) && clean_post(g0, cfg, g1)
                                    && post.group_model(name) == g1.insert(
                                    ix as nat,
                                    crate::backend::made(ix as nat, entry@, now),
                                ),
                        })
                        &&& forall|n2: Seq<char>|
                            n2 != name ==> #[trigger] post.group_model(n2) == pre.group_model(n2)
                    },
                    Err(_) => {
                        &&& !(resolved_cfg(pre.config@, name).storage is Memory)
                        &&& forall|n2: Seq<char>| #[trigger]
                            post.group_model(n2) == pre.group_model(n2)
                        &&& final(self).shared.ignore == old(self).shared.ignore
                    },
                }
            }),
            final(self).shared.term_group == old(self).shared.term_group,
            final(self).shared.live_group == old(self).shared.live_group,
            final(self).kill == old(self).kill,
            final(self).live == old(self).live,
            final(self).recopy == old(self).recopy,
    {
        let name = self.shared.group(&group);
        let stored = entry.duplicate();
        let res = match index {
            Some(ix) => self.shared.backend.put_at(name.as_str(), ix, stored, now),
            None => match self.shared.backend.push(name.as_str(), stored, now) {
                Ok(_) => Ok(()),
                Err(e) => Err(e),
            },
        };
        match res {
            Ok(_) => {
                let duplicate = entry.duplicate();
                self.shared.ignore = Some(entry);
                Ok(ClipWrite { entry: duplicate, primary })
            },
            Err(e) => Err(e),
        }
    }

    /// Decide what to do with a captured external clipboard event.  An
    /// empty entry, or one whose body matches the echo-suppression slot,
    /// is discarded without touching any group.  An accepted entry is
    /// pushed into the live-capture group; in recopy mode it is placed
    /// back onto the standard selection and becomes the new suppressed
    /// entry.  A storage failure drops the event and touches nothing.
    pub fn handle_capture(&mut self, entry: Entry, now: Time) -> (out: (Option<usize>, Option<
        ClipWrite,
    >))
        requires
            old(self).wf(),
            clock_ok(old(self), now),
        ensures
            final(self).wf(),
            (entry.body.spec_is_empty() || ignore_matches(old(self).shared.ignore, entry@))
                ==> (*final(self) == *old(self) && out.0 is None && out.1 is None),
            (!entry.body.spec_is_empty() && !ignore_matches(old(self).shared.ignore, entry@)) ==> ({
                let name = effective(
                    grp_view(&old(self).shared.live_group),
                    grp_view(&old(self).shared.live_group),
                );
                let pre = old(self).shared.backend;
                let post = final(self).shared.backend;
                let cfg = spec_clean_cfg(resolved_cfg(pre.config@, name), now, pre.moments);
                ||| ({
                    &&& out.0 is Some
                    &&& exists|g0: GroupV, g1: GroupV|
                        #![trigger clean_post(g0, cfg, g1)]
                        group_source(pre, name, now, g0) && fresh_for(g0, now) && indices_bounded(g0)
                            && clean_post(g0, cfg, g1) && push_post(
                            g1,
                            entry@,
                            now,
                            post.group_model(name),
                            out.0->0 as nat,
                        )
                    &&& forall|n2: Seq<char>|
                        n2 != name ==> #[trigger] post.group_model(n2) == pre.group_model(n2)
                    &&& old(self).recopy ==> (ignore_matches(final(self).shared.ignore, entry@)
                        && out.1 is Some && out.1->0@.entry == entry@ && !out.1->0@.primary)
                    &&& !old(self).recopy ==> (final(self).shared.ignore == old(self).shared.ignore
                        && out.1 is None)
                })
                ||| ({
                    &&& !(resolved_cfg(pre.config@, name).storage is Memory)
                    &&& out.0 is None
                    &&& out.1 is None
                    &&& final(self).shared.ignore == old(self).shared.ignore
                    &&& forall|n2: Seq<char>| #[trigger]
                        post.group_model(n2) == pre.group_model(n2)
                })
            }),
            final(self).shared.term_group == old(self).shared.term_group,
            final(self).shared.live_group == old(self).shared.live_group,
            final(self).recopy == old(self).recopy,
    {
        if entry.is_empty() {
            return (None, None);
        }
        let suppressed = match &self.shared.ignore {
            Some(slot) => slot.same(&entry),
            None => false,
        };
        if suppressed {
            return (None, None);
        }
        let name = match &self.shared.live_group {
            Some(g) => g.clone(),
            None => {
                let mut out = String::new();
                out.append("default");
                proof {
                    assert(out@ =~= "default"@);
                }
                out
            },
        };
        let idx = match self.shared.backend.push(name.as_str(), entry.duplicate(), now) {
            Ok(idx) => idx,
            Err(_) => {
                return (None, None);
            },
        };
        if self.recopy {
            let write = ClipWrite { entry: entry.duplicate(), primary: false };
            self.shared.ignore = Some(entry);
            (Some(idx), Some(write))
        } else {
            (Some(idx), None)
        }
    }

    /// Dispatch one request against the shared state: the response to
    /// send back, the clipboard writes to perform once the lock is
    /// released, and whether a shutdown was requested.  No request fails
    /// the process: an absent index or a storage failure comes back as a
    /// structured error.
    pub fn process_request(&mut self, req: Request, now: Time) -> (out: (Response, Vec<ClipWrite>, bool))
        requires
            old(self).wf(),
            clock_ok(old(self), now),
        ensures
            final(self).wf(),
            final(self).kill == old(self).kill,
            final(self).live == old(self).live,
            final(self).recopy == old(self).recopy,
            final(self).shared.term_group == old(self).shared.term_group,
            final(self).shared.live_group == old(self).shared.live_group,
            dispatch_post(
                *old(self),
                req@,
                now,
                *final(self),
                out.0@,
                out.1@.map_values(|w: ClipWrite| w@),
                out.2,
            ),
    {
        match req {
            Request::Ping => {
                let ws: Vec<ClipWrite> = Vec::new();
                proof {
                    assert(ws@.map_values(|w: ClipWrite| w@) =~= Seq::<WriteV>::empty());
                }
                (Response::Okay, ws, false)
            },
            Request::Stop => {
                let ws: Vec<ClipWrite> = Vec::new();
                proof {
                    assert(ws@.map_values(|w: ClipWrite| w@) =~= Seq::<WriteV>::empty());
                }
                (Response::Okay, ws, true)
            },
            Request::Clear => {
                let ws = self.clear();
                (Response::Okay, ws, false)
            },
            Request::Groups => {
                let groups = self.shared.backend.groups();
                let ws: Vec<ClipWrite> = Vec::new();
                proof {
                    assert(ws@.map_values(|w: ClipWrite| w@) =~= Seq::<WriteV>::empty());
                }
                (Response::Groups { groups }, ws, false)
            },
            Request::Copy { entry, primary, group, index } => {
                match self.copy(entry, primary, group, index, now) {
                    Ok(w) => {
                        let mut ws: Vec<ClipWrite> = Vec::new();
                        ws.push(w);
                        proof {
                            assert(ws@.map_values(|x: ClipWrite| x@) =~= seq![ws@[0]@]);
                        }
                        (Response::Okay, ws, false)
                    },
                    Err(_) => {
                        let ws: Vec<ClipWrite> = Vec::new();
                        proof {
                            assert(ws@.map_values(|w: ClipWrite| w@) =~= Seq::<WriteV>::empty());
                        }
                        (Response::error(storage_message()), ws, false)
                    },
                }
            },
            Request::Select { index, primary, group } => {
                let ghost pre_d = *old(self);
                let name = self.shared.group(&group);
                let ghost name_v = name@;
                let ghost cfg_v = spec_clean_cfg(
                    resolved_cfg(pre_d.shared.backend.config@, name_v),
                    now,
                    pre_d.shared.backend.moments,
                );
                let picked = self.shared.backend.select(name.as_str(), Some(index), now);
                let ghost mid_d = *self;
                match picked {
                    Ok(found) => {
                        let ghost rv = opt_view(found);
                        match found {
                            Some(record) => {
                                proof {
                                    let (g0, g1) = choose|g0: GroupV, g1: GroupV|
                                        #![trigger clean_post(g0, cfg_v, g1)]
                                        group_source(pre_d.shared.backend, name_v, now, g0)
                                            && fresh_for(g0, now) && clean_post(g0, cfg_v, g1)
                                            && select_post(
                                            g1,
                                            opt_nat(Some(index)),
                                            now,
                                            mid_d.shared.backend.group_model(name_v),
                                            rv,
                                        );
                                    crate::memory::lemma_clean_keeps(g0, cfg_v, g1);
                                    assert(g1.contains_key(index as nat));
                                    assert(record@ == g1[index as nat]);
                                    assert(record@.index == index as nat);
                                    assert forall|n2: Seq<char>|
                                        fresh_for(
                                            #[trigger] mid_d.shared.backend.group_model(n2),
                                            now,
                                        ) && indices_bounded(
                                            mid_d.shared.backend.group_model(n2),
                                        ) by {
                                        if n2 == name_v {
                                            let m2 = mid_d.shared.backend.group_model(name_v);
                                            assert(m2 == g1.insert(
                                                index as nat,
                                                touched(g1[index as nat], now),
                                            ));
                                            assert forall|k: nat| #[trigger]
                                                m2.contains_key(k) implies m2[k].entry_date <= now
                                                && k < usize::MAX as nat by {
                                                assert(g1.contains_key(k));
                                                assert(g0.contains_key(k));
                                            }
                                        }
                                    }
                                    assert(clock_ok(&mid_d, now));
                                }
                                match self.copy(record.entry, primary, group, None, now) {
                                    Ok(w) => {
                                        let mut ws: Vec<ClipWrite> = Vec::new();
                                        ws.push(w);
                                        proof {
                                            assert(ws@.map_values(|x: ClipWrite| x@) =~= seq![
                                                ws@[0]@,
                                            ]);
                                        }
                                        (Response::Okay, ws, false)
                                    },
                                    Err(_) => {
                                        proof {
                                            assert(false);
                                        }
                                        let ws: Vec<ClipWrite> = Vec::new();
                                        (Response::error(storage_message()), ws, false)
                                    },
                                }
                            },
                            None => {
                                let ws: Vec<ClipWrite> = Vec::new();
                                proof {
                                    assert(ws@.map_values(|w: ClipWrite| w@) =~= Seq::<
                                        WriteV,
                                    >::empty());
                                }
                                (Response::error(missing_message()), ws, false)
                            },
                        }
                    },
                    Err(_) => {
                        let ws: Vec<ClipWrite> = Vec::new();
                        proof {
                            assert(ws@.map_values(|w: ClipWrite| w@) =~= Seq::<WriteV>::empty());
                        }
                        (Response::error(storage_message()), ws, false)
                    },
                }
            },
            Request::List { length, group } => {
                let name = self.shared.group(&group);
                let ws: Vec<ClipWrite> = Vec::new();
                proof {
                    assert(ws@.map_values(|w: ClipWrite| w@) =~= Seq::<WriteV>::empty());
                }
                match self.shared.backend.previews(name.as_str(), length, now) {
                    Ok(rows) => (Response::Previews { previews: rows }, ws, false),
                    Err(_) => (Response::error(storage_message()), ws, false),
                }
            },
            Request::Delete { index, group } => {
                let name = self.shared.group(&group);
                let ws: Vec<ClipWrite> = Vec::new();
                proof {
                    assert(ws@.map_values(|w: ClipWrite| w@) =~= Seq::<WriteV>::empty());
                }
                let resp = self.remove_single(&name, index, now);
                (resp, ws, false)
            },
            Request::Find { index, group } => {
                let name = self.shared.group(&group);
                let ws: Vec<ClipWrite> = Vec::new();
                proof {
                    assert(ws@.map_values(|w: ClipWrite| w@) =~= Seq::<WriteV>::empty());
                }
                match self.shared.backend.find(name.as_str(), index, now) {
                    Ok(Some(record)) => {
                        let ix = record.index;
                        (Response::Entry { entry: record.entry, index: ix }, ws, false)
                    },
                    Ok(None) => (Response::error(missing_message()), ws, false),
                    Err(_) => (Response::error(storage_message()), ws, false),
                }
            },
            Request::Wipe { wipe, group } => {
                let name = self.shared.group(&group);
                let ws: Vec<ClipWrite> = Vec::new();
                proof {
                    assert(ws@.map_values(|w: ClipWrite| w@) =~= Seq::<WriteV>::empty());
                }
                match wipe {
                    Wipe::All => match self.shared.backend.clear_group(name.as_str(), now) {
                        Ok(_) => (Response::Okay, ws, false),
                        Err(_) => (Response::error(storage_message()), ws, false),
                    },
                    Wipe::Single { index } => {
                        let resp = self.remove_single(&name, index, now);
                        (resp, ws, false)
                    },
                }
            },
        }
    }

    /// Delete one record by index: acknowledged when it was present
    /// after cleaning, a structured error when it was absent or the
    /// store failed.
    fn remove_single(&mut self, name: &String, index: usize, now: Time) -> (resp: Response)
        requires
            old(self).wf(),
            clock_ok(old(self), now),
        ensures
            final(self).wf(),
            final(self).kill == old(self).kill,
            final(self).live == old(self).live,
            final(self).recopy == old(self).recopy,
            final(self).shared.term_group == old(self).shared.term_group,
            final(self).shared.live_group == old(self).shared.live_group,
            final(self).shared.ignore == old(self).shared.ignore,
            wipe_single_post(
                *old(self),
                name@,
                spec_clean_cfg(
                    resolved_cfg(old(self).shared.backend.config@, name@),
                    now,
                    old(self).shared.backend.moments,
                ),
                index as nat,
                now,
                *final(self),
                resp@,
                Seq::<WriteV>::empty(),
                false,
            ) || store_failed(
                *old(self),
                *final(self),
                resp@,
                Seq::<WriteV>::empty(),
                false,
                name@,
            ),
    {
        match self.shared.backend.find(name.as_str(), Some(index), now) {
            Ok(Some(_)) => {
                match self.shared.backend.delete(name.as_str(), index, now) {
                    Ok(_) => Response::Okay,
                    Err(_) => {
                        proof {
                            assert(false);
                        }
                        Response::error(storage_message())
                    },
                }
            },
            Ok(None) => Response::error(missing_message()),
            Err(_) => Response::error(storage_message()),
        }
    }
}

/// The error text for an absent index.
fn missing_message() -> (r: String)
    ensures
        r@ == "no record under that index"@,
{
    let mut msg = String::new();
    msg.append("no record under that index");
    proof {
        assert(msg@ =~= "no record under that index"@);
    }
    msg
}

/// The error text for a storage-engine failure.
fn storage_message() -> (r: String)
    ensures
        r@ == "storage failure"@,
{
    let mut msg = String::new();
    msg.append("storage failure");
    proof {
        assert(msg@ =~= "storage failure"@);
    }
    msg
}

/// What a storage failure leaves behind: a structured error response,
/// no writes, no shutdown, every group as it was, the suppression slot
/// untouched — and it can only happen for a disk storage class.
pub open spec fn store_failed(
    pre: Daemon,
    post: Daemon,
    resp: ResponseV,
    writes: Seq<WriteV>,
    stop: bool,
    name: Seq<char>,
) -> bool {
    &&& resp is Error
    &&& writes.len() == 0
    &&& !stop
    &&& !(resolved_cfg(pre.shared.backend.config@, name).storage is Memory)
    &&& forall|n2: Seq<char>| #[trigger]
        post.shared.backend.group_model(n2) == pre.shared.backend.group_model(n2)
    &&& post.shared.ignore == pre.shared.ignore
}

/// What dispatching one request guarantees, stated per request kind.
/// `pre` and `post` are the daemon before and after, `resp` the
/// response, `writes` the clipboard writes to perform, `stop` whether a
/// shutdown was requested.  Every arm that touches a store also admits
/// the storage-failure outcome, which only a disk class can produce.
pub open spec fn dispatch_post(
    pre: Daemon,
    req: RequestV,
    now: Time,
    post: Daemon,
    resp: ResponseV,
    writes: Seq<WriteV>,
    stop: bool,
) -> bool {
    match req {
        RequestV::Ping => resp is Okay && writes.len() == 0 && !stop && post == pre,
        RequestV::Stop => resp is Okay && writes.len() == 0 && stop && post == pre,
        RequestV::Clear => {
            &&& resp is Okay
            &&& !stop
            &&& writes.len() == 2
            &&& writes[0].entry.body == BodyV::Text(Seq::<char>::empty())
            &&& writes[1].entry.body == BodyV::Text(Seq::<char>::empty())
            &&& writes[0].primary
            &&& !writes[1].primary
            &&& post == pre
        },
        RequestV::Groups => resp is Groups && writes.len() == 0 && !stop && post == pre,
        RequestV::Copy { entry, primary, group, index } => {
            let name = effective(group, grp_view(&pre.shared.term_group));
            let cfg = spec_clean_cfg(
                resolved_cfg(pre.shared.backend.config@, name),
                now,
                pre.shared.backend.moments,
            );
            ||| ({
                &&& resp is Okay
                &&& !stop
                &&& writes.len() == 1
                &&& writes[0].entry == entry
                &&& writes[0].primary == primary
                &&& ignore_matches(post.shared.ignore, entry)
                &&& (match index {
                    None => exists|g0: GroupV, g1: GroupV, r: nat|
                        #![trigger clean_post(g0, cfg, g1), push_post(g1, entry, now, post.shared.backend.group_model(name), r)]
                        group_source(pre.shared.backend, name, now, g0) && fresh_for(g0, now)
                            && indices_bounded(g0) && clean_post(g0, cfg, g1) && push_post(
                            g1,
                            entry,
                            now,
                            post.shared.backend.group_model(name),
                            r,
                        ),
                    Some(ix) => exists|g0: GroupV, g1: GroupV|
                        #![trigger clean_post(g0, cfg, g1)]
                        group_source(pre.shared.backend, name, now, g0) && clean_post(g0, cfg, g1)
                            && post.shared.backend.group_model(name) == g1.insert(
                            ix,
                            crate::backend::made(ix, entry, now),
                        ),
                })
                &&& forall|n2: Seq<char>|
                    n2 != name ==> #[trigger] post.shared.backend.group_model(n2)
                        == pre.shared.backend.group_model(n2)
            })
            ||| store_failed(pre, post, resp, writes, stop, name)
        },
        RequestV::Select { index, primary, group } => {
            let name = effective(group, grp_view(&pre.shared.term_group));
            let cfg = spec_clean_cfg(
                resolved_cfg(pre.shared.backend.config@, name),
                now,
                pre.shared.backend.moments,
            );
            ||| ({
                &&& !stop
                &&& exists|g0: GroupV, g1: GroupV|
                    #![trigger clean_post(g0, cfg, g1)]
                    group_source(pre.shared.backend, name, now, g0) && fresh_for(g0, now)
                        && clean_post(g0, cfg, g1) && (if g1.contains_key(index) {
                        &&& resp is Okay
                        &&& writes.len() == 1
                        &&& writes[0].entry == g1[index].entry
                        &&& writes[0].primary == primary
                        &&& ignore_matches(post.shared.ignore, g1[index].entry)
                        &&& exists|g2: GroupV, r2: nat|
                            #![trigger clean_post(g1.insert(index, touched(g1[index], now)), cfg, g2), push_post(g2, g1[index].entry, now, post.shared.backend.group_model(name), r2)]
                            clean_post(g1.insert(index, touched(g1[index], now)), cfg, g2)
                                && push_post(
                                g2,
                                g1[index].entry,
                                now,
                                post.shared.backend.group_model(name),
                                r2,
                            )
                    } else {
                        &&& resp is Error
                        &&& writes.len() == 0
                    })
                &&& forall|n2: Seq<char>|
                    n2 != name ==> #[trigger] post.shared.backend.group_model(n2)
                        == pre.shared.backend.group_model(n2)
            })
            ||| store_failed(pre, post, resp, writes, stop, name)
        },
        RequestV::List { length, group } => {
            let name = effective(group, grp_view(&pre.shared.term_group));
            let cfg = spec_clean_cfg(
                resolved_cfg(pre.shared.backend.config@, name),
                now,
                pre.shared.backend.moments,
            );
            ||| ({
                &&& !stop
                &&& writes.len() == 0
                &&& exists|g0: GroupV, g1: GroupV|
                    #![trigger clean_post(g0, cfg, g1)]
                    group_source(pre.shared.backend, name, now, g0) && clean_post(g0, cfg, g1) && (
                    resp matches ResponseV::Previews { previews } && preview_post(
                        g1,
                        length,
                        previews,
                    )) && post.shared.backend.group_model(name) == g1
                &&& forall|n2: Seq<char>|
                    n2 != name ==> #[trigger] post.shared.backend.group_model(n2)
                        == pre.shared.backend.group_model(n2)
            })
            ||| store_failed(pre, post, resp, writes, stop, name)
        },
        RequestV::Delete { index, group } => {
            let name = effective(group, grp_view(&pre.shared.term_group));
            let cfg = spec_clean_cfg(
                resolved_cfg(pre.shared.backend.config@, name),
                now,
                pre.shared.backend.moments,
            );
            ||| wipe_single_post(pre, name, cfg, index, now, post, resp, writes, stop)
            ||| store_failed(pre, post, resp, writes, stop, name)
        },
        RequestV::Find { index, group } => {
            let name = effective(group, grp_view(&pre.shared.term_group));
            let cfg = spec_clean_cfg(
                resolved_cfg(pre.shared.backend.config@, name),
                now,
                pre.shared.backend.moments,
            );
            ||| ({
                &&& !stop
                &&& writes.len() == 0
                &&& exists|g0: GroupV, g1: GroupV|
                    #![trigger clean_post(g0, cfg, g1)]
                    group_source(pre.shared.backend, name, now, g0) && clean_post(g0, cfg, g1)
                        && post.shared.backend.group_model(name) == g1 && ((exists|rec:
                        crate::backend::RecordV|
                        find_post(g1, index, Some(rec)) && resp == (ResponseV::Entry {
                            entry: rec.entry,
                            index: rec.index,
                        })) || (find_post(g1, index, None) && resp is Error))
                &&& forall|n2: Seq<char>|
                    n2 != name ==> #[trigger] post.shared.backend.group_model(n2)
                        == pre.shared.backend.group_model(n2)
            })
            ||| store_failed(pre, post, resp, writes, stop, name)
        },
        RequestV::Wipe { wipe, group } => {
            let name = effective(group, grp_view(&pre.shared.term_group));
            let cfg = spec_clean_cfg(
                resolved_cfg(pre.shared.backend.config@, name),
                now,
                pre.shared.backend.moments,
            );
            match wipe {
                WipeV::All => {
                    ||| ({
                        &&& resp is Okay
                        &&& !stop
                        &&& writes.len() == 0
                        &&& post.shared.backend.group_model(name) == GroupV::empty()
                        &&& forall|n2: Seq<char>|
                            n2 != name ==> #[trigger] post.shared.backend.group_model(n2)
                                == pre.shared.backend.group_model(n2)
                    })
                    ||| store_failed(pre, post, resp, writes, stop, name)
                },
                WipeV::Single { index } => {
                    ||| wipe_single_post(pre, name, cfg, index, now, post, resp, writes, stop)
                    ||| store_failed(pre, post, resp, writes, stop, name)
                },
            }
        },
    }
}

/// Deleting one record by index, as `Delete` and `Wipe` with a single
/// index both do: after cleaning, a present index is removed (under a
/// second clean) and acknowledged; an absent index leaves the group as
/// cleaned and comes back as a structured error.
pub open spec fn wipe_single_post(
    pre: Daemon,
    name: Seq<char>,
    cfg: crate::backend::CleanCfg,
    index: nat,
    now: Time,
    post: Daemon,
    resp: ResponseV,
    writes: Seq<WriteV>,
    stop: bool,
) -> bool {
    &&& !stop
    &&& writes.len() == 0
    &&& exists|g0: GroupV, g1: GroupV|
        #![trigger clean_post(g0, cfg, g1)]
        group_source(pre.shared.backend, name, now, g0) && clean_post(g0, cfg, g1) && (if g1.contains_key(
            index,
        ) {
            &&& resp is Okay
            &&& exists|g2: GroupV|
                #[trigger] clean_post(g1, cfg, g2) && post.shared.backend.group_model(name)
                    == g2.remove(index)
        } else {
            &&& resp is Error
            &&& post.shared.backend.group_model(name) == g1
        })
    &&& forall|n2: Seq<char>|
        n2 != name ==> #[trigger] post.shared.backend.group_model(n2)
            == pre.shared.backend.group_model(n2)
}

} // verus!
