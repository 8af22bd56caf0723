//! The laws of the group store: what any conforming engine guarantees
//! about pushes, eviction and recency, proved from the operation
//! contracts alone.
use vstd::prelude::*;

use crate::backend::{
    bound_of, clean_post, find_post, has_body, latest_post, made, next_index_is,
    push_post, select_post, touched, valid_keys, CleanCfg, GroupV, RecordV, Time,
};
use crate::clip::{body_eq, EntryV};

verus! {

/// Pushing the same entry twice into an empty group yields exactly one
/// record, and both pushes return the same index.
pub proof fn lemma_push_dedup(
    e: EntryV,
    n1: Time,
    n2: Time,
    m1: GroupV,
    r1: nat,
    m2: GroupV,
    r2: nat,
)
    requires
        push_post(GroupV::empty(), e, n1, m1, r1),
        push_post(m1, e, n2, m2, r2),
    ensures
        r2 == r1,
        m2.dom() =~= set![r1],
        body_eq(m2[r1].entry.body, e.body),
{
    assert(!has_body(GroupV::empty(), e));
    assert(r1 == 0) by {
        assert(next_index_is(GroupV::empty(), r1));
        if r1 != 0 {
            assert(GroupV::empty().contains_key((r1 - 1) as nat));
        }
    }
    assert(m1 == GroupV::empty().insert(0, made(0, e, n1)));
    assert(m1.contains_key(0) && body_eq(m1[0].entry.body, e.body));
    assert(has_body(m1, e));
    assert(r2 == 0) by {
        assert(m1.contains_key(r2));
        if r2 != 0 {
            assert(GroupV::empty().contains_key(r2));
        }
    }
    assert(m2 == m1.insert(0, touched(m1[0], n2)));
}

/// A push of a body not yet present allocates a fresh index, strictly
/// above every index the group has ever held on to.
pub proof fn lemma_push_fresh_index(m: GroupV, e: EntryV, now: Time, m2: GroupV, r: nat)
    requires
        push_post(m, e, now, m2, r),
        !has_body(m, e),
    ensures
        !m.contains_key(r),
        forall|k: nat| #[trigger] m.contains_key(k) ==> k < r,
        m2.contains_key(r),
{
}

/// Two successive pushes of distinct new bodies return strictly
/// increasing indices: indices are never reused while records remain.
pub proof fn lemma_push_monotonic(
    m: GroupV,
    e1: EntryV,
    n1: Time,
    m1: GroupV,
    r1: nat,
    e2: EntryV,
    n2: Time,
    m2: GroupV,
    r2: nat,
)
    requires
        push_post(m, e1, n1, m1, r1),
        !has_body(m, e1),
        push_post(m1, e2, n2, m2, r2),
        !has_body(m1, e2),
    ensures
        r2 > r1,
{
    assert(m1.contains_key(r1));
}

/// Pushing three distinct bodies in order into an empty group capped at
/// two entries and then cleaning evicts exactly the first, least
/// recently used record: the later two survive untouched.
pub proof fn lemma_evict_by_count(
    a: EntryV,
    b: EntryV,
    c: EntryV,
    n1: Time,
    n2: Time,
    n3: Time,
    m1: GroupV,
    r1: nat,
    m2: GroupV,
    r2: nat,
    m3: GroupV,
    r3: nat,
    m4: GroupV,
    cfg: CleanCfg,
)
    requires
        !body_eq(a.body, b.body),
        !body_eq(a.body, c.body),
        !body_eq(b.body, c.body),
        1 <= n1 <= n2 <= n3,
        cfg == (CleanCfg { fixed: None, dynamic: None, max_entries: Some(2usize) }),
        push_post(GroupV::empty(), a, n1, m1, r1),
        push_post(m1, b, n2, m2, r2),
        push_post(m2, c, n3, m3, r3),
        clean_post(m3, cfg, m4),
    ensures
        !m4.contains_key(r1),
        m4.contains_key(r2) && m4[r2] == made(r2, b, n2),
        m4.contains_key(r3) && m4[r3] == made(r3, c, n3),
        m4.dom() =~= set![r2, r3],
{
    // The three pushes build the concrete three-record group.
    assert(!has_body(GroupV::empty(), a));
    assert(r1 == 0) by {
        if r1 != 0 {
            assert(GroupV::empty().contains_key((r1 - 1) as nat));
        }
    }
    assert(m1 == GroupV::empty().insert(0, made(0, a, n1)));
    assert(!has_body(m1, b)) by {
        if has_body(m1, b) {
            let k = choose|k: nat| #[trigger] m1.contains_key(k) && body_eq(m1[k].entry.body, b.body);
            assert(k == 0);
        }
    }
    assert(r2 == 1) by {
        assert(next_index_is(m1, r2));
        assert(m1.contains_key(0));
        if r2 == 0 {
        } else {
            assert(m1.contains_key((r2 - 1) as nat));
            assert((r2 - 1) as nat == 0);
        }
    }
    assert(m2 == m1.insert(1, made(1, b, n2)));
    assert(!has_body(m2, c)) by {
        if has_body(m2, c) {
            let k = choose|k: nat| #[trigger] m2.contains_key(k) && body_eq(m2[k].entry.body, c.body);
            assert(k == 0 || k == 1);
        }
    }
    assert(r3 == 2) by {
        assert(next_index_is(m2, r3));
        assert(m2.contains_key(1));
        if r3 == 0 {
        } else {
            assert(m2.contains_key((r3 - 1) as nat));
            assert((r3 - 1) as nat == 0 || (r3 - 1) as nat == 1);
        }
    }
    assert(m3 == m2.insert(2, made(2, c, n3)));
    // Nothing is expired, so the expiry phase keeps all three records.
    let valid = m3.restrict(valid_keys(m3, cfg));
    assert(valid_keys(m3, cfg) =~= m3.dom());
    assert(valid =~= m3);
    assert(m3.dom() =~= set![0nat, 1nat, 2nat]);
    assert(valid.dom().len() == 3) by {
        assert(set![0nat, 1nat, 2nat].len() == 3) by {
            assert(set![0nat, 1nat, 2nat] =~= Set::empty().insert(0nat).insert(1nat).insert(2nat));
            vstd::set::axiom_set_insert_len(Set::empty().insert(0nat).insert(1nat), 2nat);
            vstd::set::axiom_set_insert_len(Set::empty().insert(0nat), 1nat);
            vstd::set::axiom_set_insert_len(Set::<nat>::empty(), 0nat);
            assert(Set::<nat>::empty().len() == 0);
        }
    }
    // The capacity phase must evict the oldest record, which is the
    // first: every survivor is newer by last use, ties to the index.
    assert(!m4.contains_key(0)) by {
        if m4.contains_key(0) {
            assert(m4.dom().len() == 2);
            let out = choose|k: nat| valid.contains_key(k) && !m4.contains_key(k);
            assert(exists|k: nat| valid.contains_key(k) && !m4.contains_key(k)) by {
                if m4.contains_key(1) && m4.contains_key(2) {
                    assert(m4.dom() =~= set![0nat, 1nat, 2nat]);
                    assert(m4.dom().len() == 3);
                } else if !m4.contains_key(1) {
                    assert(valid.contains_key(1) && !m4.contains_key(1));
                } else {
                    assert(valid.contains_key(2) && !m4.contains_key(2));
                }
            }
            assert(crate::backend::older(valid[out], valid[0nat]));
        }
    }
    assert(m4.dom() =~= set![1nat, 2nat]) by {
        assert(m4.dom().subset_of(set![1nat, 2nat]));
        assert(m4.contains_key(1)) by {
            if !m4.contains_key(1) {
                vstd::set_lib::lemma_len_subset(m4.dom(), set![2nat]);
                assert(set![2nat].len() == 1) by {
                    assert(set![2nat] =~= Set::empty().insert(2nat));
                    vstd::set::axiom_set_insert_len(Set::<nat>::empty(), 2nat);
                    assert(Set::<nat>::empty().len() == 0);
                }
            }
        }
        assert(m4.contains_key(2)) by {
            if !m4.contains_key(2) {
                vstd::set_lib::lemma_len_subset(m4.dom(), set![1nat]);
                assert(set![1nat].len() == 1) by {
                    assert(set![1nat] =~= Set::empty().insert(1nat));
                    vstd::set::axiom_set_insert_len(Set::<nat>::empty(), 1nat);
                    assert(Set::<nat>::empty().len() == 0);
                }
            }
        }
    }
}

/// With no entry cap, a cleanup pass removes every record whose last use
/// is at or before a configured bound and keeps, unchanged, every record
/// whose last use is past both bounds.
pub proof fn lemma_evict_by_age(m: GroupV, cfg: CleanCfg, m2: GroupV, stale: nat, live: nat)
    requires
        clean_post(m, cfg, m2),
        cfg.max_entries is None,
        m.contains_key(stale),
        m[stale].last_used <= bound_of(cfg.fixed) || m[stale].last_used <= bound_of(cfg.dynamic),
        m.contains_key(live),
        m[live].last_used > bound_of(cfg.fixed),
        m[live].last_used > bound_of(cfg.dynamic),
    ensures
        !m2.contains_key(stale),
        m2.contains_key(live),
        m2[live] == m[live],
{
    assert(valid_keys(m, cfg).contains(live));
}

/// Pushing two distinct bodies and then selecting the first by index
/// makes the first the latest record of the group: selection refreshes
/// recency.
pub proof fn lemma_select_refreshes(
    a: EntryV,
    b: EntryV,
    n1: Time,
    n2: Time,
    n3: Time,
    m1: GroupV,
    r1: nat,
    m2: GroupV,
    r2: nat,
    m3: GroupV,
    picked: Option<RecordV>,
    l: Option<RecordV>,
)
    requires
        !body_eq(a.body, b.body),
        n1 <= n2 < n3,
        push_post(GroupV::empty(), a, n1, m1, r1),
        push_post(m1, b, n2, m2, r2),
        select_post(m2, Some(r1), n3, m3, picked),
        latest_post(m3, l),
    ensures
        picked == Some(made(r1, a, n1)),
        l == Some(touched(made(r1, a, n1), n3)),
        l.unwrap().entry == a,
{
    assert(!has_body(GroupV::empty(), a));
    assert(r1 == 0) by {
        if r1 != 0 {
            assert(GroupV::empty().contains_key((r1 - 1) as nat));
        }
    }
    assert(m1 == GroupV::empty().insert(0, made(0, a, n1)));
    assert(!has_body(m1, b)) by {
        if has_body(m1, b) {
            let k = choose|k: nat| #[trigger] m1.contains_key(k) && body_eq(m1[k].entry.body, b.body);
            assert(k == 0);
        }
    }
    assert(r2 == 1) by {
        assert(next_index_is(m1, r2));
        assert(m1.contains_key(0));
        if r2 != 0 {
            assert(m1.contains_key((r2 - 1) as nat));
            assert((r2 - 1) as nat == 0);
        }
    }
    assert(m2 == m1.insert(1, made(1, b, n2)));
    assert(m2.contains_key(0));
    match picked {
        Some(rec) => {
            assert(rec == m2[0]);
            assert(m3 == m2.insert(0, touched(m2[0], n3)));
            match l {
                Some(top) => {
                    assert(m3.contains_key(top.index));
                    if top.index != 0 {
                        assert(top.index == 1);
                        assert(m3.contains_key(0nat));
                        assert(crate::backend::older(m3[0nat], top));
                        assert(m3[0nat].last_used == n3);
                        assert(top == m3[1nat]);
                        assert(top.last_used == n2);
                        assert(false);
                    }
                    assert(top == m3[0nat]);
                },
                None => {
                    assert(m3.contains_key(0));
                },
            }
        },
        None => {
            assert(find_post(m2, Some(r1), None));
        },
    }
}

/// Serialized operations on two distinct groups are isolated.  An
/// operation whose effect is confined to group `a` and a following one
/// confined to group `b` leave each other's group exactly as they found
/// it: the second cannot disturb the first group's records or its index
/// space, and the first never saw the second's.  With the push contract,
/// which draws each new index from its own group's contents alone, two
/// pushes into distinct groups can neither collide on a shared index
/// space nor leak records across groups.
pub proof fn lemma_concurrent_group_isolation(
    m0: crate::manager::Manager,
    m1: crate::manager::Manager,
    m2: crate::manager::Manager,
    a: Seq<char>,
    b: Seq<char>,
)
    requires
        a != b,
        forall|n: Seq<char>| n != a ==> #[trigger] m1.group_model(n) == m0.group_model(n),
        forall|n: Seq<char>| n != b ==> #[trigger] m2.group_model(n) == m1.group_model(n),
    ensures
        m2.group_model(a) == m1.group_model(a),
        m1.group_model(b) == m0.group_model(b),
        forall|k: nat| #[trigger]
            m1.group_model(a).contains_key(k) ==> m2.group_model(a).contains_key(k)
                && m2.group_model(a)[k] == m1.group_model(a)[k],
{
}

/// A chain of pushes into one group: each step pushes a body the group
/// does not yet hold.  `ms` are the successive group values, `es` the
/// entries, `ns` the moments, `rs` the returned indices.
pub open spec fn push_chain(ms: Seq<GroupV>, es: Seq<EntryV>, ns: Seq<Time>, rs: Seq<nat>) -> bool {
    &&& ms.len() == es.len() + 1
    &&& ns.len() == es.len()
    &&& rs.len() == es.len()
    &&& forall|i: int|
        0 <= i < es.len() ==> (#[trigger] push_post(ms[i], es[i], ns[i], ms[i + 1], rs[i])
            && !has_body(ms[i], es[i]))
}

/// An index handed out by one push of a chain is still present in every
/// later group of the chain.
pub proof fn lemma_chain_keeps(
    ms: Seq<GroupV>,
    es: Seq<EntryV>,
    ns: Seq<Time>,
    rs: Seq<nat>,
    i: int,
    k: int,
)
    requires
        push_chain(ms, es, ns, rs),
        0 <= i < rs.len(),
        i < k <= es.len(),
    ensures
        ms[k].contains_key(rs[i]),
    decreases k - i,
{
    if k == i + 1 {
        assert(push_post(ms[i], es[i], ns[i], ms[i + 1], rs[i]));
    } else {
        lemma_chain_keeps(ms, es, ns, rs, i, k - 1);
        assert(push_post(ms[k - 1], es[k - 1], ns[k - 1], ms[(k - 1) + 1], rs[k - 1]));
        assert(ms[(k - 1) + 1] == ms[k]);
    }
}

/// Any number of distinct-body pushes into one group hand out strictly
/// increasing indices: no index is ever reused along the chain.
pub proof fn lemma_push_chain_monotonic(
    ms: Seq<GroupV>,
    es: Seq<EntryV>,
    ns: Seq<Time>,
    rs: Seq<nat>,
)
    requires
        push_chain(ms, es, ns, rs),
    ensures
        forall|i: int, j: int| 0 <= i < j < rs.len() ==> rs[i] < rs[j],
{
    assert forall|i: int, j: int| 0 <= i < j < rs.len() implies rs[i] < rs[j] by {
        lemma_chain_keeps(ms, es, ns, rs, i, j);
        assert(push_post(ms[j], es[j], ns[j], ms[j + 1], rs[j]));
        assert(next_index_is(ms[j], rs[j]));
    }
}

} // verus!
