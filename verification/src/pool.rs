//! Bookkeeping of the transcode worker pool. Workers drain a shared queue,
//! popping one item at a time; for each item the current fingerprint of the
//! input decides between a cache hit and a transcode, and only items that
//! end the run successfully are recorded in the fresh fingerprint store.
//! The fresh store is characterized without reference to processing order,
//! so any drain order — and any number of workers — produces the same store.

use crate::assoc::distinct_keys;
use crate::fingerprint::Fingerprint;
use crate::fingerprint::FingerprintStore;
use crate::fingerprint::fingerprint_matches;
use vstd::prelude::*;

verus! {

/// One queued unit of work: transcode `input` into `output`. Created once
/// per unique asset reference and consumed exactly once by a worker.
pub struct WorkItem {
    pub input: Vec<u8>,
    pub output: Vec<u8>,
}

/// What a worker does with an item after reading its input's fingerprint.
#[derive(PartialEq, Eq, Structural, Clone, Copy, Debug)]
pub enum ItemStep {
    /// The current fingerprint equals the stored one: skip the transcoder
    /// and carry the fingerprint over unchanged.
    CacheHit,
    /// Readable but new or changed: run the transcoder.
    Transcode,
    /// The input's fingerprint could not be read: the item fails this run.
    Unreadable,
}

/// Decides the step for one item. The transcoder is invoked exactly for
/// readable inputs whose current fingerprint differs from the stored one
/// (or that have no stored one); a mismatch is not an error, merely the
/// trigger for (re)processing.
pub fn plan_item(stored: Option<Fingerprint>, current: Option<Fingerprint>) -> (s: ItemStep)
    ensures
        s == ItemStep::Unreadable <==> current is None,
        s == ItemStep::CacheHit <==> (current is Some && stored == current),
        s == ItemStep::Transcode <==> (current is Some && stored != current),
{
    match current {
        None => ItemStep::Unreadable,
        Some(c) => match stored {
            Some(st) => {
                if fingerprint_matches(&st, &c) {
                    ItemStep::CacheHit
                } else {
                    ItemStep::Transcode
                }
            },
            None => ItemStep::Transcode,
        },
    }
}

/// What the run observed for one item: the input's current fingerprint
/// (`None` if it could not be read) and, where a transcode was attempted,
/// whether the transcoder exited successfully. For a cache hit the flag is
/// not consulted.
#[derive(Clone, Copy)]
pub struct ItemReport {
    pub current: Option<Fingerprint>,
    pub transcode_ok: bool,
}

/// An item ends the run successfully when its input was readable and it was
/// either a cache hit or transcoded successfully.
pub open spec fn report_succeeds(stored: Option<Fingerprint>, r: ItemReport) -> bool {
    &&& r.current is Some
    &&& (stored == r.current || r.transcode_ok)
}

/// `report_succeeds`, with the stored fingerprint taken from a store map.
pub open spec fn report_succeeds_for(
    stored: Map<Seq<u8>, Fingerprint>,
    rec: (Seq<u8>, ItemReport),
) -> bool {
    report_succeeds(
        if stored.contains_key(rec.0) {
            Some(stored[rec.0])
        } else {
            None
        },
        rec.1,
    )
}

/// The items of a run paired with their observations, keyed by input path.
pub open spec fn pool_records(items: Seq<WorkItem>, reports: Seq<ItemReport>) -> Seq<
    (Seq<u8>, ItemReport),
> {
    Seq::new(items.len(), |i: int| (items[i].input@, reports[i]))
}

/// The fresh store a pool run must produce, stated over the collection of
/// records alone: every successful item is present with its current
/// fingerprint, every failed item is absent (so the next run retries it),
/// and nothing else is present. Processing order does not appear.
pub open spec fn pool_post(
    stored: Map<Seq<u8>, Fingerprint>,
    recs: Seq<(Seq<u8>, ItemReport)>,
    m: Map<Seq<u8>, Fingerprint>,
) -> bool {
    &&& forall|rec: (Seq<u8>, ItemReport)|
        #[trigger] recs.contains(rec) && report_succeeds_for(stored, rec) ==> m.contains_key(rec.0)
            && Some(m[rec.0]) == rec.1.current
    &&& forall|rec: (Seq<u8>, ItemReport)|
        #[trigger] recs.contains(rec) && !report_succeeds_for(stored, rec) ==> !m.contains_key(
            rec.0,
        )
    &&& forall|k: Seq<u8>|
        m.contains_key(k) ==> exists|rec: (Seq<u8>, ItemReport)|
            #[trigger] recs.contains(rec) && rec.0 == k && report_succeeds_for(stored, rec)
}

/// Records one drained item in the fresh store: on success the current
/// fingerprint is recorded — unchanged for a cache hit — and on failure the
/// identity is left absent.
pub fn record_item(
    fresh: &mut FingerprintStore,
    key: Vec<u8>,
    stored: Option<Fingerprint>,
    report: ItemReport,
)
    requires
        old(fresh).wf(),
    ensures
        final(fresh).wf(),
        report_succeeds(stored, report) ==> final(fresh).as_map() == old(fresh).as_map().insert(
            key@,
            report.current.unwrap(),
        ),
        !report_succeeds(stored, report) ==> *final(fresh) == *old(fresh),
        final(fresh).as_map().dom().len() == old(fresh).as_map().dom().len() + (
        if report_succeeds(stored, report) && !old(fresh).as_map().contains_key(key@) {
            1int
        } else {
            0int
        }),
{
    let step = plan_item(stored, report.current);
    match step {
        ItemStep::CacheHit => {
            let current = match report.current {
                Some(c) => c,
                None => {
                    proof {
                        assert(false);
                    }
                    Fingerprint { len: 0, mtime: 0 }
                },
            };
            fresh.insert(key, current);
        },
        ItemStep::Transcode => {
            if report.transcode_ok {
                let current = match report.current {
                    Some(c) => c,
                    None => {
                        proof {
                            assert(false);
                        }
                        Fingerprint { len: 0, mtime: 0 }
                    },
                };
                fresh.insert(key, current);
            }
        },
        ItemStep::Unreadable => {},
    }
}

/// The pool run as its sequential reference: drains the shared queue by
/// popping one item at a time — exactly what each worker does under the
/// queue's lock — and records each item's outcome. `reports[i]` is the
/// observation for `items[i]`. The resulting store satisfies `pool_post`,
/// which mentions no order; and when every item succeeds the store holds
/// exactly one entry per item.
pub fn run_pool(
    old_store: &FingerprintStore,
    items: Vec<WorkItem>,
    reports: &Vec<ItemReport>,
) -> (fresh: FingerprintStore)
    requires
        old_store.wf(),
        reports@.len() == items@.len(),
        distinct_keys(pool_records(items@, reports@)),
    ensures
        fresh.wf(),
        pool_post(old_store.as_map(), pool_records(items@, reports@), fresh.as_map()),
        (forall|i: int|
            0 <= i < items@.len() ==> report_succeeds_for(
                old_store.as_map(),
                pool_records(items@, reports@)[i],
            )) ==> fresh.as_map().dom().len() == items@.len(),
{
    let ghost recs = pool_records(items@, reports@);
    let ghost n = items@.len() as int;
    let ghost stored_map = old_store.as_map();
    let mut queue = items;
    let mut fresh = FingerprintStore::new();
    proof {
        assert(fresh.as_map().dom().len() == 0) by {
            assert(fresh.as_map().dom() =~= Set::<Seq<u8>>::empty());
        }
    }
    while queue.len() > 0
        invariant
            old_store.wf(),
            fresh.wf(),
            stored_map == old_store.as_map(),
            reports@.len() == n,
            queue@.len() <= n,
            recs.len() == n,
            forall|i: int| 0 <= i < queue@.len() ==> recs[i] == (queue@[i].input@, reports@[i]),
            distinct_keys(recs),
            forall|i: int|
                queue@.len() <= i < n && report_succeeds_for(stored_map, #[trigger] recs[i])
                    ==> fresh.as_map().contains_key(recs[i].0) && Some(fresh.as_map()[recs[i].0])
                    == recs[i].1.current,
            forall|i: int|
                queue@.len() <= i < n && !report_succeeds_for(stored_map, #[trigger] recs[i])
                    ==> !fresh.as_map().contains_key(recs[i].0),
            forall|k: Seq<u8>|
                fresh.as_map().contains_key(k) ==> exists|i: int|
                    queue@.len() <= i < n && (#[trigger] recs[i]).0 == k && report_succeeds_for(
                        stored_map,
                        recs[i],
                    ),
            (forall|i: int|
                queue@.len() <= i < n ==> report_succeeds_for(stored_map, #[trigger] recs[i]))
                ==> fresh.as_map().dom().len() == n - queue@.len(),
        decreases queue@.len(),
    {
        let ghost pre_fresh = fresh.as_map();
        let ghost qlen = queue@.len() as int;
        let item = match queue.pop() {
            Some(it) => it,
            None => {
                proof {
                    assert(false);
                }
                WorkItem { input: Vec::new(), output: Vec::new() }
            },
        };
        let ghost idx = qlen - 1;
        proof {
            assert(recs[idx] == (item.input@, reports@[idx]));
        }
        let stored = old_store.lookup(item.input.as_slice());
        let report = reports[queue.len()];
        proof {
            assert(report_succeeds(
                if stored_map.contains_key(recs[idx].0) {
                    Some(stored_map[recs[idx].0])
                } else {
                    None
                },
                report,
            ) == report_succeeds_for(stored_map, recs[idx]));
            assert(stored == (if stored_map.contains_key(recs[idx].0) {
                Some(stored_map[recs[idx].0])
            } else {
                None
            }));
        }
        record_item(&mut fresh, item.input, stored, report);
        proof {
            assert forall|i: int|
                queue@.len() <= i < n && report_succeeds_for(
                    stored_map,
                    #[trigger] recs[i],
                ) implies fresh.as_map().contains_key(recs[i].0) && Some(
                fresh.as_map()[recs[i].0],
            ) == recs[i].1.current by {
                if i != idx {
                    assert(recs[idx].0 != recs[i].0);
                }
            }
            assert forall|i: int|
                queue@.len() <= i < n && !report_succeeds_for(
                    stored_map,
                    #[trigger] recs[i],
                ) implies !fresh.as_map().contains_key(recs[i].0) by {
                if i != idx {
                    assert(recs[idx].0 != recs[i].0);
                } else {
                    if pre_fresh.contains_key(recs[i].0) {
                        let j = choose|j: int|
                            qlen <= j < n && (#[trigger] recs[j]).0 == recs[i].0
                                && report_succeeds_for(stored_map, recs[j]);
                        assert(recs[idx].0 != recs[j].0);
                        assert(false);
                    }
                }
            }
            assert forall|k: Seq<u8>| fresh.as_map().contains_key(k) implies exists|i: int|
                queue@.len() <= i < n && (#[trigger] recs[i]).0 == k && report_succeeds_for(
                    stored_map,
                    recs[i],
                ) by {
                if report_succeeds_for(stored_map, recs[idx]) && k == recs[idx].0 {
                    assert(queue@.len() <= idx < n && recs[idx].0 == k && report_succeeds_for(
                        stored_map,
                        recs[idx],
                    ));
                } else {
                    assert(pre_fresh.contains_key(k));
                    let j = choose|j: int|
                        qlen <= j < n && (#[trigger] recs[j]).0 == k && report_succeeds_for(
                            stored_map,
                            recs[j],
                        );
                    assert(queue@.len() <= j < n && recs[j].0 == k);
                }
            }
            if forall|i: int|
                queue@.len() <= i < n ==> report_succeeds_for(stored_map, #[trigger] recs[i]) {
                if !pre_fresh.contains_key(recs[idx].0) {
                } else {
                    let j = choose|j: int|
                        qlen <= j < n && (#[trigger] recs[j]).0 == recs[idx].0
                            && report_succeeds_for(stored_map, recs[j]);
                    assert(recs[idx].0 != recs[j].0);
                    assert(false);
                }
            }
        }
    }
    proof {
        assert forall|rec: (Seq<u8>, ItemReport)|
            #[trigger] recs.contains(rec) && report_succeeds_for(
                stored_map,
                rec,
            ) implies fresh.as_map().contains_key(rec.0) && Some(fresh.as_map()[rec.0])
            == rec.1.current by {
            let i = choose|i: int| 0 <= i < recs.len() && recs[i] == rec;
            assert(report_succeeds_for(stored_map, recs[i]));
        }
        assert forall|rec: (Seq<u8>, ItemReport)|
            #[trigger] recs.contains(rec) && !report_succeeds_for(
                stored_map,
                rec,
            ) implies !fresh.as_map().contains_key(rec.0) by {
            let i = choose|i: int| 0 <= i < recs.len() && recs[i] == rec;
            assert(!report_succeeds_for(stored_map, recs[i]));
        }
        assert forall|k: Seq<u8>| fresh.as_map().contains_key(k) implies exists|rec: (
            Seq<u8>,
            ItemReport,
        )| #[trigger] recs.contains(rec) && rec.0 == k && report_succeeds_for(stored_map, rec) by {
            let i = choose|i: int|
                0 <= i < n && (#[trigger] recs[i]).0 == k && report_succeeds_for(
                    stored_map,
                    recs[i],
                );
            assert(recs.contains(recs[i]));
        }
        if forall|i: int| 0 <= i < n ==> report_succeeds_for(stored_map, #[trigger] recs[i]) {
        }
    }
    fresh
}

/// A cache hit carries the stored fingerprint into the fresh store
/// unchanged: in any run, an item whose current fingerprint equals the
/// stored one ends with exactly the stored fingerprint recorded, whatever
/// the transcoder flag reports — the transcoder is not consulted for it.
pub proof fn lemma_cache_hit_carries_fingerprint(
    stored: Map<Seq<u8>, Fingerprint>,
    recs: Seq<(Seq<u8>, ItemReport)>,
    m: Map<Seq<u8>, Fingerprint>,
    rec: (Seq<u8>, ItemReport),
)
    requires
        pool_post(stored, recs, m),
        recs.contains(rec),
        stored.contains_key(rec.0),
        rec.1.current == Some(stored[rec.0]),
    ensures
        m.contains_key(rec.0),
        m[rec.0] == stored[rec.0],
{
}

/// A failed item is absent from the fresh store, whatever it held before:
/// the next run finds no stored fingerprint for it and attempts it again.
pub proof fn lemma_failed_item_is_retried(
    stored: Map<Seq<u8>, Fingerprint>,
    recs: Seq<(Seq<u8>, ItemReport)>,
    m: Map<Seq<u8>, Fingerprint>,
    rec: (Seq<u8>, ItemReport),
)
    requires
        pool_post(stored, recs, m),
        recs.contains(rec),
        !report_succeeds_for(stored, rec),
    ensures
        !m.contains_key(rec.0),
{
}

/// Scheduling independence: two pool runs over the same collection of items
/// and observations — in any order, under any number of workers — produce
/// the same fresh store.
pub proof fn lemma_pool_order_independent(
    stored: Map<Seq<u8>, Fingerprint>,
    a: Seq<(Seq<u8>, ItemReport)>,
    b: Seq<(Seq<u8>, ItemReport)>,
    ma: Map<Seq<u8>, Fingerprint>,
    mb: Map<Seq<u8>, Fingerprint>,
)
    requires
        a.to_multiset() == b.to_multiset(),
        pool_post(stored, a, ma),
        pool_post(stored, b, mb),
    ensures
        ma == mb,
{
    assert forall|k: Seq<u8>| ma.contains_key(k) implies mb.contains_key(k) && ma[k] == mb[k] by {
        let rec = choose|rec: (Seq<u8>, ItemReport)|
            #[trigger] a.contains(rec) && rec.0 == k && report_succeeds_for(stored, rec);
        vstd::seq_lib::to_multiset_contains(a, rec);
        vstd::seq_lib::to_multiset_contains(b, rec);
        assert(b.contains(rec));
    }
    assert forall|k: Seq<u8>| mb.contains_key(k) implies ma.contains_key(k) by {
        let rec = choose|rec: (Seq<u8>, ItemReport)|
            #[trigger] b.contains(rec) && rec.0 == k && report_succeeds_for(stored, rec);
        vstd::seq_lib::to_multiset_contains(a, rec);
        vstd::seq_lib::to_multiset_contains(b, rec);
        assert(a.contains(rec));
    }
    assert(ma =~= mb);
}

} // verus!
