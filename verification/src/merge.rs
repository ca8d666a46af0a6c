//! The merge engine: walks every known device's chain, unions the events it
//! finds, and produces one deduplicated timeline in the deterministic order.
//! A broken chain degrades that device's contribution to the prefix that
//! could be walked and is reported, never silently dropped; other devices are
//! unaffected.

use vstd::prelude::*;
use vstd::seq_lib::*;

use crate::chain::{chain, chain_ok, lemma_chain_wf, walk_chain_partial};
use crate::codec::{event_wf, patch_wf};
use crate::order::{
    cmp_event, event_lt, lemma_event_lt_irreflexive, lemma_event_lt_transitive,
    lemma_event_order_connected, Cmp,
};
use crate::store::Store;
use crate::types::{bytes_views, copy_bytes, event_views, Event, EventModel, MetaModel, Patch, PatchModel, patch_views};

verus! {

/// The events carried by a sequence of patches, in patch order.
pub open spec fn events_of(ps: Seq<PatchModel>) -> Seq<EventModel>
    decreases ps.len(),
{
    if ps.len() == 0 {
        Seq::empty()
    } else {
        ps[0].events + events_of(ps.skip(1))
    }
}

/// Every event contributed by the given devices: the union, over each device
/// with a meta, of the events reachable from that device's head.
pub open spec fn merged_events(
    metas: Map<Seq<u8>, MetaModel>,
    patches: Map<Seq<u8>, PatchModel>,
    ids: Seq<Seq<u8>>,
) -> Set<EventModel> {
    Set::new(
        |e: EventModel|
            exists|i: int|
                0 <= i < ids.len() && metas.contains_key(#[trigger] ids[i]) && events_of(
                    chain(patches, metas[ids[i]].head),
                ).contains(e),
    )
}

/// Strict sortedness in the timeline order: every pair is ordered, so no
/// event appears twice.
pub open spec fn strictly_sorted(s: Seq<EventModel>) -> bool {
    forall|i: int, j: int| #![trigger s[i], s[j]] 0 <= i < j < s.len() ==> event_lt(s[i], s[j])
}

/// The merged view: the deduplicated, ordered events, and the devices whose
/// chains could not be walked to their roots.
pub struct Timeline {
    pub events: Vec<Event>,
    pub broken_devices: Vec<Vec<u8>>,
}

proof fn lemma_contains_push<T>(s: Seq<T>, v: T, x: T)
    ensures
        s.push(v).contains(x) <==> s.contains(x) || x == v,
{
    if s.contains(x) {
        let k = choose|k: int| 0 <= k < s.len() && s[k] == x;
        assert(s.push(v)[k] == x);
    }
    if s.push(v).contains(x) {
        let k = choose|k: int| 0 <= k < s.push(v).len() && s.push(v)[k] == x;
        if k < s.len() {
            assert(s[k] == x);
        }
    }
    assert(s.push(v)[s.len() as int] == v);
}

proof fn lemma_contains_add<T>(a: Seq<T>, b: Seq<T>, x: T)
    ensures
        (a + b).contains(x) <==> a.contains(x) || b.contains(x),
{
    if a.contains(x) {
        let k = choose|k: int| 0 <= k < a.len() && a[k] == x;
        assert((a + b)[k] == x);
    }
    if b.contains(x) {
        let k = choose|k: int| 0 <= k < b.len() && b[k] == x;
        assert((a + b)[k + a.len()] == x);
    }
    if (a + b).contains(x) {
        let k = choose|k: int| 0 <= k < (a + b).len() && (a + b)[k] == x;
        if k < a.len() {
            assert(a[k] == x);
        } else {
            assert(b[k - a.len()] == x);
        }
    }
}

proof fn lemma_events_of_push(ps: Seq<PatchModel>, p: PatchModel)
    ensures
        events_of(ps.push(p)) == events_of(ps) + p.events,
    decreases ps.len(),
{
    if ps.len() == 0 {
        assert(ps.push(p)[0] == p);
        assert(ps.push(p).skip(1) =~= Seq::<PatchModel>::empty());
        assert(events_of(Seq::<PatchModel>::empty()) == Seq::<EventModel>::empty());
        assert(events_of(ps.push(p)) == p.events + Seq::<EventModel>::empty());
        assert(p.events + Seq::<EventModel>::empty() =~= p.events);
        assert(events_of(ps) + p.events =~= p.events);
    } else {
        assert(ps.push(p)[0] == ps[0]);
        assert(ps.push(p).skip(1) =~= ps.skip(1).push(p));
        lemma_events_of_push(ps.skip(1), p);
        assert((ps[0].events + events_of(ps.skip(1))) + p.events =~= ps[0].events + (events_of(
            ps.skip(1),
        ) + p.events));
    }
}

/// Inserts one event at its place in a strictly sorted timeline; an event
/// already present is left as the one copy it already has.
fn insert_event(events: &mut Vec<Event>, e: Event)
    requires
        strictly_sorted(event_views(old(events)@)),
        forall|k: int| 0 <= k < old(events)@.len() ==> event_wf((#[trigger] old(events)@[k])@),
        event_wf(e@),
    ensures
        strictly_sorted(event_views(final(events)@)),
        forall|k: int| 0 <= k < final(events)@.len() ==> event_wf(
            (#[trigger] final(events)@[k])@,
        ),
        forall|x: EventModel| #[trigger]
            event_views(final(events)@).contains(x) <==> (event_views(old(events)@).contains(x)
                || x == e@),
{
    let ghost ov = event_views(events@);
    let ghost ee = e@;
    proof {
        assert forall|k: int| 0 <= k < ov.len() implies event_wf(#[trigger] ov[k]) by {
            assert(event_views(events@)[k] == events@[k]@);
        };
    }
    let mut i: usize = 0;
    while i < events.len()
        invariant
            i <= events.len(),
            events@ == old(events)@,
            ov == event_views(events@),
            ee == e@,
            strictly_sorted(ov),
            forall|k: int| 0 <= k < ov.len() ==> event_wf(#[trigger] ov[k]),
            event_wf(ee),
            forall|k: int| 0 <= k < i ==> event_lt(#[trigger] ov[k], ee),
        decreases events.len() - i,
    {
        match cmp_event(&e, &events[i]) {
            Cmp::Gt => {
                proof {
                    assert(ov[i as int] == events@[i as int]@);
                }
                i = i + 1;
            },
            Cmp::Eq => {
                proof {
                    assert(ov[i as int] == events@[i as int]@);
                    assert(ov.contains(ee));
                    assert forall|k: int| 0 <= k < events@.len() implies event_wf(
                        (#[trigger] events@[k])@,
                    ) by {
                        assert(event_views(events@)[k] == events@[k]@);
                    };
                }
                return ;
            },
            Cmp::Lt => {
                let ghost pos = i as int;
                proof {
                    assert(ov[pos] == events@[pos]@);
                    assert(event_lt(ee, ov[pos]));
                }
                events.insert(i, e);
                proof {
                    let nv = event_views(events@);
                    assert(nv =~= ov.insert(pos, ee));
                    lemma_insert_keeps_sorted(ov, pos, ee);
                    lemma_insert_membership(ov, pos, ee);
                    assert forall|k: int| 0 <= k < events@.len() implies event_wf(
                        (#[trigger] events@[k])@,
                    ) by {
                        assert(event_views(events@)[k] == events@[k]@);
                    };
                }
                return ;
            },
        }
    }
    let ghost pos = events@.len() as int;
    events.push(e);
    proof {
        let nv = event_views(events@);
        assert(nv =~= ov.insert(pos, ee));
        lemma_insert_keeps_sorted(ov, pos, ee);
        lemma_insert_membership(ov, pos, ee);
        assert forall|k: int| 0 <= k < events@.len() implies event_wf(
            (#[trigger] events@[k])@,
        ) by {
            assert(event_views(events@)[k] == events@[k]@);
        };
    }
}

proof fn lemma_insert_keeps_sorted(s: Seq<EventModel>, pos: int, e: EventModel)
    requires
        strictly_sorted(s),
        0 <= pos <= s.len(),
        forall|k: int| 0 <= k < pos ==> event_lt(#[trigger] s[k], e),
        pos < s.len() ==> event_lt(e, s[pos]),
        forall|k: int| 0 <= k < s.len() ==> event_wf(#[trigger] s[k]),
        event_wf(e),
    ensures
        strictly_sorted(s.insert(pos, e)),
        forall|k: int| 0 <= k < s.insert(pos, e).len() ==> event_wf(#[trigger] s.insert(pos, e)[k]),
{
    let t = s.insert(pos, e);
    assert forall|a: int, b: int| #![trigger t[a], t[b]] 0 <= a < b < t.len() implies event_lt(
        t[a],
        t[b],
    ) by {
        if b < pos {
        } else if b == pos {
            assert(t[a] == s[a]);
        } else {
            assert(t[b] == s[b - 1]);
            if a < pos {
                assert(t[a] == s[a]);
                if b - 1 > pos || pos == s.len() {
                }
                if a < b - 1 {
                } else {
                    assert(a == b - 1 && a < pos && b - 1 >= pos);
                }
                if event_lt(s[a], s[b - 1]) {
                } else {
                    assert(a == b - 1);
                }
            } else if a == pos {
                assert(event_lt(e, s[pos]));
                if b - 1 > pos {
                    lemma_event_lt_transitive(e, s[pos], s[b - 1]);
                }
            } else {
                assert(t[a] == s[a - 1]);
            }
        }
    };
    assert forall|k: int| 0 <= k < t.len() implies event_wf(#[trigger] t[k]) by {
        if k < pos {
            assert(t[k] == s[k]);
        } else if k > pos {
            assert(t[k] == s[k - 1]);
        }
    };
}

proof fn lemma_insert_membership(s: Seq<EventModel>, pos: int, e: EventModel)
    requires
        0 <= pos <= s.len(),
    ensures
        forall|x: EventModel| #[trigger]
            s.insert(pos, e).contains(x) <==> (s.contains(x) || x == e),
{
    let t = s.insert(pos, e);
    assert forall|x: EventModel| #[trigger] t.contains(x) implies (s.contains(x) || x == e) by {
        let k = choose|k: int| 0 <= k < t.len() && t[k] == x;
        if k < pos {
            assert(s[k] == x);
        } else if k > pos {
            assert(s[k - 1] == x);
        }
    };
    assert forall|x: EventModel| s.contains(x) || x == e implies #[trigger] t.contains(x) by {
        if x == e {
            assert(t[pos] == x);
        } else {
            let k = choose|k: int| 0 <= k < s.len() && s[k] == x;
            if k < pos {
                assert(t[k] == x);
            } else {
                assert(t[k + 1] == x);
            }
        }
    };
}

/// Inserts every event of one patch.
fn insert_patch_events(events: &mut Vec<Event>, patch: &Patch)
    requires
        strictly_sorted(event_views(old(events)@)),
        forall|k: int| 0 <= k < old(events)@.len() ==> event_wf((#[trigger] old(events)@[k])@),
        patch_wf(patch@),
    ensures
        strictly_sorted(event_views(final(events)@)),
        forall|k: int| 0 <= k < final(events)@.len() ==> event_wf(
            (#[trigger] final(events)@[k])@,
        ),
        forall|x: EventModel| #[trigger]
            event_views(final(events)@).contains(x) <==> (event_views(old(events)@).contains(x)
                || patch@.events.contains(x)),
{
    let ghost ov = event_views(events@);
    let ghost pes = patch@.events;
    let mut ei: usize = 0;
    proof {
        assert(pes.take(0) =~= Seq::<EventModel>::empty());
    }
    while ei < patch.events.len()
        invariant
            ei <= patch.events.len(),
            pes == patch@.events,
            patch_wf(patch@),
            strictly_sorted(event_views(events@)),
            forall|k: int| 0 <= k < events@.len() ==> event_wf((#[trigger] events@[k])@),
            forall|x: EventModel| #[trigger]
                event_views(events@).contains(x) <==> (ov.contains(x) || pes.take(
                    ei as int,
                ).contains(x)),
        decreases patch.events.len() - ei,
    {
        let ev = patch.events[ei].duplicate();
        proof {
            assert(ev@ == patch@.events[ei as int]);
            assert(event_wf(pes[ei as int]));
        }
        insert_event(events, ev);
        proof {
            assert(pes.take(ei as int + 1) =~= pes.take(ei as int).push(pes[ei as int]));
            assert forall|x: EventModel| #[trigger]
                event_views(events@).contains(x) <==> (ov.contains(x) || pes.take(
                ei as int + 1,
            ).contains(x)) by {
                lemma_contains_push(pes.take(ei as int), pes[ei as int], x);
            };
        }
        ei = ei + 1;
    }
    proof {
        assert(pes.take(pes.len() as int) =~= pes);
    }
}

/// Inserts every event of a walked chain.
fn insert_chain_events(events: &mut Vec<Event>, chain_vec: &Vec<Patch>)
    requires
        strictly_sorted(event_views(old(events)@)),
        forall|k: int| 0 <= k < old(events)@.len() ==> event_wf((#[trigger] old(events)@[k])@),
        forall|k: int| 0 <= k < chain_vec@.len() ==> patch_wf((#[trigger] chain_vec@[k])@),
    ensures
        strictly_sorted(event_views(final(events)@)),
        forall|k: int| 0 <= k < final(events)@.len() ==> event_wf(
            (#[trigger] final(events)@[k])@,
        ),
        forall|x: EventModel| #[trigger]
            event_views(final(events)@).contains(x) <==> (event_views(old(events)@).contains(x)
                || events_of(patch_views(chain_vec@)).contains(x)),
{
    let ghost ov = event_views(events@);
    let ghost cs = patch_views(chain_vec@);
    let mut pi: usize = 0;
    proof {
        assert(cs.take(0) =~= Seq::<PatchModel>::empty());
    }
    while pi < chain_vec.len()
        invariant
            pi <= chain_vec.len(),
            cs == patch_views(chain_vec@),
            forall|k: int| 0 <= k < cs.len() ==> patch_wf(#[trigger] cs[k]),
            strictly_sorted(event_views(events@)),
            forall|k: int| 0 <= k < events@.len() ==> event_wf((#[trigger] events@[k])@),
            forall|x: EventModel| #[trigger]
                event_views(events@).contains(x) <==> (ov.contains(x) || events_of(
                    cs.take(pi as int),
                ).contains(x)),
        decreases chain_vec.len() - pi,
    {
        proof {
            assert(cs[pi as int] == chain_vec@[pi as int]@);
        }
        insert_patch_events(events, &chain_vec[pi]);
        proof {
            assert(cs.take(pi as int + 1) =~= cs.take(pi as int).push(cs[pi as int]));
            lemma_events_of_push(cs.take(pi as int), cs[pi as int]);
            assert forall|x: EventModel| #[trigger]
                event_views(events@).contains(x) <==> (ov.contains(x) || events_of(
                cs.take(pi as int + 1),
            ).contains(x)) by {
                lemma_contains_add(events_of(cs.take(pi as int)), cs[pi as int].events, x);
            };
        }
        pi = pi + 1;
    }
    proof {
        assert(cs.take(cs.len() as int) =~= cs);
    }
}

/// Merges the chains of the given devices into one deduplicated timeline,
/// sorted in the deterministic order. A device without a meta is skipped; a
/// device whose chain cannot be walked to its root contributes the prefix
/// that could be walked and is reported under `broken_devices`.
pub fn merge<S: Store>(store: &S, device_ids: &Vec<Vec<u8>>) -> (t: Timeline)
    requires
        store.inv(),
    ensures
        strictly_sorted(event_views(t.events@)),
        forall|k: int| 0 <= k < t.events@.len() ==> event_wf((#[trigger] t.events@[k])@),
        forall|x: EventModel|
            event_views(t.events@).contains(x) <==> merged_events(
                store.metas(),
                store.patches(),
                bytes_views(device_ids@),
            ).contains(x),
        forall|d: Seq<u8>|
            bytes_views(t.broken_devices@).contains(d) <==> (bytes_views(device_ids@).contains(d) && store.metas().contains_key(d) && !chain_ok(
                store.patches(),
                store.metas()[d].head,
            )),
{
    let ghost metas = store.metas();
    let ghost patches = store.patches();
    let ghost ids = bytes_views(device_ids@);
    let mut events: Vec<Event> = Vec::new();
    let mut broken: Vec<Vec<u8>> = Vec::new();
    let mut di: usize = 0;
    proof {
        assert(ids.take(0) =~= Seq::<Seq<u8>>::empty());
    }
    while di < device_ids.len()
        invariant
            di <= device_ids.len(),
            store.inv(),
            metas == store.metas(),
            patches == store.patches(),
            ids == bytes_views(device_ids@),
            strictly_sorted(event_views(events@)),
            forall|k: int| 0 <= k < events@.len() ==> event_wf((#[trigger] events@[k])@),
            forall|x: EventModel| #[trigger]
                event_views(events@).contains(x) <==> merged_events(
                    metas,
                    patches,
                    ids.take(di as int),
                ).contains(x),
            forall|d: Seq<u8>| #[trigger]
                bytes_views(broken@).contains(d) <==> (ids.take(
                    di as int,
                ).contains(d) && metas.contains_key(d) && !chain_ok(patches, metas[d].head)),
        decreases device_ids.len() - di,
    {
        let ghost prev_ids = ids.take(di as int);
        let ghost cur_id = ids[di as int];
        proof {
            assert(cur_id == device_ids@[di as int]@);
            assert(ids.take(di as int + 1) =~= prev_ids.push(cur_id));
        }
        proof {
            assert forall|d: Seq<u8>| #[trigger]
                ids.take(di as int + 1).contains(d) <==> (prev_ids.contains(d) || d
                == cur_id) by {
                lemma_contains_push(prev_ids, cur_id, d);
            };
        }
        match store.get_device_meta(&device_ids[di]) {
            Err(_) => {
                proof {
                    lemma_merge_skip_absent(metas, patches, prev_ids, cur_id);
                    assert forall|x: EventModel|
                        event_views(events@).contains(x) <==> merged_events(
                        metas,
                        patches,
                        ids.take(di as int + 1),
                    ).contains(x) by {};
                    assert forall|d: Seq<u8>| #[trigger]
                        bytes_views(broken@).contains(d) <==> (ids.take(
                        di as int + 1,
                    ).contains(d) && metas.contains_key(d) && !chain_ok(
                        patches,
                        metas[d].head,
                    )) by {
                        if d == cur_id {
                            assert(!metas.contains_key(d));
                        }
                    };
                }
            },
            Ok(meta) => {
                let ghost em0 = event_views(events@);
                let ghost bm0 = bytes_views(broken@);
                let (chain_vec, complete) = walk_chain_partial(store, &meta.head);
                proof {
                    store.lemma_inv();
                    lemma_chain_wf(patches, meta@.head);
                    assert forall|k: int| 0 <= k < chain_vec@.len() implies patch_wf(
                        (#[trigger] chain_vec@[k])@,
                    ) by {
                        assert(patch_views(chain_vec@)[k] == chain_vec@[k]@);
                        assert(patch_views(chain_vec@)[k] == chain(patches, meta@.head)[k]);
                    };
                }
                insert_chain_events(&mut events, &chain_vec);
                if !complete {
                    broken.push(copy_bytes(&device_ids[di]));
                }
                proof {
                    assert(meta@ == metas[cur_id]);
                    lemma_merge_add_device(metas, patches, prev_ids, cur_id);
                    assert(patch_views(chain_vec@) == chain(
                        patches,
                        metas[cur_id].head,
                    ));
                    assert forall|x: EventModel|
                        event_views(events@).contains(x) <==> merged_events(
                        metas,
                        patches,
                        ids.take(di as int + 1),
                    ).contains(x) by {
                        assert(merged_events(metas, patches, prev_ids.push(cur_id))
                            == merged_events(metas, patches, ids.take(di as int + 1)));
                    };
                    if !complete {
                        assert(bytes_views(broken@) =~= bm0.push(cur_id));
                        assert forall|d: Seq<u8>| #[trigger]
                            bytes_views(broken@).contains(d) <==> (ids.take(
                            di as int + 1,
                        ).contains(d) && metas.contains_key(d) && !chain_ok(
                            patches,
                            metas[d].head,
                        )) by {
                            lemma_contains_push(bm0, cur_id, d);
                            if d == cur_id {
                                assert(metas[d] == meta@);
                                assert(!chain_ok(patches, metas[d].head));
                            }
                        };
                    } else {
                        assert forall|d: Seq<u8>| #[trigger]
                            bytes_views(broken@).contains(d) <==> (ids.take(
                            di as int + 1,
                        ).contains(d) && metas.contains_key(d) && !chain_ok(
                            patches,
                            metas[d].head,
                        )) by {
                            if d == cur_id {
                                assert(metas[d] == meta@);
                                assert(chain_ok(patches, metas[d].head));
                            }
                        };
                    }
                }
            },
        }
        di = di + 1;
    }
    proof {
        assert(ids.take(ids.len() as int) =~= ids);
    }
    Timeline { events, broken_devices: broken }
}

/// Extending the device list by a device without a meta adds nothing.
proof fn lemma_merge_skip_absent(
    metas: Map<Seq<u8>, MetaModel>,
    patches: Map<Seq<u8>, PatchModel>,
    ids: Seq<Seq<u8>>,
    d: Seq<u8>,
)
    requires
        !metas.contains_key(d),
    ensures
        merged_events(metas, patches, ids.push(d)) == merged_events(metas, patches, ids),
{
    assert forall|e: EventModel| #[trigger]
        merged_events(metas, patches, ids.push(d)).contains(e) implies merged_events(
        metas,
        patches,
        ids,
    ).contains(e) by {
        let i = choose|i: int|
            0 <= i < ids.push(d).len() && metas.contains_key(#[trigger] ids.push(d)[i])
                && events_of(chain(patches, metas[ids.push(d)[i]].head)).contains(e);
        assert(i < ids.len());
        assert(ids[i] == ids.push(d)[i]);
    };
    assert forall|e: EventModel| #[trigger]
        merged_events(metas, patches, ids).contains(e) implies merged_events(
        metas,
        patches,
        ids.push(d),
    ).contains(e) by {
        let i = choose|i: int|
            0 <= i < ids.len() && metas.contains_key(#[trigger] ids[i]) && events_of(
                chain(patches, metas[ids[i]].head),
            ).contains(e);
        assert(ids.push(d)[i] == ids[i]);
    };
    assert(merged_events(metas, patches, ids.push(d)) =~= merged_events(metas, patches, ids));
}

/// Extending the device list by a device with a meta adds exactly the events
/// reachable from that device's head.
proof fn lemma_merge_add_device(
    metas: Map<Seq<u8>, MetaModel>,
    patches: Map<Seq<u8>, PatchModel>,
    ids: Seq<Seq<u8>>,
    d: Seq<u8>,
)
    requires
        metas.contains_key(d),
    ensures
        forall|e: EventModel| #[trigger]
            merged_events(metas, patches, ids.push(d)).contains(e) <==> (merged_events(
                metas,
                patches,
                ids,
            ).contains(e) || events_of(chain(patches, metas[d].head)).contains(e)),
{
    assert forall|e: EventModel| #[trigger]
        merged_events(metas, patches, ids.push(d)).contains(e) implies (merged_events(
        metas,
        patches,
        ids,
    ).contains(e) || events_of(chain(patches, metas[d].head)).contains(e)) by {
        let i = choose|i: int|
            0 <= i < ids.push(d).len() && metas.contains_key(#[trigger] ids.push(d)[i])
                && events_of(chain(patches, metas[ids.push(d)[i]].head)).contains(e);
        if i < ids.len() {
            assert(ids[i] == ids.push(d)[i]);
        } else {
            assert(ids.push(d)[i] == d);
        }
    };
    assert forall|e: EventModel|
        merged_events(metas, patches, ids).contains(e) || events_of(
            chain(patches, metas[d].head),
        ).contains(e) implies #[trigger] merged_events(metas, patches, ids.push(d)).contains(
        e,
    ) by {
        if merged_events(metas, patches, ids).contains(e) {
            let i = choose|i: int|
                0 <= i < ids.len() && metas.contains_key(#[trigger] ids[i]) && events_of(
                    chain(patches, metas[ids[i]].head),
                ).contains(e);
            assert(ids.push(d)[i] == ids[i]);
        } else {
            assert(ids.push(d)[ids.len() as int] == d);
        }
    };
}

/// Determinism, half one: a strictly sorted timeline is the one canonical
/// shape of its set of events — two strictly sorted sequences of well-formed
/// events with the same members are equal.
pub proof fn lemma_timeline_canonical(s1: Seq<EventModel>, s2: Seq<EventModel>)
    requires
        strictly_sorted(s1),
        strictly_sorted(s2),
        forall|i: int| 0 <= i < s1.len() ==> event_wf(#[trigger] s1[i]),
        forall|i: int| 0 <= i < s2.len() ==> event_wf(#[trigger] s2[i]),
        forall|x: EventModel| s1.contains(x) <==> s2.contains(x),
    ensures
        s1 == s2,
    decreases s1.len(),
{
    if s1.len() == 0 {
        if s2.len() > 0 {
            assert(s2.contains(s2[0]));
        }
        assert(s1 =~= s2);
    } else {
        assert(s1.contains(s1[0]));
        assert(s2.contains(s1[0]));
        assert(s2.len() > 0);
        // The heads are equal: each is a minimum of the same set.
        let k = choose|k: int| 0 <= k < s2.len() && s2[k] == s1[0];
        assert(s2.contains(s2[0]));
        assert(s1.contains(s2[0]));
        let l = choose|l: int| 0 <= l < s1.len() && s1[l] == s2[0];
        if event_lt(s1[0], s2[0]) {
            assert(k > 0 ==> event_lt(s2[0], s2[k]));
            lemma_event_lt_irreflexive(s1[0]);
            if k > 0 {
                lemma_event_lt_transitive(s1[0], s2[0], s2[k]);
            }
        }
        if event_lt(s2[0], s1[0]) {
            assert(l > 0 ==> event_lt(s1[0], s1[l]));
            lemma_event_lt_irreflexive(s2[0]);
            if l > 0 {
                lemma_event_lt_transitive(s2[0], s1[0], s1[l]);
            }
        }
        lemma_event_order_connected(s1[0], s2[0]);
        // The tails are sorted, well formed, and hold the same members.
        lemma_skip_sorted(s1);
        lemma_skip_sorted(s2);
        assert forall|x: EventModel| s1.skip(1).contains(x) <==> s2.skip(1).contains(x) by {
            lemma_skip_membership(s1, x);
            lemma_skip_membership(s2, x);
        };
        assert forall|i: int| 0 <= i < s1.skip(1).len() implies event_wf(
            #[trigger] s1.skip(1)[i],
        ) by {
            assert(s1.skip(1)[i] == s1[i + 1]);
        };
        assert forall|i: int| 0 <= i < s2.skip(1).len() implies event_wf(
            #[trigger] s2.skip(1)[i],
        ) by {
            assert(s2.skip(1)[i] == s2[i + 1]);
        };
        lemma_timeline_canonical(s1.skip(1), s2.skip(1));
        assert forall|i: int| 0 <= i < s1.len() implies s1[i] == s2[i] by {
            if i > 0 {
                assert(s1.skip(1)[i - 1] == s1[i]);
                assert(s2.skip(1)[i - 1] == s2[i]);
            }
        };
        assert(s1 =~= s2);
    }
}

/// The tail of a strictly sorted sequence is strictly sorted.
proof fn lemma_skip_sorted(s: Seq<EventModel>)
    requires
        strictly_sorted(s),
        s.len() > 0,
    ensures
        strictly_sorted(s.skip(1)),
{
    assert forall|a: int, b: int| #![trigger s.skip(1)[a], s.skip(1)[b]]
        0 <= a < b < s.skip(1).len() implies event_lt(s.skip(1)[a], s.skip(1)[b]) by {
        assert(s.skip(1)[a] == s[a + 1]);
        assert(s.skip(1)[b] == s[b + 1]);
    };
}

/// In a strictly sorted sequence, the tail holds exactly the members other
/// than the head.
proof fn lemma_skip_membership(s: Seq<EventModel>, x: EventModel)
    requires
        strictly_sorted(s),
        s.len() > 0,
    ensures
        s.skip(1).contains(x) <==> (s.contains(x) && x != s[0]),
{
    if s.skip(1).contains(x) {
        let k = choose|k: int| 0 <= k < s.skip(1).len() && s.skip(1)[k] == x;
        assert(s[k + 1] == x);
        assert(event_lt(s[0], s[k + 1]));
        lemma_event_lt_irreflexive(s[0]);
    }
    if s.contains(x) && x != s[0] {
        let k = choose|k: int| 0 <= k < s.len() && s[k] == x;
        assert(k > 0);
        assert(s.skip(1)[k - 1] == x);
    }
}

/// Determinism, half two: the merged set of events depends only on which
/// devices are named, not on the order or multiplicity of the naming.
pub proof fn lemma_merge_order_insensitive(
    metas: Map<Seq<u8>, MetaModel>,
    patches: Map<Seq<u8>, PatchModel>,
    ids1: Seq<Seq<u8>>,
    ids2: Seq<Seq<u8>>,
)
    requires
        forall|d: Seq<u8>| ids1.contains(d) <==> ids2.contains(d),
    ensures
        merged_events(metas, patches, ids1) == merged_events(metas, patches, ids2),
{
    assert forall|e: EventModel| #[trigger]
        merged_events(metas, patches, ids1).contains(e) implies merged_events(
        metas,
        patches,
        ids2,
    ).contains(e) by {
        let i = choose|i: int|
            0 <= i < ids1.len() && metas.contains_key(#[trigger] ids1[i]) && events_of(
                chain(patches, metas[ids1[i]].head),
            ).contains(e);
        assert(ids1.contains(ids1[i]));
        assert(ids2.contains(ids1[i]));
        let j = choose|j: int| 0 <= j < ids2.len() && ids2[j] == ids1[i];
        assert(metas.contains_key(ids2[j]));
    };
    assert forall|e: EventModel| #[trigger]
        merged_events(metas, patches, ids2).contains(e) implies merged_events(
        metas,
        patches,
        ids1,
    ).contains(e) by {
        let i = choose|i: int|
            0 <= i < ids2.len() && metas.contains_key(#[trigger] ids2[i]) && events_of(
                chain(patches, metas[ids2[i]].head),
            ).contains(e);
        assert(ids2.contains(ids2[i]));
        assert(ids1.contains(ids2[i]));
        let j = choose|j: int| 0 <= j < ids1.len() && ids1[j] == ids2[i];
        assert(metas.contains_key(ids1[j]));
    };
    assert(merged_events(metas, patches, ids1) =~= merged_events(metas, patches, ids2));
}

/// Deduplication: a strictly sorted timeline holds each event at most once.
pub proof fn lemma_timeline_no_duplicates(s: Seq<EventModel>)
    requires
        strictly_sorted(s),
    ensures
        forall|i: int, j: int| #![trigger s[i], s[j]] 0 <= i < j < s.len() ==> s[i] != s[j],
{
    assert forall|i: int, j: int| #![trigger s[i], s[j]] 0 <= i < j < s.len() implies s[i]
        != s[j] by {
        if s[i] == s[j] {
            lemma_event_lt_irreflexive(s[i]);
        }
    };
}

} // verus!
