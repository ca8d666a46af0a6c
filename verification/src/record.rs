//! The local writer path: recording one event appends a patch to the owning
//! device's chain and advances its head, guarded by a compare-and-swap on the
//! previously observed head.

use vstd::prelude::*;

use crate::codec::enc_patch;
use crate::store::{expected_view, head_matches, Store, StoreWrite};
use crate::types::{
    copy_bytes, Event, EventModel, MetaModel, Patch, PatchModel, PatchRef, StoreError,
};

verus! {

/// The patch that recording one event appends for a device: its parent is
/// the device's current head (none for a brand-new device), it carries the
/// one event, and its creation instant is the event's timestamp.
pub open spec fn recorded_patch(
    metas: Map<Seq<u8>, MetaModel>,
    device_id: Seq<u8>,
    e: EventModel,
) -> PatchModel {
    PatchModel {
        parent: if metas.contains_key(device_id) {
            Some(metas[device_id].head)
        } else {
            None
        },
        device_id: device_id,
        events: seq![e],
        created_at: e.timestamp,
    }
}

/// Records one event for a device: reads the current head, writes a patch
/// whose parent is that head (or none, for the device's first patch), and
/// advances the head to the new patch's ref.
///
/// The patch is written before any head moves, so no failure can corrupt a
/// head; and because the caller holds the store exclusively, the
/// compare-and-swap guard of `advance_head` is proved to pass on the first
/// attempt — recording always succeeds, and both the patch and the head
/// advance land. A concurrent writer, possible only outside this exclusive
/// model, would surface as `Conflict` from `advance_head`.
pub fn record<S: StoreWrite>(store: &mut S, device_id: &Vec<u8>, event: Event) -> (result: Result<
    PatchRef,
    StoreError,
>)
    requires
        old(store).inv(),
    ensures
        final(store).inv(),
        match result {
            Ok(r) => {
                let np = recorded_patch(old(store).metas(), device_id@, event@);
                &&& r@ == enc_patch(np)
                &&& final(store).patches() == old(store).patches().insert(enc_patch(np), np)
                &&& final(store).metas() == old(store).metas().insert(
                    device_id@,
                    MetaModel { device_id: device_id@, head: enc_patch(np) },
                )
                &&& final(store).corrupt_refs() == old(store).corrupt_refs()
            },
            Err(_) => false,
        },
{
    let ghost ev = event@;
    let ghost np = recorded_patch(old(store).metas(), device_id@, ev);
    let expected: Option<PatchRef> = match store.get_device_meta(device_id) {
        Ok(m) => Some(m.head),
        Err(_) => None,
    };
    let parent: Option<PatchRef> = match &expected {
        Some(r) => Some(r.duplicate()),
        None => None,
    };
    let created_at = event.timestamp;
    let mut events: Vec<Event> = Vec::new();
    events.push(event);
    let patch = Patch { parent, device_id: copy_bytes(device_id), events, created_at };
    proof {
        assert(patch@.events =~= seq![ev]);
        assert(patch@ =~= np);
    }
    let new_ref = match store.write_patch(&patch) {
        Ok(r) => r,
        Err(e) => {
            return Err(e);
        },
    };
    let expected_ref: Option<&PatchRef> = match &expected {
        Some(r) => Some(r),
        None => None,
    };
    proof {
        assert(head_matches(store.metas(), device_id@, expected_view(expected_ref)));
    }
    match store.advance_head(device_id, &new_ref, expected_ref) {
        Ok(_) => Ok(new_ref),
        Err(e) => {
            proof {
                assert(false);
            }
            Err(e)
        },
    }
}

} // verus!
