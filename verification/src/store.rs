//! The store capability: the read boundary over a collection of metas and
//! patches, and the separate write capability used only by the owning
//! device's writer path.

use vstd::prelude::*;

use crate::codec::{enc_patch, patch_wf};
use crate::types::{Meta, MetaModel, Patch, PatchModel, PatchRef, StoreError};

verus! {

/// Every patch sits under exactly its own canonical serialization, and is
/// well formed. This is what makes lookups by ref faithful and parent chains
/// acyclic.
pub open spec fn content_addressed(patches: Map<Seq<u8>, PatchModel>) -> bool {
    forall|r: Seq<u8>| #[trigger]
        patches.contains_key(r) ==> enc_patch(patches[r]) == r && patch_wf(patches[r])
}

/// Whether a device's recorded head matches an expectation: `None` expects
/// the device to have no meta yet.
pub open spec fn head_matches(
    metas: Map<Seq<u8>, MetaModel>,
    device_id: Seq<u8>,
    expected: Option<Seq<u8>>,
) -> bool {
    match expected {
        Some(h) => metas.contains_key(device_id) && metas[device_id].head == h,
        None => !metas.contains_key(device_id),
    }
}

/// The view of an optional expected head.
pub open spec fn expected_view(expected: Option<&PatchRef>) -> Option<Seq<u8>> {
    match expected {
        Some(r) => Some(r@),
        None => None,
    }
}

/// Write/read round trip: after a patch is written under its content-derived
/// ref, looking that ref up yields exactly the content that was written —
/// `write_patch` ensures the store maps `enc_patch(p)` to `p`, `get_patch`
/// returns what the store maps the ref to, and by injectivity of the
/// encoding (`lemma_ref_injective`) no other content can sit under that ref.
pub proof fn lemma_write_read_round_trip(patches: Map<Seq<u8>, PatchModel>, p: PatchModel)
    ensures
        patches.insert(enc_patch(p), p).contains_key(enc_patch(p)),
        patches.insert(enc_patch(p), p)[enc_patch(p)] == p,
{
}

/// Idempotence of content addressing: writing the same content twice yields
/// the same ref — the ref is a function of the content — and leaves the
/// store exactly as after the first write, so no duplicate entry exists.
pub proof fn lemma_write_idempotent(patches: Map<Seq<u8>, PatchModel>, p: PatchModel)
    ensures
        patches.insert(enc_patch(p), p).insert(enc_patch(p), p) == patches.insert(
            enc_patch(p),
            p,
        ),
{
    assert(patches.insert(enc_patch(p), p).insert(enc_patch(p), p) =~= patches.insert(
        enc_patch(p),
        p,
    ));
}

/// The read boundary over a replicated collection of metas and patches. Both
/// operations are pure reads; any implementation — the in-memory store here,
/// or a directory-backed one outside the verified core — must honor the same
/// failure kinds.
pub trait Store: Sized {
    /// The metas visible to readers, keyed by device id.
    spec fn metas(&self) -> Map<Seq<u8>, MetaModel>;

    /// The intact patches, keyed by their refs.
    spec fn patches(&self) -> Map<Seq<u8>, PatchModel>;

    /// Refs whose stored bytes no longer serialize back to their key; reads
    /// of these surface `Corrupt` rather than content.
    spec fn corrupt_refs(&self) -> Set<Seq<u8>>;

    /// The store's internal invariant.
    spec fn inv(&self) -> bool;

    /// An invariant-respecting store is content-addressed, and every meta
    /// describes the device it is keyed under.
    proof fn lemma_inv(&self)
        requires
            self.inv(),
        ensures
            content_addressed(self.patches()),
            forall|d: Seq<u8>| #[trigger]
                self.metas().contains_key(d) ==> self.metas()[d].device_id == d,
    ;

    /// Looks up the meta of one device; `NotFound` exactly when the device
    /// has none yet.
    fn get_device_meta(&self, device_id: &Vec<u8>) -> (result: Result<Meta, StoreError>)
        requires
            self.inv(),
        ensures
            match result {
                Ok(m) => self.metas().contains_key(device_id@) && m@ == self.metas()[device_id@],
                Err(e) => e == StoreError::NotFound && !self.metas().contains_key(device_id@),
            },
    ;

    /// Looks up a patch by ref: `NotFound` exactly when the ref is absent
    /// (not yet replicated), `Corrupt` exactly when bytes are present that no
    /// longer serialize back to the ref.
    fn get_patch(&self, patch_ref: &PatchRef) -> (result: Result<Patch, StoreError>)
        requires
            self.inv(),
        ensures
            match result {
                Ok(p) => self.patches().contains_key(patch_ref@) && p@
                    == self.patches()[patch_ref@],
                Err(e) => !self.patches().contains_key(patch_ref@) && (e == StoreError::Corrupt
                    <==> self.corrupt_refs().contains(patch_ref@)) && (e == StoreError::NotFound
                    || e == StoreError::Corrupt),
            },
    ;
}

/// The write capability, used only by the owning device's writer path; kept
/// apart from [`Store`] so readers stay substitutable.
pub trait StoreWrite: Store {
    /// Persists a patch under its content-derived ref. Idempotent: writing
    /// content that is already present is a success and changes nothing,
    /// because equal content has an equal ref and refs determine content.
    fn write_patch(&mut self, patch: &Patch) -> (result: Result<PatchRef, StoreError>)
        requires
            old(self).inv(),
        ensures
            final(self).inv(),
            match result {
                Ok(r) => r@ == enc_patch(patch@) && final(self).patches() == old(
                    self,
                ).patches().insert(enc_patch(patch@), patch@) && final(self).metas() == old(
                    self,
                ).metas() && final(self).corrupt_refs() == old(self).corrupt_refs(),
                Err(_) => false,
            },
    ;

    /// Advances a device's head, guarded by the previously observed head:
    /// `Conflict` exactly when the stored head no longer matches the
    /// expectation, in which case nothing changes.
    fn advance_head(
        &mut self,
        device_id: &Vec<u8>,
        new_head: &PatchRef,
        expected_previous: Option<&PatchRef>,
    ) -> (result: Result<(), StoreError>)
        requires
            old(self).inv(),
        ensures
            final(self).inv(),
            final(self).patches() == old(self).patches(),
            final(self).corrupt_refs() == old(self).corrupt_refs(),
            match result {
                Ok(_) => head_matches(old(self).metas(), device_id@, expected_view(
                    expected_previous,
                )) && final(self).metas() == old(self).metas().insert(
                    device_id@,
                    MetaModel { device_id: device_id@, head: new_head@ },
                ),
                Err(e) => e == StoreError::Conflict && !head_matches(
                    old(self).metas(),
                    device_id@,
                    expected_view(expected_previous),
                ) && final(self).metas() == old(self).metas(),
            },
    ;
}

} // verus!
