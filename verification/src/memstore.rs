//! A deterministic in-memory store: the verified implementation of the store
//! capability, and the reference model for any other backing.

use vstd::prelude::*;
use vstd::seq_lib::*;

use crate::codec::{compute_ref, enc_patch, lemma_ref_injective, patch_wf};
use crate::store::{content_addressed, Store, StoreWrite};
use crate::types::{bytes_eq, copy_bytes, Meta, MetaModel, Patch, PatchModel, PatchRef, StoreError};

verus! {

/// The map advertised by a sequence of metas: each meta sits under its
/// device id, later entries shadowing earlier ones.
pub open spec fn meta_map_of(s: Seq<MetaModel>) -> Map<Seq<u8>, MetaModel>
    decreases s.len(),
{
    if s.len() == 0 {
        Map::empty()
    } else {
        meta_map_of(s.drop_last()).insert(s.last().device_id, s.last())
    }
}

/// The map advertised by a sequence of patches: each patch sits under its
/// own canonical serialization.
pub open spec fn patch_map_of(s: Seq<PatchModel>) -> Map<Seq<u8>, PatchModel>
    decreases s.len(),
{
    if s.len() == 0 {
        Map::empty()
    } else {
        patch_map_of(s.drop_last()).insert(enc_patch(s.last()), s.last())
    }
}

proof fn lemma_meta_map_no_key(s: Seq<MetaModel>, k: Seq<u8>)
    requires
        forall|i: int| 0 <= i < s.len() ==> (#[trigger] s[i]).device_id != k,
    ensures
        !meta_map_of(s).contains_key(k),
    decreases s.len(),
{
    if s.len() > 0 {
        assert(forall|i: int|
            0 <= i < s.drop_last().len() ==> (#[trigger] s.drop_last()[i]).device_id != k);
        lemma_meta_map_no_key(s.drop_last(), k);
    }
}

proof fn lemma_meta_map_get(s: Seq<MetaModel>, i: int)
    requires
        0 <= i < s.len(),
        forall|j: int| i < j < s.len() ==> (#[trigger] s[j]).device_id != s[i].device_id,
    ensures
        meta_map_of(s).contains_key(s[i].device_id),
        meta_map_of(s)[s[i].device_id] == s[i],
    decreases s.len(),
{
    if i < s.len() - 1 {
        assert(s.last().device_id != s[i].device_id);
        assert(s.drop_last()[i] == s[i]);
        assert(forall|j: int|
            i < j < s.drop_last().len() ==> (#[trigger] s.drop_last()[j]).device_id
                != s.drop_last()[i].device_id);
        lemma_meta_map_get(s.drop_last(), i);
    }
}

proof fn lemma_meta_map_push(s: Seq<MetaModel>, m: MetaModel)
    ensures
        meta_map_of(s.push(m)) == meta_map_of(s).insert(m.device_id, m),
{
    assert(s.push(m).drop_last() =~= s);
    assert(s.push(m).last() == m);
}

proof fn lemma_meta_map_self_keyed(s: Seq<MetaModel>)
    ensures
        forall|d: Seq<u8>| #[trigger]
            meta_map_of(s).contains_key(d) ==> meta_map_of(s)[d].device_id == d,
    decreases s.len(),
{
    if s.len() > 0 {
        lemma_meta_map_self_keyed(s.drop_last());
        assert forall|d: Seq<u8>| #[trigger]
            meta_map_of(s).contains_key(d) implies meta_map_of(s)[d].device_id == d by {
            if d != s.last().device_id {
                assert(meta_map_of(s.drop_last()).contains_key(d));
            }
        };
    }
}

proof fn lemma_patch_map_no_key(s: Seq<PatchModel>, k: Seq<u8>)
    requires
        forall|i: int| 0 <= i < s.len() ==> enc_patch(#[trigger] s[i]) != k,
    ensures
        !patch_map_of(s).contains_key(k),
    decreases s.len(),
{
    if s.len() > 0 {
        assert(forall|i: int|
            0 <= i < s.drop_last().len() ==> enc_patch(#[trigger] s.drop_last()[i]) != k);
        lemma_patch_map_no_key(s.drop_last(), k);
    }
}

proof fn lemma_patch_map_get(s: Seq<PatchModel>, i: int)
    requires
        0 <= i < s.len(),
        forall|j: int| i < j < s.len() ==> enc_patch(#[trigger] s[j]) != enc_patch(s[i]),
    ensures
        patch_map_of(s).contains_key(enc_patch(s[i])),
        patch_map_of(s)[enc_patch(s[i])] == s[i],
    decreases s.len(),
{
    if i < s.len() - 1 {
        assert(enc_patch(s.last()) != enc_patch(s[i]));
        assert(s.drop_last()[i] == s[i]);
        assert(forall|j: int|
            i < j < s.drop_last().len() ==> enc_patch(#[trigger] s.drop_last()[j]) != enc_patch(
                s.drop_last()[i],
            ));
        lemma_patch_map_get(s.drop_last(), i);
    }
}

proof fn lemma_patch_map_push(s: Seq<PatchModel>, p: PatchModel)
    ensures
        patch_map_of(s.push(p)) == patch_map_of(s).insert(enc_patch(p), p),
{
    assert(s.push(p).drop_last() =~= s);
    assert(s.push(p).last() == p);
}

proof fn lemma_patch_map_addressed(s: Seq<PatchModel>)
    requires
        forall|i: int| 0 <= i < s.len() ==> patch_wf(#[trigger] s[i]),
    ensures
        content_addressed(patch_map_of(s)),
    decreases s.len(),
{
    if s.len() > 0 {
        assert(forall|i: int|
            0 <= i < s.drop_last().len() ==> patch_wf(#[trigger] s.drop_last()[i]));
        lemma_patch_map_addressed(s.drop_last());
        assert forall|r: Seq<u8>| #[trigger] patch_map_of(s).contains_key(r) implies enc_patch(
            patch_map_of(s)[r],
        ) == r && patch_wf(patch_map_of(s)[r]) by {
            if r != enc_patch(s.last()) {
                assert(patch_map_of(s.drop_last()).contains_key(r));
            }
        };
    }
}

/// The deterministic in-memory store. Both sequences are append-only; for
/// metas the most recent entry for a device is the one that counts.
pub struct MemStore {
    metas: Vec<Meta>,
    patches: Vec<Patch>,
}

impl MemStore {
    /// The stored metas, as models, oldest first.
    pub closed spec fn metas_seq(&self) -> Seq<MetaModel> {
        self.metas@.map_values(|m: Meta| m@)
    }

    /// The stored patches, as models, in insertion order.
    pub closed spec fn patches_seq(&self) -> Seq<PatchModel> {
        self.patches@.map_values(|p: Patch| p@)
    }

    /// An empty store.
    pub fn new() -> (s: MemStore)
        ensures
            s.inv(),
            s.metas() == Map::<Seq<u8>, MetaModel>::empty(),
            s.patches() == Map::<Seq<u8>, PatchModel>::empty(),
            s.patches_seq().len() == 0,
    {
        let s = MemStore { metas: Vec::new(), patches: Vec::new() };
        proof {
            assert(s.metas_seq().len() == 0);
            assert(s.patches_seq().len() == 0);
        }
        s
    }

    /// How many patch entries are stored. Writing content that is already
    /// present leaves this unchanged.
    pub fn patch_count(&self) -> (n: usize)
        ensures
            n == self.patches_seq().len(),
    {
        self.patches.len()
    }
}

impl Store for MemStore {
    closed spec fn metas(&self) -> Map<Seq<u8>, MetaModel> {
        meta_map_of(self.metas_seq())
    }

    closed spec fn patches(&self) -> Map<Seq<u8>, PatchModel> {
        patch_map_of(self.patches_seq())
    }

    closed spec fn corrupt_refs(&self) -> Set<Seq<u8>> {
        Set::empty()
    }

    closed spec fn inv(&self) -> bool {
        forall|i: int| 0 <= i < self.patches_seq().len() ==> patch_wf(
            #[trigger] self.patches_seq()[i],
        )
    }

    proof fn lemma_inv(&self) {
        lemma_patch_map_addressed(self.patches_seq());
        lemma_meta_map_self_keyed(self.metas_seq());
    }

    fn get_device_meta(&self, device_id: &Vec<u8>) -> (result: Result<Meta, StoreError>) {
        let mut i: usize = self.metas.len();
        while i > 0
            invariant
                i <= self.metas.len(),
                forall|k: int|
                    i <= k < self.metas_seq().len() ==> (#[trigger] self.metas_seq()[k]).device_id
                        != device_id@,
            decreases i,
        {
            let j = i - 1;
            if bytes_eq(&self.metas[j].device_id, device_id) {
                proof {
                    assert(self.metas_seq()[j as int] == self.metas@[j as int]@);
                    lemma_meta_map_get(self.metas_seq(), j as int);
                }
                return Ok(self.metas[j].duplicate());
            }
            i = j;
        }
        proof {
            lemma_meta_map_no_key(self.metas_seq(), device_id@);
        }
        Err(StoreError::NotFound)
    }

    fn get_patch(&self, patch_ref: &PatchRef) -> (result: Result<Patch, StoreError>) {
        let mut i: usize = self.patches.len();
        while i > 0
            invariant
                i <= self.patches.len(),
                forall|k: int|
                    i <= k < self.patches_seq().len() ==> enc_patch(
                        #[trigger] self.patches_seq()[k],
                    ) != patch_ref@,
            decreases i,
        {
            let j = i - 1;
            let r = compute_ref(&self.patches[j]);
            if bytes_eq(&r.bytes, &patch_ref.bytes) {
                proof {
                    assert(self.patches_seq()[j as int] == self.patches@[j as int]@);
                    lemma_patch_map_get(self.patches_seq(), j as int);
                }
                return Ok(self.patches[j].duplicate());
            }
            i = j;
        }
        proof {
            lemma_patch_map_no_key(self.patches_seq(), patch_ref@);
        }
        Err(StoreError::NotFound)
    }
}

impl StoreWrite for MemStore {
    fn write_patch(&mut self, patch: &Patch) -> (result: Result<PatchRef, StoreError>) {
        let r = compute_ref(patch);
        let mut i: usize = self.patches.len();
        while i > 0
            invariant
                i <= self.patches.len(),
                old(self).inv(),
                self.metas@ == old(self).metas@,
                self.patches@ == old(self).patches@,
                r@ == enc_patch(patch@),
                patch_wf(patch@),
                forall|k: int|
                    i <= k < self.patches_seq().len() ==> enc_patch(
                        #[trigger] self.patches_seq()[k],
                    ) != r@,
            decreases i,
        {
            let j = i - 1;
            let ri = compute_ref(&self.patches[j]);
            if bytes_eq(&ri.bytes, &r.bytes) {
                proof {
                    assert(self.patches_seq()[j as int] == self.patches@[j as int]@);
                    lemma_patch_map_get(self.patches_seq(), j as int);
                    lemma_ref_injective(self.patches_seq()[j as int], patch@);
                    assert(self.patches() =~= self.patches().insert(enc_patch(patch@), patch@));
                }
                return Ok(r);
            }
            i = j;
        }
        let ghost before = self.patches_seq();
        self.patches.push(patch.duplicate());
        proof {
            assert(self.patches_seq() =~= before.push(patch@));
            lemma_patch_map_push(before, patch@);
            assert(self.metas_seq() == old(self).metas_seq());
            assert forall|k: int|
                0 <= k < self.patches_seq().len() implies patch_wf(
                #[trigger] self.patches_seq()[k],
            ) by {
                if k < self.patches_seq().len() - 1 {
                    assert(self.patches_seq()[k] == before[k]);
                }
            };
        }
        Ok(r)
    }

    fn advance_head(
        &mut self,
        device_id: &Vec<u8>,
        new_head: &PatchRef,
        expected_previous: Option<&PatchRef>,
    ) -> (result: Result<(), StoreError>) {
        let mut i: usize = self.metas.len();
        while i > 0
            invariant
                i <= self.metas.len(),
                old(self).inv(),
                self.metas@ == old(self).metas@,
                self.patches@ == old(self).patches@,
                forall|k: int|
                    i <= k < self.metas_seq().len() ==> (#[trigger] self.metas_seq()[k]).device_id
                        != device_id@,
            decreases i,
        {
            let j = i - 1;
            if bytes_eq(&self.metas[j].device_id, device_id) {
                proof {
                    assert(self.metas_seq()[j as int] == self.metas@[j as int]@);
                    lemma_meta_map_get(self.metas_seq(), j as int);
                }
                let head_ok = match expected_previous {
                    Some(er) => bytes_eq(&er.bytes, &self.metas[j].head.bytes),
                    None => false,
                };
                if head_ok {
                    let new_meta = Meta {
                        device_id: copy_bytes(device_id),
                        head: new_head.duplicate(),
                    };
                    let ghost before = self.metas_seq();
                    let ghost target = MetaModel { device_id: device_id@, head: new_head@ };
                    self.metas.push(new_meta);
                    proof {
                        assert(self.metas_seq() =~= before.push(target));
                        lemma_meta_map_push(before, target);
                        assert(self.patches_seq() == old(self).patches_seq());
                    }
                    return Ok(());
                } else {
                    return Err(StoreError::Conflict);
                }
            }
            i = j;
        }
        proof {
            lemma_meta_map_no_key(self.metas_seq(), device_id@);
        }
        match expected_previous {
            None => {
                let new_meta = Meta {
                    device_id: copy_bytes(device_id),
                    head: new_head.duplicate(),
                };
                let ghost before = self.metas_seq();
                let ghost target = MetaModel { device_id: device_id@, head: new_head@ };
                self.metas.push(new_meta);
                proof {
                    assert(self.metas_seq() =~= before.push(target));
                    lemma_meta_map_push(before, target);
                    assert(self.patches_seq() == old(self).patches_seq());
                }
                Ok(())
            },
            Some(_) => Err(StoreError::Conflict),
        }
    }
}

} // verus!
