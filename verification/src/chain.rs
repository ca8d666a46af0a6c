//! The chain walker: follows parent refs backward from a head, newest first,
//! and the proof that chains in a content-addressed store are acyclic.

use vstd::prelude::*;
use vstd::seq_lib::*;

use crate::codec::lemma_parent_ref_shorter;
use crate::store::{content_addressed, Store};
use crate::types::{Patch, PatchModel, PatchRef, StoreError};

verus! {

/// The patches reachable from `r`, newest first: the patch at `r`, then its
/// ancestors, stopping at the chain root, at the first absent ref, or — in a
/// store that is not content-addressed — at a parent ref that fails to
/// shrink. In a content-addressed store every parent ref is strictly shorter
/// than its child's, so the walk follows the true parent links.
pub open spec fn chain(m: Map<Seq<u8>, PatchModel>, r: Seq<u8>) -> Seq<PatchModel>
    decreases r.len(),
{
    if m.contains_key(r) {
        match m[r].parent {
            Some(pr) => if pr.len() < r.len() {
                seq![m[r]] + chain(m, pr)
            } else {
                seq![m[r]]
            },
            None => seq![m[r]],
        }
    } else {
        Seq::empty()
    }
}

/// Whether the whole history from `r` back to its root is present.
pub open spec fn chain_ok(m: Map<Seq<u8>, PatchModel>, r: Seq<u8>) -> bool
    decreases r.len(),
{
    if m.contains_key(r) {
        match m[r].parent {
            Some(pr) => pr.len() < r.len() && chain_ok(m, pr),
            None => true,
        }
    } else {
        false
    }
}

/// The refs visited along the chain from `r`, in walk order.
pub open spec fn chain_refs(m: Map<Seq<u8>, PatchModel>, r: Seq<u8>) -> Seq<Seq<u8>>
    decreases r.len(),
{
    if m.contains_key(r) {
        match m[r].parent {
            Some(pr) => if pr.len() < r.len() {
                seq![r] + chain_refs(m, pr)
            } else {
                seq![r]
            },
            None => seq![r],
        }
    } else {
        Seq::empty()
    }
}

proof fn lemma_chain_refs_decreasing(m: Map<Seq<u8>, PatchModel>, r: Seq<u8>)
    ensures
        chain_refs(m, r).len() > 0 ==> chain_refs(m, r)[0] == r,
        forall|i: int, j: int| #![trigger chain_refs(m, r)[i], chain_refs(m, r)[j]]
            0 <= i < j < chain_refs(m, r).len() ==> chain_refs(m, r)[j].len() < chain_refs(
                m,
                r,
            )[i].len(),
    decreases r.len(),
{
    if m.contains_key(r) {
        match m[r].parent {
            Some(pr) => {
                if pr.len() < r.len() {
                    lemma_chain_refs_decreasing(m, pr);
                    let tail = chain_refs(m, pr);
                    let refs = chain_refs(m, r);
                    assert(refs == seq![r] + tail);
                    assert forall|i: int, j: int| #![trigger refs[i], refs[j]]
                        0 <= i < j < refs.len() implies refs[j].len() < refs[i].len() by {
                        assert(refs[j] == tail[j - 1]);
                        if i == 0 {
                            assert(refs[0] == r);
                            assert(tail[0] == pr);
                            if j > 1 {
                                assert(tail[j - 1].len() < tail[0].len());
                            }
                        } else {
                            assert(refs[i] == tail[i - 1]);
                        }
                    };
                }
            },
            None => {},
        }
    }
}

/// Acyclicity: in a content-addressed store, the chain reachable from any
/// ref visits every ref at most once — parent refs strictly shrink along the
/// walk, so parent links can form no cycle, and every chain is finite (it is
/// a sequence, built by a walk that terminates).
pub proof fn lemma_chain_acyclic(m: Map<Seq<u8>, PatchModel>, r: Seq<u8>)
    requires
        content_addressed(m),
    ensures
        forall|i: int, j: int| #![trigger chain_refs(m, r)[i], chain_refs(m, r)[j]]
            0 <= i < j < chain_refs(m, r).len() ==> chain_refs(m, r)[i] != chain_refs(m, r)[j],
{
    lemma_chain_refs_decreasing(m, r);
}

/// Every patch along a chain of a content-addressed store is well formed.
pub proof fn lemma_chain_wf(m: Map<Seq<u8>, PatchModel>, r: Seq<u8>)
    requires
        content_addressed(m),
    ensures
        forall|i: int| 0 <= i < chain(m, r).len() ==> crate::codec::patch_wf(
            #[trigger] chain(m, r)[i],
        ),
    decreases r.len(),
{
    if m.contains_key(r) {
        match m[r].parent {
            Some(pr) => {
                if pr.len() < r.len() {
                    lemma_chain_wf(m, pr);
                    assert forall|i: int| 0 <= i < chain(m, r).len() implies crate::codec::patch_wf(
                        #[trigger] chain(m, r)[i],
                    ) by {
                        if i > 0 {
                            assert(chain(m, r)[i] == chain(m, pr)[i - 1]);
                        }
                    };
                }
            },
            None => {},
        }
    }
}

/// Walks the chain from `start` as far as the store allows: returns the
/// patches found, newest first, and whether the walk reached the chain root.
pub fn walk_chain_partial<S: Store>(store: &S, start: &PatchRef) -> (result: (Vec<Patch>, bool))
    requires
        store.inv(),
    ensures
        result.0@.map_values(|p: Patch| p@) == chain(store.patches(), start@),
        result.1 == chain_ok(store.patches(), start@),
{
    let ghost m = store.patches();
    let mut out: Vec<Patch> = Vec::new();
    let mut cur: Option<PatchRef> = Some(start.duplicate());
    loop
        invariant
            store.inv(),
            m == store.patches(),
            match cur {
                Some(r) => chain(m, start@) == out@.map_values(|p: Patch| p@) + chain(m, r@) && (
                chain_ok(m, start@) <==> chain_ok(m, r@)),
                None => chain(m, start@) == out@.map_values(|p: Patch| p@) && chain_ok(m, start@),
            },
        decreases (match cur {
            Some(r) => r@.len() + 1,
            None => 0,
        }),
    {
        match &cur {
            None => {
                return (out, true);
            },
            Some(r) => {
                match store.get_patch(r) {
                    Ok(p) => {
                        proof {
                            store.lemma_inv();
                            assert(m.contains_key(r@));
                            assert(p@ == m[r@]);
                            lemma_parent_ref_shorter(p@);
                        }
                        let next: Option<PatchRef> = match &p.parent {
                            Some(pr) => Some(pr.duplicate()),
                            None => None,
                        };
                        let ghost prev = out@.map_values(|q: Patch| q@);
                        out.push(p);
                        proof {
                            assert(out@.map_values(|q: Patch| q@) =~= prev.push(m[r@]));
                            assert(prev.push(m[r@]) =~= prev + seq![m[r@]]);
                            match m[r@].parent {
                                Some(pr) => {
                                    assert(chain(m, r@) == seq![m[r@]] + chain(m, pr));
                                    assert((prev + seq![m[r@]]) + chain(m, pr) =~= prev + (seq![
                                        m[r@],
                                    ] + chain(m, pr)));
                                },
                                None => {
                                    assert(chain(m, r@) == seq![m[r@]]);
                                },
                            }
                        }
                        cur = next;
                    },
                    Err(_) => {
                        proof {
                            assert(chain(m, r@) =~= Seq::<PatchModel>::empty());
                            assert(out@.map_values(|q: Patch| q@) + chain(m, r@)
                                =~= out@.map_values(|q: Patch| q@));
                        }
                        return (out, false);
                    },
                }
            },
        }
    }
}

/// The chain walker of the read interface: the patches from `start` back to
/// the chain root, newest first, or `Broken` if an interior patch cannot be
/// fetched — reported rather than silently truncated, because a broken chain
/// means that device's timeline is incomplete.
pub fn walk_chain<S: Store>(store: &S, start: &PatchRef) -> (result: Result<
    Vec<Patch>,
    StoreError,
>)
    requires
        store.inv(),
    ensures
        match result {
            Ok(v) => chain_ok(store.patches(), start@) && v@.map_values(|p: Patch| p@) == chain(
                store.patches(),
                start@,
            ),
            Err(e) => e == StoreError::Broken && !chain_ok(store.patches(), start@),
        },
{
    let (v, complete) = walk_chain_partial(store, start);
    if complete {
        Ok(v)
    } else {
        Err(StoreError::Broken)
    }
}

} // verus!
