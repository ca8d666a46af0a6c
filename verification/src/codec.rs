//! Canonical serialization of patches, and the proof that it is injective.
//!
//! A patch's ref is its canonical serialization: every variable-length field
//! is length-prefixed, so the encoding can be decoded back to exactly the
//! patch it came from. Injectivity makes the two content-addressing
//! invariants theorems: identical content always yields an identical ref, and
//! any change of content changes the ref. Because the encoding embeds the
//! parent ref, a ref is also strictly longer than its parent's, which rules
//! out cycles in parent chains.

use vstd::prelude::*;
use vstd::seq_lib::*;

use crate::types::{Event, EventModel, Patch, PatchModel, PatchRef};

verus! {

/// Whether a byte string is short enough for its length to be carried in the
/// encoding's eight-byte length prefix. Every executable byte vector is.
pub open spec fn len_ok(s: Seq<u8>) -> bool {
    s.len() <= u64::MAX
}

/// Well-formedness of an event model: all fields fit their length prefixes.
pub open spec fn event_wf(e: EventModel) -> bool {
    &&& len_ok(e.device_id)
    &&& e.tags.len() <= u64::MAX
    &&& forall|i: int| 0 <= i < e.tags.len() ==> len_ok(#[trigger] e.tags[i])
}

/// Well-formedness of a patch model: all fields fit their length prefixes.
pub open spec fn patch_wf(p: PatchModel) -> bool {
    &&& match p.parent {
        Some(r) => len_ok(r),
        None => true,
    }
    &&& len_ok(p.device_id)
    &&& p.events.len() <= u64::MAX
    &&& forall|i: int| 0 <= i < p.events.len() ==> event_wf(#[trigger] p.events[i])
}

/// A 64-bit integer as eight little-endian bytes.
pub open spec fn enc_u64(x: u64) -> Seq<u8> {
    seq![
        x as u8,
        (x >> 8) as u8,
        (x >> 16) as u8,
        (x >> 24) as u8,
        (x >> 32) as u8,
        (x >> 40) as u8,
        (x >> 48) as u8,
        (x >> 56) as u8,
    ]
}

/// The integer carried by eight little-endian bytes.
pub open spec fn u64_of_bytes(b0: u8, b1: u8, b2: u8, b3: u8, b4: u8, b5: u8, b6: u8, b7: u8) -> u64 {
    (b0 as u64) | ((b1 as u64) << 8) | ((b2 as u64) << 16) | ((b3 as u64) << 24)
        | ((b4 as u64) << 32) | ((b5 as u64) << 40) | ((b6 as u64) << 48) | ((b7 as u64) << 56)
}

/// A byte string, length-prefixed.
pub open spec fn enc_bytes(b: Seq<u8>) -> Seq<u8> {
    enc_u64(b.len() as u64) + b
}

/// A list of byte strings, each length-prefixed, concatenated.
pub open spec fn enc_bytes_list(l: Seq<Seq<u8>>) -> Seq<u8>
    decreases l.len(),
{
    if l.len() == 0 {
        Seq::empty()
    } else {
        enc_bytes(l[0]) + enc_bytes_list(l.skip(1))
    }
}

/// A tag list: its count, then each tag length-prefixed.
pub open spec fn enc_tags(tags: Seq<Seq<u8>>) -> Seq<u8> {
    enc_u64(tags.len() as u64) + enc_bytes_list(tags)
}

/// An event: timestamp, device, tags.
pub open spec fn enc_event(e: EventModel) -> Seq<u8> {
    enc_u64(e.timestamp) + enc_bytes(e.device_id) + enc_tags(e.tags)
}

/// A list of events, concatenated.
pub open spec fn enc_event_list(es: Seq<EventModel>) -> Seq<u8>
    decreases es.len(),
{
    if es.len() == 0 {
        Seq::empty()
    } else {
        enc_event(es[0]) + enc_event_list(es.skip(1))
    }
}

/// The canonical serialization of a patch, and therefore its ref: a presence
/// byte and the parent ref, then the device, creation instant, and events.
pub open spec fn enc_patch(p: PatchModel) -> Seq<u8> {
    (match p.parent {
        Some(r) => seq![1u8] + enc_bytes(r),
        None => seq![0u8],
    }) + enc_bytes(p.device_id) + enc_u64(p.created_at) + enc_u64(p.events.len() as u64)
        + enc_event_list(p.events)
}

// ---------------------------------------------------------------------------
// Decoding. These functions exist only to prove that encoding is injective:
// each returns the decoded value and the unread remainder of its input.
// ---------------------------------------------------------------------------

/// Reads eight little-endian bytes.
pub open spec fn dec_u64(s: Seq<u8>) -> Option<(u64, Seq<u8>)> {
    if s.len() >= 8 {
        Some((u64_of_bytes(s[0], s[1], s[2], s[3], s[4], s[5], s[6], s[7]), s.skip(8)))
    } else {
        None
    }
}

/// Reads a length-prefixed byte string.
pub open spec fn dec_bytes(s: Seq<u8>) -> Option<(Seq<u8>, Seq<u8>)> {
    match dec_u64(s) {
        Some((n, r)) => if r.len() >= n {
            Some((r.take(n as int), r.skip(n as int)))
        } else {
            None
        },
        None => None,
    }
}

/// Reads `n` length-prefixed byte strings.
pub open spec fn dec_bytes_list(s: Seq<u8>, n: nat) -> Option<(Seq<Seq<u8>>, Seq<u8>)>
    decreases n,
{
    if n == 0 {
        Some((Seq::empty(), s))
    } else {
        match dec_bytes(s) {
            Some((b, r)) => match dec_bytes_list(r, (n - 1) as nat) {
                Some((bs, r2)) => Some((seq![b] + bs, r2)),
                None => None,
            },
            None => None,
        }
    }
}

/// Reads a counted tag list.
pub open spec fn dec_tags(s: Seq<u8>) -> Option<(Seq<Seq<u8>>, Seq<u8>)> {
    match dec_u64(s) {
        Some((n, r)) => dec_bytes_list(r, n as nat),
        None => None,
    }
}

/// Reads one event.
pub open spec fn dec_event(s: Seq<u8>) -> Option<(EventModel, Seq<u8>)> {
    match dec_u64(s) {
        Some((ts, r1)) => match dec_bytes(r1) {
            Some((dev, r2)) => match dec_tags(r2) {
                Some((tags, r3)) => Some(
                    (EventModel { timestamp: ts, tags: tags, device_id: dev }, r3),
                ),
                None => None,
            },
            None => None,
        },
        None => None,
    }
}

/// Reads `n` events.
pub open spec fn dec_event_list(s: Seq<u8>, n: nat) -> Option<(Seq<EventModel>, Seq<u8>)>
    decreases n,
{
    if n == 0 {
        Some((Seq::empty(), s))
    } else {
        match dec_event(s) {
            Some((e, r)) => match dec_event_list(r, (n - 1) as nat) {
                Some((es, r2)) => Some((seq![e] + es, r2)),
                None => None,
            },
            None => None,
        }
    }
}

/// Reads back a whole patch.
pub open spec fn dec_patch(s: Seq<u8>) -> Option<(PatchModel, Seq<u8>)> {
    if s.len() < 1 {
        None
    } else {
        let head = if s[0] == 1u8 {
            match dec_bytes(s.skip(1)) {
                Some((pr, r)) => Some((Some(pr), r)),
                None => None,
            }
        } else if s[0] == 0u8 {
            Some((None::<Seq<u8>>, s.skip(1)))
        } else {
            None
        };
        match head {
            Some((parent, r1)) => match dec_bytes(r1) {
                Some((dev, r2)) => match dec_u64(r2) {
                    Some((created, r3)) => match dec_u64(r3) {
                        Some((n, r4)) => match dec_event_list(r4, n as nat) {
                            Some((es, r5)) => Some(
                                (
                                    PatchModel {
                                        parent: parent,
                                        device_id: dev,
                                        events: es,
                                        created_at: created,
                                    },
                                    r5,
                                ),
                            ),
                            None => None,
                        },
                        None => None,
                    },
                    None => None,
                },
                None => None,
            },
            None => None,
        }
    }
}

// ---------------------------------------------------------------------------
// Round-trip lemmas: decoding undoes encoding, with any remainder untouched.
// ---------------------------------------------------------------------------

/// Splitting a concatenation at the boundary recovers both halves.
proof fn lemma_concat_parts<T>(a: Seq<T>, b: Seq<T>)
    ensures
        (a + b).take(a.len() as int) == a,
        (a + b).skip(a.len() as int) == b,
{
    assert((a + b).take(a.len() as int) =~= a);
    assert((a + b).skip(a.len() as int) =~= b);
}

/// Concatenation is associative.
proof fn lemma_concat_assoc<T>(a: Seq<T>, b: Seq<T>, c: Seq<T>)
    ensures
        (a + b) + c == a + (b + c),
{
    assert((a + b) + c =~= a + (b + c));
}

proof fn lemma_dec_enc_u64(x: u64, rest: Seq<u8>)
    ensures
        dec_u64(enc_u64(x) + rest) == Some((x, rest)),
{
    let s = enc_u64(x) + rest;
    assert(s.len() >= 8);
    let b0 = x as u8;
    let b1 = (x >> 8) as u8;
    let b2 = (x >> 16) as u8;
    let b3 = (x >> 24) as u8;
    let b4 = (x >> 32) as u8;
    let b5 = (x >> 40) as u8;
    let b6 = (x >> 48) as u8;
    let b7 = (x >> 56) as u8;
    assert(u64_of_bytes(b0, b1, b2, b3, b4, b5, b6, b7) == x) by (bit_vector)
        requires
            b0 == x as u8,
            b1 == (x >> 8) as u8,
            b2 == (x >> 16) as u8,
            b3 == (x >> 24) as u8,
            b4 == (x >> 32) as u8,
            b5 == (x >> 40) as u8,
            b6 == (x >> 48) as u8,
            b7 == (x >> 56) as u8,
    ;
    assert(s[0] == b0 && s[1] == b1 && s[2] == b2 && s[3] == b3 && s[4] == b4 && s[5] == b5
        && s[6] == b6 && s[7] == b7);
    assert(s.skip(8) =~= rest);
}

proof fn lemma_dec_enc_bytes(b: Seq<u8>, rest: Seq<u8>)
    requires
        len_ok(b),
    ensures
        dec_bytes(enc_bytes(b) + rest) == Some((b, rest)),
{
    let n = b.len() as u64;
    lemma_concat_assoc(enc_u64(n), b, rest);
    lemma_dec_enc_u64(n, b + rest);
    lemma_concat_parts(b, rest);
}

#[verifier::rlimit(100)]
#[verifier::spinoff_prover]
proof fn lemma_dec_enc_bytes_list(l: Seq<Seq<u8>>, rest: Seq<u8>)
    requires
        forall|i: int| 0 <= i < l.len() ==> len_ok(#[trigger] l[i]),
    ensures
        dec_bytes_list(enc_bytes_list(l) + rest, l.len()) == Some((l, rest)),
    decreases l.len(),
{
    if l.len() == 0 {
        assert(enc_bytes_list(l) + rest =~= rest);
        assert(l =~= Seq::<Seq<u8>>::empty());
    } else {
        let hd = l[0];
        let tl = l.skip(1);
        assert(enc_bytes_list(l) == enc_bytes(hd) + enc_bytes_list(tl));
        lemma_concat_assoc(enc_bytes(hd), enc_bytes_list(tl), rest);
        lemma_dec_enc_bytes(hd, enc_bytes_list(tl) + rest);
        assert(forall|i: int| 0 <= i < tl.len() ==> len_ok(#[trigger] tl[i]));
        lemma_dec_enc_bytes_list(tl, rest);
        assert(seq![hd] + tl =~= l);
    }
}

proof fn lemma_dec_enc_tags(tags: Seq<Seq<u8>>, rest: Seq<u8>)
    requires
        tags.len() <= u64::MAX,
        forall|i: int| 0 <= i < tags.len() ==> len_ok(#[trigger] tags[i]),
    ensures
        dec_tags(enc_tags(tags) + rest) == Some((tags, rest)),
{
    let n = tags.len() as u64;
    lemma_concat_assoc(enc_u64(n), enc_bytes_list(tags), rest);
    lemma_dec_enc_u64(n, enc_bytes_list(tags) + rest);
    lemma_dec_enc_bytes_list(tags, rest);
}

proof fn lemma_dec_enc_event(e: EventModel, rest: Seq<u8>)
    requires
        event_wf(e),
    ensures
        dec_event(enc_event(e) + rest) == Some((e, rest)),
{
    let s1 = enc_bytes(e.device_id) + enc_tags(e.tags);
    lemma_concat_assoc(enc_u64(e.timestamp), s1, rest);
    assert(enc_event(e) + rest == enc_u64(e.timestamp) + (s1 + rest)) by {
        lemma_concat_assoc(enc_u64(e.timestamp) + enc_bytes(e.device_id), enc_tags(e.tags), rest);
        lemma_concat_assoc(enc_u64(e.timestamp), enc_bytes(e.device_id), enc_tags(e.tags));
        lemma_concat_assoc(enc_u64(e.timestamp), enc_bytes(e.device_id), enc_tags(e.tags) + rest);
        lemma_concat_assoc(enc_bytes(e.device_id), enc_tags(e.tags), rest);
    };
    lemma_dec_enc_u64(e.timestamp, s1 + rest);
    lemma_concat_assoc(enc_bytes(e.device_id), enc_tags(e.tags), rest);
    lemma_dec_enc_bytes(e.device_id, enc_tags(e.tags) + rest);
    lemma_dec_enc_tags(e.tags, rest);
    assert(EventModel { timestamp: e.timestamp, tags: e.tags, device_id: e.device_id } =~= e);
}

#[verifier::rlimit(100)]
#[verifier::spinoff_prover]
proof fn lemma_dec_enc_event_list(es: Seq<EventModel>, rest: Seq<u8>)
    requires
        forall|i: int| 0 <= i < es.len() ==> event_wf(#[trigger] es[i]),
    ensures
        dec_event_list(enc_event_list(es) + rest, es.len()) == Some((es, rest)),
    decreases es.len(),
{
    if es.len() == 0 {
        assert(enc_event_list(es) + rest =~= rest);
        assert(es =~= Seq::<EventModel>::empty());
    } else {
        let hd = es[0];
        let tl = es.skip(1);
        assert(enc_event_list(es) == enc_event(hd) + enc_event_list(tl));
        lemma_concat_assoc(enc_event(hd), enc_event_list(tl), rest);
        lemma_dec_enc_event(hd, enc_event_list(tl) + rest);
        assert(forall|i: int| 0 <= i < tl.len() ==> event_wf(#[trigger] tl[i]));
        lemma_dec_enc_event_list(tl, rest);
        assert(seq![hd] + tl =~= es);
    }
}

#[verifier::rlimit(100)]
#[verifier::spinoff_prover]
proof fn lemma_dec_enc_patch(p: PatchModel, rest: Seq<u8>)
    requires
        patch_wf(p),
    ensures
        dec_patch(enc_patch(p) + rest) == Some((p, rest)),
{
    let hd = match p.parent {
        Some(r) => seq![1u8] + enc_bytes(r),
        None => seq![0u8],
    };
    let mid = enc_bytes(p.device_id) + enc_u64(p.created_at) + enc_u64(p.events.len() as u64)
        + enc_event_list(p.events);
    // enc_patch(p) + rest groups as hd + (mid + rest).
    assert(enc_patch(p) + rest == hd + (mid + rest)) by {
        lemma_concat_assoc(hd, enc_bytes(p.device_id), enc_u64(p.created_at));
        assert(enc_patch(p) =~= hd + mid);
        lemma_concat_assoc(hd, mid, rest);
    };
    let s = enc_patch(p) + rest;
    assert(s.len() >= 1);
    // The presence byte and the parent ref.
    match p.parent {
        Some(pr) => {
            lemma_concat_assoc(seq![1u8], enc_bytes(pr), mid + rest);
            assert(s == seq![1u8] + (enc_bytes(pr) + (mid + rest)));
            assert(s[0] == 1u8);
            assert(s.skip(1) =~= enc_bytes(pr) + (mid + rest));
            lemma_dec_enc_bytes(pr, mid + rest);
            assert(dec_bytes(s.skip(1)) == Some((pr, mid + rest)));
        },
        None => {
            assert(s[0] == 0u8);
            assert(s.skip(1) =~= mid + rest);
        },
    }
    // The device id.
    let after_dev = enc_u64(p.created_at) + enc_u64(p.events.len() as u64) + enc_event_list(
        p.events,
    );
    assert(mid + rest == enc_bytes(p.device_id) + (after_dev + rest)) by {
        assert(mid =~= enc_bytes(p.device_id) + after_dev);
        lemma_concat_assoc(enc_bytes(p.device_id), after_dev, rest);
    };
    lemma_dec_enc_bytes(p.device_id, after_dev + rest);
    // The creation instant.
    let after_created = enc_u64(p.events.len() as u64) + enc_event_list(p.events);
    assert(after_dev + rest == enc_u64(p.created_at) + (after_created + rest)) by {
        assert(after_dev =~= enc_u64(p.created_at) + after_created);
        lemma_concat_assoc(enc_u64(p.created_at), after_created, rest);
    };
    lemma_dec_enc_u64(p.created_at, after_created + rest);
    // The event count.
    lemma_concat_assoc(enc_u64(p.events.len() as u64), enc_event_list(p.events), rest);
    lemma_dec_enc_u64(p.events.len() as u64, enc_event_list(p.events) + rest);
    // The events themselves.
    lemma_dec_enc_event_list(p.events, rest);
    assert(PatchModel {
        parent: p.parent,
        device_id: p.device_id,
        events: p.events,
        created_at: p.created_at,
    } =~= p);
}

/// Content addressing is injective: two well-formed patches with the same
/// canonical serialization are the same patch. Identical content therefore
/// always yields an identical ref, and any change of content changes the ref.
pub proof fn lemma_ref_injective(p1: PatchModel, p2: PatchModel)
    requires
        patch_wf(p1),
        patch_wf(p2),
        enc_patch(p1) == enc_patch(p2),
    ensures
        p1 == p2,
{
    lemma_dec_enc_patch(p1, Seq::empty());
    lemma_dec_enc_patch(p2, Seq::empty());
    assert(enc_patch(p1) + Seq::<u8>::empty() =~= enc_patch(p1));
    assert(enc_patch(p2) + Seq::<u8>::empty() =~= enc_patch(p2));
}

/// Tag-list encoding is injective as well: two well-formed tag lists with the
/// same encoding are equal. The merge order uses the encoding of a tag list
/// as its final tie-break, and this is what makes that tie-break faithful.
pub proof fn lemma_tags_enc_injective(t1: Seq<Seq<u8>>, t2: Seq<Seq<u8>>)
    requires
        t1.len() <= u64::MAX,
        t2.len() <= u64::MAX,
        forall|i: int| 0 <= i < t1.len() ==> len_ok(#[trigger] t1[i]),
        forall|i: int| 0 <= i < t2.len() ==> len_ok(#[trigger] t2[i]),
        enc_tags(t1) == enc_tags(t2),
    ensures
        t1 == t2,
{
    lemma_dec_enc_tags(t1, Seq::empty());
    lemma_dec_enc_tags(t2, Seq::empty());
    assert(enc_tags(t1) + Seq::<u8>::empty() =~= enc_tags(t1));
    assert(enc_tags(t2) + Seq::<u8>::empty() =~= enc_tags(t2));
}

/// A ref embeds its parent's ref behind a length prefix, so it is strictly
/// longer. Along any parent chain refs strictly shrink, which is what makes
/// chains acyclic.
pub proof fn lemma_parent_ref_shorter(p: PatchModel)
    ensures
        match p.parent {
            Some(pr) => enc_patch(p).len() > pr.len(),
            None => true,
        },
{
}

// ---------------------------------------------------------------------------
// Executable encoding.
// ---------------------------------------------------------------------------

/// Appends the eight little-endian bytes of `x`.
fn push_u64(out: &mut Vec<u8>, x: u64)
    ensures
        final(out)@ == old(out)@ + enc_u64(x),
{
    out.push(#[verifier::truncate] (x as u8));
    out.push(#[verifier::truncate] ((x >> 8) as u8));
    out.push(#[verifier::truncate] ((x >> 16) as u8));
    out.push(#[verifier::truncate] ((x >> 24) as u8));
    out.push(#[verifier::truncate] ((x >> 32) as u8));
    out.push(#[verifier::truncate] ((x >> 40) as u8));
    out.push(#[verifier::truncate] ((x >> 48) as u8));
    out.push(#[verifier::truncate] ((x >> 56) as u8));
    proof {
        assert(out@ =~= old(out)@ + enc_u64(x));
    }
}

/// Appends `b`, length-prefixed.
fn push_bytes(out: &mut Vec<u8>, b: &Vec<u8>)
    ensures
        final(out)@ == old(out)@ + enc_bytes(b@),
        len_ok(b@),
{
    let n: usize = b.len();
    push_u64(out, n as u64);
    let ghost mark = out@;
    let mut i: usize = 0;
    while i < b.len()
        invariant
            i <= b.len(),
            out@ == mark + b@.take(i as int),
        decreases b.len() - i,
    {
        out.push(b[i]);
        i = i + 1;
        proof {
            assert(out@ =~= mark + b@.take(i as int));
        }
    }
    proof {
        assert(b@.take(b@.len() as int) =~= b@);
        lemma_concat_assoc(old(out)@, enc_u64(n as u64), b@);
    }
}

proof fn lemma_enc_bytes_list_push(l: Seq<Seq<u8>>, x: Seq<u8>)
    ensures
        enc_bytes_list(l.push(x)) == enc_bytes_list(l) + enc_bytes(x),
    decreases l.len(),
{
    if l.len() == 0 {
        assert(l.push(x)[0] == x);
        assert(l.push(x).skip(1) =~= Seq::<Seq<u8>>::empty());
        assert(enc_bytes_list(Seq::<Seq<u8>>::empty()) == Seq::<u8>::empty());
        assert(enc_bytes_list(l.push(x)) == enc_bytes(x) + Seq::<u8>::empty());
        assert(enc_bytes(x) + Seq::<u8>::empty() =~= enc_bytes(x));
        assert(enc_bytes_list(l) + enc_bytes(x) =~= enc_bytes(x));
    } else {
        assert(l.push(x)[0] == l[0]);
        assert(l.push(x).skip(1) =~= l.skip(1).push(x));
        lemma_enc_bytes_list_push(l.skip(1), x);
        lemma_concat_assoc(enc_bytes(l[0]), enc_bytes_list(l.skip(1)), enc_bytes(x));
    }
}

/// Appends a counted tag list.
pub(crate) fn push_tags(out: &mut Vec<u8>, tags: &Vec<Vec<u8>>)
    ensures
        final(out)@ == old(out)@ + enc_tags(tags@.map_values(|t: Vec<u8>| t@)),
        tags@.len() <= u64::MAX,
        forall|i: int| 0 <= i < tags@.len() ==> len_ok((#[trigger] tags@[i])@),
{
    let ghost tview = tags@.map_values(|t: Vec<u8>| t@);
    let n: usize = tags.len();
    push_u64(out, n as u64);
    let ghost mark = out@;
    proof {
        assert(enc_bytes_list(tview.take(0)) =~= Seq::<u8>::empty());
        assert(mark + enc_bytes_list(tview.take(0)) =~= mark);
    }
    let mut i: usize = 0;
    while i < tags.len()
        invariant
            i <= tags.len(),
            tview == tags@.map_values(|t: Vec<u8>| t@),
            out@ == mark + enc_bytes_list(tview.take(i as int)),
            forall|k: int| 0 <= k < i ==> len_ok(#[trigger] tview[k]),
        decreases tags.len() - i,
    {
        push_bytes(out, &tags[i]);
        i = i + 1;
        proof {
            assert(tview.take(i as int) =~= tview.take(i - 1).push(tview[i - 1]));
            lemma_enc_bytes_list_push(tview.take(i - 1), tview[i - 1]);
            lemma_concat_assoc(mark, enc_bytes_list(tview.take(i - 1)), enc_bytes(tview[i - 1]));
        }
    }
    proof {
        assert(tview.take(tview.len() as int) =~= tview);
        lemma_concat_assoc(old(out)@, enc_u64(n as u64), enc_bytes_list(tview));
        assert forall|k: int| 0 <= k < tags@.len() implies len_ok((#[trigger] tags@[k])@) by {
            assert(tags@.map_values(|t: Vec<u8>| t@)[k] == tags@[k]@);
        };
    }
}

/// Appends one event's encoding.
fn push_event(out: &mut Vec<u8>, e: &Event)
    ensures
        final(out)@ == old(out)@ + enc_event(e@),
        event_wf(e@),
{
    push_u64(out, e.timestamp);
    push_bytes(out, &e.device_id);
    push_tags(out, &e.tags);
    proof {
        lemma_concat_assoc(old(out)@, enc_u64(e.timestamp), enc_bytes(e@.device_id));
        lemma_concat_assoc(
            old(out)@,
            enc_u64(e.timestamp) + enc_bytes(e@.device_id),
            enc_tags(e@.tags),
        );
        lemma_concat_assoc(enc_u64(e.timestamp), enc_bytes(e@.device_id), enc_tags(e@.tags));
        assert forall|i: int| 0 <= i < e@.tags.len() implies len_ok(#[trigger] e@.tags[i]) by {
            assert(e@.tags[i] == e.tags@[i]@);
        };
    }
}

proof fn lemma_enc_event_list_push(l: Seq<EventModel>, x: EventModel)
    ensures
        enc_event_list(l.push(x)) == enc_event_list(l) + enc_event(x),
    decreases l.len(),
{
    if l.len() == 0 {
        assert(l.push(x)[0] == x);
        assert(l.push(x).skip(1) =~= Seq::<EventModel>::empty());
        assert(enc_event_list(Seq::<EventModel>::empty()) == Seq::<u8>::empty());
        assert(enc_event_list(l.push(x)) == enc_event(x) + Seq::<u8>::empty());
        assert(enc_event(x) + Seq::<u8>::empty() =~= enc_event(x));
        assert(enc_event_list(l) + enc_event(x) =~= enc_event(x));
    } else {
        assert(l.push(x)[0] == l[0]);
        assert(l.push(x).skip(1) =~= l.skip(1).push(x));
        lemma_enc_event_list_push(l.skip(1), x);
        lemma_concat_assoc(enc_event(l[0]), enc_event_list(l.skip(1)), enc_event(x));
    }
}

/// Computes the ref of a patch: its canonical serialization. The same
/// content always yields the same ref, and any other well-formed content
/// yields a different one.
pub fn compute_ref(patch: &Patch) -> (r: PatchRef)
    ensures
        r@ == enc_patch(patch@),
        patch_wf(patch@),
{
    let mut out: Vec<u8> = Vec::new();
    match &patch.parent {
        Some(pr) => {
            out.push(1u8);
            proof {
                assert(out@ =~= seq![1u8]);
            }
            push_bytes(&mut out, &pr.bytes);
        },
        None => {
            out.push(0u8);
            proof {
                assert(out@ =~= seq![0u8]);
            }
        },
    }
    let ghost hd = out@;
    push_bytes(&mut out, &patch.device_id);
    push_u64(&mut out, patch.created_at);
    let n: usize = patch.events.len();
    push_u64(&mut out, n as u64);
    let ghost mark = out@;
    let ghost eview = patch.events@.map_values(|e: Event| e@);
    proof {
        assert(enc_event_list(eview.take(0)) =~= Seq::<u8>::empty());
        assert(mark + enc_event_list(eview.take(0)) =~= mark);
    }
    let mut i: usize = 0;
    while i < patch.events.len()
        invariant
            i <= patch.events.len(),
            eview == patch.events@.map_values(|e: Event| e@),
            out@ == mark + enc_event_list(eview.take(i as int)),
            forall|k: int| 0 <= k < i ==> event_wf(#[trigger] eview[k]),
        decreases patch.events.len() - i,
    {
        push_event(&mut out, &patch.events[i]);
        i = i + 1;
        proof {
            assert(eview.take(i as int) =~= eview.take(i - 1).push(eview[i - 1]));
            lemma_enc_event_list_push(eview.take(i - 1), eview[i - 1]);
            lemma_concat_assoc(mark, enc_event_list(eview.take(i - 1)), enc_event(eview[i - 1]));
        }
    }
    proof {
        assert(eview.take(eview.len() as int) =~= eview);
        assert(out@ =~= enc_patch(patch@));
    }
    PatchRef { bytes: out }
}

} // verus!
