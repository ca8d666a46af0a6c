//! The deterministic order of the merged timeline.
//!
//! Events are ordered by timestamp, ties broken by device id
//! (byte-lexicographic), and remaining ties by the canonical encoding of the
//! tag list, so that the order is total on distinct events and the merged
//! timeline has exactly one shape for a given set of events.

use vstd::prelude::*;
use vstd::seq_lib::*;

use crate::codec::{enc_tags, event_wf, lemma_tags_enc_injective, len_ok};
use crate::types::{Event, EventModel};

verus! {

/// Byte-lexicographic order: a proper prefix comes first, otherwise the first
/// differing byte decides.
pub open spec fn bytes_lt(a: Seq<u8>, b: Seq<u8>) -> bool
    decreases a.len(),
{
    if b.len() == 0 {
        false
    } else if a.len() == 0 {
        true
    } else if a[0] < b[0] {
        true
    } else if a[0] > b[0] {
        false
    } else {
        bytes_lt(a.skip(1), b.skip(1))
    }
}

/// Two byte strings that neither precede the other are equal.
pub proof fn lemma_bytes_lt_connected(a: Seq<u8>, b: Seq<u8>)
    requires
        !bytes_lt(a, b),
        !bytes_lt(b, a),
    ensures
        a == b,
    decreases a.len(),
{
    if b.len() == 0 {
        assert(a.len() == 0);
        assert(a =~= b);
    } else if a.len() == 0 {
        assert(bytes_lt(a, b));
    } else {
        assert(a[0] == b[0]);
        lemma_bytes_lt_connected(a.skip(1), b.skip(1));
        assert(a =~= b) by {
            assert(forall|i: int|
                1 <= i < a.len() ==> a[i] == a.skip(1)[i - 1] && b[i] == b.skip(1)[i - 1]);
        };
    }
}

/// The order is asymmetric.
pub proof fn lemma_bytes_lt_asymmetric(a: Seq<u8>, b: Seq<u8>)
    requires
        bytes_lt(a, b),
    ensures
        !bytes_lt(b, a),
    decreases a.len(),
{
    if b.len() == 0 {
    } else if a.len() == 0 {
    } else if a[0] == b[0] {
        lemma_bytes_lt_asymmetric(a.skip(1), b.skip(1));
    }
}

/// No byte string precedes itself.
pub proof fn lemma_bytes_lt_irreflexive(a: Seq<u8>)
    ensures
        !bytes_lt(a, a),
{
    if bytes_lt(a, a) {
        lemma_bytes_lt_asymmetric(a, a);
    }
}

/// The order is transitive.
pub proof fn lemma_bytes_lt_transitive(a: Seq<u8>, b: Seq<u8>, c: Seq<u8>)
    requires
        bytes_lt(a, b),
        bytes_lt(b, c),
    ensures
        bytes_lt(a, c),
    decreases a.len(),
{
    if b.len() == 0 {
    } else if c.len() == 0 {
    } else if a.len() == 0 {
    } else {
        if a[0] == b[0] && b[0] == c[0] {
            lemma_bytes_lt_transitive(a.skip(1), b.skip(1), c.skip(1));
        }
    }
}

/// Equal prefixes of length `i` do not affect the order of what follows.
proof fn lemma_bytes_lt_skip(a: Seq<u8>, b: Seq<u8>, i: int)
    requires
        0 <= i <= a.len(),
        i <= b.len(),
        forall|k: int| 0 <= k < i ==> a[k] == b[k],
    ensures
        bytes_lt(a, b) <==> bytes_lt(a.skip(i), b.skip(i)),
    decreases i,
{
    if i == 0 {
        assert(a.skip(0) =~= a);
        assert(b.skip(0) =~= b);
    } else {
        assert(a.len() > 0 && b.len() > 0 && a[0] == b[0]);
        lemma_bytes_lt_skip(a.skip(1), b.skip(1), i - 1);
        assert(a.skip(1).skip(i - 1) =~= a.skip(i));
        assert(b.skip(1).skip(i - 1) =~= b.skip(i));
    }
}

/// Three-way comparison result.
#[derive(Clone, Copy, Debug, PartialEq, Eq, Structural)]
pub enum Cmp {
    Lt,
    Eq,
    Gt,
}

/// Byte-lexicographic three-way comparison.
pub fn cmp_bytes(a: &Vec<u8>, b: &Vec<u8>) -> (r: Cmp)
    ensures
        r == Cmp::Lt <==> bytes_lt(a@, b@),
        r == Cmp::Eq <==> a@ == b@,
        r == Cmp::Gt <==> bytes_lt(b@, a@),
{
    let n: usize = if a.len() < b.len() {
        a.len()
    } else {
        b.len()
    };
    let mut i: usize = 0;
    while i < n
        invariant
            i <= n,
            n <= a.len(),
            n <= b.len(),
            n == if a@.len() < b@.len() {
                a@.len()
            } else {
                b@.len()
            },
            forall|k: int| 0 <= k < i ==> a@[k] == b@[k],
        decreases n - i,
    {
        if a[i] < b[i] {
            proof {
                lemma_bytes_lt_skip(a@, b@, i as int);
                assert(a@.skip(i as int)[0] == a@[i as int]);
                assert(b@.skip(i as int)[0] == b@[i as int]);
                assert(bytes_lt(a@, b@));
                lemma_bytes_lt_asymmetric(a@, b@);
                lemma_bytes_lt_irreflexive(a@);
            }
            return Cmp::Lt;
        }
        if a[i] > b[i] {
            proof {
                lemma_bytes_lt_skip(b@, a@, i as int);
                assert(a@.skip(i as int)[0] == a@[i as int]);
                assert(b@.skip(i as int)[0] == b@[i as int]);
                assert(bytes_lt(b@, a@));
                lemma_bytes_lt_asymmetric(b@, a@);
                lemma_bytes_lt_irreflexive(b@);
            }
            return Cmp::Gt;
        }
        i = i + 1;
    }
    proof {
        lemma_bytes_lt_skip(a@, b@, n as int);
        lemma_bytes_lt_skip(b@, a@, n as int);
    }
    if a.len() < b.len() {
        proof {
            assert(a@.skip(n as int).len() == 0 && b@.skip(n as int).len() > 0);
            assert(bytes_lt(a@, b@));
            lemma_bytes_lt_asymmetric(a@, b@);
            lemma_bytes_lt_irreflexive(a@);
        }
        Cmp::Lt
    } else if a.len() > b.len() {
        proof {
            assert(b@.skip(n as int).len() == 0 && a@.skip(n as int).len() > 0);
            assert(bytes_lt(b@, a@));
            lemma_bytes_lt_asymmetric(b@, a@);
            lemma_bytes_lt_irreflexive(b@);
        }
        Cmp::Gt
    } else {
        proof {
            assert(a@ =~= b@);
            lemma_bytes_lt_irreflexive(a@);
        }
        Cmp::Eq
    }
}

/// The timeline order: timestamp, then device id, then the canonical
/// encoding of the tag list.
pub open spec fn event_lt(a: EventModel, b: EventModel) -> bool {
    ||| a.timestamp < b.timestamp
    ||| (a.timestamp == b.timestamp && bytes_lt(a.device_id, b.device_id))
    ||| (a.timestamp == b.timestamp && a.device_id == b.device_id && bytes_lt(
        enc_tags(a.tags),
        enc_tags(b.tags),
    ))
}

/// Two well-formed events that neither precede the other are the same event,
/// so the order is total on distinct events.
pub proof fn lemma_event_order_connected(a: EventModel, b: EventModel)
    requires
        event_wf(a),
        event_wf(b),
        !event_lt(a, b),
        !event_lt(b, a),
    ensures
        a == b,
{
    assert(a.timestamp == b.timestamp);
    lemma_bytes_lt_connected(a.device_id, b.device_id);
    lemma_bytes_lt_connected(enc_tags(a.tags), enc_tags(b.tags));
    lemma_tags_enc_injective(a.tags, b.tags);
    assert(a =~= b);
}

/// No event precedes itself.
pub proof fn lemma_event_lt_irreflexive(a: EventModel)
    ensures
        !event_lt(a, a),
{
    lemma_bytes_lt_irreflexive(a.device_id);
    lemma_bytes_lt_irreflexive(enc_tags(a.tags));
}

/// The event order is asymmetric.
pub proof fn lemma_event_lt_asymmetric(a: EventModel, b: EventModel)
    requires
        event_lt(a, b),
    ensures
        !event_lt(b, a),
{
    if event_lt(b, a) {
        if a.timestamp == b.timestamp {
            if bytes_lt(a.device_id, b.device_id) {
                lemma_bytes_lt_asymmetric(a.device_id, b.device_id);
            } else if bytes_lt(b.device_id, a.device_id) {
                lemma_bytes_lt_asymmetric(b.device_id, a.device_id);
            } else {
                lemma_bytes_lt_asymmetric(enc_tags(a.tags), enc_tags(b.tags));
            }
        }
    }
}

/// The event order is transitive.
pub proof fn lemma_event_lt_transitive(a: EventModel, b: EventModel, c: EventModel)
    requires
        event_lt(a, b),
        event_lt(b, c),
    ensures
        event_lt(a, c),
{
    if a.timestamp == b.timestamp && b.timestamp == c.timestamp {
        if bytes_lt(a.device_id, b.device_id) && bytes_lt(b.device_id, c.device_id) {
            lemma_bytes_lt_transitive(a.device_id, b.device_id, c.device_id);
        } else if a.device_id == b.device_id && b.device_id == c.device_id {
            lemma_bytes_lt_transitive(enc_tags(a.tags), enc_tags(b.tags), enc_tags(c.tags));
        }
    }
}

/// The canonical encoding of a tag list, used as the order's tie-break.
pub fn tags_encoding(tags: &Vec<Vec<u8>>) -> (r: Vec<u8>)
    ensures
        r@ == enc_tags(tags@.map_values(|t: Vec<u8>| t@)),
        tags@.len() <= u64::MAX,
        forall|i: int| 0 <= i < tags@.len() ==> len_ok((#[trigger] tags@[i])@),
{
    let mut out: Vec<u8> = Vec::new();
    crate::codec::push_tags(&mut out, tags);
    proof {
        assert(Seq::<u8>::empty() + enc_tags(tags@.map_values(|t: Vec<u8>| t@)) =~= enc_tags(
            tags@.map_values(|t: Vec<u8>| t@),
        ));
    }
    out
}

/// Three-way comparison in the timeline order; `Cmp::Eq` means the two
/// events are identical.
pub fn cmp_event(a: &Event, b: &Event) -> (r: Cmp)
    ensures
        r == Cmp::Lt <==> event_lt(a@, b@),
        r == Cmp::Eq <==> a@ == b@,
        r == Cmp::Gt <==> event_lt(b@, a@),
{
    if a.timestamp < b.timestamp {
        proof {
            assert(a@ != b@);
        }
        return Cmp::Lt;
    }
    if a.timestamp > b.timestamp {
        proof {
            assert(a@ != b@);
        }
        return Cmp::Gt;
    }
    match cmp_bytes(&a.device_id, &b.device_id) {
        Cmp::Lt => {
            proof {
                assert(a@ != b@);
                lemma_bytes_lt_asymmetric(a@.device_id, b@.device_id);
                lemma_bytes_lt_irreflexive(a@.device_id);
            }
            Cmp::Lt
        },
        Cmp::Gt => {
            proof {
                assert(a@ != b@);
                lemma_bytes_lt_asymmetric(b@.device_id, a@.device_id);
                lemma_bytes_lt_irreflexive(b@.device_id);
            }
            Cmp::Gt
        },
        Cmp::Eq => {
            let ea = tags_encoding(&a.tags);
            let eb = tags_encoding(&b.tags);
            match cmp_bytes(&ea, &eb) {
                Cmp::Lt => {
                    proof {
                        if a@ == b@ {
                            lemma_bytes_lt_irreflexive(ea@);
                        }
                        lemma_bytes_lt_asymmetric(ea@, eb@);
                    }
                    Cmp::Lt
                },
                Cmp::Gt => {
                    proof {
                        if a@ == b@ {
                            lemma_bytes_lt_irreflexive(eb@);
                        }
                        lemma_bytes_lt_asymmetric(eb@, ea@);
                    }
                    Cmp::Gt
                },
                Cmp::Eq => {
                    proof {
                        lemma_tags_enc_injective(a@.tags, b@.tags);
                        assert(a@ =~= b@);
                        lemma_bytes_lt_irreflexive(ea@);
                        lemma_bytes_lt_irreflexive(a@.device_id);
                    }
                    Cmp::Eq
                },
            }
        },
    }
}

} // verus!
