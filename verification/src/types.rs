//! The data model: events, patches, refs and per-device metas, together with
//! their mathematical views and the error taxonomy of the store.

use vstd::prelude::*;

verus! {

/// The start of one activity: when it began, which tags describe it, and
/// which device recorded it. Immutable once created; it never exists outside
/// a patch. Textual fields are byte strings.
pub struct Event {
    /// Seconds since the epoch.
    pub timestamp: u64,
    pub tags: Vec<Vec<u8>>,
    pub device_id: Vec<u8>,
}

/// Mathematical view of an [`Event`].
#[verifier::ext_equal]
pub ghost struct EventModel {
    pub timestamp: u64,
    pub tags: Seq<Seq<u8>>,
    pub device_id: Seq<u8>,
}

impl View for Event {
    type V = EventModel;

    open spec fn view(&self) -> EventModel {
        EventModel {
            timestamp: self.timestamp,
            tags: self.tags@.map_values(|t: Vec<u8>| t@),
            device_id: self.device_id@,
        }
    }
}

/// A content-derived identifier of a patch: the canonical serialization of
/// the patch it denotes. Two patches carry the same ref exactly when their
/// content is equal, and a ref embeds its parent's ref, so refs strictly grow
/// along a chain and parent links can never form a cycle.
pub struct PatchRef {
    pub bytes: Vec<u8>,
}

impl View for PatchRef {
    type V = Seq<u8>;

    open spec fn view(&self) -> Seq<u8> {
        self.bytes@
    }
}

impl PatchRef {
    /// An owned copy with the same bytes.
    pub fn duplicate(&self) -> (r: PatchRef)
        ensures
            r@ == self@,
    {
        PatchRef { bytes: copy_bytes(&self.bytes) }
    }
}

/// An immutable bundle of events recorded by one device. `parent` is `None`
/// only for the device's first-ever patch; otherwise it holds the ref of the
/// previous head, forming a per-device chain.
pub struct Patch {
    pub parent: Option<PatchRef>,
    pub device_id: Vec<u8>,
    pub events: Vec<Event>,
    /// Seconds since the epoch at which the patch was formed.
    pub created_at: u64,
}

/// Mathematical view of a [`Patch`].
#[verifier::ext_equal]
pub ghost struct PatchModel {
    pub parent: Option<Seq<u8>>,
    pub device_id: Seq<u8>,
    pub events: Seq<EventModel>,
    pub created_at: u64,
}

impl View for Patch {
    type V = PatchModel;

    open spec fn view(&self) -> PatchModel {
        PatchModel {
            parent: match self.parent {
                Option::Some(r) => Option::Some(r@),
                Option::None => Option::None,
            },
            device_id: self.device_id@,
            events: self.events@.map_values(|e: Event| e@),
            created_at: self.created_at,
        }
    }
}

impl Event {
    /// An owned copy describing the same event.
    pub fn duplicate(&self) -> (r: Event)
        ensures
            r@ == self@,
    {
        let r = Event {
            timestamp: self.timestamp,
            tags: copy_tags(&self.tags),
            device_id: copy_bytes(&self.device_id),
        };
        proof {
            assert(r@ =~= self@);
        }
        r
    }
}

impl Patch {
    /// An owned copy with the same content, and therefore the same ref.
    pub fn duplicate(&self) -> (r: Patch)
        ensures
            r@ == self@,
    {
        let parent = match &self.parent {
            Some(p) => Some(p.duplicate()),
            None => None,
        };
        let mut events: Vec<Event> = Vec::new();
        let mut i: usize = 0;
        while i < self.events.len()
            invariant
                i <= self.events.len(),
                events@.len() == i,
                forall|k: int| 0 <= k < i ==> events@[k]@ == self.events@[k]@,
            decreases self.events.len() - i,
        {
            events.push(self.events[i].duplicate());
            i = i + 1;
        }
        let r = Patch {
            parent,
            device_id: copy_bytes(&self.device_id),
            events,
            created_at: self.created_at,
        };
        proof {
            assert(r@.events =~= self@.events);
            assert(r@ =~= self@);
        }
        r
    }
}

/// An owned copy of a list of byte strings.
pub fn copy_tags(tags: &Vec<Vec<u8>>) -> (r: Vec<Vec<u8>>)
    ensures
        r@.map_values(|t: Vec<u8>| t@) == tags@.map_values(|t: Vec<u8>| t@),
{
    let mut out: Vec<Vec<u8>> = Vec::new();
    let mut i: usize = 0;
    while i < tags.len()
        invariant
            i <= tags.len(),
            out@.len() == i,
            forall|k: int| 0 <= k < i ==> out@[k]@ == tags@[k]@,
        decreases tags.len() - i,
    {
        out.push(copy_bytes(&tags[i]));
        i = i + 1;
    }
    proof {
        assert(out@.map_values(|t: Vec<u8>| t@) =~= tags@.map_values(|t: Vec<u8>| t@));
    }
    out
}

/// Per-device metadata: the device's identity and the ref of the current
/// head of its chain. Only the owning device ever rewrites its meta, and the
/// head only ever advances to a newly written patch.
pub struct Meta {
    pub device_id: Vec<u8>,
    pub head: PatchRef,
}

/// Mathematical view of a [`Meta`].
#[verifier::ext_equal]
pub ghost struct MetaModel {
    pub device_id: Seq<u8>,
    pub head: Seq<u8>,
}

impl View for Meta {
    type V = MetaModel;

    open spec fn view(&self) -> MetaModel {
        MetaModel { device_id: self.device_id@, head: self.head@ }
    }
}

impl Meta {
    /// An owned copy describing the same device and head.
    pub fn duplicate(&self) -> (r: Meta)
        ensures
            r@ == self@,
    {
        Meta { device_id: copy_bytes(&self.device_id), head: self.head.duplicate() }
    }
}

/// The views of a sequence of events.
pub open spec fn event_views(s: Seq<Event>) -> Seq<EventModel> {
    s.map_values(|q: Event| q@)
}

/// The views of a sequence of patches.
pub open spec fn patch_views(s: Seq<Patch>) -> Seq<PatchModel> {
    s.map_values(|p: Patch| p@)
}

/// The views of a sequence of byte strings.
pub open spec fn bytes_views(s: Seq<Vec<u8>>) -> Seq<Seq<u8>> {
    s.map_values(|v: Vec<u8>| v@)
}

/// The error taxonomy of the store and of the operations over it.
#[derive(Clone, Copy, Debug, PartialEq, Eq, Structural)]
pub enum StoreError {
    /// The requested meta or patch is absent locally. Expected during partial
    /// replication; not necessarily fatal.
    NotFound,
    /// Stored content does not serialize back to the ref it is filed under,
    /// indicating corruption by the replication mechanism.
    Corrupt,
    /// A chain could not be walked to its root because an interior patch was
    /// unavailable; that device's contribution to a merge is incomplete.
    Broken,
    /// A head advance raced with another writer of the same device.
    Conflict,
}

/// An owned copy of a byte string.
pub fn copy_bytes(b: &Vec<u8>) -> (r: Vec<u8>)
    ensures
        r@ == b@,
{
    let mut out: Vec<u8> = Vec::new();
    let mut i: usize = 0;
    while i < b.len()
        invariant
            i <= b.len(),
            out@ == b@.take(i as int),
        decreases b.len() - i,
    {
        out.push(b[i]);
        i = i + 1;
        proof {
            assert(out@ =~= b@.take(i as int));
        }
    }
    proof {
        assert(b@.take(b@.len() as int) =~= b@);
    }
    out
}

/// Byte-string equality.
pub fn bytes_eq(a: &Vec<u8>, b: &Vec<u8>) -> (r: bool)
    ensures
        r <==> a@ == b@,
{
    if a.len() != b.len() {
        proof {
            assert(a@ != b@);
        }
        return false;
    }
    let mut i: usize = 0;
    while i < a.len()
        invariant
            i <= a.len(),
            a@.len() == b@.len(),
            forall|k: int| 0 <= k < i ==> a@[k] == b@[k],
        decreases a.len() - i,
    {
        if a[i] != b[i] {
            return false;
        }
        i = i + 1;
    }
    proof {
        assert(a@ =~= b@);
    }
    true
}

} // verus!
