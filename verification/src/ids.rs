//! Identities: event ids, entity ids, collection ids, and the clocks (sets of
//! event ids) that event parents and entity heads are made of.

use vstd::prelude::*;

use crate::text::{join, joined, texts};

verus! {

// ---------------------------------------------------------------------------
// Event ids
// ---------------------------------------------------------------------------

/// The content hash of one event.
#[derive(Clone, Copy, Debug, PartialEq, Eq, Hash)]
pub struct EventId {
    pub bytes: [u8; 32],
}

impl View for EventId {
    type V = Seq<u8>;

    open spec fn view(&self) -> Seq<u8> {
        self.bytes@
    }
}

/// `k` is the first place where two byte strings differ.
pub open spec fn first_difference(a: Seq<u8>, b: Seq<u8>, k: int) -> bool {
    &&& 0 <= k < a.len()
    &&& k < b.len()
    &&& a[k] != b[k]
    &&& forall|j: int| 0 <= j < k ==> a[j] == b[j]
}

/// Byte order on ids: the first byte that differs decides.
pub open spec fn precedes(a: Seq<u8>, b: Seq<u8>) -> bool {
    exists|k: int| #[trigger] first_difference(a, b, k) && a[k] < b[k]
}

/// Of two different ids one comes first.
pub proof fn lemma_precedes_total(a: Seq<u8>, b: Seq<u8>)
    requires
        a.len() == b.len(),
    ensures
        a == b || precedes(a, b) || precedes(b, a),
{
    if a != b {
        if forall|k: int| 0 <= k < a.len() ==> a[k] == b[k] {
            assert(a =~= b);
        }
        let k = choose|k: int| 0 <= k < a.len() && a[k] != b[k];
        let first = lemma_first_difference(a, b, k);
        assert(first_difference(a, b, first));
        assert(first_difference(b, a, first));
    }
}

proof fn lemma_first_difference(a: Seq<u8>, b: Seq<u8>, k: int) -> (first: int)
    requires
        a.len() == b.len(),
        0 <= k < a.len(),
        a[k] != b[k],
    ensures
        first_difference(a, b, first),
    decreases k,
{
    if forall|j: int| 0 <= j < k ==> a[j] == b[j] {
        k
    } else {
        let j = choose|j: int| 0 <= j < k && a[j] != b[j];
        lemma_first_difference(a, b, j)
    }
}

/// No id comes before itself, and of two ids at most one comes first.
pub proof fn lemma_precedes_asymmetric(a: Seq<u8>, b: Seq<u8>)
    ensures
        precedes(a, b) ==> !precedes(b, a) && a != b,
{
    if precedes(a, b) {
        let k = choose|k: int| #[trigger] first_difference(a, b, k) && a[k] < b[k];
        if precedes(b, a) {
            let m = choose|m: int| #[trigger] first_difference(b, a, m) && b[m] < a[m];
            assert(k == m);
        }
    }
}

/// The order on ids is transitive.
pub proof fn lemma_precedes_transitive(a: Seq<u8>, b: Seq<u8>, c: Seq<u8>)
    requires
        precedes(a, b),
        precedes(b, c),
        a.len() == b.len(),
        b.len() == c.len(),
    ensures
        precedes(a, c),
{
    let k = choose|k: int| #[trigger] first_difference(a, b, k) && a[k] < b[k];
    let m = choose|m: int| #[trigger] first_difference(b, c, m) && b[m] < c[m];
    let first = if k < m {
        k
    } else {
        m
    };
    assert(first_difference(a, c, first));
}

/// The letter that stands for six bits in URL-safe base64.
pub open spec fn letter(six: int) -> char {
    if six < 26 {
        ('A' as u32 + six) as char
    } else if six < 52 {
        ('a' as u32 + (six - 26)) as char
    } else if six < 62 {
        ('0' as u32 + (six - 52)) as char
    } else if six == 62 {
        '-'
    } else {
        '_'
    }
}

/// The `i`th six bits of the bytes, with zeros behind the last one.
pub open spec fn six_bits(bytes: Seq<u8>, i: int) -> int {
    let k = 6 * i / 8;
    let this = bytes[k] as int;
    let next = if k + 1 < bytes.len() {
        bytes[k + 1] as int
    } else {
        0
    };
    let offset = 6 * i % 8;
    if offset == 0 {
        this / 4
    } else if offset == 2 {
        this % 64
    } else if offset == 4 {
        this % 16 * 4 + next / 64
    } else {
        this % 4 * 16 + next / 16
    }
}

/// URL-safe base64 without padding: a letter for every six bits.
pub open spec fn base64(bytes: Seq<u8>) -> Seq<char> {
    Seq::new((8 * bytes.len() + 5) / 6, |i: int| letter(six_bits(bytes, i)))
}

/// What reading a text as an event id yields: the id, or the complaint.
pub uninterp spec fn event_id_read(text: Seq<char>) -> Result<Seq<u8>, Seq<char>>;

/// Reading succeeded, with this id.
pub open spec fn reads_as(read: Result<Seq<u8>, Seq<char>>, id: Seq<u8>) -> bool {
    read == Ok::<Seq<u8>, Seq<char>>(id)
}

/// Reading failed, with this complaint.
pub open spec fn complains(read: Result<Seq<u8>, Seq<char>>, complaint: Seq<char>) -> bool {
    read == Err::<Seq<u8>, Seq<char>>(complaint)
}

/// The last six characters of a text.
pub open spec fn last_six(text: Seq<char>) -> Seq<char> {
    text.subrange(text.len() - 6, text.len() as int)
}

/// Calls `ankurah::proto::EventId::to_base64`: unpadded URL-safe base64 of the
/// 32 bytes, which `from_base64` reads back.
#[verifier::external_body]
fn event_id_to_base64(bytes: [u8; 32]) -> (text: String)
    ensures
        text@ == base64(bytes@),
        reads_as(event_id_read(text@), bytes@),
{
    ankurah::proto::EventId::from_bytes(bytes).to_base64()
}

/// Calls `ankurah::proto::EventId::to_base64_short`: the last six characters of
/// what `to_base64` gives.
#[verifier::external_body]
fn event_id_to_base64_short(bytes: [u8; 32]) -> (text: String)
    ensures
        text@ == last_six(base64(bytes@)),
{
    ankurah::proto::EventId::from_bytes(bytes).to_base64_short()
}

/// Calls `ankurah::proto::EventId::from_base64`, and renders its error as that
/// type's `Display` does. Both are functions of the text alone.
#[verifier::external_body]
fn event_id_from_base64(text: &str) -> (read: Result<[u8; 32], String>)
    ensures
        match read {
            Ok(bytes) => reads_as(event_id_read(text@), bytes@),
            Err(complaint) => complains(event_id_read(text@), complaint@),
        },
{
    match ankurah::proto::EventId::from_base64(text) {
        Ok(id) => Ok(id.to_bytes()),
        Err(error) => Err(error.to_string()),
    }
}

impl EventId {
    /// Whether two ids are the same.
    pub fn same(&self, other: &EventId) -> (yes: bool)
        ensures
            yes == (self@ == other@),
    {
        let mut i: usize = 0;
        while i < 32
            invariant
                i <= 32,
                forall|j: int| 0 <= j < i ==> self.bytes@[j] == other.bytes@[j],
            decreases 32 - i,
        {
            if self.bytes[i] != other.bytes[i] {
                assert(self@[i as int] != other@[i as int]);
                return false;
            }
            i += 1;
        }
        assert(self@ =~= other@);
        true
    }

    /// Whether this id comes before `other` in byte order.
    pub fn comes_before(&self, other: &EventId) -> (yes: bool)
        ensures
            yes == precedes(self@, other@),
    {
        let mut i: usize = 0;
        while i < 32
            invariant
                i <= 32,
                forall|j: int| 0 <= j < i ==> self.bytes@[j] == other.bytes@[j],
            decreases 32 - i,
        {
            if self.bytes[i] != other.bytes[i] {
                proof {
                    assert(first_difference(self@, other@, i as int));
                    assert(first_difference(other@, self@, i as int));
                    if self.bytes[i as int] >= other.bytes[i as int] {
                        lemma_precedes_asymmetric(other@, self@);
                    }
                }
                return self.bytes[i] < other.bytes[i];
            }
            i += 1;
        }
        assert(self@ =~= other@);
        proof {
            lemma_precedes_asymmetric(self@, other@);
        }
        false
    }

    /// The id as text.
    pub fn to_base64(&self) -> (text: String)
        ensures
            text@ == base64(self@),
            text@.len() == 43,
            reads_as(event_id_read(text@), self@),
    {
        event_id_to_base64(self.bytes)
    }

    /// The tail of the id's text, enough to tell neighbours apart on screen.
    pub fn to_base64_short(&self) -> (text: String)
        ensures
            text@ == last_six(base64(self@)),
            text@.len() == 6,
    {
        event_id_to_base64_short(self.bytes)
    }

    /// Read an id back from its text, or say what is wrong with the text.
    pub fn from_base64(text: &str) -> (read: Result<EventId, String>)
        ensures
            match read {
                Ok(id) => reads_as(event_id_read(text@), id@),
                Err(complaint) => complains(event_id_read(text@), complaint@),
            },
    {
        match event_id_from_base64(text) {
            Ok(bytes) => Ok(EventId { bytes }),
            Err(complaint) => Err(complaint),
        }
    }
}

/// The contents of a list of ids.
pub open spec fn id_views(ids: Seq<EventId>) -> Seq<Seq<u8>> {
    Seq::new(ids.len(), |i: int| ids[i]@)
}

/// Whether `id` is in the list.
pub fn has_id(ids: &Vec<EventId>, id: &EventId) -> (yes: bool)
    ensures
        yes == id_views(ids@).contains(id@),
{
    let mut i: usize = 0;
    while i < ids.len()
        invariant
            i <= ids.len(),
            forall|j: int| 0 <= j < i ==> ids@[j]@ != id@,
        decreases ids.len() - i,
    {
        if ids[i].same(id) {
            assert(id_views(ids@)[i as int] == id@);
            return true;
        }
        i += 1;
    }
    false
}

// ---------------------------------------------------------------------------
// Entity ids
// ---------------------------------------------------------------------------

/// The id of one entity.
#[derive(Clone, Copy, Debug, PartialEq, Eq, Hash)]
pub struct EntityId {
    pub bytes: [u8; 16],
}

impl View for EntityId {
    type V = Seq<u8>;

    open spec fn view(&self) -> Seq<u8> {
        self.bytes@
    }
}

/// What reading a text as an entity id yields: the id, or the complaint.
pub uninterp spec fn entity_id_read(text: Seq<char>) -> Result<Seq<u8>, Seq<char>>;

/// Calls `ankurah::proto::EntityId::to_base64`: unpadded URL-safe base64 of the
/// 16 bytes, which `from_base64` reads back.
#[verifier::external_body]
fn entity_id_to_base64(bytes: [u8; 16]) -> (text: String)
    ensures
        text@ == base64(bytes@),
        reads_as(entity_id_read(text@), bytes@),
{
    ankurah::proto::EntityId::from_bytes(bytes).to_base64()
}

/// Calls `ankurah::proto::EntityId::to_base64_short`: the last six characters
/// of what `to_base64` gives.
#[verifier::external_body]
fn entity_id_to_base64_short(bytes: [u8; 16]) -> (text: String)
    ensures
        text@ == last_six(base64(bytes@)),
{
    ankurah::proto::EntityId::from_bytes(bytes).to_base64_short()
}

/// Calls `ankurah::proto::EntityId::from_base64`, and renders its error as that
/// type's `Display` does. Both are functions of the text alone.
#[verifier::external_body]
fn entity_id_from_base64(text: &str) -> (read: Result<[u8; 16], String>)
    ensures
        match read {
            Ok(bytes) => reads_as(entity_id_read(text@), bytes@),
            Err(complaint) => complains(entity_id_read(text@), complaint@),
        },
{
    match ankurah::proto::EntityId::from_base64(text) {
        Ok(id) => Ok(id.to_bytes()),
        Err(error) => Err(error.to_string()),
    }
}

impl EntityId {
    /// Whether two ids are the same.
    pub fn same(&self, other: &EntityId) -> (yes: bool)
        ensures
            yes == (self@ == other@),
    {
        let mut i: usize = 0;
        while i < 16
            invariant
                i <= 16,
                forall|j: int| 0 <= j < i ==> self.bytes@[j] == other.bytes@[j],
            decreases 16 - i,
        {
            if self.bytes[i] != other.bytes[i] {
                assert(self@[i as int] != other@[i as int]);
                return false;
            }
            i += 1;
        }
        assert(self@ =~= other@);
        true
    }

    /// The id as text.
    pub fn to_base64(&self) -> (text: String)
        ensures
            text@ == base64(self@),
            text@.len() == 22,
            reads_as(entity_id_read(text@), self@),
    {
        entity_id_to_base64(self.bytes)
    }

    /// The tail of the id's text.
    pub fn to_base64_short(&self) -> (text: String)
        ensures
            text@ == last_six(base64(self@)),
            text@.len() == 6,
    {
        entity_id_to_base64_short(self.bytes)
    }

    /// Read an id back from its text, or say what is wrong with the text.
    pub fn from_base64(text: &str) -> (read: Result<EntityId, String>)
        ensures
            match read {
                Ok(id) => reads_as(entity_id_read(text@), id@),
                Err(complaint) => complains(entity_id_read(text@), complaint@),
            },
    {
        match entity_id_from_base64(text) {
            Ok(bytes) => Ok(EntityId { bytes }),
            Err(complaint) => Err(complaint),
        }
    }
}

// ---------------------------------------------------------------------------
// Collection ids
// ---------------------------------------------------------------------------

/// The name of a collection.
#[derive(Debug, PartialEq, Eq)]
pub struct CollectionId {
    pub name: String,
}

impl View for CollectionId {
    type V = Seq<char>;

    open spec fn view(&self) -> Seq<char> {
        self.name@
    }
}

impl CollectionId {
    /// The collection of that name.
    pub fn named(name: &str) -> (id: CollectionId)
        ensures
            id@ == name@,
    {
        CollectionId { name: name.to_owned() }
    }
}

impl Clone for CollectionId {
    fn clone(&self) -> (id: CollectionId)
        ensures
            id@ == self@,
    {
        CollectionId { name: self.name.clone() }
    }
}

// ---------------------------------------------------------------------------
// Clocks
// ---------------------------------------------------------------------------

/// Every id comes before the next: sorted, and nothing occurs twice.
pub open spec fn ascending(ids: Seq<Seq<u8>>) -> bool {
    forall|i: int, j: int| 0 <= i < j < ids.len() ==> precedes(#[trigger] ids[i], #[trigger] ids[j])
}

/// A set of event ids, kept in byte order: the parents of an event, or the head
/// of an entity.
#[derive(Debug, PartialEq, Eq)]
pub struct Clock {
    ids: Vec<EventId>,
}

impl View for Clock {
    type V = Seq<Seq<u8>>;

    closed spec fn view(&self) -> Seq<Seq<u8>> {
        id_views(self.ids@)
    }
}

/// How a clock reads in short: the short ids in order, in brackets.
pub open spec fn clock_short(ids: Seq<Seq<u8>>) -> Seq<char> {
    seq!['['] + joined(Seq::new(ids.len(), |i: int| last_six(base64(ids[i]))), seq![',']) + seq![']']
}

impl Clock {
    /// What every clock keeps: its ids in byte order, each once.
    #[verifier::type_invariant]
    pub open spec fn sorted(self) -> bool {
        ascending(self@)
    }

    /// The clock of the given ids, in whatever order and however often they are
    /// listed.
    pub fn new(ids: Vec<EventId>) -> (clock: Clock)
        ensures
            ascending(clock@),
            forall|id: Seq<u8>| clock@.contains(id) <==> id_views(ids@).contains(id),
    {
        let mut sorted: Vec<EventId> = Vec::new();
        let mut i: usize = 0;
        while i < ids.len()
            invariant
                i <= ids.len(),
                ascending(id_views(sorted@)),
                forall|id: Seq<u8>|
                    id_views(sorted@).contains(id) <==> id_views(ids@).take(i as int).contains(id),
            decreases ids.len() - i,
        {
            let id = ids[i];
            insert_ascending(&mut sorted, id);
            proof {
                let taken = id_views(ids@).take(i as int);
                let longer = id_views(ids@).take(i + 1);
                assert(longer =~= taken.push(id@));
                assert forall|x: Seq<u8>|
                    id_views(sorted@).contains(x) <==> longer.contains(x) by {
                    assert(longer.contains(x) <==> taken.contains(x) || x == id@) by {
                        if taken.contains(x) {
                            let k = choose|k: int| 0 <= k < taken.len() && taken[k] == x;
                            assert(longer[k] == x);
                        }
                        assert(longer[i as int] == id@);
                    }
                }
            }
            i += 1;
        }
        assert(id_views(ids@).take(i as int) =~= id_views(ids@));
        Clock { ids: sorted }
    }

    /// The clock of no events.
    pub fn empty() -> (clock: Clock)
        ensures
            clock@ == Seq::<Seq<u8>>::empty(),
    {
        let clock = Clock { ids: Vec::new() };
        assert(clock@ =~= Seq::<Seq<u8>>::empty());
        clock
    }

    /// How many ids the clock holds.
    pub fn len(&self) -> (n: usize)
        ensures
            n == self@.len(),
    {
        self.ids.len()
    }

    /// Whether the clock holds no id.
    pub fn is_empty(&self) -> (yes: bool)
        ensures
            yes == (self@.len() == 0),
    {
        self.ids.len() == 0
    }

    /// The `i`th id in byte order.
    pub fn id(&self, i: usize) -> (id: EventId)
        requires
            i < self@.len(),
        ensures
            id@ == self@[i as int],
    {
        self.ids[i]
    }

    /// The ids in byte order.
    pub fn to_vec(&self) -> (ids: Vec<EventId>)
        ensures
            id_views(ids@) == self@,
    {
        let mut ids: Vec<EventId> = Vec::new();
        let mut i: usize = 0;
        while i < self.ids.len()
            invariant
                i <= self.ids.len(),
                ids@ =~= self.ids@.take(i as int),
            decreases self.ids.len() - i,
        {
            ids.push(self.ids[i]);
            i += 1;
        }
        assert(ids@ =~= self.ids@);
        ids
    }

    /// Whether the clock holds `id`.
    pub fn contains(&self, id: &EventId) -> (yes: bool)
        ensures
            yes == self@.contains(id@),
    {
        has_id(&self.ids, id)
    }

    /// The short form of every id, in brackets.
    pub fn to_base64_short(&self) -> (text: String)
        ensures
            text@ == clock_short(self@),
    {
        let mut pieces: Vec<String> = Vec::new();
        let mut i: usize = 0;
        while i < self.ids.len()
            invariant
                i <= self.ids.len(),
                pieces.len() == i,
                forall|j: int|
                    0 <= j < i ==> #[trigger] pieces@[j]@ == last_six(base64(self@[j])),
            decreases self.ids.len() - i,
        {
            pieces.push(self.ids[i].to_base64_short());
            i += 1;
        }
        let mut text = "[".to_owned();
        text.append(join(&pieces, ",").as_str());
        text.append("]");
        proof {
            reveal_strlit("[");
            reveal_strlit(",");
            reveal_strlit("]");
            assert("["@ =~= seq!['[']);
            assert(","@ =~= seq![',']);
            assert("]"@ =~= seq![']']);
            assert(texts(pieces@) =~= Seq::new(
                self@.len(),
                |i: int| last_six(base64(self@[i])),
            ));
        }
        text
    }
}

impl Clone for Clock {
    fn clone(&self) -> (clock: Clock)
        ensures
            clock@ == self@,
    {
        proof {
            use_type_invariant(self);
        }
        Clock { ids: self.to_vec() }
    }
}

/// Put `id` where it belongs among ids in byte order, unless it is there.
fn insert_ascending(sorted: &mut Vec<EventId>, id: EventId)
    requires
        ascending(id_views(old(sorted)@)),
    ensures
        ascending(id_views(final(sorted)@)),
        forall|x: Seq<u8>|
            id_views(final(sorted)@).contains(x) <==> id_views(old(sorted)@).contains(x) || x == id@,
{
    let ghost start = id_views(sorted@);
    let mut at: usize = 0;
    while at < sorted.len() && sorted[at].comes_before(&id)
        invariant
            at <= sorted.len(),
            id_views(sorted@) == start,
            forall|j: int| 0 <= j < at ==> precedes(#[trigger] start[j], id@),
        ensures
            at < sorted.len() ==> !precedes(start[at as int], id@),
        decreases sorted.len() - at,
    {
        at += 1;
    }
    if at < sorted.len() && sorted[at].same(&id) {
        assert(start[at as int] == id@);
        return;
    }
    proof {
        if at < sorted.len() {
            lemma_precedes_total(start[at as int], id@);
        }
    }
    sorted.insert(at, id);
    proof {
        let now = id_views(sorted@);
        assert(now =~= start.insert(at as int, id@));
        assert forall|i: int, j: int| 0 <= i < j < now.len() implies precedes(
            #[trigger] now[i],
            #[trigger] now[j],
        ) by {
            if i < at && j > at {
                assert(now[j] == start[j - 1]);
                assert(now[i] == start[i]);
            } else if i == at {
                assert(now[j] == start[j - 1]);
                if j - 1 > at {
                    lemma_precedes_transitive(id@, start[at as int], start[j - 1]);
                }
            } else if j == at {
                assert(now[i] == start[i]);
            } else if i > at {
                assert(now[i] == start[i - 1]);
                assert(now[j] == start[j - 1]);
            }
        }
        assert forall|x: Seq<u8>| now.contains(x) <==> start.contains(x) || x == id@ by {
            if now.contains(x) {
                let k = choose|k: int| 0 <= k < now.len() && now[k] == x;
                if k < at {
                    assert(start[k] == x);
                } else if k > at {
                    assert(start[k - 1] == x);
                }
            }
            if start.contains(x) {
                let k = choose|k: int| 0 <= k < start.len() && start[k] == x;
                if k < at {
                    assert(now[k] == x);
                } else {
                    assert(now[k + 1] == x);
                }
            }
            assert(now[at as int] == id@);
        }
    }
}

} // verus!
