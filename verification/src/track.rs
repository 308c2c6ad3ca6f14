//! Saved tracks, bookmarks and the draft being recorded, and the polygons drawn from them.
//!
//! The saved data maps keys to payloads. The draft lives under the key `draft`; saving it
//! turns it into a track under a fresh key. Points (`P`) are carried as they were saved.
use vstd::prelude::*;
use crate::usb::hex_digit_char;

verus! {

/// What is saved under a key.
#[allow(inconsistent_fields)]
pub enum SavePayload<P> {
    Track { name: String, coordinates: Vec<P> },
    Bookmark { name: String, coordinates: P },
    Draft { name: String, coordinates: Vec<P> },
}

/// The mathematical value of a payload.
#[allow(inconsistent_fields)]
pub enum PayloadView<P> {
    Track { name: Seq<char>, coordinates: Seq<P> },
    Bookmark { name: Seq<char>, coordinates: P },
    Draft { name: Seq<char>, coordinates: Seq<P> },
}

impl<P> View for SavePayload<P> {
    type V = PayloadView<P>;

    open spec fn view(&self) -> PayloadView<P> {
        match self {
            SavePayload::Track { name, coordinates } => PayloadView::Track {
                name: name@,
                coordinates: coordinates@,
            },
            SavePayload::Bookmark { name, coordinates } => PayloadView::Bookmark {
                name: name@,
                coordinates: *coordinates,
            },
            SavePayload::Draft { name, coordinates } => PayloadView::Draft {
                name: name@,
                coordinates: coordinates@,
            },
        }
    }
}

/// The key under which the draft is kept.
pub open spec fn draft_key() -> Seq<char> {
    "draft"@
}

/// No key occurs twice.
pub open spec fn keys_distinct<V>(es: Seq<(Seq<char>, V)>) -> bool {
    forall|i: int, j: int| 0 <= i < j < es.len() ==> es[i].0 != es[j].0
}

/// Some entry has the key `k`.
pub open spec fn has_key<V>(es: Seq<(Seq<char>, V)>, k: Seq<char>) -> bool {
    exists|i: int| 0 <= i < es.len() && es[i].0 == k
}

/// The entries read as a map from keys to values.
pub open spec fn entry_map<V>(es: Seq<(Seq<char>, V)>) -> Map<Seq<char>, V> {
    Map::new(
        |k: Seq<char>| has_key(es, k),
        |k: Seq<char>| es[choose|i: int| 0 <= i < es.len() && es[i].0 == k].1,
    )
}

/// With distinct keys, the map holds each entry's value under its key.
pub proof fn lemma_entry_map_at<V>(es: Seq<(Seq<char>, V)>, i: int)
    requires
        keys_distinct(es),
        0 <= i < es.len(),
    ensures
        entry_map(es).contains_key(es[i].0),
        entry_map(es)[es[i].0] == es[i].1,
{
    let k = es[i].0;
    assert(has_key(es, k));
    let j = choose|j: int| 0 <= j < es.len() && es[j].0 == k;
    if j != i {
        if j < i {
            assert(es[j].0 != es[i].0);
        } else {
            assert(es[i].0 != es[j].0);
        }
    }
}

/// Replacing the value of an existing key updates the map there.
proof fn lemma_entry_map_update<V>(es: Seq<(Seq<char>, V)>, i: int, v: V)
    requires
        keys_distinct(es),
        0 <= i < es.len(),
    ensures
        keys_distinct(es.update(i, (es[i].0, v))),
        entry_map(es.update(i, (es[i].0, v))) == entry_map(es).insert(es[i].0, v),
{
    let k = es[i].0;
    let es2 = es.update(i, (k, v));
    assert(keys_distinct(es2)) by {
        assert forall|a: int, b: int| 0 <= a < b < es2.len() implies es2[a].0 != es2[b].0 by {
            assert(es2[a].0 == es[a].0);
            assert(es2[b].0 == es[b].0);
        }
    }
    let m1 = entry_map(es2);
    let m2 = entry_map(es).insert(k, v);
    assert forall|q: Seq<char>| m1.contains_key(q) <==> m2.contains_key(q) by {
        if has_key(es, q) {
            let a = choose|a: int| 0 <= a < es.len() && es[a].0 == q;
            assert(es2[a].0 == q);
        }
        if has_key(es2, q) {
            let a = choose|a: int| 0 <= a < es2.len() && es2[a].0 == q;
            assert(es[a].0 == q);
        }
    }
    assert forall|q: Seq<char>| m1.contains_key(q) implies m1[q] == m2[q] by {
        let a = choose|a: int| 0 <= a < es2.len() && es2[a].0 == q;
        lemma_entry_map_at(es2, a);
        if a != i {
            assert(es[a] == es2[a]);
            lemma_entry_map_at(es, a);
        }
    }
    assert(m1 =~= m2);
}

/// Appending an entry with a new key adds it to the map.
proof fn lemma_entry_map_push<V>(es: Seq<(Seq<char>, V)>, k: Seq<char>, v: V)
    requires
        keys_distinct(es),
        !has_key(es, k),
    ensures
        keys_distinct(es.push((k, v))),
        entry_map(es.push((k, v))) == entry_map(es).insert(k, v),
{
    let es2 = es.push((k, v));
    assert(keys_distinct(es2)) by {
        assert forall|a: int, b: int| 0 <= a < b < es2.len() implies es2[a].0 != es2[b].0 by {
            if b == es.len() {
                assert(es2[a].0 == es[a].0);
            } else {
                assert(es2[a].0 == es[a].0);
                assert(es2[b].0 == es[b].0);
            }
        }
    }
    let m1 = entry_map(es2);
    let m2 = entry_map(es).insert(k, v);
    assert forall|q: Seq<char>| m1.contains_key(q) <==> m2.contains_key(q) by {
        if has_key(es, q) {
            let a = choose|a: int| 0 <= a < es.len() && es[a].0 == q;
            assert(es2[a].0 == q);
        }
        if q == k {
            assert(es2[es.len() as int].0 == q);
        }
        if has_key(es2, q) {
            let a = choose|a: int| 0 <= a < es2.len() && es2[a].0 == q;
            if a < es.len() {
                assert(es[a].0 == q);
            }
        }
    }
    assert forall|q: Seq<char>| m1.contains_key(q) implies m1[q] == m2[q] by {
        let a = choose|a: int| 0 <= a < es2.len() && es2[a].0 == q;
        lemma_entry_map_at(es2, a);
        if a < es.len() {
            assert(es[a] == es2[a]);
            lemma_entry_map_at(es, a);
        }
    }
    assert(m1 =~= m2);
}

/// Removing the entry at `i` removes its key from the map.
proof fn lemma_entry_map_remove<V>(es: Seq<(Seq<char>, V)>, i: int)
    requires
        keys_distinct(es),
        0 <= i < es.len(),
    ensures
        keys_distinct(es.remove(i)),
        entry_map(es.remove(i)) == entry_map(es).remove(es[i].0),
{
    let k = es[i].0;
    let es2 = es.remove(i);
    assert forall|a: int| 0 <= a < es2.len() implies es2[a] == (if a < i {
        es[a]
    } else {
        es[a + 1]
    }) by {}
    assert(keys_distinct(es2)) by {
        assert forall|a: int, b: int| 0 <= a < b < es2.len() implies es2[a].0 != es2[b].0 by {
            let a1 = if a < i {
                a
            } else {
                a + 1
            };
            let b1 = if b < i {
                b
            } else {
                b + 1
            };
            assert(es2[a] == es[a1]);
            assert(es2[b] == es[b1]);
        }
    }
    let m1 = entry_map(es2);
    let m2 = entry_map(es).remove(k);
    assert forall|q: Seq<char>| m1.contains_key(q) <==> m2.contains_key(q) by {
        if has_key(es2, q) {
            let a = choose|a: int| 0 <= a < es2.len() && es2[a].0 == q;
            let a1 = if a < i {
                a
            } else {
                a + 1
            };
            assert(es[a1].0 == q);
            if q == k {
                if a1 < i {
                    assert(es[a1].0 != es[i].0);
                } else {
                    assert(es[i].0 != es[a1].0);
                }
            }
        }
        if has_key(es, q) && q != k {
            let a = choose|a: int| 0 <= a < es.len() && es[a].0 == q;
            assert(a != i);
            let a2 = if a < i {
                a
            } else {
                a - 1
            };
            assert(es2[a2].0 == q);
        }
    }
    assert forall|q: Seq<char>| m1.contains_key(q) implies m1[q] == m2[q] by {
        let a = choose|a: int| 0 <= a < es2.len() && es2[a].0 == q;
        lemma_entry_map_at(es2, a);
        let a1 = if a < i {
            a
        } else {
            a + 1
        };
        assert(es2[a] == es[a1]);
        lemma_entry_map_at(es, a1);
    }
    assert(m1 =~= m2);
}

/// Why saving the draft failed.
pub enum DraftError {
    /// Nothing is saved under `draft`.
    NotFound,
    /// What is saved under `draft` is not a draft.
    InvalidPayload,
}

impl DraftError {
    /// The HTTP status and message answered for the error.
    pub fn status_and_message(&self) -> (res: (u16, String))
        ensures
            self is NotFound ==> res.0 == 404 && res.1@ == "Draft not found"@,
            self is InvalidPayload ==> res.0 == 400 && res.1@
                == "The draft entry has an invalid payload type"@,
    {
        match self {
            DraftError::NotFound => (404, String::from_str("Draft not found")),
            DraftError::InvalidPayload => (
                400,
                String::from_str("The draft entry has an invalid payload type"),
            ),
        }
    }
}

/// The saved data after saving the draft under `key` as the track `name`, or the error.
pub open spec fn draft_saved<P>(m: Map<Seq<char>, PayloadView<P>>, key: Seq<char>, name: Seq<char>) -> Result<
    Map<Seq<char>, PayloadView<P>>,
    DraftError,
> {
    if !m.contains_key(draft_key()) {
        Err(DraftError::NotFound)
    } else {
        match m[draft_key()] {
            PayloadView::Draft { coordinates, .. } => Ok(
                m.remove(draft_key()).insert(key, PayloadView::Track { name, coordinates }),
            ),
            _ => Err(DraftError::InvalidPayload),
        }
    }
}

/// The points of a draft after its last point is taken back.
pub open spec fn without_last_point<P>(c: Seq<P>) -> Seq<P> {
    if c.len() > 0 {
        c.drop_last()
    } else {
        c
    }
}

/// The saved data after the last point of the draft is taken back.
pub open spec fn draft_undone<P>(m: Map<Seq<char>, PayloadView<P>>) -> Map<Seq<char>, PayloadView<P>> {
    if m.contains_key(draft_key()) {
        match m[draft_key()] {
            PayloadView::Draft { name, coordinates } => m.insert(
                draft_key(),
                PayloadView::Draft { name, coordinates: without_last_point(coordinates) },
            ),
            _ => m,
        }
    } else {
        m
    }
}

/// The saved data after `payload` is posted under `id`: a new key takes the payload; a
/// draft posted over a draft replaces its points (the name stays); anything else is kept.
pub open spec fn payload_appended<P>(
    m: Map<Seq<char>, PayloadView<P>>,
    id: Seq<char>,
    payload: PayloadView<P>,
) -> Map<Seq<char>, PayloadView<P>> {
    if !m.contains_key(id) {
        m.insert(id, payload)
    } else {
        match (m[id], payload) {
            (PayloadView::Draft { name, .. }, PayloadView::Draft { coordinates, .. }) => m.insert(
                id,
                PayloadView::Draft { name, coordinates },
            ),
            _ => m,
        }
    }
}

/// The shape of a version-4 UUID text: 36 characters, hyphens at 8, 13, 18 and 23, the
/// version digit `4` at 14, lower-case hexadecimal digits elsewhere.
pub open spec fn is_v4_uuid_text(s: Seq<char>) -> bool {
    &&& s.len() == 36
    &&& forall|i: int|
        0 <= i < 36 ==> if i == 8 || i == 13 || i == 18 || i == 23 {
            s[i] == '-'
        } else {
            ('0' <= #[trigger] s[i] <= '9') || ('a' <= s[i] <= 'f')
        }
    &&& s[14] == '4'
}

/// The sixteen bytes of a version-4 UUID made from random bytes: the version nibble of byte 6
/// set to 4 and the variant bits of byte 8 set to `10`.
pub open spec fn v4_uuid_byte(random: Seq<u8>, i: int) -> u8 {
    if i == 6 {
        (random[6] & 0x0f) | 0x40
    } else if i == 8 {
        (random[8] & 0x3f) | 0x80
    } else {
        random[i]
    }
}

/// The number of hyphens before position `p` of a hyphenated UUID text.
pub open spec fn hyphens_before(p: int) -> int {
    if p < 8 {
        0
    } else if p < 13 {
        1
    } else if p < 18 {
        2
    } else if p < 23 {
        3
    } else {
        4
    }
}

/// The hyphenated lower-case text of the version-4 UUID made from 16 random bytes: two
/// hexadecimal digits per byte, high nibble first, with hyphens at 8, 13, 18 and 23.
pub open spec fn uuid_v4_text(random: Seq<u8>) -> Seq<char> {
    Seq::new(
        36,
        |p: int|
            if p == 8 || p == 13 || p == 18 || p == 23 {
                '-'
            } else {
                let q = p - hyphens_before(p);
                let b = v4_uuid_byte(random, q / 2);
                if q % 2 == 0 {
                    hex_digit_char((b / 16) as int)
                } else {
                    hex_digit_char((b % 16) as int)
                }
            },
    )
}

/// `uuid::Builder::from_random_bytes(..).into_uuid().to_string()`: the key of a version-4
/// UUID made from the given random bytes. Stated: the text is `uuid_v4_text` of the bytes, as
/// `with_variant`, `with_version` and `format_hyphenated` in `uuid`'s source give it.
#[verifier::external_body]
fn v4_key_text(random: [u8; 16]) -> (res: String)
    ensures
        res@ == uuid_v4_text(random@),
{
    uuid::Builder::from_random_bytes(random).into_uuid().to_string()
}

/// The text of a version-4 UUID has the version-4 shape.
pub proof fn lemma_uuid_v4_text_shape(random: Seq<u8>)
    requires
        random.len() == 16,
    ensures
        is_v4_uuid_text(uuid_v4_text(random)),
{
    let t = uuid_v4_text(random);
    assert forall|i: int| 0 <= i < 36 implies if i == 8 || i == 13 || i == 18 || i == 23 {
        t[i] == '-'
    } else {
        ('0' <= #[trigger] t[i] <= '9') || ('a' <= t[i] <= 'f')
    } by {
        if !(i == 8 || i == 13 || i == 18 || i == 23) {
            let q = i - hyphens_before(i);
            let b = v4_uuid_byte(random, q / 2);
            assert(b / 16 < 16);
            assert(b % 16 < 16);
        }
    }
    let b6 = random[6];
    assert(((b6 & 0x0f) | 0x40) / 16 == 4) by (bit_vector);
}

/// The saved tracks, bookmarks and draft, keyed by text.
pub struct TrackingData<P> {
    entries: Vec<(String, SavePayload<P>)>,
}

impl<P> TrackingData<P> {
    /// The entries in their stored order.
    pub closed spec fn entries(&self) -> Seq<(Seq<char>, PayloadView<P>)> {
        self.entries@.map_values(|e: (String, SavePayload<P>)| (e.0@, e.1@))
    }

    /// No key is stored twice.
    pub open spec fn wf(&self) -> bool {
        keys_distinct(self.entries())
    }

    /// The saved data as a map.
    pub open spec fn as_map(&self) -> Map<Seq<char>, PayloadView<P>> {
        entry_map(self.entries())
    }

    /// Nothing saved.
    pub fn new() -> (res: Self)
        ensures
            res.wf(),
            res.entries() == Seq::<(Seq<char>, PayloadView<P>)>::empty(),
            res.as_map() == Map::<Seq<char>, PayloadView<P>>::empty(),
    {
        let res = TrackingData { entries: Vec::new() };
        assert(res.entries() =~= Seq::<(Seq<char>, PayloadView<P>)>::empty());
        assert(res.as_map() =~= Map::<Seq<char>, PayloadView<P>>::empty());
        res
    }

    /// The number of saved entries.
    pub fn len(&self) -> (res: usize)
        ensures
            res == self.entries().len(),
    {
        self.entries.len()
    }

    /// The position of `key` among the entries.
    fn find(&self, key: &str) -> (res: Option<usize>)
        ensures
            res matches Some(i) ==> i < self.entries().len() && self.entries()[i as int].0
                == key@,
            res is None ==> !has_key(self.entries(), key@),
    {
        let n = self.entries.len();
        let wanted: String = key.to_owned();
        let mut i: usize = 0;
        while i < n
            invariant
                i <= n,
                n == self.entries().len(),
                wanted@ == key@,
                forall|j: int| 0 <= j < i ==> self.entries()[j].0 != key@,
            decreases n - i,
        {
            let k: &String = &self.entries[i].0;
            if *k == wanted {
                return Some(i);
            }
            i = i + 1;
        }
        None
    }

    /// What is saved under `key`.
    pub fn get(&self, key: &str) -> (res: Option<&SavePayload<P>>)
        requires
            self.wf(),
        ensures
            res is Some <==> self.as_map().contains_key(key@),
            res matches Some(p) ==> p@ == self.as_map()[key@],
    {
        match self.find(key) {
            Some(i) => {
                proof {
                    lemma_entry_map_at(self.entries(), i as int);
                }
                Some(&self.entries[i].1)
            },
            None => None,
        }
    }

    /// Save `payload` under `key`, replacing what was there; a new key goes last.
    pub fn insert(&mut self, key: String, payload: SavePayload<P>)
        requires
            old(self).wf(),
        ensures
            final(self).wf(),
            final(self).as_map() == old(self).as_map().insert(key@, payload@),
            has_key(old(self).entries(), key@) ==> final(self).entries().len()
                == old(self).entries().len(),
            !has_key(old(self).entries(), key@) ==> final(self).entries() == old(
                self,
            ).entries().push((key@, payload@)),
    {
        let ghost es = self.entries();
        let ghost kv = key@;
        let ghost pv = payload@;
        match self.find(key.as_str()) {
            Some(i) => {
                let _ = self.entries.remove(i);
                self.entries.insert(i, (key, payload));
                proof {
                    assert(self.entries() =~= es.update(i as int, (kv, pv)));
                    lemma_entry_map_update(es, i as int, pv);
                }
            },
            None => {
                self.entries.push((key, payload));
                proof {
                    assert(self.entries() =~= es.push((kv, pv)));
                    lemma_entry_map_push(es, kv, pv);
                }
            },
        }
    }

    /// Take out what is saved under `key`.
    pub fn remove(&mut self, key: &str) -> (res: Option<SavePayload<P>>)
        requires
            old(self).wf(),
        ensures
            final(self).wf(),
            final(self).as_map() == old(self).as_map().remove(key@),
            res is Some <==> old(self).as_map().contains_key(key@),
            res matches Some(p) ==> p@ == old(self).as_map()[key@],
    {
        let ghost es = self.entries();
        match self.find(key) {
            Some(i) => {
                let (_, p) = self.entries.remove(i);
                proof {
                    assert(self.entries() =~= es.remove(i as int));
                    lemma_entry_map_remove(es, i as int);
                    lemma_entry_map_at(es, i as int);
                }
                Some(p)
            },
            None => {
                assert(old(self).as_map().remove(key@) =~= old(self).as_map());
                None
            },
        }
    }

    /// The entries, in their stored order.
    pub fn into_entries(self) -> (res: Vec<(String, SavePayload<P>)>)
        ensures
            res@.map_values(|e: (String, SavePayload<P>)| (e.0@, e.1@)) == self.entries(),
    {
        self.entries
    }

    /// Save the draft as the track `name` under `key`. Fails, leaving everything as it was,
    /// when there is no draft or what is saved under `draft` is not a draft.
    pub fn save_draft_as(&mut self, key: String, name: String) -> (res: Result<(), DraftError>)
        requires
            old(self).wf(),
        ensures
            final(self).wf(),
            draft_saved(old(self).as_map(), key@, name@) matches Ok(m) ==> res is Ok
                && final(self).as_map() == m,
            draft_saved(old(self).as_map(), key@, name@) matches Err(e) ==> res == Err::<
                (),
                DraftError,
            >(e) && final(self).as_map() == old(self).as_map(),
    {
        let ghost m0 = self.as_map();
        let is_draft = match self.get("draft") {
            None => {
                return Err(DraftError::NotFound);
            },
            Some(SavePayload::Draft { .. }) => true,
            Some(_) => false,
        };
        if !is_draft {
            return Err(DraftError::InvalidPayload);
        }
        match self.remove("draft") {
            Some(SavePayload::Draft { coordinates, .. }) => {
                let ghost m1 = self.as_map();
                self.insert(key, SavePayload::Track { name, coordinates });
                Ok(())
            },
            _ => Err(DraftError::InvalidPayload),
        }
    }

    /// Save the draft as the track `name` under the key of the version-4 UUID made from the
    /// sixteen random bytes, which is returned. Fails, leaving everything as it was, when there
    /// is no draft or what is saved under `draft` is not a draft.
    pub fn save_draft(&mut self, name: String, random: [u8; 16]) -> (res: Result<String, DraftError>)
        requires
            old(self).wf(),
        ensures
            final(self).wf(),
            res matches Ok(key) ==> key@ == uuid_v4_text(random@) && is_v4_uuid_text(key@),
            draft_saved(old(self).as_map(), uuid_v4_text(random@), name@) matches Ok(m) ==> res
                is Ok && final(self).as_map() == m,
            draft_saved(old(self).as_map(), uuid_v4_text(random@), name@) matches Err(e) ==> res
                == Err::<String, DraftError>(e) && final(self).as_map() == old(self).as_map(),
    {
        let key = v4_key_text(random);
        proof {
            lemma_uuid_v4_text_shape(random@);
        }
        let kept = key.clone();
        match self.save_draft_as(key, name) {
            Ok(()) => Ok(kept),
            Err(e) => Err(e),
        }
    }

    /// Take back the last point of the draft; nothing changes when there is no draft or it
    /// has no points.
    pub fn undo_draft(&mut self)
        requires
            old(self).wf(),
        ensures
            final(self).wf(),
            final(self).as_map() == draft_undone(old(self).as_map()),
    {
        let ghost m0 = self.as_map();
        match self.find("draft") {
            Some(i) => {
                proof {
                    lemma_entry_map_at(self.entries(), i as int);
                }
                let (k, p) = self.entries.remove(i);
                let ghost es1 = self.entries();
                match p {
                    SavePayload::Draft { name, mut coordinates } => {
                        let _ = coordinates.pop();
                        self.entries.insert(i, (k, SavePayload::Draft { name, coordinates }));
                    },
                    other => {
                        self.entries.insert(i, (k, other));
                    },
                }
                proof {
                    let es0 = old(self).entries();
                    assert(self.entries() =~= es0.update(i as int, (draft_key(), self.entries()[i as int].1)));
                    lemma_entry_map_update(es0, i as int, self.entries()[i as int].1);
                    assert(self.as_map() =~= draft_undone(m0));
                }
            },
            None => {
                assert(!m0.contains_key(draft_key()));
            },
        }
    }

    /// Post `payload` under `id`: a new key takes it; a draft posted over a draft replaces the
    /// draft's points and keeps its name; otherwise nothing changes.
    pub fn append_payload(&mut self, id: String, payload: SavePayload<P>)
        requires
            old(self).wf(),
        ensures
            final(self).wf(),
            final(self).as_map() == payload_appended(old(self).as_map(), id@, payload@),
    {
        let ghost m0 = self.as_map();
        let ghost pv = payload@;
        match self.find(id.as_str()) {
            None => {
                self.insert(id, payload);
            },
            Some(i) => {
                proof {
                    lemma_entry_map_at(self.entries(), i as int);
                }
                let (k, p) = self.entries.remove(i);
                match (p, payload) {
                    (
                        SavePayload::Draft { name, .. },
                        SavePayload::Draft { coordinates, .. },
                    ) => {
                        self.entries.insert(i, (k, SavePayload::Draft { name, coordinates }));
                    },
                    (p, _) => {
                        self.entries.insert(i, (k, p));
                    },
                }
                proof {
                    let es0 = old(self).entries();
                    assert(self.entries() =~= es0.update(i as int, (id@, self.entries()[i as int].1)));
                    lemma_entry_map_update(es0, i as int, self.entries()[i as int].1);
                    assert(self.as_map() =~= payload_appended(m0, id@, pv));
                }
            },
        }
    }
}

/// The sides of a path: each point joined to the next, and, for a closed polygon of more
/// than two points, the last point joined back to the first.
pub open spec fn sides_spec<P>(points: Seq<P>, close: bool) -> Seq<(P, P)> {
    let open_sides = Seq::new(
        if points.len() > 1 {
            (points.len() - 1) as nat
        } else {
            0
        },
        |i: int| (points[i], points[i + 1]),
    );
    if close && points.len() > 2 {
        open_sides.push((points.last(), points[0]))
    } else {
        open_sides
    }
}

/// The sides of a path, as `sides_spec` lists them.
pub fn polygon_sides<P: Copy>(points: &Vec<P>, close: bool) -> (res: Vec<(P, P)>)
    ensures
        res@ == sides_spec(points@, close),
{
    let n = points.len();
    let mut res: Vec<(P, P)> = Vec::new();
    if n > 1 {
        let mut i: usize = 0;
        while i < n - 1
            invariant
                n == points@.len(),
                n > 1,
                i <= n - 1,
                res@ =~= Seq::new(i as nat, |j: int| (points@[j], points@[j + 1])),
            decreases n - 1 - i,
        {
            res.push((points[i], points[i + 1]));
            i = i + 1;
        }
    }
    if close && n > 2 {
        res.push((points[n - 1], points[0]));
    }
    assert(res@ =~= sides_spec(points@, close));
    res
}

/// Consecutive sides meet: each side ends where the next begins, and the sides of a closed
/// polygon of more than two points come back to where they started.
pub proof fn law_sides_form_a_path<P>(points: Seq<P>, close: bool)
    ensures
        forall|i: int|
            0 <= i < sides_spec(points, close).len() - 1 ==> (#[trigger] sides_spec(
                points,
                close,
            )[i]).1 == sides_spec(points, close)[i + 1].0,
        close && points.len() > 2 ==> sides_spec(points, close).last().1 == sides_spec(
            points,
            close,
        )[0].0,
        sides_spec(points, close).len() == if points.len() <= 1 {
            0
        } else if close && points.len() > 2 {
            points.len() as int
        } else {
            points.len() - 1
        },
{
}

/// A polygon to draw: the key and name it was saved under, its points and its sides.
pub struct PolygonOutline<P> {
    pub id: String,
    pub name: String,
    pub points: Vec<P>,
    pub sides: Vec<(P, P)>,
}

/// The mathematical value of an outline.
pub struct OutlineView<P> {
    pub id: Seq<char>,
    pub name: Seq<char>,
    pub points: Seq<P>,
    pub sides: Seq<(P, P)>,
}

impl<P> View for PolygonOutline<P> {
    type V = OutlineView<P>;

    open spec fn view(&self) -> OutlineView<P> {
        OutlineView { id: self.id@, name: self.name@, points: self.points@, sides: self.sides@ }
    }
}

/// The outline of the points saved under `id` as `name`.
pub open spec fn outline_spec<P>(id: Seq<char>, name: Seq<char>, points: Seq<P>, close: bool) -> OutlineView<P> {
    OutlineView { id, name, points, sides: sides_spec(points, close) }
}

/// The outline of a saved path; `close` joins the last point back to the first.
pub fn polygon_outline<P: Copy>(coordinates: Vec<P>, id: String, name: String, close: bool) -> (res: PolygonOutline<P>)
    ensures
        res@ == outline_spec(id@, name@, coordinates@, close),
{
    let sides = polygon_sides(&coordinates, close);
    PolygonOutline { id, name, points: coordinates, sides }
}

/// The closed outlines of the saved tracks, in stored order.
pub open spec fn track_outlines<P>(es: Seq<(Seq<char>, PayloadView<P>)>) -> Seq<OutlineView<P>>
    decreases es.len(),
{
    if es.len() == 0 {
        seq![]
    } else {
        let rest = track_outlines(es.drop_last());
        match es.last().1 {
            PayloadView::Track { name, coordinates } => rest.push(
                outline_spec(es.last().0, name, coordinates, true),
            ),
            _ => rest,
        }
    }
}

/// The open outline of the first draft in stored order, if any.
pub open spec fn first_draft_outline<P>(es: Seq<(Seq<char>, PayloadView<P>)>) -> Option<OutlineView<P>>
    decreases es.len(),
{
    if es.len() == 0 {
        None
    } else {
        match es[0].1 {
            PayloadView::Draft { name, coordinates } => Some(
                outline_spec(es[0].0, name, coordinates, false),
            ),
            _ => first_draft_outline(es.drop_first()),
        }
    }
}

/// The closed outlines of all saved tracks (bookmarks and drafts are left out).
pub fn get_track_polygon<P: Copy>(data: TrackingData<P>) -> (res: Vec<PolygonOutline<P>>)
    ensures
        res@.map_values(|o: PolygonOutline<P>| o@) == track_outlines(data.entries()),
{
    let ghost es = data.entries();
    let entries = data.into_entries();
    let n = entries.len();
    let mut res: Vec<PolygonOutline<P>> = Vec::new();
    let mut rest = entries;
    let mut i: usize = 0;
    while i < n
        invariant
            i <= n,
            n == es.len(),
            rest@.map_values(|e: (String, SavePayload<P>)| (e.0@, e.1@)) == es.skip(i as int),
            rest@.len() == n - i,
            res@.map_values(|o: PolygonOutline<P>| o@) == track_outlines(es.take(i as int)),
        decreases n - i,
    {
        let ghost before = rest@;
        assert(before.map_values(|e: (String, SavePayload<P>)| (e.0@, e.1@))[0] == (before[0].0@, before[0].1@));
        let (key, payload) = rest.remove(0);
        proof {
            assert(es.skip(i as int)[0] == (key@, payload@));
            assert(es.skip(i + 1) =~= es.skip(i as int).drop_first());
            assert(rest@.map_values(|e: (String, SavePayload<P>)| (e.0@, e.1@)) =~= es.skip(i + 1));
            assert(es.take(i + 1).drop_last() =~= es.take(i as int));
            assert(es.take(i + 1).last() == (key@, payload@));
        }
        match payload {
            SavePayload::Track { name, coordinates } => {
                let o = polygon_outline(coordinates, key, name, true);
                res.push(o);
            },
            _ => {},
        }
        proof {
            assert(res@.map_values(|o: PolygonOutline<P>| o@) =~= track_outlines(es.take(i + 1)));
        }
        i = i + 1;
    }
    assert(es.take(n as int) =~= es);
    res
}

/// The open outline of the draft (the first draft in stored order), if there is one.
pub fn get_draft_points<P: Copy>(data: TrackingData<P>) -> (res: Option<PolygonOutline<P>>)
    ensures
        res is Some <==> first_draft_outline(data.entries()) is Some,
        res matches Some(o) ==> o@ == first_draft_outline(data.entries())->0,
{
    let ghost es = data.entries();
    let mut rest = data.into_entries();
    let n = rest.len();
    let mut i: usize = 0;
    while i < n
        invariant
            i <= n,
            n == es.len(),
            rest@.map_values(|e: (String, SavePayload<P>)| (e.0@, e.1@)) == es.skip(i as int),
            rest@.len() == n - i,
            es == data.entries(),
            first_draft_outline(es) == first_draft_outline(es.skip(i as int)),
        decreases n - i,
    {
        let ghost before = rest@;
        assert(before.map_values(|e: (String, SavePayload<P>)| (e.0@, e.1@))[0] == (before[0].0@, before[0].1@));
        let (key, payload) = rest.remove(0);
        proof {
            assert(es.skip(i as int)[0] == (key@, payload@));
            assert(es.skip(i + 1) =~= es.skip(i as int).drop_first());
            assert(rest@.map_values(|e: (String, SavePayload<P>)| (e.0@, e.1@)) =~= es.skip(i + 1));
        }
        match payload {
            SavePayload::Draft { name, coordinates } => {
                assert(first_draft_outline(es.skip(i as int)) == Some(outline_spec(key@, name@, coordinates@, false)));
                return Some(polygon_outline(coordinates, key, name, false));
            },
            _ => {},
        }
        i = i + 1;
    }
    assert(es.skip(n as int) =~= Seq::<(Seq<char>, PayloadView<P>)>::empty());
    None
}

/// Posting the draft with one more point and then taking a point back gives the draft its
/// earlier points again (under its original name).
pub proof fn law_undo_takes_back_the_last_posted_point<P>(
    m: Map<Seq<char>, PayloadView<P>>,
    name: Seq<char>,
    points: Seq<P>,
    posted_name: Seq<char>,
    point: P,
)
    requires
        m.contains_key(draft_key()),
        m[draft_key()] == (PayloadView::Draft { name, coordinates: points }),
    ensures
        draft_undone(
            payload_appended(
                m,
                draft_key(),
                PayloadView::Draft { name: posted_name, coordinates: points.push(point) },
            ),
        ) == m,
{
    let m1 = payload_appended(
        m,
        draft_key(),
        PayloadView::Draft { name: posted_name, coordinates: points.push(point) },
    );
    assert(points.push(point).drop_last() =~= points);
    assert(draft_undone(m1) =~= m);
}

/// A saved draft becomes a track under the new key with the draft's points, and no draft is
/// left (the new key is never `draft`).
pub proof fn law_saved_draft_becomes_track<P>(
    m: Map<Seq<char>, PayloadView<P>>,
    key: Seq<char>,
    name: Seq<char>,
)
    requires
        key != draft_key(),
        draft_saved(m, key, name) is Ok,
    ensures
        m.contains_key(draft_key()),
        ({
            let saved = draft_saved(m, key, name)->Ok_0;
            &&& !saved.contains_key(draft_key())
            &&& saved.contains_key(key)
            &&& saved[key] == (PayloadView::Track {
                name,
                coordinates: m[draft_key()]->Draft_coordinates,
            })
        }),
{
}

/// A fresh key is never the draft's key.
pub proof fn lemma_uuid_key_is_not_draft(key: Seq<char>)
    requires
        is_v4_uuid_text(key),
    ensures
        key != draft_key(),
{
    reveal_strlit("draft");
    assert(draft_key().len() == 5);
}


/// The outline of a polygon keeps its id, name and points; its sides join each point to the
/// next, and a closed outline of more than two points has one more side, from the last point
/// back to the first.
pub proof fn law_outline_joins_consecutive_points<P>(
    id: Seq<char>,
    name: Seq<char>,
    points: Seq<P>,
    close: bool,
)
    ensures
        ({
            let o = outline_spec(id, name, points, close);
            &&& o.id == id
            &&& o.name == name
            &&& o.points == points
            &&& forall|k: int|
                0 <= k < points.len() - 1 ==> #[trigger] o.sides[k] == (points[k], points[k + 1])
            &&& o.sides.len() == if points.len() <= 1 {
                0
            } else if close && points.len() > 2 {
                points.len() as int
            } else {
                points.len() - 1
            }
            &&& (close && points.len() > 2) ==> o.sides[points.len() - 1] == (
                points[points.len() - 1],
                points[0],
            )
        }),
{
}

/// The draft is found wherever it stands among the entries: the outline is there exactly when
/// some entry is a draft, and it is the open outline of the first draft, whatever tracks and
/// bookmarks come before it.
pub proof fn law_draft_found_wherever_it_stands<P>(es: Seq<(Seq<char>, PayloadView<P>)>)
    ensures
        (first_draft_outline(es) is Some) <==> (exists|i: int|
            0 <= i < es.len() && (#[trigger] es[i]).1 is Draft),
        first_draft_outline(es) is Some ==> exists|i: int|
            0 <= i < es.len() && (#[trigger] es[i]).1 is Draft && (forall|j: int|
                0 <= j < i ==> !(es[j].1 is Draft)) && first_draft_outline(es)->0 == outline_spec(
                es[i].0,
                es[i].1->Draft_name,
                es[i].1->Draft_coordinates,
                false,
            ),
    decreases es.len(),
{
    if es.len() > 0 {
        let rest = es.drop_first();
        law_draft_found_wherever_it_stands(rest);
        match es[0].1 {
            PayloadView::Draft { name, coordinates } => {
                assert(es[0].1 is Draft);
            },
            _ => {
                assert forall|i: int| 0 <= i < es.len() && (#[trigger] es[i]).1 is Draft implies (
                exists|j: int| 0 <= j < rest.len() && (#[trigger] rest[j]).1 is Draft) by {
                    assert(rest[i - 1] == es[i]);
                }
                if first_draft_outline(rest) is Some {
                    let j = choose|j: int|
                        0 <= j < rest.len() && (#[trigger] rest[j]).1 is Draft && (forall|q: int|
                            0 <= q < j ==> !(rest[q].1 is Draft)) && first_draft_outline(rest)->0
                            == outline_spec(
                            rest[j].0,
                            rest[j].1->Draft_name,
                            rest[j].1->Draft_coordinates,
                            false,
                        );
                    assert(es[j + 1] == rest[j]);
                    assert forall|q: int| 0 <= q < j + 1 implies !(es[q].1 is Draft) by {
                        if q > 0 {
                            assert(es[q] == rest[q - 1]);
                        }
                    }
                }
                if exists|j: int| 0 <= j < rest.len() && (#[trigger] rest[j]).1 is Draft {
                    let j = choose|j: int| 0 <= j < rest.len() && (#[trigger] rest[j]).1 is Draft;
                    assert(es[j + 1] == rest[j]);
                }
            },
        }
    }
}

/// Saving the draft keeps every other entry as it was: any key other than `draft` and the
/// new key is saved afterwards exactly when it was before, with the same payload.
pub proof fn law_saving_the_draft_keeps_other_entries<P>(
    m: Map<Seq<char>, PayloadView<P>>,
    key: Seq<char>,
    name: Seq<char>,
)
    requires
        draft_saved(m, key, name) is Ok,
    ensures
        forall|k: Seq<char>|
            k != draft_key() && k != key ==> (#[trigger] draft_saved(m, key, name)->Ok_0.contains_key(k)
                <==> m.contains_key(k)),
        forall|k: Seq<char>|
            k != draft_key() && k != key && m.contains_key(k) ==> #[trigger] draft_saved(
                m,
                key,
                name,
            )->Ok_0[k] == m[k],
        draft_saved(m, key, name)->Ok_0.contains_key(key),
{
}

/// Saving succeeds exactly when a draft is saved under `draft`; otherwise the error says
/// whether there was nothing there or something that is not a draft.
pub proof fn law_saving_needs_a_draft<P>(
    m: Map<Seq<char>, PayloadView<P>>,
    key: Seq<char>,
    name: Seq<char>,
)
    ensures
        (draft_saved(m, key, name) is Ok) <==> (m.contains_key(draft_key()) && m[draft_key()] is Draft),
        !m.contains_key(draft_key()) ==> draft_saved(m, key, name) == Err::<
            Map<Seq<char>, PayloadView<P>>,
            DraftError,
        >(DraftError::NotFound),
        m.contains_key(draft_key()) && !(m[draft_key()] is Draft) ==> draft_saved(m, key, name)
            == Err::<Map<Seq<char>, PayloadView<P>>, DraftError>(DraftError::InvalidPayload),
{
}

/// Posting under a key that is not saved yet stores the payload there, whatever its kind;
/// posting a draft over a draft replaces its points and keeps its name; posting over anything
/// else changes nothing. No other key is touched.
pub proof fn law_posting_stores_new_payloads<P>(
    m: Map<Seq<char>, PayloadView<P>>,
    id: Seq<char>,
    payload: PayloadView<P>,
)
    ensures
        !m.contains_key(id) ==> payload_appended(m, id, payload) == m.insert(id, payload),
        payload_appended(m, id, payload).contains_key(id),
        forall|k: Seq<char>|
            k != id ==> (#[trigger] payload_appended(m, id, payload).contains_key(k)
                <==> m.contains_key(k)),
        forall|k: Seq<char>|
            k != id && m.contains_key(k) ==> #[trigger] payload_appended(m, id, payload)[k]
                == m[k],
        m.contains_key(id) && m[id] is Draft && payload is Draft ==> payload_appended(
            m,
            id,
            payload,
        )[id] == (PayloadView::Draft {
            name: m[id]->Draft_name,
            coordinates: payload->Draft_coordinates,
        }),
        m.contains_key(id) && !(m[id] is Draft && payload is Draft) ==> payload_appended(
            m,
            id,
            payload,
        ) == m,
{
}


/// Every saved track, and nothing else, is drawn as its closed outline: each outline is that
/// of a track entry, each track entry has its outline, and the outlines come in the order of
/// the entries.
pub proof fn law_every_track_is_outlined<P>(es: Seq<(Seq<char>, PayloadView<P>)>)
    ensures
        track_outlines(es).len() <= es.len(),
        forall|k: int|
            0 <= k < track_outlines(es).len() ==> exists|i: int|
                0 <= i < es.len() && (#[trigger] es[i]).1 is Track && #[trigger] track_outlines(
                    es,
                )[k] == outline_spec(
                    es[i].0,
                    es[i].1->Track_name,
                    es[i].1->Track_coordinates,
                    true,
                ),
        forall|i: int|
            0 <= i < es.len() && (#[trigger] es[i]).1 is Track ==> exists|k: int|
                0 <= k < track_outlines(es).len() && #[trigger] track_outlines(es)[k]
                    == outline_spec(es[i].0, es[i].1->Track_name, es[i].1->Track_coordinates, true),
    decreases es.len(),
{
    if es.len() > 0 {
        let rest = es.drop_last();
        law_every_track_is_outlined(rest);
        let r = track_outlines(rest);
        let t = track_outlines(es);
        assert forall|k: int| 0 <= k < t.len() implies exists|i: int|
            0 <= i < es.len() && (#[trigger] es[i]).1 is Track && #[trigger] t[k] == outline_spec(
                es[i].0,
                es[i].1->Track_name,
                es[i].1->Track_coordinates,
                true,
            ) by {
            if k < r.len() {
                assert(t[k] == r[k]);
                let i = choose|i: int|
                    0 <= i < rest.len() && (#[trigger] rest[i]).1 is Track && #[trigger] r[k]
                        == outline_spec(
                        rest[i].0,
                        rest[i].1->Track_name,
                        rest[i].1->Track_coordinates,
                        true,
                    );
                assert(es[i] == rest[i]);
            } else {
                assert(es[es.len() - 1] == es.last());
            }
        }
        assert forall|i: int| 0 <= i < es.len() && (#[trigger] es[i]).1 is Track implies exists|
            k: int,
        |
            0 <= k < t.len() && #[trigger] t[k] == outline_spec(
                es[i].0,
                es[i].1->Track_name,
                es[i].1->Track_coordinates,
                true,
            ) by {
            if i < rest.len() {
                assert(rest[i] == es[i]);
                let k = choose|k: int|
                    0 <= k < r.len() && #[trigger] r[k] == outline_spec(
                        rest[i].0,
                        rest[i].1->Track_name,
                        rest[i].1->Track_coordinates,
                        true,
                    );
                assert(t[k] == r[k]);
            } else {
                assert(t[t.len() - 1] == outline_spec(
                    es[i].0,
                    es[i].1->Track_name,
                    es[i].1->Track_coordinates,
                    true,
                ));
            }
        }
    }
}


/// Taking back a point touches only the draft: it loses its last point (none when it has
/// none) and keeps its name; every other key keeps its payload, and no key comes or goes.
pub proof fn law_undo_touches_only_the_draft<P>(m: Map<Seq<char>, PayloadView<P>>)
    ensures
        draft_undone(m).dom() == m.dom(),
        forall|k: Seq<char>|
            k != draft_key() && m.contains_key(k) ==> #[trigger] draft_undone(m)[k] == m[k],
        m.contains_key(draft_key()) && m[draft_key()] is Draft ==> {
            let before = m[draft_key()]->Draft_coordinates;
            let after = draft_undone(m)[draft_key()];
            &&& after is Draft
            &&& after->Draft_name == m[draft_key()]->Draft_name
            &&& before.len() > 0 ==> after->Draft_coordinates.len() == before.len() - 1
                && forall|i: int|
                0 <= i < before.len() - 1 ==> after->Draft_coordinates[i] == before[i]
            &&& before.len() == 0 ==> after->Draft_coordinates.len() == 0
        },
        m.contains_key(draft_key()) && !(m[draft_key()] is Draft) ==> draft_undone(m) == m,
{
    if m.contains_key(draft_key()) {
        assert(draft_undone(m).dom() =~= m.dom());
    }
}

} // verus!
