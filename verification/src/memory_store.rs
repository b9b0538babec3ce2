//! The volatile in-memory backend: notes held in a keyed mapping in
//! process memory, lost on process exit. This backend owns key
//! assignment: saving always mints a fresh key and ignores any key
//! already on the incoming note. Deleting a key with no entry is
//! reported as not found, as in the durable backend.

use vstd::prelude::*;

use crate::keyed::count_of;
use crate::keyed::has_name;
use crate::keyed::lemma_name_count_absent;
use crate::keyed::lemma_name_count_once;
use crate::keyed::lemma_map_of_contains;
use crate::keyed::lemma_map_of_push;
use crate::keyed::lemma_map_of_remove;
use crate::keyed::lemma_map_of_value;
use crate::keyed::map_of;
use crate::keyed::names_of;
use crate::keyed::unique_names;
use crate::keys::fresh_key_text;
use crate::keys::is_canonical_key;
use crate::store::Delete;
use crate::store::Get;
use crate::store::List;
use crate::store::Note;
use crate::store::NoteData;
use crate::store::NoteKey;
use crate::store::Save;
use crate::store::StorageError;
use crate::store::Store;

verus! {

/// A note key for the in-memory backend, held in its canonical text form.
pub struct MemoryBasedNoteKey {
    text: String,
}

impl View for MemoryBasedNoteKey {
    type V = Seq<char>;

    closed spec fn view(&self) -> Seq<char> {
        self.text@
    }
}

impl MemoryBasedNoteKey {
    #[verifier::type_invariant]
    spec fn canonical(self) -> bool {
        is_canonical_key(self@)
    }

    /// A fresh randomly generated key.
    fn new() -> (r: MemoryBasedNoteKey) {
        MemoryBasedNoteKey { text: fresh_key_text() }
    }

    /// The key's canonical text form.
    pub fn as_text(&self) -> (r: &str)
        ensures
            r@ == self@,
            is_canonical_key(self@),
    {
        proof {
            use_type_invariant(self);
        }
        self.text.as_str()
    }
}

impl Clone for MemoryBasedNoteKey {
    fn clone(&self) -> (r: Self)
        ensures
            r == self,
    {
        proof {
            use_type_invariant(self);
        }
        MemoryBasedNoteKey { text: self.text.clone() }
    }
}

impl PartialEq for MemoryBasedNoteKey {
    fn eq(&self, other: &Self) -> (r: bool) {
        self.text == other.text
    }
}

impl vstd::std_specs::cmp::PartialEqSpecImpl for MemoryBasedNoteKey {
    open spec fn obeys_eq_spec() -> bool {
        true
    }

    open spec fn eq_spec(&self, other: &Self) -> bool {
        self@ == other@
    }
}

impl NoteKey for MemoryBasedNoteKey {
    open spec fn key_text(&self) -> Seq<char> {
        self@
    }
}

/// A note entity for the in-memory backend: a title and a body. The
/// backend mints keys itself, so the entity carries only a placeholder
/// key (the all-zero form) and an empty workspace label.
pub struct MemoryBasedNote {
    key: MemoryBasedNoteKey,
    workspace: String,
    title: String,
    body: String,
}

impl View for MemoryBasedNote {
    type V = NoteData;

    closed spec fn view(&self) -> NoteData {
        NoteData {
            key: self.key@,
            workspace: self.workspace@,
            title: self.title@,
            body: self.body@,
        }
    }
}

/// The all-zero key text that a freshly constructed in-memory note
/// carries until the backend assigns it a real key.
fn placeholder_key() -> (r: MemoryBasedNoteKey) {
    let text = "00000000-0000-0000-0000-000000000000".to_owned();
    proof {
        reveal_strlit("00000000-0000-0000-0000-000000000000");
        assert(is_canonical_key(text@));
    }
    MemoryBasedNoteKey { text }
}

impl MemoryBasedNote {
    /// A new in-memory note holding the given title and body.
    pub fn new(title: String, body: String) -> (r: MemoryBasedNote)
        ensures
            r@.title == title@,
            r@.body == body@,
            r@.workspace == Seq::<char>::empty(),
    {
        MemoryBasedNote { key: placeholder_key(), workspace: String::new(), title, body }
    }
}

impl Clone for MemoryBasedNote {
    fn clone(&self) -> (r: Self)
        ensures
            r@ == self@,
    {
        MemoryBasedNote {
            key: self.key.clone(),
            workspace: self.workspace.clone(),
            title: self.title.clone(),
            body: self.body.clone(),
        }
    }
}

impl Note<MemoryBasedNoteKey> for MemoryBasedNote {
    open spec fn note_data(&self) -> NoteData {
        self@
    }

    fn get_key(&self) -> (r: &MemoryBasedNoteKey) {
        &self.key
    }

    fn get_workspace(&self) -> (r: &str) {
        self.workspace.as_str()
    }

    fn get_title(&self) -> (r: &str) {
        self.title.as_str()
    }

    fn get_body(&self) -> (r: &str) {
        self.body.as_str()
    }

    fn update_title(&mut self, title: &str) {
        self.title = title.to_owned();
    }

    fn update_body(&mut self, body: &str) {
        self.body = body.to_owned();
    }
}

/// The views of the store's entries: key texts with note contents.
pub open spec fn note_entry_views(v: Seq<(MemoryBasedNoteKey, MemoryBasedNote)>) -> Seq<
    (Seq<char>, NoteData),
> {
    v.map_values(|p: (MemoryBasedNoteKey, MemoryBasedNote)| (p.0@, p.1@))
}

/// The position of the entry keyed by `key`, if there is one.
fn find_key(notes: &Vec<(MemoryBasedNoteKey, MemoryBasedNote)>, key: &MemoryBasedNoteKey) -> (r:
    Option<usize>)
    ensures
        r matches Some(j) ==> 0 <= j < notes@.len() && note_entry_views(notes@)[j as int].0
            == key@,
        r is None ==> !has_name(note_entry_views(notes@), key@),
{
    let mut j: usize = 0;
    while j < notes.len()
        invariant
            0 <= j <= notes@.len(),
            forall|i: int| 0 <= i < j ==> note_entry_views(notes@)[i].0 != key@,
        decreases notes@.len() - j,
    {
        if &notes[j].0 == key {
            return Some(j);
        }
        j = j + 1;
    }
    None
}

/// The volatile backend: notes in a keyed in-process mapping.
pub struct MemoryStore {
    notes: Vec<(MemoryBasedNoteKey, MemoryBasedNote)>,
}

impl MemoryStore {
    #[verifier::type_invariant]
    spec fn inv(self) -> bool {
        unique_names(self.image())
    }

    /// The store's entries, in insertion order.
    pub closed spec fn image(&self) -> Seq<(Seq<char>, NoteData)> {
        note_entry_views(self.notes@)
    }

    /// The store as a map from key text to note contents.
    pub open spec fn contents(&self) -> Map<Seq<char>, NoteData> {
        map_of(self.image())
    }

    /// An empty in-memory store.
    pub fn new() -> (r: Result<MemoryStore, StorageError>)
        ensures
            r matches Ok(s) && s.contents() == Map::<Seq<char>, NoteData>::empty(),
    {
        let s = MemoryStore { notes: Vec::new() };
        proof {
            assert(s.image() =~= Seq::<(Seq<char>, NoteData)>::empty());
        }
        Ok(s)
    }

    /// Stores a copy of the note under a freshly minted key and returns
    /// that key; any key already on the note is ignored.
    pub fn save(&mut self, note: &MemoryBasedNote) -> (r: Result<MemoryBasedNoteKey, StorageError>)
        ensures
            r matches Ok(k) && final(self).contents() == old(self).contents().insert(k@, note@),
            unique_names(final(self).image()),
    {
        proof {
            use_type_invariant(&*self);
        }
        let key = MemoryBasedNoteKey::new();
        proof {
            use_type_invariant(&key);
        }
        let ghost old_img = self.image();
        let mut notes: Vec<(MemoryBasedNoteKey, MemoryBasedNote)> = Vec::new();
        core::mem::swap(&mut notes, &mut self.notes);
        let ghost mid_img: Seq<(Seq<char>, NoteData)>;
        match find_key(&notes, &key) {
            Some(j) => {
                notes.remove(j);
                proof {
                    lemma_map_of_remove(old_img, j as int);
                    assert(note_entry_views(notes@) =~= old_img.remove(j as int));
                    mid_img = old_img.remove(j as int);
                    assert(map_of(mid_img).insert(key@, note@) =~= map_of(old_img).insert(
                        key@,
                        note@,
                    ));
                }
            },
            None => {
                proof {
                    mid_img = old_img;
                }
            },
        }
        notes.push((key.clone(), note.clone()));
        proof {
            lemma_map_of_push(mid_img, key@, note@);
            assert(note_entry_views(notes@) =~= mid_img.push((key@, note@)));
        }
        self.notes = notes;
        Ok(key)
    }

    /// Fetches a copy of the note under `key`, or absent when the key has
    /// no entry.
    pub fn get(&self, key: &MemoryBasedNoteKey) -> (r: Option<MemoryBasedNote>)
        ensures
            self.contents().contains_key(key@) ==> (r matches Some(n) && n@ == self.contents()[
                key@
            ]),
            !self.contents().contains_key(key@) ==> r is None,
    {
        proof {
            use_type_invariant(self);
            lemma_map_of_contains(self.image(), key@);
        }
        match find_key(&self.notes, key) {
            Some(j) => {
                proof {
                    lemma_map_of_value(self.image(), j as int);
                }
                Some(self.notes[j].1.clone())
            },
            None => None,
        }
    }

    /// Removes the note under `key`; a key with no entry is reported as
    /// not found.
    pub fn delete(&mut self, key: &MemoryBasedNoteKey) -> (r: Result<(), StorageError>)
        ensures
            r is Ok <==> old(self).contents().contains_key(key@),
            r is Err ==> (r matches Err(e) && e == StorageError::NotFound && *final(self) == *old(
                self,
            )),
            final(self).contents() == old(self).contents().remove(key@),
            !has_name(final(self).image(), key@),
            unique_names(final(self).image()),
    {
        proof {
            use_type_invariant(&*self);
        }
        let ghost old_img = self.image();
        proof {
            lemma_map_of_contains(old_img, key@);
        }
        match find_key(&self.notes, key) {
            Some(j) => {
                let mut notes: Vec<(MemoryBasedNoteKey, MemoryBasedNote)> = Vec::new();
                core::mem::swap(&mut notes, &mut self.notes);
                notes.remove(j);
                proof {
                    lemma_map_of_remove(old_img, j as int);
                    assert(note_entry_views(notes@) =~= old_img.remove(j as int));
                }
                self.notes = notes;
                Ok(())
            },
            None => {
                proof {
                    assert(map_of(old_img).remove(key@) =~= map_of(old_img));
                }
                Err(StorageError::NotFound)
            },
        }
    }

    /// Lists the stored keys, in insertion order.
    pub fn list_keys(&self) -> (r: Vec<MemoryBasedNoteKey>)
        ensures
            r@.map_values(|k: MemoryBasedNoteKey| k@) == names_of(self.image()),
    {
        let mut out: Vec<MemoryBasedNoteKey> = Vec::new();
        let mut i: usize = 0;
        while i < self.notes.len()
            invariant
                0 <= i <= self.notes@.len(),
                out@.map_values(|k: MemoryBasedNoteKey| k@) =~= self.image().map_values(
                    |p: (Seq<char>, NoteData)| p.0,
                ).take(i as int),
            decreases self.notes@.len() - i,
        {
            let ghost prev = out@;
            out.push(self.notes[i].0.clone());
            proof {
                assert(out@.map_values(|k: MemoryBasedNoteKey| k@) =~= prev.map_values(
                    |k: MemoryBasedNoteKey| k@,
                ).push(self.image()[i as int].0));
            }
            i = i + 1;
        }
        proof {
            assert(self.image().map_values(|p: (Seq<char>, NoteData)| p.0).take(
                self.notes@.len() as int,
            ) =~= self.image().map_values(|p: (Seq<char>, NoteData)| p.0));
        }
        out
    }

    /// Lists copies of the stored notes, in insertion order.
    pub fn list_values(&self) -> (r: Vec<MemoryBasedNote>)
        ensures
            r@.map_values(|n: MemoryBasedNote| n@) == self.image().map_values(
                |p: (Seq<char>, NoteData)| p.1,
            ),
    {
        let mut out: Vec<MemoryBasedNote> = Vec::new();
        let mut i: usize = 0;
        while i < self.notes.len()
            invariant
                0 <= i <= self.notes@.len(),
                out@.map_values(|n: MemoryBasedNote| n@) =~= self.image().map_values(
                    |p: (Seq<char>, NoteData)| p.1,
                ).take(i as int),
            decreases self.notes@.len() - i,
        {
            let ghost prev = out@;
            out.push(self.notes[i].1.clone());
            proof {
                assert(out@.map_values(|n: MemoryBasedNote| n@) =~= prev.map_values(
                    |n: MemoryBasedNote| n@,
                ).push(self.image()[i as int].1));
            }
            i = i + 1;
        }
        proof {
            assert(self.image().map_values(|p: (Seq<char>, NoteData)| p.1).take(
                self.notes@.len() as int,
            ) =~= self.image().map_values(|p: (Seq<char>, NoteData)| p.1));
        }
        out
    }
}

impl Save<MemoryBasedNoteKey, MemoryBasedNote> for MemoryStore {
    fn save(&mut self, t: &MemoryBasedNote) -> Result<MemoryBasedNoteKey, StorageError> {
        MemoryStore::save(self, t)
    }
}

impl Delete<MemoryBasedNoteKey> for MemoryStore {
    fn delete(&mut self, t: &MemoryBasedNoteKey) -> Result<(), StorageError> {
        MemoryStore::delete(self, t)
    }
}

impl Get<MemoryBasedNoteKey, MemoryBasedNote> for MemoryStore {
    fn get(&self, t: &MemoryBasedNoteKey) -> Option<MemoryBasedNote> {
        MemoryStore::get(self, t)
    }
}

impl List<MemoryBasedNoteKey, MemoryBasedNote> for MemoryStore {
    fn list_keys(&self) -> Vec<MemoryBasedNoteKey> {
        MemoryStore::list_keys(self)
    }

    fn list_values(&self) -> Vec<MemoryBasedNote> {
        MemoryStore::list_values(self)
    }
}

impl Store<MemoryBasedNoteKey, MemoryBasedNote> for MemoryStore {
}

/// Round trip: after a save returns key `k`, fetching `k` yields the
/// note that was saved.
pub proof fn lemma_mem_get_after_save(m: Map<Seq<char>, NoteData>, k: Seq<char>, nd: NoteData)
    ensures
        m.insert(k, nd).contains_key(k),
        m.insert(k, nd)[k] == nd,
{
}

/// After a save, the returned key names exactly one entry, so it appears
/// exactly once among the listed keys.
pub proof fn lemma_mem_saved_key_listed_once(e: Seq<(Seq<char>, NoteData)>, k: Seq<char>)
    requires
        unique_names(e),
        has_name(e, k),
    ensures
        count_of(names_of(e), k) == 1,
{
    lemma_name_count_once(e, k);
}

/// After a delete, the key reads back as absent and is no longer among
/// the listed keys.
pub proof fn lemma_mem_deleted_key_gone(
    m: Map<Seq<char>, NoteData>,
    e: Seq<(Seq<char>, NoteData)>,
    k: Seq<char>,
)
    requires
        !has_name(e, k),
    ensures
        !m.remove(k).contains_key(k),
        count_of(names_of(e), k) == 0,
{
    lemma_name_count_absent(e, k);
}

} // verus!
