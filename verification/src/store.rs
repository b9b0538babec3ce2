//! The capability contracts a storage backend satisfies, and the error
//! kinds its write path reports.

use vstd::prelude::*;

verus! {

/// The ways a storage operation can fail. Read-path failures are folded
/// into absence by `Get`/`List`; these are the write-path and
/// construction failures that callers see explicitly.
#[derive(Clone, Copy, PartialEq, Eq, Structural, Debug)]
pub enum StorageError {
    /// The backing store could not be brought up (for the file backend:
    /// the directory could not be created and does not already exist).
    Construction,
    /// An open, read, write or remove failed during an operation.
    Io,
    /// A stored payload does not parse as a valid entity.
    Encoding,
    /// The key has no corresponding stored entity.
    NotFound,
}

/// The mathematical content of a note: its key in canonical text form,
/// its workspace label, its title and its body.
#[verifier::ext_equal]
pub ghost struct NoteData {
    pub key: Seq<char>,
    pub workspace: Seq<char>,
    pub title: Seq<char>,
    pub body: Seq<char>,
}

/// Marker for types usable as storage keys: value equality plus a stable
/// canonical text form, supplied by the implementing type.
pub trait NoteKey: Sized {
    /// The key's canonical text form.
    spec fn key_text(&self) -> Seq<char>;
}

/// The entity contract: a key, a workspace label, and a mutable title and
/// body. Mutation goes through the entity's own update operations only;
/// nothing here persists — persistence is an explicit step via `Save`.
pub trait Note<K: NoteKey>: Sized {
    /// The note's mathematical content.
    spec fn note_data(&self) -> NoteData;

    fn get_key(&self) -> (r: &K)
        ensures
            r.key_text() == self.note_data().key,
    ;

    fn get_workspace(&self) -> (r: &str)
        ensures
            r@ == self.note_data().workspace,
    ;

    fn get_title(&self) -> (r: &str)
        ensures
            r@ == self.note_data().title,
    ;

    fn get_body(&self) -> (r: &str)
        ensures
            r@ == self.note_data().body,
    ;

    fn update_title(&mut self, title: &str)
        ensures
            final(self).note_data() == (NoteData { title: title@, ..old(self).note_data() }),
    ;

    fn update_body(&mut self, body: &str)
        ensures
            final(self).note_data() == (NoteData { body: body@, ..old(self).note_data() }),
    ;
}

/// Write capability: create or overwrite the stored representation of a
/// note and return its key.
pub trait Save<K: NoteKey, T: Note<K>> {
    fn save(&mut self, t: &T) -> Result<K, StorageError>;
}

/// Removal capability: delete the stored representation under a key;
/// a missing key is reported, not ignored.
pub trait Delete<K: NoteKey> {
    fn delete(&mut self, t: &K) -> Result<(), StorageError>;
}

/// Read capability: fetch and materialize the note under a key; absence
/// and unreadable payloads both collapse to `None`.
pub trait Get<K: NoteKey, T: Note<K>> {
    fn get(&self, t: &K) -> Option<T>;
}

/// Enumeration capability: all stored keys, and all stored notes that can
/// still be read (unreadable entries are skipped).
pub trait List<K: NoteKey, T: Note<K>> {
    fn list_keys(&self) -> Vec<K>;

    fn list_values(&self) -> Vec<T>;
}

/// The full storage contract: the conjunction of the four capabilities.
pub trait Store<K: NoteKey, T: Note<K>>: Save<K, T> + Delete<K> + Get<K, T> + List<K, T> {
}

} // verus!
