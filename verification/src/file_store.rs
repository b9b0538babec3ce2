//! The durable, file-per-note backend: one file per note in a flat store
//! directory, named by the note's key in canonical text form and holding
//! the note's canonical rendering. The backend works against a loaded
//! image of the directory (file names with their raw contents); the
//! caller that owns the real directory mirrors each returned action onto
//! disk and supplies the directory listing at construction.

use vstd::prelude::*;

use crate::codec::lemma_decode_of_encode;
use crate::codec::lemma_decode_sound;
use crate::codec::spec_decode_note;
use crate::codec::spec_encode_note;
use crate::codec::decode_fields;
use crate::codec::encode_fields;
use crate::keyed::count_of;
use crate::keyed::has_name;
use crate::keyed::lemma_map_of_contains;
use crate::keyed::lemma_map_of_push;
use crate::keyed::lemma_map_of_remove;
use crate::keyed::lemma_map_of_value;
use crate::keyed::map_of;
use crate::keyed::unique_names;
use crate::keys::check_canonical_key;
use crate::keys::fresh_key_text;
use crate::keys::is_canonical_key;
use crate::store::Delete;
use crate::store::Get;
use crate::store::List;
use crate::store::Note;
use crate::store::NoteData;
use crate::store::NoteKey;
use crate::store::Save;
use crate::store::StorageError;
use crate::store::Store;

verus! {

/// A note key for the durable backend, held in its canonical text form:
/// the lowercase hyphenated rendering of a fresh random 128-bit
/// identifier, which is also the note's file name.
pub struct FileBasedNoteKey {
    text: String,
}

impl View for FileBasedNoteKey {
    type V = Seq<char>;

    closed spec fn view(&self) -> Seq<char> {
        self.text@
    }
}

impl FileBasedNoteKey {
    #[verifier::type_invariant]
    spec fn canonical(self) -> bool {
        is_canonical_key(self@)
    }

    /// Wraps a text in canonical key form as a key; `None` for any other
    /// text.
    pub fn from_text(text: String) -> (r: Option<FileBasedNoteKey>)
        ensures
            r matches Some(k) ==> k@ == text@ && is_canonical_key(text@),
            r is None ==> !is_canonical_key(text@),
    {
        if check_canonical_key(text.as_str()) {
            Some(FileBasedNoteKey { text })
        } else {
            None
        }
    }

    /// The key's canonical text form.
    pub fn as_text(&self) -> (r: &str)
        ensures
            r@ == self@,
            is_canonical_key(self@),
    {
        proof {
            use_type_invariant(self);
        }
        self.text.as_str()
    }

    /// A fresh randomly generated key.
    fn generate() -> (r: FileBasedNoteKey)
    {
        FileBasedNoteKey { text: fresh_key_text() }
    }
}

impl Clone for FileBasedNoteKey {
    fn clone(&self) -> (r: Self)
        ensures
            r == self,
    {
        proof {
            use_type_invariant(self);
        }
        FileBasedNoteKey { text: self.text.clone() }
    }
}

impl PartialEq for FileBasedNoteKey {
    fn eq(&self, other: &Self) -> (r: bool) {
        self.text == other.text
    }
}

impl vstd::std_specs::cmp::PartialEqSpecImpl for FileBasedNoteKey {
    open spec fn obeys_eq_spec() -> bool {
        true
    }

    open spec fn eq_spec(&self, other: &Self) -> bool {
        self@ == other@
    }
}

impl NoteKey for FileBasedNoteKey {
    open spec fn key_text(&self) -> Seq<char> {
        self@
    }
}

/// A note entity for the durable backend: a key fixed at construction, a
/// workspace label fixed at construction, and a mutable title and body.
pub struct FileBasedNote {
    key: FileBasedNoteKey,
    workspace: String,
    title: String,
    body: String,
}

impl View for FileBasedNote {
    type V = NoteData;

    closed spec fn view(&self) -> NoteData {
        NoteData {
            key: self.key@,
            workspace: self.workspace@,
            title: self.title@,
            body: self.body@,
        }
    }
}

impl FileBasedNote {
    /// A new note under a freshly generated key.
    pub fn new(workspace: &str, title: &str, body: &str) -> (r: FileBasedNote)
        ensures
            r@.workspace == workspace@,
            r@.title == title@,
            r@.body == body@,
            is_canonical_key(r@.key),
    {
        let key = FileBasedNoteKey::generate();
        proof {
            use_type_invariant(&key);
        }
        FileBasedNote {
            key,
            workspace: workspace.to_owned(),
            title: title.to_owned(),
            body: body.to_owned(),
        }
    }

    /// A note assembled from already-validated parts.
    fn from_parts(key: FileBasedNoteKey, workspace: String, title: String, body: String) -> (r:
        FileBasedNote)
        ensures
            r@ == (NoteData { key: key@, workspace: workspace@, title: title@, body: body@ }),
    {
        FileBasedNote { key, workspace, title, body }
    }

}

impl Note<FileBasedNoteKey> for FileBasedNote {
    open spec fn note_data(&self) -> NoteData {
        self@
    }

    fn get_key(&self) -> (r: &FileBasedNoteKey) {
        &self.key
    }

    fn get_workspace(&self) -> (r: &str) {
        self.workspace.as_str()
    }

    fn get_title(&self) -> (r: &str) {
        self.title.as_str()
    }

    fn get_body(&self) -> (r: &str) {
        self.body.as_str()
    }

    fn update_title(&mut self, title: &str) {
        self.title = title.to_owned();
    }

    fn update_body(&mut self, body: &str) {
        self.body = body.to_owned();
    }
}

/// The views of a directory image's entries: file names with raw contents.
pub open spec fn entry_views(v: Seq<(String, String)>) -> Seq<(Seq<char>, Seq<char>)> {
    v.map_values(|p: (String, String)| (p.0@, p.1@))
}

/// Whether two texts hold the same characters.
fn str_eq(a: &str, b: &str) -> (r: bool)
    ensures
        r == (a@ == b@),
{
    let n = a.unicode_len();
    let m = b.unicode_len();
    if n != m {
        return false;
    }
    let mut i: usize = 0;
    while i < n
        invariant
            0 <= i <= n,
            n == a@.len(),
            n == b@.len(),
            forall|k: int| 0 <= k < i ==> a@[k] == b@[k],
        decreases n - i,
    {
        if a.get_char(i) != b.get_char(i) {
            return false;
        }
        i = i + 1;
    }
    proof {
        assert(a@ =~= b@);
    }
    true
}

/// The position of the image entry named `name`, if there is one.
fn find_name(entries: &Vec<(String, String)>, name: &str) -> (r: Option<usize>)
    ensures
        r matches Some(j) ==> 0 <= j < entries@.len() && entry_views(entries@)[j as int].0
            == name@,
        r is None ==> !has_name(entry_views(entries@), name@),
{
    let mut j: usize = 0;
    while j < entries.len()
        invariant
            0 <= j <= entries@.len(),
            forall|i: int| 0 <= i < j ==> entry_views(entries@)[i].0 != name@,
        decreases entries@.len() - j,
    {
        if str_eq(entries[j].0.as_str(), name) {
            return Some(j);
        }
        j = j + 1;
    }
    None
}

/// What happened when the caller created the store directory on disk.
pub enum DirCreation {
    /// The directory was created.
    Created,
    /// The directory already existed; construction still succeeds.
    AlreadyExists,
    /// The directory could not be created for another reason.
    Failed,
}

/// Reading the note under `k` from the directory image `m`: absent when
/// there is no file named by the key, or when the file's contents do not
/// read back as a note.
pub open spec fn spec_get(m: Map<Seq<char>, Seq<char>>, k: Seq<char>) -> Option<NoteData> {
    if m.contains_key(k) {
        spec_decode_note(m[k])
    } else {
        None
    }
}

/// The keys listed from a directory image: each file name in canonical
/// key form, in directory order; other file names are skipped.
pub open spec fn spec_list_keys(e: Seq<(Seq<char>, Seq<char>)>) -> Seq<Seq<char>>
    decreases e.len(),
{
    if e.len() == 0 {
        Seq::empty()
    } else {
        let rest = spec_list_keys(e.drop_last());
        if is_canonical_key(e.last().0) {
            rest.push(e.last().0)
        } else {
            rest
        }
    }
}

/// The notes listed from a directory image: the result of reading each
/// listed key in turn, keeping only the present ones.
pub open spec fn spec_list_values(m: Map<Seq<char>, Seq<char>>, keys: Seq<Seq<char>>) -> Seq<
    NoteData,
>
    decreases keys.len(),
{
    if keys.len() == 0 {
        Seq::empty()
    } else {
        let rest = spec_list_values(m, keys.drop_last());
        match spec_get(m, keys.last()) {
            Some(nd) => rest.push(nd),
            None => rest,
        }
    }
}

/// The durable backend: the store directory's path, and the loaded image
/// of the directory (file names with their raw contents). The caller
/// that owns the real directory supplies the image at construction and
/// mirrors each save or delete onto disk.
pub struct FileStore {
    store_directory: String,
    entries: Vec<(String, String)>,
}

impl FileStore {
    #[verifier::type_invariant]
    spec fn inv(self) -> bool {
        unique_names(self.image())
    }

    /// The store directory's path.
    pub closed spec fn dir_view(&self) -> Seq<char> {
        self.store_directory@
    }

    /// The loaded directory image, in directory order.
    pub closed spec fn image(&self) -> Seq<(Seq<char>, Seq<char>)> {
        entry_views(self.entries@)
    }

    /// The loaded directory image as a map from file name to contents.
    pub open spec fn contents(&self) -> Map<Seq<char>, Seq<char>> {
        map_of(self.image())
    }

    /// A backend over the given directory, loaded from its listing. The
    /// directory already existing is not an error; any other creation
    /// failure is fatal. Of entries whose file name repeats an earlier
    /// one, the first is kept.
    pub fn new(store_directory: &str, creation: DirCreation, listing: Vec<(String, String)>) -> (r:
        Result<FileStore, StorageError>)
        ensures
            creation is Failed ==> (r matches Err(e) && e == StorageError::Construction),
            !(creation is Failed) ==> (r matches Ok(fs) && fs.dir_view() == store_directory@
                && unique_names(fs.image()) && (forall|nm: Seq<char>|
                fs.contents().contains_key(nm) <==> has_name(entry_views(listing@), nm)) && (
            forall|i: int|
                0 <= i < fs.image().len() ==> has_name(entry_views(listing@), fs.image()[i].0))),
    {
        if let DirCreation::Failed = creation {
            return Err(StorageError::Construction);
        }
        let ghost lv = entry_views(listing@);
        let mut entries: Vec<(String, String)> = Vec::new();
        let mut i: usize = 0;
        while i < listing.len()
            invariant
                0 <= i <= listing@.len(),
                lv == entry_views(listing@),
                unique_names(entry_views(entries@)),
                forall|nm: Seq<char>|
                    #[trigger] has_name(entry_views(entries@), nm) <==> has_name(
                        lv.take(i as int),
                        nm,
                    ),
            decreases listing@.len() - i,
        {
            let ghost pre = entry_views(entries@);
            let name = listing[i].0.clone();
            let contents = listing[i].1.clone();
            match find_name(&entries, name.as_str()) {
                Some(_) => {
                    proof {
                        assert(has_name(pre, name@));
                        assert forall|nm: Seq<char>| #[trigger] has_name(
                            lv.take(i + 1 as int),
                            nm,
                        ) implies has_name(pre, nm) by {
                            let j = choose|j: int|
                                0 <= j < lv.take(i + 1 as int).len() && (#[trigger] lv.take(
                                    i + 1 as int,
                                )[j]).0 == nm;
                            if j < i {
                                assert(lv.take(i as int)[j].0 == nm);
                            } else {
                                assert(lv[i as int].0 == name@);
                            }
                        }
                        assert forall|nm: Seq<char>| #[trigger] has_name(pre, nm) implies has_name(
                            lv.take(i + 1 as int),
                            nm,
                        ) by {
                            let j = choose|j: int|
                                0 <= j < lv.take(i as int).len() && (#[trigger] lv.take(
                                    i as int,
                                )[j]).0 == nm;
                            assert(lv.take(i + 1 as int)[j].0 == nm);
                        }
                    }
                },
                None => {
                    entries.push((name, contents));
                    proof {
                        assert(entry_views(entries@) =~= pre.push((lv[i as int].0, lv[i as int].1)));
                        lemma_map_of_push(pre, lv[i as int].0, lv[i as int].1);
                        assert forall|nm: Seq<char>| #[trigger] has_name(
                            lv.take(i + 1 as int),
                            nm,
                        ) implies has_name(entry_views(entries@), nm) by {
                            let j = choose|j: int|
                                0 <= j < lv.take(i + 1 as int).len() && (#[trigger] lv.take(
                                    i + 1 as int,
                                )[j]).0 == nm;
                            if j < i {
                                assert(lv.take(i as int)[j].0 == nm);
                                assert(has_name(lv.take(i as int), nm));
                                assert(has_name(pre, nm));
                                let j2 = choose|j2: int|
                                    0 <= j2 < pre.len() && (#[trigger] pre[j2]).0 == nm;
                                assert(entry_views(entries@)[j2].0 == nm);
                            } else {
                                assert(entry_views(entries@)[pre.len() as int].0 == nm);
                            }
                        }
                        assert forall|nm: Seq<char>| #[trigger] has_name(
                            entry_views(entries@),
                            nm,
                        ) implies has_name(lv.take(i + 1 as int), nm) by {
                            let j = choose|j: int|
                                0 <= j < entry_views(entries@).len() && (#[trigger] entry_views(
                                    entries@,
                                )[j]).0 == nm;
                            if j < pre.len() {
                                assert(pre[j].0 == nm);
                                assert(has_name(pre, nm));
                                assert(has_name(lv.take(i as int), nm));
                                let j2 = choose|j2: int|
                                    0 <= j2 < lv.take(i as int).len() && (#[trigger] lv.take(
                                        i as int,
                                    )[j2]).0 == nm;
                                assert(lv.take(i + 1 as int)[j2].0 == nm);
                            } else {
                                assert(lv.take(i + 1 as int)[i as int].0 == nm);
                            }
                        }
                    }
                },
            }
            i = i + 1;
        }
        proof {
            assert(lv.take(listing@.len() as int) =~= lv);
            assert forall|k: int| 0 <= k < entry_views(entries@).len() implies has_name(
                lv,
                (#[trigger] entry_views(entries@)[k]).0,
            ) by {
                assert(has_name(entry_views(entries@), entry_views(entries@)[k].0));
            }
        }
        let fs = FileStore { store_directory: store_directory.to_owned(), entries };
        proof {
            assert forall|nm: Seq<char>| #[trigger] fs.contents().contains_key(nm) <==> has_name(
                lv,
                nm,
            ) by {
                lemma_map_of_contains(fs.image(), nm);
            }
        }
        Ok(fs)
    }

    /// Where the note under `key` is stored: the file named by the key's
    /// canonical text form, directly in the store directory.
    pub fn get_note_location(&self, key: &FileBasedNoteKey) -> (r: String)
        ensures
            r@ == self.dir_view() + seq!['/'] + key@,
    {
        let mut path = self.store_directory.clone();
        path.append("/");
        path.append(key.as_text());
        proof {
            reveal_strlit("/");
            assert(("/")@ =~= seq!['/']);
        }
        path
    }
}

/// The canonical text forms of a sequence of keys.
pub open spec fn key_views(s: Seq<FileBasedNoteKey>) -> Seq<Seq<char>> {
    s.map_values(|k: FileBasedNoteKey| k@)
}

/// The contents of a sequence of notes.
pub open spec fn note_views(s: Seq<FileBasedNote>) -> Seq<NoteData> {
    s.map_values(|n: FileBasedNote| n@)
}

impl FileStore {
    /// Creates or overwrites the note's file in the image and returns the
    /// note's key. The caller mirrors the change onto disk by writing the
    /// note's rendering (`encode` of the note) at the note's location.
    pub fn save(&mut self, note: &FileBasedNote) -> (r: Result<FileBasedNoteKey, StorageError>)
        ensures
            r matches Ok(k) && k@ == note@.key,
            final(self).dir_view() == old(self).dir_view(),
            final(self).contents() == old(self).contents().insert(
                note@.key,
                spec_encode_note(note@),
            ),
            unique_names(final(self).image()),
            forall|nm: Seq<char>|
                #[trigger] has_name(final(self).image(), nm) <==> (has_name(
                    old(self).image(),
                    nm,
                ) || nm == note@.key),
    {
        proof {
            use_type_invariant(&*self);
            use_type_invariant(&note.key);
        }
        let name = note.key.as_text().to_owned();
        let encoded = encode_fields(
            note.key.as_text(),
            note.workspace.as_str(),
            note.title.as_str(),
            note.body.as_str(),
        );
        let ghost old_img = self.image();
        let mut entries: Vec<(String, String)> = Vec::new();
        core::mem::swap(&mut entries, &mut self.entries);
        let ghost mid_img: Seq<(Seq<char>, Seq<char>)>;
        match find_name(&entries, name.as_str()) {
            Some(j) => {
                entries.remove(j);
                proof {
                    lemma_map_of_remove(old_img, j as int);
                    assert(entry_views(entries@) =~= old_img.remove(j as int));
                    mid_img = old_img.remove(j as int);
                    assert(map_of(mid_img).insert(name@, encoded@) =~= map_of(old_img).insert(
                        name@,
                        encoded@,
                    ));
                }
            },
            None => {
                proof {
                    mid_img = old_img;
                }
            },
        }
        entries.push((name, encoded));
        proof {
            lemma_map_of_push(mid_img, note@.key, encoded@);
            assert(entry_views(entries@) =~= mid_img.push((note@.key, encoded@)));
        }
        self.entries = entries;
        proof {
            assert forall|nm: Seq<char>|
                #[trigger] has_name(self.image(), nm) <==> (has_name(old_img, nm) || nm
                    == note@.key) by {
                lemma_map_of_contains(self.image(), nm);
                lemma_map_of_contains(old_img, nm);
            }
        }
        Ok(note.key.clone())
    }

    /// Removes the note's file from the image; a key with no file is
    /// reported as not found. The caller mirrors a successful removal
    /// onto disk by deleting the file at the note's location.
    pub fn delete(&mut self, key: &FileBasedNoteKey) -> (r: Result<(), StorageError>)
        ensures
            final(self).dir_view() == old(self).dir_view(),
            r is Ok <==> old(self).contents().contains_key(key@),
            r is Err ==> (r matches Err(e) && e == StorageError::NotFound && *final(self) == *old(
                self,
            )),
            final(self).contents() == old(self).contents().remove(key@),
            !has_name(final(self).image(), key@),
            unique_names(final(self).image()),
    {
        proof {
            use_type_invariant(&*self);
        }
        let ghost old_img = self.image();
        proof {
            lemma_map_of_contains(old_img, key@);
        }
        match find_name(&self.entries, key.as_text()) {
            Some(j) => {
                let mut entries: Vec<(String, String)> = Vec::new();
                core::mem::swap(&mut entries, &mut self.entries);
                entries.remove(j);
                proof {
                    lemma_map_of_remove(old_img, j as int);
                    assert(entry_views(entries@) =~= old_img.remove(j as int));
                }
                self.entries = entries;
                Ok(())
            },
            None => {
                proof {
                    assert(map_of(old_img).remove(key@) =~= map_of(old_img));
                }
                Err(StorageError::NotFound)
            },
        }
    }

    /// Fetches the note under `key` from the image: absent when there is
    /// no file named by the key, or when the file's contents do not read
    /// back as a note.
    pub fn get(&self, key: &FileBasedNoteKey) -> (r: Option<FileBasedNote>)
        ensures
            (match spec_get(self.contents(), key@) {
                Some(nd) => r matches Some(m) && m@ == nd,
                None => r is None,
            }),
    {
        proof {
            use_type_invariant(self);
            lemma_map_of_contains(self.image(), key@);
        }
        match find_name(&self.entries, key.as_text()) {
            Some(j) => {
                proof {
                    lemma_map_of_value(self.image(), j as int);
                }
                let contents = self.entries[j].1.as_str();
                match decode_fields(contents) {
                    Some(q) => {
                        proof {
                            let nd = spec_decode_note(contents@).unwrap();
                            lemma_decode_sound(contents@, nd);
                        }
                        let k = FileBasedNoteKey { text: q.0 };
                        Some(FileBasedNote::from_parts(k, q.1, q.2, q.3))
                    },
                    None => None,
                }
            },
            None => None,
        }
    }

    /// Lists the keys of the image: each file name in canonical key form,
    /// in directory order; other file names are skipped.
    pub fn list_keys(&self) -> (r: Vec<FileBasedNoteKey>)
        ensures
            key_views(r@) == spec_list_keys(self.image()),
    {
        let mut out: Vec<FileBasedNoteKey> = Vec::new();
        let mut i: usize = 0;
        while i < self.entries.len()
            invariant
                0 <= i <= self.entries@.len(),
                key_views(out@) == spec_list_keys(self.image().take(i as int)),
            decreases self.entries@.len() - i,
        {
            proof {
                assert(self.image().take(i + 1 as int).drop_last() =~= self.image().take(i as int));
                assert(self.image().take(i + 1 as int).last() == self.image()[i as int]);
            }
            let ghost prev = out@;
            let name = self.entries[i].0.clone();
            if check_canonical_key(name.as_str()) {
                out.push(FileBasedNoteKey { text: name });
                proof {
                    assert(key_views(out@) =~= key_views(prev).push(self.image()[i as int].0));
                }
            }
            i = i + 1;
        }
        proof {
            assert(self.image().take(self.entries@.len() as int) =~= self.image());
        }
        out
    }

    /// Lists the notes of the image: fetches each listed key in turn and
    /// keeps the present ones, skipping files that cannot be read back.
    pub fn list_values(&self) -> (r: Vec<FileBasedNote>)
        ensures
            note_views(r@) == spec_list_values(self.contents(), spec_list_keys(self.image())),
    {
        let keys = self.list_keys();
        let ghost kv = key_views(keys@);
        let mut out: Vec<FileBasedNote> = Vec::new();
        let mut i: usize = 0;
        while i < keys.len()
            invariant
                0 <= i <= keys@.len(),
                kv == key_views(keys@),
                kv == spec_list_keys(self.image()),
                note_views(out@) == spec_list_values(self.contents(), kv.take(i as int)),
            decreases keys@.len() - i,
        {
            proof {
                assert(kv.take(i + 1 as int).drop_last() =~= kv.take(i as int));
                assert(kv.take(i + 1 as int).last() == kv[i as int]);
                assert(keys@[i as int]@ == kv[i as int]);
            }
            let ghost prev = out@;
            match self.get(&keys[i]) {
                Some(n) => {
                    out.push(n);
                    proof {
                        assert(note_views(out@) =~= note_views(prev).push(n@));
                    }
                },
                None => {},
            }
            i = i + 1;
        }
        proof {
            assert(kv.take(keys@.len() as int) =~= kv);
        }
        out
    }
}

impl Save<FileBasedNoteKey, FileBasedNote> for FileStore {
    fn save(&mut self, t: &FileBasedNote) -> Result<FileBasedNoteKey, StorageError> {
        FileStore::save(self, t)
    }
}

impl Delete<FileBasedNoteKey> for FileStore {
    fn delete(&mut self, t: &FileBasedNoteKey) -> Result<(), StorageError> {
        FileStore::delete(self, t)
    }
}

impl Get<FileBasedNoteKey, FileBasedNote> for FileStore {
    fn get(&self, t: &FileBasedNoteKey) -> Option<FileBasedNote> {
        FileStore::get(self, t)
    }
}

impl List<FileBasedNoteKey, FileBasedNote> for FileStore {
    fn list_keys(&self) -> Vec<FileBasedNoteKey> {
        FileStore::list_keys(self)
    }

    fn list_values(&self) -> Vec<FileBasedNote> {
        FileStore::list_values(self)
    }
}

impl Store<FileBasedNoteKey, FileBasedNote> for FileStore {
}

/// Round trip: saving a note and fetching its key gives back a note with
/// the same key, workspace, title and body. In image terms: after the
/// note's rendering is stored under its key, reading that key yields
/// exactly the note.
pub proof fn lemma_get_after_save(m: Map<Seq<char>, Seq<char>>, n: NoteData)
    requires
        is_canonical_key(n.key),
    ensures
        spec_get(m.insert(n.key, spec_encode_note(n)), n.key) == Some(n),
{
    lemma_decode_of_encode(n);
}

/// A key that names no file of the image is not among its listed keys.
pub proof fn lemma_count_absent(e: Seq<(Seq<char>, Seq<char>)>, k: Seq<char>)
    requires
        !has_name(e, k),
    ensures
        count_of(spec_list_keys(e), k) == 0,
    decreases e.len(),
{
    if e.len() == 0 {
    } else {
        assert(!has_name(e.drop_last(), k)) by {
            if has_name(e.drop_last(), k) {
                let i = choose|i: int|
                    0 <= i < e.drop_last().len() && (#[trigger] e.drop_last()[i]).0 == k;
                assert(e[i].0 == k);
            }
        }
        lemma_count_absent(e.drop_last(), k);
        assert(e[e.len() - 1].0 != k);
        let rest = spec_list_keys(e.drop_last());
        if is_canonical_key(e.last().0) {
            assert(rest.push(e.last().0).drop_last() =~= rest);
            assert(rest.push(e.last().0).last() == e.last().0);
        }
    }
}

/// A key that names a file of an image without repeated names appears
/// exactly once among the image's listed keys — so after a save, the
/// returned key is listed exactly once.
pub proof fn lemma_saved_key_listed_once(e: Seq<(Seq<char>, Seq<char>)>, k: Seq<char>)
    requires
        unique_names(e),
        has_name(e, k),
        is_canonical_key(k),
    ensures
        count_of(spec_list_keys(e), k) == 1,
    decreases e.len(),
{
    let rest = spec_list_keys(e.drop_last());
    assert(unique_names(e.drop_last())) by {
        assert(forall|a: int, b: int|
            0 <= a < b < e.drop_last().len() ==> e.drop_last()[a].0 != e.drop_last()[b].0);
    }
    if e.last().0 == k {
        assert(!has_name(e.drop_last(), k)) by {
            if has_name(e.drop_last(), k) {
                let i = choose|i: int|
                    0 <= i < e.drop_last().len() && (#[trigger] e.drop_last()[i]).0 == k;
                assert(e[i].0 == k && e[e.len() - 1].0 == k);
            }
        }
        lemma_count_absent(e.drop_last(), k);
        assert(rest.push(k).drop_last() =~= rest);
        assert(rest.push(k).last() == k);
    } else {
        assert(has_name(e.drop_last(), k)) by {
            let i = choose|i: int| 0 <= i < e.len() && (#[trigger] e[i]).0 == k;
            assert(e.drop_last()[i].0 == k);
        }
        lemma_saved_key_listed_once(e.drop_last(), k);
        if is_canonical_key(e.last().0) {
            assert(rest.push(e.last().0).drop_last() =~= rest);
            assert(rest.push(e.last().0).last() == e.last().0);
        }
    }
}

/// After a delete, the key reads back as absent and is no longer among
/// the listed keys.
pub proof fn lemma_deleted_key_gone(
    m: Map<Seq<char>, Seq<char>>,
    e: Seq<(Seq<char>, Seq<char>)>,
    k: Seq<char>,
)
    requires
        !has_name(e, k),
    ensures
        spec_get(m.remove(k), k) is None,
        count_of(spec_list_keys(e), k) == 0,
{
    lemma_count_absent(e, k);
}

/// A file whose contents are not the rendering of any note reads back as
/// absent.
pub proof fn lemma_unreadable_contents_absent(m: Map<Seq<char>, Seq<char>>, k: Seq<char>)
    requires
        m.contains_key(k),
        forall|nd: NoteData| m[k] != #[trigger] spec_encode_note(nd),
    ensures
        spec_get(m, k) is None,
{
    if spec_decode_note(m[k]) is Some {
        let nd = spec_decode_note(m[k]).unwrap();
        lemma_decode_sound(m[k], nd);
        assert(m[k] == spec_encode_note(nd));
    }
}

} // verus!
