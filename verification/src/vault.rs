//! The engine state: the metadata index (note, folder and tag rows), the
//! content store (a list of files), the full-text search index and the
//! note-tag associations, together with the content root they all hang
//! under. Every operation of the library is a method of [`Vault`] whose
//! contract relates the state after the call to a spec-level transition of
//! the ghost image [`VaultV`].

use vstd::prelude::*;

use crate::chars::str_eq;
use crate::models::FileEntry;
use crate::models::FileV;
use crate::models::Folder;
use crate::models::FolderV;
use crate::models::Note;
use crate::models::NoteTag;
use crate::models::LinkV;
use crate::models::NoteV;
use crate::models::SearchEntry;
use crate::models::SearchV;
use crate::models::Tag;
use crate::models::TagV;
use crate::paths::replace_prefix;
use crate::paths::replace_prefix_s;
use crate::paths::under_prefix;
use crate::paths::under_prefix_s;

verus! {

/// The elements of `s` that satisfy `p`, in order.
pub open spec fn keep<A>(s: Seq<A>, p: spec_fn(A) -> bool) -> Seq<A>
    decreases s.len(),
{
    if s.len() == 0 {
        Seq::<A>::empty()
    } else if p(s.last()) {
        keep(s.drop_last(), p).push(s.last())
    } else {
        keep(s.drop_last(), p)
    }
}

pub proof fn lemma_keep_contains<A>(s: Seq<A>, p: spec_fn(A) -> bool)
    ensures
        forall|x: A| #[trigger] keep(s, p).contains(x) ==> s.contains(x) && p(x),
    decreases s.len(),
{
    if s.len() > 0 {
        lemma_keep_contains(s.drop_last(), p);
        assert forall|x: A| #[trigger] keep(s, p).contains(x) implies s.contains(x) && p(x) by {
            if p(s.last()) && x == s.last() {
                assert(s[s.len() - 1] == x);
            } else {
                assert(keep(s.drop_last(), p).contains(x));
                assert(s.drop_last().contains(x));
                let i = choose|i: int| 0 <= i < s.drop_last().len() && s.drop_last()[i] == x;
                assert(s[i] == x);
            }
        }
    }
}

/// No two elements of `s` share a key.
pub open spec fn distinct_keys<A, K>(s: Seq<A>, key: spec_fn(A) -> K) -> bool {
    forall|i: int, j: int| 0 <= i < j < s.len() ==> key(s[i]) != key(s[j])
}

pub proof fn lemma_keep_distinct<A, K>(s: Seq<A>, p: spec_fn(A) -> bool, key: spec_fn(A) -> K)
    requires
        distinct_keys(s, key),
    ensures
        distinct_keys(keep(s, p), key),
    decreases s.len(),
{
    if s.len() > 0 {
        assert(distinct_keys(s.drop_last(), key)) by {
            assert(forall|i: int|
                0 <= i < s.drop_last().len() ==> s.drop_last()[i] == s[i]);
        }
        lemma_keep_distinct(s.drop_last(), p, key);
        if p(s.last()) {
            let k = keep(s.drop_last(), p);
            assert forall|i: int, j: int|
                0 <= i < j < k.push(s.last()).len() implies key(k.push(s.last())[i]) != key(
                k.push(s.last())[j],
            ) by {
                if j == k.len() {
                    assert(k.push(s.last())[j] == s.last());
                    assert(k.push(s.last())[i] == k[i]);
                    assert(k.contains(k[i]));
                    lemma_keep_contains(s.drop_last(), p);
                    assert(s.drop_last().contains(k[i]));
                    let w = choose|w: int|
                        0 <= w < s.drop_last().len() && s.drop_last()[w] == k[i];
                    assert(s[w] == k[i]);
                    assert(key(s[w]) != key(s[s.len() - 1]));
                } else {
                    assert(k.push(s.last())[i] == k[i]);
                    assert(k.push(s.last())[j] == k[j]);
                }
            }
        }
    }
}

/// The content of the first file at `path`, if one is there.
pub open spec fn file_content_at(files: Seq<FileV>, path: Seq<char>) -> Option<Seq<char>>
    decreases files.len(),
{
    if files.len() == 0 {
        None
    } else if files[0].path == path {
        Some(files[0].content)
    } else {
        file_content_at(files.drop_first(), path)
    }
}

pub open spec fn has_file_at(files: Seq<FileV>, path: Seq<char>) -> bool {
    file_content_at(files, path) is Some
}

/// The store after writing `content` to `path`: any file at that path is
/// replaced.
pub open spec fn write_file_t(files: Seq<FileV>, path: Seq<char>, content: Seq<char>) -> Seq<
    FileV,
> {
    keep(files, |f: FileV| f.path != path).push(FileV { path, content })
}

/// The store after removing whatever is at `path`.
pub open spec fn remove_file_t(files: Seq<FileV>, path: Seq<char>) -> Seq<FileV> {
    keep(files, |f: FileV| f.path != path)
}

/// The store after moving the file at `from` to `to`, replacing anything
/// already there.
pub open spec fn move_file_t(files: Seq<FileV>, from: Seq<char>, to: Seq<char>) -> Seq<FileV> {
    match file_content_at(files, from) {
        Some(c) => write_file_t(remove_file_t(files, from), to, c),
        None => files,
    }
}

/// The store after a directory move: every path at or under `from` is
/// rewritten to hang under `to`.
pub open spec fn move_tree_t(files: Seq<FileV>, from: Seq<char>, to: Seq<char>) -> Seq<FileV> {
    files.map_values(
        |f: FileV| FileV { path: replace_prefix_s(f.path, from, to), content: f.content },
    )
}

/// The store after a recursive removal of the directory `from`.
pub open spec fn remove_tree_t(files: Seq<FileV>, from: Seq<char>) -> Seq<FileV> {
    keep(files, |f: FileV| !under_prefix_s(f.path, from))
}

/// The search index without the entry of the given note.
pub open spec fn remove_search_t(search: Seq<SearchV>, id: int) -> Seq<SearchV> {
    keep(search, |e: SearchV| e.id != id)
}

/// The search index with the entry of the given note set to this title and
/// content.
pub open spec fn upsert_search_t(
    search: Seq<SearchV>,
    id: int,
    title: Seq<char>,
    content: Seq<char>,
) -> Seq<SearchV> {
    remove_search_t(search, id).push(SearchV { id, title, content })
}

/// The ghost image of the whole engine state.
pub struct VaultV {
    pub base: Seq<char>,
    pub notes: Seq<NoteV>,
    pub folders: Seq<FolderV>,
    pub files: Seq<FileV>,
    pub search: Seq<SearchV>,
    pub tags: Seq<TagV>,
    pub links: Seq<LinkV>,
    pub next_note_id: int,
    pub next_folder_id: int,
    pub next_tag_id: int,
}

pub open spec fn note_key(n: NoteV) -> int {
    n.id
}

pub open spec fn folder_key(f: FolderV) -> int {
    f.id
}

pub open spec fn tag_key(t: TagV) -> int {
    t.id
}

pub open spec fn tag_name_key(t: TagV) -> Seq<char> {
    t.name
}

pub open spec fn search_key(e: SearchV) -> int {
    e.id
}

pub open spec fn link_key(l: LinkV) -> (int, int) {
    (l.note_id, l.tag_id)
}

/// Well-formedness of the state: ids are positive, below the next free id,
/// and unique; tag names are unique; the search index holds at most one
/// entry per note; associations are not duplicated.
pub open spec fn wf_v(v: VaultV) -> bool {
    &&& distinct_keys(v.notes, |n: NoteV| note_key(n))
    &&& distinct_keys(v.folders, |f: FolderV| folder_key(f))
    &&& distinct_keys(v.tags, |t: TagV| tag_key(t))
    &&& distinct_keys(v.tags, |t: TagV| tag_name_key(t))
    &&& distinct_keys(v.search, |e: SearchV| search_key(e))
    &&& distinct_keys(v.links, |l: LinkV| link_key(l))
    &&& forall|i: int| 0 <= i < v.notes.len() ==> 0 < #[trigger] v.notes[i].id < v.next_note_id
    &&& forall|i: int|
        0 <= i < v.folders.len() ==> 0 < #[trigger] v.folders[i].id < v.next_folder_id
    &&& forall|i: int| 0 <= i < v.tags.len() ==> 0 < #[trigger] v.tags[i].id < v.next_tag_id
    &&& forall|i: int| 0 <= i < v.search.len() ==> 0 < #[trigger] v.search[i].id < v.next_note_id
    &&& 0 < v.next_note_id <= i64::MAX
    &&& 0 < v.next_folder_id <= i64::MAX
    &&& 0 < v.next_tag_id <= i64::MAX
}

pub open spec fn note_views(s: Seq<Note>) -> Seq<NoteV> {
    s.map_values(|n: Note| n@)
}

pub open spec fn folder_views(s: Seq<Folder>) -> Seq<FolderV> {
    s.map_values(|f: Folder| f@)
}

pub open spec fn file_views(s: Seq<FileEntry>) -> Seq<FileV> {
    s.map_values(|f: FileEntry| f@)
}

pub open spec fn search_views(s: Seq<SearchEntry>) -> Seq<SearchV> {
    s.map_values(|e: SearchEntry| e@)
}

pub open spec fn tag_views(s: Seq<Tag>) -> Seq<TagV> {
    s.map_values(|t: Tag| t@)
}

pub open spec fn link_views(s: Seq<NoteTag>) -> Seq<LinkV> {
    s.map_values(|l: NoteTag| l@)
}

/// The engine: both stores and the index, under one content root.
pub struct Vault {
    pub base: String,
    pub notes: Vec<Note>,
    pub folders: Vec<Folder>,
    pub files: Vec<FileEntry>,
    pub search: Vec<SearchEntry>,
    pub tags: Vec<Tag>,
    pub links: Vec<NoteTag>,
    pub next_note_id: i64,
    pub next_folder_id: i64,
    pub next_tag_id: i64,
}

impl View for Vault {
    type V = VaultV;

    open spec fn view(&self) -> VaultV {
        VaultV {
            base: self.base@,
            notes: note_views(self.notes@),
            folders: folder_views(self.folders@),
            files: file_views(self.files@),
            search: search_views(self.search@),
            tags: tag_views(self.tags@),
            links: link_views(self.links@),
            next_note_id: self.next_note_id as int,
            next_folder_id: self.next_folder_id as int,
            next_tag_id: self.next_tag_id as int,
        }
    }
}

/// Whether some note row carries this id.
pub open spec fn has_note(v: VaultV, id: int) -> bool {
    exists|i: int| 0 <= i < v.notes.len() && v.notes[i].id == id
}

/// The position of the note row with this id.
pub open spec fn note_at(v: VaultV, id: int) -> int {
    choose|i: int| 0 <= i < v.notes.len() && v.notes[i].id == id
}

pub open spec fn has_folder(v: VaultV, id: int) -> bool {
    exists|i: int| 0 <= i < v.folders.len() && v.folders[i].id == id
}

pub open spec fn folder_at(v: VaultV, id: int) -> int {
    choose|i: int| 0 <= i < v.folders.len() && v.folders[i].id == id
}

pub open spec fn has_live_folder(v: VaultV, id: int) -> bool {
    exists|i: int|
        0 <= i < v.folders.len() && v.folders[i].id == id && !v.folders[i].is_deleted
}

pub open spec fn has_tag(v: VaultV, id: int) -> bool {
    exists|i: int| 0 <= i < v.tags.len() && v.tags[i].id == id
}

pub open spec fn tag_at(v: VaultV, id: int) -> int {
    choose|i: int| 0 <= i < v.tags.len() && v.tags[i].id == id
}

pub open spec fn has_tag_named(v: VaultV, name: Seq<char>) -> bool {
    exists|i: int| 0 <= i < v.tags.len() && v.tags[i].name == name
}

/// Whether a live note occupies this file path: the scope of the conflict
/// check on note creation.
pub open spec fn live_note_at_path(v: VaultV, path: Seq<char>) -> bool {
    exists|i: int|
        0 <= i < v.notes.len() && !v.notes[i].is_deleted && v.notes[i].file_path == path
}

/// Whether a live folder occupies this folder path: the scope of the
/// conflict check on folder creation, the same as the note pattern.
pub open spec fn live_folder_at_path(v: VaultV, path: Seq<char>) -> bool {
    exists|i: int|
        0 <= i < v.folders.len() && !v.folders[i].is_deleted && v.folders[i].folder_path
            == path
}

impl Vault {
    pub open spec fn wf(&self) -> bool {
        wf_v(self@)
    }

    /// A fresh vault over the given content root: no rows, no files, no
    /// index entries, every id counter at its start.
    pub fn new(base: String) -> (r: Vault)
        ensures
            r.wf(),
            r@ == (VaultV {
                base: base@,
                notes: Seq::<NoteV>::empty(),
                folders: Seq::<FolderV>::empty(),
                files: Seq::<FileV>::empty(),
                search: Seq::<SearchV>::empty(),
                tags: Seq::<TagV>::empty(),
                links: Seq::<LinkV>::empty(),
                next_note_id: 1,
                next_folder_id: 1,
                next_tag_id: 1,
            }),
    {
        let v = Vault {
            base,
            notes: Vec::new(),
            folders: Vec::new(),
            files: Vec::new(),
            search: Vec::new(),
            tags: Vec::new(),
            links: Vec::new(),
            next_note_id: 1,
            next_folder_id: 1,
            next_tag_id: 1,
        };
        proof {
            assert(v@.notes =~= Seq::<NoteV>::empty());
            assert(v@.folders =~= Seq::<FolderV>::empty());
            assert(v@.files =~= Seq::<FileV>::empty());
            assert(v@.search =~= Seq::<SearchV>::empty());
            assert(v@.tags =~= Seq::<TagV>::empty());
            assert(v@.links =~= Seq::<LinkV>::empty());
        }
        v
    }

    /// The position of the note row with this id, scanning from the front.
    pub(crate) fn find_note(&self, id: i64) -> (r: Option<usize>)
        requires
            self.wf(),
        ensures
            match r {
                Some(i) => has_note(self@, id as int) && note_at(self@, id as int) == i as int
                    && i < self@.notes.len() && self@.notes[i as int].id == id as int,
                None => !has_note(self@, id as int),
            },
    {
        let mut i: usize = 0;
        while i < self.notes.len()
            invariant
                i <= self@.notes.len(),
                self.wf(),
                forall|k: int| 0 <= k < i ==> #[trigger] self@.notes[k].id != id as int,
            decreases self@.notes.len() - i,
        {
            if self.notes[i].id == id {
                proof {
                    assert(self@.notes[i as int].id == id as int);
                    let w = note_at(self@, id as int);
                    assert(self@.notes[w].id == id as int);
                    assert(w == i as int) by {
                        if w != i as int {
                            assert(distinct_keys(self@.notes, |n: NoteV| note_key(n)));
                        }
                    }
                }
                return Some(i);
            }
            i = i + 1;
        }
        proof {
            if has_note(self@, id as int) {
                let w = choose|w: int|
                    0 <= w < self@.notes.len() && self@.notes[w].id == id as int;
                assert(self@.notes[w].id == id as int);
            }
        }
        None
    }

    /// The position of the folder row with this id.
    pub(crate) fn find_folder(&self, id: i64) -> (r: Option<usize>)
        requires
            self.wf(),
        ensures
            match r {
                Some(i) => has_folder(self@, id as int) && folder_at(self@, id as int)
                    == i as int && i < self@.folders.len() && self@.folders[i as int].id
                    == id as int,
                None => !has_folder(self@, id as int),
            },
    {
        let mut i: usize = 0;
        while i < self.folders.len()
            invariant
                i <= self@.folders.len(),
                self.wf(),
                forall|k: int| 0 <= k < i ==> #[trigger] self@.folders[k].id != id as int,
            decreases self@.folders.len() - i,
        {
            if self.folders[i].id == id {
                proof {
                    assert(self@.folders[i as int].id == id as int);
                    let w = folder_at(self@, id as int);
                    assert(self@.folders[w].id == id as int);
                    assert(w == i as int) by {
                        if w != i as int {
                            assert(distinct_keys(self@.folders, |f: FolderV| folder_key(f)));
                        }
                    }
                }
                return Some(i);
            }
            i = i + 1;
        }
        proof {
            if has_folder(self@, id as int) {
                let w = choose|w: int|
                    0 <= w < self@.folders.len() && self@.folders[w].id == id as int;
                assert(self@.folders[w].id == id as int);
            }
        }
        None
    }

    /// The position of the tag row with this id.
    pub(crate) fn find_tag(&self, id: i64) -> (r: Option<usize>)
        requires
            self.wf(),
        ensures
            match r {
                Some(i) => has_tag(self@, id as int) && tag_at(self@, id as int) == i as int
                    && i < self@.tags.len() && self@.tags[i as int].id == id as int,
                None => !has_tag(self@, id as int),
            },
    {
        let mut i: usize = 0;
        while i < self.tags.len()
            invariant
                i <= self@.tags.len(),
                self.wf(),
                forall|k: int| 0 <= k < i ==> #[trigger] self@.tags[k].id != id as int,
            decreases self@.tags.len() - i,
        {
            if self.tags[i].id == id {
                proof {
                    assert(self@.tags[i as int].id == id as int);
                    let w = tag_at(self@, id as int);
                    assert(self@.tags[w].id == id as int);
                    assert(w == i as int) by {
                        if w != i as int {
                            assert(distinct_keys(self@.tags, |t: TagV| tag_key(t)));
                        }
                    }
                }
                return Some(i);
            }
            i = i + 1;
        }
        proof {
            if has_tag(self@, id as int) {
                let w = choose|w: int| 0 <= w < self@.tags.len() && self@.tags[w].id == id as int;
                assert(self@.tags[w].id == id as int);
            }
        }
        None
    }

    /// Whether the folder with this id exists and is not soft-deleted.
    pub(crate) fn folder_is_live(&self, id: i64) -> (r: bool)
        requires
            self.wf(),
        ensures
            r == has_live_folder(self@, id as int),
    {
        match self.find_folder(id) {
            Some(i) => {
                let live = !self.folders[i].is_deleted;
                proof {
                    if live {
                        assert(has_live_folder(self@, id as int));
                    } else {
                        if has_live_folder(self@, id as int) {
                            let w = choose|w: int|
                                0 <= w < self@.folders.len() && self@.folders[w].id == id as int
                                    && !self@.folders[w].is_deleted;
                            assert(self@.folders[w].id == id as int);
                            assert(distinct_keys(self@.folders, |f: FolderV| folder_key(f)));
                            assert(w == i as int);
                        }
                    }
                }
                live
            },
            None => {
                proof {
                    if has_live_folder(self@, id as int) {
                        let w = choose|w: int|
                            0 <= w < self@.folders.len() && self@.folders[w].id == id as int
                                && !self@.folders[w].is_deleted;
                        assert(has_folder(self@, id as int));
                    }
                }
                false
            },
        }
    }

    /// The content of the file at `path`, if one is there.
    pub(crate) fn read_file(&self, path: &str) -> (r: Option<String>)
        ensures
            match r {
                Some(c) => file_content_at(self@.files, path@) == Some(c@),
                None => file_content_at(self@.files, path@) is None,
            },
    {
        let mut i: usize = 0;
        proof {
            assert(self@.files.subrange(0, self@.files.len() as int) =~= self@.files);
        }
        while i < self.files.len()
            invariant
                i <= self@.files.len(),
                file_content_at(self@.files, path@) == file_content_at(
                    self@.files.subrange(i as int, self@.files.len() as int),
                    path@,
                ),
            decreases self@.files.len() - i,
        {
            let ghost rest = self@.files.subrange(i as int, self@.files.len() as int);
            proof {
                assert(rest[0] == self@.files[i as int]);
                assert(rest.drop_first() =~= self@.files.subrange(
                    i + 1,
                    self@.files.len() as int,
                ));
            }
            if str_eq(self.files[i].path.as_str(), path) {
                let c = self.files[i].content.clone();
                return Some(c);
            }
            i = i + 1;
        }
        proof {
            assert(self@.files.subrange(i as int, self@.files.len() as int).len() == 0);
        }
        None
    }

    /// Whether a file sits at `path`.
    pub(crate) fn file_exists(&self, path: &str) -> (r: bool)
        ensures
            r == has_file_at(self@.files, path@),
    {
        match self.read_file(path) {
            Some(_) => true,
            None => false,
        }
    }

    /// Writes `content` to `path`, replacing any file already there.
    pub(crate) fn write_file(&mut self, path: &str, content: &str)
        ensures
            final(self)@ == (VaultV {
                files: write_file_t(old(self)@.files, path@, content@),
                ..old(self)@
            }),
    {
        let mut out: Vec<FileEntry> = Vec::new();
        let mut i: usize = 0;
        proof {
            assert(file_views(self.files@).subrange(0, 0) =~= Seq::<FileV>::empty());
        }
        while i < self.files.len()
            invariant
                i <= self@.files.len(),
                file_views(out@) == keep(
                    file_views(self.files@).subrange(0, i as int),
                    |f: FileV| f.path != path@,
                ),
            decreases self@.files.len() - i,
        {
            let ghost pre = file_views(self.files@).subrange(0, i as int);
            let ghost pre2 = file_views(self.files@).subrange(0, i + 1);
            proof {
                assert(pre2.drop_last() =~= pre);
                assert(pre2.last() == self.files@[i as int]@);
            }
            if !str_eq(self.files[i].path.as_str(), path) {
                let e = FileEntry {
                    path: self.files[i].path.clone(),
                    content: self.files[i].content.clone(),
                };
                out.push(e);
                proof {
                    assert(file_views(out@) =~= keep(pre2, |f: FileV| f.path != path@));
                }
            } else {
                proof {
                    assert(file_views(out@) =~= keep(pre2, |f: FileV| f.path != path@));
                }
            }
            i = i + 1;
        }
        proof {
            assert(file_views(self.files@).subrange(0, i as int) =~= file_views(self.files@));
        }
        out.push(FileEntry { path: path.to_owned(), content: content.to_owned() });
        proof {
            assert(file_views(out@) =~= write_file_t(file_views(self.files@), path@, content@));
        }
        self.files = out;
    }

    /// Removes whatever file sits at `path`.
    pub(crate) fn remove_file(&mut self, path: &str)
        ensures
            final(self)@ == (VaultV {
                files: remove_file_t(old(self)@.files, path@),
                ..old(self)@
            }),
    {
        let mut out: Vec<FileEntry> = Vec::new();
        let mut i: usize = 0;
        proof {
            assert(file_views(self.files@).subrange(0, 0) =~= Seq::<FileV>::empty());
        }
        while i < self.files.len()
            invariant
                i <= self@.files.len(),
                file_views(out@) == keep(
                    file_views(self.files@).subrange(0, i as int),
                    |f: FileV| f.path != path@,
                ),
            decreases self@.files.len() - i,
        {
            let ghost pre = file_views(self.files@).subrange(0, i as int);
            let ghost pre2 = file_views(self.files@).subrange(0, i + 1);
            proof {
                assert(pre2.drop_last() =~= pre);
                assert(pre2.last() == self.files@[i as int]@);
            }
            if !str_eq(self.files[i].path.as_str(), path) {
                let e = FileEntry {
                    path: self.files[i].path.clone(),
                    content: self.files[i].content.clone(),
                };
                out.push(e);
                proof {
                    assert(file_views(out@) =~= keep(pre2, |f: FileV| f.path != path@));
                }
            } else {
                proof {
                    assert(file_views(out@) =~= keep(pre2, |f: FileV| f.path != path@));
                }
            }
            i = i + 1;
        }
        proof {
            assert(file_views(self.files@).subrange(0, i as int) =~= file_views(self.files@));
        }
        self.files = out;
    }

    /// Moves the file at `from` to `to`; nothing happens when no file is at
    /// `from`, and a file already at `to` is replaced.
    pub(crate) fn move_file(&mut self, from: &str, to: &str)
        ensures
            final(self)@ == (VaultV {
                files: move_file_t(old(self)@.files, from@, to@),
                ..old(self)@
            }),
    {
        match self.read_file(from) {
            Some(c) => {
                self.remove_file(from);
                self.write_file(to, c.as_str());
            },
            None => {},
        }
    }

    /// Rewrites every file path at or under `from` to hang under `to`.
    pub(crate) fn move_tree(&mut self, from: &str, to: &str)
        ensures
            final(self)@ == (VaultV {
                files: move_tree_t(old(self)@.files, from@, to@),
                ..old(self)@
            }),
    {
        let mut out: Vec<FileEntry> = Vec::new();
        let mut i: usize = 0;
        while i < self.files.len()
            invariant
                i <= self@.files.len(),
                file_views(out@) == move_tree_t(
                    file_views(self.files@).subrange(0, i as int),
                    from@,
                    to@,
                ),
            decreases self@.files.len() - i,
        {
            let ghost pre = file_views(self.files@).subrange(0, i as int);
            let ghost pre2 = file_views(self.files@).subrange(0, i + 1);
            let ghost out0 = out@;
            let np = replace_prefix(self.files[i].path.as_str(), from, to);
            let e = FileEntry { path: np, content: self.files[i].content.clone() };
            let ghost ev = e@;
            out.push(e);
            proof {
                let g = |x: FileV| FileV {
                    path: replace_prefix_s(x.path, from@, to@),
                    content: x.content,
                };
                assert(ev == g(self.files@[i as int]@));
                assert(out@ == out0.push(out@[out@.len() - 1]));
                assert(out@[out@.len() - 1]@ == ev);
                assert(file_views(out0) == move_tree_t(pre, from@, to@));
                assert(out0.len() == pre.len()) by {
                    assert(file_views(out0).len() == out0.len());
                    assert(move_tree_t(pre, from@, to@).len() == pre.len());
                }
                assert forall|k: int| 0 <= k < pre2.len() implies file_views(out@)[k]
                    == move_tree_t(pre2, from@, to@)[k] by {
                    assert(move_tree_t(pre2, from@, to@)[k] == g(pre2[k]));
                    assert(file_views(out@)[k] == out@[k]@);
                    if k < i as int {
                        assert(pre2[k] == pre[k]);
                        assert(out@[k] == out0[k]);
                        assert(out0[k]@ == file_views(out0)[k]);
                        assert(file_views(out0)[k] == move_tree_t(pre, from@, to@)[k]);
                    } else {
                        assert(pre2[k] == self.files@[i as int]@);
                        assert(out@[k]@ == ev);
                    }
                }
                assert(file_views(out@).len() == out@.len());
                assert(file_views(out@) =~= move_tree_t(pre2, from@, to@));
            }
            i = i + 1;
        }
        proof {
            assert(file_views(self.files@).subrange(0, i as int) =~= file_views(self.files@));
        }
        self.files = out;
    }

    /// Removes every file at or under `from`.
    pub(crate) fn remove_tree(&mut self, from: &str)
        ensures
            final(self)@ == (VaultV {
                files: remove_tree_t(old(self)@.files, from@),
                ..old(self)@
            }),
    {
        let mut out: Vec<FileEntry> = Vec::new();
        let mut i: usize = 0;
        proof {
            assert(file_views(self.files@).subrange(0, 0) =~= Seq::<FileV>::empty());
        }
        while i < self.files.len()
            invariant
                i <= self@.files.len(),
                file_views(out@) == keep(
                    file_views(self.files@).subrange(0, i as int),
                    |f: FileV| !under_prefix_s(f.path, from@),
                ),
            decreases self@.files.len() - i,
        {
            let ghost pre2 = file_views(self.files@).subrange(0, i + 1);
            proof {
                assert(pre2.drop_last() =~= file_views(self.files@).subrange(0, i as int));
                assert(pre2.last() == self.files@[i as int]@);
            }
            if !under_prefix(self.files[i].path.as_str(), from) {
                let e = FileEntry {
                    path: self.files[i].path.clone(),
                    content: self.files[i].content.clone(),
                };
                out.push(e);
            }
            i = i + 1;
            proof {
                assert(file_views(out@) =~= keep(
                    pre2,
                    |f: FileV| !under_prefix_s(f.path, from@),
                ));
            }
        }
        proof {
            assert(file_views(self.files@).subrange(0, i as int) =~= file_views(self.files@));
        }
        self.files = out;
    }

    /// Drops the search entry of the given note, if any.
    pub(crate) fn remove_search(&mut self, id: i64)
        ensures
            final(self)@ == (VaultV {
                search: remove_search_t(old(self)@.search, id as int),
                ..old(self)@
            }),
    {
        let mut out: Vec<SearchEntry> = Vec::new();
        let mut i: usize = 0;
        proof {
            assert(search_views(self.search@).subrange(0, 0) =~= Seq::<SearchV>::empty());
        }
        while i < self.search.len()
            invariant
                i <= self@.search.len(),
                search_views(out@) == keep(
                    search_views(self.search@).subrange(0, i as int),
                    |e: SearchV| e.id != id as int,
                ),
            decreases self@.search.len() - i,
        {
            let ghost pre2 = search_views(self.search@).subrange(0, i + 1);
            proof {
                assert(pre2.drop_last() =~= search_views(self.search@).subrange(0, i as int));
                assert(pre2.last() == self.search@[i as int]@);
            }
            if self.search[i].id != id {
                let e = SearchEntry {
                    id: self.search[i].id,
                    title: self.search[i].title.clone(),
                    content: self.search[i].content.clone(),
                };
                out.push(e);
            }
            i = i + 1;
            proof {
                assert(search_views(out@) =~= keep(pre2, |e: SearchV| e.id != id as int));
            }
        }
        proof {
            assert(search_views(self.search@).subrange(0, i as int) =~= search_views(
                self.search@,
            ));
        }
        self.search = out;
    }

    /// Sets the search entry of the given note to this title and content.
    pub(crate) fn upsert_search(&mut self, id: i64, title: &str, content: &str)
        ensures
            final(self)@ == (VaultV {
                search: upsert_search_t(old(self)@.search, id as int, title@, content@),
                ..old(self)@
            }),
    {
        self.remove_search(id);
        self.search.push(
            SearchEntry { id, title: title.to_owned(), content: content.to_owned() },
        );
        proof {
            assert(search_views(self.search@) =~= upsert_search_t(
                old(self)@.search,
                id as int,
                title@,
                content@,
            ));
        }
    }
}

} // verus!

verus! {

pub proof fn lemma_keep_index<A>(s: Seq<A>, p: spec_fn(A) -> bool)
    ensures
        forall|i: int|
            0 <= i < keep(s, p).len() ==> exists|j: int|
                0 <= j < s.len() && s[j] == #[trigger] keep(s, p)[i],
{
    lemma_keep_contains(s, p);
    assert forall|i: int| 0 <= i < keep(s, p).len() implies exists|j: int|
        0 <= j < s.len() && s[j] == #[trigger] keep(s, p)[i] by {
        assert(keep(s, p).contains(keep(s, p)[i]));
        assert(s.contains(keep(s, p)[i]));
    }
}

/// The search-index parts of well-formedness, as one predicate.
pub open spec fn search_wf(search: Seq<SearchV>, bound: int) -> bool {
    &&& distinct_keys(search, |e: SearchV| search_key(e))
    &&& forall|i: int| 0 <= i < search.len() ==> 0 < #[trigger] search[i].id < bound
}

pub proof fn lemma_search_remove_wf(search: Seq<SearchV>, id: int, bound: int)
    requires
        search_wf(search, bound),
    ensures
        search_wf(remove_search_t(search, id), bound),
{
    let p = |e: SearchV| e.id != id;
    lemma_keep_distinct(search, p, |e: SearchV| search_key(e));
    lemma_keep_index(search, p);
    assert forall|i: int| 0 <= i < remove_search_t(search, id).len() implies 0
        < #[trigger] remove_search_t(search, id)[i].id < bound by {
        let x = keep(search, p)[i];
        let j = choose|j: int| 0 <= j < search.len() && search[j] == x;
        assert(0 < search[j].id < bound);
    }
}

pub proof fn lemma_search_upsert_wf(
    search: Seq<SearchV>,
    id: int,
    title: Seq<char>,
    content: Seq<char>,
    bound: int,
)
    requires
        search_wf(search, bound),
        0 < id < bound,
    ensures
        search_wf(upsert_search_t(search, id, title, content), bound),
{
    lemma_search_remove_wf(search, id, bound);
    let rm = remove_search_t(search, id);
    let p = |e: SearchV| e.id != id;
    lemma_keep_contains(search, p);
    let out = upsert_search_t(search, id, title, content);
    assert forall|i: int, j: int| 0 <= i < j < out.len() implies search_key(out[i])
        != search_key(out[j]) by {
        if j == rm.len() {
            assert(out[j].id == id);
            assert(out[i] == rm[i]);
            assert(rm.contains(rm[i]));
            assert(p(rm[i]));
        } else {
            assert(out[i] == rm[i]);
            assert(out[j] == rm[j]);
        }
    }
    assert forall|i: int| 0 <= i < out.len() implies 0 < #[trigger] out[i].id < bound by {
        if i < rm.len() {
            assert(out[i] == rm[i]);
        } else {
            assert(out[i].id == id);
        }
    }
}

} // verus!

verus! {

impl Vault {
    /// Checks the state against the library's well-formedness: positive
    /// ids below their counters and unique, unique tag names, one search
    /// entry per note, no duplicate associations. A `true` answer
    /// guarantees `wf`, so a caller that rebuilt a vault from storage can
    /// validate it before using the operations.
    pub fn check_well_formed(&self) -> (r: bool)
        ensures
            r ==> self.wf(),
    {
        if self.next_note_id < 1 || self.next_folder_id < 1 || self.next_tag_id < 1 {
            return false;
        }
        let mut i: usize = 0;
        while i < self.notes.len()
            invariant
                i <= self@.notes.len(),
                forall|a: int, b: int|
                    0 <= a < b < i ==> note_key(#[trigger] self@.notes[a]) != note_key(
                        #[trigger] self@.notes[b],
                    ),
                forall|a: int|
                    0 <= a < i ==> 0 < (#[trigger] self@.notes[a]).id < self@.next_note_id,
            decreases self@.notes.len() - i,
        {
            if self.notes[i].id < 1 || self.notes[i].id >= self.next_note_id {
                return false;
            }
            let mut j: usize = 0;
            while j < i
                invariant
                    j <= i,
                    i < self@.notes.len(),
                    forall|b: int|
                        0 <= b < j ==> note_key(#[trigger] self@.notes[b]) != note_key(
                            self@.notes[i as int],
                        ),
                decreases i - j,
            {
                if self.notes[j].id == self.notes[i].id {
                    return false;
                }
                j = j + 1;
            }
            i = i + 1;
        }
        let mut i: usize = 0;
        while i < self.folders.len()
            invariant
                i <= self@.folders.len(),
                forall|a: int, b: int|
                    0 <= a < b < i ==> folder_key(#[trigger] self@.folders[a]) != folder_key(
                        #[trigger] self@.folders[b],
                    ),
                forall|a: int|
                    0 <= a < i ==> 0 < (#[trigger] self@.folders[a]).id
                        < self@.next_folder_id,
            decreases self@.folders.len() - i,
        {
            if self.folders[i].id < 1 || self.folders[i].id >= self.next_folder_id {
                return false;
            }
            let mut j: usize = 0;
            while j < i
                invariant
                    j <= i,
                    i < self@.folders.len(),
                    forall|b: int|
                        0 <= b < j ==> folder_key(#[trigger] self@.folders[b]) != folder_key(
                            self@.folders[i as int],
                        ),
                decreases i - j,
            {
                if self.folders[j].id == self.folders[i].id {
                    return false;
                }
                j = j + 1;
            }
            i = i + 1;
        }
        let mut i: usize = 0;
        while i < self.tags.len()
            invariant
                i <= self@.tags.len(),
                forall|a: int, b: int|
                    0 <= a < b < i ==> tag_key(#[trigger] self@.tags[a]) != tag_key(
                        #[trigger] self@.tags[b],
                    ),
                forall|a: int, b: int|
                    0 <= a < b < i ==> tag_name_key(#[trigger] self@.tags[a]) != tag_name_key(
                        #[trigger] self@.tags[b],
                    ),
                forall|a: int|
                    0 <= a < i ==> 0 < (#[trigger] self@.tags[a]).id < self@.next_tag_id,
            decreases self@.tags.len() - i,
        {
            if self.tags[i].id < 1 || self.tags[i].id >= self.next_tag_id {
                return false;
            }
            let mut j: usize = 0;
            while j < i
                invariant
                    j <= i,
                    i < self@.tags.len(),
                    forall|b: int|
                        0 <= b < j ==> tag_key(#[trigger] self@.tags[b]) != tag_key(
                            self@.tags[i as int],
                        ) && tag_name_key(#[trigger] self@.tags[b]) != tag_name_key(
                            self@.tags[i as int],
                        ),
                decreases i - j,
            {
                if self.tags[j].id == self.tags[i].id {
                    return false;
                }
                if str_eq(self.tags[j].name.as_str(), self.tags[i].name.as_str()) {
                    return false;
                }
                j = j + 1;
            }
            i = i + 1;
        }
        let mut i: usize = 0;
        while i < self.search.len()
            invariant
                i <= self@.search.len(),
                forall|a: int, b: int|
                    0 <= a < b < i ==> search_key(#[trigger] self@.search[a]) != search_key(
                        #[trigger] self@.search[b],
                    ),
                forall|a: int|
                    0 <= a < i ==> 0 < (#[trigger] self@.search[a]).id < self@.next_note_id,
            decreases self@.search.len() - i,
        {
            if self.search[i].id < 1 || self.search[i].id >= self.next_note_id {
                return false;
            }
            let mut j: usize = 0;
            while j < i
                invariant
                    j <= i,
                    i < self@.search.len(),
                    forall|b: int|
                        0 <= b < j ==> search_key(#[trigger] self@.search[b]) != search_key(
                            self@.search[i as int],
                        ),
                decreases i - j,
            {
                if self.search[j].id == self.search[i].id {
                    return false;
                }
                j = j + 1;
            }
            i = i + 1;
        }
        let mut i: usize = 0;
        while i < self.links.len()
            invariant
                i <= self@.links.len(),
                forall|a: int, b: int|
                    0 <= a < b < i ==> link_key(#[trigger] self@.links[a]) != link_key(
                        #[trigger] self@.links[b],
                    ),
            decreases self@.links.len() - i,
        {
            let mut j: usize = 0;
            while j < i
                invariant
                    j <= i,
                    i < self@.links.len(),
                    forall|b: int|
                        0 <= b < j ==> link_key(#[trigger] self@.links[b]) != link_key(
                            self@.links[i as int],
                        ),
                decreases i - j,
            {
                if self.links[j].note_id == self.links[i].note_id && self.links[j].tag_id
                    == self.links[i].tag_id {
                    return false;
                }
                j = j + 1;
            }
            i = i + 1;
        }
        proof {
            assert(wf_v(self@));
        }
        true
    }
}

} // verus!
