//! The note orchestrator: create, get, soft-delete, restore, permanent
//! delete. Each mutating operation validates first and then applies one
//! atomic transition to the state; its contract names that transition and
//! says exactly on which inputs each error comes.

use vstd::prelude::*;
use vstd::multiset::Multiset;

use crate::chars::chars_le;
use crate::chars::chars_le_exec;
use crate::chars::chars_of;
use crate::chars::lemma_chars_le_refl;
use crate::chars::lemma_chars_le_total;
use crate::chars::lemma_chars_le_trans;
use crate::models::Note;
use crate::models::NoteV;
use crate::models::NoteWithContent;
use crate::models::VaultError;
use crate::models::opt_id_view;
use crate::models::opt_str_view;
use crate::links::bracketed;
use crate::links::bracketed_s;
use crate::links::rewrite_pass_t;
use crate::paths::file_name_s;
use crate::paths::join_path;
use crate::paths::join_path_s;
use crate::paths::link_key_s;
use crate::paths::parent_dir;
use crate::paths::parent_dir_s;
use crate::paths::relative_link_key;
use crate::paths::str_concat;
use crate::paths::file_name;
use crate::paths::strip_ext_s;
use crate::paths::resolve_note_path;
use crate::paths::trash_path;
use crate::paths::trash_path_s;
use crate::preview::generate_preview;
use crate::preview::preview_s;
use crate::vault::Vault;
use crate::vault::VaultV;
use crate::chars::str_eq;
use crate::vault::file_content_at;
use crate::vault::folder_at;
use crate::vault::has_folder;
use crate::vault::has_file_at;
use crate::vault::has_live_folder;
use crate::vault::has_note;
use crate::vault::keep;
use crate::vault::lemma_keep_distinct;
use crate::vault::lemma_keep_index;
use crate::vault::lemma_search_remove_wf;
use crate::vault::lemma_search_upsert_wf;
use crate::vault::live_note_at_path;
use crate::vault::move_file_t;
use crate::vault::note_at;
use crate::vault::note_views;
use crate::vault::note_key;
use crate::vault::remove_file_t;
use crate::vault::remove_search_t;
use crate::vault::search_wf;
use crate::vault::upsert_search_t;
use crate::vault::wf_v;
use crate::vault::write_file_t;

verus! {

/// The path a note created with this title under this folder would get.
pub open spec fn created_note_path(
    base: Seq<char>,
    folder_path: Option<Seq<char>>,
    title: Seq<char>,
) -> Seq<char> {
    join_path_s(
        join_path_s(
            base,
            match folder_path {
                Some(f) => f,
                None => Seq::<char>::empty(),
            },
        ),
        title + ".md"@,
    )
}

/// The row a note creation inserts.
pub open spec fn created_note_row(
    v: VaultV,
    title: Seq<char>,
    parent_id: Option<int>,
    path: Seq<char>,
    content: Seq<char>,
    now: Seq<char>,
) -> NoteV {
    NoteV {
        id: v.next_note_id,
        file_path: path,
        title: title,
        created_at: now,
        updated_at: now,
        parent_id: parent_id,
        preview: preview_s(content),
        is_deleted: false,
        deleted_at: None,
        is_favorite: false,
        favorite_order: None,
    }
}

/// The state after a note creation: the file written, the row inserted,
/// the search entry added.
pub open spec fn create_note_t(
    v: VaultV,
    title: Seq<char>,
    content: Seq<char>,
    parent_id: Option<int>,
    folder_path: Option<Seq<char>>,
    now: Seq<char>,
) -> VaultV {
    let path = created_note_path(v.base, folder_path, title);
    VaultV {
        notes: v.notes.push(created_note_row(v, title, parent_id, path, content, now)),
        files: write_file_t(v.files, path, content),
        search: upsert_search_t(v.search, v.next_note_id, title, content),
        next_note_id: v.next_note_id + 1,
        ..v
    }
}

/// The state after a soft delete: the file moved to the trash mirror when
/// it was there, the row flagged, the search entry dropped.
pub open spec fn delete_note_t(v: VaultV, id: int, now: Seq<char>) -> VaultV {
    let i = note_at(v, id);
    let n = v.notes[i];
    VaultV {
        notes: v.notes.update(
            i,
            NoteV { is_deleted: true, deleted_at: Some(now), ..n },
        ),
        files: move_file_t(v.files, n.file_path, trash_path_s(v.base, n.file_path)),
        search: remove_search_t(v.search, id),
        ..v
    }
}

/// The state after a permanent delete: the trash file removed, the row and
/// the search entry dropped.
pub open spec fn permanently_delete_note_t(v: VaultV, id: int) -> VaultV {
    let i = note_at(v, id);
    let n = v.notes[i];
    VaultV {
        notes: keep(v.notes, |m: NoteV| m.id != id),
        files: remove_file_t(v.files, trash_path_s(v.base, n.file_path)),
        search: remove_search_t(v.search, id),
        ..v
    }
}

/// The parent a restored entity keeps: its recorded parent when that
/// folder is still live, otherwise none (detached to root).
pub open spec fn restored_parent(v: VaultV, parent_id: Option<int>) -> Option<int> {
    match parent_id {
        Some(p) => if has_live_folder(v, p) {
            Some(p)
        } else {
            None
        },
        None => None,
    }
}

/// The state after a restore: the flag cleared, the parent re-validated,
/// and, when the trash mirror held the file, the file moved back and the
/// search entry re-derived from its content.
pub open spec fn restore_note_t(v: VaultV, id: int) -> VaultV {
    let i = note_at(v, id);
    let n = v.notes[i];
    let tp = trash_path_s(v.base, n.file_path);
    let row = NoteV {
        is_deleted: false,
        deleted_at: None,
        parent_id: restored_parent(v, n.parent_id),
        ..n
    };
    match file_content_at(v.files, tp) {
        Some(c) => VaultV {
            notes: v.notes.update(i, row),
            files: move_file_t(v.files, tp, n.file_path),
            search: upsert_search_t(v.search, id, n.title, c),
            ..v
        },
        None => VaultV { notes: v.notes.update(i, row), ..v },
    }
}

impl Vault {
    /// Creates a note: fails with `Conflict` when a live note already
    /// occupies the resolved path; otherwise writes the file, inserts the
    /// row and the search entry, and returns the new note with its content.
    pub fn create_note(
        &mut self,
        title: String,
        content: String,
        parent_id: Option<i64>,
        folder_path: Option<String>,
        now: &str,
    ) -> (r: Result<NoteWithContent, VaultError>)
        requires
            old(self).wf(),
        ensures
            final(self).wf(),
            match r {
                Ok(n) => {
                    &&& !live_note_at_path(
                        old(self)@,
                        created_note_path(old(self)@.base, opt_str_view(folder_path), title@),
                    )
                    &&& old(self)@.next_note_id < i64::MAX
                    &&& final(self)@ == create_note_t(
                        old(self)@,
                        title@,
                        content@,
                        opt_id_view(parent_id),
                        opt_str_view(folder_path),
                        now@,
                    )
                    &&& n.id == old(self)@.next_note_id
                    &&& n.title@ == title@
                    &&& n.content@ == content@
                    &&& n.file_path@ == created_note_path(
                        old(self)@.base,
                        opt_str_view(folder_path),
                        title@,
                    )
                    &&& opt_id_view(n.parent_id) == opt_id_view(parent_id)
                    &&& n.created_at@ == now@
                    &&& n.updated_at@ == now@
                    &&& !n.is_deleted
                },
                Err(VaultError::Conflict) => {
                    &&& live_note_at_path(
                        old(self)@,
                        created_note_path(old(self)@.base, opt_str_view(folder_path), title@),
                    )
                    &&& final(self)@ == old(self)@
                },
                Err(VaultError::IOFailure) => {
                    &&& old(self)@.next_note_id == i64::MAX
                    &&& final(self)@ == old(self)@
                },
                Err(_) => false,
            },
    {
        let full_path = resolve_note_path(self.base.as_str(), &folder_path, title.as_str());

        let mut i: usize = 0;
        while i < self.notes.len()
            invariant
                i <= self@.notes.len(),
                full_path@ == created_note_path(self@.base, opt_str_view(folder_path), title@),
                self.wf(),
                forall|k: int|
                    0 <= k < i ==> !(!#[trigger] self@.notes[k].is_deleted
                        && self@.notes[k].file_path == full_path@),
            decreases self@.notes.len() - i,
        {
            if !self.notes[i].is_deleted && crate::chars::str_eq(
                self.notes[i].file_path.as_str(),
                full_path.as_str(),
            ) {
                proof {
                    assert(self@.notes[i as int] == self.notes@[i as int]@);
                    assert(!self@.notes[i as int].is_deleted);
                    assert(self@.notes[i as int].file_path == full_path@);
                    assert(live_note_at_path(self@, full_path@));
                }
                return Err(VaultError::Conflict);
            }
            i = i + 1;
        }
        proof {
            if live_note_at_path(self@, full_path@) {
                let w = choose|w: int|
                    0 <= w < self@.notes.len() && !self@.notes[w].is_deleted
                        && self@.notes[w].file_path == full_path@;
                assert(!(!self@.notes[w].is_deleted && self@.notes[w].file_path == full_path@));
            }
        }

        if self.next_note_id == i64::MAX {
            return Err(VaultError::IOFailure);
        }

        let preview = generate_preview(content.as_str());
        let id = self.next_note_id;

        let ghost v0 = self@;
        self.write_file(full_path.as_str(), content.as_str());
        self.upsert_search(id, title.as_str(), content.as_str());

        let row = Note {
            id,
            file_path: full_path.clone(),
            title: title.clone(),
            created_at: now.to_owned(),
            updated_at: now.to_owned(),
            parent_id,
            preview,
            is_deleted: false,
            deleted_at: None,
            is_favorite: false,
            favorite_order: None,
        };
        let out = NoteWithContent {
            id,
            file_path: full_path,
            title,
            created_at: now.to_owned(),
            updated_at: now.to_owned(),
            parent_id,
            content,
            is_deleted: false,
            deleted_at: None,
        };
        self.notes.push(row);
        self.next_note_id = id + 1;

        proof {
            let vt = create_note_t(
                v0,
                title@,
                out.content@,
                opt_id_view(parent_id),
                opt_str_view(folder_path),
                now@,
            );
            assert(crate::vault::note_views(self.notes@) =~= vt.notes);
            assert(self@ == vt);
            assert(wf_v(self@)) by {
                lemma_search_upsert_wf(v0.search, id as int, title@, out.content@, id + 1);
                assert forall|a: int, b: int| 0 <= a < b < self@.notes.len() implies note_key(
                    self@.notes[a],
                ) != note_key(self@.notes[b]) by {
                    if b == self@.notes.len() - 1 {
                        assert(self@.notes[a] == v0.notes[a]);
                        assert(0 < v0.notes[a].id < v0.next_note_id);
                    } else {
                        assert(self@.notes[a] == v0.notes[a]);
                        assert(self@.notes[b] == v0.notes[b]);
                    }
                }
                assert forall|k: int| 0 <= k < self@.notes.len() implies 0
                    < #[trigger] self@.notes[k].id < self@.next_note_id by {
                    if k < self@.notes.len() - 1 {
                        assert(self@.notes[k] == v0.notes[k]);
                    }
                }
                assert forall|k: int| 0 <= k < self@.search.len() implies 0
                    < #[trigger] self@.search[k].id < self@.next_note_id by {
                    assert(search_wf(self@.search, id + 1));
                }
            }
        }
        Ok(out)
    }

    /// Reads a note and its file content; fails with `NotFound` when the
    /// row or the backing file is missing.
    pub fn get_note_by_id(&self, id: i64) -> (r: Result<NoteWithContent, VaultError>)
        requires
            self.wf(),
        ensures
            match r {
                Ok(n) => {
                    &&& has_note(self@, id as int)
                    &&& n.id == id
                    &&& {
                        let row = self@.notes[note_at(self@, id as int)];
                        &&& n.title@ == row.title
                        &&& n.file_path@ == row.file_path
                        &&& n.created_at@ == row.created_at
                        &&& n.updated_at@ == row.updated_at
                        &&& opt_id_view(n.parent_id) == row.parent_id
                        &&& n.is_deleted == row.is_deleted
                        &&& opt_str_view(n.deleted_at) == row.deleted_at
                        &&& file_content_at(self@.files, row.file_path) == Some(n.content@)
                    }
                },
                Err(VaultError::NotFound) => !has_note(self@, id as int) || !has_file_at(
                    self@.files,
                    self@.notes[note_at(self@, id as int)].file_path,
                ),
                Err(_) => false,
            },
    {
        let i = match self.find_note(id) {
            Some(i) => i,
            None => {
                return Err(VaultError::NotFound);
            },
        };
        let p = self.notes[i].file_path.clone();
        let content = match self.read_file(p.as_str()) {
            Some(c) => c,
            None => {
                return Err(VaultError::NotFound);
            },
        };
        let n = &self.notes[i];
        Ok(
            NoteWithContent {
                id: n.id,
                file_path: n.file_path.clone(),
                title: n.title.clone(),
                created_at: n.created_at.clone(),
                updated_at: n.updated_at.clone(),
                parent_id: n.parent_id,
                content,
                is_deleted: n.is_deleted,
                deleted_at: match &n.deleted_at {
                    Some(s) => Some(s.clone()),
                    None => None,
                },
            },
        )
    }

    /// Soft-deletes a note: moves its file into the trash mirror when the
    /// file is there (a missing file is tolerated), flags the row, and
    /// drops the search entry.
    pub fn delete_note(&mut self, id: i64, now: &str) -> (r: Result<(), VaultError>)
        requires
            old(self).wf(),
        ensures
            final(self).wf(),
            match r {
                Ok(()) => has_note(old(self)@, id as int) && final(self)@ == delete_note_t(
                    old(self)@,
                    id as int,
                    now@,
                ),
                Err(VaultError::NotFound) => !has_note(old(self)@, id as int) && final(self)@
                    == old(self)@,
                Err(_) => false,
            },
    {
        let i = match self.find_note(id) {
            Some(i) => i,
            None => {
                return Err(VaultError::NotFound);
            },
        };
        let ghost v0 = self@;
        let fp = self.notes[i].file_path.clone();
        let tp = trash_path(self.base.as_str(), fp.as_str());
        self.move_file(fp.as_str(), tp.as_str());
        self.notes[i].is_deleted = true;
        self.notes[i].deleted_at = Some(now.to_owned());
        self.remove_search(id);
        proof {
            let vt = delete_note_t(v0, id as int, now@);
            assert(crate::vault::note_views(self.notes@) =~= vt.notes);
            assert(self@ == vt);
            assert(wf_v(self@)) by {
                lemma_search_remove_wf(v0.search, id as int, v0.next_note_id);
                assert forall|a: int, b: int| 0 <= a < b < self@.notes.len() implies note_key(
                    self@.notes[a],
                ) != note_key(self@.notes[b]) by {
                    assert(self@.notes[a].id == v0.notes[a].id);
                    assert(self@.notes[b].id == v0.notes[b].id);
                }
                assert forall|k: int| 0 <= k < self@.notes.len() implies 0
                    < #[trigger] self@.notes[k].id < self@.next_note_id by {
                    assert(self@.notes[k].id == v0.notes[k].id);
                }
            }
        }
        Ok(())
    }

    /// Permanently deletes a note: removes the trash mirror of its file (a
    /// missing file is tolerated) and drops the row and the search entry.
    pub fn permanently_delete_note(&mut self, id: i64) -> (r: Result<(), VaultError>)
        requires
            old(self).wf(),
        ensures
            final(self).wf(),
            match r {
                Ok(()) => has_note(old(self)@, id as int) && final(self)@
                    == permanently_delete_note_t(old(self)@, id as int),
                Err(VaultError::NotFound) => !has_note(old(self)@, id as int) && final(self)@
                    == old(self)@,
                Err(_) => false,
            },
    {
        let i = match self.find_note(id) {
            Some(i) => i,
            None => {
                return Err(VaultError::NotFound);
            },
        };
        let ghost v0 = self@;
        let fp = self.notes[i].file_path.clone();
        let tp = trash_path(self.base.as_str(), fp.as_str());
        self.remove_file(tp.as_str());
        let mut out: Vec<Note> = Vec::new();
        let mut k: usize = 0;
        proof {
            assert(crate::vault::note_views(self.notes@).subrange(0, 0) =~= Seq::<
                NoteV,
            >::empty());
        }
        while k < self.notes.len()
            invariant
                k <= self@.notes.len(),
                crate::vault::note_views(out@) == keep(
                    crate::vault::note_views(self.notes@).subrange(0, k as int),
                    |m: NoteV| m.id != id as int,
                ),
            decreases self@.notes.len() - k,
        {
            let ghost pre2 = crate::vault::note_views(self.notes@).subrange(0, k + 1);
            proof {
                assert(pre2.drop_last() =~= crate::vault::note_views(self.notes@).subrange(
                    0,
                    k as int,
                ));
                assert(pre2.last() == self.notes@[k as int]@);
            }
            if self.notes[k].id != id {
                let e = self.notes[k].duplicate();
                out.push(e);
            }
            k = k + 1;
            proof {
                assert(crate::vault::note_views(out@) =~= keep(
                    pre2,
                    |m: NoteV| m.id != id as int,
                ));
            }
        }
        proof {
            assert(crate::vault::note_views(self.notes@).subrange(
                0,
                self@.notes.len() as int,
            ) =~= crate::vault::note_views(self.notes@));
        }
        self.notes = out;
        self.remove_search(id);
        proof {
            let vt = permanently_delete_note_t(v0, id as int);
            assert(self@ == vt);
            assert(wf_v(self@)) by {
                lemma_search_remove_wf(v0.search, id as int, v0.next_note_id);
                let p = |m: NoteV| m.id != id as int;
                lemma_keep_distinct(v0.notes, p, |m: NoteV| note_key(m));
                lemma_keep_index(v0.notes, p);
                assert forall|w: int| 0 <= w < self@.notes.len() implies 0
                    < #[trigger] self@.notes[w].id < self@.next_note_id by {
                    let x = keep(v0.notes, p)[w];
                    let j = choose|j: int| 0 <= j < v0.notes.len() && v0.notes[j] == x;
                    assert(0 < v0.notes[j].id < v0.next_note_id);
                }
            }
        }
        Ok(())
    }

    /// Restores a soft-deleted note: clears the flag, detaches to root when
    /// the recorded parent folder is no longer live, moves the file back
    /// from the trash mirror when it is there, and re-derives the search
    /// entry from the restored content.
    pub fn restore_note(&mut self, id: i64) -> (r: Result<(), VaultError>)
        requires
            old(self).wf(),
        ensures
            final(self).wf(),
            match r {
                Ok(()) => has_note(old(self)@, id as int) && final(self)@ == restore_note_t(
                    old(self)@,
                    id as int,
                ),
                Err(VaultError::NotFound) => !has_note(old(self)@, id as int) && final(self)@
                    == old(self)@,
                Err(_) => false,
            },
    {
        let i = match self.find_note(id) {
            Some(i) => i,
            None => {
                return Err(VaultError::NotFound);
            },
        };
        let ghost v0 = self@;
        let fp = self.notes[i].file_path.clone();
        let title = self.notes[i].title.clone();
        let tp = trash_path(self.base.as_str(), fp.as_str());
        let new_parent = match self.notes[i].parent_id {
            Some(p) => if self.folder_is_live(p) {
                Some(p)
            } else {
                None
            },
            None => None,
        };
        self.notes[i].is_deleted = false;
        self.notes[i].deleted_at = None;
        self.notes[i].parent_id = new_parent;
        let trash_content = self.read_file(tp.as_str());
        match trash_content {
            Some(c) => {
                self.move_file(tp.as_str(), fp.as_str());
                self.upsert_search(id, title.as_str(), c.as_str());
                proof {
                    let vt = restore_note_t(v0, id as int);
                    assert(crate::vault::note_views(self.notes@) =~= vt.notes);
                    assert(self@ == vt);
                    assert(wf_v(self@)) by {
                        lemma_search_upsert_wf(
                            v0.search,
                            id as int,
                            title@,
                            c@,
                            v0.next_note_id,
                        );
                        assert forall|a: int, b: int|
                            0 <= a < b < self@.notes.len() implies note_key(self@.notes[a])
                            != note_key(self@.notes[b]) by {
                            assert(self@.notes[a].id == v0.notes[a].id);
                            assert(self@.notes[b].id == v0.notes[b].id);
                        }
                        assert forall|k: int| 0 <= k < self@.notes.len() implies 0
                            < #[trigger] self@.notes[k].id < self@.next_note_id by {
                            assert(self@.notes[k].id == v0.notes[k].id);
                        }
                    }
                }
            },
            None => {
                proof {
                    let vt = restore_note_t(v0, id as int);
                    assert(crate::vault::note_views(self.notes@) =~= vt.notes);
                    assert(self@ == vt);
                    assert(wf_v(self@)) by {
                        assert forall|a: int, b: int|
                            0 <= a < b < self@.notes.len() implies note_key(self@.notes[a])
                            != note_key(self@.notes[b]) by {
                            assert(self@.notes[a].id == v0.notes[a].id);
                            assert(self@.notes[b].id == v0.notes[b].id);
                        }
                        assert forall|k: int| 0 <= k < self@.notes.len() implies 0
                            < #[trigger] self@.notes[k].id < self@.next_note_id by {
                            assert(self@.notes[k].id == v0.notes[k].id);
                        }
                    }
                }
            },
        }
        Ok(())
    }
}

} // verus!

verus! {

/// The key the live list is ordered by (`updated_at`), or the one the
/// trash list is ordered by (`deleted_at`, empty when unset).
pub open spec fn note_sort_key(n: NoteV, by_deleted: bool) -> Seq<char> {
    if by_deleted {
        match n.deleted_at {
            Some(d) => d,
            None => Seq::<char>::empty(),
        }
    } else {
        n.updated_at
    }
}

/// Ordered by the chosen key, newest first.
pub open spec fn sorted_desc(s: Seq<NoteV>, by_deleted: bool) -> bool {
    forall|i: int, j: int|
        0 <= i < j < s.len() ==> chars_le(
            note_sort_key(s[j], by_deleted),
            note_sort_key(s[i], by_deleted),
        )
}

/// A note row is live when it is not soft-deleted.
pub open spec fn is_live(n: NoteV) -> bool {
    !n.is_deleted
}

fn note_key_chars(n: &Note, by_deleted: bool) -> (r: Vec<char>)
    ensures
        r@ == note_sort_key(n@, by_deleted),
{
    if by_deleted {
        match &n.deleted_at {
            Some(d) => chars_of(d.as_str()),
            None => Vec::new(),
        }
    } else {
        chars_of(n.updated_at.as_str())
    }
}

/// Sorts notes by the chosen key, newest first; the result holds exactly
/// the given rows.
pub(crate) fn sort_notes_desc(notes: Vec<Note>, by_deleted: bool) -> (r: Vec<Note>)
    ensures
        note_views(r@).to_multiset() == note_views(notes@).to_multiset(),
        sorted_desc(note_views(r@), by_deleted),
{
    broadcast use vstd::seq_lib::group_seq_lib_default;
    broadcast use vstd::seq_lib::group_to_multiset_ensures;

    let mut rest = notes;
    let mut out: Vec<Note> = Vec::new();
    proof {
        note_views(out@).to_multiset_ensures();
        assert(note_views(out@).to_multiset() =~= Multiset::<NoteV>::empty()) by {
            assert forall|x: NoteV| note_views(out@).to_multiset().count(x) == 0 by {
                if note_views(out@).to_multiset().count(x) > 0 {
                    assert(note_views(out@).contains(x));
                }
            }
        }
        assert(note_views(out@).to_multiset().add(note_views(rest@).to_multiset()) =~= note_views(
            notes@,
        ).to_multiset());
    }
    while rest.len() > 0
        invariant
            note_views(out@).to_multiset().add(note_views(rest@).to_multiset()) == note_views(
                notes@,
            ).to_multiset(),
            sorted_desc(note_views(out@), by_deleted),
            forall|a: int, b: int|
                0 <= a < out@.len() && 0 <= b < rest@.len() ==> chars_le(
                    note_sort_key(#[trigger] note_views(rest@)[b], by_deleted),
                    note_sort_key(#[trigger] note_views(out@)[a], by_deleted),
                ),
        decreases rest@.len(),
    {
        let mut m: usize = 0;
        let mut k: usize = 1;
        proof {
            lemma_chars_le_refl(note_sort_key(note_views(rest@)[0], by_deleted));
        }
        while k < rest.len()
            invariant
                m < k,
                k <= rest@.len(),
                rest@.len() > 0,
                forall|t: int|
                    0 <= t < k ==> chars_le(
                        note_sort_key(#[trigger] note_views(rest@)[t], by_deleted),
                        note_sort_key(note_views(rest@)[m as int], by_deleted),
                    ),
            decreases rest@.len() - k,
        {
            let km = note_key_chars(&rest[m], by_deleted);
            let kk = note_key_chars(&rest[k], by_deleted);
            if chars_le_exec(&km, &kk) {
                proof {
                    let ghost old_m = m as int;
                    assert forall|t: int| 0 <= t < k + 1 implies chars_le(
                        note_sort_key(#[trigger] note_views(rest@)[t], by_deleted),
                        note_sort_key(note_views(rest@)[k as int], by_deleted),
                    ) by {
                        if t < k {
                            lemma_chars_le_trans(
                                note_sort_key(note_views(rest@)[t], by_deleted),
                                note_sort_key(note_views(rest@)[old_m], by_deleted),
                                note_sort_key(note_views(rest@)[k as int], by_deleted),
                            );
                        } else {
                            lemma_chars_le_refl(
                                note_sort_key(note_views(rest@)[k as int], by_deleted),
                            );
                        }
                    }
                }
                m = k;
            } else {
                proof {
                    lemma_chars_le_total(
                        note_sort_key(note_views(rest@)[m as int], by_deleted),
                        note_sort_key(note_views(rest@)[k as int], by_deleted),
                    );
                }
            }
            k = k + 1;
        }
        let ghost rest0 = rest@;
        let ghost out0 = out@;
        let x = rest.remove(m);
        out.push(x);
        proof {
            assert(note_views(rest@) =~= note_views(rest0).remove(m as int));
            assert(note_views(out@) =~= note_views(out0).push(note_views(rest0)[m as int]));
            note_views(rest0).to_multiset_ensures();
            note_views(out0).to_multiset_ensures();
            assert(note_views(rest@).to_multiset() =~= note_views(rest0).to_multiset().remove(
                note_views(rest0)[m as int],
            ));
            assert(note_views(out@).to_multiset() =~= note_views(out0).to_multiset().insert(
                note_views(rest0)[m as int],
            ));
            assert(note_views(rest0).to_multiset().contains(note_views(rest0)[m as int])) by {
                assert(note_views(rest0).contains(note_views(rest0)[m as int]));
            }
            assert(note_views(out@).to_multiset().add(note_views(rest@).to_multiset())
                =~= note_views(out0).to_multiset().add(note_views(rest0).to_multiset()));
            assert forall|a: int, b: int|
                0 <= a < out@.len() && 0 <= b < rest@.len() implies chars_le(
                note_sort_key(#[trigger] note_views(rest@)[b], by_deleted),
                note_sort_key(#[trigger] note_views(out@)[a], by_deleted),
            ) by {
                assert(note_views(rest@)[b] == note_views(rest0).remove(m as int)[b]);
                if b < m as int {
                    assert(note_views(rest@)[b] == note_views(rest0)[b]);
                } else {
                    assert(note_views(rest@)[b] == note_views(rest0)[b + 1]);
                }
                if a < out0.len() {
                    assert(note_views(out@)[a] == note_views(out0)[a]);
                } else {
                    assert(note_views(out@)[a] == note_views(rest0)[m as int]);
                }
            }
            assert(sorted_desc(note_views(out@), by_deleted)) by {
                assert forall|i: int, j: int|
                    0 <= i < j < note_views(out@).len() implies chars_le(
                    note_sort_key(note_views(out@)[j], by_deleted),
                    note_sort_key(note_views(out@)[i], by_deleted),
                ) by {
                    assert(note_views(out@)[i] == note_views(out0)[i]);
                    if j < out0.len() {
                        assert(note_views(out@)[j] == note_views(out0)[j]);
                    } else {
                        assert(note_views(out@)[j] == note_views(rest0)[m as int]);
                    }
                }
            }
        }
    }
    proof {
        assert(note_views(rest@).to_multiset() =~= Multiset::<NoteV>::empty()) by {
            assert(note_views(rest@).len() == 0);
            note_views(rest@).to_multiset_ensures();
        }
        assert(note_views(out@).to_multiset() =~= note_views(notes@).to_multiset());
    }
    out
}

impl Vault {
    /// All live notes, ordered by `updated_at` descending.
    pub fn get_all_notes(&self) -> (r: Vec<Note>)
        requires
            self.wf(),
        ensures
            note_views(r@).to_multiset() == keep(self@.notes, |n: NoteV| is_live(n)).to_multiset(),
            sorted_desc(note_views(r@), false),
    {
        let mut picked: Vec<Note> = Vec::new();
        let mut i: usize = 0;
        proof {
            assert(note_views(self.notes@).subrange(0, 0) =~= Seq::<NoteV>::empty());
        }
        while i < self.notes.len()
            invariant
                i <= self@.notes.len(),
                note_views(picked@) == keep(
                    note_views(self.notes@).subrange(0, i as int),
                    |n: NoteV| is_live(n),
                ),
            decreases self@.notes.len() - i,
        {
            let ghost pre2 = note_views(self.notes@).subrange(0, i + 1);
            proof {
                assert(pre2.drop_last() =~= note_views(self.notes@).subrange(0, i as int));
                assert(pre2.last() == self.notes@[i as int]@);
            }
            if !self.notes[i].is_deleted {
                let e = self.notes[i].duplicate();
                picked.push(e);
            }
            i = i + 1;
            proof {
                assert(note_views(picked@) =~= keep(pre2, |n: NoteV| is_live(n)));
            }
        }
        proof {
            assert(note_views(self.notes@).subrange(0, i as int) =~= note_views(self.notes@));
        }
        sort_notes_desc(picked, false)
    }

    /// All soft-deleted notes, ordered by `deleted_at` descending.
    pub fn get_deleted_notes(&self) -> (r: Vec<Note>)
        requires
            self.wf(),
        ensures
            note_views(r@).to_multiset() == keep(
                self@.notes,
                |n: NoteV| n.is_deleted,
            ).to_multiset(),
            sorted_desc(note_views(r@), true),
    {
        let mut picked: Vec<Note> = Vec::new();
        let mut i: usize = 0;
        proof {
            assert(note_views(self.notes@).subrange(0, 0) =~= Seq::<NoteV>::empty());
        }
        while i < self.notes.len()
            invariant
                i <= self@.notes.len(),
                note_views(picked@) == keep(
                    note_views(self.notes@).subrange(0, i as int),
                    |n: NoteV| n.is_deleted,
                ),
            decreases self@.notes.len() - i,
        {
            let ghost pre2 = note_views(self.notes@).subrange(0, i + 1);
            proof {
                assert(pre2.drop_last() =~= note_views(self.notes@).subrange(0, i as int));
                assert(pre2.last() == self.notes@[i as int]@);
            }
            if self.notes[i].is_deleted {
                let e = self.notes[i].duplicate();
                picked.push(e);
            }
            i = i + 1;
            proof {
                assert(note_views(picked@) =~= keep(pre2, |n: NoteV| n.is_deleted));
            }
        }
        proof {
            assert(note_views(self.notes@).subrange(0, i as int) =~= note_views(self.notes@));
        }
        sort_notes_desc(picked, true)
    }

    /// All live favorite notes, in stored order.
    pub fn get_favorite_notes(&self) -> (r: Vec<Note>)
        requires
            self.wf(),
        ensures
            note_views(r@) == keep(self@.notes, |n: NoteV| is_live(n) && n.is_favorite),
    {
        let mut picked: Vec<Note> = Vec::new();
        let mut i: usize = 0;
        proof {
            assert(note_views(self.notes@).subrange(0, 0) =~= Seq::<NoteV>::empty());
        }
        while i < self.notes.len()
            invariant
                i <= self@.notes.len(),
                note_views(picked@) == keep(
                    note_views(self.notes@).subrange(0, i as int),
                    |n: NoteV| is_live(n) && n.is_favorite,
                ),
            decreases self@.notes.len() - i,
        {
            let ghost pre2 = note_views(self.notes@).subrange(0, i + 1);
            proof {
                assert(pre2.drop_last() =~= note_views(self.notes@).subrange(0, i as int));
                assert(pre2.last() == self.notes@[i as int]@);
            }
            if !self.notes[i].is_deleted && self.notes[i].is_favorite {
                let e = self.notes[i].duplicate();
                picked.push(e);
            }
            i = i + 1;
            proof {
                assert(note_views(picked@) =~= keep(
                    pre2,
                    |n: NoteV| is_live(n) && n.is_favorite,
                ));
            }
        }
        proof {
            assert(note_views(self.notes@).subrange(0, i as int) =~= note_views(self.notes@));
        }
        picked
    }
}

} // verus!

verus! {

/// The state after a note update: the file renamed when the title changed
/// its path, the row and the search entry rewritten, and the backlink pass
/// run when the link key or the title changed.
pub open spec fn update_note_t(
    v: VaultV,
    id: int,
    title: Seq<char>,
    content: Seq<char>,
    now: Seq<char>,
) -> VaultV {
    let i = note_at(v, id);
    let n = v.notes[i];
    let new_path = join_path_s(parent_dir_s(n.file_path), title + ".md"@);
    let moved = if new_path == n.file_path {
        v.files
    } else {
        move_file_t(v.files, n.file_path, new_path)
    };
    let v1 = VaultV {
        notes: v.notes.update(
            i,
            NoteV {
                title: title,
                file_path: new_path,
                preview: preview_s(content),
                updated_at: now,
                ..n
            },
        ),
        files: write_file_t(moved, new_path, content),
        search: upsert_search_t(v.search, id, title, content),
        ..v
    };
    let old_rel = link_key_s(v.base, n.file_path);
    let new_rel = link_key_s(v.base, new_path);
    if old_rel == new_rel && n.title == title {
        v1
    } else {
        rewrite_pass_t(
            v1,
            bracketed_s(old_rel),
            bracketed_s(new_rel),
            bracketed_s(n.title),
            bracketed_s(title),
            old_rel != n.title,
            true,
            now,
        )
    }
}

/// A note update succeeds when the row exists and the rename is possible:
/// either the path is unchanged, or the old file is there and the new path
/// is free.
pub open spec fn update_note_ok(v: VaultV, id: int, title: Seq<char>) -> bool {
    &&& has_note(v, id)
    &&& {
        let n = v.notes[note_at(v, id)];
        let new_path = join_path_s(parent_dir_s(n.file_path), title + ".md"@);
        ||| new_path == n.file_path
        ||| (has_file_at(v.files, n.file_path) && !has_file_at(v.files, new_path))
    }
}

/// The state after a note move: the file carried to the new folder keeping
/// its name, the row re-parented, and the backlink pass run for the
/// changed link key.
pub open spec fn move_note_t(v: VaultV, id: int, new_parent_id: Option<int>, now: Seq<char>) -> VaultV {
    let i = note_at(v, id);
    let n = v.notes[i];
    let dir = match new_parent_id {
        Some(p) => v.folders[folder_at(v, p)].folder_path,
        None => v.base,
    };
    let new_path = join_path_s(dir, file_name_s(n.file_path));
    let moved = if new_path == n.file_path {
        v.files
    } else {
        move_file_t(v.files, n.file_path, new_path)
    };
    let v1 = VaultV {
        notes: v.notes.update(
            i,
            NoteV { parent_id: new_parent_id, file_path: new_path, updated_at: now, ..n },
        ),
        files: moved,
        ..v
    };
    let old_rel = link_key_s(v.base, n.file_path);
    let new_rel = link_key_s(v.base, new_path);
    if old_rel == new_rel {
        v1
    } else {
        rewrite_pass_t(
            v1,
            bracketed_s(old_rel),
            bracketed_s(new_rel),
            bracketed_s(n.title),
            bracketed_s(n.title),
            old_rel != n.title,
            true,
            now,
        )
    }
}

/// A note move succeeds when the row exists, the named parent folder (if
/// any) exists, the path has a leaf name, and the file is where the index
/// says unless the move is a no-op.
pub open spec fn move_note_ok(v: VaultV, id: int, new_parent_id: Option<int>) -> bool {
    &&& has_note(v, id)
    &&& match new_parent_id {
        Some(p) => has_folder(v, p),
        None => true,
    }
    &&& {
        let n = v.notes[note_at(v, id)];
        let dir = match new_parent_id {
            Some(p) => v.folders[folder_at(v, p)].folder_path,
            None => v.base,
        };
        let new_path = join_path_s(dir, file_name_s(n.file_path));
        &&& file_name_s(n.file_path).len() > 0
        &&& (new_path == n.file_path || has_file_at(v.files, n.file_path))
    }
}

/// The state after a favorite toggle.
pub open spec fn toggle_favorite_t(v: VaultV, id: int) -> VaultV {
    let i = note_at(v, id);
    let n = v.notes[i];
    VaultV { notes: v.notes.update(i, NoteV { is_favorite: !n.is_favorite, ..n }), ..v }
}

/// A toggle applied where the row exists, and skipped where it does not.
pub open spec fn toggle_one_t(v: VaultV, id: int) -> VaultV {
    if has_note(v, id) {
        toggle_favorite_t(v, id)
    } else {
        v
    }
}

/// Toggles applied left to right.
pub open spec fn toggle_many_t(v: VaultV, ids: Seq<int>) -> VaultV
    decreases ids.len(),
{
    if ids.len() == 0 {
        v
    } else {
        toggle_many_t(toggle_one_t(v, ids[0]), ids.drop_first())
    }
}

proof fn lemma_toggle_one_wf(v: VaultV, id: int)
    requires
        wf_v(v),
    ensures
        wf_v(toggle_one_t(v, id)),
{
    if has_note(v, id) {
        let w = toggle_one_t(v, id);
        assert forall|a: int, b: int| 0 <= a < b < w.notes.len() implies note_key(w.notes[a])
            != note_key(w.notes[b]) by {
            assert(w.notes[a].id == v.notes[a].id);
            assert(w.notes[b].id == v.notes[b].id);
        }
        assert forall|t: int| 0 <= t < w.notes.len() implies 0 < #[trigger] w.notes[t].id
            < w.next_note_id by {
            assert(w.notes[t].id == v.notes[t].id);
        }
    }
}

proof fn lemma_toggle_many_snoc(v: VaultV, ids: Seq<int>, x: int)
    ensures
        toggle_many_t(v, ids.push(x)) == toggle_one_t(toggle_many_t(v, ids), x),
    decreases ids.len(),
{
    if ids.len() == 0 {
        assert(ids.push(x)[0] == x);
        assert(ids.push(x).drop_first() =~= Seq::<int>::empty());
        assert(toggle_many_t(v, ids.push(x)) == toggle_many_t(
            toggle_one_t(v, x),
            Seq::<int>::empty(),
        ));
        assert(toggle_many_t(v, ids) == v);
    } else {
        assert(ids.push(x)[0] == ids[0]);
        assert(ids.push(x).drop_first() =~= ids.drop_first().push(x));
        assert(toggle_many_t(v, ids.push(x)) == toggle_many_t(
            toggle_one_t(v, ids[0]),
            ids.drop_first().push(x),
        ));
        lemma_toggle_many_snoc(toggle_one_t(v, ids[0]), ids.drop_first(), x);
        assert(toggle_many_t(v, ids) == toggle_many_t(
            toggle_one_t(v, ids[0]),
            ids.drop_first(),
        ));
    }
}

impl Vault {
    /// Updates a note's title and content: renames the file when the title
    /// changed the path (failing with `IOFailure` when the source file is
    /// missing or the target is taken), rewrites the row, the search entry
    /// and the file, and runs the backlink rewriter for the old key and
    /// title.
    pub fn update_note(
        &mut self,
        id: i64,
        title: String,
        content: String,
        now: &str,
    ) -> (r: Result<NoteWithContent, VaultError>)
        requires
            old(self).wf(),
        ensures
            final(self).wf(),
            match r {
                Ok(n) => {
                    &&& update_note_ok(old(self)@, id as int, title@)
                    &&& final(self)@ == update_note_t(
                        old(self)@,
                        id as int,
                        title@,
                        content@,
                        now@,
                    )
                    &&& n.id == id
                    &&& n.title@ == title@
                    &&& n.content@ == content@
                    &&& n.updated_at@ == now@
                    &&& n.file_path@ == join_path_s(
                        parent_dir_s(old(self)@.notes[note_at(old(self)@, id as int)].file_path),
                        title@ + ".md"@,
                    )
                },
                Err(VaultError::NotFound) => !has_note(old(self)@, id as int) && final(self)@
                    == old(self)@,
                Err(VaultError::IOFailure) => has_note(old(self)@, id as int) && !update_note_ok(
                    old(self)@,
                    id as int,
                    title@,
                ) && final(self)@ == old(self)@,
                Err(_) => false,
            },
    {
        let i = match self.find_note(id) {
            Some(i) => i,
            None => {
                return Err(VaultError::NotFound);
            },
        };
        let ghost v0 = self@;
        let old_path = self.notes[i].file_path.clone();
        let old_title = self.notes[i].title.clone();
        let old_created = self.notes[i].created_at.clone();
        let old_parent = self.notes[i].parent_id;
        let old_is_deleted = self.notes[i].is_deleted;
        let old_deleted_at = match &self.notes[i].deleted_at {
            Some(s) => Some(s.clone()),
            None => None,
        };
        let dir = parent_dir(old_path.as_str());
        let leaf = str_concat(title.as_str(), ".md");
        let new_path = join_path(dir.as_str(), leaf.as_str());

        let same_path = str_eq(new_path.as_str(), old_path.as_str());
        if !same_path {
            if !self.file_exists(old_path.as_str()) {
                return Err(VaultError::IOFailure);
            }
            if self.file_exists(new_path.as_str()) {
                return Err(VaultError::IOFailure);
            }
            self.move_file(old_path.as_str(), new_path.as_str());
        }
        let preview = generate_preview(content.as_str());
        self.notes[i].title = title.clone();
        self.notes[i].file_path = new_path.clone();
        self.notes[i].preview = preview;
        self.notes[i].updated_at = now.to_owned();
        self.write_file(new_path.as_str(), content.as_str());
        self.upsert_search(id, title.as_str(), content.as_str());

        let ghost v1 = self@;
        proof {
            let n0 = v0.notes[note_at(v0, id as int)];
            assert(note_views(self.notes@) =~= v0.notes.update(
                i as int,
                NoteV {
                    title: title@,
                    file_path: new_path@,
                    preview: preview_s(content@),
                    updated_at: now@,
                    ..n0
                },
            ));
            assert(wf_v(v1)) by {
                lemma_search_upsert_wf(v0.search, id as int, title@, content@, v0.next_note_id);
                assert forall|a: int, b: int| 0 <= a < b < v1.notes.len() implies note_key(
                    v1.notes[a],
                ) != note_key(v1.notes[b]) by {
                    assert(v1.notes[a].id == v0.notes[a].id);
                    assert(v1.notes[b].id == v0.notes[b].id);
                }
                assert forall|t: int| 0 <= t < v1.notes.len() implies 0
                    < #[trigger] v1.notes[t].id < v1.next_note_id by {
                    assert(v1.notes[t].id == v0.notes[t].id);
                }
            }
        }

        let old_rel = relative_link_key(self.base.as_str(), old_path.as_str());
        let new_rel = relative_link_key(self.base.as_str(), new_path.as_str());
        let rel_same = str_eq(old_rel.as_str(), new_rel.as_str());
        let title_same = str_eq(old_title.as_str(), title.as_str());
        if !(rel_same && title_same) {
            let p1 = bracketed(old_rel.as_str());
            let q1 = bracketed(new_rel.as_str());
            let p2 = bracketed(old_title.as_str());
            let q2 = bracketed(title.as_str());
            let use2 = !str_eq(old_rel.as_str(), old_title.as_str());
            self.rewrite_links(
                p1.as_str(),
                q1.as_str(),
                p2.as_str(),
                q2.as_str(),
                use2,
                true,
                now,
            );
        }

        let nw = NoteWithContent {
            id,
            file_path: new_path,
            title,
            created_at: old_created,
            updated_at: now.to_owned(),
            parent_id: old_parent,
            content,
            is_deleted: old_is_deleted,
            deleted_at: old_deleted_at,
        };
        proof {
            assert(self@ == update_note_t(v0, id as int, nw.title@, nw.content@, now@));
        }
        Ok(nw)
    }
}

} // verus!

verus! {

impl Vault {
    /// Moves a note under another folder (or to the root), carrying the
    /// file with it and rewriting backlinks for the changed link key.
    pub fn move_note(&mut self, id: i64, new_parent_id: Option<i64>, now: &str) -> (r: Result<
        Note,
        VaultError,
    >)
        requires
            old(self).wf(),
        ensures
            final(self).wf(),
            match r {
                Ok(n) => {
                    &&& move_note_ok(old(self)@, id as int, opt_id_view(new_parent_id))
                    &&& final(self)@ == move_note_t(
                        old(self)@,
                        id as int,
                        opt_id_view(new_parent_id),
                        now@,
                    )
                    &&& n.id == id
                    &&& opt_id_view(n.parent_id) == opt_id_view(new_parent_id)
                    &&& n.updated_at@ == now@
                    &&& {
                        let n0 = old(self)@.notes[note_at(old(self)@, id as int)];
                        let dir = match opt_id_view(new_parent_id) {
                            Some(p) => old(self)@.folders[folder_at(
                                old(self)@,
                                p,
                            )].folder_path,
                            None => old(self)@.base,
                        };
                        &&& n.file_path@ == join_path_s(dir, file_name_s(n0.file_path))
                        &&& n.title@ == n0.title
                        &&& n.created_at@ == n0.created_at
                        &&& n.is_deleted == n0.is_deleted
                    }
                },
                Err(VaultError::NotFound) => (!has_note(old(self)@, id as int) || (
                new_parent_id is Some && !has_folder(
                    old(self)@,
                    new_parent_id->Some_0 as int,
                ))) && final(self)@ == old(self)@,
                Err(VaultError::IOFailure) => !move_note_ok(
                    old(self)@,
                    id as int,
                    opt_id_view(new_parent_id),
                ) && final(self)@ == old(self)@,
                Err(_) => false,
            },
    {
        let i = match self.find_note(id) {
            Some(i) => i,
            None => {
                return Err(VaultError::NotFound);
            },
        };
        let ghost v0 = self@;
        let dir: String = match new_parent_id {
            Some(p) => match self.find_folder(p) {
                Some(fi) => self.folders[fi].folder_path.clone(),
                None => {
                    return Err(VaultError::NotFound);
                },
            },
            None => self.base.clone(),
        };
        let old_path = self.notes[i].file_path.clone();
        let fname = file_name(old_path.as_str());
        if fname.as_str().unicode_len() == 0 {
            return Err(VaultError::IOFailure);
        }
        let new_path = join_path(dir.as_str(), fname.as_str());
        let same_path = str_eq(new_path.as_str(), old_path.as_str());
        if !same_path {
            if !self.file_exists(old_path.as_str()) {
                return Err(VaultError::IOFailure);
            }
            self.move_file(old_path.as_str(), new_path.as_str());
        }
        self.notes[i].parent_id = new_parent_id;
        self.notes[i].file_path = new_path.clone();
        self.notes[i].updated_at = now.to_owned();

        let ghost v1 = self@;
        proof {
            let n0 = v0.notes[note_at(v0, id as int)];
            assert(note_views(self.notes@) =~= v0.notes.update(
                i as int,
                NoteV {
                    parent_id: opt_id_view(new_parent_id),
                    file_path: new_path@,
                    updated_at: now@,
                    ..n0
                },
            ));
            assert(wf_v(v1)) by {
                assert forall|a: int, b: int| 0 <= a < b < v1.notes.len() implies note_key(
                    v1.notes[a],
                ) != note_key(v1.notes[b]) by {
                    assert(v1.notes[a].id == v0.notes[a].id);
                    assert(v1.notes[b].id == v0.notes[b].id);
                }
                assert forall|t: int| 0 <= t < v1.notes.len() implies 0
                    < #[trigger] v1.notes[t].id < v1.next_note_id by {
                    assert(v1.notes[t].id == v0.notes[t].id);
                }
            }
        }

        let out = self.notes[i].duplicate();
        let title = self.notes[i].title.clone();
        let old_rel = relative_link_key(self.base.as_str(), old_path.as_str());
        let new_rel = relative_link_key(self.base.as_str(), new_path.as_str());
        if !str_eq(old_rel.as_str(), new_rel.as_str()) {
            let p1 = bracketed(old_rel.as_str());
            let q1 = bracketed(new_rel.as_str());
            let p2 = bracketed(title.as_str());
            let use2 = !str_eq(old_rel.as_str(), title.as_str());
            self.rewrite_links(
                p1.as_str(),
                q1.as_str(),
                p2.as_str(),
                p2.as_str(),
                use2,
                true,
                now,
            );
        }
        proof {
            assert(self@ == move_note_t(v0, id as int, opt_id_view(new_parent_id), now@));
        }
        Ok(out)
    }

    /// Flips the favorite flag of a note and returns the updated row.
    pub fn toggle_favorite(&mut self, id: i64) -> (r: Result<Note, VaultError>)
        requires
            old(self).wf(),
        ensures
            final(self).wf(),
            match r {
                Ok(n) => {
                    &&& has_note(old(self)@, id as int)
                    &&& final(self)@ == toggle_favorite_t(old(self)@, id as int)
                    &&& n@ == final(self)@.notes[note_at(old(self)@, id as int)]
                    &&& n.is_favorite == !old(self)@.notes[note_at(
                        old(self)@,
                        id as int,
                    )].is_favorite
                },
                Err(VaultError::NotFound) => !has_note(old(self)@, id as int) && final(self)@
                    == old(self)@,
                Err(_) => false,
            },
    {
        let i = match self.find_note(id) {
            Some(i) => i,
            None => {
                return Err(VaultError::NotFound);
            },
        };
        let ghost v0 = self@;
        let flipped = !self.notes[i].is_favorite;
        self.notes[i].is_favorite = flipped;
        let out = self.notes[i].duplicate();
        proof {
            let n0 = v0.notes[note_at(v0, id as int)];
            assert(note_views(self.notes@) =~= v0.notes.update(
                i as int,
                NoteV { is_favorite: !n0.is_favorite, ..n0 },
            ));
            assert(self@ == toggle_favorite_t(v0, id as int));
            assert(wf_v(self@)) by {
                assert forall|a: int, b: int| 0 <= a < b < self@.notes.len() implies note_key(
                    self@.notes[a],
                ) != note_key(self@.notes[b]) by {
                    assert(self@.notes[a].id == v0.notes[a].id);
                    assert(self@.notes[b].id == v0.notes[b].id);
                }
                assert forall|t: int| 0 <= t < self@.notes.len() implies 0
                    < #[trigger] self@.notes[t].id < self@.next_note_id by {
                    assert(self@.notes[t].id == v0.notes[t].id);
                }
            }
        }
        Ok(out)
    }

    /// Flips the favorite flag of each listed note; ids without a row are
    /// skipped.
    pub fn toggle_favorite_notes(&mut self, ids: Vec<i64>) -> (r: Result<(), VaultError>)
        requires
            old(self).wf(),
        ensures
            final(self).wf(),
            r is Ok,
            final(self)@ == toggle_many_t(old(self)@, ids@.map_values(|x: i64| x as int)),
    {
        let ghost v0 = self@;
        let ghost idv = ids@.map_values(|x: i64| x as int);
        let mut k: usize = 0;
        proof {
            assert(idv.subrange(0, 0) =~= Seq::<int>::empty());
        }
        while k < ids.len()
            invariant
                k <= ids@.len(),
                idv == ids@.map_values(|x: i64| x as int),
                wf_v(self@),
                self@ == toggle_many_t(v0, idv.subrange(0, k as int)),
            decreases ids@.len() - k,
        {
            let ghost vcur = self@;
            let id = ids[k];
            match self.find_note(id) {
                Some(i) => {
                    let flipped = !self.notes[i].is_favorite;
                    self.notes[i].is_favorite = flipped;
                    proof {
                        let n0 = vcur.notes[note_at(vcur, id as int)];
                        assert(note_views(self.notes@) =~= vcur.notes.update(
                            note_at(vcur, id as int),
                            NoteV { is_favorite: !n0.is_favorite, ..n0 },
                        ));
                        assert(self@ == toggle_one_t(vcur, id as int));
                        lemma_toggle_one_wf(vcur, id as int);
                    }
                },
                None => {
                    proof {
                        assert(self@ == toggle_one_t(vcur, id as int));
                    }
                },
            }
            proof {
                assert(idv.subrange(0, k + 1).drop_last() =~= idv.subrange(0, k as int));
                assert(idv.subrange(0, k + 1) =~= idv.subrange(0, k as int).push(
                    idv[k as int],
                ));
                lemma_toggle_many_snoc(v0, idv.subrange(0, k as int), idv[k as int]);
                assert(idv[k as int] == id as int);
            }
            k = k + 1;
        }
        proof {
            assert(idv.subrange(0, idv.len() as int) =~= idv);
        }
        Ok(())
    }

    /// Favorite ordering is not supported by the flag representation: the
    /// call succeeds and changes nothing.
    pub fn update_favorite_order(&mut self, id: i64, order: i64) -> (r: Result<(), VaultError>)
        ensures
            r is Ok,
            final(self)@ == old(self)@,
    {
        let _ = id;
        let _ = order;
        Ok(())
    }

    /// Imports one file: the title is the file's stem, the folder is the
    /// named parent's, and the note is created from the handed-in content.
    pub fn import_note(
        &mut self,
        source_path: &str,
        content: String,
        parent_id: Option<i64>,
        now: &str,
    ) -> (r: Result<NoteWithContent, VaultError>)
        requires
            old(self).wf(),
        ensures
            final(self).wf(),
            match r {
                Ok(n) => {
                    let title = strip_ext_s(file_name_s(source_path@));
                    let dir = import_dir(old(self)@, opt_id_view(parent_id));
                    &&& title.len() > 0
                    &&& parent_ok(old(self)@, opt_id_view(parent_id))
                    &&& !live_note_at_path(
                        old(self)@,
                        created_note_path(old(self)@.base, dir, title),
                    )
                    &&& old(self)@.next_note_id < i64::MAX
                    &&& final(self)@ == create_note_t(
                        old(self)@,
                        title,
                        content@,
                        opt_id_view(parent_id),
                        dir,
                        now@,
                    )
                },
                Err(VaultError::IOFailure) => {
                    let title = strip_ext_s(file_name_s(source_path@));
                    &&& final(self)@ == old(self)@
                    &&& (title.len() == 0 || (parent_ok(old(self)@, opt_id_view(parent_id))
                        && old(self)@.next_note_id == i64::MAX))
                },
                Err(VaultError::NotFound) => final(self)@ == old(self)@ && !parent_ok(
                    old(self)@,
                    opt_id_view(parent_id),
                ),
                Err(VaultError::Conflict) => {
                    let title = strip_ext_s(file_name_s(source_path@));
                    &&& final(self)@ == old(self)@
                    &&& title.len() > 0
                    &&& parent_ok(old(self)@, opt_id_view(parent_id))
                    &&& live_note_at_path(
                        old(self)@,
                        created_note_path(
                            old(self)@.base,
                            import_dir(old(self)@, opt_id_view(parent_id)),
                            title,
                        ),
                    )
                },
                Err(_) => false,
            },
    {
        let fname = file_name(source_path);
        let title = crate::paths::strip_ext(fname.as_str());
        if title.as_str().unicode_len() == 0 {
            return Err(VaultError::IOFailure);
        }
        let folder_path: Option<String> = match parent_id {
            Some(p) => match self.find_folder(p) {
                Some(fi) => Some(self.folders[fi].folder_path.clone()),
                None => {
                    return Err(VaultError::NotFound);
                },
            },
            None => None,
        };
        self.create_note(title, content, parent_id, folder_path, now)
    }

    /// Imports several files; every file is attempted in order, the call
    /// succeeds exactly when every import did, and a success returns one
    /// created note per file.
    pub fn import_notes(
        &mut self,
        items: Vec<(String, String)>,
        parent_id: Option<i64>,
        now: &str,
    ) -> (r: Result<Vec<NoteWithContent>, VaultError>)
        requires
            old(self).wf(),
        ensures
            final(self).wf(),
            final(self)@ == import_many_t(
                old(self)@,
                items@.map_values(|it: (String, String)| (it.0@, it.1@)),
                opt_id_view(parent_id),
                now@,
            ),
            r is Ok <==> import_all_ok(
                old(self)@,
                items@.map_values(|it: (String, String)| (it.0@, it.1@)),
                opt_id_view(parent_id),
                now@,
            ),
            r is Ok ==> r->Ok_0@.len() == items@.len(),
    {
        let ghost v0 = self@;
        let ghost itv = items@.map_values(|it: (String, String)| (it.0@, it.1@));
        let ghost pid = opt_id_view(parent_id);
        let mut out: Vec<NoteWithContent> = Vec::new();
        let mut first_err: Option<VaultError> = None;
        let mut k: usize = 0;
        proof {
            assert(itv.subrange(0, 0) =~= Seq::<(Seq<char>, Seq<char>)>::empty());
        }
        while k < items.len()
            invariant
                k <= items@.len(),
                self.wf(),
                itv == items@.map_values(|it: (String, String)| (it.0@, it.1@)),
                pid == opt_id_view(parent_id),
                self@ == import_many_t(v0, itv.subrange(0, k as int), pid, now@),
                (first_err is None) == import_all_ok(v0, itv.subrange(0, k as int), pid, now@),
                first_err is None ==> out@.len() == k,
            decreases items@.len() - k,
        {
            let ghost vcur = self@;
            let content = items[k].1.clone();
            let src = items[k].0.clone();
            proof {
                lemma_import_all_ok_snoc(v0, itv.subrange(0, k as int), itv[k as int], pid, now@);
            }
            match self.import_note(src.as_str(), content, parent_id, now) {
                Ok(n) => {
                    out.push(n);
                    proof {
                        assert(self@ == import_one_t(vcur, itv[k as int].0, itv[k as int].1, pid, now@));
                        assert(import_item_ok(vcur, itv[k as int].0, itv[k as int].1, pid));
                    }
                },
                Err(e) => {
                    if first_err.is_none() {
                        first_err = Some(e);
                    }
                    proof {
                        assert(self@ == import_one_t(vcur, itv[k as int].0, itv[k as int].1, pid, now@));
                        assert(!import_item_ok(vcur, itv[k as int].0, itv[k as int].1, pid));
                    }
                },
            }
            proof {
                assert(itv.subrange(0, k + 1).drop_last() =~= itv.subrange(0, k as int));
                assert(itv.subrange(0, k + 1) =~= itv.subrange(0, k as int).push(
                    itv[k as int],
                ));
                lemma_import_many_snoc(v0, itv.subrange(0, k as int), itv[k as int], pid, now@);
            }
            k = k + 1;
        }
        proof {
            assert(itv.subrange(0, itv.len() as int) =~= itv);
        }
        match first_err {
            Some(e) => Err(e),
            None => Ok(out),
        }
    }
}

} // verus!


verus! {

/// Whether the named parent (if any) has a folder row.
pub open spec fn parent_ok(v: VaultV, parent_id: Option<int>) -> bool {
    match parent_id {
        Some(p) => has_folder(v, p),
        None => true,
    }
}

/// The folder path an import resolves against.
pub open spec fn import_dir(v: VaultV, parent_id: Option<int>) -> Option<Seq<char>> {
    match parent_id {
        Some(p) => Some(v.folders[folder_at(v, p)].folder_path),
        None => None,
    }
}

/// The state after one import: nothing changes when the stem is empty,
/// the parent is missing, a live note occupies the path, or the id space
/// is spent; otherwise the note is created.
pub open spec fn import_one_t(
    v: VaultV,
    source: Seq<char>,
    content: Seq<char>,
    parent_id: Option<int>,
    now: Seq<char>,
) -> VaultV {
    let title = strip_ext_s(file_name_s(source));
    let dir = import_dir(v, parent_id);
    if title.len() == 0 || !parent_ok(v, parent_id) || live_note_at_path(
        v,
        created_note_path(v.base, dir, title),
    ) || v.next_note_id == i64::MAX {
        v
    } else {
        create_note_t(v, title, content, parent_id, dir, now)
    }
}

/// Whether one import goes through as it stands: a nonempty stem, an
/// existing parent, a free live path, and room in the id space.
pub open spec fn import_item_ok(
    v: VaultV,
    source: Seq<char>,
    content: Seq<char>,
    parent_id: Option<int>,
) -> bool {
    let title = strip_ext_s(file_name_s(source));
    &&& title.len() > 0
    &&& parent_ok(v, parent_id)
    &&& !live_note_at_path(v, created_note_path(v.base, import_dir(v, parent_id), title))
    &&& v.next_note_id < i64::MAX
}

/// Every import of the batch goes through, each against the state the
/// previous ones left.
pub open spec fn import_all_ok(
    v: VaultV,
    items: Seq<(Seq<char>, Seq<char>)>,
    parent_id: Option<int>,
    now: Seq<char>,
) -> bool
    decreases items.len(),
{
    if items.len() == 0 {
        true
    } else {
        &&& import_item_ok(v, items[0].0, items[0].1, parent_id)
        &&& import_all_ok(
            import_one_t(v, items[0].0, items[0].1, parent_id, now),
            items.drop_first(),
            parent_id,
            now,
        )
    }
}

proof fn lemma_import_all_ok_snoc(
    v: VaultV,
    items: Seq<(Seq<char>, Seq<char>)>,
    x: (Seq<char>, Seq<char>),
    parent_id: Option<int>,
    now: Seq<char>,
)
    ensures
        import_all_ok(v, items.push(x), parent_id, now) == (import_all_ok(
            v,
            items,
            parent_id,
            now,
        ) && import_item_ok(import_many_t(v, items, parent_id, now), x.0, x.1, parent_id)),
    decreases items.len(),
{
    if items.len() == 0 {
        assert(items.push(x)[0] == x);
        assert(items.push(x).drop_first() =~= Seq::<(Seq<char>, Seq<char>)>::empty());
        assert(import_all_ok(v, items.push(x), parent_id, now) == (import_item_ok(
            v,
            x.0,
            x.1,
            parent_id,
        ) && import_all_ok(
            import_one_t(v, x.0, x.1, parent_id, now),
            Seq::<(Seq<char>, Seq<char>)>::empty(),
            parent_id,
            now,
        )));
        assert(import_many_t(v, items, parent_id, now) == v);
        assert(import_all_ok(v, items, parent_id, now));
    } else {
        assert(items.push(x)[0] == items[0]);
        assert(items.push(x).drop_first() =~= items.drop_first().push(x));
        let v1 = import_one_t(v, items[0].0, items[0].1, parent_id, now);
        assert(import_all_ok(v, items.push(x), parent_id, now) == (import_item_ok(
            v,
            items[0].0,
            items[0].1,
            parent_id,
        ) && import_all_ok(v1, items.drop_first().push(x), parent_id, now)));
        lemma_import_all_ok_snoc(v1, items.drop_first(), x, parent_id, now);
        assert(import_many_t(v, items, parent_id, now) == import_many_t(
            v1,
            items.drop_first(),
            parent_id,
            now,
        ));
        assert(import_all_ok(v, items, parent_id, now) == (import_item_ok(
            v,
            items[0].0,
            items[0].1,
            parent_id,
        ) && import_all_ok(v1, items.drop_first(), parent_id, now)));
    }
}

/// Imports applied left to right.
pub open spec fn import_many_t(
    v: VaultV,
    items: Seq<(Seq<char>, Seq<char>)>,
    parent_id: Option<int>,
    now: Seq<char>,
) -> VaultV
    decreases items.len(),
{
    if items.len() == 0 {
        v
    } else {
        import_many_t(
            import_one_t(v, items[0].0, items[0].1, parent_id, now),
            items.drop_first(),
            parent_id,
            now,
        )
    }
}

proof fn lemma_import_many_snoc(
    v: VaultV,
    items: Seq<(Seq<char>, Seq<char>)>,
    x: (Seq<char>, Seq<char>),
    parent_id: Option<int>,
    now: Seq<char>,
)
    ensures
        import_many_t(v, items.push(x), parent_id, now) == import_one_t(
            import_many_t(v, items, parent_id, now),
            x.0,
            x.1,
            parent_id,
            now,
        ),
    decreases items.len(),
{
    if items.len() == 0 {
        assert(items.push(x)[0] == x);
        assert(items.push(x).drop_first() =~= Seq::<(Seq<char>, Seq<char>)>::empty());
        assert(import_many_t(v, items.push(x), parent_id, now) == import_many_t(
            import_one_t(v, x.0, x.1, parent_id, now),
            Seq::<(Seq<char>, Seq<char>)>::empty(),
            parent_id,
            now,
        ));
        assert(import_many_t(v, items, parent_id, now) == v);
    } else {
        assert(items.push(x)[0] == items[0]);
        assert(items.push(x).drop_first() =~= items.drop_first().push(x));
        assert(import_many_t(v, items.push(x), parent_id, now) == import_many_t(
            import_one_t(v, items[0].0, items[0].1, parent_id, now),
            items.drop_first().push(x),
            parent_id,
            now,
        ));
        lemma_import_many_snoc(
            import_one_t(v, items[0].0, items[0].1, parent_id, now),
            items.drop_first(),
            x,
            parent_id,
            now,
        );
        assert(import_many_t(v, items, parent_id, now) == import_many_t(
            import_one_t(v, items[0].0, items[0].1, parent_id, now),
            items.drop_first(),
            parent_id,
            now,
        ));
    }
}

} // verus!
