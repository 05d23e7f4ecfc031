//! The tag store: tag rows and note-tag associations. Tag names are
//! unique; associating a tag twice is a no-op; deleting a tag cascades to
//! its associations. Search's `tag:` filtering and the tag listings are
//! answered from here.

use vstd::prelude::*;
use vstd::multiset::Multiset;

use crate::chars::chars_le;
use crate::chars::chars_le_exec;
use crate::chars::chars_of;
use crate::chars::lemma_chars_le_refl;
use crate::chars::lemma_chars_le_total;
use crate::chars::lemma_chars_le_trans;
use crate::chars::str_eq;
use crate::models::LinkV;
use crate::models::Note;
use crate::models::NoteTag;
use crate::models::NoteV;
use crate::models::Tag;
use crate::models::TagV;
use crate::models::VaultError;
use crate::models::opt_str_view;
use crate::notes::is_live;
use crate::notes::sorted_desc;
use crate::vault::Vault;
use crate::vault::VaultV;
use crate::vault::has_note;
use crate::vault::has_tag;
use crate::vault::has_tag_named;
use crate::vault::keep;
use crate::vault::link_views;
use crate::vault::note_views;
use crate::vault::tag_at;
use crate::vault::tag_key;
use crate::vault::tag_name_key;
use crate::vault::tag_views;
use crate::vault::wf_v;

verus! {

/// Whether the note carries the tag.
pub open spec fn has_link(v: VaultV, note_id: int, tag_id: int) -> bool {
    exists|i: int|
        0 <= i < v.links.len() && #[trigger] v.links[i] == (LinkV { note_id, tag_id })
}

/// The associations with one more pair, unless it is already there.
pub open spec fn add_link_t(v: VaultV, note_id: int, tag_id: int) -> Seq<LinkV> {
    if has_link(v, note_id, tag_id) {
        v.links
    } else {
        v.links.push(LinkV { note_id, tag_id })
    }
}

spec fn distinct_tag_ids(v: VaultV) -> bool {
    crate::vault::distinct_keys(v.tags, |t: TagV| crate::vault::tag_key(t))
}

/// Another tag row (a different id) already holds this name: the exact
/// ground on which a rename is refused.
pub open spec fn other_tag_named(v: VaultV, id: int, name: Seq<char>) -> bool {
    exists|t: int|
        0 <= t < v.tags.len() && #[trigger] v.tags[t].name == name && v.tags[t].id != id
}

/// Ordered by tag name, ascending.
pub open spec fn sorted_tags_asc(s: Seq<TagV>) -> bool {
    forall|i: int, j: int| 0 <= i < j < s.len() ==> chars_le(s[i].name, s[j].name)
}

impl Vault {
    fn find_link(&self, note_id: i64, tag_id: i64) -> (r: bool)
        ensures
            r == has_link(self@, note_id as int, tag_id as int),
    {
        let mut i: usize = 0;
        while i < self.links.len()
            invariant
                i <= self@.links.len(),
                forall|k: int|
                    0 <= k < i ==> #[trigger] self@.links[k] != (LinkV {
                        note_id: note_id as int,
                        tag_id: tag_id as int,
                    }),
            decreases self@.links.len() - i,
        {
            if self.links[i].note_id == note_id && self.links[i].tag_id == tag_id {
                proof {
                    assert(self@.links[i as int] == (LinkV {
                        note_id: note_id as int,
                        tag_id: tag_id as int,
                    }));
                }
                return true;
            }
            i = i + 1;
        }
        proof {
            if has_link(self@, note_id as int, tag_id as int) {
                let w = choose|w: int|
                    0 <= w < self@.links.len() && #[trigger] self@.links[w] == (LinkV {
                        note_id: note_id as int,
                        tag_id: tag_id as int,
                    });
                assert(self@.links[w] == self@.links[w]);
            }
        }
        false
    }

    fn find_tag_named(&self, name: &str) -> (r: Option<usize>)
        requires
            self.wf(),
        ensures
            match r {
                Some(i) => i < self@.tags.len() && self@.tags[i as int].name == name@,
                None => !has_tag_named(self@, name@),
            },
    {
        let mut i: usize = 0;
        while i < self.tags.len()
            invariant
                i <= self@.tags.len(),
                forall|k: int| 0 <= k < i ==> #[trigger] self@.tags[k].name != name@,
            decreases self@.tags.len() - i,
        {
            if str_eq(self.tags[i].name.as_str(), name) {
                proof {
                    assert(self@.tags[i as int].name == name@);
                }
                return Some(i);
            }
            i = i + 1;
        }
        proof {
            if has_tag_named(self@, name@) {
                let w = choose|w: int| 0 <= w < self@.tags.len() && self@.tags[w].name == name@;
                assert(self@.tags[w].name == name@);
            }
        }
        None
    }

    /// Creates a tag; tag names are unique, a duplicate fails with
    /// `Conflict`.
    pub fn create_tag(&mut self, name: String, color: Option<String>, now: &str) -> (r: Result<
        Tag,
        VaultError,
    >)
        requires
            old(self).wf(),
        ensures
            final(self).wf(),
            match r {
                Ok(t) => {
                    &&& !has_tag_named(old(self)@, name@)
                    &&& old(self)@.next_tag_id < i64::MAX
                    &&& t.id == old(self)@.next_tag_id
                    &&& t.name@ == name@
                    &&& opt_str_view(t.color) == opt_str_view(color)
                    &&& final(self)@ == (VaultV {
                        tags: old(self)@.tags.push(t@),
                        next_tag_id: old(self)@.next_tag_id + 1,
                        ..old(self)@
                    })
                },
                Err(VaultError::Conflict) => has_tag_named(old(self)@, name@) && final(self)@
                    == old(self)@,
                Err(VaultError::IOFailure) => old(self)@.next_tag_id == i64::MAX
                    && final(self)@ == old(self)@,
                Err(_) => false,
            },
    {
        match self.find_tag_named(name.as_str()) {
            Some(_) => {
                proof {
                    assert(has_tag_named(self@, name@));
                }
                return Err(VaultError::Conflict);
            },
            None => {},
        }
        if self.next_tag_id == i64::MAX {
            return Err(VaultError::IOFailure);
        }
        let ghost v0 = self@;
        let id = self.next_tag_id;
        let row = Tag {
            id,
            name,
            color,
            created_at: now.to_owned(),
            updated_at: now.to_owned(),
        };
        let out = row.duplicate();
        self.tags.push(row);
        self.next_tag_id = id + 1;
        proof {
            assert(tag_views(self.tags@) =~= v0.tags.push(out@));
            assert(wf_v(self@)) by {
                assert forall|a: int, b: int| 0 <= a < b < self@.tags.len() implies tag_key(
                    self@.tags[a],
                ) != tag_key(self@.tags[b]) by {
                    if b == self@.tags.len() - 1 {
                        assert(self@.tags[a] == v0.tags[a]);
                        assert(0 < v0.tags[a].id < v0.next_tag_id);
                    } else {
                        assert(self@.tags[a] == v0.tags[a]);
                        assert(self@.tags[b] == v0.tags[b]);
                    }
                }
                assert forall|a: int, b: int| 0 <= a < b < self@.tags.len() implies tag_name_key(
                    self@.tags[a],
                ) != tag_name_key(self@.tags[b]) by {
                    if b == self@.tags.len() - 1 {
                        assert(self@.tags[a] == v0.tags[a]);
                        assert(!has_tag_named(v0, out@.name));
                    } else {
                        assert(self@.tags[a] == v0.tags[a]);
                        assert(self@.tags[b] == v0.tags[b]);
                    }
                }
                assert forall|k: int| 0 <= k < self@.tags.len() implies 0
                    < #[trigger] self@.tags[k].id < self@.next_tag_id by {
                    if k < self@.tags.len() - 1 {
                        assert(self@.tags[k] == v0.tags[k]);
                    }
                }
            }
        }
        Ok(out)
    }

    /// Renames or recolors a tag; renaming onto another tag's name fails
    /// with `Conflict`.
    pub fn update_tag(&mut self, id: i64, name: String, color: Option<String>, now: &str) -> (r:
        Result<Tag, VaultError>)
        requires
            old(self).wf(),
        ensures
            final(self).wf(),
            match r {
                Ok(t) => {
                    &&& has_tag(old(self)@, id as int)
                    &&& !other_tag_named(old(self)@, id as int, name@)
                    &&& t.id == id
                    &&& t.name@ == name@
                    &&& opt_str_view(t.color) == opt_str_view(color)
                    &&& t.updated_at@ == now@
                    &&& final(self)@ == (VaultV {
                        tags: old(self)@.tags.update(tag_at(old(self)@, id as int), t@),
                        ..old(self)@
                    })
                },
                Err(VaultError::NotFound) => !has_tag(old(self)@, id as int) && final(self)@
                    == old(self)@,
                Err(VaultError::Conflict) => has_tag(old(self)@, id as int) && other_tag_named(
                    old(self)@,
                    id as int,
                    name@,
                ) && final(self)@ == old(self)@,
                Err(_) => false,
            },
    {
        let i = match self.find_tag(id) {
            Some(i) => i,
            None => {
                return Err(VaultError::NotFound);
            },
        };
        match self.find_tag_named(name.as_str()) {
            Some(j) => {
                if j != i {
                    proof {
                        assert(self@.tags[j as int].name == name@);
                        assert(self@.tags[j as int].id != id as int) by {
                            assert(distinct_tag_ids(self@));
                        }
                        assert(other_tag_named(self@, id as int, name@));
                    }
                    return Err(VaultError::Conflict);
                }
                proof {
                    assert(self@.tags[i as int].name == name@);
                    if other_tag_named(self@, id as int, name@) {
                        let w = choose|w: int|
                            0 <= w < self@.tags.len() && #[trigger] self@.tags[w].name == name@
                                && self@.tags[w].id != id as int;
                        assert(w != i as int);
                        assert(crate::vault::distinct_keys(
                            self@.tags,
                            |t: TagV| tag_name_key(t),
                        ));
                    }
                }
            },
            None => {
                proof {
                    if other_tag_named(self@, id as int, name@) {
                        let w = choose|w: int|
                            0 <= w < self@.tags.len() && #[trigger] self@.tags[w].name == name@
                                && self@.tags[w].id != id as int;
                        assert(has_tag_named(self@, name@));
                    }
                }
            },
        }
        let ghost v0 = self@;
        self.tags[i].name = name;
        self.tags[i].color = color;
        self.tags[i].updated_at = now.to_owned();
        let out = self.tags[i].duplicate();
        proof {
            assert(tag_views(self.tags@) =~= v0.tags.update(i as int, out@));
            assert(wf_v(self@)) by {
                assert forall|a: int, b: int| 0 <= a < b < self@.tags.len() implies tag_key(
                    self@.tags[a],
                ) != tag_key(self@.tags[b]) by {
                    assert(self@.tags[a].id == v0.tags[a].id);
                    assert(self@.tags[b].id == v0.tags[b].id);
                }
                assert forall|a: int, b: int| 0 <= a < b < self@.tags.len() implies tag_name_key(
                    self@.tags[a],
                ) != tag_name_key(self@.tags[b]) by {
                    if a != i as int && b != i as int {
                        assert(self@.tags[a] == v0.tags[a]);
                        assert(self@.tags[b] == v0.tags[b]);
                    }
                }
                assert forall|k: int| 0 <= k < self@.tags.len() implies 0
                    < #[trigger] self@.tags[k].id < self@.next_tag_id by {
                    assert(self@.tags[k].id == v0.tags[k].id);
                }
            }
        }
        Ok(out)
    }

    /// Deletes a tag row and, with it, every association that carries it.
    pub fn delete_tag(&mut self, id: i64) -> (r: Result<(), VaultError>)
        requires
            old(self).wf(),
        ensures
            final(self).wf(),
            r is Ok,
            final(self)@ == (VaultV {
                tags: keep(old(self)@.tags, |t: TagV| t.id != id as int),
                links: keep(old(self)@.links, |l: LinkV| l.tag_id != id as int),
                ..old(self)@
            }),
    {
        let ghost v0 = self@;
        let mut out: Vec<Tag> = Vec::new();
        let mut i: usize = 0;
        proof {
            assert(tag_views(self.tags@).subrange(0, 0) =~= Seq::<TagV>::empty());
        }
        while i < self.tags.len()
            invariant
                i <= self@.tags.len(),
                tag_views(out@) == keep(
                    tag_views(self.tags@).subrange(0, i as int),
                    |t: TagV| t.id != id as int,
                ),
            decreases self@.tags.len() - i,
        {
            let ghost pre2 = tag_views(self.tags@).subrange(0, i + 1);
            proof {
                assert(pre2.drop_last() =~= tag_views(self.tags@).subrange(0, i as int));
                assert(pre2.last() == self.tags@[i as int]@);
            }
            if self.tags[i].id != id {
                let e = self.tags[i].duplicate();
                out.push(e);
            }
            i = i + 1;
            proof {
                assert(tag_views(out@) =~= keep(pre2, |t: TagV| t.id != id as int));
            }
        }
        proof {
            assert(tag_views(self.tags@).subrange(0, self@.tags.len() as int) =~= tag_views(
                self.tags@,
            ));
        }
        self.tags = out;

        let mut out_links: Vec<NoteTag> = Vec::new();
        let mut j: usize = 0;
        proof {
            assert(link_views(self.links@).subrange(0, 0) =~= Seq::<LinkV>::empty());
        }
        while j < self.links.len()
            invariant
                j <= self@.links.len(),
                link_views(out_links@) == keep(
                    link_views(self.links@).subrange(0, j as int),
                    |l: LinkV| l.tag_id != id as int,
                ),
            decreases self@.links.len() - j,
        {
            let ghost pre2 = link_views(self.links@).subrange(0, j + 1);
            proof {
                assert(pre2.drop_last() =~= link_views(self.links@).subrange(0, j as int));
                assert(pre2.last() == self.links@[j as int]@);
            }
            if self.links[j].tag_id != id {
                out_links.push(
                    NoteTag { note_id: self.links[j].note_id, tag_id: self.links[j].tag_id },
                );
            }
            j = j + 1;
            proof {
                assert(link_views(out_links@) =~= keep(pre2, |l: LinkV| l.tag_id != id as int));
            }
        }
        proof {
            assert(link_views(self.links@).subrange(0, self@.links.len() as int) =~= link_views(
                self.links@,
            ));
        }
        self.links = out_links;
        proof {
            assert(wf_v(self@)) by {
                let pt = |t: TagV| t.id != id as int;
                let pl = |l: LinkV| l.tag_id != id as int;
                crate::vault::lemma_keep_distinct(v0.tags, pt, |t: TagV| tag_key(t));
                crate::vault::lemma_keep_distinct(v0.tags, pt, |t: TagV| tag_name_key(t));
                crate::vault::lemma_keep_distinct(v0.links, pl, |l: LinkV| crate::vault::link_key(l));
                crate::vault::lemma_keep_index(v0.tags, pt);
                assert forall|t: int| 0 <= t < self@.tags.len() implies 0
                    < #[trigger] self@.tags[t].id < self@.next_tag_id by {
                    let x = keep(v0.tags, pt)[t];
                    let y = choose|y: int| 0 <= y < v0.tags.len() && v0.tags[y] == x;
                    assert(0 < v0.tags[y].id < v0.next_tag_id);
                }
            }
        }
        Ok(())
    }

    /// All tags, ordered by name ascending.
    pub fn get_all_tags(&self) -> (r: Vec<Tag>)
        requires
            self.wf(),
        ensures
            tag_views(r@).to_multiset() == self@.tags.to_multiset(),
            sorted_tags_asc(tag_views(r@)),
    {
        let mut all: Vec<Tag> = Vec::new();
        let mut i: usize = 0;
        proof {
            assert(tag_views(self.tags@).subrange(0, 0) =~= Seq::<TagV>::empty());
            assert(tag_views(all@) =~= tag_views(self.tags@).subrange(0, 0));
        }
        while i < self.tags.len()
            invariant
                i <= self@.tags.len(),
                tag_views(all@) == tag_views(self.tags@).subrange(0, i as int),
            decreases self@.tags.len() - i,
        {
            let ghost pre2 = tag_views(self.tags@).subrange(0, i + 1);
            proof {
                assert(pre2.drop_last() =~= tag_views(self.tags@).subrange(0, i as int));
                assert(pre2.last() == self.tags@[i as int]@);
            }
            let e = self.tags[i].duplicate();
            all.push(e);
            i = i + 1;
            proof {
                assert(tag_views(all@) =~= pre2);
            }
        }
        proof {
            assert(tag_views(all@) =~= tag_views(self.tags@));
        }
        sort_tags_asc(all)
    }

    /// Associates a tag with a note; doing it again is a no-op. Fails with
    /// `NotFound` when the note or the tag has no row.
    pub fn add_tag_to_note(&mut self, note_id: i64, tag_id: i64) -> (r: Result<(), VaultError>)
        requires
            old(self).wf(),
        ensures
            final(self).wf(),
            match r {
                Ok(()) => {
                    &&& has_note(old(self)@, note_id as int)
                    &&& has_tag(old(self)@, tag_id as int)
                    &&& final(self)@ == (VaultV {
                        links: add_link_t(old(self)@, note_id as int, tag_id as int),
                        ..old(self)@
                    })
                },
                Err(VaultError::NotFound) => (!has_note(old(self)@, note_id as int) || !has_tag(
                    old(self)@,
                    tag_id as int,
                )) && final(self)@ == old(self)@,
                Err(_) => false,
            },
    {
        if self.find_note(note_id).is_none() {
            return Err(VaultError::NotFound);
        }
        if self.find_tag(tag_id).is_none() {
            return Err(VaultError::NotFound);
        }
        let ghost v0 = self@;
        if !self.find_link(note_id, tag_id) {
            self.links.push(NoteTag { note_id, tag_id });
            proof {
                assert(link_views(self.links@) =~= v0.links.push(LinkV {
                    note_id: note_id as int,
                    tag_id: tag_id as int,
                }));
                assert(wf_v(self@)) by {
                    assert forall|a: int, b: int|
                        0 <= a < b < self@.links.len() implies crate::vault::link_key(
                        self@.links[a],
                    ) != crate::vault::link_key(self@.links[b]) by {
                        if b == self@.links.len() - 1 {
                            assert(self@.links[a] == v0.links[a]);
                            assert(!has_link(v0, note_id as int, tag_id as int));
                        } else {
                            assert(self@.links[a] == v0.links[a]);
                            assert(self@.links[b] == v0.links[b]);
                        }
                    }
                }
            }
        }
        Ok(())
    }

    /// Removes the association between a note and a tag, if present.
    pub fn remove_tag_from_note(&mut self, note_id: i64, tag_id: i64) -> (r: Result<
        (),
        VaultError,
    >)
        requires
            old(self).wf(),
        ensures
            final(self).wf(),
            r is Ok,
            final(self)@ == (VaultV {
                links: keep(
                    old(self)@.links,
                    |l: LinkV| l != (LinkV { note_id: note_id as int, tag_id: tag_id as int }),
                ),
                ..old(self)@
            }),
    {
        let ghost v0 = self@;
        let mut out_links: Vec<NoteTag> = Vec::new();
        let mut j: usize = 0;
        proof {
            assert(link_views(self.links@).subrange(0, 0) =~= Seq::<LinkV>::empty());
        }
        while j < self.links.len()
            invariant
                j <= self@.links.len(),
                link_views(out_links@) == keep(
                    link_views(self.links@).subrange(0, j as int),
                    |l: LinkV| l != (LinkV {
                        note_id: note_id as int,
                        tag_id: tag_id as int,
                    }),
                ),
            decreases self@.links.len() - j,
        {
            let ghost pre2 = link_views(self.links@).subrange(0, j + 1);
            proof {
                assert(pre2.drop_last() =~= link_views(self.links@).subrange(0, j as int));
                assert(pre2.last() == self.links@[j as int]@);
            }
            if !(self.links[j].note_id == note_id && self.links[j].tag_id == tag_id) {
                out_links.push(
                    NoteTag { note_id: self.links[j].note_id, tag_id: self.links[j].tag_id },
                );
            }
            j = j + 1;
            proof {
                assert(link_views(out_links@) =~= keep(
                    pre2,
                    |l: LinkV| l != (LinkV {
                        note_id: note_id as int,
                        tag_id: tag_id as int,
                    }),
                ));
            }
        }
        proof {
            assert(link_views(self.links@).subrange(0, self@.links.len() as int) =~= link_views(
                self.links@,
            ));
        }
        self.links = out_links;
        proof {
            assert(wf_v(self@)) by {
                crate::vault::lemma_keep_distinct(
                    v0.links,
                    |l: LinkV| l != (LinkV {
                        note_id: note_id as int,
                        tag_id: tag_id as int,
                    }),
                    |l: LinkV| crate::vault::link_key(l),
                );
            }
        }
        Ok(())
    }

    /// Associates a tag with each listed note, all or nothing: when the
    /// tag or any listed note has no row, nothing changes.
    pub fn add_tag_to_notes(&mut self, note_ids: Vec<i64>, tag_id: i64) -> (r: Result<
        (),
        VaultError,
    >)
        requires
            old(self).wf(),
        ensures
            final(self).wf(),
            r is Err ==> final(self)@ == old(self)@,
            r is Ok ==> forall|k: int|
                0 <= k < note_ids@.len() ==> has_link(
                    final(self)@,
                    #[trigger] note_ids@[k] as int,
                    tag_id as int,
                ),
    {
        if self.find_tag(tag_id).is_none() {
            return Err(VaultError::NotFound);
        }
        let mut k: usize = 0;
        while k < note_ids.len()
            invariant
                self.wf(),
                self@ == old(self)@,
            decreases note_ids@.len() - k,
        {
            if self.find_note(note_ids[k]).is_none() {
                return Err(VaultError::NotFound);
            }
            k = k + 1;
        }
        let mut w: usize = 0;
        while w < note_ids.len()
            invariant
                self.wf(),
                self@.base == old(self)@.base,
                forall|t: int|
                    0 <= t < w ==> has_link(self@, #[trigger] note_ids@[t] as int, tag_id as int),
            decreases note_ids@.len() - w,
        {
            let ghost vcur = self@;
            let nid = note_ids[w];
            if !self.find_link(nid, tag_id) {
                self.links.push(NoteTag { note_id: nid, tag_id });
                proof {
                    assert(link_views(self.links@) =~= vcur.links.push(LinkV {
                        note_id: nid as int,
                        tag_id: tag_id as int,
                    }));
                    assert(self@.links[self@.links.len() - 1] == (LinkV {
                        note_id: nid as int,
                        tag_id: tag_id as int,
                    }));
                    assert(wf_v(self@)) by {
                        assert forall|a: int, b: int|
                            0 <= a < b < self@.links.len() implies crate::vault::link_key(
                            self@.links[a],
                        ) != crate::vault::link_key(self@.links[b]) by {
                            if b == self@.links.len() - 1 {
                                assert(self@.links[a] == vcur.links[a]);
                                assert(!has_link(vcur, nid as int, tag_id as int));
                            } else {
                                assert(self@.links[a] == vcur.links[a]);
                                assert(self@.links[b] == vcur.links[b]);
                            }
                        }
                    }
                    assert forall|t: int| 0 <= t < w + 1 implies has_link(
                        self@,
                        #[trigger] note_ids@[t] as int,
                        tag_id as int,
                    ) by {
                        if t < w {
                            let y = choose|y: int|
                                0 <= y < vcur.links.len() && #[trigger] vcur.links[y] == (LinkV {
                                    note_id: note_ids@[t] as int,
                                    tag_id: tag_id as int,
                                });
                            assert(self@.links[y] == vcur.links[y]);
                        }
                    }
                }
            }
            w = w + 1;
        }
        Ok(())
    }

    /// The live notes carrying the tag, ordered by `updated_at`
    /// descending.
    pub fn get_notes_by_tag(&self, tag_id: i64) -> (r: Vec<Note>)
        requires
            self.wf(),
        ensures
            note_views(r@).to_multiset() == keep(
                self@.notes,
                |n: NoteV| is_live(n) && has_link(self@, n.id, tag_id as int),
            ).to_multiset(),
            sorted_desc(note_views(r@), false),
    {
        let ghost v0 = self@;
        let mut picked: Vec<Note> = Vec::new();
        let mut i: usize = 0;
        proof {
            assert(note_views(self.notes@).subrange(0, 0) =~= Seq::<NoteV>::empty());
        }
        while i < self.notes.len()
            invariant
                i <= self@.notes.len(),
                self@ == v0,
                note_views(picked@) == keep(
                    note_views(self.notes@).subrange(0, i as int),
                    |n: NoteV| is_live(n) && has_link(v0, n.id, tag_id as int),
                ),
            decreases self@.notes.len() - i,
        {
            let ghost pre2 = note_views(self.notes@).subrange(0, i + 1);
            proof {
                assert(pre2.drop_last() =~= note_views(self.notes@).subrange(0, i as int));
                assert(pre2.last() == self.notes@[i as int]@);
            }
            if !self.notes[i].is_deleted && self.find_link(self.notes[i].id, tag_id) {
                let e = self.notes[i].duplicate();
                picked.push(e);
            }
            i = i + 1;
            proof {
                assert(note_views(picked@) =~= keep(
                    pre2,
                    |n: NoteV| is_live(n) && has_link(v0, n.id, tag_id as int),
                ));
            }
        }
        proof {
            assert(note_views(self.notes@).subrange(0, i as int) =~= note_views(self.notes@));
        }
        crate::notes::sort_notes_desc(picked, false)
    }

    /// The tags carried by the note, ordered by name ascending.
    pub fn get_tags_by_note(&self, note_id: i64) -> (r: Vec<Tag>)
        requires
            self.wf(),
        ensures
            tag_views(r@).to_multiset() == keep(
                self@.tags,
                |t: TagV| has_link(self@, note_id as int, t.id),
            ).to_multiset(),
            sorted_tags_asc(tag_views(r@)),
    {
        let ghost v0 = self@;
        let mut picked: Vec<Tag> = Vec::new();
        let mut i: usize = 0;
        proof {
            assert(tag_views(self.tags@).subrange(0, 0) =~= Seq::<TagV>::empty());
        }
        while i < self.tags.len()
            invariant
                i <= self@.tags.len(),
                self@ == v0,
                tag_views(picked@) == keep(
                    tag_views(self.tags@).subrange(0, i as int),
                    |t: TagV| has_link(v0, note_id as int, t.id),
                ),
            decreases self@.tags.len() - i,
        {
            let ghost pre2 = tag_views(self.tags@).subrange(0, i + 1);
            proof {
                assert(pre2.drop_last() =~= tag_views(self.tags@).subrange(0, i as int));
                assert(pre2.last() == self.tags@[i as int]@);
            }
            if self.find_link(note_id, self.tags[i].id) {
                let e = self.tags[i].duplicate();
                picked.push(e);
            }
            i = i + 1;
            proof {
                assert(tag_views(picked@) =~= keep(
                    pre2,
                    |t: TagV| has_link(v0, note_id as int, t.id),
                ));
            }
        }
        proof {
            assert(tag_views(self.tags@).subrange(0, i as int) =~= tag_views(self.tags@));
        }
        sort_tags_asc(picked)
    }
}

fn tag_name_chars(t: &Tag) -> (r: Vec<char>)
    ensures
        r@ == t@.name,
{
    chars_of(t.name.as_str())
}

fn sort_tags_asc(tags: Vec<Tag>) -> (r: Vec<Tag>)
    ensures
        tag_views(r@).to_multiset() == tag_views(tags@).to_multiset(),
        sorted_tags_asc(tag_views(r@)),
{
    broadcast use vstd::seq_lib::group_seq_lib_default;
    broadcast use vstd::seq_lib::group_to_multiset_ensures;

    let mut rest = tags;
    let mut out: Vec<Tag> = Vec::new();
    proof {
        tag_views(out@).to_multiset_ensures();
        assert(tag_views(out@).to_multiset() =~= Multiset::<TagV>::empty()) by {
            assert forall|x: TagV| tag_views(out@).to_multiset().count(x) == 0 by {
                if tag_views(out@).to_multiset().count(x) > 0 {
                    assert(tag_views(out@).contains(x));
                }
            }
        }
        assert(tag_views(out@).to_multiset().add(tag_views(rest@).to_multiset()) =~= tag_views(
            tags@,
        ).to_multiset());
    }
    while rest.len() > 0
        invariant
            tag_views(out@).to_multiset().add(tag_views(rest@).to_multiset()) == tag_views(
                tags@,
            ).to_multiset(),
            sorted_tags_asc(tag_views(out@)),
            forall|a: int, b: int|
                0 <= a < out@.len() && 0 <= b < rest@.len() ==> chars_le(
                    (#[trigger] tag_views(out@)[a]).name,
                    (#[trigger] tag_views(rest@)[b]).name,
                ),
        decreases rest@.len(),
    {
        let mut m: usize = 0;
        let mut k: usize = 1;
        proof {
            lemma_chars_le_refl(tag_views(rest@)[0].name);
        }
        while k < rest.len()
            invariant
                m < k,
                k <= rest@.len(),
                rest@.len() > 0,
                forall|t: int|
                    0 <= t < k ==> chars_le(
                        tag_views(rest@)[m as int].name,
                        (#[trigger] tag_views(rest@)[t]).name,
                    ),
            decreases rest@.len() - k,
        {
            let km = tag_name_chars(&rest[m]);
            let kk = tag_name_chars(&rest[k]);
            if chars_le_exec(&kk, &km) {
                proof {
                    let ghost old_m = m as int;
                    assert forall|t: int| 0 <= t < k + 1 implies chars_le(
                        tag_views(rest@)[k as int].name,
                        (#[trigger] tag_views(rest@)[t]).name,
                    ) by {
                        if t < k {
                            lemma_chars_le_trans(
                                tag_views(rest@)[k as int].name,
                                tag_views(rest@)[old_m].name,
                                tag_views(rest@)[t].name,
                            );
                        } else {
                            lemma_chars_le_refl(tag_views(rest@)[k as int].name);
                        }
                    }
                }
                m = k;
            } else {
                proof {
                    lemma_chars_le_total(
                        tag_views(rest@)[m as int].name,
                        tag_views(rest@)[k as int].name,
                    );
                }
            }
            k = k + 1;
        }
        let ghost rest0 = rest@;
        let ghost out0 = out@;
        let x = rest.remove(m);
        out.push(x);
        proof {
            assert(tag_views(rest@) =~= tag_views(rest0).remove(m as int));
            assert(tag_views(out@) =~= tag_views(out0).push(tag_views(rest0)[m as int]));
            tag_views(rest0).to_multiset_ensures();
            tag_views(out0).to_multiset_ensures();
            assert(tag_views(rest@).to_multiset() =~= tag_views(rest0).to_multiset().remove(
                tag_views(rest0)[m as int],
            ));
            assert(tag_views(out@).to_multiset() =~= tag_views(out0).to_multiset().insert(
                tag_views(rest0)[m as int],
            ));
            assert(tag_views(rest0).to_multiset().contains(tag_views(rest0)[m as int])) by {
                assert(tag_views(rest0).contains(tag_views(rest0)[m as int]));
            }
            assert(tag_views(out@).to_multiset().add(tag_views(rest@).to_multiset())
                =~= tag_views(out0).to_multiset().add(tag_views(rest0).to_multiset()));
            assert forall|a: int, b: int|
                0 <= a < out@.len() && 0 <= b < rest@.len() implies chars_le(
                (#[trigger] tag_views(out@)[a]).name,
                (#[trigger] tag_views(rest@)[b]).name,
            ) by {
                assert(tag_views(rest@)[b] == tag_views(rest0).remove(m as int)[b]);
                if b < m as int {
                    assert(tag_views(rest@)[b] == tag_views(rest0)[b]);
                } else {
                    assert(tag_views(rest@)[b] == tag_views(rest0)[b + 1]);
                }
                if a < out0.len() {
                    assert(tag_views(out@)[a] == tag_views(out0)[a]);
                } else {
                    assert(tag_views(out@)[a] == tag_views(rest0)[m as int]);
                }
            }
            assert(sorted_tags_asc(tag_views(out@))) by {
                assert forall|i: int, j: int|
                    0 <= i < j < tag_views(out@).len() implies chars_le(
                    tag_views(out@)[i].name,
                    tag_views(out@)[j].name,
                ) by {
                    assert(tag_views(out@)[i] == tag_views(out0)[i]);
                    if j < out0.len() {
                        assert(tag_views(out@)[j] == tag_views(out0)[j]);
                    } else {
                        assert(tag_views(out@)[j] == tag_views(rest0)[m as int]);
                    }
                }
            }
        }
    }
    proof {
        assert(tag_views(rest@).to_multiset() =~= Multiset::<TagV>::empty()) by {
            assert(tag_views(rest@).len() == 0);
            tag_views(rest@).to_multiset_ensures();
            assert forall|x: TagV| tag_views(rest@).to_multiset().count(x) == 0 by {
                if tag_views(rest@).to_multiset().count(x) > 0 {
                    assert(tag_views(rest@).contains(x));
                }
            }
        }
        assert(tag_views(out@).to_multiset() =~= tag_views(tags@).to_multiset());
    }
    out
}

} // verus!
