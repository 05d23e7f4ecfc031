//! The migration backfills that concern the consistency engine: previews
//! re-derived for rows that lack one, and the full-text index populated
//! from the live notes' files when it is empty. Schema upkeep itself lives
//! with the database connection, outside the library.

use vstd::prelude::*;

use crate::models::NoteV;
use crate::preview::generate_preview;
use crate::preview::preview_s;
use crate::vault::Vault;
use crate::vault::VaultV;
use crate::vault::file_content_at;
use crate::vault::note_views;
use crate::vault::upsert_search_t;
use crate::vault::wf_v;

verus! {

/// One step of the preview backfill: a row with an empty preview whose
/// file is readable gets its preview re-derived.
pub open spec fn backfill_preview_step(v: VaultV, k: int) -> VaultV {
    if !(0 <= k < v.notes.len()) {
        v
    } else {
        let n = v.notes[k];
        if n.preview.len() == 0 {
            match file_content_at(v.files, n.file_path) {
                Some(c) => VaultV {
                    notes: v.notes.update(k, NoteV { preview: preview_s(c), ..n }),
                    ..v
                },
                None => v,
            }
        } else {
            v
        }
    }
}

pub open spec fn backfill_previews_upto(v0: VaultV, k: int) -> VaultV
    decreases k,
{
    if k <= 0 {
        v0
    } else {
        backfill_preview_step(backfill_previews_upto(v0, k - 1), k - 1)
    }
}

/// One step of the index backfill: a live note whose file is readable gets
/// a search entry from its title and content.
pub open spec fn backfill_search_step(v: VaultV, k: int) -> VaultV {
    if !(0 <= k < v.notes.len()) {
        v
    } else {
        let n = v.notes[k];
        if !n.is_deleted {
            match file_content_at(v.files, n.file_path) {
                Some(c) => VaultV {
                    search: upsert_search_t(v.search, n.id, n.title, c),
                    ..v
                },
                None => v,
            }
        } else {
            v
        }
    }
}

pub open spec fn backfill_search_upto(v0: VaultV, k: int) -> VaultV
    decreases k,
{
    if k <= 0 {
        v0
    } else {
        backfill_search_step(backfill_search_upto(v0, k - 1), k - 1)
    }
}

/// What the migration does to the engine state: previews backfilled, and,
/// when the search index is empty, the index populated from the live
/// notes' files.
pub open spec fn migrate_t(v: VaultV) -> VaultV {
    let v1 = backfill_previews_upto(v, v.notes.len() as int);
    if v1.search.len() == 0 {
        backfill_search_upto(v1, v1.notes.len() as int)
    } else {
        v1
    }
}

proof fn lemma_backfill_previews_shape(v0: VaultV, k: int)
    requires
        wf_v(v0),
    ensures
        wf_v(backfill_previews_upto(v0, k)),
        backfill_previews_upto(v0, k) == (VaultV {
            notes: backfill_previews_upto(v0, k).notes,
            ..v0
        }),
        backfill_previews_upto(v0, k).notes.len() == v0.notes.len(),
        forall|t: int|
            0 <= t < v0.notes.len() ==> #[trigger] backfill_previews_upto(v0, k).notes[t].id
                == v0.notes[t].id,
    decreases k,
{
    if k > 0 {
        lemma_backfill_previews_shape(v0, k - 1);
        let w = backfill_previews_upto(v0, k - 1);
        let w2 = backfill_preview_step(w, k - 1);
        assert forall|a: int, b: int| 0 <= a < b < w2.notes.len() implies crate::vault::note_key(
            w2.notes[a],
        ) != crate::vault::note_key(w2.notes[b]) by {
            assert(w2.notes[a].id == w.notes[a].id);
            assert(w2.notes[b].id == w.notes[b].id);
        }
        assert forall|t: int| 0 <= t < w2.notes.len() implies 0 < #[trigger] w2.notes[t].id
            < w2.next_note_id by {
            assert(w2.notes[t].id == w.notes[t].id);
        }
    }
}

proof fn lemma_backfill_search_shape(v0: VaultV, k: int)
    requires
        wf_v(v0),
    ensures
        wf_v(backfill_search_upto(v0, k)),
        backfill_search_upto(v0, k) == (VaultV {
            search: backfill_search_upto(v0, k).search,
            ..v0
        }),
    decreases k,
{
    if k > 0 {
        lemma_backfill_search_shape(v0, k - 1);
        let w = backfill_search_upto(v0, k - 1);
        if 0 <= k - 1 < w.notes.len() {
            let n = w.notes[k - 1];
            if !n.is_deleted {
                match file_content_at(w.files, n.file_path) {
                    Some(c) => {
                        assert(0 < n.id < w.next_note_id);
                        crate::vault::lemma_search_upsert_wf(
                            w.search,
                            n.id,
                            n.title,
                            c,
                            w.next_note_id,
                        );
                    },
                    None => {},
                }
            }
        }
    }
}

impl Vault {
    /// Runs the engine's share of a migration: re-derives missing previews
    /// from file content, and populates the search index from the live
    /// notes when it is empty.
    pub fn migrate(&mut self) -> (r: Result<(), crate::models::VaultError>)
        requires
            old(self).wf(),
        ensures
            final(self).wf(),
            r is Ok,
            final(self)@ == migrate_t(old(self)@),
    {
        let ghost v0 = self@;
        let n_notes = self.notes.len();
        let mut k: usize = 0;
        while k < n_notes
            invariant
                k <= n_notes,
                n_notes == v0.notes.len(),
                wf_v(v0),
                self@ == backfill_previews_upto(v0, k as int),
                self@.notes.len() == v0.notes.len(),
            decreases n_notes - k,
        {
            let ghost vcur = self@;
            proof {
                lemma_backfill_previews_shape(v0, k as int);
            }
            if self.notes[k].preview.as_str().unicode_len() == 0 {
                let fp = self.notes[k].file_path.clone();
                match self.read_file(fp.as_str()) {
                    Some(c) => {
                        let pv = generate_preview(c.as_str());
                        self.notes[k].preview = pv;
                        proof {
                            assert(note_views(self.notes@) =~= backfill_preview_step(
                                vcur,
                                k as int,
                            ).notes);
                            assert(self@ == backfill_preview_step(vcur, k as int));
                        }
                    },
                    None => {
                        proof {
                            assert(self@ == backfill_preview_step(vcur, k as int));
                        }
                    },
                }
            } else {
                proof {
                    assert(self@ == backfill_preview_step(vcur, k as int));
                }
            }
            k = k + 1;
        }
        let ghost v1 = self@;
        proof {
            lemma_backfill_previews_shape(v0, n_notes as int);
        }
        if self.search.len() == 0 {
            let mut w: usize = 0;
            while w < n_notes
                invariant
                    w <= n_notes,
                    n_notes == v1.notes.len(),
                    wf_v(v1),
                    self@ == backfill_search_upto(v1, w as int),
                    self@.notes.len() == v1.notes.len(),
                decreases n_notes - w,
            {
                let ghost vcur = self@;
                proof {
                    lemma_backfill_search_shape(v1, w as int);
                }
                if !self.notes[w].is_deleted {
                    let fp = self.notes[w].file_path.clone();
                    match self.read_file(fp.as_str()) {
                        Some(c) => {
                            let nid = self.notes[w].id;
                            let title = self.notes[w].title.clone();
                            self.upsert_search(nid, title.as_str(), c.as_str());
                            proof {
                                assert(self@ == backfill_search_step(vcur, w as int));
                            }
                        },
                        None => {
                            proof {
                                assert(self@ == backfill_search_step(vcur, w as int));
                            }
                        },
                    }
                } else {
                    proof {
                        assert(self@ == backfill_search_step(vcur, w as int));
                    }
                }
                w = w + 1;
            }
            proof {
                lemma_backfill_search_shape(v1, n_notes as int);
            }
        }
        Ok(())
    }
}

} // verus!
