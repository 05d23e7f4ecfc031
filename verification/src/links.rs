//! The backlink rewriter. After a rename or move changes an entity's
//! relative link key or title, every note's content is scanned for the
//! literal bracketed reference forms and rewritten; a note whose content
//! actually changes gets its preview re-derived, its `updated_at` bumped,
//! its file rewritten and its search entry updated. Untouched notes are
//! left alone.

use vstd::prelude::*;

use crate::chars::replace_all;
use crate::chars::replace_in;
use crate::chars::str_eq;
use crate::models::NoteV;
use crate::paths::str_concat;
use crate::preview::generate_preview;
use crate::preview::preview_s;
use crate::vault::Vault;
use crate::vault::VaultV;
use crate::vault::file_content_at;
use crate::vault::lemma_search_upsert_wf;
use crate::vault::note_key;
use crate::vault::note_views;
use crate::vault::upsert_search_t;
use crate::vault::wf_v;
use crate::vault::write_file_t;

verus! {

/// The literal form in which a link key or title is embedded in content.
pub open spec fn bracketed_s(k: Seq<char>) -> Seq<char> {
    "[["@ + k + "]]"@
}

/// `[[` + key + `]]`.
pub fn bracketed(k: &str) -> (r: String)
    ensures
        r@ == bracketed_s(k@),
{
    let a = str_concat("[[", k);
    str_concat(a.as_str(), "]]")
}

/// One note's content after the rewrite: the first pattern replaced, then,
/// when the second applies, the second.
pub open spec fn rewritten_content(
    c: Seq<char>,
    p1: Seq<char>,
    q1: Seq<char>,
    p2: Seq<char>,
    q2: Seq<char>,
    use2: bool,
) -> Seq<char> {
    let c1 = replace_all(c, p1, q1);
    if use2 {
        replace_all(c1, p2, q2)
    } else {
        c1
    }
}

/// Whether the rewriter touches this note: deleted notes are skipped when
/// the pass covers live notes only, notes whose file is missing are
/// skipped, and so are notes whose content does not change.
pub open spec fn rewrite_hits(
    v: VaultV,
    k: int,
    p1: Seq<char>,
    q1: Seq<char>,
    p2: Seq<char>,
    q2: Seq<char>,
    use2: bool,
    live_only: bool,
) -> bool {
    let n = v.notes[k];
    &&& !(live_only && n.is_deleted)
    &&& match file_content_at(v.files, n.file_path) {
        Some(c) => rewritten_content(c, p1, q1, p2, q2, use2) != c,
        None => false,
    }
}

/// The state after the rewriter has looked at note `k`.
pub open spec fn rewrite_step(
    v: VaultV,
    k: int,
    p1: Seq<char>,
    q1: Seq<char>,
    p2: Seq<char>,
    q2: Seq<char>,
    use2: bool,
    live_only: bool,
    now: Seq<char>,
) -> VaultV {
    if !(0 <= k < v.notes.len()) {
        v
    } else if !rewrite_hits(v, k, p1, q1, p2, q2, use2, live_only) {
        v
    } else {
        let n = v.notes[k];
        let c = file_content_at(v.files, n.file_path)->Some_0;
        let c2 = rewritten_content(c, p1, q1, p2, q2, use2);
        VaultV {
            notes: v.notes.update(
                k,
                NoteV { preview: preview_s(c2), updated_at: now, ..n },
            ),
            files: write_file_t(v.files, n.file_path, c2),
            search: upsert_search_t(v.search, n.id, n.title, c2),
            ..v
        }
    }
}

/// The state after the rewriter has looked at the first `k` notes.
pub open spec fn rewrite_upto(
    v0: VaultV,
    k: int,
    p1: Seq<char>,
    q1: Seq<char>,
    p2: Seq<char>,
    q2: Seq<char>,
    use2: bool,
    live_only: bool,
    now: Seq<char>,
) -> VaultV
    decreases k,
{
    if k <= 0 {
        v0
    } else {
        rewrite_step(
            rewrite_upto(v0, k - 1, p1, q1, p2, q2, use2, live_only, now),
            k - 1,
            p1,
            q1,
            p2,
            q2,
            use2,
            live_only,
            now,
        )
    }
}

/// The whole backlink pass.
pub open spec fn rewrite_pass_t(
    v0: VaultV,
    p1: Seq<char>,
    q1: Seq<char>,
    p2: Seq<char>,
    q2: Seq<char>,
    use2: bool,
    live_only: bool,
    now: Seq<char>,
) -> VaultV {
    rewrite_upto(v0, v0.notes.len() as int, p1, q1, p2, q2, use2, live_only, now)
}

proof fn lemma_rewrite_step_shape(
    v: VaultV,
    k: int,
    p1: Seq<char>,
    q1: Seq<char>,
    p2: Seq<char>,
    q2: Seq<char>,
    use2: bool,
    live_only: bool,
    now: Seq<char>,
)
    requires
        wf_v(v),
    ensures
        wf_v(rewrite_step(v, k, p1, q1, p2, q2, use2, live_only, now)),
        rewrite_step(v, k, p1, q1, p2, q2, use2, live_only, now).notes.len() == v.notes.len(),
        rewrite_step(v, k, p1, q1, p2, q2, use2, live_only, now).base == v.base,
        rewrite_step(v, k, p1, q1, p2, q2, use2, live_only, now).folders == v.folders,
        rewrite_step(v, k, p1, q1, p2, q2, use2, live_only, now).next_note_id
            == v.next_note_id,
        forall|t: int|
            0 <= t < v.notes.len() ==> (#[trigger] rewrite_step(
                v,
                k,
                p1,
                q1,
                p2,
                q2,
                use2,
                live_only,
                now,
            ).notes[t]).id == v.notes[t].id && rewrite_step(
                v,
                k,
                p1,
                q1,
                p2,
                q2,
                use2,
                live_only,
                now,
            ).notes[t].file_path == v.notes[t].file_path && rewrite_step(
                v,
                k,
                p1,
                q1,
                p2,
                q2,
                use2,
                live_only,
                now,
            ).notes[t].parent_id == v.notes[t].parent_id && rewrite_step(
                v,
                k,
                p1,
                q1,
                p2,
                q2,
                use2,
                live_only,
                now,
            ).notes[t].is_deleted == v.notes[t].is_deleted,
{
    let w = rewrite_step(v, k, p1, q1, p2, q2, use2, live_only, now);
    if 0 <= k < v.notes.len() && rewrite_hits(v, k, p1, q1, p2, q2, use2, live_only) {
        let n = v.notes[k];
        let c = file_content_at(v.files, n.file_path)->Some_0;
        let c2 = rewritten_content(c, p1, q1, p2, q2, use2);
        assert(0 < n.id < v.next_note_id);
        lemma_search_upsert_wf(v.search, n.id, n.title, c2, v.next_note_id);
        assert forall|a: int, b: int| 0 <= a < b < w.notes.len() implies note_key(w.notes[a])
            != note_key(w.notes[b]) by {
            assert(w.notes[a].id == v.notes[a].id);
            assert(w.notes[b].id == v.notes[b].id);
        }
        assert forall|t: int| 0 <= t < w.notes.len() implies 0 < #[trigger] w.notes[t].id
            < w.next_note_id by {
            assert(w.notes[t].id == v.notes[t].id);
        }
        assert forall|t: int| 0 <= t < v.notes.len() implies (#[trigger] w.notes[t]).file_path
            == v.notes[t].file_path && w.notes[t].parent_id == v.notes[t].parent_id
            && (w.notes[t]).is_deleted == v.notes[t].is_deleted by {}
    }
}

pub proof fn lemma_rewrite_upto_shape(
    v0: VaultV,
    k: int,
    p1: Seq<char>,
    q1: Seq<char>,
    p2: Seq<char>,
    q2: Seq<char>,
    use2: bool,
    live_only: bool,
    now: Seq<char>,
)
    requires
        wf_v(v0),
    ensures
        wf_v(rewrite_upto(v0, k, p1, q1, p2, q2, use2, live_only, now)),
        rewrite_upto(v0, k, p1, q1, p2, q2, use2, live_only, now).notes.len()
            == v0.notes.len(),
        rewrite_upto(v0, k, p1, q1, p2, q2, use2, live_only, now).base == v0.base,
        rewrite_upto(v0, k, p1, q1, p2, q2, use2, live_only, now).folders == v0.folders,
        rewrite_upto(v0, k, p1, q1, p2, q2, use2, live_only, now).next_note_id
            == v0.next_note_id,
        forall|t: int|
            0 <= t < v0.notes.len() ==> (#[trigger] rewrite_upto(
                v0,
                k,
                p1,
                q1,
                p2,
                q2,
                use2,
                live_only,
                now,
            ).notes[t]).id == v0.notes[t].id && rewrite_upto(
                v0,
                k,
                p1,
                q1,
                p2,
                q2,
                use2,
                live_only,
                now,
            ).notes[t].file_path == v0.notes[t].file_path && rewrite_upto(
                v0,
                k,
                p1,
                q1,
                p2,
                q2,
                use2,
                live_only,
                now,
            ).notes[t].parent_id == v0.notes[t].parent_id && rewrite_upto(
                v0,
                k,
                p1,
                q1,
                p2,
                q2,
                use2,
                live_only,
                now,
            ).notes[t].is_deleted == v0.notes[t].is_deleted,
    decreases k,
{
    if k > 0 {
        lemma_rewrite_upto_shape(v0, k - 1, p1, q1, p2, q2, use2, live_only, now);
        lemma_rewrite_step_shape(
            rewrite_upto(v0, k - 1, p1, q1, p2, q2, use2, live_only, now),
            k - 1,
            p1,
            q1,
            p2,
            q2,
            use2,
            live_only,
            now,
        );
    }
}

impl Vault {
    /// Scans every note for the bracketed reference patterns and rewrites
    /// the ones that change, re-deriving previews, bumping `updated_at`
    /// and refreshing search entries along the way.
    pub(crate) fn rewrite_links(
        &mut self,
        p1: &str,
        q1: &str,
        p2: &str,
        q2: &str,
        use2: bool,
        live_only: bool,
        now: &str,
    )
        requires
            old(self).wf(),
        ensures
            final(self).wf(),
            final(self)@ == rewrite_pass_t(
                old(self)@,
                p1@,
                q1@,
                p2@,
                q2@,
                use2,
                live_only,
                now@,
            ),
    {
        let ghost v0 = self@;
        let n_notes = self.notes.len();
        let mut k: usize = 0;
        while k < n_notes
            invariant
                k <= n_notes,
                n_notes == v0.notes.len(),
                wf_v(v0),
                self@ == rewrite_upto(v0, k as int, p1@, q1@, p2@, q2@, use2, live_only, now@),
                self@.notes.len() == v0.notes.len(),
            decreases n_notes - k,
        {
            let ghost vcur = self@;
            proof {
                lemma_rewrite_upto_shape(v0, k as int, p1@, q1@, p2@, q2@, use2, live_only, now@);
            }
            let skip = live_only && self.notes[k].is_deleted;
            if !skip {
                let fp = self.notes[k].file_path.clone();
                match self.read_file(fp.as_str()) {
                    Some(c) => {
                        let c1 = replace_in(c.as_str(), p1, q1);
                        let c2 = if use2 {
                            replace_in(c1.as_str(), p2, q2)
                        } else {
                            c1
                        };
                        if !str_eq(c2.as_str(), c.as_str()) {
                            let pv = generate_preview(c2.as_str());
                            let id = self.notes[k].id;
                            let title = self.notes[k].title.clone();
                            self.write_file(fp.as_str(), c2.as_str());
                            self.upsert_search(id, title.as_str(), c2.as_str());
                            self.notes[k].preview = pv;
                            self.notes[k].updated_at = now.to_owned();
                            proof {
                                let vs = rewrite_step(
                                    vcur,
                                    k as int,
                                    p1@,
                                    q1@,
                                    p2@,
                                    q2@,
                                    use2,
                                    live_only,
                                    now@,
                                );
                                assert(rewrite_hits(
                                    vcur,
                                    k as int,
                                    p1@,
                                    q1@,
                                    p2@,
                                    q2@,
                                    use2,
                                    live_only,
                                ));
                                assert(note_views(self.notes@) =~= vs.notes);
                                assert(self@ == vs);
                            }
                        } else {
                            proof {
                                assert(!rewrite_hits(
                                    vcur,
                                    k as int,
                                    p1@,
                                    q1@,
                                    p2@,
                                    q2@,
                                    use2,
                                    live_only,
                                ));
                            }
                        }
                    },
                    None => {
                        proof {
                            assert(!rewrite_hits(
                                vcur,
                                k as int,
                                p1@,
                                q1@,
                                p2@,
                                q2@,
                                use2,
                                live_only,
                            ));
                        }
                    },
                }
            } else {
                proof {
                    assert(!rewrite_hits(vcur, k as int, p1@, q1@, p2@, q2@, use2, live_only));
                }
            }
            k = k + 1;
        }
        proof {
            lemma_rewrite_upto_shape(
                v0,
                n_notes as int,
                p1@,
                q1@,
                p2@,
                q2@,
                use2,
                live_only,
                now@,
            );
        }
    }
}

} // verus!
