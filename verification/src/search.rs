//! The search operation and its small query language: bare terms match the
//! full-text index by substring against a note's indexed title and content
//! (every term must match), `tag:<name>` tokens keep only notes carrying
//! all the named tags, and `is:favorite` / `-is:favorite` filter on the
//! favorite flag. The candidate set is the live list; a text query that is
//! empty after the structured tokens are removed leaves it unfiltered.

use vstd::prelude::*;

use crate::chars::begins_with;
use crate::chars::begins_with_exec;
use crate::chars::chars_of;
use crate::chars::occurs_in;
use crate::chars::occurs_in_exec;
use crate::chars::str_eq;
use crate::chars::string_of;
use crate::models::Note;
use crate::models::NoteV;
use crate::models::SearchV;
use crate::models::TagV;
use crate::notes::is_live;
use crate::notes::sorted_desc;
use crate::preview::is_space;
use crate::tags::has_link;
use crate::vault::Vault;
use crate::vault::VaultV;
use crate::vault::distinct_keys;
use crate::vault::keep;
use crate::vault::note_views;

verus! {

/// The index of the first whitespace character, or `-1`.
pub open spec fn first_ws_idx(p: Seq<char>) -> int
    decreases p.len(),
{
    if p.len() == 0 {
        -1
    } else if is_space(p[0]) {
        0
    } else {
        let r = first_ws_idx(p.drop_first());
        if r < 0 {
            -1
        } else {
            r + 1
        }
    }
}

/// The query split at whitespace into tokens.
pub open spec fn split_ws_s(s: Seq<char>) -> Seq<Seq<char>>
    decreases s.len(),
{
    if s.len() == 0 {
        Seq::<Seq<char>>::empty()
    } else if is_space(s[0]) {
        split_ws_s(s.drop_first())
    } else {
        let i = first_ws_idx(s);
        if 0 < i < s.len() {
            seq![s.subrange(0, i)] + split_ws_s(s.subrange(i, s.len() as int))
        } else {
            seq![s]
        }
    }
}

proof fn lemma_first_ws_of_run(s: Seq<char>, w: int)
    requires
        0 <= w <= s.len(),
        forall|k: int| 0 <= k < w ==> !is_space(#[trigger] s[k]),
        w == s.len() || is_space(s[w]),
    ensures
        first_ws_idx(s) == if w == s.len() {
            -1
        } else {
            w
        },
    decreases w,
{
    if s.len() == 0 {
    } else if w == 0 {
    } else {
        assert(!is_space(s[0]));
        lemma_first_ws_of_run(s.drop_first(), w - 1);
        assert(forall|k: int|
            0 <= k < w - 1 ==> s.drop_first()[k] == s[k + 1]);
    }
}

/// A double quote.
pub open spec fn is_quote(c: char) -> bool {
    c == '"'
}

/// The token with every double quote removed: how a bare term is prepared
/// for matching.
pub open spec fn strip_quotes_s(s: Seq<char>) -> Seq<char>
    decreases s.len(),
{
    if s.len() == 0 {
        Seq::<char>::empty()
    } else if is_quote(s.last()) {
        strip_quotes_s(s.drop_last())
    } else {
        strip_quotes_s(s.drop_last()).push(s.last())
    }
}

/// The tag names drawn from the `tag:` tokens, in order.
pub open spec fn tags_of(tokens: Seq<Seq<char>>) -> Seq<Seq<char>>
    decreases tokens.len(),
{
    if tokens.len() == 0 {
        Seq::<Seq<char>>::empty()
    } else {
        let t = tokens.last();
        let rest = tags_of(tokens.drop_last());
        if begins_with(t, "tag:"@) {
            rest.push(t.subrange(4, t.len() as int))
        } else {
            rest
        }
    }
}

/// The bare text terms, quotes stripped, in order.
pub open spec fn terms_of(tokens: Seq<Seq<char>>) -> Seq<Seq<char>>
    decreases tokens.len(),
{
    if tokens.len() == 0 {
        Seq::<Seq<char>>::empty()
    } else {
        let t = tokens.last();
        let rest = terms_of(tokens.drop_last());
        if begins_with(t, "tag:"@) || t == "is:favorite"@ || t == "-is:favorite"@ {
            rest
        } else {
            rest.push(strip_quotes_s(t))
        }
    }
}

/// The favorite filter, the last `is:favorite` form winning.
pub open spec fn fav_of(tokens: Seq<Seq<char>>) -> Option<bool>
    decreases tokens.len(),
{
    if tokens.len() == 0 {
        None
    } else if tokens.last() == "is:favorite"@ {
        Some(true)
    } else if tokens.last() == "-is:favorite"@ {
        Some(false)
    } else {
        fav_of(tokens.drop_last())
    }
}

/// Every term occurs in the entry's title or content.
pub open spec fn all_terms_in(e: SearchV, terms: Seq<Seq<char>>) -> bool {
    forall|k: int|
        0 <= k < terms.len() ==> occurs_in(e.title, #[trigger] terms[k]) || occurs_in(
            e.content,
            terms[k],
        )
}

/// With no terms every note passes; otherwise the note's search entry must
/// exist and match every term.
pub open spec fn entry_matches(v: VaultV, nid: int, terms: Seq<Seq<char>>) -> bool {
    if terms.len() == 0 {
        true
    } else {
        exists|e: int|
            0 <= e < v.search.len() && #[trigger] v.search[e].id == nid && all_terms_in(
                v.search[e],
                terms,
            )
    }
}

/// A tag row with this name exists and is associated with the note.
pub open spec fn tag_link_named(v: VaultV, nid: int, name: Seq<char>) -> bool {
    exists|t: int|
        0 <= t < v.tags.len() && #[trigger] v.tags[t].name == name && has_link(
            v,
            nid,
            v.tags[t].id,
        )
}

/// The note carries all the queried tags: the intersection of the named
/// tags' note sets, so naming a tag twice asks for it once.
pub open spec fn tags_ok(v: VaultV, nid: int, tags: Seq<Seq<char>>) -> bool {
    forall|k: int| 0 <= k < tags.len() ==> tag_link_named(v, nid, #[trigger] tags[k])
}

pub open spec fn fav_ok(n: NoteV, fav: Option<bool>) -> bool {
    match fav {
        Some(b) => n.is_favorite == b,
        None => true,
    }
}

/// Whether a note is returned for the parsed query.
pub open spec fn search_hit(
    v: VaultV,
    n: NoteV,
    tags: Seq<Seq<char>>,
    terms: Seq<Seq<char>>,
    fav: Option<bool>,
) -> bool {
    &&& is_live(n)
    &&& fav_ok(n, fav)
    &&& tags_ok(v, n.id, tags)
    &&& entry_matches(v, n.id, terms)
}

spec fn views_of(ls: Seq<Vec<char>>) -> Seq<Seq<char>> {
    ls.map_values(|l: Vec<char>| l@)
}

/// Splits a query at whitespace.
fn split_ws(v: &Vec<char>) -> (r: Vec<Vec<char>>)
    ensures
        views_of(r@) == split_ws_s(v@),
{
    let n = v.len();
    let mut tokens: Vec<Vec<char>> = Vec::new();
    let mut i: usize = 0;
    proof {
        assert(v@.subrange(0, n as int) =~= v@);
        assert(views_of(tokens@) + split_ws_s(v@) =~= split_ws_s(v@));
    }
    while i < n
        invariant
            i <= n,
            n == v@.len(),
            split_ws_s(v@) == views_of(tokens@) + split_ws_s(v@.subrange(i as int, n as int)),
        decreases n - i,
    {
        let ghost rest = v@.subrange(i as int, n as int);
        let c = v[i];
        if c == ' ' || c == '\t' || c == '\r' || c == '\n' || c == '\u{000B}' || c
            == '\u{000C}' {
            proof {
                assert(is_space(rest[0]));
                assert(rest.drop_first() =~= v@.subrange(i + 1, n as int));
            }
            i = i + 1;
        } else {
            let mut j: usize = i + 1;
            while j < n && !(v[j] == ' ' || v[j] == '\t' || v[j] == '\r' || v[j] == '\n' || v[j]
                == '\u{000B}' || v[j] == '\u{000C}')
                invariant
                    i < j,
                    j <= n,
                    n == v@.len(),
                    forall|k: int| i <= k < j ==> !is_space(#[trigger] v@[k]),
                decreases n - j,
            {
                j = j + 1;
            }
            let mut tok: Vec<char> = Vec::new();
            let mut w: usize = i;
            while w < j
                invariant
                    i <= w,
                    w <= j,
                    j <= v@.len(),
                    tok@ == v@.subrange(i as int, w as int),
                decreases j - w,
            {
                tok.push(v[w]);
                w = w + 1;
                proof {
                    assert(tok@ =~= v@.subrange(i as int, w as int));
                }
            }
            proof {
                assert(forall|k: int| 0 <= k < j - i ==> !is_space(#[trigger] rest[k]));
                assert(j - i == rest.len() || is_space(rest[j - i]));
                lemma_first_ws_of_run(rest, j - i);
                if j < n {
                    assert(first_ws_idx(rest) == j - i);
                    assert(rest.subrange(0, j - i) =~= v@.subrange(i as int, j as int));
                    assert(rest.subrange(j - i, rest.len() as int) =~= v@.subrange(
                        j as int,
                        n as int,
                    ));
                    assert(split_ws_s(rest) == seq![v@.subrange(i as int, j as int)]
                        + split_ws_s(v@.subrange(j as int, n as int)));
                } else {
                    assert(first_ws_idx(rest) == -1);
                    assert(rest =~= v@.subrange(i as int, j as int));
                    assert(split_ws_s(rest) == seq![rest]);
                    assert(v@.subrange(j as int, n as int).len() == 0);
                    assert(split_ws_s(v@.subrange(j as int, n as int)) =~= Seq::<Seq<
                        char,
                    >>::empty());
                }
                assert(tok@ == v@.subrange(i as int, j as int));
                assert(views_of(tokens@.push(tok)) =~= views_of(tokens@).push(tok@));
            }
            tokens.push(tok);
            i = j;
        }
    }
    proof {
        assert(v@.subrange(i as int, n as int).len() == 0);
        assert(split_ws_s(v@.subrange(i as int, n as int)) =~= Seq::<Seq<char>>::empty());
        assert(views_of(tokens@) + Seq::<Seq<char>>::empty() =~= views_of(tokens@));
    }
    tokens
}

fn strip_quotes(t: &Vec<char>) -> (r: Vec<char>)
    ensures
        r@ == strip_quotes_s(t@),
{
    let n = t.len();
    let mut out: Vec<char> = Vec::new();
    let mut i: usize = 0;
    proof {
        assert(t@.subrange(0, 0).len() == 0);
    }
    while i < n
        invariant
            i <= n,
            n == t@.len(),
            out@ == strip_quotes_s(t@.subrange(0, i as int)),
        decreases n - i,
    {
        let c = t[i];
        proof {
            let pre = t@.subrange(0, i + 1);
            assert(pre.drop_last() =~= t@.subrange(0, i as int));
            assert(pre.last() == c);
        }
        if c != '"' {
            out.push(c);
        }
        i = i + 1;
    }
    proof {
        assert(t@.subrange(0, n as int) =~= t@);
    }
    out
}

impl Vault {
    /// Searches the live notes: structured tokens filter on tags and the
    /// favorite flag, bare terms match the search index by substring, and
    /// the survivors come back ordered by `updated_at` descending.
    pub fn search_notes(&self, query: &str) -> (r: Vec<Note>)
        requires
            self.wf(),
        ensures
            ({
                let tokens = split_ws_s(query@);
                note_views(r@).to_multiset() == keep(
                    self@.notes,
                    |n: NoteV| search_hit(
                        self@,
                        n,
                        tags_of(tokens),
                        terms_of(tokens),
                        fav_of(tokens),
                    ),
                ).to_multiset() && sorted_desc(note_views(r@), false)
            }),
    {
        proof {
            reveal_strlit("tag:");
            reveal_strlit("is:favorite");
            reveal_strlit("-is:favorite");
        }
        let ghost v0 = self@;
        let qv = chars_of(query);
        let tokens = split_ws(&qv);
        let ghost toks = split_ws_s(query@);

        let mut tag_names: Vec<Vec<char>> = Vec::new();
        let mut terms: Vec<Vec<char>> = Vec::new();
        let mut fav: Option<bool> = None;
        let tag_prefix = chars_of("tag:");
        let mut k: usize = 0;
        proof {
            assert(views_of(tokens@.subrange(0, 0)).len() == 0);
            assert(tags_of(views_of(tokens@.subrange(0, 0))) =~= Seq::<Seq<char>>::empty());
            assert(terms_of(views_of(tokens@.subrange(0, 0))) =~= Seq::<Seq<char>>::empty());
        }
        while k < tokens.len()
            invariant
                k <= tokens@.len(),
                views_of(tokens@) == toks,
                tag_prefix@ == "tag:"@,
                views_of(tag_names@) == tags_of(views_of(tokens@.subrange(0, k as int))),
                views_of(terms@) == terms_of(views_of(tokens@.subrange(0, k as int))),
                fav == fav_of(views_of(tokens@.subrange(0, k as int))),
            decreases tokens@.len() - k,
        {
            let ghost pre = views_of(tokens@.subrange(0, k as int));
            let ghost pre2 = views_of(tokens@.subrange(0, k + 1));
            proof {
                reveal_strlit("tag:");
                reveal_strlit("is:favorite");
                reveal_strlit("-is:favorite");
                assert(pre2.drop_last() =~= pre);
                assert(pre2.last() == tokens@[k as int]@);
            }
            let t = &tokens[k];
            let ts = string_of(t);
            let is_tag = begins_with_exec(t, &tag_prefix);
            let is_f = str_eq(ts.as_str(), "is:favorite");
            let is_nf = str_eq(ts.as_str(), "-is:favorite");
            proof {
                if is_tag {
                    assert(t@.subrange(0, 4) == "tag:"@);
                    assert(t@.subrange(0, 4)[0] == t@[0]);
                    assert(t@[0] == 't');
                    assert(t@ != "is:favorite"@);
                    assert(t@ != "-is:favorite"@);
                    assert(fav_of(pre2) == fav_of(pre));
                } else if is_f {
                    assert(fav_of(pre2) == Some(true));
                } else if is_nf {
                    assert(fav_of(pre2) == Some(false));
                } else {
                    assert(fav_of(pre2) == fav_of(pre));
                }
            }
            if is_tag {
                let mut nm: Vec<char> = Vec::new();
                let mut w: usize = 4;
                proof {
                    assert(t@.len() >= 4);
                    assert(nm@ =~= t@.subrange(4, 4));
                }
                while w < t.len()
                    invariant
                        4 <= w,
                        w <= t@.len(),
                        nm@ == t@.subrange(4, w as int),
                    decreases t@.len() - w,
                {
                    nm.push(t[w]);
                    w = w + 1;
                    proof {
                        assert(nm@ =~= t@.subrange(4, w as int));
                    }
                }
                proof {
                    assert(nm@ == t@.subrange(4, t@.len() as int));
                    assert(views_of(tag_names@.push(nm)) =~= views_of(tag_names@).push(nm@));
                }
                tag_names.push(nm);
            } else if is_f {
                fav = Some(true);
            } else if is_nf {
                fav = Some(false);
            } else {
                let sq = strip_quotes(t);
                proof {
                    assert(views_of(terms@.push(sq)) =~= views_of(terms@).push(sq@));
                }
                terms.push(sq);
            }
            k = k + 1;
        }
        proof {
            assert(tokens@.subrange(0, tokens@.len() as int) =~= tokens@);
        }
        let ghost q_tags = tags_of(toks);
        let ghost q_terms = terms_of(toks);
        let ghost q_fav = fav_of(toks);

        let mut picked: Vec<Note> = Vec::new();
        let mut i: usize = 0;
        proof {
            assert(note_views(self.notes@).subrange(0, 0) =~= Seq::<NoteV>::empty());
        }
        while i < self.notes.len()
            invariant
                i <= self@.notes.len(),
                self@ == v0,
                self.wf(),
                views_of(tag_names@) == q_tags,
                views_of(terms@) == q_terms,
                fav == q_fav,
                note_views(picked@) == keep(
                    note_views(self.notes@).subrange(0, i as int),
                    |n: NoteV| search_hit(v0, n, q_tags, q_terms, q_fav),
                ),
            decreases self@.notes.len() - i,
        {
            let ghost pre2 = note_views(self.notes@).subrange(0, i + 1);
            proof {
                assert(pre2.drop_last() =~= note_views(self.notes@).subrange(0, i as int));
                assert(pre2.last() == self.notes@[i as int]@);
            }
            let ghost nv = self.notes@[i as int]@;
            let nid = self.notes[i].id;

            let mut hit = !self.notes[i].is_deleted;
            match fav {
                Some(b) => {
                    if self.notes[i].is_favorite != b {
                        hit = false;
                    }
                },
                None => {},
            }
            proof {
                assert(hit == (is_live(nv) && fav_ok(nv, q_fav)));
            }

            if hit && tag_names.len() > 0 {
                {
                    let mut t: usize = 0;
                    let mut all_linked = true;
                    while t < tag_names.len()
                        invariant
                            t <= tag_names@.len(),
                            self@ == v0,
                            self.wf(),
                            views_of(tag_names@) == q_tags,
                            all_linked == (forall|w: int|
                                0 <= w < t ==> tag_link_named(
                                    v0,
                                    nid as int,
                                    #[trigger] q_tags[w],
                                )),
                        decreases tag_names@.len() - t,
                    {
                        let name = string_of(&tag_names[t]);
                        let linked = match self.find_tag_row_named(name.as_str()) {
                            Some(ti) => {
                                let tid = self.tags[ti].id;
                                self.has_link_exec(nid, tid)
                            },
                            None => false,
                        };
                        proof {
                            if linked {
                                assert(tag_link_named(v0, nid as int, q_tags[t as int]));
                            } else {
                                if tag_link_named(v0, nid as int, q_tags[t as int]) {
                                    let w = choose|w: int|
                                        0 <= w < v0.tags.len() && #[trigger] v0.tags[w].name
                                            == q_tags[t as int] && has_link(
                                            v0,
                                            nid as int,
                                            v0.tags[w].id,
                                        );
                                    assert(distinct_keys(
                                        v0.tags,
                                        |x: TagV| crate::vault::tag_name_key(x),
                                    ));
                                }
                            }
                        }
                        if !linked {
                            all_linked = false;
                        }
                        proof {
                            if !all_linked {
                            } else {
                                assert forall|w: int| 0 <= w < t + 1 implies tag_link_named(
                                    v0,
                                    nid as int,
                                    #[trigger] q_tags[w],
                                ) by {}
                            }
                        }
                        t = t + 1;
                    }
                    if !all_linked {
                        hit = false;
                    }
                }
                proof {
                    if q_tags.len() > 0 {
                        assert(hit == (is_live(nv) && fav_ok(nv, q_fav) && tags_ok(
                            v0,
                            nid as int,
                            q_tags,
                        )));
                    }
                }
            }
            proof {
                assert(hit == (is_live(nv) && fav_ok(nv, q_fav) && tags_ok(
                    v0,
                    nid as int,
                    q_tags,
                )));
            }

            if hit && terms.len() > 0 {
                let em = match self.find_search_entry(nid) {
                    Some(ei) => {
                        let title_chars = chars_of(self.search[ei].title.as_str());
                        let content_chars = chars_of(self.search[ei].content.as_str());
                        let mut t: usize = 0;
                        let mut all_in = true;
                        while t < terms.len()
                            invariant
                                t <= terms@.len(),
                                self@ == v0,
                                ei < v0.search.len(),
                                title_chars@ == v0.search[ei as int].title,
                                content_chars@ == v0.search[ei as int].content,
                                views_of(terms@) == q_terms,
                                all_in == (forall|w: int|
                                    0 <= w < t ==> occurs_in(
                                        v0.search[ei as int].title,
                                        #[trigger] q_terms[w],
                                    ) || occurs_in(
                                        v0.search[ei as int].content,
                                        q_terms[w],
                                    )),
                            decreases terms@.len() - t,
                        {
                            let got = occurs_in_exec(&title_chars, &terms[t])
                                || occurs_in_exec(&content_chars, &terms[t]);
                            proof {
                                assert(views_of(terms@)[t as int] == terms@[t as int]@);
                            }
                            if !got {
                                all_in = false;
                            }
                            proof {
                                if all_in {
                                    assert forall|w: int| 0 <= w < t + 1 implies occurs_in(
                                        v0.search[ei as int].title,
                                        #[trigger] q_terms[w],
                                    ) || occurs_in(
                                        v0.search[ei as int].content,
                                        q_terms[w],
                                    ) by {}
                                }
                            }
                            t = t + 1;
                        }
                        proof {
                            if all_in {
                                assert(all_terms_in(v0.search[ei as int], q_terms));
                                assert(entry_matches(v0, nid as int, q_terms));
                            } else {
                                if entry_matches(v0, nid as int, q_terms) {
                                    let w = choose|w: int|
                                        0 <= w < v0.search.len() && #[trigger] v0.search[w].id
                                            == nid as int && all_terms_in(
                                            v0.search[w],
                                            q_terms,
                                        );
                                    assert(distinct_keys(
                                        v0.search,
                                        |e: SearchV| crate::vault::search_key(e),
                                    ));
                                    assert(w == ei as int);
                                }
                            }
                        }
                        all_in
                    },
                    None => {
                        proof {
                            if entry_matches(v0, nid as int, q_terms) {
                                let w = choose|w: int|
                                    0 <= w < v0.search.len() && #[trigger] v0.search[w].id
                                        == nid as int && all_terms_in(v0.search[w], q_terms);
                            }
                        }
                        false
                    },
                };
                if !em {
                    hit = false;
                }
            }
            proof {
                assert(hit == search_hit(v0, nv, q_tags, q_terms, q_fav));
            }

            if hit {
                let e = self.notes[i].duplicate();
                picked.push(e);
            }
            i = i + 1;
            proof {
                assert(note_views(picked@) =~= keep(
                    pre2,
                    |n: NoteV| search_hit(v0, n, q_tags, q_terms, q_fav),
                ));
            }
        }
        proof {
            assert(note_views(self.notes@).subrange(0, i as int) =~= note_views(self.notes@));
        }
        crate::notes::sort_notes_desc(picked, false)
    }

    /// The position of the tag row with this name.
    fn find_tag_row_named(&self, name: &str) -> (r: Option<usize>)
        requires
            self.wf(),
        ensures
            match r {
                Some(i) => i < self@.tags.len() && self@.tags[i as int].name == name@,
                None => forall|k: int|
                    0 <= k < self@.tags.len() ==> (#[trigger] self@.tags[k]).name != name@,
            },
    {
        let mut i: usize = 0;
        while i < self.tags.len()
            invariant
                i <= self@.tags.len(),
                forall|k: int| 0 <= k < i ==> #[trigger] self@.tags[k].name != name@,
            decreases self@.tags.len() - i,
        {
            if str_eq(self.tags[i].name.as_str(), name) {
                proof {
                    assert(self@.tags[i as int].name == name@);
                }
                return Some(i);
            }
            i = i + 1;
        }
        None
    }

    /// Whether the note carries the tag.
    fn has_link_exec(&self, note_id: i64, tag_id: i64) -> (r: bool)
        ensures
            r == has_link(self@, note_id as int, tag_id as int),
    {
        let mut i: usize = 0;
        while i < self.links.len()
            invariant
                i <= self@.links.len(),
                forall|k: int|
                    0 <= k < i ==> #[trigger] self@.links[k] != (crate::models::LinkV {
                        note_id: note_id as int,
                        tag_id: tag_id as int,
                    }),
            decreases self@.links.len() - i,
        {
            if self.links[i].note_id == note_id && self.links[i].tag_id == tag_id {
                proof {
                    assert(self@.links[i as int] == (crate::models::LinkV {
                        note_id: note_id as int,
                        tag_id: tag_id as int,
                    }));
                }
                return true;
            }
            i = i + 1;
        }
        proof {
            if has_link(self@, note_id as int, tag_id as int) {
                let w = choose|w: int|
                    0 <= w < self@.links.len() && #[trigger] self@.links[w]
                        == (crate::models::LinkV {
                        note_id: note_id as int,
                        tag_id: tag_id as int,
                    });
            }
        }
        false
    }

    /// The position of the search entry of this note.
    fn find_search_entry(&self, id: i64) -> (r: Option<usize>)
        requires
            self.wf(),
        ensures
            match r {
                Some(i) => i < self@.search.len() && self@.search[i as int].id == id as int,
                None => forall|k: int|
                    0 <= k < self@.search.len() ==> #[trigger] self@.search[k].id != id as int,
            },
    {
        let mut i: usize = 0;
        while i < self.search.len()
            invariant
                i <= self@.search.len(),
                forall|k: int| 0 <= k < i ==> #[trigger] self@.search[k].id != id as int,
            decreases self@.search.len() - i,
        {
            if self.search[i].id == id {
                proof {
                    assert(self@.search[i as int].id == id as int);
                }
                return Some(i);
            }
            i = i + 1;
        }
        None
    }
}

} // verus!
