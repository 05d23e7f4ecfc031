//! The laws of the engine, stated and proved over the spec transitions:
//! the backlink rewrite is a fixed point, soft delete followed by restore
//! is the identity on a note's visible fields and content, and a
//! permanent folder delete leaves no descendant row or trash file behind.

use vstd::prelude::*;

use crate::chars::begins_with;
use crate::chars::match_at;
use crate::chars::occurs_in;
use crate::chars::replace_all;
use crate::folders::closure_iter;
use crate::folders::closure_step;
use crate::folders::folder_closure_s;
use crate::folders::lemma_closure_iter_grows;
use crate::folders::lemma_closure_step_grows;
use crate::folders::delete_folder_t;
use crate::folders::permanently_delete_folder_t;
use crate::links::bracketed_s;
use crate::models::FileV;
use crate::models::FolderV;
use crate::models::NoteV;
use crate::notes::delete_note_t;
use crate::notes::restore_note_t;
use crate::paths::trash_path_s;
use crate::paths::under_prefix_s;
use crate::vault::VaultV;
use crate::vault::distinct_keys;
use crate::vault::file_content_at;
use crate::vault::has_file_at;
use crate::vault::has_folder;
use crate::vault::has_live_folder;
use crate::vault::has_note;
use crate::vault::keep;
use crate::vault::lemma_keep_contains;
use crate::vault::move_file_t;
use crate::vault::note_at;
use crate::vault::remove_file_t;
use crate::vault::wf_v;
use crate::vault::write_file_t;

verus! {

// ------------------------------------------------------------------
// The content store: what reading finds after writes, removes, moves.
// ------------------------------------------------------------------

/// `keep` looked at from the front: the head is kept or dropped, then the
/// rest is filtered.
proof fn lemma_keep_first<A>(s: Seq<A>, p: spec_fn(A) -> bool)
    requires
        s.len() > 0,
    ensures
        keep(s, p) == if p(s[0]) {
            seq![s[0]] + keep(s.drop_first(), p)
        } else {
            keep(s.drop_first(), p)
        },
    decreases s.len(),
{
    if s.len() == 1 {
        assert(s.drop_last().len() == 0);
        assert(s.drop_first().len() == 0);
        assert(s.last() == s[0]);
        assert(keep(s.drop_last(), p) =~= Seq::<A>::empty());
        assert(keep(s.drop_first(), p) =~= Seq::<A>::empty());
        if p(s[0]) {
            assert(keep(s, p) == keep(s.drop_last(), p).push(s.last()));
            assert(keep(s, p) =~= seq![s[0]] + keep(s.drop_first(), p));
        } else {
            assert(keep(s, p) == keep(s.drop_last(), p));
        }
    } else {
        lemma_keep_first(s.drop_last(), p);
        assert(s.drop_last()[0] == s[0]);
        assert(s.drop_last().drop_first() =~= s.drop_first().drop_last());
        assert(s.drop_first().last() == s.last());
        if p(s.last()) {
            if p(s[0]) {
                assert(keep(s, p) =~= seq![s[0]] + keep(s.drop_first(), p)) by {
                    assert(keep(s.drop_first(), p) == keep(
                        s.drop_first().drop_last(),
                        p,
                    ).push(s.last()));
                }
            } else {
                assert(keep(s, p) =~= keep(s.drop_first(), p)) by {
                    assert(keep(s.drop_first(), p) == keep(
                        s.drop_first().drop_last(),
                        p,
                    ).push(s.last()));
                }
            }
        } else {
            if p(s[0]) {
                assert(keep(s, p) =~= seq![s[0]] + keep(s.drop_first(), p)) by {
                    assert(keep(s.drop_first(), p) == keep(s.drop_first().drop_last(), p));
                }
            }
        }
    }
}

/// Dropping the files at one path does not change what any other path
/// holds.
proof fn lemma_content_keep_other(s: Seq<FileV>, p0: Seq<char>, q: Seq<char>)
    requires
        q != p0,
    ensures
        file_content_at(keep(s, |f: FileV| f.path != p0), q) == file_content_at(s, q),
    decreases s.len(),
{
    if s.len() > 0 {
        lemma_keep_first(s, |f: FileV| f.path != p0);
        lemma_content_keep_other(s.drop_first(), p0, q);
        if s[0].path != p0 {
            let w = seq![s[0]] + keep(s.drop_first(), |f: FileV| f.path != p0);
            assert(w[0] == s[0]);
            assert(w.drop_first() =~= keep(s.drop_first(), |f: FileV| f.path != p0));
        }
    }
}

/// No file sits at a path whose entries were all dropped.
proof fn lemma_content_keep_gone(s: Seq<FileV>, p0: Seq<char>)
    ensures
        file_content_at(keep(s, |f: FileV| f.path != p0), p0) is None,
    decreases s.len(),
{
    if s.len() > 0 {
        lemma_keep_first(s, |f: FileV| f.path != p0);
        lemma_content_keep_gone(s.drop_first(), p0);
        if s[0].path != p0 {
            let w = seq![s[0]] + keep(s.drop_first(), |f: FileV| f.path != p0);
            assert(w[0] == s[0]);
            assert(w.drop_first() =~= keep(s.drop_first(), |f: FileV| f.path != p0));
        }
    }
}

/// A written file reads back exactly, and no other path changes.
pub proof fn lemma_content_write(files: Seq<FileV>, p: Seq<char>, c: Seq<char>)
    ensures
        file_content_at(write_file_t(files, p, c), p) == Some(c),
        forall|q: Seq<char>|
            q != p ==> #[trigger] file_content_at(write_file_t(files, p, c), q)
                == file_content_at(files, q),
{
    let kept = keep(files, |f: FileV| f.path != p);
    let w = write_file_t(files, p, c);
    assert(w == kept.push(FileV { path: p, content: c }));
    lemma_keep_contains(files, |f: FileV| f.path != p);
    assert forall|i: int| 0 <= i < kept.len() implies (#[trigger] kept[i]).path != p by {
        assert(kept.contains(kept[i]));
    }
    assert(file_content_at(kept.push(FileV { path: p, content: c }), p) == Some(c)) by {
        lemma_content_push_fresh(kept, p, c);
    }
    assert forall|q: Seq<char>| q != p implies #[trigger] file_content_at(w, q)
        == file_content_at(files, q) by {
        lemma_content_push_other(kept, p, c, q);
        lemma_content_keep_other(files, p, q);
    }
}

/// Reading the path just pushed finds it, when nothing before it has that
/// path.
proof fn lemma_content_push_fresh(s: Seq<FileV>, p: Seq<char>, c: Seq<char>)
    requires
        forall|i: int| 0 <= i < s.len() ==> (#[trigger] s[i]).path != p,
    ensures
        file_content_at(s.push(FileV { path: p, content: c }), p) == Some(c),
    decreases s.len(),
{
    let w = s.push(FileV { path: p, content: c });
    if s.len() == 0 {
        assert(w[0] == (FileV { path: p, content: c }));
    } else {
        assert(w[0] == s[0]);
        assert(w.drop_first() =~= s.drop_first().push(FileV { path: p, content: c }));
        assert(forall|i: int|
            0 <= i < s.drop_first().len() ==> (#[trigger] s.drop_first()[i]).path != p);
        lemma_content_push_fresh(s.drop_first(), p, c);
    }
}

/// Pushing a file at one path leaves reads at any other path alone.
proof fn lemma_content_push_other(s: Seq<FileV>, p: Seq<char>, c: Seq<char>, q: Seq<char>)
    requires
        q != p,
    ensures
        file_content_at(s.push(FileV { path: p, content: c }), q) == file_content_at(s, q),
    decreases s.len(),
{
    let w = s.push(FileV { path: p, content: c });
    if s.len() == 0 {
        assert(w[0] == (FileV { path: p, content: c }));
        assert(w.drop_first().len() == 0);
    } else {
        assert(w[0] == s[0]);
        assert(w.drop_first() =~= s.drop_first().push(FileV { path: p, content: c }));
        lemma_content_push_other(s.drop_first(), p, c, q);
        if s[0].path == q {
            assert(file_content_at(w, q) == Some(s[0].content));
        } else {
            assert(file_content_at(w, q) == file_content_at(w.drop_first(), q));
            assert(file_content_at(s, q) == file_content_at(s.drop_first(), q));
        }
    }
}

/// A move carries the content: the target reads back what the source
/// held, and the source is empty afterwards.
pub proof fn lemma_content_move(files: Seq<FileV>, from: Seq<char>, to: Seq<char>)
    requires
        has_file_at(files, from),
        from != to,
    ensures
        file_content_at(move_file_t(files, from, to), to) == file_content_at(files, from),
        file_content_at(move_file_t(files, from, to), from) is None,
{
    let c = file_content_at(files, from)->Some_0;
    let rm = remove_file_t(files, from);
    lemma_content_write(rm, to, c);
    lemma_content_keep_gone(files, from);
    assert(file_content_at(rm, from) is None);
    assert(file_content_at(move_file_t(files, from, to), from) == file_content_at(rm, from));
}

// ------------------------------------------------------------------
// Soft delete then restore is the identity on the visible note.
// ------------------------------------------------------------------

/// Soft-deleting a live note and then restoring it brings back the same
/// row — id, title, parent (still-live), path, timestamps, preview,
/// favorite state — and the same file content at the same path.
pub proof fn lemma_delete_restore_note(v: VaultV, id: int, now: Seq<char>)
    requires
        wf_v(v),
        has_note(v, id),
        has_file_at(v.files, v.notes[note_at(v, id)].file_path),
        trash_path_s(v.base, v.notes[note_at(v, id)].file_path) != v.notes[note_at(
            v,
            id,
        )].file_path,
        match v.notes[note_at(v, id)].parent_id {
            Some(p) => has_live_folder(v, p),
            None => true,
        },
    ensures
        ({
            let w = restore_note_t(delete_note_t(v, id, now), id);
            let n = v.notes[note_at(v, id)];
            &&& w.notes.len() == v.notes.len()
            &&& w.notes[note_at(v, id)] == (NoteV { is_deleted: false, deleted_at: None, ..n })
            &&& file_content_at(w.files, n.file_path) == file_content_at(v.files, n.file_path)
        }),
{
    let i = note_at(v, id);
    let n = v.notes[i];
    let fp = n.file_path;
    let tp = trash_path_s(v.base, fp);
    let d = delete_note_t(v, id, now);
    assert(file_content_at(d.files, tp) == file_content_at(v.files, fp)) by {
        lemma_content_move(v.files, fp, tp);
    }
    assert(note_at(d, id) == i) by {
        assert(d.notes[i].id == id);
        let w = note_at(d, id);
        assert(d.notes[w].id == id);
        if w != i {
            assert(d.notes[w].id == v.notes[w].id);
            assert(distinct_keys(v.notes, |m: NoteV| crate::vault::note_key(m)));
        }
    }
    let dn = d.notes[i];
    assert(dn == (NoteV { is_deleted: true, deleted_at: Some(now), ..n }));
    let w = restore_note_t(d, id);
    assert(file_content_at(d.files, tp) is Some);
    assert(d.folders == v.folders);
    match n.parent_id {
        Some(p) => {
            assert(has_live_folder(d, p));
        },
        None => {},
    }
    assert(crate::notes::restored_parent(d, dn.parent_id) == n.parent_id);
    assert(w.notes[i] == (NoteV { is_deleted: false, deleted_at: None, ..n }));
    assert(file_content_at(w.files, fp) == file_content_at(d.files, tp)) by {
        lemma_content_move(d.files, tp, fp);
    }
}

// ------------------------------------------------------------------
// Permanently deleting a folder removes every descendant's rows and
// trash files.
// ------------------------------------------------------------------

/// `did` descends from `root` through the parent chain in `depth` steps.
pub open spec fn is_descendant(folders: Seq<FolderV>, did: int, root: int, depth: nat) -> bool
    decreases depth,
{
    if did == root {
        true
    } else if depth == 0 {
        false
    } else {
        exists|j: int|
            0 <= j < folders.len() && #[trigger] folders[j].id == did
                && folders[j].parent_id is Some && is_descendant(
                folders,
                folders[j].parent_id->Some_0,
                root,
                (depth - 1) as nat,
            )
    }
}

proof fn lemma_closure_step_adds(folders: Seq<FolderV>, s: Set<int>, j: int)
    requires
        0 <= j < folders.len(),
        folders[j].parent_id is Some,
        s.contains(folders[j].parent_id->Some_0),
    ensures
        closure_step(folders, s).contains(folders[j].id),
    decreases folders.len(),
{
    if j == folders.len() - 1 {
        assert(folders.last() == folders[j]);
    } else {
        lemma_closure_step_adds(folders.drop_last(), s, j);
        assert(folders.drop_last()[j] == folders[j]);
        lemma_closure_step_grows(folders, s);
        let t = closure_step(folders.drop_last(), s);
        if folders.last().parent_id is Some && s.contains(folders.last().parent_id->Some_0) {
            assert(closure_step(folders, s) == t.insert(folders.last().id));
        } else {
            assert(closure_step(folders, s) == t);
        }
    }
}

proof fn lemma_step_monotone(folders: Seq<FolderV>, a: Set<int>, b: Set<int>)
    requires
        a.subset_of(b),
    ensures
        closure_step(folders, a).subset_of(closure_step(folders, b)),
    decreases folders.len(),
{
    if folders.len() > 0 {
        lemma_step_monotone(folders.drop_last(), a, b);
    }
}

proof fn lemma_iter_monotone_k(folders: Seq<FolderV>, s: Set<int>, k1: nat, k2: nat)
    requires
        k1 <= k2,
    ensures
        closure_iter(folders, s, k1).subset_of(closure_iter(folders, s, k2)),
    decreases k2,
{
    if k1 == k2 {
    } else {
        lemma_iter_monotone_k(folders, s, k1, (k2 - 1) as nat);
        lemma_closure_step_grows(folders, closure_iter(folders, s, (k2 - 1) as nat));
    }
}

/// Any descendant within `depth` steps is in the closure after `depth`
/// rounds.
proof fn lemma_descendant_in_iter(folders: Seq<FolderV>, root: int, did: int, depth: nat)
    requires
        is_descendant(folders, did, root, depth),
    ensures
        closure_iter(folders, Set::<int>::empty().insert(root), depth).contains(did),
    decreases depth,
{
    let s0 = Set::<int>::empty().insert(root);
    if did == root {
        lemma_closure_iter_grows(folders, s0, depth);
    } else {
        let j = choose|j: int|
            0 <= j < folders.len() && #[trigger] folders[j].id == did
                && folders[j].parent_id is Some && is_descendant(
                folders,
                folders[j].parent_id->Some_0,
                root,
                (depth - 1) as nat,
            );
        let p = folders[j].parent_id->Some_0;
        lemma_descendant_in_iter(folders, root, p, (depth - 1) as nat);
        lemma_closure_step_adds(folders, closure_iter(folders, s0, (depth - 1) as nat), j);
    }
}

/// Every descendant reachable within as many steps as there are folders
/// is in the computed closure.
pub proof fn lemma_closure_complete(folders: Seq<FolderV>, root: int, did: int, depth: nat)
    requires
        is_descendant(folders, did, root, depth),
        depth <= folders.len(),
    ensures
        folder_closure_s(folders, root).contains(did),
{
    lemma_descendant_in_iter(folders, root, did, depth);
    lemma_iter_monotone_k(
        folders,
        Set::<int>::empty().insert(root),
        depth,
        folders.len() as nat,
    );
}

/// After a permanent folder delete, no descendant folder's row, no note
/// row parented at a descendant, no search entry of such a note, and no
/// file under the folder's trash mirror remain.
pub proof fn lemma_permanent_delete_complete(v: VaultV, id: int, did: int, depth: nat)
    requires
        wf_v(v),
        has_folder(v, id),
        is_descendant(v.folders, did, id, depth),
        depth <= v.folders.len(),
    ensures
        ({
            let w = permanently_delete_folder_t(v, id);
            &&& !has_folder(w, did)
            &&& forall|j: int|
                0 <= j < w.notes.len() ==> (#[trigger] w.notes[j]).parent_id != Some(did)
            &&& forall|j: int|
                0 <= j < w.files.len() ==> !under_prefix_s(
                    (#[trigger] w.files[j]).path,
                    trash_path_s(v.base, v.folders[crate::vault::folder_at(v, id)].folder_path),
                )
        }),
{
    let s = folder_closure_s(v.folders, id);
    lemma_closure_complete(v.folders, id, did, depth);
    let w = permanently_delete_folder_t(v, id);
    let pf = |g: FolderV| !s.contains(g.id);
    let pn = |m: NoteV| !(m.parent_id is Some && s.contains(m.parent_id->Some_0));
    let tp = trash_path_s(v.base, v.folders[crate::vault::folder_at(v, id)].folder_path);
    let pw = |f: FileV| !under_prefix_s(f.path, tp);
    lemma_keep_contains(v.folders, pf);
    if has_folder(w, did) {
        let j = choose|j: int| 0 <= j < w.folders.len() && w.folders[j].id == did;
        assert(keep(v.folders, pf).contains(w.folders[j]));
        assert(pf(w.folders[j]));
    }
    lemma_keep_contains(v.notes, pn);
    assert forall|j: int| 0 <= j < w.notes.len() implies (#[trigger] w.notes[j]).parent_id
        != Some(did) by {
        assert(keep(v.notes, pn).contains(w.notes[j]));
        assert(pn(w.notes[j]));
    }
    lemma_keep_contains(v.files, pw);
    assert forall|j: int| 0 <= j < w.files.len() implies !under_prefix_s(
        (#[trigger] w.files[j]).path,
        tp,
    ) by {
        assert(keep(v.files, pw).contains(w.files[j]));
        assert(pw(w.files[j]));
    }
}

} // verus!

verus! {

// ------------------------------------------------------------------
// The backlink rewrite is a fixed point: once every bracketed reference
// to the old key is replaced, running the rewriter again changes
// nothing.
// ------------------------------------------------------------------

/// A link key free of brackets, as the path resolver produces them.
pub open spec fn key_ok(k: Seq<char>) -> bool {
    forall|i: int| 0 <= i < k.len() ==> #[trigger] k[i] != '[' && k[i] != ']'
}

proof fn lemma_bra_chars(k: Seq<char>)
    ensures
        bracketed_s(k).len() == k.len() + 4,
        bracketed_s(k)[0] == '[',
        bracketed_s(k)[1] == '[',
        bracketed_s(k)[k.len() + 2 as int] == ']',
        bracketed_s(k)[k.len() + 3 as int] == ']',
        forall|i: int| 2 <= i < k.len() + 2 ==> #[trigger] bracketed_s(k)[i] == k[i - 2],
{
    reveal_strlit("[[");
    reveal_strlit("]]");
    let b = bracketed_s(k);
    assert(b.len() == k.len() + 4);
    assert(b[0] == '[');
    assert(b[1] == '[');
    assert(b[k.len() + 2 as int] == ']');
    assert(b[k.len() + 3 as int] == ']');
}

proof fn lemma_bra_bracket_positions(k: Seq<char>, i: int)
    requires
        key_ok(k),
        0 <= i < bracketed_s(k).len(),
        bracketed_s(k)[i] == '[',
    ensures
        i == 0 || i == 1,
{
    lemma_bra_chars(k);
    if 2 <= i < k.len() + 2 {
        assert(k[i - 2] != '[');
    }
}

/// Where an occurrence in a concatenation can lie: wholly in either part,
/// or spanning the junction.
proof fn lemma_occurs_concat_cases(u: Seq<char>, w: Seq<char>, p: Seq<char>)
    requires
        occurs_in(u + w, p),
    ensures
        occurs_in(u, p) || occurs_in(w, p) || exists|t: int|
            0 <= t < u.len() && t + p.len() > u.len() && p.subrange(0, u.len() - t)
                == u.subrange(t, u.len() as int) && #[trigger] p.subrange(
                u.len() - t,
                p.len() as int,
            ) == w.subrange(0, t + p.len() - u.len()),
{
    let m = choose|m: int| match_at(u + w, p, m);
    if m + p.len() <= u.len() {
        assert(u.subrange(m, m + p.len()) =~= (u + w).subrange(m, m + p.len()));
        assert(match_at(u, p, m));
    } else if m >= u.len() {
        assert(w.subrange(m - u.len(), m - u.len() + p.len()) =~= (u + w).subrange(
            m,
            m + p.len(),
        ));
        assert(match_at(w, p, m - u.len()));
    } else {
        assert(p.subrange(0, u.len() - m) =~= u.subrange(m, u.len() as int)) by {
            assert(forall|x: int|
                0 <= x < u.len() - m ==> #[trigger] p.subrange(0, u.len() - m)[x] == (u + w)[m
                    + x]);
        }
        assert(p.subrange(u.len() - m, p.len() as int) =~= w.subrange(
            0,
            m + p.len() - u.len(),
        )) by {
            assert(forall|x: int|
                0 <= x < m + p.len() - u.len() ==> #[trigger] p.subrange(
                    u.len() - m,
                    p.len() as int,
                )[x] == (u + w)[u.len() + x]);
        }
    }
}

/// One bracketed key never occurs inside the other's bracketed form.
proof fn lemma_bra_no_contain(ka: Seq<char>, kb: Seq<char>)
    requires
        key_ok(ka),
        key_ok(kb),
        ka != kb,
    ensures
        !occurs_in(bracketed_s(kb), bracketed_s(ka)),
{
    let pa = bracketed_s(ka);
    let pb = bracketed_s(kb);
    lemma_bra_chars(ka);
    lemma_bra_chars(kb);
    if occurs_in(pb, pa) {
        let t = choose|t: int| match_at(pb, pa, t);
        assert(pb.subrange(t, t + pa.len()) == pa);
        assert(forall|x: int|
            0 <= x < pa.len() ==> #[trigger] pa[x] == pb[t + x]);
        assert(pb[t] == pa[0]);
        lemma_bra_bracket_positions(kb, t);
        if t == 0 {
            if ka.len() == kb.len() {
                assert(ka =~= kb) by {
                    assert(forall|x: int|
                        0 <= x < ka.len() ==> #[trigger] ka[x] == pa[x + 2] && pa[x + 2] == pb[x
                            + 2] && pb[x + 2] == kb[x]);
                }
            } else {
                assert(ka.len() < kb.len());
                assert(pa[2 + ka.len() as int] == ']');
                assert(pb[2 + ka.len() as int] == kb[ka.len() as int]);
                assert(kb[ka.len() as int] != ']');
            }
        } else {
            assert(pa[1] == pb[t + 1]);
            assert(pa[1] == '[');
            lemma_bra_bracket_positions(kb, t + 1);
        }
    }
}

/// The key theorem behind the fixed point: the rewritten text holds no
/// occurrence of the old bracketed key, and any tail of the old pattern
/// that begins the result already began the source.
proof fn lemma_replace_clean(s: Seq<char>, ka: Seq<char>, kb: Seq<char>)
    requires
        key_ok(ka),
        key_ok(kb),
        ka != kb,
    ensures
        !occurs_in(replace_all(s, bracketed_s(ka), bracketed_s(kb)), bracketed_s(ka)),
        forall|k: int|
            1 <= k < bracketed_s(ka).len() && begins_with(
                replace_all(s, bracketed_s(ka), bracketed_s(kb)),
                #[trigger] bracketed_s(ka).subrange(k, bracketed_s(ka).len() as int),
            ) ==> begins_with(s, bracketed_s(ka).subrange(k, bracketed_s(ka).len() as int)),
    decreases s.len(),
{
    let pa = bracketed_s(ka);
    let pb = bracketed_s(kb);
    lemma_bra_chars(ka);
    lemma_bra_chars(kb);
    let r = replace_all(s, pa, pb);
    if pa.len() > s.len() {
        assert(r == s);
        if occurs_in(r, pa) {
            let m = choose|m: int| match_at(r, pa, m);
        }
    } else if begins_with(s, pa) {
        let rest = s.subrange(pa.len() as int, s.len() as int);
        lemma_replace_clean(rest, ka, kb);
        let rr = replace_all(rest, pa, pb);
        assert(r == pb + rr);
        assert(!occurs_in(r, pa)) by {
            if occurs_in(pb + rr, pa) {
                lemma_occurs_concat_cases(pb, rr, pa);
                lemma_bra_no_contain(ka, kb);
                if !occurs_in(pb, pa) && !occurs_in(rr, pa) {
                    let t = choose|t: int|
                        0 <= t < pb.len() && t + pa.len() > pb.len() && pa.subrange(
                            0,
                            pb.len() - t,
                        ) == pb.subrange(t, pb.len() as int) && #[trigger] pa.subrange(
                            pb.len() - t,
                            pa.len() as int,
                        ) == rr.subrange(0, t + pa.len() - pb.len());
                    assert(pa.subrange(0, pb.len() - t)[0] == pa[0]);
                    assert(pb.subrange(t, pb.len() as int)[0] == pb[t]);
                    assert(pb[t] == '[');
                    lemma_bra_bracket_positions(kb, t);
                    if t == 0 {
                        assert(pa.len() > pb.len());
                        assert(ka.len() > kb.len());
                        assert(pa.subrange(0, pb.len() as int)[2 + kb.len() as int] == pa[2
                            + kb.len() as int]);
                        assert(pa[2 + kb.len() as int] == pb[2 + kb.len() as int]);
                        assert(pb[2 + kb.len() as int] == ']');
                        assert(pa[2 + kb.len() as int] == ka[kb.len() as int]);
                        assert(ka[kb.len() as int] != ']');
                    } else {
                        assert(pb.len() - t >= 3);
                        assert(pa.subrange(0, pb.len() - t)[1] == pa[1]);
                        assert(pb.subrange(t, pb.len() as int)[1] == pb[t + 1]);
                        assert(pa[1] == '[');
                        lemma_bra_bracket_positions(kb, t + 1);
                    }
                }
            }
        }
        assert forall|k: int|
            1 <= k < pa.len() && begins_with(
                r,
                #[trigger] pa.subrange(k, pa.len() as int),
            ) implies begins_with(s, pa.subrange(k, pa.len() as int)) by {
            let u = pa.subrange(k, pa.len() as int);
            assert(u[0] == pa[k]);
            assert(r[0] == pb[0]);
            assert(pb[0] == '[');
            assert(u[0] == r[0]) by {
                assert(r.subrange(0, u.len() as int)[0] == r[0]);
            }
            lemma_bra_bracket_positions(ka, k);
            assert(k == 1);
            assert(u.len() >= 3);
            assert(u[1] == pa[2]);
            assert(r[1] == pb[1]);
            assert(pb[1] == '[');
            assert(u[1] == r[1]) by {
                assert(r.subrange(0, u.len() as int)[1] == r[1]);
            }
            if ka.len() > 0 {
                assert(pa[2] == ka[0]);
                assert(ka[0] != '[');
            } else {
                assert(pa[2] == ']');
            }
        }
    } else {
        let rest = s.drop_first();
        lemma_replace_clean(rest, ka, kb);
        let rr = replace_all(rest, pa, pb);
        assert(r == seq![s[0]] + rr);
        assert(!occurs_in(r, pa)) by {
            if occurs_in(seq![s[0]] + rr, pa) {
                lemma_occurs_concat_cases(seq![s[0]], rr, pa);
                if occurs_in(seq![s[0]], pa) {
                    let m = choose|m: int| match_at(seq![s[0]], pa, m);
                } else if !occurs_in(rr, pa) {
                    let t = choose|t: int|
                        0 <= t < 1 && t + pa.len() > 1 && pa.subrange(0, 1 - t) == seq![
                            s[0],
                        ].subrange(t, 1) && #[trigger] pa.subrange(1 - t, pa.len() as int)
                            == rr.subrange(0, t + pa.len() - 1);
                    assert(t == 0);
                    assert(pa.subrange(0, 1)[0] == pa[0]);
                    assert(s[0] == pa[0]);
                    assert(begins_with(rr, pa.subrange(1, pa.len() as int))) by {
                        assert(rr.subrange(0, pa.len() - 1) == pa.subrange(
                            1,
                            pa.len() as int,
                        ));
                    }
                    assert(begins_with(rest, pa.subrange(1, pa.len() as int)));
                    assert(begins_with(s, pa)) by {
                        let u1 = pa.subrange(1, pa.len() as int);
                        assert(rest.subrange(0, u1.len() as int) == u1);
                        assert forall|x: int| 1 <= x < pa.len() implies #[trigger] s[x]
                            == pa[x] by {
                            assert(s[x] == rest[x - 1]);
                            assert(rest[x - 1] == rest.subrange(0, u1.len() as int)[x - 1]);
                            assert(u1[x - 1] == pa[x]);
                        }
                        assert(s.subrange(0, pa.len() as int) =~= pa);
                    }
                }
            }
        }
        assert forall|k: int|
            1 <= k < pa.len() && begins_with(
                r,
                #[trigger] pa.subrange(k, pa.len() as int),
            ) implies begins_with(s, pa.subrange(k, pa.len() as int)) by {
            let u = pa.subrange(k, pa.len() as int);
            assert(u[0] == pa[k]);
            assert(r[0] == s[0]);
            assert(u[0] == r[0]) by {
                assert(r.subrange(0, u.len() as int)[0] == r[0]);
            }
            if k == pa.len() - 1 {
                assert(s.subrange(0, 1) =~= u) by {
                    assert(u.len() == 1);
                }
            } else {
                assert(r.subrange(0, u.len() as int) == u);
                assert forall|x: int| 0 <= x < u.len() - 1 implies #[trigger] rr[x] == pa[k + x
                    + 1] by {
                    assert(u[x + 1] == r.subrange(0, u.len() as int)[x + 1]);
                    assert(r[x + 1] == rr[x]);
                    assert(u[x + 1] == pa[k + x + 1]);
                }
                assert(begins_with(rr, pa.subrange(k + 1, pa.len() as int))) by {
                    assert(rr.subrange(0, pa.len() - k - 1) =~= pa.subrange(
                        k + 1,
                        pa.len() as int,
                    )) by {
                        assert forall|x: int|
                            0 <= x < pa.len() - k - 1 implies #[trigger] rr.subrange(
                            0,
                            pa.len() - k - 1,
                        )[x] == pa.subrange(k + 1, pa.len() as int)[x] by {
                            assert(rr.subrange(0, pa.len() - k - 1)[x] == rr[x]);
                            assert(pa.subrange(k + 1, pa.len() as int)[x] == pa[k + 1 + x]);
                            assert(rr[x] == pa[k + x + 1]);
                        }
                    }
                }
                assert(begins_with(rest, pa.subrange(k + 1, pa.len() as int)));
                let u2 = pa.subrange(k + 1, pa.len() as int);
                assert(rest.subrange(0, u2.len() as int) == u2);
                assert(s.subrange(0, u.len() as int) =~= u) by {
                    assert forall|x: int| 0 <= x < u.len() implies #[trigger] s.subrange(
                        0,
                        u.len() as int,
                    )[x] == u[x] by {
                        if x == 0 {
                            assert(s[0] == u[0]);
                        } else {
                            assert(s[x] == rest[x - 1]);
                            assert(rest[x - 1] == rest.subrange(0, u2.len() as int)[x - 1]);
                            assert(u2[x - 1] == pa[k + x]);
                            assert(u[x] == pa[k + x]);
                        }
                    }
                }
            }
        }
    }
}

/// After the rewrite, no occurrence of the old bracketed key remains in
/// the content: the first half of the rename fixed point, at the level of
/// one note's text.
pub proof fn lemma_rewrite_leaves_no_stale_key(s: Seq<char>, old_key: Seq<char>, new_key: Seq<char>)
    requires
        key_ok(old_key),
        key_ok(new_key),
        old_key != new_key,
    ensures
        !occurs_in(
            replace_all(s, bracketed_s(old_key), bracketed_s(new_key)),
            bracketed_s(old_key),
        ),
{
    lemma_replace_clean(s, old_key, new_key);
}

/// Replacement is the identity on text without an occurrence.
pub proof fn lemma_replace_absent(s: Seq<char>, p: Seq<char>, q: Seq<char>)
    requires
        p.len() > 0,
        !occurs_in(s, p),
    ensures
        replace_all(s, p, q) == s,
    decreases s.len(),
{
    if p.len() > s.len() {
    } else if begins_with(s, p) {
        assert(match_at(s, p, 0));
    } else {
        assert(!occurs_in(s.drop_first(), p)) by {
            if occurs_in(s.drop_first(), p) {
                let m = choose|m: int| match_at(s.drop_first(), p, m);
                assert(s.subrange(m + 1, m + 1 + p.len()) =~= s.drop_first().subrange(
                    m,
                    m + p.len(),
                ));
                assert(match_at(s, p, m + 1));
            }
        }
        lemma_replace_absent(s.drop_first(), p, q);
        assert(replace_all(s, p, q) =~= s);
    }
}

/// Renaming a link key is a fixed point: after every `[[old-key]]` has
/// been replaced by `[[new-key]]`, running the same replacement again
/// changes nothing. Keys hold no bracket characters, as the path
/// resolver's link keys do.
pub proof fn lemma_backlink_rewrite_fixed_point(s: Seq<char>, ka: Seq<char>, kb: Seq<char>)
    requires
        key_ok(ka),
        key_ok(kb),
        ka != kb,
    ensures
        replace_all(
            replace_all(s, bracketed_s(ka), bracketed_s(kb)),
            bracketed_s(ka),
            bracketed_s(kb),
        ) == replace_all(s, bracketed_s(ka), bracketed_s(kb)),
{
    lemma_bra_chars(ka);
    lemma_replace_clean(s, ka, kb);
    lemma_replace_absent(
        replace_all(s, bracketed_s(ka), bracketed_s(kb)),
        bracketed_s(ka),
        bracketed_s(kb),
    );
}

} // verus!

verus! {

proof fn lemma_last_idx_range(p: Seq<char>, c: char)
    ensures
        -1 <= crate::paths::last_idx_of(p, c) < p.len(),
    decreases p.len(),
{
    if p.len() > 0 && p.last() != c {
        lemma_last_idx_range(p.drop_last(), c);
    }
}

proof fn lemma_norm_keeps_key_ok(s: Seq<char>)
    requires
        key_ok(s),
    ensures
        key_ok(crate::paths::norm_seps_s(s)),
    decreases s.len(),
{
    if s.len() > 0 {
        assert(key_ok(s.drop_last())) by {
            assert(forall|i: int|
                0 <= i < s.drop_last().len() ==> #[trigger] s.drop_last()[i] == s[i]);
        }
        lemma_norm_keeps_key_ok(s.drop_last());
        let w = crate::paths::norm_seps_s(s);
        let dl = crate::paths::norm_seps_s(s.drop_last());
        assert forall|i: int| 0 <= i < w.len() implies (#[trigger] w[i]) != '[' && w[i]
            != ']' by {
            if i < w.len() - 1 {
                assert(w[i] == dl[i]);
            } else {
                assert(s[s.len() - 1] != '[' && s[s.len() - 1] != ']');
            }
        }
    }
}

/// Link keys inherit bracket-freedom from the paths they are cut from:
/// when a stored path holds no bracket characters, neither does its
/// canonical link key, so the fixed-point theorem applies to it.
pub proof fn lemma_link_key_brackets(base: Seq<char>, p: Seq<char>)
    requires
        key_ok(p),
    ensures
        key_ok(crate::paths::link_key_s(base, p)),
{
    let r = crate::paths::rel_of_s(base, p);
    assert(key_ok(r)) by {
        if p == base {
        } else if begins_with(p, base + seq!['/']) {
            assert forall|i: int| 0 <= i < r.len() implies (#[trigger] r[i]) != '[' && r[i]
                != ']' by {
                assert(r[i] == p[base.len() + 1 + i]);
                assert(p[base.len() + 1 + i] != '[' && p[base.len() + 1 + i] != ']');
            }
        }
    }
    let k = crate::paths::strip_ext_s(r);
    let si = crate::paths::last_idx_of(r, '/');
    let di = crate::paths::last_idx_of(r, '.');
    lemma_last_idx_range(r, '.');
    lemma_last_idx_range(r, '/');
    if di > si + 1 {
        assert(k == r.subrange(0, di));
        assert forall|i: int| 0 <= i < k.len() implies (#[trigger] k[i]) != '[' && k[i]
            != ']' by {
            assert(k[i] == r[i]);
            assert(r[i] != '[' && r[i] != ']');
        }
    }
    lemma_norm_keeps_key_ok(k);
}

} // verus!

verus! {

proof fn lemma_absent_in_suffix(s: Seq<char>, p: Seq<char>, a: int)
    requires
        !occurs_in(s, p),
        0 <= a <= s.len(),
    ensures
        !occurs_in(s.subrange(a, s.len() as int), p),
{
    let w = s.subrange(a, s.len() as int);
    if occurs_in(w, p) {
        let m = choose|m: int| match_at(w, p, m);
        assert(s.subrange(a + m, a + m + p.len()) =~= w.subrange(m, m + p.len()));
        assert(match_at(s, p, a + m));
    }
}

/// Replacing one bracketed key by another cannot plant a third: text free
/// of `[[a]]` stays free of it across a `[[t]]` to `[[u]]` rewrite, as
/// long as `a` is not `u` itself.
proof fn lemma_replace_keeps_clear(s: Seq<char>, kt: Seq<char>, ku: Seq<char>, ka: Seq<char>)
    requires
        key_ok(kt),
        key_ok(ku),
        key_ok(ka),
        ka != ku,
        !occurs_in(s, bracketed_s(ka)),
    ensures
        !occurs_in(replace_all(s, bracketed_s(kt), bracketed_s(ku)), bracketed_s(ka)),
        forall|k: int|
            1 <= k < bracketed_s(ka).len() && begins_with(
                replace_all(s, bracketed_s(kt), bracketed_s(ku)),
                #[trigger] bracketed_s(ka).subrange(k, bracketed_s(ka).len() as int),
            ) ==> begins_with(s, bracketed_s(ka).subrange(k, bracketed_s(ka).len() as int)),
    decreases s.len(),
{
    let pa = bracketed_s(ka);
    let pt = bracketed_s(kt);
    let pu = bracketed_s(ku);
    lemma_bra_chars(ka);
    lemma_bra_chars(kt);
    lemma_bra_chars(ku);
    let r = replace_all(s, pt, pu);
    if pt.len() > s.len() {
        assert(r == s);
    } else if begins_with(s, pt) {
        let rest = s.subrange(pt.len() as int, s.len() as int);
        lemma_absent_in_suffix(s, pa, pt.len() as int);
        lemma_replace_keeps_clear(rest, kt, ku, ka);
        let rr = replace_all(rest, pt, pu);
        assert(r == pu + rr);
        assert(!occurs_in(r, pa)) by {
            if occurs_in(pu + rr, pa) {
                lemma_occurs_concat_cases(pu, rr, pa);
                lemma_bra_no_contain(ka, ku);
                if !occurs_in(pu, pa) && !occurs_in(rr, pa) {
                    let t = choose|t: int|
                        0 <= t < pu.len() && t + pa.len() > pu.len() && pa.subrange(
                            0,
                            pu.len() - t,
                        ) == pu.subrange(t, pu.len() as int) && #[trigger] pa.subrange(
                            pu.len() - t,
                            pa.len() as int,
                        ) == rr.subrange(0, t + pa.len() - pu.len());
                    assert(pa.subrange(0, pu.len() - t)[0] == pa[0]);
                    assert(pu.subrange(t, pu.len() as int)[0] == pu[t]);
                    assert(pu[t] == '[');
                    lemma_bra_bracket_positions(ku, t);
                    if t == 0 {
                        assert(pa.len() > pu.len());
                        assert(ka.len() > ku.len());
                        assert(pa.subrange(0, pu.len() as int)[2 + ku.len() as int] == pa[2
                            + ku.len() as int]);
                        assert(pa[2 + ku.len() as int] == pu[2 + ku.len() as int]);
                        assert(pu[2 + ku.len() as int] == ']');
                        assert(pa[2 + ku.len() as int] == ka[ku.len() as int]);
                        assert(ka[ku.len() as int] != ']');
                    } else {
                        assert(pu.len() - t >= 3);
                        assert(pa.subrange(0, pu.len() - t)[1] == pa[1]);
                        assert(pu.subrange(t, pu.len() as int)[1] == pu[t + 1]);
                        assert(pa[1] == '[');
                        lemma_bra_bracket_positions(ku, t + 1);
                    }
                }
            }
        }
        assert forall|k: int|
            1 <= k < pa.len() && begins_with(
                r,
                #[trigger] pa.subrange(k, pa.len() as int),
            ) implies begins_with(s, pa.subrange(k, pa.len() as int)) by {
            let u = pa.subrange(k, pa.len() as int);
            assert(u[0] == pa[k]);
            assert(r[0] == pu[0]);
            assert(pu[0] == '[');
            assert(u[0] == r[0]) by {
                assert(r.subrange(0, u.len() as int)[0] == r[0]);
            }
            lemma_bra_bracket_positions(ka, k);
            assert(k == 1);
            assert(u.len() >= 3);
            assert(u[1] == pa[2]);
            assert(r[1] == pu[1]);
            assert(pu[1] == '[');
            assert(u[1] == r[1]) by {
                assert(r.subrange(0, u.len() as int)[1] == r[1]);
            }
            if ka.len() > 0 {
                assert(pa[2] == ka[0]);
                assert(ka[0] != '[');
            } else {
                assert(pa[2] == ']');
            }
        }
    } else {
        let rest = s.drop_first();
        assert(!occurs_in(rest, pa)) by {
            lemma_absent_in_suffix(s, pa, 1);
            assert(rest =~= s.subrange(1, s.len() as int));
        }
        lemma_replace_keeps_clear(rest, kt, ku, ka);
        let rr = replace_all(rest, pt, pu);
        assert(r == seq![s[0]] + rr);
        assert(!occurs_in(r, pa)) by {
            if occurs_in(seq![s[0]] + rr, pa) {
                lemma_occurs_concat_cases(seq![s[0]], rr, pa);
                if occurs_in(seq![s[0]], pa) {
                    let m = choose|m: int| match_at(seq![s[0]], pa, m);
                } else if !occurs_in(rr, pa) {
                    let t = choose|t: int|
                        0 <= t < 1 && t + pa.len() > 1 && pa.subrange(0, 1 - t) == seq![
                            s[0],
                        ].subrange(t, 1) && #[trigger] pa.subrange(1 - t, pa.len() as int)
                            == rr.subrange(0, t + pa.len() - 1);
                    assert(t == 0);
                    assert(pa.subrange(0, 1)[0] == pa[0]);
                    assert(s[0] == pa[0]);
                    assert(begins_with(rr, pa.subrange(1, pa.len() as int))) by {
                        assert(rr.subrange(0, pa.len() - 1) == pa.subrange(
                            1,
                            pa.len() as int,
                        ));
                    }
                    assert(begins_with(rest, pa.subrange(1, pa.len() as int)));
                    assert(occurs_in(s, pa)) by {
                        let u1 = pa.subrange(1, pa.len() as int);
                        assert(rest.subrange(0, u1.len() as int) == u1);
                        assert forall|x: int| 1 <= x < pa.len() implies #[trigger] s[x]
                            == pa[x] by {
                            assert(s[x] == rest[x - 1]);
                            assert(rest[x - 1] == rest.subrange(0, u1.len() as int)[x - 1]);
                            assert(u1[x - 1] == pa[x]);
                        }
                        assert(s.subrange(0, pa.len() as int) =~= pa);
                        assert(match_at(s, pa, 0));
                    }
                }
            }
        }
        assert forall|k: int|
            1 <= k < pa.len() && begins_with(
                r,
                #[trigger] pa.subrange(k, pa.len() as int),
            ) implies begins_with(s, pa.subrange(k, pa.len() as int)) by {
            let u = pa.subrange(k, pa.len() as int);
            assert(u[0] == pa[k]);
            assert(r[0] == s[0]);
            assert(u[0] == r[0]) by {
                assert(r.subrange(0, u.len() as int)[0] == r[0]);
            }
            if k == pa.len() - 1 {
                assert(s.subrange(0, 1) =~= u) by {
                    assert(u.len() == 1);
                }
            } else {
                assert(r.subrange(0, u.len() as int) == u);
                assert forall|x: int| 0 <= x < u.len() - 1 implies #[trigger] rr[x] == pa[k + x
                    + 1] by {
                    assert(u[x + 1] == r.subrange(0, u.len() as int)[x + 1]);
                    assert(r[x + 1] == rr[x]);
                    assert(u[x + 1] == pa[k + x + 1]);
                }
                assert(begins_with(rr, pa.subrange(k + 1, pa.len() as int))) by {
                    assert(rr.subrange(0, pa.len() - k - 1) =~= pa.subrange(
                        k + 1,
                        pa.len() as int,
                    )) by {
                        assert forall|x: int|
                            0 <= x < pa.len() - k - 1 implies #[trigger] rr.subrange(
                            0,
                            pa.len() - k - 1,
                        )[x] == pa.subrange(k + 1, pa.len() as int)[x] by {
                            assert(rr.subrange(0, pa.len() - k - 1)[x] == rr[x]);
                            assert(pa.subrange(k + 1, pa.len() as int)[x] == pa[k + 1 + x]);
                            assert(rr[x] == pa[k + x + 1]);
                        }
                    }
                }
                assert(begins_with(rest, pa.subrange(k + 1, pa.len() as int)));
                let u2 = pa.subrange(k + 1, pa.len() as int);
                assert(rest.subrange(0, u2.len() as int) == u2);
                assert(s.subrange(0, u.len() as int) =~= u) by {
                    assert forall|x: int| 0 <= x < u.len() implies #[trigger] s.subrange(
                        0,
                        u.len() as int,
                    )[x] == u[x] by {
                        if x == 0 {
                            assert(s[0] == u[0]);
                        } else {
                            assert(s[x] == rest[x - 1]);
                            assert(rest[x - 1] == rest.subrange(0, u2.len() as int)[x - 1]);
                            assert(u2[x - 1] == pa[k + x]);
                            assert(u[x] == pa[k + x]);
                        }
                    }
                }
            }
        }
    }
}

/// The whole rewriter — the link-key replacement followed by the title
/// replacement — is a fixed point: running it a second time on any
/// rewritten content changes nothing. Keys and titles hold no bracket
/// characters, the new key differs from the old, the new title from the
/// old, and the new title does not spell the old key.
pub proof fn lemma_rewriter_pair_fixed_point(
    c: Seq<char>,
    old_key: Seq<char>,
    new_key: Seq<char>,
    old_title: Seq<char>,
    new_title: Seq<char>,
    use2: bool,
)
    requires
        key_ok(old_key),
        key_ok(new_key),
        key_ok(old_title),
        key_ok(new_title),
        old_key != new_key,
        old_title != new_title,
        old_key != new_title,
    ensures
        ({
            let once = crate::links::rewritten_content(
                c,
                bracketed_s(old_key),
                bracketed_s(new_key),
                bracketed_s(old_title),
                bracketed_s(new_title),
                use2,
            );
            crate::links::rewritten_content(
                once,
                bracketed_s(old_key),
                bracketed_s(new_key),
                bracketed_s(old_title),
                bracketed_s(new_title),
                use2,
            ) == once
        }),
{
    let pk = bracketed_s(old_key);
    let qk = bracketed_s(new_key);
    let pt = bracketed_s(old_title);
    let qt = bracketed_s(new_title);
    lemma_bra_chars(old_key);
    lemma_bra_chars(old_title);
    let r1 = replace_all(c, pk, qk);
    lemma_replace_clean(c, old_key, new_key);
    if use2 {
        let r2 = replace_all(r1, pt, qt);
        lemma_replace_keeps_clear(r1, old_title, new_title, old_key);
        lemma_replace_absent(r2, pk, qk);
        lemma_replace_clean(r1, old_title, new_title);
        lemma_replace_absent(r2, pt, qt);
    } else {
        lemma_replace_absent(r1, pk, qk);
    }
}

} // verus!

verus! {

/// The descendant closure reads only ids and parent links, so flagging
/// rows does not change it.
proof fn lemma_closure_step_flags(a: Seq<FolderV>, b: Seq<FolderV>, s: Set<int>)
    requires
        a.len() == b.len(),
        forall|i: int|
            0 <= i < a.len() ==> (#[trigger] a[i]).id == b[i].id && a[i].parent_id
                == b[i].parent_id,
    ensures
        closure_step(a, s) == closure_step(b, s),
    decreases a.len(),
{
    if a.len() > 0 {
        assert(forall|i: int|
            0 <= i < a.drop_last().len() ==> (#[trigger] a.drop_last()[i]).id
                == b.drop_last()[i].id && a.drop_last()[i].parent_id
                == b.drop_last()[i].parent_id);
        lemma_closure_step_flags(a.drop_last(), b.drop_last(), s);
        assert(a[a.len() - 1].id == b[a.len() - 1].id);
        assert(a[a.len() - 1].parent_id == b[a.len() - 1].parent_id);
    }
}

proof fn lemma_closure_iter_flags(a: Seq<FolderV>, b: Seq<FolderV>, s: Set<int>, k: nat)
    requires
        a.len() == b.len(),
        forall|i: int|
            0 <= i < a.len() ==> (#[trigger] a[i]).id == b[i].id && a[i].parent_id
                == b[i].parent_id,
    ensures
        closure_iter(a, s, k) == closure_iter(b, s, k),
    decreases k,
{
    if k > 0 {
        lemma_closure_iter_flags(a, b, s, (k - 1) as nat);
        lemma_closure_step_flags(a, b, closure_iter(a, s, (k - 1) as nat));
    }
}

/// Carrying a path into a fresh directory and back returns it unchanged,
/// as long as it did not already sit under the target.
proof fn lemma_replace_prefix_roundtrip(p: Seq<char>, a: Seq<char>, b: Seq<char>)
    requires
        !under_prefix_s(p, b),
    ensures
        crate::paths::replace_prefix_s(crate::paths::replace_prefix_s(p, a, b), b, a) == p,
{
    let sep = seq!['/'];
    if p == a {
        assert(crate::paths::replace_prefix_s(p, a, b) == b);
        assert(crate::paths::replace_prefix_s(b, b, a) == a);
    } else if begins_with(p, a + sep) {
        let rest = p.subrange(a.len() as int, p.len() as int);
        let p2 = b + rest;
        assert(crate::paths::replace_prefix_s(p, a, b) == p2);
        assert(rest[0] == '/') by {
            assert(p.subrange(0, (a + sep).len() as int) == a + sep);
            assert(p.subrange(0, (a + sep).len() as int)[a.len() as int] == p[a.len() as int]);
            assert((a + sep)[a.len() as int] == '/');
        }
        assert(p2 != b) by {
            assert(p2.len() > b.len());
        }
        assert(begins_with(p2, b + sep)) by {
            assert(p2.subrange(0, (b + sep).len() as int) =~= b + sep) by {
                assert(forall|x: int|
                    0 <= x < b.len() ==> #[trigger] p2[x] == b[x]);
                assert(p2[b.len() as int] == rest[0]);
            }
        }
        assert(crate::paths::replace_prefix_s(p2, b, a) == a + p2.subrange(
            b.len() as int,
            p2.len() as int,
        ));
        assert(p2.subrange(b.len() as int, p2.len() as int) =~= rest);
        assert(a + rest =~= p) by {
            assert forall|x: int| 0 <= x < p.len() implies (a + rest)[x] == p[x] by {
                if x < a.len() {
                    assert(p.subrange(0, (a + sep).len() as int)[x] == p[x]);
                    assert((a + sep)[x] == a[x]);
                } else {
                    assert(rest[x - a.len()] == p[x]);
                }
            }
        }
    } else {
        assert(crate::paths::replace_prefix_s(p, a, b) == p);
        assert(crate::paths::replace_prefix_s(p, b, a) == p) by {
            assert(p != b);
            assert(!begins_with(p, b + sep));
        }
    }
}

proof fn lemma_reindex_touches_only_search(v0: VaultV, k: int, s: Set<int>)
    ensures
        crate::folders::reindex_upto(v0, k, s) == (VaultV {
            search: crate::folders::reindex_upto(v0, k, s).search,
            ..v0
        }),
    decreases k,
{
    if k > 0 {
        lemma_reindex_touches_only_search(v0, k - 1, s);
    }
}

/// Soft-deleting a folder and then restoring it brings back the same
/// folder rows, the same note rows, and the same files: the identity on
/// everything the caller can see of the subtree. The recorded parent must
/// still be live and outside the subtree, and no file may already sit
/// under the trash mirror the subtree is parked at.
pub proof fn lemma_delete_restore_folder(v: VaultV, id: int, now: Seq<char>)
    requires
        wf_v(v),
        has_folder(v, id),
        match v.folders[crate::vault::folder_at(v, id)].parent_id {
            Some(p) => has_live_folder(v, p) && !folder_closure_s(v.folders, id).contains(p),
            None => true,
        },
        forall|j: int|
            0 <= j < v.files.len() ==> !under_prefix_s(
                (#[trigger] v.files[j]).path,
                trash_path_s(v.base, v.folders[crate::vault::folder_at(v, id)].folder_path),
            ),
    ensures
        ({
            let w = crate::folders::restore_folder_t(delete_folder_t(v, id, now), id);
            let i = crate::vault::folder_at(v, id);
            let s = folder_closure_s(v.folders, id);
            &&& w.files =~= v.files
            &&& w.folders.len() == v.folders.len()
            &&& forall|j: int|
                0 <= j < v.folders.len() ==> #[trigger] w.folders[j] == (FolderV {
                    is_deleted: if s.contains(v.folders[j].id) {
                        false
                    } else {
                        v.folders[j].is_deleted
                    },
                    deleted_at: if s.contains(v.folders[j].id) {
                        None
                    } else {
                        v.folders[j].deleted_at
                    },
                    ..v.folders[j]
                })
            &&& w.notes.len() == v.notes.len()
            &&& forall|j: int|
                0 <= j < v.notes.len() ==> #[trigger] w.notes[j] == (NoteV {
                    is_deleted: if v.notes[j].parent_id is Some && s.contains(
                        v.notes[j].parent_id->Some_0,
                    ) {
                        false
                    } else {
                        v.notes[j].is_deleted
                    },
                    deleted_at: if v.notes[j].parent_id is Some && s.contains(
                        v.notes[j].parent_id->Some_0,
                    ) {
                        None
                    } else {
                        v.notes[j].deleted_at
                    },
                    ..v.notes[j]
                })
        }),
{
    let i = crate::vault::folder_at(v, id);
    let f = v.folders[i];
    let fp = f.folder_path;
    let tp = trash_path_s(v.base, fp);
    let s = folder_closure_s(v.folders, id);
    let d = delete_folder_t(v, id, now);

    assert(crate::vault::folder_at(d, id) == i) by {
        assert(d.folders[i].id == id);
        let w0 = crate::vault::folder_at(d, id);
        assert(d.folders[w0].id == id);
        if w0 != i {
            assert(d.folders[w0].id == v.folders[w0].id);
            assert(crate::vault::distinct_keys(v.folders, |g: FolderV| crate::vault::folder_key(g)));
        }
    }
    assert(folder_closure_s(d.folders, id) == s) by {
        lemma_closure_iter_flags(
            d.folders,
            v.folders,
            Set::<int>::empty().insert(id),
            v.folders.len() as nat,
        );
    }
    assert(s.contains(id)) by {
        lemma_closure_iter_grows(
            v.folders,
            Set::<int>::empty().insert(id),
            v.folders.len() as nat,
        );
    }
    assert(d.folders[i].folder_path == fp);

    let r = crate::folders::restore_folder_t(d, id);
    let s2 = folder_closure_s(d.folders, id);
    let folders1 = crate::folders::flag_folders(d.folders, s2, false, None);
    let v1 = VaultV {
        notes: crate::folders::flag_notes(d.notes, s2, false, None),
        folders: folders1.update(
            i,
            FolderV {
                parent_id: crate::notes::restored_parent(d, d.folders[i].parent_id),
                ..folders1[i]
            },
        ),
        files: crate::vault::move_tree_t(
            d.files,
            trash_path_s(d.base, d.folders[i].folder_path),
            d.folders[i].folder_path,
        ),
        ..d
    };
    assert(r == crate::folders::reindex_upto(v1, v1.notes.len() as int, s2));
    lemma_reindex_touches_only_search(v1, v1.notes.len() as int, s2);
    assert(r.files == v1.files);
    assert(r.folders == v1.folders);
    assert(r.notes == v1.notes);

    // The files: the subtree was carried to the trash mirror and back.
    assert(r.files =~= v.files) by {
        assert forall|j: int| 0 <= j < v.files.len() implies #[trigger] r.files[j]
            == v.files[j] by {
            assert(d.files[j].path == crate::paths::replace_prefix_s(
                v.files[j].path,
                fp,
                tp,
            ));
            assert(d.files[j].content == v.files[j].content);
            assert(r.files[j].path == crate::paths::replace_prefix_s(d.files[j].path, tp, fp));
            lemma_replace_prefix_roundtrip(v.files[j].path, fp, tp);
        }
    }

    // The restored parent is the recorded one: it sits outside the
    // closure, so the delete left it live.
    assert(crate::notes::restored_parent(d, d.folders[i].parent_id) == f.parent_id) by {
        match f.parent_id {
            Some(p) => {
                let wp = choose|wp: int|
                    0 <= wp < v.folders.len() && v.folders[wp].id == p
                        && !(#[trigger] v.folders[wp]).is_deleted;
                assert(d.folders[wp].id == p);
                assert(!s.contains(v.folders[wp].id));
                assert(!d.folders[wp].is_deleted);
                assert(has_live_folder(d, p));
            },
            None => {},
        }
    }
}

} // verus!

verus! {

// ------------------------------------------------------------------
// The hierarchy/path coherence of the metadata index: every entity whose
// parent is a folder has a path that is a child of that folder's path. A
// folder rename restores it.
// ------------------------------------------------------------------

/// A path directly or transitively inside the given directory path.
pub open spec fn child_of(p: Seq<char>, parent_path: Seq<char>) -> bool {
    begins_with(p, parent_path + seq!['/'])
}

pub open spec fn folder_paths_nonempty(v: VaultV) -> bool {
    forall|i: int|
        0 <= i < v.folders.len() ==> (#[trigger] v.folders[i]).folder_path.len() > 0
}

/// The invariant of the stored paths: every folder and note whose
/// `parent_id` names an existing folder has a path that is a child of
/// that folder's `folder_path`.
pub open spec fn paths_coherent(v: VaultV) -> bool {
    &&& forall|i: int|
        0 <= i < v.folders.len() ==> (match (#[trigger] v.folders[i]).parent_id {
            Some(p) => has_folder(v, p) ==> child_of(
                v.folders[i].folder_path,
                v.folders[crate::vault::folder_at(v, p)].folder_path,
            ),
            None => true,
        })
    &&& forall|i: int|
        0 <= i < v.notes.len() ==> (match (#[trigger] v.notes[i]).parent_id {
            Some(p) => has_folder(v, p) ==> child_of(
                v.notes[i].file_path,
                v.folders[crate::vault::folder_at(v, p)].folder_path,
            ),
            None => true,
        })
}

proof fn lemma_last_slash_at_least(p: Seq<char>, j: int)
    requires
        0 <= j < p.len(),
        p[j] == '/',
    ensures
        crate::paths::last_idx_of(p, '/') >= j,
    decreases p.len(),
{
    if p.last() == '/' {
    } else {
        assert(j < p.len() - 1);
        assert(p.drop_last()[j] == p[j]);
        lemma_last_slash_at_least(p.drop_last(), j);
    }
}

/// Renaming the leaf of a path keeps it inside the same enclosing
/// directory.
proof fn lemma_rename_stays_child(old: Seq<char>, q: Seq<char>, name: Seq<char>)
    requires
        child_of(old, q),
        q.len() > 0,
        name.len() > 0,
        name[0] != '/',
    ensures
        child_of(crate::paths::join_path_s(crate::paths::parent_dir_s(old), name), q),
{
    let sep = seq!['/'];
    assert(old.subrange(0, (q + sep).len() as int) == q + sep);
    assert forall|x: int| 0 <= x <= q.len() implies #[trigger] old[x] == (q + sep)[x] by {
        assert(old.subrange(0, (q + sep).len() as int)[x] == old[x]);
    }
    assert(old[q.len() as int] == '/');
    lemma_last_slash_at_least(old, q.len() as int);
    lemma_last_idx_range(old, '/');
    let li = crate::paths::last_idx_of(old, '/');
    let pd = crate::paths::parent_dir_s(old);
    assert(pd == old.subrange(0, li));
    assert(pd.len() == li >= q.len() >= 1);
    let jn = crate::paths::join_path_s(pd, name);
    assert(jn == pd + sep + name);
    assert(jn.subrange(0, (q + sep).len() as int) =~= q + sep) by {
        assert forall|x: int| 0 <= x < q.len() + 1 implies #[trigger] jn.subrange(
            0,
            (q + sep).len() as int,
        )[x] == (q + sep)[x] by {
            assert(jn.subrange(0, (q + sep).len() as int)[x] == jn[x]);
            if x < li {
                assert(jn[x] == pd[x]);
                assert(pd[x] == old[x]);
            } else {
                assert(x == li);
                assert(li == q.len());
                assert(jn[x] == '/');
            }
        }
    }
}

/// Two directory prefixes of one path nest: the shorter encloses the
/// longer.
proof fn lemma_prefix_lattice(r: Seq<char>, a: Seq<char>, b: Seq<char>)
    requires
        child_of(r, a),
        child_of(r, b),
        a.len() < b.len(),
    ensures
        child_of(b, a),
{
    let sep = seq!['/'];
    assert(r.subrange(0, (a + sep).len() as int) == a + sep);
    assert(r.subrange(0, (b + sep).len() as int) == b + sep);
    assert(b.subrange(0, (a + sep).len() as int) =~= a + sep) by {
        assert forall|x: int| 0 <= x < a.len() + 1 implies #[trigger] b.subrange(
            0,
            (a + sep).len() as int,
        )[x] == (a + sep)[x] by {
            assert(b.subrange(0, (a + sep).len() as int)[x] == b[x]);
            assert(r.subrange(0, (b + sep).len() as int)[x] == r[x]);
            assert((b + sep)[x] == b[x]);
            assert(r.subrange(0, (a + sep).len() as int)[x] == r[x]);
        }
    }
}

/// After a folder rename, the §3 invariant is restored: every folder and
/// note whose `parent_id` names a folder again has a path that is a child
/// of that folder's path. The rename keeps the stored parent (re-parenting
/// is the move operation's business), the new name is a plain nonempty
/// component, and the renamed folder's own parent does not sit inside the
/// renamed subtree.
pub proof fn lemma_update_folder_restores_coherence(
    v: VaultV,
    id: int,
    name: Seq<char>,
    icon: Option<Seq<char>>,
    color: Option<Seq<char>>,
    sort_by: Option<Seq<char>>,
    sort_order: Option<Seq<char>>,
    now: Seq<char>,
)
    requires
        wf_v(v),
        paths_coherent(v),
        folder_paths_nonempty(v),
        has_folder(v, id),
        name.len() > 0,
        name[0] != '/',
        match v.folders[crate::vault::folder_at(v, id)].parent_id {
            Some(p) => has_folder(v, p) ==> !under_prefix_s(
                v.folders[crate::vault::folder_at(v, p)].folder_path,
                v.folders[crate::vault::folder_at(v, id)].folder_path,
            ),
            None => true,
        },
    ensures
        paths_coherent(
            crate::folders::update_folder_t(
                v,
                id,
                name,
                v.folders[crate::vault::folder_at(v, id)].parent_id,
                icon,
                color,
                sort_by,
                sort_order,
                now,
            ),
        ),
{
    let sep = seq!['/'];
    let i = crate::vault::folder_at(v, id);
    let f = v.folders[i];
    let old = f.folder_path;
    let nw = crate::paths::join_path_s(crate::paths::parent_dir_s(old), name);
    let w = crate::folders::update_folder_t(
        v,
        id,
        name,
        f.parent_id,
        icon,
        color,
        sort_by,
        sort_order,
        now,
    );
    let folders1 = crate::folders::prefix_rewrite_folders(v.folders, old, nw);
    let g = folders1[i];
    let folders2 = folders1.update(
        i,
        FolderV {
            name: name,
            parent_id: f.parent_id,
            icon: icon,
            color: color,
            sort_by: sort_by,
            sort_order: sort_order,
            ..g
        },
    );
    let notes2 = crate::folders::prefix_rewrite_notes(v.notes, old, nw);
    let v2 = VaultV {
        files: if nw == old {
            v.files
        } else {
            crate::vault::move_tree_t(v.files, old, nw)
        },
        folders: folders2,
        notes: notes2,
        ..v
    };
    let old_rel = crate::paths::link_key_s(v.base, old);
    let new_rel = crate::paths::link_key_s(v.base, nw);
    if old_rel == new_rel {
        assert(w == v2);
    } else {
        assert(wf_v(v2)) by {
            assert forall|a: int, b: int|
                0 <= a < b < v2.folders.len() implies crate::vault::folder_key(v2.folders[a])
                != crate::vault::folder_key(v2.folders[b]) by {
                assert(v2.folders[a].id == v.folders[a].id);
                assert(v2.folders[b].id == v.folders[b].id);
            }
            assert forall|k: int| 0 <= k < v2.folders.len() implies 0
                < #[trigger] v2.folders[k].id < v2.next_folder_id by {
                assert(v2.folders[k].id == v.folders[k].id);
            }
            assert forall|a: int, b: int|
                0 <= a < b < v2.notes.len() implies crate::vault::note_key(v2.notes[a])
                != crate::vault::note_key(v2.notes[b]) by {
                assert(v2.notes[a].id == v.notes[a].id);
                assert(v2.notes[b].id == v.notes[b].id);
            }
            assert forall|k: int| 0 <= k < v2.notes.len() implies 0
                < #[trigger] v2.notes[k].id < v2.next_note_id by {
                assert(v2.notes[k].id == v.notes[k].id);
            }
        }
        crate::links::lemma_rewrite_upto_shape(
            v2,
            v2.notes.len() as int,
            "[["@ + old_rel + seq!['/'],
            "[["@ + new_rel + seq!['/'],
            Seq::<char>::empty(),
            Seq::<char>::empty(),
            false,
            true,
            now,
        );
        assert(w.folders == v2.folders);
        assert(w.notes.len() == v2.notes.len());
    }
    // Rows and ids agree pointwise with v2, so coherence of v2 carries
    // to w.
    assert(w.folders == folders2);
    assert(forall|t: int|
        0 <= t < w.notes.len() ==> (#[trigger] w.notes[t]).file_path == notes2[t].file_path
            && w.notes[t].parent_id == notes2[t].parent_id);
    assert(w.notes.len() == notes2.len());

    assert forall|ii: int| 0 <= ii < w.folders.len() implies (match (
    #[trigger] w.folders[ii]).parent_id {
        Some(p) => has_folder(w, p) ==> child_of(
            w.folders[ii].folder_path,
            w.folders[crate::vault::folder_at(w, p)].folder_path,
        ),
        None => true,
    }) by {
        match w.folders[ii].parent_id {
            Some(p) => {
                if has_folder(w, p) {
                    let pi = crate::vault::folder_at(w, p);
                    assert(0 <= pi < w.folders.len() && w.folders[pi].id == p);
                    assert(v.folders[pi].id == p);
                    assert(has_folder(v, p));
                    let pj = crate::vault::folder_at(v, p);
                    assert(v.folders[pj].id == p);
                    assert(pi == pj) by {
                        if pi != pj {
                            assert(crate::vault::distinct_keys(
                                v.folders,
                                |x: FolderV| crate::vault::folder_key(x),
                            ));
                        }
                    }
                    let fp0 = v.folders[ii].folder_path;
                    let pq0 = v.folders[pj].folder_path;
                    assert(w.folders[ii].parent_id == v.folders[ii].parent_id);
                    assert(child_of(fp0, pq0));
                    lemma_child_path_rewrite(fp0, pq0, old, nw, ii == i, v, id, name);
                    assert(w.folders[ii].folder_path == crate::paths::replace_prefix_s(
                        fp0,
                        old,
                        nw,
                    ));
                    assert(w.folders[pi].folder_path == crate::paths::replace_prefix_s(
                        pq0,
                        old,
                        nw,
                    ));
                }
            },
            None => {},
        }
    }
    assert forall|ii: int| 0 <= ii < w.notes.len() implies (match (
    #[trigger] w.notes[ii]).parent_id {
        Some(p) => has_folder(w, p) ==> child_of(
            w.notes[ii].file_path,
            w.folders[crate::vault::folder_at(w, p)].folder_path,
        ),
        None => true,
    }) by {
        match w.notes[ii].parent_id {
            Some(p) => {
                if has_folder(w, p) {
                    let pi = crate::vault::folder_at(w, p);
                    assert(0 <= pi < w.folders.len() && w.folders[pi].id == p);
                    assert(v.folders[pi].id == p);
                    assert(has_folder(v, p));
                    let pj = crate::vault::folder_at(v, p);
                    assert(v.folders[pj].id == p);
                    assert(pi == pj) by {
                        if pi != pj {
                            assert(crate::vault::distinct_keys(
                                v.folders,
                                |x: FolderV| crate::vault::folder_key(x),
                            ));
                        }
                    }
                    let fp0 = v.notes[ii].file_path;
                    let pq0 = v.folders[pj].folder_path;
                    assert(w.notes[ii].parent_id == v.notes[ii].parent_id);
                    assert(child_of(fp0, pq0));
                    lemma_child_path_rewrite(fp0, pq0, old, nw, false, v, id, name);
                    assert(w.notes[ii].file_path == crate::paths::replace_prefix_s(
                        fp0,
                        old,
                        nw,
                    ));
                    assert(w.folders[pi].folder_path == crate::paths::replace_prefix_s(
                        pq0,
                        old,
                        nw,
                    ));
                }
            },
            None => {},
        }
    }
}

/// One row's child relation survives the prefix rewrite of a rename.
proof fn lemma_child_path_rewrite(
    fp: Seq<char>,
    pq: Seq<char>,
    old: Seq<char>,
    nw: Seq<char>,
    row_is_renamed: bool,
    v: VaultV,
    id: int,
    name: Seq<char>,
)
    requires
        wf_v(v),
        folder_paths_nonempty(v),
        has_folder(v, id),
        name.len() > 0,
        name[0] != '/',
        old == v.folders[crate::vault::folder_at(v, id)].folder_path,
        nw == crate::paths::join_path_s(crate::paths::parent_dir_s(old), name),
        child_of(fp, pq),
        pq.len() > 0,
        old.len() > 0,
        row_is_renamed ==> fp == old && !under_prefix_s(pq, old),
    ensures
        child_of(
            crate::paths::replace_prefix_s(fp, old, nw),
            crate::paths::replace_prefix_s(pq, old, nw),
        ),
{
    let sep = seq!['/'];
    let fp2 = crate::paths::replace_prefix_s(fp, old, nw);
    let pq2 = crate::paths::replace_prefix_s(pq, old, nw);
    if fp == old {
        // The renamed directory itself, or a row sharing its path.
        assert(fp2 == nw);
        if pq == old {
            // Its parent cannot be itself by paths: old under old + '/'
            // would make old longer than itself.
            assert(child_of(old, old));
            assert(old.subrange(0, (old + sep).len() as int) == old + sep);
            assert((old + sep).len() > old.len());
            assert(false);
        } else if begins_with(pq, old + sep) {
            // The parent inside the renamed folder would nest paths both
            // ways.
            assert(pq.subrange(0, (old + sep).len() as int) == old + sep);
            assert(pq.len() > old.len());
            assert(fp.subrange(0, (pq + sep).len() as int) == pq + sep);
            assert(fp.len() > pq.len());
            assert(false);
        } else {
            assert(pq2 == pq);
            lemma_rename_stays_child(old, pq, name);
        }
    } else if begins_with(fp, old + sep) {
        let fs = fp.subrange(old.len() as int, fp.len() as int);
        assert(fp2 == nw + fs);
        assert(fp.subrange(0, (old + sep).len() as int) == old + sep);
        assert(fs[0] == '/') by {
            let ol = old.len() as int;
            assert(fp.subrange(0, (old + sep).len() as int)[ol] == fp[ol]);
            assert((old + sep)[ol] == '/');
        }
        if pq == old {
            assert(pq2 == nw);
            assert(child_of(nw + fs, nw)) by {
                assert((nw + fs).subrange(0, (nw + sep).len() as int) =~= nw + sep) by {
                    assert(forall|x: int|
                        0 <= x < nw.len() ==> #[trigger] (nw + fs)[x] == nw[x]);
                    assert((nw + fs)[nw.len() as int] == fs[0]);
                }
            }
        } else if begins_with(pq, old + sep) {
            let qs = pq.subrange(old.len() as int, pq.len() as int);
            assert(pq2 == nw + qs);
            assert(fp.subrange(0, (pq + sep).len() as int) == pq + sep);
            assert(child_of(nw + fs, nw + qs)) by {
                assert((nw + fs).subrange(0, (nw + qs + sep).len() as int) =~= nw + qs
                    + sep) by {
                    assert forall|x: int| 0 <= x < nw.len() + qs.len() + 1 implies
                        #[trigger] (nw + fs)[x] == (nw + qs + sep)[x] by {
                        if x < nw.len() {
                        } else {
                            assert((nw + fs)[x] == fs[x - nw.len()]);
                            assert(fs[x - nw.len()] == fp[old.len() + x - nw.len()]);
                            if x < nw.len() + qs.len() {
                                assert((nw + qs + sep)[x] == qs[x - nw.len()]);
                                assert(qs[x - nw.len()] == pq[old.len() + x - nw.len()]);
                                assert(fp.subrange(0, (pq + sep).len() as int)[old.len() + x
                                    - nw.len()] == fp[old.len() + x - nw.len()]);
                                assert((pq + sep)[old.len() + x - nw.len()] == pq[old.len()
                                    + x - nw.len()]);
                            } else {
                                assert((nw + qs + sep)[x] == '/');
                                assert(fp.subrange(0, (pq + sep).len() as int)[pq.len() as int]
                                    == fp[pq.len() as int]);
                                assert((pq + sep)[pq.len() as int] == '/');
                            }
                        }
                    }
                }
            }
        } else {
            assert(pq2 == pq);
            if pq.len() < old.len() {
                lemma_prefix_lattice(fp, pq, old);
                lemma_rename_stays_child(old, pq, name);
                assert(child_of(nw + fs, pq)) by {
                    assert(nw.subrange(0, (pq + sep).len() as int) == pq + sep);
                    assert((nw + fs).subrange(0, (pq + sep).len() as int) =~= pq + sep) by {
                        assert(forall|x: int|
                            0 <= x < pq.len() + 1 ==> #[trigger] (nw + fs)[x] == nw[x]);
                        assert(forall|x: int|
                            0 <= x < pq.len() + 1 ==> #[trigger] nw.subrange(
                                0,
                                (pq + sep).len() as int,
                            )[x] == nw[x]);
                    }
                }
            } else if pq.len() == old.len() {
                assert(pq =~= old) by {
                    assert(fp.subrange(0, (pq + sep).len() as int) == pq + sep);
                    assert(fp.subrange(0, (old + sep).len() as int) == old + sep);
                    assert forall|x: int| 0 <= x < pq.len() implies #[trigger] pq[x]
                        == old[x] by {
                        assert(fp.subrange(0, (pq + sep).len() as int)[x] == fp[x]);
                        assert(fp.subrange(0, (old + sep).len() as int)[x] == fp[x]);
                        assert((pq + sep)[x] == pq[x]);
                        assert((old + sep)[x] == old[x]);
                    }
                }
                assert(false);
            } else {
                lemma_prefix_lattice(fp, old, pq);
                assert(begins_with(pq, old + sep));
                assert(false);
            }
        }
    } else {
        assert(fp2 == fp);
        if pq == old || begins_with(pq, old + sep) {
            // The parent under the renamed subtree would pull the child
            // in with it.
            if pq == old {
                assert(begins_with(fp, old + sep));
                assert(false);
            } else {
                assert(child_of(fp, pq));
                assert(child_of(pq, old));
                lemma_child_chain(fp, pq, old);
                assert(false);
            }
        } else {
            assert(pq2 == pq);
        }
    }
}

/// Being inside a folder that is inside a directory means being inside
/// that directory.
proof fn lemma_child_chain(fp: Seq<char>, pq: Seq<char>, old: Seq<char>)
    requires
        child_of(fp, pq),
        child_of(pq, old),
    ensures
        child_of(fp, old),
{
    let sep = seq!['/'];
    assert(fp.subrange(0, (pq + sep).len() as int) == pq + sep);
    assert(pq.subrange(0, (old + sep).len() as int) == old + sep);
    assert(fp.subrange(0, (old + sep).len() as int) =~= old + sep) by {
        assert forall|x: int| 0 <= x < old.len() + 1 implies #[trigger] fp.subrange(
            0,
            (old + sep).len() as int,
        )[x] == (old + sep)[x] by {
            assert(fp.subrange(0, (old + sep).len() as int)[x] == fp[x]);
            assert(fp.subrange(0, (pq + sep).len() as int)[x] == fp[x]);
            assert((pq + sep)[x] == pq[x] || x == pq.len());
            assert(pq.subrange(0, (old + sep).len() as int)[x] == pq[x]) by {
                assert(x < pq.len() + 1);
            }
        }
    }
}

} // verus!

verus! {

// ------------------------------------------------------------------
// The fixed point, lifted to the whole state: once a backlink pass has
// run, running it again changes nothing.
// ------------------------------------------------------------------

/// After the pass has looked at the first `j` notes, none of them would
/// be touched again — each visited note's file already holds a fixed
/// point of the rewrite, so no stale reference pattern that the rewrite
/// would replace remains in it — and the files of the notes not yet
/// visited still hold what they held before. Rewriting is assumed
/// idempotent on every content, and notes' paths must not alias.
pub proof fn lemma_pass_cleans(
    v: VaultV,
    j: int,
    p1: Seq<char>,
    q1: Seq<char>,
    p2: Seq<char>,
    q2: Seq<char>,
    use2: bool,
    now: Seq<char>,
)
    requires
        wf_v(v),
        distinct_keys(v.notes, |n: NoteV| n.file_path),
        0 <= j <= v.notes.len(),
        forall|c: Seq<char>| #[trigger] crate::links::rewritten_content(
            crate::links::rewritten_content(c, p1, q1, p2, q2, use2),
            p1,
            q1,
            p2,
            q2,
            use2,
        ) == crate::links::rewritten_content(c, p1, q1, p2, q2, use2),
    ensures
        forall|t: int|
            0 <= t < j ==> !crate::links::rewrite_hits(
                crate::links::rewrite_upto(v, j, p1, q1, p2, q2, use2, true, now),
                t,
                p1,
                q1,
                p2,
                q2,
                use2,
                true,
            ),
        forall|t: int|
            j <= t < v.notes.len() ==> #[trigger] file_content_at(
                crate::links::rewrite_upto(v, j, p1, q1, p2, q2, use2, true, now).files,
                v.notes[t].file_path,
            ) == file_content_at(v.files, v.notes[t].file_path),
    decreases j,
{
    if j > 0 {
        lemma_pass_cleans(v, j - 1, p1, q1, p2, q2, use2, now);
        let u = crate::links::rewrite_upto(v, j - 1, p1, q1, p2, q2, use2, true, now);
        let u2 = crate::links::rewrite_upto(v, j, p1, q1, p2, q2, use2, true, now);
        crate::links::lemma_rewrite_upto_shape(v, j - 1, p1, q1, p2, q2, use2, true, now);
        crate::links::lemma_rewrite_upto_shape(v, j, p1, q1, p2, q2, use2, true, now);
        assert(u2 == crate::links::rewrite_step(u, j - 1, p1, q1, p2, q2, use2, true, now));
        if crate::links::rewrite_hits(u, j - 1, p1, q1, p2, q2, use2, true) {
            let n = u.notes[j - 1];
            let c = file_content_at(u.files, n.file_path)->Some_0;
            let c2 = crate::links::rewritten_content(c, p1, q1, p2, q2, use2);
            assert(u2.files == write_file_t(u.files, n.file_path, c2));
            lemma_content_write(u.files, n.file_path, c2);
            assert forall|t: int| j <= t < v.notes.len() implies #[trigger] file_content_at(
                u2.files,
                v.notes[t].file_path,
            ) == file_content_at(v.files, v.notes[t].file_path) by {
                assert(v.notes[t].file_path != n.file_path) by {
                    assert(n.file_path == v.notes[j - 1].file_path);
                    assert(distinct_keys(v.notes, |m: NoteV| m.file_path));
                }
            }
            assert forall|t: int| 0 <= t < j implies !crate::links::rewrite_hits(
                u2,
                t,
                p1,
                q1,
                p2,
                q2,
                use2,
                true,
            ) by {
                assert(u2.notes[t].file_path == v.notes[t].file_path);
                assert(u2.notes[t].is_deleted == v.notes[t].is_deleted);
                assert(u.notes[t].file_path == v.notes[t].file_path);
                assert(u.notes[t].is_deleted == v.notes[t].is_deleted);
                if t < j - 1 {
                    assert(v.notes[t].file_path != n.file_path) by {
                        assert(distinct_keys(v.notes, |m: NoteV| m.file_path));
                    }
                    assert(file_content_at(
                        write_file_t(u.files, n.file_path, c2),
                        u2.notes[t].file_path,
                    ) == file_content_at(u.files, u2.notes[t].file_path));
                    assert(file_content_at(u2.files, u2.notes[t].file_path)
                        == file_content_at(u.files, u.notes[t].file_path));
                    assert(!crate::links::rewrite_hits(u, t, p1, q1, p2, q2, use2, true));
                } else {
                    assert(file_content_at(
                        write_file_t(u.files, n.file_path, c2),
                        n.file_path,
                    ) == Some(c2));
                    assert(file_content_at(u2.files, n.file_path) == Some(c2));
                    assert(crate::links::rewritten_content(c2, p1, q1, p2, q2, use2) == c2);
                }
            }
        } else {
            assert(u2 == u);
            assert forall|t: int| 0 <= t < j implies !crate::links::rewrite_hits(
                u2,
                t,
                p1,
                q1,
                p2,
                q2,
                use2,
                true,
            ) by {
                if t == j - 1 {
                }
            }
            assert(forall|t: int|
                j <= t < v.notes.len() ==> #[trigger] file_content_at(
                    u2.files,
                    v.notes[t].file_path,
                ) == file_content_at(v.files, v.notes[t].file_path));
        }
    }
}

/// A pass over a state none of whose notes it would touch is the
/// identity.
proof fn lemma_pass_noop(
    w: VaultV,
    k: int,
    p1: Seq<char>,
    q1: Seq<char>,
    p2: Seq<char>,
    q2: Seq<char>,
    use2: bool,
    now2: Seq<char>,
)
    requires
        forall|t: int|
            0 <= t < w.notes.len() ==> !crate::links::rewrite_hits(
                w,
                t,
                p1,
                q1,
                p2,
                q2,
                use2,
                true,
            ),
    ensures
        crate::links::rewrite_upto(w, k, p1, q1, p2, q2, use2, true, now2) == w,
    decreases k,
{
    if k > 0 {
        lemma_pass_noop(w, k - 1, p1, q1, p2, q2, use2, now2);
    }
}

/// The backlink pass is a fixed point of the state: after a rename's
/// pass has rewritten every live note, running the same pass again — at
/// any later time — changes neither a file, nor a preview, nor a search
/// entry, nor any `updated_at`. Keys and titles hold no brackets, the new
/// ones differ from the old, the new title does not spell the old key,
/// and no two notes share a file path.
pub proof fn lemma_rewrite_pass_idempotent(
    v: VaultV,
    old_key: Seq<char>,
    new_key: Seq<char>,
    old_title: Seq<char>,
    new_title: Seq<char>,
    use2: bool,
    now: Seq<char>,
    now2: Seq<char>,
)
    requires
        wf_v(v),
        distinct_keys(v.notes, |n: NoteV| n.file_path),
        key_ok(old_key),
        key_ok(new_key),
        old_key != new_key,
        use2 ==> key_ok(old_title) && key_ok(new_title) && old_title != new_title && old_key
            != new_title,
    ensures
        ({
            let w = crate::links::rewrite_pass_t(
                v,
                bracketed_s(old_key),
                bracketed_s(new_key),
                bracketed_s(old_title),
                bracketed_s(new_title),
                use2,
                true,
                now,
            );
            crate::links::rewrite_pass_t(
                w,
                bracketed_s(old_key),
                bracketed_s(new_key),
                bracketed_s(old_title),
                bracketed_s(new_title),
                use2,
                true,
                now2,
            ) == w
        }),
{
    let p1 = bracketed_s(old_key);
    let q1 = bracketed_s(new_key);
    let p2 = bracketed_s(old_title);
    let q2 = bracketed_s(new_title);
    assert forall|c: Seq<char>| #[trigger] crate::links::rewritten_content(
        crate::links::rewritten_content(c, p1, q1, p2, q2, use2),
        p1,
        q1,
        p2,
        q2,
        use2,
    ) == crate::links::rewritten_content(c, p1, q1, p2, q2, use2) by {
        if use2 {
            lemma_rewriter_pair_fixed_point(c, old_key, new_key, old_title, new_title, true);
        } else {
            lemma_bra_chars(old_key);
            lemma_replace_clean(c, old_key, new_key);
            lemma_replace_absent(replace_all(c, p1, q1), p1, q1);
        }
    }
    let w = crate::links::rewrite_pass_t(v, p1, q1, p2, q2, use2, true, now);
    lemma_pass_cleans(v, v.notes.len() as int, p1, q1, p2, q2, use2, now);
    crate::links::lemma_rewrite_upto_shape(
        v,
        v.notes.len() as int,
        p1,
        q1,
        p2,
        q2,
        use2,
        true,
        now,
    );
    lemma_pass_noop(w, w.notes.len() as int, p1, q1, p2, q2, use2, now2);
}

} // verus!
